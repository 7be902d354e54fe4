//! Sentences and paragraphs are read page by page: no step goes back to an
//! earlier page.
use crate::layout::{column_at, column_words, next_text_column, previous_text_column, text_rank};
use crate::page_text::{DocCalibration, FlatWord};
use crate::paragraph_walk::{
    begins_before, column_end_at, formula_entry, formula_paragraph, lemma_last_word_column, lemma_next_text_words,
    paragraph_alone, paragraph_before, paragraph_from, reaches_column_end, reading_paragraph,
};
use crate::reading::countable_pages;
use crate::selection::{snapped, SelectionStep};
use crate::sentence::{
    flow, flow_on, formula_sentence, lemma_tail_column, open_at_column_start, page_entry, sentence, sentence_before,
    sentence_from, sentence_tail, stretched, takes_part, Stretch,
};
use vstd::prelude::*;

verus! {

/// The steps lie on the pages from `first` to `last`, and no step lies on an
/// earlier page than one before it.
pub open spec fn page_by_page(steps: Seq<SelectionStep>, first: int, last: int) -> bool {
    &&& forall|i: int| 0 <= i < steps.len() ==> first <= (#[trigger] steps[i]).page <= last
    &&& forall|i: int, j: int| 0 <= i <= j < steps.len() ==> (#[trigger] steps[i]).page <= (#[trigger] steps[j]).page
}

proof fn lemma_joined(a: Seq<SelectionStep>, b: Seq<SelectionStep>, first: int, middle: int, last: int)
    requires
        page_by_page(a, first, middle),
        page_by_page(b, middle, last),
        first <= middle <= last,
    ensures
        page_by_page(a + b, first, last),
{
    let all = a + b;
    assert forall|i: int| 0 <= i < all.len() implies first <= (#[trigger] all[i]).page <= last by {
        if i < a.len() {
            assert(all[i] == a[i]);
        } else {
            assert(all[i] == b[i - a.len()]);
        }
    }
    assert forall|i: int, j: int| 0 <= i <= j < all.len() implies (#[trigger] all[i]).page <= (#[trigger] all[j]).page by {
        if j < a.len() {
            assert(all[i] == a[i] && all[j] == a[j]);
        } else if i < a.len() {
            assert(all[i] == a[i] && all[j] == b[j - a.len()]);
        } else {
            assert(all[i] == b[i - a.len()] && all[j] == b[j - a.len()]);
        }
    }
}

// ── sentences ──

proof fn lemma_flow_page(flat: Seq<FlatWord>, cal: DocCalibration, page: u32, j: int, acc: Option<Stretch>, d: nat)
    ensures
        page_by_page(flow(flat, cal, page, j, acc, d).0, page as int, page as int),
    decreases flat.len() - j,
{
    if j < flat.len() {
        if !takes_part(flat, cal, j) {
            lemma_flow_page(flat, cal, page, j + 1, acc, d);
        } else {
            let c = column_at(flat, cal.column_gap_cqw as int, j)->0;
            let now = stretched(acc, j, c);
            lemma_flow_page(flat, cal, page, j + 1, Some(now), crate::boundary::depth_behind(flat[j].text@, d));
        }
    }
}

proof fn lemma_flow_on_pages(flat: Seq<FlatWord>, next: Option<Seq<FlatWord>>, page: u32, cal: DocCalibration, from: int, d: nat)
    requires
        next is Some ==> page < u32::MAX,
    ensures
        page_by_page(flow_on(flat, next, page, cal, from, d), page as int, page + 1),
{
    lemma_flow_page(flat, cal, page, from, None, d);
    let here = flow(flat, cal, page, from, None, d);
    if !here.1 && next is Some && page_entry(next->0, cal) is Some {
        let there = flow(next->0, cal, (page + 1) as u32, page_entry(next->0, cal)->0, None, here.2).0;
        lemma_flow_page(next->0, cal, (page + 1) as u32, page_entry(next->0, cal)->0, None, here.2);
        assert(page_by_page(there, page as int, page + 1));
        lemma_joined(here.0, there, page as int, page as int, page + 1);
    }
}

proof fn lemma_sentence_from_pages(flat: Seq<FlatWord>, a: int, next: Option<Seq<FlatWord>>, page: u32, cal: DocCalibration)
    requires
        next is Some ==> page < u32::MAX,
    ensures
        page_by_page(sentence_from(flat, a, next, page, cal), page as int, page + 1),
{
    let gap = cal.column_gap_cqw as int;
    let s = sentence_from(flat, a, next, page, cal);
    if s.len() > 1 {
        let ws = column_words(flat, gap, column_at(flat, gap, a)->0);
        let rest = s.skip(1);
        assert(exists|d: nat| rest == #[trigger] flow_on(flat, next, page, cal, ws.last() + 1, d)) by {
            let para = crate::paragraph::paragraph(flat, a, cal);
            let para_end = crate::sentence::place_of(ws, para.1, ws.len() - 1);
            let from = crate::sentence::place_of(ws, para.0, 0);
            let at = crate::sentence::place_of(ws, a, 0);
            let start = crate::sentence::start_scan(flat, ws, from, at).0;
            let depth = crate::sentence::opening_depth(flat, ws, from, at);
            let end = crate::sentence::end_scan(flat, ws, start, para_end, depth);
            assert(rest =~= flow_on(flat, next, page, cal, ws.last() + 1, end.1));
        }
        let d = choose|d: nat| rest == #[trigger] flow_on(flat, next, page, cal, ws.last() + 1, d);
        lemma_flow_on_pages(flat, next, page, cal, ws.last() + 1, d);
        let here = s.take(1);
        assert(page_by_page(here, page as int, page as int));
        lemma_joined(here, rest, page as int, page as int, page + 1);
        assert(here + rest =~= s);
    }
}

proof fn lemma_sentence_before_pages(flat: Seq<FlatWord>, idx: int, prev: Option<Seq<FlatWord>>, page: u32, cal: DocCalibration)
    requires
        prev is Some ==> page > 0,
    ensures
        page_by_page(sentence_before(flat, idx, prev, page, cal), page - 1, page as int),
    decreases text_rank(flat, cal.column_gap_cqw as int, column_at(flat, cal.column_gap_cqw as int, idx)),
{
    let gap = cal.column_gap_cqw as int;
    match column_at(flat, gap, idx) {
        None => {},
        Some(col) => {
            if open_at_column_start(flat, idx, cal, col) {
                match previous_text_column(flat, gap, col) {
                    Some(p) => {
                        let pw = column_words(flat, gap, p);
                        lemma_tail_column(flat, gap, col);
                        if sentence_tail(flat, pw) is Some && (sentence_tail(flat, pw)->0).0 == pw[0] {
                            lemma_sentence_before_pages(flat, pw[0], prev, page, cal);
                        }
                    },
                    None => {},
                }
            }
        },
    }
}

/// A sentence is read page by page, from the page before at the earliest to the
/// next page at the latest.
pub proof fn a_sentence_is_read_page_by_page(
    flat: Seq<FlatWord>,
    idx: int,
    prev: Option<Seq<FlatWord>>,
    next: Option<Seq<FlatWord>>,
    page: u32,
    cal: DocCalibration,
)
    requires
        countable_pages(flat, prev, next, page),
    ensures
        page_by_page(sentence(flat, idx, prev, next, page, cal), page - 1, page + 1),
{
    if flat.len() > 0 {
        let a = snapped(flat, idx);
        if !flat[a].formula {
            lemma_sentence_before_pages(flat, a, prev, page, cal);
            lemma_sentence_from_pages(flat, a, next, page, cal);
            lemma_joined(
                sentence_before(flat, a, prev, page, cal),
                sentence_from(flat, a, next, page, cal),
                page - 1,
                page as int,
                page + 1,
            );
        } else {
            assert(formula_sentence(flat, a, page, cal).len() <= 1);
        }
    }
}

// ── paragraphs ──

proof fn lemma_paragraph_before_pages(flat: Seq<FlatWord>, a: int, prev: Option<Seq<FlatWord>>, page: u32, cal: DocCalibration)
    requires
        prev is Some ==> page > 0,
    ensures
        page_by_page(paragraph_before(flat, a, prev, page, cal), page - 1, page as int),
        prev is None ==> page_by_page(paragraph_before(flat, a, prev, page, cal), page as int, page as int),
    decreases text_rank(flat, cal.column_gap_cqw as int, column_at(flat, cal.column_gap_cqw as int, a)),
{
    let gap = cal.column_gap_cqw as int;
    match column_at(flat, gap, a) {
        None => {},
        Some(col) => {
            if begins_before(flat, a, cal, col) {
                match previous_text_column(flat, gap, col) {
                    Some(p) => {
                        if reaches_column_end(flat, cal, p) {
                            lemma_last_word_column(flat, gap, col);
                            lemma_paragraph_before_pages(flat, column_words(flat, gap, p).last(), prev, page, cal);
                        }
                    },
                    None => {},
                }
            }
        },
    }
}

proof fn lemma_paragraph_from_pages(flat: Seq<FlatWord>, a: int, next: Option<Seq<FlatWord>>, page: u32, cal: DocCalibration)
    requires
        next is Some ==> page < u32::MAX,
    ensures
        page_by_page(paragraph_from(flat, a, next, page, cal), page as int, page + 1),
        next is None ==> page_by_page(paragraph_from(flat, a, next, page, cal), page as int, page as int),
    decreases
            (if next is Some { 1int } else { 0int }),
            flat.len() - column_end_at(flat, cal.column_gap_cqw as int, a),
{
    let gap = cal.column_gap_cqw as int;
    match column_at(flat, gap, a) {
        None => {},
        Some(col) => {
            let s = paragraph_from(flat, a, next, page, cal);
            let here = s.take(1);
            assert(page_by_page(here, page as int, page as int));
            match next_text_column(flat, gap, col) {
                Some(c) => {
                    lemma_next_text_words(flat, gap, col);
                    let b = column_words(flat, gap, c)[0];
                    lemma_paragraph_from_pages(flat, b, next, page, cal);
                    let rest = paragraph_from(flat, b, next, page, cal);
                    lemma_joined(here, rest, page as int, page as int, page + 1);
                    if next is None {
                        lemma_joined(here, rest, page as int, page as int, page as int);
                    }
                    assert(s.len() > 1 ==> s =~= here + rest);
                },
                None => {
                    if next is Some && page_entry(next->0, cal) is Some {
                        let j = page_entry(next->0, cal)->0;
                        lemma_paragraph_from_pages(next->0, j, None, (page + 1) as u32, cal);
                        let rest = paragraph_from(next->0, j, None, (page + 1) as u32, cal);
                        assert(page_by_page(rest, page as int, page + 1));
                        lemma_joined(here, rest, page as int, page as int, page + 1);
                        assert(s.len() > 1 ==> s =~= here + rest);
                    }
                },
            }
        },
    }
}

proof fn lemma_paragraph_alone_pages(flat: Seq<FlatWord>, idx: int, page: u32, cal: DocCalibration)
    ensures
        page_by_page(paragraph_alone(flat, idx, page, cal), page as int, page as int),
{
    if flat.len() > 0 {
        let a = snapped(flat, idx);
        if !flat[a].formula {
            lemma_paragraph_before_pages(flat, a, None, page, cal);
            lemma_paragraph_from_pages(flat, a, None, page, cal);
            lemma_joined(
                paragraph_before(flat, a, None, page, cal),
                paragraph_from(flat, a, None, page, cal),
                page as int,
                page as int,
                page as int,
            );
        }
    }
}

/// A paragraph is read page by page, from the page before at the earliest to the
/// next page at the latest.
pub proof fn a_paragraph_is_read_page_by_page(
    flat: Seq<FlatWord>,
    idx: int,
    prev: Option<Seq<FlatWord>>,
    next: Option<Seq<FlatWord>>,
    page: u32,
    cal: DocCalibration,
)
    requires
        countable_pages(flat, prev, next, page),
    ensures
        page_by_page(reading_paragraph(flat, idx, prev, next, page, cal), page - 1, page + 1),
{
    if flat.len() > 0 {
        let gap = cal.column_gap_cqw as int;
        let a = snapped(flat, idx);
        if !flat[a].formula {
            lemma_paragraph_before_pages(flat, a, prev, page, cal);
            lemma_paragraph_from_pages(flat, a, next, page, cal);
            lemma_joined(
                paragraph_before(flat, a, prev, page, cal),
                paragraph_from(flat, a, next, page, cal),
                page - 1,
                page as int,
                page + 1,
            );
        } else {
            let s = formula_paragraph(flat, a, next, page, cal);
            if s.len() > 1 {
                let col = column_at(flat, gap, a)->0;
                let left = crate::lines::column_lefts(flat, gap)[col as int];
                let j = formula_entry(next->0, left, cal)->0;
                lemma_paragraph_alone_pages(next->0, j, (page + 1) as u32, cal);
                let here = s.take(1);
                let rest = paragraph_alone(next->0, j, (page + 1) as u32, cal);
                assert(page_by_page(here, page - 1, page as int));
                assert(page_by_page(rest, page as int, page + 1));
                lemma_joined(here, rest, page - 1, page as int, page + 1);
                assert(s =~= here + rest);
            }
        }
    }
}

} // verus!
