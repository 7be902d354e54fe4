//! What holds of sentences and paragraphs as a whole: they are read column by
//! column, and reach no further than the page before and the next page.
use crate::formula::{among, formula_block, formula_block_holds_its_word};
use crate::layout::{
    column_at, column_words, lemma_words_are_in_the_column, next_text_column, previous_text_column, text_column_from,
    text_columns, text_rank,
};
use crate::lines::{by_top, column_count, column_lefts, every_inked_line_has_a_column};
use crate::page_text::{DocCalibration, FlatWord};
use crate::paragraph::{paragraph, paragraph_stays_in_its_column};
use crate::paragraph_walk::{
    begins_before, block_step, column_end_at, formula_below, formula_entry, formula_paragraph, last_paragraph,
    lemma_last_word_column, lemma_next_text_words, paragraph_alone, paragraph_before, paragraph_from,
    reaches_column_end, reading_paragraph,
};
use crate::selection::{snapped, snapping_lands_on_a_word, SelectionStep};
use crate::sentence::{
    end_scan, flow, formula_sentence, lemma_dedup, lemma_end_scan, lemma_first_place, lemma_start_scan,
    lemma_tail_column, lemma_words_on, lines_of_words, lemma_run, on_page, open_at_column_start, opening_depth, page_entry, place_of,
    run_first, run_last, runs_on, sentence, sentence_before, sentence_from, sentence_tail, start_scan, step_over,
    stretched, takes_part, words_on, Stretch,
};
use crate::sorting::{stable_sort, stable_sort_contains};
use vstd::prelude::*;

verus! {

/// Word `i` of a page belongs to column `c`.
pub open spec fn word_of_column(flat: Seq<FlatWord>, cal: DocCalibration, i: int, c: usize) -> bool {
    0 <= i < flat.len() && column_at(flat, cal.column_gap_cqw as int, i) == Some(c)
}

/// The step starts and ends with words of column `c` of a page and takes in that
/// column only.
pub open spec fn step_in_column(s: SelectionStep, flat: Seq<FlatWord>, cal: DocCalibration, page: u32, c: usize) -> bool {
    &&& s.page == page
    &&& word_of_column(flat, cal, s.lo as int, c)
    &&& word_of_column(flat, cal, s.hi as int, c)
    &&& c < column_count(flat, cal.column_gap_cqw as int)
    &&& s.column_left == Some(column_lefts(flat, cal.column_gap_cqw as int)[c as int])
}

/// The step lies in one column of a page.
pub open spec fn step_on_page(s: SelectionStep, flat: Seq<FlatWord>, cal: DocCalibration, page: u32) -> bool {
    exists|c: usize| step_in_column(s, flat, cal, page, c)
}

/// All steps lie on a page, each in one column.
pub open spec fn steps_on_page(steps: Seq<SelectionStep>, flat: Seq<FlatWord>, cal: DocCalibration, page: u32) -> bool {
    forall|i: int| 0 <= i < steps.len() ==> step_on_page(#[trigger] steps[i], flat, cal, page)
}

/// The step lies on the page, on the page before it or on the next one, where
/// there are such pages.
pub open spec fn step_near(
    s: SelectionStep,
    flat: Seq<FlatWord>,
    prev: Option<Seq<FlatWord>>,
    next: Option<Seq<FlatWord>>,
    page: u32,
    cal: DocCalibration,
) -> bool {
    ||| step_on_page(s, flat, cal, page)
    ||| prev is Some && step_on_page(s, prev->0, cal, (page - 1) as u32)
    ||| next is Some && step_on_page(s, next->0, cal, (page + 1) as u32)
}

/// All steps lie on the page, on the page before it or on the next one.
pub open spec fn steps_near(
    steps: Seq<SelectionStep>,
    flat: Seq<FlatWord>,
    prev: Option<Seq<FlatWord>>,
    next: Option<Seq<FlatWord>>,
    page: u32,
    cal: DocCalibration,
) -> bool {
    forall|i: int| 0 <= i < steps.len() ==> step_near(#[trigger] steps[i], flat, prev, next, page, cal)
}

/// The pages can be told apart, and their words counted.
pub open spec fn countable_pages(
    flat: Seq<FlatWord>,
    prev: Option<Seq<FlatWord>>,
    next: Option<Seq<FlatWord>>,
    page: u32,
) -> bool {
    &&& flat.len() <= usize::MAX
    &&& prev is Some ==> page > 0 && prev->0.len() <= usize::MAX
    &&& next is Some ==> page < u32::MAX && next->0.len() <= usize::MAX
}

proof fn lemma_step(flat: Seq<FlatWord>, cal: DocCalibration, page: u32, lo: int, hi: int, c: usize)
    requires
        flat.len() <= usize::MAX,
        word_of_column(flat, cal, lo, c),
        word_of_column(flat, cal, hi, c),
    ensures
        step_in_column(
            step_over(page, lo, hi, column_lefts(flat, cal.column_gap_cqw as int)[c as int]),
            flat,
            cal,
            page,
            c,
        ),
        step_on_page(
            step_over(page, lo, hi, column_lefts(flat, cal.column_gap_cqw as int)[c as int]),
            flat,
            cal,
            page,
        ),
{
    every_inked_line_has_a_column(flat, cal.column_gap_cqw as int, flat[lo].line);
    let s = step_over(page, lo, hi, column_lefts(flat, cal.column_gap_cqw as int)[c as int]);
    assert(step_in_column(s, flat, cal, page, c));
}

// ── sentences ──

/// What was gathered lies in its column.
spec fn stretch_ok(flat: Seq<FlatWord>, cal: DocCalibration, acc: Option<Stretch>) -> bool {
    acc is Some ==> word_of_column(flat, cal, acc->0.lo as int, acc->0.col) && word_of_column(
        flat,
        cal,
        acc->0.hi as int,
        acc->0.col,
    )
}

proof fn lemma_flow(flat: Seq<FlatWord>, cal: DocCalibration, page: u32, j: int, acc: Option<Stretch>, d: nat)
    requires
        flat.len() <= usize::MAX,
        0 <= j,
        stretch_ok(flat, cal, acc),
    ensures
        steps_on_page(flow(flat, cal, page, j, acc, d).0, flat, cal, page),
    decreases flat.len() - j,
{
    if acc is Some {
        lemma_step(flat, cal, page, acc->0.lo as int, acc->0.hi as int, acc->0.col);
    }
    if j < flat.len() {
        if !takes_part(flat, cal, j) {
            lemma_flow(flat, cal, page, j + 1, acc, d);
        } else {
            let c = column_at(flat, cal.column_gap_cqw as int, j)->0;
            let now = stretched(acc, j, c);
            assert(word_of_column(flat, cal, j, c));
            assert(stretch_ok(flat, cal, Some(now)));
            lemma_step(flat, cal, page, now.lo as int, now.hi as int, now.col);
            let text = flat[j].text@;
            lemma_flow(flat, cal, page, j + 1, Some(now), crate::boundary::depth_behind(text, d));
        }
    }
}

pub(crate) proof fn lemma_entry(flat: Seq<FlatWord>, cal: DocCalibration)
    ensures
        page_entry(flat, cal) is Some ==> 0 <= page_entry(flat, cal)->0 < flat.len(),
{
    let gap = cal.column_gap_cqw as int;
    match text_column_from(flat, gap, 0) {
        None => {},
        Some(c) => {
            lemma_words_are_in_the_column(flat, gap, c);
        },
    }
}

pub(crate) proof fn lemma_place_of(ws: Seq<int>, x: int, d: int)
    requires
        0 <= d < ws.len(),
    ensures
        0 <= place_of(ws, x, d) < ws.len(),
{
    lemma_first_place(ws, x, 0);
}

pub(crate) proof fn lemma_column_holds(flat: Seq<FlatWord>, cal: DocCalibration, a: int, col: usize)
    requires
        word_of_column(flat, cal, a, col),
    ensures
        column_words(flat, cal.column_gap_cqw as int, col).len() > 0,
        column_words(flat, cal.column_gap_cqw as int, col).contains(a),
        forall|k: int|
            0 <= k < column_words(flat, cal.column_gap_cqw as int, col).len() ==> word_of_column(
                flat,
                cal,
                #[trigger] column_words(flat, cal.column_gap_cqw as int, col)[k],
                col,
            ),
{
    lemma_words_are_in_the_column(flat, cal.column_gap_cqw as int, col);
    assert(column_words(flat, cal.column_gap_cqw as int, col).contains(a));
}

proof fn lemma_sentence_from(flat: Seq<FlatWord>, a: int, next: Option<Seq<FlatWord>>, page: u32, cal: DocCalibration)
    requires
        0 <= a < flat.len(),
        countable_pages(flat, None, next, page),
    ensures
        steps_near(sentence_from(flat, a, next, page, cal), flat, None, next, page, cal),
{
    let gap = cal.column_gap_cqw as int;
    if column_at(flat, gap, a) is Some {
        let col = column_at(flat, gap, a)->0;
        let ws = column_words(flat, gap, col);
        lemma_column_holds(flat, cal, a, col);
        let para = paragraph(flat, a, cal);
        lemma_place_of(ws, para.1, ws.len() - 1);
        lemma_place_of(ws, para.0, 0);
        lemma_place_of(ws, a, 0);
        let para_end = place_of(ws, para.1, ws.len() - 1);
        let from = place_of(ws, para.0, 0);
        let at = place_of(ws, a, 0);
        let start = start_scan(flat, ws, from, at).0;
        let depth = opening_depth(flat, ws, from, at);
        lemma_start_scan(flat, ws, from, at);
        lemma_end_scan(flat, ws, start, para_end, depth);
        let end = end_scan(flat, ws, start, para_end, depth);
        assert(word_of_column(flat, cal, ws[start], col));
        match end.0 {
            Some(k) => {
                lemma_step(flat, cal, page, ws[start], ws[k], col);
            },
            None => {
                lemma_step(flat, cal, page, ws[start], ws[para_end], col);
                assert(word_of_column(flat, cal, ws[ws.len() - 1], col));
                lemma_step(flat, cal, page, ws[start], ws.last(), col);
                lemma_flow(flat, cal, page, ws.last() + 1, None, end.1);
                let here = flow(flat, cal, page, ws.last() + 1, None, end.1);
                if next is Some {
                    lemma_entry(next->0, cal);
                    if page_entry(next->0, cal) is Some {
                        lemma_flow(next->0, cal, (page + 1) as u32, page_entry(next->0, cal)->0, None, here.2);
                    }
                }
            },
        }
    }
}

proof fn lemma_tail(flat: Seq<FlatWord>, cal: DocCalibration, page: u32, col: usize)
    requires
        flat.len() <= usize::MAX,
    ensures
        ({
            let gap = cal.column_gap_cqw as int;
            match sentence_tail(flat, column_words(flat, gap, col)) {
                Some(t) => step_on_page(
                    step_over(page, t.0, t.1, column_lefts(flat, gap)[col as int]),
                    flat,
                    cal,
                    page,
                ),
                None => true,
            }
        }),
{
    let gap = cal.column_gap_cqw as int;
    let ws = column_words(flat, gap, col);
    lemma_words_are_in_the_column(flat, gap, col);
    lemma_start_scan(flat, ws, 0, ws.len() as int);
    match sentence_tail(flat, ws) {
        Some(t) => {
            let start = start_scan(flat, ws, 0, ws.len() as int).0;
            assert(word_of_column(flat, cal, ws[start], col));
            assert(word_of_column(flat, cal, ws[ws.len() - 1], col));
            lemma_step(flat, cal, page, t.0, t.1, col);
        },
        None => {},
    }
}

proof fn lemma_sentence_before(flat: Seq<FlatWord>, idx: int, prev: Option<Seq<FlatWord>>, page: u32, cal: DocCalibration)
    requires
        0 <= idx < flat.len(),
        countable_pages(flat, prev, None, page),
    ensures
        steps_near(sentence_before(flat, idx, prev, page, cal), flat, prev, None, page, cal),
    decreases text_rank(flat, cal.column_gap_cqw as int, column_at(flat, cal.column_gap_cqw as int, idx)),
{
    let gap = cal.column_gap_cqw as int;
    match column_at(flat, gap, idx) {
        None => {},
        Some(col) => {
            if open_at_column_start(flat, idx, cal, col) {
                match previous_text_column(flat, gap, col) {
                    Some(p) => {
                        let pw = column_words(flat, gap, p);
                        lemma_words_are_in_the_column(flat, gap, p);
                        lemma_start_scan(flat, pw, 0, pw.len() as int);
                        lemma_tail(flat, cal, page, p);
                        lemma_tail_column(flat, gap, col);
                        if sentence_tail(flat, pw) is Some && (sentence_tail(flat, pw)->0).0 == pw[0] {
                            lemma_sentence_before(flat, pw[0], prev, page, cal);
                        }
                    },
                    None => {
                        if prev is Some {
                            let cols = text_columns(prev->0, gap);
                            if cols.len() > 0 {
                                lemma_tail(prev->0, cal, (page - 1) as u32, cols.last());
                            }
                        }
                    },
                }
            }
        },
    }
}

pub(crate) proof fn lemma_words_on_subset(flat: Seq<FlatWord>, ws: Seq<int>, ls: Seq<usize>, lo: int, hi: int, n: nat)
    requires
        n <= ws.len(),
    ensures
        forall|k: int| 0 <= k < words_on(flat, ws, ls, lo, hi, n).len() ==> ws.contains(#[trigger] words_on(flat, ws, ls, lo, hi, n)[k]),
    decreases n,
{
    if n > 0 {
        lemma_words_on_subset(flat, ws, ls, lo, hi, (n - 1) as nat);
        let before = words_on(flat, ws, ls, lo, hi, (n - 1) as nat);
        let now = words_on(flat, ws, ls, lo, hi, n);
        assert forall|k: int| 0 <= k < now.len() implies ws.contains(#[trigger] now[k]) by {
            if k < before.len() {
                assert(ws.contains(before[k]));
            } else {
                assert(now[k] == ws[n - 1]);
            }
        }
    }
}

pub(crate) proof fn lemma_run_last(flat: Seq<FlatWord>, ratio: int, ls: Seq<usize>, i: int)
    requires
        0 <= i < ls.len(),
    ensures
        i <= run_last(flat, ratio, ls, i) < ls.len(),
    decreases ls.len() - i,
{
    if i + 1 < ls.len() && runs_on(flat, ratio, ls, i, i + 1, i + 1) {
        lemma_run_last(flat, ratio, ls, i + 1);
    }
}

/// A sentence in a formula never leaves its page.
pub proof fn a_formula_sentence_stays_on_its_page(flat: Seq<FlatWord>, idx: int, page: u32, cal: DocCalibration)
    requires
        0 <= idx,
        0 < flat.len() <= usize::MAX,
    ensures
        steps_on_page(formula_sentence(flat, idx, page, cal), flat, cal, page),
{
    let gap = cal.column_gap_cqw as int;
    let ratio = cal.vertical_gap_ratio as int;
    snapping_lands_on_a_word(flat, idx);
    let a = snapped(flat, idx);
    if column_at(flat, gap, a) is Some {
        let col = column_at(flat, gap, a)->0;
        lemma_column_holds(flat, cal, a, col);
        let ws = column_words(flat, gap, col);
        let raw = ws.map_values(|i: int| flat[i].line);
        let ls = lines_of_words(flat, ws);
        let line = flat[a].line;
        let k = choose|k: int| 0 <= k < ws.len() && ws[k] == a;
        assert(raw[k] == line);
        assert(raw.contains(line));
        stable_sort_contains(raw, by_top(flat), line);
        lemma_dedup(stable_sort(raw, by_top(flat)), line);
        lemma_first_place(ls, line, 0);
        let at = place_of(ls, line, 0);
        let lo = run_first(flat, ratio, ls, at);
        let hi = run_last(flat, ratio, ls, at);
        lemma_run(flat, ratio, ls, at);
        lemma_run_last(flat, ratio, ls, at);
        assert(on_page(flat, ws)) by {
            assert forall|k: int| 0 <= k < ws.len() implies 0 <= #[trigger] ws[k] < flat.len() by {
                assert(word_of_column(flat, cal, ws[k], col));
            }
        }
        lemma_words_on(flat, ws, ls, lo, hi, ws.len());
        lemma_words_on_subset(flat, ws, ls, lo, hi, ws.len());
        let run = words_on(flat, ws, ls, lo, hi, ws.len());
        assert(ls[at] == line);
        assert(among(ls, lo, hi, line));
        assert(among(ls, lo, hi, flat[ws[k]].line));
        assert(run.contains(a));
        lemma_place_of(run, a, 0);
        let place = place_of(run, a, 0);
        let start = start_scan(flat, run, 0, place).0;
        let depth = opening_depth(flat, run, 0, place);
        lemma_start_scan(flat, run, 0, place);
        lemma_end_scan(flat, run, start, run.len() - 1, depth);
        let last = match end_scan(flat, run, start, run.len() - 1, depth).0 {
            Some(k) => k,
            None => run.len() - 1,
        };
        assert(ws.contains(run[start]));
        assert(ws.contains(run[last]));
        let i = choose|i: int| 0 <= i < ws.len() && ws[i] == run[start];
        let j = choose|j: int| 0 <= j < ws.len() && ws[j] == run[last];
        assert(word_of_column(flat, cal, ws[i], col));
        assert(word_of_column(flat, cal, ws[j], col));
        lemma_step(flat, cal, page, run[start], run[last], col);
    }
}

/// A sentence is read column by column, and reaches no further than the page
/// before and the next page.
pub proof fn a_sentence_stays_near_its_word(
    flat: Seq<FlatWord>,
    idx: int,
    prev: Option<Seq<FlatWord>>,
    next: Option<Seq<FlatWord>>,
    page: u32,
    cal: DocCalibration,
)
    requires
        0 <= idx,
        countable_pages(flat, prev, next, page),
    ensures
        steps_near(sentence(flat, idx, prev, next, page, cal), flat, prev, next, page, cal),
{
    if flat.len() > 0 {
        snapping_lands_on_a_word(flat, idx);
        let a = snapped(flat, idx);
        if flat[a].formula {
            a_formula_sentence_stays_on_its_page(flat, a, page, cal);
        } else {
            lemma_sentence_before(flat, a, prev, page, cal);
            lemma_sentence_from(flat, a, next, page, cal);
        }
    }
}

// ── paragraphs ──

/// The step lies on a page, and takes in one of its columns.
pub open spec fn step_within(s: SelectionStep, flat: Seq<FlatWord>, cal: DocCalibration, page: u32) -> bool {
    &&& s.page == page
    &&& s.lo < flat.len()
    &&& s.hi < flat.len()
    &&& s.column_left is Some
    &&& column_lefts(flat, cal.column_gap_cqw as int).contains(s.column_left->0)
}

/// The step lies on the page, on the page before it or on the next one, where
/// there are such pages.
pub open spec fn step_reaches(
    s: SelectionStep,
    flat: Seq<FlatWord>,
    prev: Option<Seq<FlatWord>>,
    next: Option<Seq<FlatWord>>,
    page: u32,
    cal: DocCalibration,
) -> bool {
    ||| step_within(s, flat, cal, page)
    ||| prev is Some && step_within(s, prev->0, cal, (page - 1) as u32)
    ||| next is Some && step_within(s, next->0, cal, (page + 1) as u32)
}

/// All steps lie on the page, on the page before it or on the next one.
pub open spec fn steps_reach(
    steps: Seq<SelectionStep>,
    flat: Seq<FlatWord>,
    prev: Option<Seq<FlatWord>>,
    next: Option<Seq<FlatWord>>,
    page: u32,
    cal: DocCalibration,
) -> bool {
    forall|i: int| 0 <= i < steps.len() ==> step_reaches(#[trigger] steps[i], flat, prev, next, page, cal)
}

proof fn lemma_within(flat: Seq<FlatWord>, cal: DocCalibration, page: u32, lo: int, hi: int, a: int, col: usize)
    requires
        flat.len() <= usize::MAX,
        0 <= lo < flat.len(),
        0 <= hi < flat.len(),
        word_of_column(flat, cal, a, col),
    ensures
        step_within(
            step_over(page, lo, hi, column_lefts(flat, cal.column_gap_cqw as int)[col as int]),
            flat,
            cal,
            page,
        ),
{
    let gap = cal.column_gap_cqw as int;
    every_inked_line_has_a_column(flat, gap, flat[a].line);
    assert(column_lefts(flat, gap).contains(column_lefts(flat, gap)[col as int]));
}

proof fn lemma_paragraph_within(flat: Seq<FlatWord>, a: int, page: u32, cal: DocCalibration, col: usize)
    requires
        flat.len() <= usize::MAX,
        word_of_column(flat, cal, a, col),
    ensures
        ({
            let p = paragraph(flat, a, cal);
            step_within(
                step_over(page, p.0, p.1, column_lefts(flat, cal.column_gap_cqw as int)[col as int]),
                flat,
                cal,
                page,
            )
        }),
{
    paragraph_stays_in_its_column(flat, a, cal);
    let p = paragraph(flat, a, cal);
    lemma_within(flat, cal, page, p.0, p.1, a, col);
}

proof fn lemma_last_paragraph(flat: Seq<FlatWord>, page: u32, cal: DocCalibration, col: usize)
    requires
        flat.len() <= usize::MAX,
        column_words(flat, cal.column_gap_cqw as int, col).len() > 0,
    ensures
        step_within(last_paragraph(flat, page, cal, col), flat, cal, page),
{
    let gap = cal.column_gap_cqw as int;
    lemma_words_are_in_the_column(flat, gap, col);
    let ws = column_words(flat, gap, col);
    assert(word_of_column(flat, cal, ws[ws.len() - 1], col));
    lemma_paragraph_within(flat, ws.last(), page, cal, col);
}

proof fn lemma_paragraph_before(flat: Seq<FlatWord>, a: int, prev: Option<Seq<FlatWord>>, page: u32, cal: DocCalibration)
    requires
        0 <= a < flat.len(),
        countable_pages(flat, prev, None, page),
    ensures
        steps_reach(paragraph_before(flat, a, prev, page, cal), flat, prev, None, page, cal),
    decreases text_rank(flat, cal.column_gap_cqw as int, column_at(flat, cal.column_gap_cqw as int, a)),
{
    let gap = cal.column_gap_cqw as int;
    match column_at(flat, gap, a) {
        None => {},
        Some(col) => {
            if begins_before(flat, a, cal, col) {
                match previous_text_column(flat, gap, col) {
                    Some(p) => {
                        if reaches_column_end(flat, cal, p) {
                            lemma_last_word_column(flat, gap, col);
                            lemma_words_are_in_the_column(flat, gap, p);
                            let ws = column_words(flat, gap, p);
                            assert(0 <= ws[ws.len() - 1] < flat.len());
                            lemma_paragraph_before(flat, ws.last(), prev, page, cal);
                            lemma_last_paragraph(flat, page, cal, p);
                        }
                    },
                    None => {
                        if prev is Some {
                            let cols = text_columns(prev->0, gap);
                            if cols.len() > 0 && reaches_column_end(prev->0, cal, cols.last()) {
                                lemma_last_paragraph(prev->0, (page - 1) as u32, cal, cols.last());
                            }
                        }
                    },
                }
            }
        },
    }
}

proof fn lemma_paragraph_from(flat: Seq<FlatWord>, a: int, next: Option<Seq<FlatWord>>, page: u32, cal: DocCalibration)
    requires
        0 <= a < flat.len(),
        countable_pages(flat, None, next, page),
    ensures
        steps_reach(paragraph_from(flat, a, next, page, cal), flat, None, next, page, cal),
    decreases
            (if next is Some { 1int } else { 0int }),
            flat.len() - column_end_at(flat, cal.column_gap_cqw as int, a),
{
    let gap = cal.column_gap_cqw as int;
    match column_at(flat, gap, a) {
        None => {},
        Some(col) => {
            lemma_paragraph_within(flat, a, page, cal, col);
            match next_text_column(flat, gap, col) {
                Some(c) => {
                    lemma_next_text_words(flat, gap, col);
                    lemma_paragraph_from(flat, column_words(flat, gap, c)[0], next, page, cal);
                },
                None => {
                    if next is Some {
                        lemma_entry(next->0, cal);
                        if page_entry(next->0, cal) is Some {
                            let j = page_entry(next->0, cal)->0;
                            lemma_paragraph_from(next->0, j, None, (page + 1) as u32, cal);
                            let rest = paragraph_from(next->0, j, None, (page + 1) as u32, cal);
                            assert forall|i: int| 0 <= i < rest.len() implies step_reaches(
                                #[trigger] rest[i],
                                flat,
                                None,
                                next,
                                page,
                                cal,
                            ) by {
                                assert(step_reaches(rest[i], next->0, None, None, (page + 1) as u32, cal));
                            }
                        }
                    }
                },
            }
        },
    }
}

proof fn lemma_block_within(flat: Seq<FlatWord>, a: int, page: u32, cal: DocCalibration, col: usize)
    requires
        flat.len() <= usize::MAX,
        word_of_column(flat, cal, a, col),
    ensures
        step_within(block_step(flat, a, page, cal, col), flat, cal, page),
{
    formula_block_holds_its_word(flat, a, cal);
    let b = formula_block(flat, a, cal);
    lemma_within(flat, cal, page, b.0, b.1, a, col);
}

/// The paragraph of a word on a page that is taken by itself stays on it.
pub proof fn a_paragraph_alone_stays_on_its_page(flat: Seq<FlatWord>, idx: int, page: u32, cal: DocCalibration)
    requires
        0 <= idx,
        flat.len() <= usize::MAX,
    ensures
        forall|i: int|
            0 <= i < paragraph_alone(flat, idx, page, cal).len() ==> step_within(
                #[trigger] paragraph_alone(flat, idx, page, cal)[i],
                flat,
                cal,
                page,
            ),
{
    if flat.len() > 0 {
        snapping_lands_on_a_word(flat, idx);
        let a = snapped(flat, idx);
        let gap = cal.column_gap_cqw as int;
        if flat[a].formula {
            if column_at(flat, gap, a) is Some {
                lemma_block_within(flat, a, page, cal, column_at(flat, gap, a)->0);
            }
        } else {
            lemma_paragraph_before(flat, a, None, page, cal);
            lemma_paragraph_from(flat, a, None, page, cal);
            let before = paragraph_before(flat, a, None, page, cal);
            let from = paragraph_from(flat, a, None, page, cal);
            let all = paragraph_alone(flat, idx, page, cal);
            assert forall|i: int| 0 <= i < all.len() implies step_within(#[trigger] all[i], flat, cal, page) by {
                if i < before.len() {
                    assert(step_reaches(before[i], flat, None, None, page, cal));
                } else {
                    assert(step_reaches(from[i - before.len()], flat, None, None, page, cal));
                }
            }
        }
    }
}

proof fn lemma_formula_paragraph(flat: Seq<FlatWord>, a: int, next: Option<Seq<FlatWord>>, page: u32, cal: DocCalibration)
    requires
        0 <= a < flat.len(),
        countable_pages(flat, None, next, page),
    ensures
        steps_reach(formula_paragraph(flat, a, next, page, cal), flat, None, next, page, cal),
{
    let gap = cal.column_gap_cqw as int;
    match column_at(flat, gap, a) {
        None => {},
        Some(col) => {
            lemma_block_within(flat, a, page, cal, col);
            if next is Some && !formula_below(flat, gap, col, formula_block(flat, a, cal).1) {
                match formula_entry(next->0, column_lefts(flat, gap)[col as int], cal) {
                    None => {},
                    Some(j) => {
                        let c = crate::paragraph_walk::column_near(
                            column_lefts(next->0, gap),
                            column_lefts(flat, gap)[col as int],
                            0,
                        )->0;
                        lemma_words_are_in_the_column(next->0, gap, c as usize);
                        a_paragraph_alone_stays_on_its_page(next->0, j, (page + 1) as u32, cal);
                    },
                }
            }
        },
    }
}

/// A paragraph takes in one column in each step, and reaches no further than the
/// page before and the next page.
pub proof fn a_paragraph_stays_near_its_word(
    flat: Seq<FlatWord>,
    idx: int,
    prev: Option<Seq<FlatWord>>,
    next: Option<Seq<FlatWord>>,
    page: u32,
    cal: DocCalibration,
)
    requires
        0 <= idx,
        countable_pages(flat, prev, next, page),
    ensures
        steps_reach(reading_paragraph(flat, idx, prev, next, page, cal), flat, prev, next, page, cal),
{
    if flat.len() > 0 {
        snapping_lands_on_a_word(flat, idx);
        let a = snapped(flat, idx);
        if flat[a].formula {
            lemma_formula_paragraph(flat, a, next, page, cal);
        } else {
            lemma_paragraph_before(flat, a, prev, page, cal);
            lemma_paragraph_from(flat, a, next, page, cal);
        }
    }
}

} // verus!
