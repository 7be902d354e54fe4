//! How far a sentence reaches: it ends with the first word that ends one, starts
//! behind the last such word before it, and runs on over columns and pages where
//! nothing ends it.
use crate::boundary::{breaks, closing, depth_behind, opening, scan, semicolon};
use crate::holding::{
    a_paragraph_holds_its_word, lemma_column_words_rise, lemma_place, lemma_reads_on, lines_in_order,
};
use crate::layout::{
    column_at, column_words, lemma_text_columns, lemma_words_are_in_the_column, previous_text_column, text_column,
    text_columns, text_columns_upto, first_line_indented, text_column_from,
};
use crate::lines::column_lefts;
use crate::page_text::{inked, DocCalibration, FlatWord};
use crate::paragraph::{paragraph, paragraph_stays_in_its_column};
use crate::reading::{lemma_column_holds, word_of_column};
use crate::selection::{snapped, SelectionStep};
use crate::sentence::{
    end_scan, ends_at, flow, lemma_start_scan, lemma_tail_column, opening_depth, page_entry, place_of, sentence,
    sentence_before, sentence_from, sentence_tail, start_from, start_scan, stretched, takes_part, Stretch,
};
use vstd::prelude::*;

verus! {

/// Word `j` comes next behind word `k` in column `c`.
pub open spec fn next_in_column(flat: Seq<FlatWord>, cal: DocCalibration, c: usize, k: int, j: int) -> bool {
    &&& k < j
    &&& word_of_column(flat, cal, j, c)
    &&& forall|m: int| k < m < j ==> !#[trigger] word_of_column(flat, cal, m, c)
}

/// Word `k` of column `c`, read at bracket depth `d`, ends a sentence.
pub open spec fn ends_in_column(flat: Seq<FlatWord>, cal: DocCalibration, c: usize, k: int, d: nat) -> bool {
    ||| exists|j: int| #[trigger] next_in_column(flat, cal, c, k, j) && breaks(flat[k].text@, d, Some(flat[j].text@))
    ||| (forall|j: int| k < j ==> !#[trigger] word_of_column(flat, cal, j, c)) && breaks(flat[k].text@, d, None)
}

/// Word `k` of column `c` ends a sentence at any bracket depth.
pub open spec fn always_ends(flat: Seq<FlatWord>, cal: DocCalibration, c: usize, k: int) -> bool {
    forall|d: nat| #[trigger] ends_in_column(flat, cal, c, k, d)
}

/// Word `k` of column `c` ends a sentence at no bracket depth.
pub open spec fn never_ends(flat: Seq<FlatWord>, cal: DocCalibration, c: usize, k: int) -> bool {
    forall|d: nat| !#[trigger] ends_in_column(flat, cal, c, k, d)
}

/// The word ends no sentence, whatever comes before it and behind it.
pub open spec fn runs_on(text: Seq<char>) -> bool {
    forall|d: nat, next: Option<Seq<char>>| !#[trigger] breaks(text, d, next)
}

proof fn lemma_runs_on(flat: Seq<FlatWord>, cal: DocCalibration, c: usize, k: int)
    requires
        runs_on(flat[k].text@),
    ensures
        never_ends(flat, cal, c, k),
{
}

proof fn lemma_ends(flat: Seq<FlatWord>, cal: DocCalibration, c: usize, p: int, d: nat)
    requires
        0 <= p < column_words(flat, cal.column_gap_cqw as int, c).len(),
    ensures
        ({
            let ws = column_words(flat, cal.column_gap_cqw as int, c);
            ends_at(flat, ws, p, d) == ends_in_column(flat, cal, c, ws[p], d)
        }),
{
    let gap = cal.column_gap_cqw as int;
    let ws = column_words(flat, gap, c);
    lemma_words_are_in_the_column(flat, gap, c);
    lemma_column_words_rise(flat, gap, c, flat.len());
    let k = ws[p];
    if p + 1 < ws.len() {
        let n = ws[p + 1];
        assert(word_of_column(flat, cal, n, c));
        assert forall|m: int| k < m < n implies !#[trigger] word_of_column(flat, cal, m, c) by {
            if word_of_column(flat, cal, m, c) {
                assert(ws.contains(m));
                let q = choose|q: int| 0 <= q < ws.len() && ws[q] == m;
                if q <= p {
                    assert(q == p || ws[q] < ws[p]);
                } else {
                    assert(q == p + 1 || ws[p + 1] < ws[q]);
                }
            }
        }
        assert(next_in_column(flat, cal, c, k, n));
        if exists|j: int| #[trigger] next_in_column(flat, cal, c, k, j) && breaks(flat[k].text@, d, Some(flat[j].text@)) {
            let j = choose|j: int|
                #[trigger] next_in_column(flat, cal, c, k, j) && breaks(flat[k].text@, d, Some(flat[j].text@));
            if j < n {
                assert(!word_of_column(flat, cal, j, c));
            }
            if n < j {
                assert(!word_of_column(flat, cal, n, c));
            }
        }
    } else {
        assert forall|j: int| k < j implies !#[trigger] word_of_column(flat, cal, j, c) by {
            if word_of_column(flat, cal, j, c) {
                assert(ws.contains(j));
                let q = choose|q: int| 0 <= q < ws.len() && ws[q] == j;
                assert(q == p || ws[q] < ws[p]);
            }
        }
        if exists|j: int| #[trigger] next_in_column(flat, cal, c, k, j) && breaks(flat[k].text@, d, Some(flat[j].text@)) {
            let j = choose|j: int|
                #[trigger] next_in_column(flat, cal, c, k, j) && breaks(flat[k].text@, d, Some(flat[j].text@));
            assert(!word_of_column(flat, cal, j, c));
        }
    }
}

proof fn lemma_stops_by(flat: Seq<FlatWord>, ws: Seq<int>, k: int, last: int, d: nat, p: int)
    requires
        k <= p <= last,
        forall|e: nat| #[trigger] ends_at(flat, ws, p, e),
    ensures
        end_scan(flat, ws, k, last, d).0 is Some,
        k <= end_scan(flat, ws, k, last, d).0->0 <= p,
    decreases p - k,
{
    if k == p {
        assert(ends_at(flat, ws, p, d));
    } else if !ends_at(flat, ws, k, d) {
        lemma_stops_by(flat, ws, k + 1, last, depth_behind(flat[ws[k]].text@, d), p);
    }
}

proof fn lemma_goes_to(flat: Seq<FlatWord>, ws: Seq<int>, k: int, last: int, d: nat, p: int)
    requires
        k <= p <= last,
        forall|q: int, e: nat| k <= q < p ==> !#[trigger] ends_at(flat, ws, q, e),
    ensures
        end_scan(flat, ws, k, last, d).0 is Some ==> p <= end_scan(flat, ws, k, last, d).0->0 <= last,
    decreases p - k,
{
    if k < p {
        assert(!ends_at(flat, ws, k, d));
        lemma_goes_to(flat, ws, k + 1, last, depth_behind(flat[ws[k]].text@, d), p);
    } else {
        crate::sentence::lemma_end_scan(flat, ws, k, last, d);
    }
}

proof fn lemma_starts_behind(flat: Seq<FlatWord>, ws: Seq<int>, from: int, to: int, p: int)
    requires
        from <= p < to,
        forall|e: nat| #[trigger] ends_at(flat, ws, p, e),
    ensures
        start_scan(flat, ws, from, to).0 > p,
    decreases to - p,
{
    if p < to - 1 {
        lemma_starts_behind(flat, ws, from, to - 1, p);
    } else {
        assert(ends_at(flat, ws, p, start_scan(flat, ws, from, p).1));
    }
}

proof fn lemma_starts_by(flat: Seq<FlatWord>, ws: Seq<int>, from: int, to: int, p: int)
    requires
        from <= p <= to,
        forall|q: int, e: nat| p <= q < to ==> !#[trigger] ends_at(flat, ws, q, e),
    ensures
        start_scan(flat, ws, from, to).0 <= p,
    decreases to - p,
{
    if p < to {
        lemma_starts_by(flat, ws, from, to - 1, p);
        assert(!ends_at(flat, ws, to - 1, start_scan(flat, ws, from, to - 1).1));
    } else {
        lemma_start_scan(flat, ws, from, to);
    }
}

proof fn lemma_column_start_behind(flat: Seq<FlatWord>, ws: Seq<int>, least: int, k: int, p: int)
    requires
        0 <= p < k,
        ws[p] < least || forall|e: nat| #[trigger] ends_at(flat, ws, p, e),
    ensures
        start_from(flat, ws, least, k).0 > p,
    decreases k,
{
    if p < k - 1 {
        lemma_column_start_behind(flat, ws, least, k - 1, p);
    } else {
        assert(ws[p] < least || ends_at(flat, ws, p, start_from(flat, ws, least, p).1));
    }
}

proof fn lemma_column_start_open(flat: Seq<FlatWord>, ws: Seq<int>, least: int, k: int)
    requires
        0 <= k,
        forall|p: int| 0 <= p < k ==> least <= #[trigger] ws[p],
        forall|p: int, e: nat| 0 <= p < k ==> !#[trigger] ends_at(flat, ws, p, e),
    ensures
        start_from(flat, ws, least, k).0 == 0,
    decreases k,
{
    if k > 0 {
        lemma_column_start_open(flat, ws, least, k - 1);
        assert(least <= ws[k - 1]);
        assert(!ends_at(flat, ws, k - 1, start_from(flat, ws, least, k - 1).1));
    }
}

/// The words of a column, and where word `a`, its paragraph and the start of its
/// sentence stand among them.
struct Frame {
    ws: Seq<int>,
    from: int,
    to: int,
    last: int,
    start: int,
}

spec fn frame(flat: Seq<FlatWord>, a: int, cal: DocCalibration, c: usize) -> Frame {
    let ws = column_words(flat, cal.column_gap_cqw as int, c);
    let para = paragraph(flat, a, cal);
    let from = place_of(ws, para.0, 0);
    let to = place_of(ws, a, 0);
    Frame { ws, from, to, last: place_of(ws, para.1, ws.len() - 1), start: start_scan(flat, ws, from, to).0 }
}

/// A word of running text that stands in a column whose lines come in the order in
/// which they stand.
pub open spec fn reads_well(flat: Seq<FlatWord>, cal: DocCalibration, a: int, c: usize) -> bool {
    &&& flat.len() <= usize::MAX
    &&& word_of_column(flat, cal, a, c)
    &&& snapped(flat, a) == a
    &&& !flat[a].formula
    &&& lines_in_order(flat, cal.column_gap_cqw as int, c)
}

proof fn lemma_frame(flat: Seq<FlatWord>, a: int, next: Option<Seq<FlatWord>>, page: u32, cal: DocCalibration, c: usize)
    requires
        reads_well(flat, cal, a, c),
    ensures
        ({
            let f = frame(flat, a, cal, c);
            let para = paragraph(flat, a, cal);
            let s = sentence_from(flat, a, next, page, cal);
            let end = end_scan(flat, f.ws, f.to, f.last, start_scan(flat, f.ws, f.from, f.to).1);
            &&& 0 <= f.from <= f.start <= f.to <= f.last < f.ws.len()
            &&& f.ws[f.from] == para.0
            &&& f.ws[f.to] == a
            &&& f.ws[f.last] == para.1
            &&& end_scan(flat, f.ws, f.start, f.last, opening_depth(flat, f.ws, f.from, f.to)) == end
            &&& s.len() > 0
            &&& s[0].page == page
            &&& s[0].lo == f.ws[f.start]
            &&& s[0].column_left == Some(column_lefts(flat, cal.column_gap_cqw as int)[c as int])
            &&& end.0 is Some ==> s.len() == 1 && f.to <= end.0->0 <= f.last && s[0].hi == f.ws[end.0->0]
            &&& end.0 is None && f.last < f.ws.len() - 1 ==> s.len() == 1 && s[0].hi == f.ws[f.last]
            &&& end.0 is None && f.last == f.ws.len() - 1 ==> s[0].hi == f.ws[f.last]
            &&& forall|p: int| 0 <= p < f.ws.len() ==> word_of_column(flat, cal, #[trigger] f.ws[p], c)
            &&& forall|i: int| word_of_column(flat, cal, i, c) ==> #[trigger] f.ws.contains(i)
            &&& forall|p: int, q: int| 0 <= p < q < f.ws.len() ==> #[trigger] f.ws[p] < #[trigger] f.ws[q]
        }),
{
    let gap = cal.column_gap_cqw as int;
    let f = frame(flat, a, cal, c);
    lemma_column_holds(flat, cal, a, c);
    lemma_words_are_in_the_column(flat, gap, c);
    lemma_column_words_rise(flat, gap, c, flat.len());
    a_paragraph_holds_its_word(flat, a, cal);
    paragraph_stays_in_its_column(flat, a, cal);
    let para = paragraph(flat, a, cal);
    assert(column_at(flat, gap, para.0) == Some(c));
    assert(column_at(flat, gap, para.1) == Some(c));
    lemma_place(f.ws, para.0, 0);
    lemma_place(f.ws, para.1, f.ws.len() - 1);
    lemma_place(f.ws, a, 0);
    lemma_start_scan(flat, f.ws, f.from, f.to);
    lemma_reads_on(flat, f.ws, f.from, f.to, f.last, f.start);
    crate::sentence::lemma_end_scan(flat, f.ws, f.to, f.last, start_scan(flat, f.ws, f.from, f.to).1);
    assert(0 <= f.ws[f.start] < flat.len());
    assert(0 <= f.ws[f.last] < flat.len());
    let end = end_scan(flat, f.ws, f.to, f.last, start_scan(flat, f.ws, f.from, f.to).1);
    if end.0 is Some {
        assert(0 <= f.ws[end.0->0] < flat.len());
    }
}

/// A sentence of running text ends with the first word at or behind the place that
/// ends one: its last step reaches no further than any word of the column that does,
/// and holds the word that was asked for.
pub proof fn a_sentence_stops_at_a_word_that_ends_it(
    flat: Seq<FlatWord>,
    a: int,
    prev: Option<Seq<FlatWord>>,
    next: Option<Seq<FlatWord>>,
    page: u32,
    cal: DocCalibration,
    c: usize,
    k: int,
)
    requires
        reads_well(flat, cal, a, c),
        word_of_column(flat, cal, k, c),
        a <= k,
        always_ends(flat, cal, c, k),
    ensures
        ({
            let s = sentence(flat, a, prev, next, page, cal);
            s.len() > 0 && s.last().page == page && s.last().lo <= a <= s.last().hi <= k
        }),
{
    let f = frame(flat, a, cal, c);
    lemma_frame(flat, a, next, page, cal, c);
    assert(f.ws.contains(k));
    let p = choose|p: int| 0 <= p < f.ws.len() && f.ws[p] == k;
    assert(f.to <= p) by {
        if p < f.to {
            assert(f.ws[p] < f.ws[f.to]);
        }
    }
    assert forall|e: nat| #[trigger] ends_at(flat, f.ws, p, e) by {
        lemma_ends(flat, cal, c, p, e);
        assert(ends_in_column(flat, cal, c, k, e));
    }
    let d = start_scan(flat, f.ws, f.from, f.to).1;
    if p <= f.last {
        lemma_stops_by(flat, f.ws, f.to, f.last, d, p);
    }
    assert(f.start == f.to || f.ws[f.start] < f.ws[f.to]);
    let s = sentence(flat, a, prev, next, page, cal);
    let from = sentence_from(flat, a, next, page, cal);
    assert(s.last() == from[0]);
    let end = end_scan(flat, f.ws, f.to, f.last, d);
    if end.0 is Some {
        assert(end.0->0 == p || end.0->0 < p);
        assert(end.0->0 == f.to || f.ws[f.to] < f.ws[end.0->0]);
    } else {
        assert(f.last == f.to || f.ws[f.to] < f.ws[f.last]);
    }
}

/// A sentence of running text starts behind the words before it that end one: its
/// first step is in the column, behind any such word.
pub proof fn a_sentence_starts_behind_a_word_that_ends_one(
    flat: Seq<FlatWord>,
    a: int,
    prev: Option<Seq<FlatWord>>,
    next: Option<Seq<FlatWord>>,
    page: u32,
    cal: DocCalibration,
    c: usize,
    k: int,
)
    requires
        reads_well(flat, cal, a, c),
        word_of_column(flat, cal, k, c),
        k < a,
        always_ends(flat, cal, c, k),
    ensures
        ({
            let s = sentence(flat, a, prev, next, page, cal);
            s.len() > 0 && s[0].page == page && k < s[0].lo <= a <= s[0].hi
        }),
{
    let f = frame(flat, a, cal, c);
    lemma_frame(flat, a, next, page, cal, c);
    assert(f.ws.contains(k));
    let p = choose|p: int| 0 <= p < f.ws.len() && f.ws[p] == k;
    assert(p < f.to) by {
        if f.to < p {
            assert(f.ws[f.to] < f.ws[p]);
        }
    }
    assert forall|e: nat| #[trigger] ends_at(flat, f.ws, p, e) by {
        lemma_ends(flat, cal, c, p, e);
        assert(ends_in_column(flat, cal, c, k, e));
    }
    if f.from <= p {
        lemma_starts_behind(flat, f.ws, f.from, f.to, p);
    }
    assert(f.ws[p] < f.ws[f.start]);
    assert(f.start == f.to || f.ws[f.start] < f.ws[f.to]);
    lemma_column_start_behind(flat, f.ws, paragraph(flat, a, cal).0, f.to, p);
    assert(sentence_before(flat, a, prev, page, cal) =~= Seq::<SelectionStep>::empty());
    let s = sentence(flat, a, prev, next, page, cal);
    assert(s[0] == sentence_from(flat, a, next, page, cal)[0]);
    let end = end_scan(flat, f.ws, f.to, f.last, start_scan(flat, f.ws, f.from, f.to).1);
    if end.0 is Some {
        assert(end.0->0 == f.to || f.ws[f.to] < f.ws[end.0->0]);
    } else {
        assert(f.last == f.to || f.ws[f.to] < f.ws[f.last]);
    }
}

/// Within its paragraph a sentence of running text goes on as long as no word ends
/// it: a word that is parted from the place by words that end nothing is in the same
/// step.
pub proof fn a_sentence_goes_on_until_a_word_ends_it(
    flat: Seq<FlatWord>,
    a: int,
    prev: Option<Seq<FlatWord>>,
    next: Option<Seq<FlatWord>>,
    page: u32,
    cal: DocCalibration,
    c: usize,
    k: int,
)
    requires
        reads_well(flat, cal, a, c),
        word_of_column(flat, cal, k, c),
        paragraph(flat, a, cal).0 <= k <= paragraph(flat, a, cal).1,
        forall|m: int| (a <= m < k || k <= m < a) && #[trigger] word_of_column(flat, cal, m, c) ==> never_ends(flat, cal, c, m),
    ensures
        exists|i: int|
            0 <= i < sentence(flat, a, prev, next, page, cal).len() && {
                let s = #[trigger] sentence(flat, a, prev, next, page, cal)[i];
                s.page == page && s.lo <= a <= s.hi && s.lo <= k <= s.hi
            },
{
    let f = frame(flat, a, cal, c);
    lemma_frame(flat, a, next, page, cal, c);
    assert(f.ws.contains(k));
    let p = choose|p: int| 0 <= p < f.ws.len() && f.ws[p] == k;
    assert(f.from <= p <= f.last) by {
        if p < f.from {
            assert(f.ws[p] < f.ws[f.from]);
        }
        if f.last < p {
            assert(f.ws[f.last] < f.ws[p]);
        }
    }
    assert forall|q: int, e: nat| (f.to <= q < p || p <= q < f.to) implies !#[trigger] ends_at(flat, f.ws, q, e) by {
        lemma_ends(flat, cal, c, q, e);
        assert(word_of_column(flat, cal, f.ws[q], c));
        assert(q == f.to || q < f.to || f.ws[f.to] < f.ws[q]);
        assert(q == p || q < p || f.ws[p] < f.ws[q]);
        if f.to <= q && q < p {
            assert(f.ws[q] < f.ws[p]);
        } else {
            assert(f.ws[q] < f.ws[f.to]);
        }
        assert(never_ends(flat, cal, c, f.ws[q]));
        assert(!ends_in_column(flat, cal, c, f.ws[q], e));
    }
    let d = start_scan(flat, f.ws, f.from, f.to).1;
    let end = end_scan(flat, f.ws, f.to, f.last, d);
    let s = sentence(flat, a, prev, next, page, cal);
    let n = sentence_before(flat, a, prev, page, cal).len() as int;
    assert(s[n] == sentence_from(flat, a, next, page, cal)[0]);
    assert(f.start == f.to || f.ws[f.start] < f.ws[f.to]);
    if f.to <= p {
        lemma_goes_to(flat, f.ws, f.to, f.last, d, p);
        assert(f.to == p || f.ws[f.to] < f.ws[p]);
    } else {
        lemma_starts_by(flat, f.ws, f.from, f.to, p);
        assert(f.start == p || f.ws[f.start] < f.ws[p]);
        assert(f.ws[p] < f.ws[f.to]);
    }
    if end.0 is Some {
        let e = end.0->0;
        assert(e == f.to || f.ws[f.to] < f.ws[e]);
        assert(e == p || e < p || f.ws[p] < f.ws[e]);
    } else {
        assert(f.last == f.to || f.ws[f.to] < f.ws[f.last]);
        assert(f.last == p || f.ws[p] < f.ws[f.last]);
    }
    assert(s[n].page == page && s[n].lo <= a <= s[n].hi && s[n].lo <= k <= s[n].hi);
}

// ── brackets ──

proof fn lemma_bracket_stays(text: Seq<char>, k: int, d: nat)
    requires
        0 <= k,
        d > 0,
        forall|j: int| 0 <= j < text.len() ==> !closing(#[trigger] text[j]),
    ensures
        !scan(text, k, d).0,
        scan(text, k, d).1 > 0,
    decreases text.len() - k,
{
    if k < text.len() {
        lemma_bracket_stays(text, k + 1, crate::boundary::deeper(text[k], d));
    }
}

proof fn lemma_bracket_opens(text: Seq<char>, k: int, o: int, d: nat)
    requires
        0 <= k <= o < text.len(),
        opening(text[o]),
        forall|j: int| 0 <= j < text.len() ==> !closing(#[trigger] text[j]) && !semicolon(text[j]),
    ensures
        !scan(text, k, d).0,
        scan(text, k, d).1 > 0,
    decreases o - k,
{
    assert(!semicolon(text[k]) && !closing(text[k]));
    if k < o {
        lemma_bracket_opens(text, k + 1, o, crate::boundary::deeper(text[k], d));
    } else {
        lemma_bracket_stays(text, k + 1, crate::boundary::deeper(text[k], d));
    }
}

/// The word ends, white space aside, in none of the six closing marks.
pub open spec fn no_closing_mark(text: Seq<char>) -> bool {
    forall|k: int|
        0 <= k < text.len() && (#[trigger] text[k] == '.' || text[k] == '!' || text[k] == '?' || text[k] == '。' || text[k]
            == '！' || text[k] == '？') ==> exists|j: int| k < j < text.len() && !crate::text::is_space(#[trigger] text[j])
}

proof fn lemma_no_mark(text: Seq<char>, d: nat, next: Option<Seq<char>>)
    requires
        no_closing_mark(text),
        !scan(text, 0, d).0,
    ensures
        !breaks(text, d, next),
{
    if breaks(text, d, next) {
        // A semicolon that does not end the sentence is passed over, so only the mark at
        // the end is left.
        let t = crate::text::without_trailing_space(text);
        crate::boundary::lemma_last_seen(text);
        let k = t.len() - 1;
        assert(text[k] == t.last());
        let j = choose|j: int| k < j < text.len() && !crate::text::is_space(#[trigger] text[j]);
        assert(crate::text::is_space(text[j]));
    }
}

proof fn lemma_held_together(flat: Seq<FlatWord>, ws: Seq<int>, k: int, last: int, d: nat, p: int)
    requires
        k <= p <= last,
        d > 0,
        forall|q: int| k <= q < p ==> no_closing_mark((#[trigger] flat[ws[q]]).text@),
        forall|q: int, j: int|
            k <= q < p && 0 <= j < flat[ws[q]].text@.len() ==> !closing(#[trigger] flat[ws[q]].text@[j]),
    ensures
        end_scan(flat, ws, k, last, d).0 is Some ==> p <= end_scan(flat, ws, k, last, d).0->0 <= last,
    decreases p - k,
{
    if k < p {
        let text = flat[ws[k]].text@;
        assert forall|j: int| 0 <= j < text.len() implies !closing(#[trigger] text[j]) by {
            assert(!closing(flat[ws[k]].text@[j]));
        }
        lemma_bracket_stays(text, 0, d);
        assert(no_closing_mark(flat[ws[k]].text@));
        lemma_no_mark(text, d, crate::sentence::next_text(flat, ws, k));
        lemma_held_together(flat, ws, k + 1, last, depth_behind(text, d), p);
    } else {
        crate::sentence::lemma_end_scan(flat, ws, k, last, d);
    }
}

/// A bracket that opens at a word and is not closed holds the sentence together: the
/// semicolons behind it end nothing, and the sentence goes on to the first word that
/// closes a bracket or the sentence.
pub proof fn an_open_bracket_holds_a_sentence_together(
    flat: Seq<FlatWord>,
    a: int,
    prev: Option<Seq<FlatWord>>,
    next: Option<Seq<FlatWord>>,
    page: u32,
    cal: DocCalibration,
    c: usize,
    k: int,
    o: int,
)
    requires
        reads_well(flat, cal, a, c),
        word_of_column(flat, cal, k, c),
        a < k <= paragraph(flat, a, cal).1,
        0 <= o < flat[a].text@.len(),
        flat[a].text@[o] == '(' || flat[a].text@[o] == '[' || flat[a].text@[o] == '{',
        free_of_semicolons(flat[a].text@),
        forall|m: int|
            a <= m < k && #[trigger] word_of_column(flat, cal, m, c) ==> no_closing_mark(flat[m].text@) && closes_no_bracket(
                flat[m].text@,
            ),
    ensures
        exists|i: int|
            0 <= i < sentence(flat, a, prev, next, page, cal).len() && {
                let s = #[trigger] sentence(flat, a, prev, next, page, cal)[i];
                s.page == page && s.lo <= a && k <= s.hi
            },
{
    let f = frame(flat, a, cal, c);
    lemma_frame(flat, a, next, page, cal, c);
    assert(f.ws.contains(k));
    let p = choose|p: int| 0 <= p < f.ws.len() && f.ws[p] == k;
    assert(f.to < p <= f.last) by {
        if p < f.to {
            assert(f.ws[p] < f.ws[f.to]);
        }
        if f.last < p {
            assert(f.ws[f.last] < f.ws[p]);
        }
    }
    let d = start_scan(flat, f.ws, f.from, f.to).1;
    let text = flat[a].text@;
    assert(word_of_column(flat, cal, a, c));
    lemma_bracket_opens(text, 0, o, d);
    lemma_no_mark(text, d, crate::sentence::next_text(flat, f.ws, f.to));
    assert forall|q: int| f.to < q < p implies no_closing_mark((#[trigger] flat[f.ws[q]]).text@) && closes_no_bracket(
        flat[f.ws[q]].text@,
    ) by {
        assert(word_of_column(flat, cal, f.ws[q], c));
        assert(f.ws[f.to] < f.ws[q] && f.ws[q] < f.ws[p]);
    }
    assert forall|q: int, j: int| f.to < q < p && 0 <= j < flat[f.ws[q]].text@.len() implies !closing(
        #[trigger] flat[f.ws[q]].text@[j],
    ) by {
        assert(closes_no_bracket(flat[f.ws[q]].text@));
    }
    lemma_held_together(flat, f.ws, f.to + 1, f.last, depth_behind(text, d), p);
    let end = end_scan(flat, f.ws, f.to, f.last, d);
    assert(end == end_scan(flat, f.ws, f.to + 1, f.last, depth_behind(text, d)));
    let s = sentence(flat, a, prev, next, page, cal);
    let n = sentence_before(flat, a, prev, page, cal).len() as int;
    assert(s[n] == sentence_from(flat, a, next, page, cal)[0]);
    assert(f.start == f.to || f.ws[f.start] < f.ws[f.to]);
    if end.0 is Some {
        assert(end.0->0 == p || f.ws[p] < f.ws[end.0->0]);
    } else {
        assert(f.last == p || f.ws[p] < f.ws[f.last]);
    }
    assert(s[n].page == page && s[n].lo <= a && k <= s[n].hi);
}

/// The text holds no semicolon.
pub open spec fn free_of_semicolons(text: Seq<char>) -> bool {
    forall|j: int| 0 <= j < text.len() ==> #[trigger] text[j] != ';' && text[j] != '；'
}

/// The text holds no closing bracket.
pub open spec fn closes_no_bracket(text: Seq<char>) -> bool {
    forall|j: int| 0 <= j < text.len() ==> #[trigger] text[j] != ')' && text[j] != ']' && text[j] != '}'
}

// ── over columns and pages ──

/// Word `m`, followed by the next word of the page that shows something, ends a sentence at no
/// bracket depth.
pub open spec fn flows_past(flat: Seq<FlatWord>, m: int) -> bool {
    forall|d: nat| !#[trigger] breaks(flat[m].text@, d, crate::sentence::text_from(flat, m + 1))
}

/// What follows a word that a sentence runs over is the next word of the page that shows
/// something, and nothing where there is none; a word takes part in a sentence that runs on
/// exactly if it belongs to a column of running text, or is a formula in any column.
pub proof fn a_sentence_runs_over_text_and_formulas(flat: Seq<FlatWord>, cal: DocCalibration, j: int, k: int)
    requires
        0 <= j < flat.len(),
    ensures
        takes_part(flat, cal, j) <==> column_at(flat, cal.column_gap_cqw as int, j) is Some && (flat[j].formula || text_column(
            flat,
            cal.column_gap_cqw as int,
            column_at(flat, cal.column_gap_cqw as int, j)->0 as nat,
        )),
        j < k < flat.len() && inked(flat[k]) && (forall|m: int| j < m < k ==> !inked(#[trigger] flat[m])) ==> crate::sentence::text_from(
            flat,
            j + 1,
        ) == Some(flat[k].text@),
        (forall|m: int| j < m < flat.len() ==> !inked(#[trigger] flat[m])) ==> crate::sentence::text_from(flat, j + 1) is None,
{
    crate::selection::lemma_first_inked(flat, j + 1);
    if j < k < flat.len() && inked(flat[k]) && (forall|m: int| j < m < k ==> !inked(#[trigger] flat[m])) {
        let f = crate::selection::first_inked(flat, j + 1);
        if f is Some {
            if f->0 < k {
                assert(!inked(flat[f->0]));
            }
        }
    }
}

/// The step holds word `j` of a page, in column `c`.
pub open spec fn holds_word(s: SelectionStep, flat: Seq<FlatWord>, cal: DocCalibration, page: u32, c: usize, j: int) -> bool {
    &&& s.page == page
    &&& s.lo <= j <= s.hi
    &&& s.column_left == Some(column_lefts(flat, cal.column_gap_cqw as int)[c as int])
}

/// One of the steps holds word `j` of a page, in its column.
pub open spec fn held(steps: Seq<SelectionStep>, flat: Seq<FlatWord>, cal: DocCalibration, page: u32, j: int) -> bool {
    exists|i: int|
        0 <= i < steps.len() && holds_word(
            #[trigger] steps[i],
            flat,
            cal,
            page,
            column_at(flat, cal.column_gap_cqw as int, j)->0,
            j,
        )
}

proof fn lemma_held_in(a: Seq<SelectionStep>, b: Seq<SelectionStep>, c: Seq<SelectionStep>, flat: Seq<FlatWord>, cal: DocCalibration, page: u32, j: int)
    requires
        held(b, flat, cal, page, j),
    ensures
        held(a + b + c, flat, cal, page, j),
        held(a + b, flat, cal, page, j),
        held(b + c, flat, cal, page, j),
{
    let k = column_at(flat, cal.column_gap_cqw as int, j)->0;
    let i = choose|i: int| 0 <= i < b.len() && holds_word(#[trigger] b[i], flat, cal, page, k, j);
    assert((a + b + c)[a.len() + i] == b[i]);
    assert((a + b)[a.len() + i] == b[i]);
    assert((b + c)[i] == b[i]);
}

proof fn lemma_stretch_is_kept(flat: Seq<FlatWord>, cal: DocCalibration, page: u32, j: int, s: Stretch, d: nat, w: int)
    requires
        flat.len() <= usize::MAX,
        0 <= j,
        s.lo <= w <= s.hi < j,
        column_at(flat, cal.column_gap_cqw as int, w) == Some(s.col),
    ensures
        held(flow(flat, cal, page, j, Some(s), d).0, flat, cal, page, w),
    decreases flat.len() - j,
{
    let all = flow(flat, cal, page, j, Some(s), d).0;
    let mine = crate::sentence::stretch_step(flat, cal, page, s);
    assert(holds_word(mine, flat, cal, page, s.col, w));
    if j >= flat.len() {
        assert(all[0] == mine);
    } else if !takes_part(flat, cal, j) {
        lemma_stretch_is_kept(flat, cal, page, j + 1, s, d, w);
    } else {
        let c = column_at(flat, cal.column_gap_cqw as int, j)->0;
        let now = stretched(Some(s), j, c);
        if s.col == c {
            let text = flat[j].text@;
            let grown = crate::sentence::stretch_step(flat, cal, page, now);
            assert(holds_word(grown, flat, cal, page, c, w));
            if breaks(text, d, crate::sentence::text_from(flat, j + 1)) {
                assert(all.last() == grown);
            } else {
                lemma_stretch_is_kept(flat, cal, page, j + 1, now, depth_behind(text, d), w);
                let rest = flow(flat, cal, page, j + 1, Some(now), depth_behind(text, d)).0;
                assert(all =~= rest);
            }
        } else {
            assert(all[0] == mine);
        }
    }
}

proof fn lemma_flow_holds(flat: Seq<FlatWord>, cal: DocCalibration, page: u32, from: int, acc: Option<Stretch>, d: nat, j: int)
    requires
        flat.len() <= usize::MAX,
        0 <= from <= j < flat.len(),
        acc is Some ==> acc->0.lo <= acc->0.hi < from,
        takes_part(flat, cal, j),
        forall|m: int| from <= m < j && #[trigger] takes_part(flat, cal, m) ==> flows_past(flat, m),
    ensures
        held(flow(flat, cal, page, from, acc, d).0, flat, cal, page, j),
    decreases j - from,
{
    let all = flow(flat, cal, page, from, acc, d).0;
    let c = column_at(flat, cal.column_gap_cqw as int, from)->0;
    let text = flat[from].text@;
    if !takes_part(flat, cal, from) {
        lemma_flow_holds(flat, cal, page, from + 1, acc, d, j);
    } else {
        let behind = crate::sentence::left_behind(flat, cal, page, acc, c);
        let now = stretched(acc, from, c);
        let rest = flow(flat, cal, page, from + 1, Some(now), depth_behind(text, d)).0;
        if from == j {
            let step = crate::sentence::stretch_step(flat, cal, page, now);
            if breaks(text, d, crate::sentence::text_from(flat, from + 1)) {
                assert(all.last() == step);
                assert(holds_word(step, flat, cal, page, c, j));
            } else {
                lemma_stretch_is_kept(flat, cal, page, from + 1, now, depth_behind(text, d), j);
                lemma_held_in(behind, rest, Seq::empty(), flat, cal, page, j);
            }
        } else {
            assert(!breaks(text, d, crate::sentence::text_from(flat, from + 1)));
            lemma_flow_holds(flat, cal, page, from + 1, Some(now), depth_behind(text, d), j);
            lemma_held_in(behind, rest, Seq::empty(), flat, cal, page, j);
        }
    }
}

proof fn lemma_flow_open(flat: Seq<FlatWord>, cal: DocCalibration, page: u32, from: int, acc: Option<Stretch>, d: nat)
    requires
        0 <= from,
        forall|m: int| from <= m < flat.len() && #[trigger] takes_part(flat, cal, m) ==> flows_past(flat, m),
    ensures
        !flow(flat, cal, page, from, acc, d).1,
    decreases flat.len() - from,
{
    if from < flat.len() {
        let text = flat[from].text@;
        if takes_part(flat, cal, from) {
            let c = column_at(flat, cal.column_gap_cqw as int, from)->0;
            assert(!breaks(text, d, crate::sentence::text_from(flat, from + 1)));
            lemma_flow_open(flat, cal, page, from + 1, Some(stretched(acc, from, c)), depth_behind(text, d));
        } else {
            lemma_flow_open(flat, cal, page, from + 1, acc, d);
        }
    }
}

/// Nothing ends the sentence of word `a` in its column: its paragraph reaches the end
/// of the column, and every word from `a` on runs on.
pub open spec fn open_to_the_end(flat: Seq<FlatWord>, cal: DocCalibration, a: int, c: usize) -> bool {
    &&& forall|k: int| #[trigger] word_of_column(flat, cal, k, c) ==> k <= paragraph(flat, a, cal).1
    &&& forall|k: int| a <= k && #[trigger] word_of_column(flat, cal, k, c) ==> never_ends(flat, cal, c, k)
}

/// Column `c` is the leftmost column of running text of a page, `e` its first word, and
/// its first line is not indented.
pub open spec fn enters(flat: Seq<FlatWord>, cal: DocCalibration, c: usize, e: int) -> bool {
    &&& text_column(flat, cal.column_gap_cqw as int, c as nat)
    &&& forall|b: usize| b < c ==> !#[trigger] text_column(flat, cal.column_gap_cqw as int, b as nat)
    &&& word_of_column(flat, cal, e, c)
    &&& forall|k: int| k < e ==> !#[trigger] word_of_column(flat, cal, k, c)
    &&& !first_line_indented(flat, cal, c)
}

proof fn lemma_first_text_column(flat: Seq<FlatWord>, gap: int, k: nat, c: usize)
    requires
        k <= c,
        text_column(flat, gap, c as nat),
        forall|b: usize| b < c ==> !#[trigger] text_column(flat, gap, b as nat),
    ensures
        text_column_from(flat, gap, k) == Some(c),
    decreases c - k,
{
    if k < c {
        assert(!text_column(flat, gap, (k as usize) as nat));
        lemma_first_text_column(flat, gap, k + 1, c);
    }
}

pub(crate) proof fn lemma_enters(flat: Seq<FlatWord>, cal: DocCalibration, c: usize, e: int)
    requires
        enters(flat, cal, c, e),
    ensures
        page_entry(flat, cal) == Some(e),
{
    let gap = cal.column_gap_cqw as int;
    lemma_first_text_column(flat, gap, 0, c);
    lemma_first_word(flat, cal, c, e);
}

pub(crate) proof fn lemma_first_word(flat: Seq<FlatWord>, cal: DocCalibration, c: usize, e: int)
    requires
        word_of_column(flat, cal, e, c),
        forall|k: int| k < e ==> !#[trigger] word_of_column(flat, cal, k, c),
    ensures
        column_words(flat, cal.column_gap_cqw as int, c).len() > 0,
        column_words(flat, cal.column_gap_cqw as int, c)[0] == e,
{
    let gap = cal.column_gap_cqw as int;
    let ws = column_words(flat, gap, c);
    lemma_words_are_in_the_column(flat, gap, c);
    lemma_column_words_rise(flat, gap, c, flat.len());
    assert(ws.contains(e));
    let q = choose|q: int| 0 <= q < ws.len() && ws[q] == e;
    assert(word_of_column(flat, cal, ws[0], c));
    if q > 0 {
        assert(ws[0] < ws[q]);
    }
}

/// A sentence that nothing ends in its column runs on: it takes in the words of running
/// text and the formulas that come behind the column, one after the other, until a word
/// ends it.
pub proof fn a_sentence_runs_on_over_columns(
    flat: Seq<FlatWord>,
    a: int,
    prev: Option<Seq<FlatWord>>,
    next: Option<Seq<FlatWord>>,
    page: u32,
    cal: DocCalibration,
    c: usize,
    j: int,
)
    requires
        reads_well(flat, cal, a, c),
        open_to_the_end(flat, cal, a, c),
        a <= j < flat.len(),
        forall|k: int| #[trigger] word_of_column(flat, cal, k, c) ==> k < j,
        takes_part(flat, cal, j),
        forall|m: int|
            a <= m < j && #[trigger] takes_part(flat, cal, m) && (forall|k: int|
                #[trigger] word_of_column(flat, cal, k, c) ==> k < m) ==> flows_past(flat, m),
    ensures
        held(sentence(flat, a, prev, next, page, cal), flat, cal, page, j),
{
    let f = frame(flat, a, cal, c);
    lemma_frame(flat, a, next, page, cal, c);
    lemma_open_frame(flat, a, cal, c);
    let d = start_scan(flat, f.ws, f.from, f.to).1;
    let end = end_scan(flat, f.ws, f.to, f.last, d);
    let from = f.ws.last() + 1;
    assert(word_of_column(flat, cal, f.ws[f.ws.len() - 1], c));
    assert(from <= j);
    assert forall|m: int| from <= m < j && #[trigger] takes_part(flat, cal, m) implies flows_past(flat, m) by {
        assert forall|k: int| #[trigger] word_of_column(flat, cal, k, c) implies k < m by {
            assert(f.ws.contains(k));
            let q = choose|q: int| 0 <= q < f.ws.len() && f.ws[q] == k;
            assert(q == f.ws.len() - 1 || f.ws[q] < f.ws[f.ws.len() - 1]);
        }
        assert(f.to == f.ws.len() - 1 || f.ws[f.to] < f.ws[f.ws.len() - 1]);
    }
    lemma_flow_holds(flat, cal, page, from, None, end.1, j);
    let here = flow(flat, cal, page, from, None, end.1);
    let whole = sentence_from(flat, a, next, page, cal);
    let first = seq![whole[0]];
    let on = crate::sentence::flow_on(flat, next, page, cal, from, end.1);
    assert(whole =~= first + on);
    lemma_held_in(Seq::empty(), here.0, on.skip(here.0.len() as int), flat, cal, page, j);
    assert(Seq::<SelectionStep>::empty() + here.0 + on.skip(here.0.len() as int) =~= on) by {
        assert(on.take(here.0.len() as int) =~= here.0);
    }
    lemma_held_in(first, on, Seq::empty(), flat, cal, page, j);
    lemma_held_in(sentence_before(flat, a, prev, page, cal), whole, Seq::empty(), flat, cal, page, j);
}

proof fn lemma_open_frame(flat: Seq<FlatWord>, a: int, cal: DocCalibration, c: usize)
    requires
        reads_well(flat, cal, a, c),
        open_to_the_end(flat, cal, a, c),
    ensures
        ({
            let f = frame(flat, a, cal, c);
            let d = start_scan(flat, f.ws, f.from, f.to).1;
            &&& f.last == f.ws.len() - 1
            &&& end_scan(flat, f.ws, f.to, f.last, d).0 is None
        }),
{
    let f = frame(flat, a, cal, c);
    lemma_frame(flat, a, None, 0, cal, c);
    let z = f.ws.len() - 1;
    assert(word_of_column(flat, cal, f.ws[z], c));
    if f.last < z {
        assert(f.ws[f.last] < f.ws[z]);
    }
    assert forall|q: int, e: nat| f.to <= q < f.ws.len() implies !#[trigger] ends_at(flat, f.ws, q, e) by {
        assert(word_of_column(flat, cal, f.ws[q], c));
        assert(q == f.to || f.ws[f.to] < f.ws[q]);
        lemma_ends(flat, cal, c, q, e);
        assert(never_ends(flat, cal, c, f.ws[q]));
        assert(!ends_in_column(flat, cal, c, f.ws[q], e));
    }
    let d = start_scan(flat, f.ws, f.from, f.to).1;
    lemma_never_stops(flat, f.ws, f.to, f.last, d);
}

proof fn lemma_never_stops(flat: Seq<FlatWord>, ws: Seq<int>, k: int, last: int, d: nat)
    requires
        forall|q: int, e: nat| k <= q <= last ==> !#[trigger] ends_at(flat, ws, q, e),
    ensures
        end_scan(flat, ws, k, last, d).0 is None,
    decreases last + 1 - k,
{
    if k <= last {
        assert(!ends_at(flat, ws, k, d));
        lemma_never_stops(flat, ws, k + 1, last, depth_behind(flat[ws[k]].text@, d));
    }
}

/// A sentence that nothing ends on its page runs on over the next page: from the first
/// word of the leftmost column of running text there, if its first line is not indented,
/// over the words of running text and the formulas, until a word ends it.
pub proof fn a_sentence_runs_on_over_the_next_page(
    flat: Seq<FlatWord>,
    a: int,
    prev: Option<Seq<FlatWord>>,
    next: Seq<FlatWord>,
    page: u32,
    cal: DocCalibration,
    c: usize,
    entry: usize,
    e: int,
    j: int,
)
    requires
        reads_well(flat, cal, a, c),
        open_to_the_end(flat, cal, a, c),
        forall|m: int|
            a <= m < flat.len() && #[trigger] takes_part(flat, cal, m) && (forall|k: int|
                #[trigger] word_of_column(flat, cal, k, c) ==> k < m) ==> flows_past(flat, m),
        next.len() <= usize::MAX,
        page < u32::MAX,
        enters(next, cal, entry, e),
        e <= j < next.len(),
        takes_part(next, cal, j),
        forall|m: int| e <= m < j && #[trigger] takes_part(next, cal, m) ==> flows_past(next, m),
    ensures
        held(sentence(flat, a, prev, Some(next), page, cal), next, cal, (page + 1) as u32, j),
{
    let f = frame(flat, a, cal, c);
    lemma_frame(flat, a, Some(next), page, cal, c);
    lemma_open_frame(flat, a, cal, c);
    lemma_enters(next, cal, entry, e);
    let d = start_scan(flat, f.ws, f.from, f.to).1;
    let end = end_scan(flat, f.ws, f.to, f.last, d);
    let from = f.ws.last() + 1;
    assert(word_of_column(flat, cal, f.ws[f.ws.len() - 1], c));
    assert forall|m: int| from <= m < flat.len() && #[trigger] takes_part(flat, cal, m) implies flows_past(flat, m) by {
        assert forall|k: int| #[trigger] word_of_column(flat, cal, k, c) implies k < m by {
            assert(f.ws.contains(k));
            let q = choose|q: int| 0 <= q < f.ws.len() && f.ws[q] == k;
            assert(q == f.ws.len() - 1 || f.ws[q] < f.ws[f.ws.len() - 1]);
        }
        assert(f.to == f.ws.len() - 1 || f.ws[f.to] < f.ws[f.ws.len() - 1]);
    }
    lemma_flow_open(flat, cal, page, from, None, end.1);
    let here = flow(flat, cal, page, from, None, end.1);
    let there = flow(next, cal, (page + 1) as u32, e, None, here.2);
    lemma_flow_holds(next, cal, (page + 1) as u32, e, None, here.2, j);
    let whole = sentence_from(flat, a, Some(next), page, cal);
    let first = seq![whole[0]];
    assert(whole =~= first + (here.0 + there.0));
    assert(whole =~= (first + here.0) + there.0);
    lemma_held_in(first + here.0, there.0, Seq::empty(), next, cal, (page + 1) as u32, j);
    lemma_held_in(
        sentence_before(flat, a, prev, page, cal),
        whole,
        Seq::empty(),
        next,
        cal,
        (page + 1) as u32,
        j,
    );
}

proof fn lemma_tail_holds(flat: Seq<FlatWord>, cal: DocCalibration, page: u32, c: usize, m: int)
    requires
        flat.len() <= usize::MAX,
        word_of_column(flat, cal, m, c),
        forall|k: int| m <= k && #[trigger] word_of_column(flat, cal, k, c) ==> never_ends(flat, cal, c, k),
    ensures
        ({
            let gap = cal.column_gap_cqw as int;
            let ws = column_words(flat, gap, c);
            match sentence_tail(flat, ws) {
                Some(t) => {
                    &&& 0 <= t.0 <= m <= t.1 < flat.len()
                    &&& (forall|k: int| #[trigger] word_of_column(flat, cal, k, c) ==> never_ends(flat, cal, c, k)) ==> t.0 == ws[0]
                },
                None => false,
            }
        }),
{
    let gap = cal.column_gap_cqw as int;
    let ws = column_words(flat, gap, c);
    lemma_words_are_in_the_column(flat, gap, c);
    lemma_column_words_rise(flat, gap, c, flat.len());
    assert(ws.contains(m));
    let p = choose|p: int| 0 <= p < ws.len() && ws[p] == m;
    assert forall|q: int, e: nat| p <= q < ws.len() implies !#[trigger] ends_at(flat, ws, q, e) by {
        assert(word_of_column(flat, cal, ws[q], c));
        assert(q == p || ws[p] < ws[q]);
        lemma_ends(flat, cal, c, q, e);
        assert(never_ends(flat, cal, c, ws[q]));
        assert(!ends_in_column(flat, cal, c, ws[q], e));
    }
    lemma_starts_by(flat, ws, 0, ws.len() as int, p);
    lemma_start_scan(flat, ws, 0, ws.len() as int);
    let start = start_scan(flat, ws, 0, ws.len() as int).0;
    assert(start == p || ws[start] < ws[p]);
    assert(p == ws.len() - 1 || ws[p] < ws[ws.len() - 1]);
    assert(0 <= ws[start] < flat.len() && 0 <= ws[ws.len() - 1] < flat.len());
    if forall|k: int| #[trigger] word_of_column(flat, cal, k, c) ==> never_ends(flat, cal, c, k) {
        assert forall|q: int, e: nat| 0 <= q < ws.len() implies !#[trigger] ends_at(flat, ws, q, e) by {
            assert(word_of_column(flat, cal, ws[q], c));
            lemma_ends(flat, cal, c, q, e);
        assert(never_ends(flat, cal, c, ws[q]));
        assert(!ends_in_column(flat, cal, c, ws[q], e));
        }
        lemma_starts_by(flat, ws, 0, ws.len() as int, 0);
    }
}

/// The sentence of word `a` reaches back to the start of its column: its paragraph starts
/// there, and every word up to `a` runs on.
pub open spec fn open_to_the_start(flat: Seq<FlatWord>, cal: DocCalibration, a: int, c: usize) -> bool {
    &&& forall|k: int| #[trigger] word_of_column(flat, cal, k, c) ==> paragraph(flat, a, cal).0 <= k
    &&& forall|k: int| k <= a && #[trigger] word_of_column(flat, cal, k, c) ==> never_ends(flat, cal, c, k)
}

/// All words of a column run on.
pub open spec fn column_runs_on(flat: Seq<FlatWord>, cal: DocCalibration, c: usize) -> bool {
    forall|k: int| #[trigger] word_of_column(flat, cal, k, c) ==> never_ends(flat, cal, c, k)
}

proof fn lemma_open_start(flat: Seq<FlatWord>, cal: DocCalibration, a: int, c: usize)
    requires
        word_of_column(flat, cal, a, c),
        forall|k: int| k < a && #[trigger] word_of_column(flat, cal, k, c) ==> paragraph(flat, a, cal).0 <= k,
        forall|k: int| k <= a && #[trigger] word_of_column(flat, cal, k, c) ==> never_ends(flat, cal, c, k),
    ensures
        crate::sentence::open_at_column_start(flat, a, cal, c),
{
    let gap = cal.column_gap_cqw as int;
    let ws = column_words(flat, gap, c);
    lemma_words_are_in_the_column(flat, gap, c);
    lemma_column_words_rise(flat, gap, c, flat.len());
    lemma_place(ws, a, 0);
    let to = place_of(ws, a, 0);
    assert forall|p: int| 0 <= p < to implies paragraph(flat, a, cal).0 <= #[trigger] ws[p] by {
        assert(word_of_column(flat, cal, ws[p], c));
        assert(ws[p] < ws[to]);
    }
    assert forall|p: int, e: nat| 0 <= p <= to implies !#[trigger] ends_at(flat, ws, p, e) by {
        assert(word_of_column(flat, cal, ws[p], c));
        assert(p == to || ws[p] < ws[to]);
        lemma_ends(flat, cal, c, p, e);
        assert(never_ends(flat, cal, c, ws[p]));
        assert(!ends_in_column(flat, cal, c, ws[p], e));
    }
    lemma_column_start_open(flat, ws, paragraph(flat, a, cal).0, to);
    assert(!ends_at(flat, ws, 0, 0));
}

pub(crate) proof fn lemma_listed_has_words(flat: Seq<FlatWord>, cal: DocCalibration, n: nat, i: int)
    requires
        n <= flat.len(),
        0 <= i < text_columns_upto(flat, cal.column_gap_cqw as int, n).len(),
    ensures
        column_words(flat, cal.column_gap_cqw as int, text_columns_upto(flat, cal.column_gap_cqw as int, n)[i]).len() > 0,
    decreases n,
{
    let gap = cal.column_gap_cqw as int;
    if n > 0 {
        let before = text_columns_upto(flat, gap, (n - 1) as nat);
        let c = text_columns_upto(flat, gap, n)[i];
        if i < before.len() {
            lemma_listed_has_words(flat, cal, (n - 1) as nat, i);
        } else {
            lemma_words_are_in_the_column(flat, gap, c);
            assert(column_at(flat, gap, n - 1) == Some(c));
        }
    }
}

pub(crate) proof fn lemma_previous(flat: Seq<FlatWord>, gap: int, i: int)
    requires
        0 <= i < text_columns(flat, gap).len(),
    ensures
        i > 0 ==> previous_text_column(flat, gap, text_columns(flat, gap)[i]) == Some(text_columns(flat, gap)[i - 1]),
        i == 0 ==> previous_text_column(flat, gap, text_columns(flat, gap)[i]) is None,
{
    let cols = text_columns(flat, gap);
    lemma_text_columns(flat, gap, flat.len());
    let c = cols[i];
    assert(cols.contains(c));
    let k = cols.index_of(c);
    assert(0 <= k < cols.len() && cols[k] == c);
    assert(k == i);
}

proof fn lemma_before_holds(
    flat: Seq<FlatWord>,
    a: int,
    prev: Option<Seq<FlatWord>>,
    page: u32,
    cal: DocCalibration,
    i: int,
    h: int,
    m: int,
)
    requires
        flat.len() <= usize::MAX,
        0 <= h < i < text_columns(flat, cal.column_gap_cqw as int).len(),
        word_of_column(flat, cal, a, text_columns(flat, cal.column_gap_cqw as int)[i]),
        crate::sentence::open_at_column_start(flat, a, cal, text_columns(flat, cal.column_gap_cqw as int)[i]),
        forall|g: int| h < g < i ==> column_runs_on(flat, cal, #[trigger] text_columns(flat, cal.column_gap_cqw as int)[g]),
        word_of_column(flat, cal, m, text_columns(flat, cal.column_gap_cqw as int)[h]),
        forall|k: int|
            m <= k && #[trigger] word_of_column(flat, cal, k, text_columns(flat, cal.column_gap_cqw as int)[h]) ==> never_ends(
                flat,
                cal,
                text_columns(flat, cal.column_gap_cqw as int)[h],
                k,
            ),
    ensures
        held(sentence_before(flat, a, prev, page, cal), flat, cal, page, m),
    decreases i,
{
    let gap = cal.column_gap_cqw as int;
    let cols = text_columns(flat, gap);
    let c = cols[i];
    let p = cols[i - 1];
    lemma_previous(flat, gap, i);
    lemma_text_columns(flat, gap, flat.len());
    let pw = column_words(flat, gap, p);
    lemma_words_are_in_the_column(flat, gap, p);
    lemma_tail_column(flat, gap, c);
    let all = sentence_before(flat, a, prev, page, cal);
    if h == i - 1 {
        lemma_tail_holds(flat, cal, page, p, m);
        assert(holds_word(all.last(), flat, cal, page, p, m));
        assert(holds_word(all[all.len() - 1], flat, cal, page, p, m));
    } else {
        assert(column_runs_on(flat, cal, cols[i - 1]));
        lemma_listed_has_words(flat, cal, flat.len(), i - 1);
        let w = pw[0];
        assert(word_of_column(flat, cal, w, p));
        lemma_tail_holds(flat, cal, page, p, w);
        assert forall|k: int| k < w && #[trigger] word_of_column(flat, cal, k, p) implies paragraph(flat, w, cal).0 <= k by {
            lemma_column_words_rise(flat, gap, p, flat.len());
            assert(pw.contains(k));
            let q = choose|q: int| 0 <= q < pw.len() && pw[q] == k;
            assert(q == 0 || pw[0] < pw[q]);
        }
        lemma_open_start(flat, cal, w, p);
        lemma_before_holds(flat, w, prev, page, cal, i - 1, h, m);
        let earlier = sentence_before(flat, w, prev, page, cal);
        let last = seq![all.last()];
        assert(all =~= earlier + last);
        lemma_held_in(Seq::empty(), earlier, last, flat, cal, page, m);
    }
}

/// A sentence that reaches back to the start of its column goes back over the columns of
/// running text before it: it holds every word there behind which, in reading order,
/// nothing ends a sentence.
pub proof fn a_sentence_goes_back_over_columns(
    flat: Seq<FlatWord>,
    a: int,
    prev: Option<Seq<FlatWord>>,
    next: Option<Seq<FlatWord>>,
    page: u32,
    cal: DocCalibration,
    i: int,
    h: int,
    m: int,
)
    requires
        0 <= h < i < text_columns(flat, cal.column_gap_cqw as int).len(),
        reads_well(flat, cal, a, text_columns(flat, cal.column_gap_cqw as int)[i]),
        open_to_the_start(flat, cal, a, text_columns(flat, cal.column_gap_cqw as int)[i]),
        forall|g: int| h < g < i ==> column_runs_on(flat, cal, #[trigger] text_columns(flat, cal.column_gap_cqw as int)[g]),
        word_of_column(flat, cal, m, text_columns(flat, cal.column_gap_cqw as int)[h]),
        forall|k: int|
            m <= k && #[trigger] word_of_column(flat, cal, k, text_columns(flat, cal.column_gap_cqw as int)[h]) ==> never_ends(
                flat,
                cal,
                text_columns(flat, cal.column_gap_cqw as int)[h],
                k,
            ),
    ensures
        held(sentence(flat, a, prev, next, page, cal), flat, cal, page, m),
{
    let c = text_columns(flat, cal.column_gap_cqw as int)[i];
    lemma_open_start(flat, cal, a, c);
    lemma_before_holds(flat, a, prev, page, cal, i, h, m);
    let before = sentence_before(flat, a, prev, page, cal);
    lemma_held_in(Seq::empty(), before, sentence_from(flat, a, next, page, cal), flat, cal, page, m);
}

proof fn lemma_back_to_page_before(
    flat: Seq<FlatWord>,
    a: int,
    prev: Seq<FlatWord>,
    page: u32,
    cal: DocCalibration,
    i: int,
    m: int,
)
    requires
        flat.len() <= usize::MAX,
        prev.len() <= usize::MAX,
        page > 0,
        0 <= i < text_columns(flat, cal.column_gap_cqw as int).len(),
        word_of_column(flat, cal, a, text_columns(flat, cal.column_gap_cqw as int)[i]),
        crate::sentence::open_at_column_start(flat, a, cal, text_columns(flat, cal.column_gap_cqw as int)[i]),
        forall|g: int| 0 <= g < i ==> column_runs_on(flat, cal, #[trigger] text_columns(flat, cal.column_gap_cqw as int)[g]),
        text_columns(prev, cal.column_gap_cqw as int).len() > 0,
        word_of_column(prev, cal, m, text_columns(prev, cal.column_gap_cqw as int).last()),
        forall|k: int|
            m <= k && #[trigger] word_of_column(prev, cal, k, text_columns(prev, cal.column_gap_cqw as int).last())
                ==> never_ends(prev, cal, text_columns(prev, cal.column_gap_cqw as int).last(), k),
    ensures
        held(sentence_before(flat, a, Some(prev), page, cal), prev, cal, (page - 1) as u32, m),
    decreases i,
{
    let gap = cal.column_gap_cqw as int;
    let cols = text_columns(flat, gap);
    let c = cols[i];
    lemma_previous(flat, gap, i);
    let all = sentence_before(flat, a, Some(prev), page, cal);
    if i == 0 {
        lemma_tail_holds(prev, cal, (page - 1) as u32, text_columns(prev, gap).last(), m);
        assert(all == crate::sentence::tail_of_page(prev, page, cal));
        assert(holds_word(all[0], prev, cal, (page - 1) as u32, text_columns(prev, gap).last(), m));
    } else {
        let p = cols[i - 1];
        assert(column_runs_on(flat, cal, cols[i - 1]));
        lemma_text_columns(flat, gap, flat.len());
        lemma_listed_has_words(flat, cal, flat.len(), i - 1);
        let pw = column_words(flat, gap, p);
        lemma_words_are_in_the_column(flat, gap, p);
        lemma_tail_column(flat, gap, c);
        let w = pw[0];
        assert(word_of_column(flat, cal, w, p));
        lemma_tail_holds(flat, cal, page, p, w);
        assert forall|k: int| k < w && #[trigger] word_of_column(flat, cal, k, p) implies paragraph(flat, w, cal).0 <= k by {
            lemma_column_words_rise(flat, gap, p, flat.len());
            assert(pw.contains(k));
            let q = choose|q: int| 0 <= q < pw.len() && pw[q] == k;
            assert(q == 0 || pw[0] < pw[q]);
        }
        lemma_open_start(flat, cal, w, p);
        lemma_back_to_page_before(flat, w, prev, page, cal, i - 1, m);
        let earlier = sentence_before(flat, w, Some(prev), page, cal);
        let last = seq![all.last()];
        assert(all =~= earlier + last);
        lemma_held_in(Seq::empty(), earlier, last, prev, cal, (page - 1) as u32, m);
    }
}

/// A sentence that reaches back to the start of the first column of running text goes
/// back over the page before: it holds every word of the last column of running text
/// there behind which nothing ends a sentence.
pub proof fn a_sentence_goes_back_over_the_page_before(
    flat: Seq<FlatWord>,
    a: int,
    prev: Seq<FlatWord>,
    next: Option<Seq<FlatWord>>,
    page: u32,
    cal: DocCalibration,
    i: int,
    m: int,
)
    requires
        0 <= i < text_columns(flat, cal.column_gap_cqw as int).len(),
        reads_well(flat, cal, a, text_columns(flat, cal.column_gap_cqw as int)[i]),
        open_to_the_start(flat, cal, a, text_columns(flat, cal.column_gap_cqw as int)[i]),
        forall|g: int| 0 <= g < i ==> column_runs_on(flat, cal, #[trigger] text_columns(flat, cal.column_gap_cqw as int)[g]),
        prev.len() <= usize::MAX,
        page > 0,
        text_columns(prev, cal.column_gap_cqw as int).len() > 0,
        word_of_column(prev, cal, m, text_columns(prev, cal.column_gap_cqw as int).last()),
        forall|k: int|
            m <= k && #[trigger] word_of_column(prev, cal, k, text_columns(prev, cal.column_gap_cqw as int).last())
                ==> never_ends(prev, cal, text_columns(prev, cal.column_gap_cqw as int).last(), k),
    ensures
        held(sentence(flat, a, Some(prev), next, page, cal), prev, cal, (page - 1) as u32, m),
{
    let c = text_columns(flat, cal.column_gap_cqw as int)[i];
    lemma_open_start(flat, cal, a, c);
    lemma_back_to_page_before(flat, a, prev, page, cal, i, m);
    let before = sentence_before(flat, a, Some(prev), page, cal);
    lemma_held_in(
        Seq::empty(),
        before,
        sentence_from(flat, a, next, page, cal),
        prev,
        cal,
        (page - 1) as u32,
        m,
    );
}

// ── where a sentence that runs on ends ──

/// Word `j`, followed by the next word of the page that shows something, ends a sentence at any
/// bracket depth.
pub open spec fn stops_flow(flat: Seq<FlatWord>, j: int) -> bool {
    forall|d: nat| #[trigger] breaks(flat[j].text@, d, crate::sentence::text_from(flat, j + 1))
}

/// The word ends a sentence, whatever comes before it and behind it.
pub open spec fn ends_always(text: Seq<char>) -> bool {
    forall|d: nat, next: Option<Seq<char>>| #[trigger] breaks(text, d, next)
}

/// No step reaches behind word `j` of the page.
pub open spec fn none_behind(steps: Seq<SelectionStep>, page: u32, j: int) -> bool {
    forall|i: int| 0 <= i < steps.len() ==> (#[trigger] steps[i]).page == page && steps[i].hi <= j
}

proof fn lemma_flow_stops(flat: Seq<FlatWord>, cal: DocCalibration, page: u32, from: int, acc: Option<Stretch>, d: nat, j: int)
    requires
        flat.len() <= usize::MAX,
        0 <= from <= j < flat.len(),
        acc is Some ==> acc->0.hi < from,
        takes_part(flat, cal, j),
        stops_flow(flat, j),
    ensures
        flow(flat, cal, page, from, acc, d).1,
        none_behind(flow(flat, cal, page, from, acc, d).0, page, j),
    decreases j - from,
{
    let all = flow(flat, cal, page, from, acc, d);
    let c = column_at(flat, cal.column_gap_cqw as int, from)->0;
    let text = flat[from].text@;
    if !takes_part(flat, cal, from) {
        lemma_flow_stops(flat, cal, page, from + 1, acc, d, j);
    } else {
        let behind = crate::sentence::left_behind(flat, cal, page, acc, c);
        let now = stretched(acc, from, c);
        if breaks(text, d, crate::sentence::text_from(flat, from + 1)) {
            assert(all.0 =~= behind.push(crate::sentence::stretch_step(flat, cal, page, now)));
        } else {
            assert(from != j);
            lemma_flow_stops(flat, cal, page, from + 1, Some(now), depth_behind(text, d), j);
            let rest = flow(flat, cal, page, from + 1, Some(now), depth_behind(text, d));
            assert(all.0 =~= behind + rest.0);
            assert forall|i: int| 0 <= i < all.0.len() implies (#[trigger] all.0[i]).page == page && all.0[i].hi <= j by {
                if i >= behind.len() {
                    assert(all.0[i] == rest.0[i - behind.len()]);
                }
            }
        }
    }
}

/// A sentence that runs on over the columns behind its own ends at the first word there that
/// ends one: none of its steps from its own column on reaches behind that word, and none is on
/// the next page.
pub proof fn a_sentence_that_runs_on_ends_at_a_word_that_ends_it(
    flat: Seq<FlatWord>,
    a: int,
    next: Option<Seq<FlatWord>>,
    page: u32,
    cal: DocCalibration,
    c: usize,
    j: int,
)
    requires
        reads_well(flat, cal, a, c),
        j < flat.len(),
        forall|k: int| #[trigger] word_of_column(flat, cal, k, c) ==> k < j,
        takes_part(flat, cal, j),
        stops_flow(flat, j),
    ensures
        none_behind(sentence_from(flat, a, next, page, cal), page, j),
{
    let f = frame(flat, a, cal, c);
    lemma_frame(flat, a, next, page, cal, c);
    let d = start_scan(flat, f.ws, f.from, f.to).1;
    let end = end_scan(flat, f.ws, f.to, f.last, d);
    let z = f.ws.len() - 1;
    assert(word_of_column(flat, cal, f.ws[z], c));
    assert(word_of_column(flat, cal, f.ws[f.last], c));
    if end.0 is Some {
        assert(word_of_column(flat, cal, f.ws[end.0->0], c));
    } else if f.last == z {
        let from = f.ws.last() + 1;
        lemma_flow_stops(flat, cal, page, from, None, end.1, j);
        let whole = sentence_from(flat, a, next, page, cal);
        let here = flow(flat, cal, page, from, None, end.1).0;
        assert(whole =~= seq![whole[0]] + here);
        assert forall|i: int| 0 <= i < whole.len() implies (#[trigger] whole[i]).page == page && whole[i].hi <= j by {
            if i > 0 {
                assert(whole[i] == here[i - 1]);
            }
        }
    }
}

/// A sentence that goes back over the column of running text before its own goes back no
/// further than the last word there that ends one: it has at most one step before its column,
/// and that starts behind the word.
pub proof fn a_sentence_goes_back_no_further_than_a_word_that_ends_one(
    flat: Seq<FlatWord>,
    a: int,
    prev: Option<Seq<FlatWord>>,
    page: u32,
    cal: DocCalibration,
    i: int,
    k: int,
)
    requires
        flat.len() <= usize::MAX,
        0 < i < text_columns(flat, cal.column_gap_cqw as int).len(),
        word_of_column(flat, cal, a, text_columns(flat, cal.column_gap_cqw as int)[i]),
        word_of_column(flat, cal, k, text_columns(flat, cal.column_gap_cqw as int)[i - 1]),
        always_ends(flat, cal, text_columns(flat, cal.column_gap_cqw as int)[i - 1], k),
    ensures
        sentence_before(flat, a, prev, page, cal).len() <= 1,
        sentence_before(flat, a, prev, page, cal).len() == 1 ==> sentence_before(flat, a, prev, page, cal)[0].page == page
            && sentence_before(flat, a, prev, page, cal)[0].lo > k,
{
    let gap = cal.column_gap_cqw as int;
    let p = text_columns(flat, gap)[i - 1];
    lemma_previous(flat, gap, i);
    let ws = column_words(flat, gap, p);
    lemma_words_are_in_the_column(flat, gap, p);
    lemma_column_words_rise(flat, gap, p, flat.len());
    assert(ws.contains(k));
    let q = choose|q: int| 0 <= q < ws.len() && ws[q] == k;
    assert forall|e: nat| #[trigger] ends_at(flat, ws, q, e) by {
        lemma_ends(flat, cal, p, q, e);
        assert(ends_in_column(flat, cal, p, k, e));
    }
    lemma_starts_behind(flat, ws, 0, ws.len() as int, q);
    let start = start_scan(flat, ws, 0, ws.len() as int).0;
    if start < ws.len() {
        assert(ws[q] < ws[start]);
        assert(0 <= ws[start] < flat.len());
        assert(ws[0] <= ws[q]) by {
            assert(q == 0 || ws[0] < ws[q]);
        }
    }
}

// ── formula sentences ──

proof fn lemma_formula_frame(flat: Seq<FlatWord>, a: int, page: u32, cal: DocCalibration, c: usize) -> (run: Seq<int>)
    requires
        flat.len() <= usize::MAX,
        word_of_column(flat, cal, a, c),
        snapped(flat, a) == a,
    ensures
        ({
            let to = place_of(run, a, 0);
            let start = start_scan(flat, run, 0, to).0;
            let end = end_scan(flat, run, to, run.len() - 1, start_scan(flat, run, 0, to).1).0;
            let s = crate::sentence::formula_sentence(flat, a, page, cal);
            let ws = column_words(flat, cal.column_gap_cqw as int, c);
            let ls = crate::sentence::lines_of_words(flat, ws);
            let at = place_of(ls, flat[a].line, 0);
            let ratio = cal.vertical_gap_ratio as int;
            &&& run == crate::sentence::words_on(
                flat,
                ws,
                ls,
                crate::sentence::run_first(flat, ratio, ls, at),
                crate::sentence::run_last(flat, ratio, ls, at),
                ws.len(),
            )
            &&& 0 <= start <= to < run.len()
            &&& run[to] == a
            &&& crate::holding::rising(run)
            &&& forall|q: int| 0 <= q < run.len() ==> word_of_column(flat, cal, #[trigger] run[q], c)
            &&& forall|k: int| word_of_column(flat, cal, k, c) && (#[trigger] flat[k]).line == flat[a].line ==> run.contains(k)
            &&& s.len() == 1
            &&& s[0].page == page
            &&& s[0].lo == run[start]
            &&& end is Some ==> to <= end->0 < run.len() && s[0].hi == run[end->0]
            &&& end is None ==> s[0].hi == run[run.len() - 1]
        }),
{
    let gap = cal.column_gap_cqw as int;
    let ratio = cal.vertical_gap_ratio as int;
    let ws = column_words(flat, gap, c);
    lemma_column_holds(flat, cal, a, c);
    lemma_words_are_in_the_column(flat, gap, c);
    lemma_column_words_rise(flat, gap, c, flat.len());
    let raw = ws.map_values(|i: int| flat[i].line);
    let ls = crate::sentence::lines_of_words(flat, ws);
    let line = flat[a].line;
    let m = choose|m: int| 0 <= m < ws.len() && ws[m] == a;
    assert(raw[m] == line);
    crate::sorting::stable_sort_contains(raw, crate::lines::by_top(flat), line);
    crate::sentence::lemma_dedup(crate::sorting::stable_sort(raw, crate::lines::by_top(flat)), line);
    crate::sentence::lemma_first_place(ls, line, 0);
    let at = place_of(ls, line, 0);
    let lo = crate::sentence::run_first(flat, ratio, ls, at);
    let hi = crate::sentence::run_last(flat, ratio, ls, at);
    crate::sentence::lemma_run(flat, ratio, ls, at);
    crate::reading::lemma_run_last(flat, ratio, ls, at);
    assert(crate::sentence::on_page(flat, ws));
    crate::sentence::lemma_words_on(flat, ws, ls, lo, hi, ws.len());
    crate::reading::lemma_words_on_subset(flat, ws, ls, lo, hi, ws.len());
    crate::holding::lemma_words_on_rise(flat, ws, ls, lo, hi, ws.len());
    let run = crate::sentence::words_on(flat, ws, ls, lo, hi, ws.len());
    assert(ls[at] == line);
    assert forall|k: int| word_of_column(flat, cal, k, c) && (#[trigger] flat[k]).line == line implies run.contains(k) by {
        assert(ws.contains(k));
        let q = choose|q: int| 0 <= q < ws.len() && ws[q] == k;
        assert(crate::formula::among(ls, lo, hi, flat[ws[q]].line));
    }
    assert(run.contains(a));
    lemma_place(run, a, 0);
    let to = place_of(run, a, 0);
    assert forall|q: int| 0 <= q < run.len() implies word_of_column(flat, cal, #[trigger] run[q], c) by {
        assert(ws.contains(run[q]));
    }
    lemma_start_scan(flat, run, 0, to);
    let start = start_scan(flat, run, 0, to).0;
    lemma_reads_on(flat, run, 0, to, run.len() - 1, start);
    crate::sentence::lemma_end_scan(flat, run, to, run.len() - 1, start_scan(flat, run, 0, to).1);
    assert(word_of_column(flat, cal, run[start], c));
    assert(word_of_column(flat, cal, run[run.len() - 1], c));
    let end = end_scan(flat, run, to, run.len() - 1, start_scan(flat, run, 0, to).1).0;
    if end is Some {
        assert(word_of_column(flat, cal, run[end->0], c));
    }
    run
}

/// The sentence of a formula word is one step. Within the line of the word it ends with the first
/// word that ends a sentence, starts behind the last such word before, and holds every word that is
/// parted from the place by words that run on.
pub proof fn a_formula_sentence_reaches_to_what_ends_it(
    flat: Seq<FlatWord>,
    a: int,
    prev: Option<Seq<FlatWord>>,
    next: Option<Seq<FlatWord>>,
    page: u32,
    cal: DocCalibration,
    c: usize,
    k: int,
)
    requires
        flat.len() <= usize::MAX,
        word_of_column(flat, cal, a, c),
        snapped(flat, a) == a,
        flat[a].formula,
        word_of_column(flat, cal, k, c),
        flat[k].line == flat[a].line,
    ensures
        ({
            let s = sentence(flat, a, prev, next, page, cal);
            &&& s.len() == 1
            &&& s[0].page == page
            &&& s[0].lo <= a <= s[0].hi
            &&& a <= k && ends_always(flat[k].text@) ==> s[0].hi <= k
            &&& k < a && ends_always(flat[k].text@) ==> k < s[0].lo
            &&& (forall|m: int|
                (a <= m < k || k <= m < a) && #[trigger] word_of_column(flat, cal, m, c) ==> runs_on(flat[m].text@)) ==> s[0].lo <= k
                <= s[0].hi
        }),
{
    let run = lemma_formula_frame(flat, a, page, cal, c);
    let to = place_of(run, a, 0);
    let d = start_scan(flat, run, 0, to).1;
    let last = run.len() - 1;
    let start = start_scan(flat, run, 0, to).0;
    let end = end_scan(flat, run, to, last, d).0;
    assert(run.contains(k));
    let p = choose|p: int| 0 <= p < run.len() && run[p] == k;
    assert(p < to ==> run[p] < run[to]);
    assert(to < p ==> run[to] < run[p]);
    assert(start == to || run[start] < run[to]);
    assert(to == last || run[to] < run[last]);
    assert(p == last || run[p] < run[last]);
    if end is Some {
        assert(end->0 == to || run[to] < run[end->0]);
        assert(end->0 == p || (p < end->0 ==> run[p] < run[end->0]));
        assert(end->0 == p || (end->0 < p ==> run[end->0] < run[p]));
    }
    if ends_always(flat[k].text@) {
        assert forall|e: nat| #[trigger] ends_at(flat, run, p, e) by {}
        if to <= p {
            lemma_stops_by(flat, run, to, last, d, p);
        } else {
            lemma_starts_behind(flat, run, 0, to, p);
            assert(run[p] < run[start]);
        }
    }
    if forall|m: int| (a <= m < k || k <= m < a) && #[trigger] word_of_column(flat, cal, m, c) ==> runs_on(flat[m].text@) {
        assert forall|q: int, e: nat| (to <= q < p || p <= q < to) implies !#[trigger] ends_at(flat, run, q, e) by {
            assert(word_of_column(flat, cal, run[q], c));
            assert(q == to || q < to || run[to] < run[q]);
            assert(q == p || q < p || run[p] < run[q]);
            if to <= q && q < p {
                assert(run[q] < run[p]);
            } else {
                assert(run[q] < run[to]);
            }
            assert(runs_on(flat[run[q]].text@));
        }
        if to <= p {
            lemma_goes_to(flat, run, to, last, d, p);
        } else {
            lemma_starts_by(flat, run, 0, to, p);
            assert(start == p || run[start] < run[p]);
        }
    }
}

// ── formula sentences over several lines ──

proof fn lemma_dedup_shape(s: Seq<usize>, key: spec_fn(usize) -> int)
    requires
        crate::sorting::ascending(s, key),
    ensures
        crate::sorting::ascending(crate::sentence::dedup(s), key),
        forall|i: int| 0 < i < crate::sentence::dedup(s).len() ==> crate::sentence::dedup(s)[i - 1] != #[trigger] crate::sentence::dedup(s)[i],
        s.len() > 0 ==> crate::sentence::dedup(s).len() > 0 && crate::sentence::dedup(s).last() == s.last(),
        forall|i: int| 0 <= i < crate::sentence::dedup(s).len() ==> s.contains(#[trigger] crate::sentence::dedup(s)[i]),
    decreases s.len(),
{
    let d = crate::sentence::dedup(s);
    if s.len() > 1 {
        let t = s.drop_last();
        assert forall|i: int, j: int| 0 <= i <= j < t.len() implies key(#[trigger] t[i]) <= key(#[trigger] t[j]) by {
            assert(t[i] == s[i] && t[j] == s[j]);
        }
        lemma_dedup_shape(t, key);
        let before = crate::sentence::dedup(t);
        assert(t.last() == s[s.len() - 2]);
        assert forall|i: int| 0 <= i < d.len() implies s.contains(#[trigger] d[i]) by {
            if i < before.len() {
                assert(t.contains(before[i]));
                let k = choose|k: int| 0 <= k < t.len() && t[k] == before[i];
                assert(s[k] == d[i]);
            } else {
                assert(s[s.len() - 1] == d[i]);
            }
        }
        assert forall|i: int, j: int| 0 <= i <= j < d.len() implies key(#[trigger] d[i]) <= key(#[trigger] d[j]) by {
            if j < before.len() {
                assert(d[i] == before[i] && d[j] == before[j]);
            } else if i < before.len() {
                assert(d[i] == before[i]);
                assert(key(before[i]) <= key(before[before.len() - 1]));
                assert(key(s[s.len() - 2]) <= key(s[s.len() - 1]));
            }
        }
    } else if s.len() == 1 {
        assert(s.contains(d[0]));
    }
}

proof fn lemma_lines_next(flat: Seq<FlatWord>, cal: DocCalibration, c: usize, x: int, y: int)
    requires
        word_of_column(flat, cal, x, c),
        word_of_column(flat, cal, y, c),
        crate::paragraph_extent::next_below(flat, cal.column_gap_cqw as int, c, flat[x].line, flat[y].line),
    ensures
        ({
            let ls = crate::sentence::lines_of_words(flat, column_words(flat, cal.column_gap_cqw as int, c));
            let i = place_of(ls, flat[x].line, 0);
            &&& 0 <= i < ls.len() - 1
            &&& ls[i] == flat[x].line
            &&& ls[i + 1] == flat[y].line
            &&& place_of(ls, flat[y].line, 0) == i + 1
        }),
{
    let gap = cal.column_gap_cqw as int;
    let ws = column_words(flat, gap, c);
    let raw = ws.map_values(|i: int| flat[i].line);
    let key = crate::lines::by_top(flat);
    let sorted = crate::sorting::stable_sort(raw, key);
    let ls = crate::sentence::lines_of_words(flat, ws);
    let (a, b) = (flat[x].line, flat[y].line);
    lemma_words_are_in_the_column(flat, gap, c);
    assert(ws.contains(x) && ws.contains(y));
    let p = choose|p: int| 0 <= p < ws.len() && ws[p] == x;
    let q = choose|q: int| 0 <= q < ws.len() && ws[q] == y;
    assert(raw[p] == a && raw[q] == b);
    assert(raw.contains(a) && raw.contains(b));
    crate::sorting::stable_sort_is_sorted_permutation(raw, key);
    crate::sorting::stable_sort_contains(raw, key, a);
    crate::sorting::stable_sort_contains(raw, key, b);
    crate::sentence::lemma_dedup(sorted, a);
    crate::sentence::lemma_dedup(sorted, b);
    lemma_dedup_shape(sorted, key);
    crate::sentence::lemma_first_place(ls, a, 0);
    crate::sentence::lemma_first_place(ls, b, 0);
    let i = place_of(ls, a, 0);
    let j = place_of(ls, b, 0);
    let u = choose|u: int| 0 <= u < ls.len() && ls[u] == a;
    let w = choose|w: int| 0 <= w < ls.len() && ls[w] == b;
    assert(ls[u] == a && ls[w] == b);
    assert(0 <= i < ls.len() && ls[i] == a);
    assert(0 <= j < ls.len() && ls[j] == b);
    if j <= i {
        assert(key(ls[j]) <= key(ls[i]));
    }
    let m = ls[i + 1];
    assert(key(ls[i]) <= key(ls[i + 1]));
    assert(key(ls[i + 1]) <= key(ls[j]));
    assert(ls[i + 1 - 1] != ls[i + 1]);
    assert(sorted.contains(m));
    crate::sorting::stable_sort_contains(raw, key, m);
    let r = choose|r: int| 0 <= r < raw.len() && raw[r] == m;
    assert(column_at(flat, gap, ws[r]) == Some(c));
    assert(crate::lines::column_of(flat, gap, m) == Some(c));
    assert(m == b);
    if i + 1 < j {
        lemma_first_place_is_first(ls, b, 0, i + 1);
    }
}

proof fn lemma_first_place_is_first(s: Seq<usize>, x: usize, from: int, k: int)
    requires
        0 <= from <= k < s.len(),
        s[k] == x,
    ensures
        crate::sentence::first_place(s, x, from) is Some,
        crate::sentence::first_place(s, x, from)->0 <= k,
    decreases k - from,
{
    if from < k && s[from] != x {
        lemma_first_place_is_first(s, x, from + 1, k);
    }
}

/// A sentence in a formula goes on over the neighbouring line of its column, above or below, where
/// that is a formula too and the two do not stand apart: it holds every word there that is parted
/// from the place by words that run on.
pub proof fn a_formula_sentence_goes_on_over_the_next_line(
    flat: Seq<FlatWord>,
    a: int,
    prev: Option<Seq<FlatWord>>,
    next: Option<Seq<FlatWord>>,
    page: u32,
    cal: DocCalibration,
    c: usize,
    k: int,
)
    requires
        flat.len() <= usize::MAX,
        word_of_column(flat, cal, a, c),
        snapped(flat, a) == a,
        flat[a].formula,
        word_of_column(flat, cal, k, c),
        crate::formula::marked_line(flat, flat[k].line),
        crate::paragraph_extent::next_below(flat, cal.column_gap_cqw as int, c, flat[a].line, flat[k].line)
            && !crate::formula::apart(flat, cal.vertical_gap_ratio as int, flat[a].line, flat[k].line)
            || crate::paragraph_extent::next_below(flat, cal.column_gap_cqw as int, c, flat[k].line, flat[a].line)
            && !crate::formula::apart(flat, cal.vertical_gap_ratio as int, flat[k].line, flat[a].line),
        forall|m: int| (a <= m < k || k <= m < a) && #[trigger] word_of_column(flat, cal, m, c) ==> runs_on(flat[m].text@),
    ensures
        ({
            let s = sentence(flat, a, prev, next, page, cal);
            s.len() == 1 && s[0].page == page && s[0].lo <= a <= s[0].hi && s[0].lo <= k <= s[0].hi
        }),
{
    let run = lemma_formula_frame(flat, a, page, cal, c);
    let gap = cal.column_gap_cqw as int;
    let ratio = cal.vertical_gap_ratio as int;
    let ws = column_words(flat, gap, c);
    let ls = crate::sentence::lines_of_words(flat, ws);
    let at = place_of(ls, flat[a].line, 0);
    let lo = crate::sentence::run_first(flat, ratio, ls, at);
    let hi = crate::sentence::run_last(flat, ratio, ls, at);
    lemma_words_are_in_the_column(flat, gap, c);
    assert(ws.contains(k));
    let q = choose|q: int| 0 <= q < ws.len() && ws[q] == k;
    if crate::paragraph_extent::next_below(flat, gap, c, flat[a].line, flat[k].line) && !crate::formula::apart(
        flat,
        ratio,
        flat[a].line,
        flat[k].line,
    ) {
        lemma_lines_next(flat, cal, c, a, k);
        assert(crate::sentence::runs_on(flat, ratio, ls, at, at + 1, at + 1));
        crate::reading::lemma_run_last(flat, ratio, ls, at + 1);
        crate::sentence::lemma_run(flat, ratio, ls, at);
        assert(ls[at + 1] == flat[k].line);
        assert(crate::formula::among(ls, lo, hi, flat[ws[q]].line));
    } else {
        lemma_lines_next(flat, cal, c, k, a);
        let b = place_of(ls, flat[k].line, 0);
        assert(at == b + 1);
        assert(crate::sentence::runs_on(flat, ratio, ls, at - 1, at, at - 1));
        crate::sentence::lemma_run(flat, ratio, ls, at - 1);
        crate::reading::lemma_run_last(flat, ratio, ls, at);
        assert(ls[b] == flat[k].line);
        assert(crate::formula::among(ls, lo, hi, flat[ws[q]].line));
    }
    crate::sentence::lemma_words_on(flat, ws, ls, lo, hi, ws.len());
    assert(run.contains(k));
    let to = place_of(run, a, 0);
    let d = start_scan(flat, run, 0, to).1;
    let last = run.len() - 1;
    let start = start_scan(flat, run, 0, to).0;
    let end = end_scan(flat, run, to, last, d).0;
    let p = choose|p: int| 0 <= p < run.len() && run[p] == k;
    assert(p < to ==> run[p] < run[to]);
    assert(to < p ==> run[to] < run[p]);
    assert(start == to || run[start] < run[to]);
    assert(to == last || run[to] < run[last]);
    assert(p == last || run[p] < run[last]);
    assert forall|i: int, e: nat| (to <= i < p || p <= i < to) implies !#[trigger] ends_at(flat, run, i, e) by {
        assert(word_of_column(flat, cal, run[i], c));
        assert(i == to || i < to || run[to] < run[i]);
        assert(i == p || i < p || run[p] < run[i]);
        if to <= i && i < p {
            assert(run[i] < run[p]);
        } else {
            assert(run[i] < run[to]);
        }
        assert(runs_on(flat[run[i]].text@));
    }
    if to <= p {
        lemma_goes_to(flat, run, to, last, d, p);
    } else {
        lemma_starts_by(flat, run, 0, to, p);
        assert(start == p || run[start] < run[p]);
    }
    if end is Some {
        assert(end->0 == to || run[to] < run[end->0]);
        assert(end->0 == p || (p < end->0 ==> run[p] < run[end->0]));
    }
}

} // verus!
