//! A paragraph and a sentence hold the word that they are asked for, and no step of
//! them ends before it starts.
use crate::boundary::depth_behind;
use crate::formula::{among, formula_block_holds_its_word};
use crate::layout::{
    column_at, column_words, column_words_upto, lemma_words_are_in_the_column, next_text_column, previous_text_column,
    text_columns, text_rank,
};
use crate::lines::{
    by_top, column_by_top, column_lefts, column_lines, column_of, every_inked_line_has_a_column, line_extent, line_shows,
    top_of,
};
use crate::page_text::{ink_at, inked, DocCalibration, FlatWord};
use crate::paragraph::{
    first_joined, joined, last_joined, lemma_column_by_top, lemma_first_on_line, lemma_joined_bounds,
    lemma_last_joined_bounds, lemma_last_on_line, paragraph, paragraph_stays_in_its_column,
};
use crate::paragraph_walk::{
    block_step, column_end_at, column_near, formula_entry, last_paragraph, lemma_last_word_column, lemma_next_text_words,
    paragraph_before, paragraph_from, reaches_column_end, reading_paragraph,
};
use crate::reading::{
    a_paragraph_stays_near_its_word, a_sentence_stays_near_its_word, countable_pages, lemma_column_holds, lemma_entry,
    lemma_place_of, lemma_run_last, lemma_words_on_subset, step_near, step_reaches, word_of_column,
};
use crate::selection::{snapped, snapping_lands_on_a_word, SelectionStep};
use crate::sentence::{
    end_scan, ends_at, flow, formula_sentence, lemma_dedup, lemma_end_scan, lemma_first_place, lemma_run,
    lemma_start_scan, lemma_tail_column, lemma_words_on, lines_of_words, on_page, opening_depth, page_before,
    page_entry, place_of, run_first, run_last, sentence, sentence_before, sentence_from, sentence_tail, start_scan,
    stretched, takes_part, words_on, Stretch,
};
use crate::session::step_takes;
use crate::sorting::{stable_sort, stable_sort_contains, stable_sort_is_sorted_permutation};
use vstd::prelude::*;

verus! {

/// Within a column, a line that comes later on the page stands below the earlier
/// ones.
pub open spec fn lines_in_order(flat: Seq<FlatWord>, gap: int, col: usize) -> bool {
    forall|i: int, j: int|
        0 <= i < j < flat.len() && #[trigger] column_at(flat, gap, i) == Some(col) && #[trigger] column_at(flat, gap, j)
            == Some(col) && flat[i].line != flat[j].line ==> top_of(flat, flat[i].line) < top_of(flat, flat[j].line)
}

// ── paragraphs ──

/// The paragraph of a place holds the word there, where the lines of its column
/// come in the order in which they stand.
pub proof fn a_paragraph_holds_its_word(flat: Seq<FlatWord>, idx: int, cal: DocCalibration)
    requires
        0 <= idx,
        flat.len() > 0,
        match column_at(flat, cal.column_gap_cqw as int, snapped(flat, idx)) {
            Some(c) => lines_in_order(flat, cal.column_gap_cqw as int, c),
            None => true,
        },
    ensures
        paragraph(flat, idx, cal).0 <= snapped(flat, idx) <= paragraph(flat, idx, cal).1,
{
    let gap = cal.column_gap_cqw as int;
    let a = snapped(flat, idx);
    snapping_lands_on_a_word(flat, idx);
    let line = flat[a].line;
    match column_of(flat, gap, line) {
        None => {},
        Some(c) => {
            let ls = column_by_top(flat, gap, c as nat);
            lemma_column_by_top(flat, gap, c as nat, line);
            stable_sort_is_sorted_permutation(column_lines(flat, gap, c as nat), by_top(flat));
            let at = ls.index_of(line);
            lemma_joined_bounds(flat, cal, ls, at);
            lemma_last_joined_bounds(flat, cal, ls, at);
            let u = ls[first_joined(flat, cal, ls, at)];
            let l = ls[last_joined(flat, cal, ls, at)];
            every_inked_line_has_a_column(flat, gap, u);
            every_inked_line_has_a_column(flat, gap, l);
            line_extent(flat, u);
            line_extent(flat, l);
            let ku = choose|k: int| 0 <= k < flat.len() && #[trigger] ink_at(flat, u, k);
            let kl = choose|k: int| 0 <= k < flat.len() && #[trigger] ink_at(flat, l, k);
            let ku = if u == line { a } else { ku };
            let kl = if l == line { a } else { kl };
            lemma_first_on_line(flat, u, 0, ku);
            lemma_last_on_line(flat, l, flat.len() as int, kl);
            let p = paragraph(flat, idx, cal);
            assert(by_top(flat)(u) <= by_top(flat)(line) <= by_top(flat)(l));
            assert(column_at(flat, gap, a) == Some(c));
            assert(column_at(flat, gap, p.0) == Some(c));
            assert(column_at(flat, gap, p.1) == Some(c));
        },
    }
}

pub(crate) proof fn lemma_first_joined(flat: Seq<FlatWord>, cal: DocCalibration, ls: Seq<usize>, i: int)
    requires
        0 <= i < ls.len(),
    ensures
        ({
            let f = first_joined(flat, cal, ls, i);
            &&& 0 <= f <= i
            &&& forall|j: int| f <= j < i ==> #[trigger] joined(flat, cal, ls, j)
            &&& f > 0 ==> !joined(flat, cal, ls, f - 1)
        }),
    decreases i,
{
    if i > 0 && joined(flat, cal, ls, i - 1) {
        lemma_first_joined(flat, cal, ls, i - 1);
    }
}

pub(crate) proof fn lemma_last_joined(flat: Seq<FlatWord>, cal: DocCalibration, ls: Seq<usize>, i: int)
    requires
        0 <= i < ls.len(),
    ensures
        ({
            let l = last_joined(flat, cal, ls, i);
            &&& i <= l < ls.len()
            &&& forall|j: int| i <= j < l ==> #[trigger] joined(flat, cal, ls, j)
            &&& l + 1 < ls.len() ==> !joined(flat, cal, ls, l)
        }),
    decreases ls.len() - i,
{
    if i + 1 < ls.len() && joined(flat, cal, ls, i) {
        lemma_last_joined(flat, cal, ls, i + 1);
    }
}

/// All lines of a paragraph give the same first and last line.
pub(crate) proof fn lemma_same_run(flat: Seq<FlatWord>, cal: DocCalibration, ls: Seq<usize>, i: int, p: int)
    requires
        0 <= i < ls.len(),
        first_joined(flat, cal, ls, i) <= p <= last_joined(flat, cal, ls, i),
    ensures
        0 <= p < ls.len(),
        first_joined(flat, cal, ls, p) == first_joined(flat, cal, ls, i),
        last_joined(flat, cal, ls, p) == last_joined(flat, cal, ls, i),
{
    lemma_first_joined(flat, cal, ls, i);
    lemma_last_joined(flat, cal, ls, i);
    lemma_first_joined(flat, cal, ls, p);
    lemma_last_joined(flat, cal, ls, p);
    let f = first_joined(flat, cal, ls, i);
    let l = last_joined(flat, cal, ls, i);
    let g = first_joined(flat, cal, ls, p);
    let m = last_joined(flat, cal, ls, p);
    if g < f {
        assert(joined(flat, cal, ls, f - 1));
    }
    if f < g {
        assert(joined(flat, cal, ls, g - 1));
    }
    if m < l {
        assert(joined(flat, cal, ls, m));
    }
    if l < m {
        assert(joined(flat, cal, ls, l));
    }
}

/// Every word of a paragraph gives the same paragraph, where the lines of its
/// column come in the order in which they stand: the words between its first and
/// its last one that show something and are of the same column.
pub proof fn every_word_of_a_paragraph_gives_it(flat: Seq<FlatWord>, idx: int, cal: DocCalibration, k: int)
    requires
        0 <= idx,
        0 <= k < flat.len(),
        column_at(flat, cal.column_gap_cqw as int, snapped(flat, idx)) is Some,
        lines_in_order(
            flat,
            cal.column_gap_cqw as int,
            column_at(flat, cal.column_gap_cqw as int, snapped(flat, idx))->0,
        ),
        inked(flat[k]),
        paragraph(flat, idx, cal).0 <= k <= paragraph(flat, idx, cal).1,
        column_at(flat, cal.column_gap_cqw as int, k) == column_at(
            flat,
            cal.column_gap_cqw as int,
            snapped(flat, idx),
        ),
    ensures
        paragraph(flat, k, cal) == paragraph(flat, idx, cal),
{
    let gap = cal.column_gap_cqw as int;
    let a = snapped(flat, idx);
    snapping_lands_on_a_word(flat, idx);
    snapping_lands_on_a_word(flat, k);
    paragraph_stays_in_its_column(flat, idx, cal);
    let c = column_at(flat, gap, a)->0;
    let ls = column_by_top(flat, gap, c as nat);
    lemma_column_by_top(flat, gap, c as nat, flat[a].line);
    lemma_column_by_top(flat, gap, c as nat, flat[k].line);
    stable_sort_is_sorted_permutation(column_lines(flat, gap, c as nat), by_top(flat));
    let at = ls.index_of(flat[a].line);
    let p = ls.index_of(flat[k].line);
    lemma_first_joined(flat, cal, ls, at);
    lemma_last_joined(flat, cal, ls, at);
    let f = first_joined(flat, cal, ls, at);
    let l = last_joined(flat, cal, ls, at);
    let u = ls[f];
    let d = ls[l];
    every_inked_line_has_a_column(flat, gap, u);
    every_inked_line_has_a_column(flat, gap, d);
    line_extent(flat, u);
    line_extent(flat, d);
    let ku = choose|i: int| 0 <= i < flat.len() && #[trigger] ink_at(flat, u, i);
    let kd = choose|i: int| 0 <= i < flat.len() && #[trigger] ink_at(flat, d, i);
    lemma_first_on_line(flat, u, 0, ku);
    lemma_last_on_line(flat, d, flat.len() as int, kd);
    let para = paragraph(flat, idx, cal);
    assert(flat[para.0].line == u && flat[para.1].line == d);
    assert(ls[p] == flat[k].line);
    if p < f {
        assert(by_top(flat)(ls[p]) <= by_top(flat)(ls[f]));
        assert(flat[k].line != u);
        assert(column_at(flat, gap, para.0) == Some(c) && column_at(flat, gap, k) == Some(c));
    }
    if p > l {
        assert(by_top(flat)(ls[l]) <= by_top(flat)(ls[p]));
        assert(flat[k].line != d);
        assert(column_at(flat, gap, k) == Some(c) && column_at(flat, gap, para.1) == Some(c));
    }
    lemma_same_run(flat, cal, ls, at, p);
}

/// The paragraph of a place in reading order has a step that holds the word
/// there, where the lines of its column come in the order in which they stand.
pub proof fn a_reading_paragraph_holds_its_word(
    flat: Seq<FlatWord>,
    idx: int,
    prev: Option<Seq<FlatWord>>,
    next: Option<Seq<FlatWord>>,
    page: u32,
    cal: DocCalibration,
)
    requires
        0 <= idx,
        0 < flat.len() <= usize::MAX,
        column_at(flat, cal.column_gap_cqw as int, snapped(flat, idx)) is Some,
        flat[snapped(flat, idx)].formula || lines_in_order(
            flat,
            cal.column_gap_cqw as int,
            column_at(flat, cal.column_gap_cqw as int, snapped(flat, idx))->0,
        ),
    ensures
        exists|k: int|
            0 <= k < reading_paragraph(flat, idx, prev, next, page, cal).len() && step_takes(
                #[trigger] reading_paragraph(flat, idx, prev, next, page, cal)[k],
                page,
                snapped(flat, idx),
            ),
{
    let gap = cal.column_gap_cqw as int;
    let a = snapped(flat, idx);
    snapping_lands_on_a_word(flat, idx);
    let all = reading_paragraph(flat, idx, prev, next, page, cal);
    if flat[a].formula {
        lemma_snapped_is_inked(flat, idx, gap);
        formula_block_holds_its_word(flat, a, cal);
        assert(step_takes(all[0], page, a));
    } else {
        a_paragraph_holds_its_word(flat, a, cal);
        paragraph_stays_in_its_column(flat, a, cal);
        let n = paragraph_before(flat, a, prev, page, cal).len() as int;
        assert(step_takes(all[n], page, a));
    }
}

proof fn lemma_snapped_is_inked(flat: Seq<FlatWord>, idx: int, gap: int)
    requires
        0 <= idx,
        flat.len() > 0,
        column_at(flat, gap, snapped(flat, idx)) is Some,
    ensures
        inked(flat[snapped(flat, idx)]),
{
    snapping_lands_on_a_word(flat, idx);
    let line = flat[snapped(flat, idx)].line;
    every_inked_line_has_a_column(flat, gap, line);
    assert(line_shows(flat, line));
    line_extent(flat, line);
    let k = choose|k: int| 0 <= k < flat.len() && #[trigger] ink_at(flat, line, k);
    assert(inked(flat[k]));
}

// ── sentences ──

/// Between the start of a sentence and the place that was asked for, no word
/// ended a sentence.
proof fn lemma_open_since_start(flat: Seq<FlatWord>, ws: Seq<int>, from: int, to: int, k: int)
    requires
        from <= k < to,
        start_scan(flat, ws, from, to).0 <= k,
    ensures
        !ends_at(flat, ws, k, start_scan(flat, ws, from, k).1),
    decreases to - k,
{
    if k < to - 1 {
        lemma_open_since_start(flat, ws, from, to - 1, k);
    }
}

/// Reading on from the start of a sentence goes past all words before the place
/// that was asked for.
pub(crate) proof fn lemma_reads_on(flat: Seq<FlatWord>, ws: Seq<int>, from: int, to: int, last: int, k: int)
    requires
        from <= k <= to <= last,
        start_scan(flat, ws, from, to).0 <= k,
    ensures
        end_scan(flat, ws, k, last, start_scan(flat, ws, from, k).1) == end_scan(
            flat,
            ws,
            to,
            last,
            start_scan(flat, ws, from, to).1,
        ),
    decreases to - k,
{
    if k < to {
        lemma_open_since_start(flat, ws, from, to, k);
        lemma_reads_on(flat, ws, from, to, last, k + 1);
    }
}

/// A sentence ends at the place that was asked for or behind it.
proof fn lemma_ends_behind(flat: Seq<FlatWord>, ws: Seq<int>, from: int, to: int, last: int)
    requires
        from <= to <= last,
    ensures
        ({
            let start = start_scan(flat, ws, from, to).0;
            let end = end_scan(flat, ws, start, last, opening_depth(flat, ws, from, to)).0;
            end is Some ==> to <= end->0 <= last
        }),
{
    lemma_start_scan(flat, ws, from, to);
    lemma_reads_on(flat, ws, from, to, last, start_scan(flat, ws, from, to).0);
    lemma_end_scan(flat, ws, to, last, start_scan(flat, ws, from, to).1);
}

proof fn lemma_same_start(flat: Seq<FlatWord>, ws: Seq<int>, from: int, p: int, q: int)
    requires
        from <= p <= q,
        forall|k: int| p <= k < q ==> !ends_at(flat, ws, k, #[trigger] start_scan(flat, ws, from, k).1),
    ensures
        start_scan(flat, ws, from, q).0 == start_scan(flat, ws, from, p).0,
    decreases q - p,
{
    if p < q {
        lemma_same_start(flat, ws, from, p, q - 1);
        assert(!ends_at(flat, ws, q - 1, start_scan(flat, ws, from, q - 1).1));
    }
}

proof fn lemma_open_until_end(flat: Seq<FlatWord>, ws: Seq<int>, from: int, p: int, last: int, k: int)
    requires
        from <= p <= k <= last,
        match end_scan(flat, ws, p, last, start_scan(flat, ws, from, p).1).0 {
            Some(e) => k < e,
            None => true,
        },
    ensures
        !ends_at(flat, ws, k, start_scan(flat, ws, from, k).1),
    decreases k - p,
{
    lemma_end_scan(flat, ws, p, last, start_scan(flat, ws, from, p).1);
    if p < k {
        assert(!ends_at(flat, ws, p, start_scan(flat, ws, from, p).1));
        lemma_open_until_end(flat, ws, from, p + 1, last, k);
    }
}

/// Among the words from `from` to `last`, every word of a sentence gives the same
/// sentence: it starts at the same word, at the same bracket depth, and ends at
/// the same one.
pub proof fn every_word_of_a_sentence_gives_it(flat: Seq<FlatWord>, ws: Seq<int>, from: int, last: int, p: int, q: int)
    requires
        from <= p <= last,
        from <= q <= last,
        start_scan(flat, ws, from, p).0 <= q,
        match end_scan(flat, ws, start_scan(flat, ws, from, p).0, last, opening_depth(flat, ws, from, p)).0 {
            Some(e) => q <= e,
            None => true,
        },
    ensures
        start_scan(flat, ws, from, q).0 == start_scan(flat, ws, from, p).0,
        opening_depth(flat, ws, from, q) == opening_depth(flat, ws, from, p),
        end_scan(flat, ws, start_scan(flat, ws, from, q).0, last, opening_depth(flat, ws, from, q)) == end_scan(
            flat,
            ws,
            start_scan(flat, ws, from, p).0,
            last,
            opening_depth(flat, ws, from, p),
        ),
{
    lemma_start_scan(flat, ws, from, p);
    if q <= p {
        assert forall|k: int| q <= k < p implies !ends_at(flat, ws, k, #[trigger] start_scan(flat, ws, from, k).1) by {
            lemma_open_since_start(flat, ws, from, p, k);
        }
        lemma_same_start(flat, ws, from, q, p);
    } else {
        lemma_reads_on(flat, ws, from, p, last, start_scan(flat, ws, from, p).0);
        assert forall|k: int| p <= k < q implies !ends_at(flat, ws, k, #[trigger] start_scan(flat, ws, from, k).1) by {
            lemma_open_until_end(flat, ws, from, p, last, k);
        }
        lemma_same_start(flat, ws, from, p, q);
    }
}

/// Ascending places.
pub open spec fn rising(ws: Seq<int>) -> bool {
    forall|i: int, j: int| 0 <= i < j < ws.len() ==> #[trigger] ws[i] < #[trigger] ws[j]
}

pub(crate) proof fn lemma_column_words_rise(flat: Seq<FlatWord>, gap: int, col: usize, n: nat)
    requires
        n <= flat.len(),
    ensures
        rising(column_words_upto(flat, gap, col, n)),
        forall|k: int|
            0 <= k < column_words_upto(flat, gap, col, n).len() ==> #[trigger] column_words_upto(flat, gap, col, n)[k] < n,
    decreases n,
{
    if n > 0 {
        lemma_column_words_rise(flat, gap, col, (n - 1) as nat);
    }
}

pub(crate) proof fn lemma_words_on_rise(flat: Seq<FlatWord>, ws: Seq<int>, ls: Seq<usize>, lo: int, hi: int, n: nat)
    requires
        n <= ws.len(),
        rising(ws),
    ensures
        rising(words_on(flat, ws, ls, lo, hi, n)),
        forall|k: int|
            0 <= k < words_on(flat, ws, ls, lo, hi, n).len() ==> n > 0 && #[trigger] words_on(flat, ws, ls, lo, hi, n)[k]
                <= ws[n - 1],
    decreases n,
{
    if n > 0 {
        lemma_words_on_rise(flat, ws, ls, lo, hi, (n - 1) as nat);
        if n > 1 {
            assert(ws[n - 2] < ws[n - 1]);
        }
    }
}

pub(crate) proof fn lemma_place(ws: Seq<int>, x: int, d: int)
    requires
        ws.contains(x),
    ensures
        0 <= place_of(ws, x, d) < ws.len(),
        ws[place_of(ws, x, d)] == x,
{
    lemma_first_place(ws, x, 0);
    let k = choose|k: int| 0 <= k < ws.len() && ws[k] == x;
    assert(ws[k] == x);
}

pub(crate) proof fn lemma_sentence_from_holds(flat: Seq<FlatWord>, a: int, next: Option<Seq<FlatWord>>, page: u32, cal: DocCalibration, col: usize)
    requires
        flat.len() <= usize::MAX,
        word_of_column(flat, cal, a, col),
        snapped(flat, a) == a,
        lines_in_order(flat, cal.column_gap_cqw as int, col),
    ensures
        ({
            let s = sentence_from(flat, a, next, page, cal);
            s.len() > 0 && step_takes(s[0], page, a)
        }),
{
    let gap = cal.column_gap_cqw as int;
    let ws = column_words(flat, gap, col);
    lemma_column_holds(flat, cal, a, col);
    lemma_words_are_in_the_column(flat, gap, col);
    lemma_column_words_rise(flat, gap, col, flat.len());
    a_paragraph_holds_its_word(flat, a, cal);
    paragraph_stays_in_its_column(flat, a, cal);
    let para = paragraph(flat, a, cal);
    assert(column_at(flat, gap, para.0) == Some(col));
    assert(column_at(flat, gap, para.1) == Some(col));
    lemma_place(ws, para.0, 0);
    lemma_place(ws, para.1, ws.len() - 1);
    lemma_place(ws, a, 0);
    let from = place_of(ws, para.0, 0);
    let to = place_of(ws, a, 0);
    let para_end = place_of(ws, para.1, ws.len() - 1);
    assert(from <= to <= para_end);
    let start = start_scan(flat, ws, from, to).0;
    lemma_start_scan(flat, ws, from, to);
    lemma_ends_behind(flat, ws, from, to, para_end);
    let end = end_scan(flat, ws, start, para_end, opening_depth(flat, ws, from, to));
    assert(0 <= ws[start] < flat.len());
    assert(ws[start] <= a);
    assert(0 <= ws[para_end] < flat.len());
    assert(0 <= ws[ws.len() - 1] < flat.len());
    assert(a <= ws[ws.len() - 1]);
    if end.0 is Some {
        let k = end.0->0;
        assert(0 <= ws[k] < flat.len());
        assert(a <= ws[k]);
    }
}

proof fn lemma_formula_sentence_holds(flat: Seq<FlatWord>, a: int, page: u32, cal: DocCalibration, col: usize)
    requires
        flat.len() <= usize::MAX,
        word_of_column(flat, cal, a, col),
        snapped(flat, a) == a,
    ensures
        ({
            let s = formula_sentence(flat, a, page, cal);
            s.len() > 0 && step_takes(s[0], page, a)
        }),
{
    let gap = cal.column_gap_cqw as int;
    let ratio = cal.vertical_gap_ratio as int;
    let ws = column_words(flat, gap, col);
    lemma_column_holds(flat, cal, a, col);
    lemma_words_are_in_the_column(flat, gap, col);
    lemma_column_words_rise(flat, gap, col, flat.len());
    let raw = ws.map_values(|i: int| flat[i].line);
    let ls = lines_of_words(flat, ws);
    let line = flat[a].line;
    let m = choose|m: int| 0 <= m < ws.len() && ws[m] == a;
    assert(raw[m] == line);
    stable_sort_contains(raw, by_top(flat), line);
    lemma_dedup(stable_sort(raw, by_top(flat)), line);
    lemma_first_place(ls, line, 0);
    let at = place_of(ls, line, 0);
    let lo = run_first(flat, ratio, ls, at);
    let hi = run_last(flat, ratio, ls, at);
    lemma_run(flat, ratio, ls, at);
    lemma_run_last(flat, ratio, ls, at);
    assert(on_page(flat, ws));
    lemma_words_on(flat, ws, ls, lo, hi, ws.len());
    lemma_words_on_subset(flat, ws, ls, lo, hi, ws.len());
    lemma_words_on_rise(flat, ws, ls, lo, hi, ws.len());
    let run = words_on(flat, ws, ls, lo, hi, ws.len());
    assert(ls[at] == line);
    assert(among(ls, lo, hi, flat[ws[m]].line));
    assert(run.contains(a));
    lemma_place(run, a, 0);
    let to = place_of(run, a, 0);
    let start = start_scan(flat, run, 0, to).0;
    lemma_start_scan(flat, run, 0, to);
    lemma_ends_behind(flat, run, 0, to, run.len() - 1);
    let end = end_scan(flat, run, start, run.len() - 1, opening_depth(flat, run, 0, to)).0;
    assert(0 <= run[start] < flat.len());
    assert(run[start] <= a);
    assert(0 <= run[run.len() - 1] < flat.len());
    assert(a <= run[run.len() - 1]);
    if end is Some {
        let k = end->0;
        assert(0 <= run[k] < flat.len());
        assert(a <= run[k]);
    }
}

/// The sentence of a place has a step that holds the word there; for running
/// text, where the lines of its column come in the order in which they stand.
pub proof fn a_sentence_holds_its_word(
    flat: Seq<FlatWord>,
    idx: int,
    prev: Option<Seq<FlatWord>>,
    next: Option<Seq<FlatWord>>,
    page: u32,
    cal: DocCalibration,
)
    requires
        0 <= idx,
        0 < flat.len() <= usize::MAX,
        column_at(flat, cal.column_gap_cqw as int, snapped(flat, idx)) is Some,
        flat[snapped(flat, idx)].formula || lines_in_order(
            flat,
            cal.column_gap_cqw as int,
            column_at(flat, cal.column_gap_cqw as int, snapped(flat, idx))->0,
        ),
    ensures
        exists|k: int|
            0 <= k < sentence(flat, idx, prev, next, page, cal).len() && step_takes(
                #[trigger] sentence(flat, idx, prev, next, page, cal)[k],
                page,
                snapped(flat, idx),
            ),
{
    let gap = cal.column_gap_cqw as int;
    let a = snapped(flat, idx);
    snapping_lands_on_a_word(flat, idx);
    let col = column_at(flat, gap, a)->0;
    let all = sentence(flat, idx, prev, next, page, cal);
    if flat[a].formula {
        lemma_formula_sentence_holds(flat, a, page, cal, col);
        assert(step_takes(all[0], page, a));
    } else {
        lemma_sentence_from_holds(flat, a, next, page, cal, col);
        let n = sentence_before(flat, a, prev, page, cal).len() as int;
        assert(all[n] == sentence_from(flat, a, next, page, cal)[0]);
        assert(step_takes(all[n], page, a));
    }
}

// ── reading on ──

/// No step ends before it starts.
pub open spec fn run_forward(steps: Seq<SelectionStep>) -> bool {
    forall|k: int| 0 <= k < steps.len() ==> (#[trigger] steps[k]).lo <= steps[k].hi
}

/// The step ends at or behind its start, on a word of the page, of the page before
/// it or of the next one.
pub open spec fn step_runs(
    s: SelectionStep,
    flat: Seq<FlatWord>,
    prev: Option<Seq<FlatWord>>,
    next: Option<Seq<FlatWord>>,
    page: u32,
) -> bool {
    &&& s.lo <= s.hi
    &&& {
        ||| s.page == page && s.hi < flat.len()
        ||| prev is Some && s.page == page - 1 && s.hi < prev->0.len()
        ||| next is Some && s.page == page + 1 && s.hi < next->0.len()
    }
}

/// The sentence of running text at word `a` starts no later in its column than its
/// paragraph ends there.
pub open spec fn starts_in_its_paragraph(flat: Seq<FlatWord>, a: int, cal: DocCalibration) -> bool {
    let gap = cal.column_gap_cqw as int;
    match column_at(flat, gap, a) {
        None => true,
        Some(col) => {
            let ws = column_words(flat, gap, col);
            let para = paragraph(flat, a, cal);
            start_scan(flat, ws, place_of(ws, para.0, 0), place_of(ws, a, 0)).0 <= place_of(
                ws,
                para.1,
                ws.len() - 1,
            )
        },
    }
}

proof fn lemma_flow_runs_forward(flat: Seq<FlatWord>, cal: DocCalibration, page: u32, j: int, acc: Option<Stretch>, d: nat)
    requires
        flat.len() <= usize::MAX,
        0 <= j,
        acc is Some ==> acc->0.lo <= acc->0.hi < j,
    ensures
        run_forward(flow(flat, cal, page, j, acc, d).0),
    decreases flat.len() - j,
{
    if j < flat.len() {
        if !takes_part(flat, cal, j) {
            lemma_flow_runs_forward(flat, cal, page, j + 1, acc, d);
        } else {
            let c = column_at(flat, cal.column_gap_cqw as int, j)->0;
            lemma_flow_runs_forward(
                flat,
                cal,
                page,
                j + 1,
                Some(stretched(acc, j, c)),
                depth_behind(flat[j].text@, d),
            );
        }
    }
}

proof fn lemma_tail_runs_forward(flat: Seq<FlatWord>, gap: int, col: usize)
    requires
        flat.len() <= usize::MAX,
    ensures
        match sentence_tail(flat, column_words(flat, gap, col)) {
            Some(t) => 0 <= t.0 <= t.1 < flat.len(),
            None => true,
        },
{
    let ws = column_words(flat, gap, col);
    lemma_words_are_in_the_column(flat, gap, col);
    lemma_column_words_rise(flat, gap, col, flat.len());
    lemma_start_scan(flat, ws, 0, ws.len() as int);
    if sentence_tail(flat, ws) is Some {
        let start = start_scan(flat, ws, 0, ws.len() as int).0;
        assert(0 <= ws[start] < flat.len());
        assert(0 <= ws[ws.len() - 1] < flat.len());
    }
}

proof fn lemma_sentence_before_runs_forward(
    flat: Seq<FlatWord>,
    idx: int,
    prev: Option<Seq<FlatWord>>,
    page: u32,
    cal: DocCalibration,
)
    requires
        flat.len() <= usize::MAX,
        prev is Some ==> prev->0.len() <= usize::MAX,
    ensures
        run_forward(sentence_before(flat, idx, prev, page, cal)),
    decreases text_rank(flat, cal.column_gap_cqw as int, column_at(flat, cal.column_gap_cqw as int, idx)),
{
    let gap = cal.column_gap_cqw as int;
    if let Some(col) = column_at(flat, gap, idx) {
        match previous_text_column(flat, gap, col) {
            Some(p) => {
                let pw = column_words(flat, gap, p);
                lemma_tail_runs_forward(flat, gap, p);
                lemma_tail_column(flat, gap, col);
                if sentence_tail(flat, pw) is Some {
                    lemma_sentence_before_runs_forward(flat, pw[0], prev, page, cal);
                }
            },
            None => {
                if prev is Some && text_columns(prev->0, gap).len() > 0 {
                    lemma_tail_runs_forward(prev->0, gap, text_columns(prev->0, gap).last());
                }
            },
        }
    }
}

proof fn lemma_sentence_from_runs_forward(
    flat: Seq<FlatWord>,
    a: int,
    next: Option<Seq<FlatWord>>,
    page: u32,
    cal: DocCalibration,
)
    requires
        0 <= a < flat.len() <= usize::MAX,
        next is Some ==> next->0.len() <= usize::MAX,
        starts_in_its_paragraph(flat, a, cal),
    ensures
        run_forward(sentence_from(flat, a, next, page, cal)),
{
    let gap = cal.column_gap_cqw as int;
    if column_at(flat, gap, a) is Some {
        let col = column_at(flat, gap, a)->0;
        let ws = column_words(flat, gap, col);
        lemma_column_holds(flat, cal, a, col);
        lemma_column_words_rise(flat, gap, col, flat.len());
        let para = paragraph(flat, a, cal);
        lemma_place_of(ws, para.0, 0);
        lemma_place_of(ws, para.1, ws.len() - 1);
        lemma_place_of(ws, a, 0);
        let from = place_of(ws, para.0, 0);
        let to = place_of(ws, a, 0);
        let para_end = place_of(ws, para.1, ws.len() - 1);
        let start = start_scan(flat, ws, from, to).0;
        let depth = opening_depth(flat, ws, from, to);
        lemma_start_scan(flat, ws, from, to);
        lemma_end_scan(flat, ws, start, para_end, depth);
        let end = end_scan(flat, ws, start, para_end, depth);
        assert(word_of_column(flat, cal, ws[start], col));
        assert(word_of_column(flat, cal, ws[para_end], col));
        assert(word_of_column(flat, cal, ws[ws.len() - 1], col));
        match end.0 {
            Some(k) => {
                assert(word_of_column(flat, cal, ws[k], col));
            },
            None => {
                lemma_flow_runs_forward(flat, cal, page, ws.last() + 1, None, end.1);
                let here = flow(flat, cal, page, ws.last() + 1, None, end.1);
                if next is Some {
                    lemma_entry(next->0, cal);
                    if page_entry(next->0, cal) is Some {
                        lemma_flow_runs_forward(
                            next->0,
                            cal,
                            (page + 1) as u32,
                            page_entry(next->0, cal)->0,
                            None,
                            here.2,
                        );
                    }
                }
            },
        }
    }
}

/// Every step of a sentence starts at a word of its page and ends at that word or
/// behind it on the same page, the page of the sentence or one beside it. A sentence
/// of running text is held to where its paragraph ends, so this leaves out one
/// whose paragraph ends before the sentence starts, which takes lines that do not
/// come in the order in which they stand.
pub proof fn every_step_of_a_sentence_runs_forward(
    flat: Seq<FlatWord>,
    idx: int,
    prev: Option<Seq<FlatWord>>,
    next: Option<Seq<FlatWord>>,
    page: u32,
    cal: DocCalibration,
)
    requires
        0 <= idx,
        countable_pages(flat, prev, next, page),
        flat.len() > 0 && !flat[snapped(flat, idx)].formula ==> starts_in_its_paragraph(flat, snapped(flat, idx), cal),
    ensures
        forall|k: int|
            0 <= k < sentence(flat, idx, prev, next, page, cal).len() ==> step_runs(
                #[trigger] sentence(flat, idx, prev, next, page, cal)[k],
                flat,
                prev,
                next,
                page,
            ),
{
    let gap = cal.column_gap_cqw as int;
    let all = sentence(flat, idx, prev, next, page, cal);
    a_sentence_stays_near_its_word(flat, idx, prev, next, page, cal);
    if flat.len() > 0 {
        let a = snapped(flat, idx);
        snapping_lands_on_a_word(flat, idx);
        if flat[a].formula {
            snapping_lands_on_a_word(flat, a);
            if column_at(flat, gap, a) is Some {
                lemma_formula_sentence_holds(flat, a, page, cal, column_at(flat, gap, a)->0);
            }
        } else {
            lemma_sentence_before_runs_forward(flat, a, prev, page, cal);
            lemma_sentence_from_runs_forward(flat, a, next, page, cal);
        }
        assert(run_forward(all));
    }
    assert forall|k: int| 0 <= k < all.len() implies step_runs(#[trigger] all[k], flat, prev, next, page) by {
        assert(step_near(all[k], flat, prev, next, page, cal));
    }
}

/// Where the lines of its column come in the order in which they stand, a sentence
/// of running text starts before its paragraph ends.
pub proof fn lines_in_order_keep_a_sentence_in_its_paragraph(flat: Seq<FlatWord>, idx: int, cal: DocCalibration)
    requires
        0 <= idx,
        0 < flat.len() <= usize::MAX,
        match column_at(flat, cal.column_gap_cqw as int, snapped(flat, idx)) {
            Some(c) => lines_in_order(flat, cal.column_gap_cqw as int, c),
            None => true,
        },
    ensures
        starts_in_its_paragraph(flat, snapped(flat, idx), cal),
{
    let gap = cal.column_gap_cqw as int;
    let a = snapped(flat, idx);
    snapping_lands_on_a_word(flat, idx);
    if column_at(flat, gap, a) is Some {
        let col = column_at(flat, gap, a)->0;
        let ws = column_words(flat, gap, col);
        lemma_column_holds(flat, cal, a, col);
        lemma_words_are_in_the_column(flat, gap, col);
        lemma_column_words_rise(flat, gap, col, flat.len());
        a_paragraph_holds_its_word(flat, a, cal);
        paragraph_stays_in_its_column(flat, a, cal);
        let para = paragraph(flat, a, cal);
        assert(column_at(flat, gap, para.0) == Some(col));
        assert(column_at(flat, gap, para.1) == Some(col));
        lemma_place(ws, para.0, 0);
        lemma_place(ws, para.1, ws.len() - 1);
        lemma_place(ws, a, 0);
        lemma_start_scan(flat, ws, place_of(ws, para.0, 0), place_of(ws, a, 0));
    }
}

/// The lines of every column of a page come in the order in which they stand.
pub open spec fn page_in_order(flat: Seq<FlatWord>, gap: int) -> bool {
    forall|c: usize| #[trigger] lines_in_order(flat, gap, c)
}

proof fn lemma_paragraph_runs_forward(flat: Seq<FlatWord>, a: int, cal: DocCalibration)
    requires
        0 <= a < flat.len() <= usize::MAX,
        page_in_order(flat, cal.column_gap_cqw as int),
    ensures
        0 <= paragraph(flat, a, cal).0 <= paragraph(flat, a, cal).1 < flat.len(),
{
    let gap = cal.column_gap_cqw as int;
    if column_at(flat, gap, snapped(flat, a)) is Some {
        assert(lines_in_order(flat, gap, column_at(flat, gap, snapped(flat, a))->0));
    }
    a_paragraph_holds_its_word(flat, a, cal);
    paragraph_stays_in_its_column(flat, a, cal);
}

proof fn lemma_last_paragraph_runs_forward(flat: Seq<FlatWord>, page: u32, cal: DocCalibration, col: usize)
    requires
        flat.len() <= usize::MAX,
        page_in_order(flat, cal.column_gap_cqw as int),
        column_words(flat, cal.column_gap_cqw as int, col).len() > 0,
    ensures
        last_paragraph(flat, page, cal, col).lo <= last_paragraph(flat, page, cal, col).hi,
{
    let ws = column_words(flat, cal.column_gap_cqw as int, col);
    lemma_words_are_in_the_column(flat, cal.column_gap_cqw as int, col);
    assert(0 <= ws[ws.len() - 1] < flat.len());
    lemma_paragraph_runs_forward(flat, ws.last(), cal);
}

proof fn lemma_paragraph_before_runs_forward(
    flat: Seq<FlatWord>,
    a: int,
    prev: Option<Seq<FlatWord>>,
    page: u32,
    cal: DocCalibration,
)
    requires
        flat.len() <= usize::MAX,
        page_in_order(flat, cal.column_gap_cqw as int),
        prev is Some ==> prev->0.len() <= usize::MAX && page_in_order(prev->0, cal.column_gap_cqw as int),
    ensures
        run_forward(paragraph_before(flat, a, prev, page, cal)),
    decreases text_rank(flat, cal.column_gap_cqw as int, column_at(flat, cal.column_gap_cqw as int, a)),
{
    let gap = cal.column_gap_cqw as int;
    if let Some(col) = column_at(flat, gap, a) {
        match previous_text_column(flat, gap, col) {
            Some(p) => {
                if reaches_column_end(flat, cal, p) {
                    lemma_last_word_column(flat, gap, col);
                    lemma_paragraph_before_runs_forward(flat, column_words(flat, gap, p).last(), prev, page, cal);
                    lemma_last_paragraph_runs_forward(flat, page, cal, p);
                }
            },
            None => {
                if prev is Some && text_columns(prev->0, gap).len() > 0 {
                    let last = text_columns(prev->0, gap).last();
                    if reaches_column_end(prev->0, cal, last) {
                        lemma_last_paragraph_runs_forward(prev->0, page_before(page), cal, last);
                    }
                }
            },
        }
    }
}

proof fn lemma_paragraph_from_runs_forward(
    flat: Seq<FlatWord>,
    a: int,
    next: Option<Seq<FlatWord>>,
    page: u32,
    cal: DocCalibration,
)
    requires
        0 <= a < flat.len() <= usize::MAX,
        page_in_order(flat, cal.column_gap_cqw as int),
        next is Some ==> next->0.len() <= usize::MAX && page_in_order(next->0, cal.column_gap_cqw as int),
    ensures
        run_forward(paragraph_from(flat, a, next, page, cal)),
    decreases
            (if next is Some { 1int } else { 0int }),
            flat.len() - column_end_at(flat, cal.column_gap_cqw as int, a),
{
    let gap = cal.column_gap_cqw as int;
    if let Some(col) = column_at(flat, gap, a) {
        lemma_paragraph_runs_forward(flat, a, cal);
        match next_text_column(flat, gap, col) {
            Some(c) => {
                lemma_next_text_words(flat, gap, col);
                lemma_paragraph_from_runs_forward(flat, column_words(flat, gap, c)[0], next, page, cal);
            },
            None => {
                if next is Some {
                    lemma_entry(next->0, cal);
                    if page_entry(next->0, cal) is Some {
                        let j = page_entry(next->0, cal)->0;
                        lemma_paragraph_from_runs_forward(next->0, j, None, (page + 1) as u32, cal);
                    }
                }
            },
        }
    }
}

proof fn lemma_block_runs_forward(flat: Seq<FlatWord>, idx: int, page: u32, cal: DocCalibration)
    requires
        0 <= idx,
        0 < flat.len() <= usize::MAX,
        column_at(flat, cal.column_gap_cqw as int, snapped(flat, idx)) is Some,
    ensures
        ({
            let a = snapped(flat, idx);
            let s = block_step(flat, a, page, cal, column_at(flat, cal.column_gap_cqw as int, a)->0);
            s.lo <= s.hi
        }),
{
    snapping_lands_on_a_word(flat, idx);
    lemma_snapped_is_inked(flat, idx, cal.column_gap_cqw as int);
    formula_block_holds_its_word(flat, snapped(flat, idx), cal);
}

/// Every step of a paragraph starts at a word of its page and ends at that word or
/// behind it on the same page, the page of the paragraph or one beside it, where
/// the lines come in the order in which they stand.
pub proof fn every_step_of_a_paragraph_runs_forward(
    flat: Seq<FlatWord>,
    idx: int,
    prev: Option<Seq<FlatWord>>,
    next: Option<Seq<FlatWord>>,
    page: u32,
    cal: DocCalibration,
)
    requires
        0 <= idx,
        countable_pages(flat, prev, next, page),
        page_in_order(flat, cal.column_gap_cqw as int),
        prev is Some ==> page_in_order(prev->0, cal.column_gap_cqw as int),
        next is Some ==> page_in_order(next->0, cal.column_gap_cqw as int),
    ensures
        forall|k: int|
            0 <= k < reading_paragraph(flat, idx, prev, next, page, cal).len() ==> step_runs(
                #[trigger] reading_paragraph(flat, idx, prev, next, page, cal)[k],
                flat,
                prev,
                next,
                page,
            ),
{
    let gap = cal.column_gap_cqw as int;
    let all = reading_paragraph(flat, idx, prev, next, page, cal);
    a_paragraph_stays_near_its_word(flat, idx, prev, next, page, cal);
    if flat.len() > 0 {
        let a = snapped(flat, idx);
        snapping_lands_on_a_word(flat, idx);
        if flat[a].formula {
            if let Some(col) = column_at(flat, gap, a) {
                lemma_block_runs_forward(flat, idx, page, cal);
                if next is Some {
                    if let Some(j) = formula_entry(next->0, column_lefts(flat, gap)[col as int], cal) {
                        let nf = next->0;
                        let c = column_near(column_lefts(nf, gap), column_lefts(flat, gap)[col as int], 0)->0;
                        lemma_words_are_in_the_column(nf, gap, c as usize);
                        let b = snapped(nf, j);
                        snapping_lands_on_a_word(nf, j);
                        if nf[b].formula {
                            if column_at(nf, gap, b) is Some {
                                lemma_block_runs_forward(nf, j, (page + 1) as u32, cal);
                            }
                        } else {
                            lemma_paragraph_before_runs_forward(nf, b, None, (page + 1) as u32, cal);
                            lemma_paragraph_from_runs_forward(nf, b, None, (page + 1) as u32, cal);
                        }
                    }
                }
            }
        } else {
            lemma_paragraph_before_runs_forward(flat, a, prev, page, cal);
            lemma_paragraph_from_runs_forward(flat, a, next, page, cal);
        }
        assert(run_forward(all));
    }
    assert forall|k: int| 0 <= k < all.len() implies step_runs(#[trigger] all[k], flat, prev, next, page) by {
        assert(step_reaches(all[k], flat, prev, next, page, cal));
    }
}

} // verus!
