//! How far a paragraph reaches: which lines of a column it holds, and where it goes on
//! in other columns and on other pages.
use crate::holding::{
    a_paragraph_holds_its_word, lemma_column_words_rise, lemma_first_joined, lemma_last_joined, lemma_same_run,
};
use crate::layout::{
    column_at, column_words, first_line_indented, lemma_words_are_in_the_column, next_text_column, text_columns,
};
use crate::lines::{
    by_top, column_by_top, column_lefts, column_lines, column_of, every_inked_line_has_a_column, left_of, line_extent,
    top_of,
};
use crate::page_text::{ink_at, inked, last_ink, DocCalibration, FlatWord};
use crate::paragraph::{
    first_joined, joined, last_joined, lemma_column_by_top, lemma_first_on_line, lemma_last_on_line, line_ends_sentence,
    paragraph, pitches, usual_pitch,
};
use crate::paragraph_walk::{
    last_paragraph, lemma_last_word_column, lemma_next_text_words, paragraph_before, paragraph_from, reaches_column_end,
    reading_paragraph,
};
use crate::reading::word_of_column;
use crate::selection::{snapped, snapping_lands_on_a_word, SelectionStep};
use crate::sentence_extent::{enters, lemma_enters, lemma_first_word, lemma_listed_has_words, lemma_previous};
use crate::sorting::{medians_stand_in_the_middle, stable_sort_is_sorted_permutation};
use crate::text::{is_space, lemma_cut_trailing};
use vstd::prelude::*;

verus! {

// ── within a column ──

/// A line ends a sentence or a clause exactly when its last word that shows something
/// ends, white space aside, in one of `.`, `!`, `?`, `。`, `！`, `？`, `;` and `；`.
pub proof fn a_line_ends_a_sentence_by_its_last_character(flat: Seq<FlatWord>, line: usize, k: int, n: int)
    requires
        0 <= k < flat.len(),
        flat[k].line == line && inked(flat[k]),
        forall|j: int| k < j < flat.len() && flat[j].line == line ==> !inked(#[trigger] flat[j]),
        0 <= n < flat[k].text@.len(),
        !is_space(flat[k].text@[n]),
        forall|j: int| n < j < flat[k].text@.len() ==> is_space(#[trigger] flat[k].text@[j]),
    ensures
        line_ends_sentence(flat, line) <==> {
            let c = flat[k].text@[n];
            c == '.' || c == '!' || c == '?' || c == '。' || c == '！' || c == '？' || c == ';' || c == '；'
        },
{
    lemma_last_ink_is(flat, line, flat.len() as int, k);
    lemma_cut_trailing(flat[k].text@, n + 1);
    assert(flat[k].text@.take(n + 1).last() == flat[k].text@[n]);
}

pub(crate) proof fn lemma_last_ink_is(flat: Seq<FlatWord>, line: usize, n: int, k: int)
    requires
        0 <= k < n <= flat.len(),
        ink_at(flat, line, k),
        forall|j: int| k < j < flat.len() && flat[j].line == line ==> !inked(#[trigger] flat[j]),
    ensures
        last_ink(flat, line, n) == Some(k),
    decreases n,
{
    if k < n - 1 {
        assert(!(flat[n - 1].line == line && inked(flat[n - 1])));
        lemma_last_ink_is(flat, line, n - 1, k);
    }
}

/// Line `b` of a column comes next below line `a`: no line of the column stands between
/// them.
pub open spec fn next_below(flat: Seq<FlatWord>, gap: int, c: usize, a: usize, b: usize) -> bool {
    &&& column_of(flat, gap, a) == Some(c)
    &&& column_of(flat, gap, b) == Some(c)
    &&& top_of(flat, a) < top_of(flat, b)
    &&& forall|m: usize|
        #[trigger] column_of(flat, gap, m) == Some(c) && m != a && m != b ==> top_of(flat, m) < top_of(flat, a) || top_of(
            flat,
            b,
        ) < top_of(flat, m)
}

/// What `b` needs to go on with the paragraph of `a`: it stands no further below than
/// 1.35 of the usual distance of the lines of the column, and it is not indented, unless
/// `a` does not end a sentence.
pub open spec fn goes_on_with(flat: Seq<FlatWord>, cal: DocCalibration, c: usize, a: usize, b: usize) -> bool {
    let usual = usual_pitch(flat, column_by_top(flat, cal.column_gap_cqw as int, c as nat));
    &&& 20 * (top_of(flat, b) - top_of(flat, a)) <= 27 * usual
    &&& left_of(flat, b) <= left_of(flat, a) + cal.paragraph_indent_cqw || !line_ends_sentence(flat, a)
}

pub(crate) proof fn lemma_neighbours(flat: Seq<FlatWord>, gap: int, c: usize, a: usize, b: usize)
    requires
        next_below(flat, gap, c, a, b),
    ensures
        ({
            let ls = column_by_top(flat, gap, c as nat);
            &&& 0 <= ls.index_of(a) < ls.len() - 1
            &&& ls[ls.index_of(a)] == a
            &&& ls[ls.index_of(a) + 1] == b
            &&& ls.index_of(b) == ls.index_of(a) + 1
        }),
{
    let ls = column_by_top(flat, gap, c as nat);
    lemma_column_by_top(flat, gap, c as nat, a);
    lemma_column_by_top(flat, gap, c as nat, b);
    stable_sort_is_sorted_permutation(column_lines(flat, gap, c as nat), by_top(flat));
    let i = ls.index_of(a);
    let j = ls.index_of(b);
    assert(ls[i] == a && ls[j] == b);
    assert(0 <= i < ls.len() && 0 <= j < ls.len());
    if j <= i {
        assert(by_top(flat)(ls[j]) <= by_top(flat)(ls[i]));
    }
    if i + 1 < j {
        let m = ls[i + 1];
        assert(column_of(flat, gap, m) == Some(c));
        assert(by_top(flat)(ls[i]) <= by_top(flat)(ls[i + 1]));
        assert(by_top(flat)(ls[i + 1]) <= by_top(flat)(ls[j]));
    }
}

proof fn lemma_paragraph_of(flat: Seq<FlatWord>, cal: DocCalibration, k: int, c: usize)
    requires
        0 <= k < flat.len(),
        inked(flat[k]),
        column_at(flat, cal.column_gap_cqw as int, k) == Some(c),
    ensures
        ({
            let ls = column_by_top(flat, cal.column_gap_cqw as int, c as nat);
            let at = ls.index_of(flat[k].line);
            let u = ls[first_joined(flat, cal, ls, at)];
            let l = ls[last_joined(flat, cal, ls, at)];
            let p = paragraph(flat, k, cal);
            &&& 0 <= at < ls.len()
            &&& ls[at] == flat[k].line
            &&& 0 <= p.0 < flat.len() && 0 <= p.1 < flat.len()
            &&& flat[p.0].line == u && flat[p.1].line == l
            &&& forall|j: int| 0 <= j < flat.len() && (#[trigger] flat[j]).line == u ==> p.0 <= j
            &&& forall|j: int| 0 <= j < flat.len() && (#[trigger] flat[j]).line == l ==> j <= p.1
        }),
{
    let gap = cal.column_gap_cqw as int;
    snapping_lands_on_a_word(flat, k);
    let ls = column_by_top(flat, gap, c as nat);
    lemma_column_by_top(flat, gap, c as nat, flat[k].line);
    let at = ls.index_of(flat[k].line);
    assert(ls[at] == flat[k].line && 0 <= at < ls.len());
    lemma_first_joined(flat, cal, ls, at);
    lemma_last_joined(flat, cal, ls, at);
    let u = ls[first_joined(flat, cal, ls, at)];
    let l = ls[last_joined(flat, cal, ls, at)];
    every_inked_line_has_a_column(flat, gap, u);
    every_inked_line_has_a_column(flat, gap, l);
    line_extent(flat, u);
    line_extent(flat, l);
    let ku = choose|i: int| 0 <= i < flat.len() && #[trigger] ink_at(flat, u, i);
    let kl = choose|i: int| 0 <= i < flat.len() && #[trigger] ink_at(flat, l, i);
    lemma_first_on_line(flat, u, 0, ku);
    lemma_last_on_line(flat, l, flat.len() as int, kl);
    assert forall|j: int| 0 <= j < flat.len() && (#[trigger] flat[j]).line == u implies paragraph(flat, k, cal).0 <= j by {
        lemma_first_on_line(flat, u, 0, j);
    }
    assert forall|j: int| 0 <= j < flat.len() && (#[trigger] flat[j]).line == l implies j <= paragraph(flat, k, cal).1 by {
        lemma_last_on_line(flat, l, flat.len() as int, j);
    }
}

/// Neighbouring lines of a column are of one paragraph exactly when the lower one goes on
/// with the upper one; else the upper one is the last line of its paragraph, down to its
/// last word, and the lower one the first of its own, from its first word on.
pub proof fn neighbouring_lines_are_joined_where_they_go_on(
    flat: Seq<FlatWord>,
    cal: DocCalibration,
    c: usize,
    i: int,
    j: int,
)
    requires
        0 <= i < flat.len(),
        0 <= j < flat.len(),
        inked(flat[i]),
        inked(flat[j]),
        next_below(flat, cal.column_gap_cqw as int, c, flat[i].line, flat[j].line),
    ensures
        goes_on_with(flat, cal, c, flat[i].line, flat[j].line) ==> paragraph(flat, i, cal) == paragraph(flat, j, cal),
        !goes_on_with(flat, cal, c, flat[i].line, flat[j].line) ==> {
            let upper = paragraph(flat, i, cal);
            let lower = paragraph(flat, j, cal);
            &&& 0 <= upper.1 < flat.len() && flat[upper.1].line == flat[i].line
            &&& 0 <= lower.0 < flat.len() && flat[lower.0].line == flat[j].line
            &&& forall|k: int| 0 <= k < flat.len() && (#[trigger] flat[k]).line == flat[i].line ==> k <= upper.1
            &&& forall|k: int| 0 <= k < flat.len() && (#[trigger] flat[k]).line == flat[j].line ==> lower.0 <= k
        },
{
    let gap = cal.column_gap_cqw as int;
    let ls = column_by_top(flat, gap, c as nat);
    lemma_neighbours(flat, gap, c, flat[i].line, flat[j].line);
    lemma_paragraph_of(flat, cal, i, c);
    lemma_paragraph_of(flat, cal, j, c);
    snapping_lands_on_a_word(flat, i);
    snapping_lands_on_a_word(flat, j);
    let at = ls.index_of(flat[i].line);
    lemma_first_joined(flat, cal, ls, at);
    lemma_last_joined(flat, cal, ls, at);
    lemma_first_joined(flat, cal, ls, at + 1);
    lemma_last_joined(flat, cal, ls, at + 1);
    assert(joined(flat, cal, ls, at) == goes_on_with(flat, cal, c, flat[i].line, flat[j].line));
    if joined(flat, cal, ls, at) {
        lemma_same_run(flat, cal, ls, at, at + 1);
    }
}

/// Lines that are evenly spaced have one usual distance: where every line but
/// the first stands `q` below the one before it, the usual distance is `q`, 0.001 `cqw`
/// at least.
pub proof fn evenly_spaced_lines_have_their_distance(flat: Seq<FlatWord>, ls: Seq<usize>, q: int)
    requires
        ls.len() >= 2,
        forall|i: int| 0 <= i < ls.len() - 1 ==> top_of(flat, #[trigger] ls[i + 1]) - top_of(flat, ls[i]) == q,
    ensures
        usual_pitch(flat, ls) == if q >= 1_000 {
            q
        } else {
            1_000
        },
{
    let p = pitches(flat, ls);
    assert forall|i: int, j: int| 0 <= i <= j < p.len() implies p[i] <= p[j] by {
        assert(ls[i + 1] == ls[i + 1] && ls[j + 1] == ls[j + 1]);
    }
    medians_stand_in_the_middle(p, p);
    let m = ((p.len() - 1) / 2) as int;
    assert(0 <= m < p.len());
    assert(top_of(flat, ls[m + 1]) - top_of(flat, ls[m]) == q);
}

/// The usual distance of the lines of a column is the lower one of the two middle ones,
/// whatever order they are given in.
pub proof fn the_usual_distance_is_the_middle_one(flat: Seq<FlatWord>, ls: Seq<usize>, sorted: Seq<int>)
    requires
        ls.len() >= 2,
        sorted.to_multiset() == Seq::new((ls.len() - 1) as nat, |k: int| top_of(flat, ls[k + 1]) - top_of(flat, ls[k])).to_multiset(),
        forall|i: int, j: int| 0 <= i <= j < sorted.len() ==> sorted[i] <= sorted[j],
    ensures
        sorted.len() == ls.len() - 1,
        usual_pitch(flat, ls) == if sorted[(ls.len() - 2) / 2] >= 1_000 {
            sorted[(ls.len() - 2) / 2]
        } else {
            1_000
        },
{
    broadcast use vstd::seq_lib::group_to_multiset_ensures;

    let p = pitches(flat, ls);
    assert(p =~= Seq::new((ls.len() - 1) as nat, |k: int| top_of(flat, ls[k + 1]) - top_of(flat, ls[k])));
    medians_stand_in_the_middle(p, sorted);
    assert(sorted.len() == sorted.to_multiset().len());
    assert(p.len() == p.to_multiset().len());
}

// ── over columns and pages ──

/// The step is the paragraph round word `z` of a page, in column `c`.
pub open spec fn takes_paragraph(s: SelectionStep, flat: Seq<FlatWord>, cal: DocCalibration, page: u32, c: usize, z: int) -> bool {
    &&& s.page == page
    &&& s.lo == paragraph(flat, z, cal).0
    &&& s.hi == paragraph(flat, z, cal).1
    &&& s.column_left == Some(column_lefts(flat, cal.column_gap_cqw as int)[c as int])
}

/// One of the steps is the paragraph round word `z` of a page, in column `c`.
pub open spec fn has_paragraph(steps: Seq<SelectionStep>, flat: Seq<FlatWord>, cal: DocCalibration, page: u32, c: usize, z: int) -> bool {
    exists|i: int| 0 <= i < steps.len() && takes_paragraph(#[trigger] steps[i], flat, cal, page, c, z)
}

proof fn lemma_has_in(a: Seq<SelectionStep>, b: Seq<SelectionStep>, c: Seq<SelectionStep>, flat: Seq<FlatWord>, cal: DocCalibration, page: u32, col: usize, z: int)
    requires
        has_paragraph(b, flat, cal, page, col, z),
    ensures
        has_paragraph(a + b, flat, cal, page, col, z),
        has_paragraph(b + c, flat, cal, page, col, z),
{
    let i = choose|i: int| 0 <= i < b.len() && takes_paragraph(#[trigger] b[i], flat, cal, page, col, z);
    assert((a + b)[a.len() + i] == b[i]);
    assert((b + c)[i] == b[i]);
}

/// Word `e` is the first word of column `c`.
pub open spec fn first_word(flat: Seq<FlatWord>, cal: DocCalibration, c: usize, e: int) -> bool {
    word_of_column(flat, cal, e, c) && forall|k: int| k < e ==> !#[trigger] word_of_column(flat, cal, k, c)
}

/// Word `z` is the last word of column `c`.
pub open spec fn last_word(flat: Seq<FlatWord>, cal: DocCalibration, c: usize, z: int) -> bool {
    word_of_column(flat, cal, z, c) && forall|k: int| z < k ==> !#[trigger] word_of_column(flat, cal, k, c)
}

/// The paragraph round word `a` begins in the line of the first word of its column, and
/// that column does not start with an indented line: it may have begun elsewhere.
pub open spec fn from_the_top(flat: Seq<FlatWord>, cal: DocCalibration, c: usize, a: int) -> bool {
    &&& forall|e: int| #[trigger] first_word(flat, cal, c, e) ==> flat[paragraph(flat, a, cal).0].line == flat[e].line
    &&& !first_line_indented(flat, cal, c)
}

/// The paragraph round word `a` ends in the line of the last word of its column.
pub open spec fn to_the_bottom(flat: Seq<FlatWord>, cal: DocCalibration, c: usize, a: int) -> bool {
    forall|z: int| #[trigger] last_word(flat, cal, c, z) ==> flat[paragraph(flat, a, cal).1].line == flat[z].line
}

proof fn lemma_last_word(flat: Seq<FlatWord>, cal: DocCalibration, c: usize, z: int)
    requires
        last_word(flat, cal, c, z),
    ensures
        column_words(flat, cal.column_gap_cqw as int, c).len() > 0,
        column_words(flat, cal.column_gap_cqw as int, c).last() == z,
{
    let gap = cal.column_gap_cqw as int;
    let ws = column_words(flat, gap, c);
    lemma_words_are_in_the_column(flat, gap, c);
    lemma_column_words_rise(flat, gap, c, flat.len());
    assert(ws.contains(z));
    let q = choose|q: int| 0 <= q < ws.len() && ws[q] == z;
    let n = ws.len() - 1;
    assert(word_of_column(flat, cal, ws[n], c));
    if q < n {
        assert(ws[q] < ws[n]);
    }
}

proof fn lemma_ends_of_column(flat: Seq<FlatWord>, cal: DocCalibration, c: usize)
    requires
        column_words(flat, cal.column_gap_cqw as int, c).len() > 0,
    ensures
        first_word(flat, cal, c, column_words(flat, cal.column_gap_cqw as int, c)[0]),
        last_word(flat, cal, c, column_words(flat, cal.column_gap_cqw as int, c).last()),
{
    let gap = cal.column_gap_cqw as int;
    let ws = column_words(flat, gap, c);
    lemma_words_are_in_the_column(flat, gap, c);
    lemma_column_words_rise(flat, gap, c, flat.len());
    let n = ws.len() - 1;
    assert(0 <= ws[0] < flat.len() && 0 <= ws[n] < flat.len());
    assert forall|k: int| k < ws[0] implies !#[trigger] word_of_column(flat, cal, k, c) by {
        if word_of_column(flat, cal, k, c) {
            assert(ws.contains(k));
            let q = choose|q: int| 0 <= q < ws.len() && ws[q] == k;
            assert(q == 0 || ws[0] < ws[q]);
        }
    }
    assert forall|k: int| ws[n] < k implies !#[trigger] word_of_column(flat, cal, k, c) by {
        if word_of_column(flat, cal, k, c) {
            assert(ws.contains(k));
            let q = choose|q: int| 0 <= q < ws.len() && ws[q] == k;
            assert(q == n || ws[q] < ws[n]);
        }
    }
}

/// Column `c` of running text is read through on the way back: the paragraph of its last
/// word reaches from the top of the column to the bottom.
pub open spec fn read_through(flat: Seq<FlatWord>, cal: DocCalibration, c: usize) -> bool {
    forall|z: int|
        #[trigger] last_word(flat, cal, c, z) ==> to_the_bottom(flat, cal, c, z) && from_the_top(flat, cal, c, z)
}

proof fn lemma_back(
    flat: Seq<FlatWord>,
    a: int,
    prev: Option<Seq<FlatWord>>,
    page: u32,
    cal: DocCalibration,
    i: int,
    h: int,
    z: int,
)
    requires
        flat.len() <= usize::MAX,
        0 <= h < i < text_columns(flat, cal.column_gap_cqw as int).len(),
        word_of_column(flat, cal, a, text_columns(flat, cal.column_gap_cqw as int)[i]),
        from_the_top(flat, cal, text_columns(flat, cal.column_gap_cqw as int)[i], a),
        forall|g: int| h < g < i ==> read_through(flat, cal, #[trigger] text_columns(flat, cal.column_gap_cqw as int)[g]),
        last_word(flat, cal, text_columns(flat, cal.column_gap_cqw as int)[h], z),
        to_the_bottom(flat, cal, text_columns(flat, cal.column_gap_cqw as int)[h], z),
    ensures
        has_paragraph(
            paragraph_before(flat, a, prev, page, cal),
            flat,
            cal,
            page,
            text_columns(flat, cal.column_gap_cqw as int)[h],
            z,
        ),
    decreases i,
{
    let gap = cal.column_gap_cqw as int;
    let cols = text_columns(flat, gap);
    let c = cols[i];
    let p = cols[i - 1];
    lemma_previous(flat, gap, i);
    lemma_listed_has_words(flat, cal, flat.len(), i);
    lemma_listed_has_words(flat, cal, flat.len(), i - 1);
    lemma_ends_of_column(flat, cal, c);
    lemma_ends_of_column(flat, cal, p);
    lemma_last_word_column(flat, gap, c);
    let w = column_words(flat, gap, p).last();
    let all = paragraph_before(flat, a, prev, page, cal);
    if h == i - 1 {
        lemma_last_word(flat, cal, p, z);
        crate::paragraph::paragraph_stays_in_its_column(flat, z, cal);
        assert(reaches_column_end(flat, cal, p));
        assert(all.last() == last_paragraph(flat, page, cal, p));
        assert(takes_paragraph(all[all.len() - 1], flat, cal, page, p, z));
    } else {
        assert(read_through(flat, cal, cols[i - 1]));
        assert(last_word(flat, cal, p, w));
        lemma_back(flat, w, prev, page, cal, i - 1, h, z);
        let earlier = paragraph_before(flat, w, prev, page, cal);
        assert(reaches_column_end(flat, cal, p));
        let last = seq![all.last()];
        assert(all =~= earlier + last);
        lemma_has_in(Seq::empty(), earlier, last, flat, cal, page, cols[h], z);
    }
}

proof fn lemma_back_a_page(
    flat: Seq<FlatWord>,
    a: int,
    prev: Seq<FlatWord>,
    page: u32,
    cal: DocCalibration,
    i: int,
    z: int,
)
    requires
        flat.len() <= usize::MAX,
        prev.len() <= usize::MAX,
        page > 0,
        0 <= i < text_columns(flat, cal.column_gap_cqw as int).len(),
        word_of_column(flat, cal, a, text_columns(flat, cal.column_gap_cqw as int)[i]),
        from_the_top(flat, cal, text_columns(flat, cal.column_gap_cqw as int)[i], a),
        forall|g: int| 0 <= g < i ==> read_through(flat, cal, #[trigger] text_columns(flat, cal.column_gap_cqw as int)[g]),
        text_columns(prev, cal.column_gap_cqw as int).len() > 0,
        last_word(prev, cal, text_columns(prev, cal.column_gap_cqw as int).last(), z),
        to_the_bottom(prev, cal, text_columns(prev, cal.column_gap_cqw as int).last(), z),
        !first_line_indented(prev, cal, text_columns(prev, cal.column_gap_cqw as int).last()),
    ensures
        has_paragraph(
            paragraph_before(flat, a, Some(prev), page, cal),
            prev,
            cal,
            (page - 1) as u32,
            text_columns(prev, cal.column_gap_cqw as int).last(),
            z,
        ),
    decreases i,
{
    let gap = cal.column_gap_cqw as int;
    let cols = text_columns(flat, gap);
    let c = cols[i];
    let q = text_columns(prev, gap).last();
    lemma_previous(flat, gap, i);
    lemma_listed_has_words(flat, cal, flat.len(), i);
    lemma_ends_of_column(flat, cal, c);
    let all = paragraph_before(flat, a, Some(prev), page, cal);
    if i == 0 {
        lemma_last_word(prev, cal, q, z);
        crate::paragraph::paragraph_stays_in_its_column(prev, z, cal);
        assert(all.len() == 1);
        assert(takes_paragraph(all[0], prev, cal, (page - 1) as u32, q, z));
    } else {
        let p = cols[i - 1];
        lemma_listed_has_words(flat, cal, flat.len(), i - 1);
        lemma_ends_of_column(flat, cal, p);
        lemma_last_word_column(flat, gap, c);
        let w = column_words(flat, gap, p).last();
        assert(read_through(flat, cal, cols[i - 1]));
        assert(last_word(flat, cal, p, w));
        lemma_back_a_page(flat, w, prev, page, cal, i - 1, z);
        let earlier = paragraph_before(flat, w, Some(prev), page, cal);
        assert(reaches_column_end(flat, cal, p));
        let last = seq![all.last()];
        assert(all =~= earlier + last);
        lemma_has_in(Seq::empty(), earlier, last, prev, cal, (page - 1) as u32, q, z);
    }
}

/// A paragraph that begins at the top of a column, unindented, goes back over the columns
/// of running text before it: where the paragraph of the last word of an earlier column
/// reaches the bottom of it, and the columns between are read through, it has that
/// paragraph for a step.
pub proof fn a_paragraph_goes_back_over_columns(
    flat: Seq<FlatWord>,
    a: int,
    prev: Option<Seq<FlatWord>>,
    next: Option<Seq<FlatWord>>,
    page: u32,
    cal: DocCalibration,
    i: int,
    h: int,
    z: int,
)
    requires
        flat.len() <= usize::MAX,
        0 <= h < i < text_columns(flat, cal.column_gap_cqw as int).len(),
        word_of_column(flat, cal, a, text_columns(flat, cal.column_gap_cqw as int)[i]),
        snapped(flat, a) == a,
        !flat[a].formula,
        from_the_top(flat, cal, text_columns(flat, cal.column_gap_cqw as int)[i], a),
        forall|g: int| h < g < i ==> read_through(flat, cal, #[trigger] text_columns(flat, cal.column_gap_cqw as int)[g]),
        last_word(flat, cal, text_columns(flat, cal.column_gap_cqw as int)[h], z),
        to_the_bottom(flat, cal, text_columns(flat, cal.column_gap_cqw as int)[h], z),
    ensures
        has_paragraph(
            reading_paragraph(flat, a, prev, next, page, cal),
            flat,
            cal,
            page,
            text_columns(flat, cal.column_gap_cqw as int)[h],
            z,
        ),
{
    lemma_back(flat, a, prev, page, cal, i, h, z);
    lemma_has_in(
        Seq::empty(),
        paragraph_before(flat, a, prev, page, cal),
        paragraph_from(flat, a, next, page, cal),
        flat,
        cal,
        page,
        text_columns(flat, cal.column_gap_cqw as int)[h],
        z,
    );
}

/// A paragraph that begins at the top of the first column of running text, or of a later
/// one behind columns that are read through, unindented, goes back over the page before:
/// where the paragraph of the last word of the last column of running text there reaches
/// the bottom, and that column does not start with an indented line, it has that
/// paragraph for a step, and so holds that last word where it shows something and the
/// lines of the column come in the order in which they stand.
pub proof fn a_paragraph_goes_back_over_the_page_before(
    flat: Seq<FlatWord>,
    a: int,
    prev: Seq<FlatWord>,
    next: Option<Seq<FlatWord>>,
    page: u32,
    cal: DocCalibration,
    i: int,
    z: int,
)
    requires
        flat.len() <= usize::MAX,
        prev.len() <= usize::MAX,
        page > 0,
        0 <= i < text_columns(flat, cal.column_gap_cqw as int).len(),
        word_of_column(flat, cal, a, text_columns(flat, cal.column_gap_cqw as int)[i]),
        snapped(flat, a) == a,
        !flat[a].formula,
        from_the_top(flat, cal, text_columns(flat, cal.column_gap_cqw as int)[i], a),
        forall|g: int| 0 <= g < i ==> read_through(flat, cal, #[trigger] text_columns(flat, cal.column_gap_cqw as int)[g]),
        text_columns(prev, cal.column_gap_cqw as int).len() > 0,
        last_word(prev, cal, text_columns(prev, cal.column_gap_cqw as int).last(), z),
        to_the_bottom(prev, cal, text_columns(prev, cal.column_gap_cqw as int).last(), z),
        !first_line_indented(prev, cal, text_columns(prev, cal.column_gap_cqw as int).last()),
    ensures
        ({
            let all = reading_paragraph(flat, a, Some(prev), next, page, cal);
            let c = text_columns(prev, cal.column_gap_cqw as int).last();
            &&& has_paragraph(all, prev, cal, (page - 1) as u32, c, z)
            &&& inked(prev[z]) && crate::holding::lines_in_order(prev, cal.column_gap_cqw as int, c) ==> exists|k: int|
                0 <= k < all.len() && (#[trigger] all[k]).page == page - 1 && all[k].lo <= z <= all[k].hi
        }),
{
    let gap = cal.column_gap_cqw as int;
    let c = text_columns(prev, gap).last();
    let all = reading_paragraph(flat, a, Some(prev), next, page, cal);
    lemma_back_a_page(flat, a, prev, page, cal, i, z);
    lemma_has_in(
        Seq::empty(),
        paragraph_before(flat, a, Some(prev), page, cal),
        paragraph_from(flat, a, next, page, cal),
        prev,
        cal,
        (page - 1) as u32,
        c,
        z,
    );
    if inked(prev[z]) && crate::holding::lines_in_order(prev, gap, c) {
        snapping_lands_on_a_word(prev, z);
        a_paragraph_holds_its_word(prev, z, cal);
        let k = choose|k: int| 0 <= k < all.len() && takes_paragraph(#[trigger] all[k], prev, cal, (page - 1) as u32, c, z);
        assert(all[k].page == page - 1 && all[k].lo <= z <= all[k].hi);
    }
}

/// A paragraph that does not begin at the top of its column, or whose column starts with
/// an indented line, has no step before its column.
pub proof fn a_paragraph_that_begins_here_does_not_go_back(
    flat: Seq<FlatWord>,
    a: int,
    prev: Option<Seq<FlatWord>>,
    page: u32,
    cal: DocCalibration,
    c: usize,
    e: int,
)
    requires
        word_of_column(flat, cal, a, c),
        first_word(flat, cal, c, e),
        flat[paragraph(flat, a, cal).0].line != flat[e].line || first_line_indented(flat, cal, c),
    ensures
        paragraph_before(flat, a, prev, page, cal).len() == 0,
{
    lemma_first_word(flat, cal, c, e);
}

/// A column path: each column but the first follows the one before it in content order
/// among the columns of running text, and does not start with an indented line.
pub open spec fn follows_on(flat: Seq<FlatWord>, cal: DocCalibration, path: Seq<usize>) -> bool {
    &&& path.len() > 0
    &&& forall|k: int|
        0 < k < path.len() ==> next_text_column(flat, cal.column_gap_cqw as int, path[k - 1]) == Some(#[trigger] path[k])
            && !first_line_indented(flat, cal, path[k])
}

/// Word `a` and then the first words of the columns behind it.
pub open spec fn begin_of(flat: Seq<FlatWord>, cal: DocCalibration, path: Seq<usize>, a: int, k: int) -> int {
    if k == 0 {
        a
    } else {
        column_words(flat, cal.column_gap_cqw as int, path[k])[0]
    }
}

#[verifier::rlimit(60)]
proof fn lemma_on(
    flat: Seq<FlatWord>,
    a: int,
    next: Option<Seq<FlatWord>>,
    page: u32,
    cal: DocCalibration,
    path: Seq<usize>,
)
    requires
        flat.len() <= usize::MAX,
        follows_on(flat, cal, path),
        word_of_column(flat, cal, a, path[0]),
        forall|k: int|
            0 <= k < path.len() - 1 ==> to_the_bottom(flat, cal, #[trigger] path[k], begin_of(flat, cal, path, a, k)),
    ensures
        ({
            let n = path.len() - 1;
            let z = begin_of(flat, cal, path, a, n);
            let all = paragraph_from(flat, a, next, page, cal);
            let rest = paragraph_from(flat, z, next, page, cal);
            &&& word_of_column(flat, cal, z, path[n])
            &&& has_paragraph(all, flat, cal, page, path[n], z)
            &&& all.len() >= rest.len()
            &&& forall|i: int| 0 <= i < rest.len() ==> #[trigger] rest[i] == all[all.len() - rest.len() + i]
        }),
    decreases path.len(),
{
    let gap = cal.column_gap_cqw as int;
    let c = path[0];
    let all = paragraph_from(flat, a, next, page, cal);
    crate::paragraph::paragraph_stays_in_its_column(flat, a, cal);
    assert(takes_paragraph(all[0], flat, cal, page, c, a));
    if path.len() > 1 {
        let d = path[1];
        lemma_next_text_words(flat, gap, c);
        let e = column_words(flat, gap, d)[0];
        let tail = path.drop_first();
        assert(to_the_bottom(flat, cal, path[0], begin_of(flat, cal, path, a, 0)));
        crate::layout::lemma_words_are_in_the_column(flat, gap, c);
        assert(column_words(flat, gap, c).contains(a));
        lemma_ends_of_column(flat, cal, c);
        assert(last_word(flat, cal, c, column_words(flat, gap, c).last()));
        assert forall|k: int| 0 < k < tail.len() implies next_text_column(flat, gap, tail[k - 1]) == Some(#[trigger] tail[k])
            && !first_line_indented(flat, cal, tail[k]) by {
            assert(tail[k] == path[k + 1] && tail[k - 1] == path[k]);
        }
        assert forall|k: int| 0 <= k < tail.len() - 1 implies to_the_bottom(
            flat,
            cal,
            #[trigger] tail[k],
            begin_of(flat, cal, tail, e, k),
        ) by {
            assert(tail[k] == path[k + 1]);
            assert(to_the_bottom(flat, cal, path[k + 1], begin_of(flat, cal, path, a, k + 1)));
        }
        lemma_on(flat, e, next, page, cal, tail);
        let later = paragraph_from(flat, e, next, page, cal);
        assert(path[1] == d && !first_line_indented(flat, cal, d));
        assert(all =~= seq![all[0]] + later);
        let n = path.len() - 1;
        assert(tail[n - 1] == path[n]);
        let z = begin_of(flat, cal, path, a, n);
        assert(z == begin_of(flat, cal, tail, e, n - 1));
        lemma_has_in(seq![all[0]], later, Seq::empty(), flat, cal, page, path[n], z);
    }
}

/// A paragraph goes on over the columns of running text behind its own, as long as it
/// reaches the bottom of each and the next one does not start with an indented line: it
/// has the paragraph of the first word of each for a step, its own first of all.
pub proof fn a_paragraph_goes_on_over_columns(
    flat: Seq<FlatWord>,
    a: int,
    prev: Option<Seq<FlatWord>>,
    next: Option<Seq<FlatWord>>,
    page: u32,
    cal: DocCalibration,
    path: Seq<usize>,
)
    requires
        flat.len() <= usize::MAX,
        follows_on(flat, cal, path),
        word_of_column(flat, cal, a, path[0]),
        snapped(flat, a) == a,
        !flat[a].formula,
        forall|k: int|
            0 <= k < path.len() - 1 ==> to_the_bottom(flat, cal, #[trigger] path[k], begin_of(flat, cal, path, a, k)),
    ensures
        has_paragraph(
            reading_paragraph(flat, a, prev, next, page, cal),
            flat,
            cal,
            page,
            path[path.len() - 1],
            begin_of(flat, cal, path, a, path.len() - 1),
        ),
{
    lemma_on(flat, a, next, page, cal, path);
    lemma_has_in(
        paragraph_before(flat, a, prev, page, cal),
        paragraph_from(flat, a, next, page, cal),
        Seq::empty(),
        flat,
        cal,
        page,
        path[path.len() - 1],
        begin_of(flat, cal, path, a, path.len() - 1),
    );
}

/// A paragraph that reaches the bottom of the last column of running text goes on over the
/// next page, where the leftmost column of running text there does not start with an
/// indented line, and over the columns behind that one likewise.
#[verifier::rlimit(60)]
pub proof fn a_paragraph_goes_on_over_the_next_page(
    flat: Seq<FlatWord>,
    a: int,
    prev: Option<Seq<FlatWord>>,
    next: Seq<FlatWord>,
    page: u32,
    cal: DocCalibration,
    path: Seq<usize>,
    there: Seq<usize>,
    e: int,
)
    requires
        flat.len() <= usize::MAX,
        next.len() <= usize::MAX,
        page < u32::MAX,
        follows_on(flat, cal, path),
        word_of_column(flat, cal, a, path[0]),
        snapped(flat, a) == a,
        !flat[a].formula,
        forall|k: int|
            0 <= k < path.len() ==> to_the_bottom(flat, cal, #[trigger] path[k], begin_of(flat, cal, path, a, k)),
        next_text_column(flat, cal.column_gap_cqw as int, path[path.len() - 1]) is None,
        follows_on(next, cal, there),
        enters(next, cal, there[0], e),
        forall|k: int|
            0 <= k < there.len() - 1 ==> to_the_bottom(next, cal, #[trigger] there[k], begin_of(next, cal, there, e, k)),
    ensures
        has_paragraph(
            reading_paragraph(flat, a, prev, Some(next), page, cal),
            next,
            cal,
            (page + 1) as u32,
            there[there.len() - 1],
            begin_of(next, cal, there, e, there.len() - 1),
        ),
{
    let gap = cal.column_gap_cqw as int;
    let n = path.len() - 1;
    let z = begin_of(flat, cal, path, a, n);
    lemma_on(flat, a, Some(next), page, cal, path);
    lemma_enters(next, cal, there[0], e);
    lemma_on(next, e, None, (page + 1) as u32, cal, there);
    let all = paragraph_from(flat, a, Some(next), page, cal);
    let rest = paragraph_from(flat, z, Some(next), page, cal);
    let over = paragraph_from(next, e, None, (page + 1) as u32, cal);
    let c = path[n];
    assert(to_the_bottom(flat, cal, path[n], z));
    crate::layout::lemma_words_are_in_the_column(flat, gap, c);
    assert(column_words(flat, gap, c).contains(z));
    lemma_ends_of_column(flat, cal, c);
    assert(last_word(flat, cal, c, column_words(flat, gap, c).last()));
    assert(rest =~= seq![rest[0]] + over);
    let y = begin_of(next, cal, there, e, there.len() - 1);
    let col = there[there.len() - 1];
    let i = choose|i: int| 0 <= i < over.len() && takes_paragraph(#[trigger] over[i], next, cal, (page + 1) as u32, col, y);
    assert(rest[i + 1] == over[i]);
    let k = all.len() - rest.len() + i + 1;
    assert(all[k] == rest[i + 1]);
    assert(takes_paragraph(all[k], next, cal, (page + 1) as u32, col, y));
    lemma_has_in(
        paragraph_before(flat, a, prev, page, cal),
        all,
        Seq::empty(),
        next,
        cal,
        (page + 1) as u32,
        col,
        y,
    );
}

/// A paragraph that does not reach the bottom of its column ends there, and so does one
/// behind which the next column of running text starts with an indented line.
pub proof fn a_paragraph_that_ends_here_does_not_go_on(
    flat: Seq<FlatWord>,
    a: int,
    next: Option<Seq<FlatWord>>,
    page: u32,
    cal: DocCalibration,
    c: usize,
    z: int,
)
    requires
        flat.len() <= usize::MAX,
        word_of_column(flat, cal, a, c),
        last_word(flat, cal, c, z),
        flat[paragraph(flat, a, cal).1].line != flat[z].line || match next_text_column(flat, cal.column_gap_cqw as int, c) {
            Some(d) => first_line_indented(flat, cal, d),
            None => next is None,
        },
    ensures
        paragraph_from(flat, a, next, page, cal).len() == 1,
        takes_paragraph(paragraph_from(flat, a, next, page, cal)[0], flat, cal, page, c, a),
{
    lemma_last_word(flat, cal, c, z);
    crate::paragraph::paragraph_stays_in_its_column(flat, a, cal);
}

// ── formulas ──

/// The paragraph of a formula is its block. Where no formula stands more than half a `cqw` below
/// the block in its column, and the column of the next page that starts less than one `cqw` from
/// it, the first such column, begins with a formula in a line that is not indented, the
/// paragraph of that word on the next page belongs to it.
pub proof fn a_formula_block_goes_on_over_the_next_page(
    flat: Seq<FlatWord>,
    a: int,
    prev: Option<Seq<FlatWord>>,
    next: Seq<FlatWord>,
    page: u32,
    cal: DocCalibration,
    c: usize,
    d: usize,
    e: int,
)
    requires
        flat.len() <= usize::MAX,
        page < u32::MAX,
        word_of_column(flat, cal, a, c),
        snapped(flat, a) == a,
        flat[a].formula,
    ensures
        ({
            let gap = cal.column_gap_cqw as int;
            let all = reading_paragraph(flat, a, prev, Some(next), page, cal);
            let left = column_lefts(flat, gap)[c as int];
            let block = crate::formula::formula_block(flat, a, cal);
            let more = exists|i: int|
                0 <= i < flat.len() && inked(flat[i]) && flat[i].formula && #[trigger] column_at(flat, gap, i) == Some(c)
                    && flat[i].top_cqw > flat[block.1].top_cqw + 500_000;
            let near = |k: int| -1_000_000 < column_lefts(next, gap)[k] - left < 1_000_000;
            &&& all.len() > 0
            &&& all[0].page == page && all[0].lo == block.0 && all[0].hi == block.1 && all[0].column_left == Some(left)
            &&& more ==> all.len() == 1
            &&& !more && d < column_lefts(next, gap).len() && near(d as int) && (forall|k: int|
                0 <= k < d ==> !(-1_000_000 < #[trigger] column_lefts(next, gap)[k] - left < 1_000_000)) && first_word(next, cal, d, e)
                && next[e].formula && !first_line_indented(next, cal, d) ==> all == seq![all[0]] + crate::paragraph_walk::paragraph_alone(
                next,
                e,
                (page + 1) as u32,
                cal,
            )
        }),
{
    let gap = cal.column_gap_cqw as int;
    let left = column_lefts(flat, gap)[c as int];
    let block = crate::formula::formula_block(flat, a, cal);
    crate::formula::formula_block_holds_its_word(flat, a, cal);
    let more = exists|i: int|
        0 <= i < flat.len() && inked(flat[i]) && flat[i].formula && #[trigger] column_at(flat, gap, i) == Some(c)
            && flat[i].top_cqw > flat[block.1].top_cqw + 500_000;
    assert(more == crate::paragraph_walk::formula_below(flat, gap, c, block.1));
    let lefts = column_lefts(next, gap);
    if d < lefts.len() && -1_000_000 < lefts[d as int] - left < 1_000_000 && (forall|k: int|
        0 <= k < d ==> !(-1_000_000 < #[trigger] lefts[k] - left < 1_000_000)) && first_word(next, cal, d, e) {
        lemma_column_near(lefts, left, 0, d as int);
        lemma_first_word(next, cal, d, e);
    }
    let all = reading_paragraph(flat, a, prev, Some(next), page, cal);
    assert(all.len() > 0);
    assert(more ==> all.len() == 1);
    if !more {
        if let Some(j) = crate::paragraph_walk::formula_entry(next, left, cal) {
            assert(all =~= seq![all[0]] + crate::paragraph_walk::paragraph_alone(next, j, (page + 1) as u32, cal));
        }
    }
}

proof fn lemma_column_near(lefts: Seq<i64>, left: i64, k: int, d: int)
    requires
        0 <= k <= d < lefts.len(),
        -1_000_000 < lefts[d] - left < 1_000_000,
        forall|i: int| 0 <= i < d ==> !(-1_000_000 < #[trigger] lefts[i] - left < 1_000_000),
    ensures
        crate::paragraph_walk::column_near(lefts, left, k) == Some(d),
    decreases d - k,
{
    if k < d {
        assert(!(-1_000_000 < lefts[k] - left < 1_000_000));
        lemma_column_near(lefts, left, k + 1, d);
    }
}

/// On the next page a paragraph is taken as on a page that stands by itself.
pub proof fn a_page_by_itself_has_no_neighbours(flat: Seq<FlatWord>, idx: int, page: u32, cal: DocCalibration)
    ensures
        crate::paragraph_walk::paragraph_alone(flat, idx, page, cal) == reading_paragraph(flat, idx, None, None, page, cal),
{
}

} // verus!
