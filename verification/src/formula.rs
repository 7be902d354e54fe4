//! Formulas on a page: blocks within a band of lines, and formula sentences.
use crate::classify::times;
use crate::columns::{boxes_by_top, column_boxes_by_top};
use crate::layout::{column_at, PageLayout};
use crate::lines::{
    all_describe, by_top, column_by_top, column_of, every_inked_line_has_a_column, first_height_of, ids, larger,
    line_extent, line_shows, lines_by_left, lines_by_left_are_the_inked_lines, lines_by_top, top_of, LineBox,
};
use crate::page_text::{default_calibration, first_ink, ink_at, inked, is_inked, DocCalibration, FlatWord};
use crate::paragraph::{find_line, lemma_column_by_top, or_else};
use crate::selection::{snap_to_word, snapped};
use crate::sorting::{stable_sort_contains, stable_sort_is_sorted_permutation};
use vstd::prelude::*;

verus! {

/// The line is marked as formula: its first word that shows something is.
pub open spec fn marked_line(flat: Seq<FlatWord>, line: usize) -> bool {
    match first_ink(flat, line, 0) {
        Some(k) => flat[k].formula,
        None => false,
    }
}

/// The space from line `a` down to line `b` is more than `ratio` of the taller
/// of the two (of 0.6 `cqw` at least).
pub open spec fn apart(flat: Seq<FlatWord>, ratio: int, a: usize, b: usize) -> bool {
    let space = top_of(flat, b) - (top_of(flat, a) + first_height_of(flat, a));
    let tall = larger(larger(first_height_of(flat, a), first_height_of(flat, b)), 600_000);
    space * 1_000_000 > tall * ratio
}

/// Whether the line is marked as formula.
pub fn line_is_formula(flat: &[FlatWord], line: usize) -> (r: bool)
    ensures
        r == marked_line(flat@, line),
{
    let mut i: usize = 0;
    while i < flat.len()
        invariant
            i <= flat@.len(),
            first_ink(flat@, line, 0) == first_ink(flat@, line, i as int),
        decreases flat@.len() - i,
    {
        if flat[i].line == line && is_inked(&flat[i]) {
            return flat[i].formula;
        }
        i = i + 1;
    }
    false
}

pub(crate) fn are_apart(a: &LineBox, b: &LineBox, ratio: i32, Ghost(flat): Ghost<Seq<FlatWord>>) -> (r: bool)
    requires
        a.describes(flat),
        b.describes(flat),
    ensures
        r == apart(flat, ratio as int, a.line, b.line),
{
    let space: i128 = (b.top as i128) - ((a.top as i128) + (a.first_height as i128));
    let mut tall: i128 = 600_000;
    if (a.first_height as i128) > tall {
        tall = a.first_height as i128;
    }
    if (b.first_height as i128) > tall {
        tall = b.first_height as i128;
    }
    space * 1_000_000 > times(tall, ratio)
}

// ── blocks ──

/// The band of line `k` from the top: a new band starts where two lines are
/// apart.
pub open spec fn band_number(flat: Seq<FlatWord>, ratio: int, k: nat) -> nat
    decreases k,
{
    if k == 0 {
        0
    } else {
        let ls = lines_by_top(flat);
        let before = band_number(flat, ratio, (k - 1) as nat);
        if apart(flat, ratio, ls[k - 1], ls[k as int]) {
            before + 1
        } else {
            before
        }
    }
}

/// The band of `line`.
pub open spec fn band_of(flat: Seq<FlatWord>, ratio: int, line: usize) -> nat {
    band_number(flat, ratio, lines_by_top(flat).index_of(line) as nat)
}

/// Line `i` of `ls` belongs to the formula block in band `band`.
pub open spec fn in_block(flat: Seq<FlatWord>, ratio: int, ls: Seq<usize>, band: nat, i: int) -> bool {
    band_of(flat, ratio, ls[i]) == band && marked_line(flat, ls[i])
}

/// The first line of the block that reaches up from line `i`.
pub open spec fn block_first(flat: Seq<FlatWord>, ratio: int, ls: Seq<usize>, band: nat, i: int) -> int
    decreases i,
{
    if i > 0 && in_block(flat, ratio, ls, band, i - 1) {
        block_first(flat, ratio, ls, band, i - 1)
    } else {
        i
    }
}

/// The last line of the block that reaches down from line `i`.
pub open spec fn block_last(flat: Seq<FlatWord>, ratio: int, ls: Seq<usize>, band: nat, i: int) -> int
    decreases ls.len() - i,
{
    if i + 1 < ls.len() && in_block(flat, ratio, ls, band, i + 1) {
        block_last(flat, ratio, ls, band, i + 1)
    } else {
        i
    }
}

/// `line` stands among `ls[lo..=hi]`.
pub open spec fn among(ls: Seq<usize>, lo: int, hi: int, line: usize) -> bool {
    exists|k: int| lo <= k <= hi && #[trigger] ls[k] == line
}

/// The first word at or behind `from` that shows something on one of
/// `ls[lo..=hi]`.
pub open spec fn first_among(flat: Seq<FlatWord>, ls: Seq<usize>, lo: int, hi: int, from: int) -> Option<int>
    decreases flat.len() - from,
{
    if from >= flat.len() {
        None
    } else if among(ls, lo, hi, flat[from].line) && inked(flat[from]) {
        Some(from)
    } else {
        first_among(flat, ls, lo, hi, from + 1)
    }
}

/// The last of the first `n` words that shows something on one of
/// `ls[lo..=hi]`.
pub open spec fn last_among(flat: Seq<FlatWord>, ls: Seq<usize>, lo: int, hi: int, n: int) -> Option<int>
    decreases n,
{
    if n <= 0 {
        None
    } else if among(ls, lo, hi, flat[n - 1].line) && inked(flat[n - 1]) {
        Some(n - 1)
    } else {
        last_among(flat, ls, lo, hi, n - 1)
    }
}

/// The words of the formula block round place `idx`: the marked lines of its
/// column that follow each other within its band. Where the line has no column,
/// the whole page.
pub open spec fn formula_block(flat: Seq<FlatWord>, idx: int, cal: DocCalibration) -> (int, int) {
    if flat.len() == 0 {
        (0, 0)
    } else {
        let line = flat[snapped(flat, idx)].line;
        let gap = cal.column_gap_cqw as int;
        let ratio = cal.vertical_gap_ratio as int;
        match column_of(flat, gap, line) {
            None => (0, flat.len() - 1),
            Some(c) => {
                let ls = column_by_top(flat, gap, c as nat);
                let at = ls.index_of(line);
                let band = band_of(flat, ratio, line);
                let lo = block_first(flat, ratio, ls, band, at);
                let hi = block_last(flat, ratio, ls, band, at);
                (
                    or_else(first_among(flat, ls, lo, hi, 0), 0),
                    or_else(last_among(flat, ls, lo, hi, flat.len() as int), flat.len() - 1),
                )
            },
        }
    }
}

/// The bands of lines that stand from top to bottom.
fn band_numbers(boxes: &Vec<LineBox>, ratio: i32, Ghost(flat): Ghost<Seq<FlatWord>>) -> (r: Vec<usize>)
    requires
        all_describe(boxes@, flat),
        ids(boxes@) == lines_by_top(flat),
    ensures
        r@.len() == boxes@.len(),
        forall|k: int| 0 <= k < r@.len() ==> #[trigger] r@[k] == band_number(flat, ratio as int, k as nat),
{
    let mut r: Vec<usize> = Vec::new();
    let mut i: usize = 0;
    while i < boxes.len()
        invariant
            i <= boxes@.len(),
            r@.len() == i,
            all_describe(boxes@, flat),
            ids(boxes@) == lines_by_top(flat),
            forall|k: int|
                0 <= k < i ==> #[trigger] r@[k] == band_number(flat, ratio as int, k as nat) && r@[k] <= k,
        decreases boxes@.len() - i,
    {
        if i == 0 {
            r.push(0);
        } else {
            assert(boxes@[i as int].describes(flat) && boxes@[i - 1].describes(flat));
            assert(ids(boxes@)[i as int] == boxes@[i as int].line);
            assert(ids(boxes@)[i - 1] == boxes@[i - 1].line);
            let before = r[i - 1];
            if are_apart(&boxes[i - 1], &boxes[i], ratio, Ghost(flat)) {
                r.push(before + 1);
            } else {
                r.push(before);
            }
        }
        i = i + 1;
    }
    r
}

pub(crate) proof fn lemma_lines_by_top(flat: Seq<FlatWord>)
    ensures
        lines_by_top(flat).no_duplicates(),
        forall|l: usize| #[trigger] lines_by_top(flat).contains(l) <==> line_shows(flat, l),
{
    broadcast use vstd::seq_lib::group_to_multiset_ensures;

    let s = lines_by_left(flat);
    let t = lines_by_top(flat);
    lines_by_left_are_the_inked_lines(flat);
    stable_sort_is_sorted_permutation(s, by_top(flat));
    s.lemma_multiset_has_no_duplicates();
    t.lemma_multiset_has_no_duplicates_conv();
    assert forall|l: usize| #[trigger] t.contains(l) <==> line_shows(flat, l) by {
        stable_sort_contains(s, by_top(flat), l);
        assert(s.contains(l) <==> line_shows(flat, l));
    }
}

fn belongs_to_block(
    flat: &[FlatWord],
    all: &Vec<LineBox>,
    bands: &Vec<usize>,
    ratio: i32,
    band: usize,
    line: usize,
) -> (r: bool)
    requires
        ids(all@) == lines_by_top(flat@),
        bands@.len() == all@.len(),
        forall|k: int|
            0 <= k < bands@.len() ==> #[trigger] bands@[k] == band_number(flat@, ratio as int, k as nat),
        line_shows(flat@, line),
    ensures
        r == (band_of(flat@, ratio as int, line) == band && marked_line(flat@, line)),
{
    proof {
        lemma_lines_by_top(flat@);
        assert(lines_by_top(flat@).contains(line));
    }
    match find_line(all, line) {
        Some(k) => {
            assert(ids(all@)[k as int] == line);
            assert(lines_by_top(flat@).index_of(line) == k);
            bands[k] == band && line_is_formula(flat, line)
        },
        None => false,
    }
}

pub(crate) fn stands_among(boxes: &Vec<LineBox>, lo: usize, hi: usize, line: usize) -> (r: bool)
    requires
        lo <= hi < boxes@.len(),
    ensures
        r == among(ids(boxes@), lo as int, hi as int, line),
{
    let mut k = lo;
    while k <= hi
        invariant
            lo <= k <= hi + 1,
            hi < boxes@.len(),
            forall|j: int| lo <= j < k ==> ids(boxes@)[j] != line,
        decreases hi + 1 - k,
    {
        if boxes[k].line == line {
            assert(ids(boxes@)[k as int] == line);
            return true;
        }
        if k == hi {
            return false;
        }
        k = k + 1;
    }
    false
}

proof fn lemma_block_bounds(flat: Seq<FlatWord>, ratio: int, ls: Seq<usize>, band: nat, i: int)
    requires
        0 <= i < ls.len(),
    ensures
        0 <= block_first(flat, ratio, ls, band, i) <= i,
    decreases i,
{
    if i > 0 && in_block(flat, ratio, ls, band, i - 1) {
        lemma_block_bounds(flat, ratio, ls, band, i - 1);
    }
}

proof fn lemma_block_last_bounds(flat: Seq<FlatWord>, ratio: int, ls: Seq<usize>, band: nat, i: int)
    requires
        0 <= i < ls.len(),
    ensures
        i <= block_last(flat, ratio, ls, band, i) < ls.len(),
    decreases ls.len() - i,
{
    if i + 1 < ls.len() && in_block(flat, ratio, ls, band, i + 1) {
        lemma_block_last_bounds(flat, ratio, ls, band, i + 1);
    }
}

proof fn lemma_first_among(flat: Seq<FlatWord>, ls: Seq<usize>, lo: int, hi: int, from: int)
    requires
        0 <= from,
    ensures
        match first_among(flat, ls, lo, hi, from) {
            Some(g) => from <= g < flat.len() && inked(flat[g]) && among(ls, lo, hi, flat[g].line)
                && forall|k: int|
                from <= k < g ==> !(among(ls, lo, hi, #[trigger] flat[k].line) && inked(flat[k])),
            None => forall|k: int|
                from <= k < flat.len() ==> !(among(ls, lo, hi, #[trigger] flat[k].line) && inked(flat[k])),
        },
    decreases flat.len() - from,
{
    if from < flat.len() && !(among(ls, lo, hi, flat[from].line) && inked(flat[from])) {
        lemma_first_among(flat, ls, lo, hi, from + 1);
    }
}

proof fn lemma_last_among(flat: Seq<FlatWord>, ls: Seq<usize>, lo: int, hi: int, n: int)
    requires
        n <= flat.len(),
    ensures
        match last_among(flat, ls, lo, hi, n) {
            Some(g) => 0 <= g < n && inked(flat[g]) && among(ls, lo, hi, flat[g].line) && forall|k: int|
                g < k < n ==> !(among(ls, lo, hi, #[trigger] flat[k].line) && inked(flat[k])),
            None => forall|k: int|
                0 <= k < n ==> !(among(ls, lo, hi, #[trigger] flat[k].line) && inked(flat[k])),
        },
    decreases n,
{
    if n > 0 && !(among(ls, lo, hi, flat[n - 1].line) && inked(flat[n - 1])) {
        lemma_last_among(flat, ls, lo, hi, n - 1);
    }
}

/// A formula block lies on its page; where the place is on a word that shows
/// something, that word lies within the block, and the block starts and ends in
/// the column of the word.
pub proof fn formula_block_holds_its_word(flat: Seq<FlatWord>, idx: int, cal: DocCalibration)
    requires
        0 <= idx < flat.len(),
    ensures
        0 <= formula_block(flat, idx, cal).0 < flat.len(),
        0 <= formula_block(flat, idx, cal).1 < flat.len(),
        inked(flat[idx]) ==> formula_block(flat, idx, cal).0 <= idx <= formula_block(flat, idx, cal).1,
        inked(flat[idx]) ==> column_at(flat, cal.column_gap_cqw as int, formula_block(flat, idx, cal).0)
            == column_at(flat, cal.column_gap_cqw as int, idx),
        inked(flat[idx]) ==> column_at(flat, cal.column_gap_cqw as int, formula_block(flat, idx, cal).1)
            == column_at(flat, cal.column_gap_cqw as int, idx),
{
    crate::selection::snapping_lands_on_a_word(flat, idx);
    let gap = cal.column_gap_cqw as int;
    let ratio = cal.vertical_gap_ratio as int;
    let a = snapped(flat, idx);
    let line = flat[a].line;
    match column_of(flat, gap, line) {
        None => {
            every_inked_line_has_a_column(flat, gap, line);
            line_extent(flat, line);
            if inked(flat[idx]) {
                assert(ink_at(flat, line, idx));
            }
        },
        Some(c) => {
            let ls = column_by_top(flat, gap, c as nat);
            lemma_column_by_top(flat, gap, c as nat, line);
            let at = ls.index_of(line);
            let band = band_of(flat, ratio, line);
            let lo = block_first(flat, ratio, ls, band, at);
            let hi = block_last(flat, ratio, ls, band, at);
            lemma_block_bounds(flat, ratio, ls, band, at);
            lemma_block_last_bounds(flat, ratio, ls, band, at);
            lemma_first_among(flat, ls, lo, hi, 0);
            lemma_last_among(flat, ls, lo, hi, flat.len() as int);
            assert(ls[at] == line);
            assert(among(ls, lo, hi, line));
            if inked(flat[idx]) {
                assert(among(ls, lo, hi, flat[idx].line) && inked(flat[idx]));
                let first = first_among(flat, ls, lo, hi, 0)->0;
                let k = choose|k: int| lo <= k <= hi && #[trigger] ls[k] == flat[first].line;
                assert(column_of(flat, gap, ls[k]) == Some(c));
                let last = last_among(flat, ls, lo, hi, flat.len() as int)->0;
                let j = choose|j: int| lo <= j <= hi && #[trigger] ls[j] == flat[last].line;
                assert(column_of(flat, gap, ls[j]) == Some(c));
            }
        },
    }
}

/// The words of the formula block round place `idx`.
pub fn formula_block_range_with(flat: &[FlatWord], idx: usize, cal: DocCalibration) -> (r: (
    usize,
    usize,
))
    ensures
        r.0 == formula_block(flat@, idx as int, cal).0,
        r.1 == formula_block(flat@, idx as int, cal).1,
        flat@.len() > 0 ==> r.0 < flat@.len() && r.1 < flat@.len(),
{
    if flat.len() == 0 {
        return (0, 0);
    }
    let ghost gap = cal.column_gap_cqw as int;
    let ghost ratio = cal.vertical_gap_ratio as int;
    let at = snap_to_word(flat, idx);
    let line = flat[at].line;
    let layout = PageLayout::new_with(flat, cal);
    let col = match layout.col_of(flat, at) {
        Some(c) => c,
        None => {
            return (0, flat.len() - 1);
        },
    };
    let all = boxes_by_top(flat);
    let bands = band_numbers(&all, cal.vertical_gap_ratio, Ghost(flat@));
    let boxes = column_boxes_by_top(flat, cal.column_gap_cqw, col);
    let ghost ls = ids(boxes@);
    proof {
        lemma_column_by_top(flat@, gap, col as nat, line);
        lemma_lines_by_top(flat@);
        every_inked_line_has_a_column(flat@, gap, line);
        assert(lines_by_top(flat@).contains(line));
    }
    let band = match find_line(&all, line) {
        Some(k) => {
            assert(ids(all@)[k as int] == line);
            assert(lines_by_top(flat@).index_of(line) == k);
            bands[k]
        },
        None => {
            return (0, flat.len() - 1);
        },
    };
    let pos = match find_line(&boxes, line) {
        Some(p) => p,
        None => {
            return (0, flat.len() - 1);
        },
    };
    assert(ls.index_of(line) == pos) by {
        assert(ls[pos as int] == line);
    }
    let mut lo = pos;
    while lo > 0
        invariant
            lo <= pos < boxes@.len(),
            all_describe(boxes@, flat@),
            ls == ids(boxes@),
            ratio == cal.vertical_gap_ratio,
            ids(all@) == lines_by_top(flat@),
            bands@.len() == all@.len(),
            forall|k: int| 0 <= k < bands@.len() ==> #[trigger] bands@[k] == band_number(flat@, ratio, k as nat),
            block_first(flat@, ratio, ls, band as nat, pos as int) == block_first(flat@, ratio, ls, band as nat, lo as int),
        ensures
            lo == block_first(flat@, ratio, ls, band as nat, pos as int),
            lo <= pos,
        decreases lo,
    {
        assert(boxes@[lo - 1].describes(flat@));
        if !belongs_to_block(flat, &all, &bands, cal.vertical_gap_ratio, band, boxes[lo - 1].line) {
            break;
        }
        lo = lo - 1;
    }
    let mut hi = pos;
    while boxes.len() - hi > 1
        invariant
            pos <= hi < boxes@.len(),
            all_describe(boxes@, flat@),
            ls == ids(boxes@),
            ls.len() == boxes@.len(),
            ratio == cal.vertical_gap_ratio,
            ids(all@) == lines_by_top(flat@),
            bands@.len() == all@.len(),
            forall|k: int| 0 <= k < bands@.len() ==> #[trigger] bands@[k] == band_number(flat@, ratio, k as nat),
            block_last(flat@, ratio, ls, band as nat, pos as int) == block_last(flat@, ratio, ls, band as nat, hi as int),
        ensures
            hi == block_last(flat@, ratio, ls, band as nat, pos as int),
            pos <= hi < boxes@.len(),
        decreases boxes@.len() - hi,
    {
        assert(boxes@[hi + 1].describes(flat@));
        if !belongs_to_block(flat, &all, &bands, cal.vertical_gap_ratio, band, boxes[hi + 1].line) {
            break;
        }
        hi = hi + 1;
    }
    let mut start: usize = 0;
    while start < flat.len()
        invariant
            start <= flat@.len(),
            lo <= hi < boxes@.len(),
            ls == ids(boxes@),
            first_among(flat@, ls, lo as int, hi as int, 0) == first_among(flat@, ls, lo as int, hi as int, start as int),
        ensures
            start <= flat@.len(),
            match first_among(flat@, ls, lo as int, hi as int, 0) {
                Some(g) => g == start && start < flat@.len(),
                None => start == flat@.len(),
            },
        decreases flat@.len() - start,
    {
        if stands_among(&boxes, lo, hi, flat[start].line) && is_inked(&flat[start]) {
            break;
        }
        start = start + 1;
    }
    let mut end = flat.len();
    while end > 0
        invariant
            end <= flat@.len(),
            lo <= hi < boxes@.len(),
            ls == ids(boxes@),
            last_among(flat@, ls, lo as int, hi as int, flat@.len() as int) == last_among(flat@, ls, lo as int, hi as int, end as int),
        ensures
            end <= flat@.len(),
            match last_among(flat@, ls, lo as int, hi as int, flat@.len() as int) {
                Some(g) => g == end - 1 && end > 0,
                None => end == 0,
            },
        decreases end,
    {
        if stands_among(&boxes, lo, hi, flat[end - 1].line) && is_inked(&flat[end - 1]) {
            break;
        }
        end = end - 1;
    }
    (
        if start < flat.len() {
            start
        } else {
            0
        },
        if end > 0 {
            end - 1
        } else {
            flat.len() - 1
        },
    )
}

/// As `formula_block_range_with`, with the usual thresholds.
pub fn formula_block_range(flat: &[FlatWord], idx: usize) -> (r: (usize, usize))
    ensures
        r.0 == formula_block(flat@, idx as int, default_calibration()).0,
        r.1 == formula_block(flat@, idx as int, default_calibration()).1,
        flat@.len() > 0 ==> r.0 < flat@.len() && r.1 < flat@.len(),
{
    formula_block_range_with(flat, idx, DocCalibration::default())
}

// ── blocks of formula lines, seen from outside ──

/// A line counts as a formula by its first word that shows something.
pub proof fn a_line_is_a_formula_by_its_first_word(flat: Seq<FlatWord>, line: usize, k: int)
    requires
        0 <= k < flat.len(),
        ink_at(flat, line, k),
        forall|j: int| 0 <= j < k && flat[j].line == line ==> !inked(#[trigger] flat[j]),
    ensures
        marked_line(flat, line) == flat[k].formula,
{
    crate::copying::lemma_first_ink_is(flat, line, 0, k);
}

/// Two lines stand apart exactly when the space between the upper one and the lower one is
/// more than the given share of the taller of them, and of 0.6 `cqw` at least. `i` and `j`
/// are the first words that show something on either line.
pub proof fn lines_stand_apart_by_their_heights(flat: Seq<FlatWord>, ratio: int, a: usize, b: usize, i: int, j: int)
    requires
        0 <= ratio,
        0 <= i < flat.len(),
        0 <= j < flat.len(),
        ink_at(flat, a, i),
        ink_at(flat, b, j),
        forall|k: int| 0 <= k < i && flat[k].line == a ==> !inked(#[trigger] flat[k]),
        forall|k: int| 0 <= k < j && flat[k].line == b ==> !inked(#[trigger] flat[k]),
    ensures
        apart(flat, ratio, a, b) <==> {
            let space = (top_of(flat, b) - top_of(flat, a) - flat[i].line_height_cqw) * 1_000_000;
            &&& space > 600_000 * ratio
            &&& space > flat[i].line_height_cqw * ratio
            &&& space > flat[j].line_height_cqw * ratio
        },
{
    crate::lines::a_line_is_as_large_as_its_words(flat, a, i);
    crate::lines::a_line_is_as_large_as_its_words(flat, b, j);
    let x = flat[i].line_height_cqw as int;
    let y = flat[j].line_height_cqw as int;
    let t = larger(larger(x, y), 600_000);
    assert(x * ratio <= t * ratio && y * ratio <= t * ratio && 600_000 * ratio <= t * ratio) by (nonlinear_arith)
        requires
            x <= t,
            y <= t,
            600_000 <= t,
            0 <= ratio,
    ;
}

proof fn lemma_block_first(flat: Seq<FlatWord>, ratio: int, ls: Seq<usize>, band: nat, i: int)
    requires
        0 <= i < ls.len(),
    ensures
        ({
            let f = block_first(flat, ratio, ls, band, i);
            &&& 0 <= f <= i
            &&& forall|j: int| f <= j < i ==> #[trigger] in_block(flat, ratio, ls, band, j)
            &&& f > 0 ==> !in_block(flat, ratio, ls, band, f - 1)
        }),
    decreases i,
{
    if i > 0 && in_block(flat, ratio, ls, band, i - 1) {
        lemma_block_first(flat, ratio, ls, band, i - 1);
    }
}

proof fn lemma_block_last(flat: Seq<FlatWord>, ratio: int, ls: Seq<usize>, band: nat, i: int)
    requires
        0 <= i < ls.len(),
    ensures
        ({
            let l = block_last(flat, ratio, ls, band, i);
            &&& i <= l < ls.len()
            &&& forall|j: int| i < j <= l ==> #[trigger] in_block(flat, ratio, ls, band, j)
            &&& l + 1 < ls.len() ==> !in_block(flat, ratio, ls, band, l + 1)
        }),
    decreases ls.len() - i,
{
    if i + 1 < ls.len() && in_block(flat, ratio, ls, band, i + 1) {
        lemma_block_last(flat, ratio, ls, band, i + 1);
    }
}

/// Neighbouring lines of a column that are both formulas and in one band are of one block;
/// where the lower one is no formula, or in another band, the block of the upper one ends
/// above it, and where the upper one is none, or in another band, the block of the lower one
/// begins below it.
pub proof fn neighbouring_formula_lines_are_one_block(flat: Seq<FlatWord>, cal: DocCalibration, c: usize, i: int, j: int)
    requires
        0 <= i < flat.len(),
        0 <= j < flat.len(),
        inked(flat[i]),
        inked(flat[j]),
        crate::paragraph_extent::next_below(flat, cal.column_gap_cqw as int, c, flat[i].line, flat[j].line),
    ensures
        ({
            let ratio = cal.vertical_gap_ratio as int;
            let (a, b) = (flat[i].line, flat[j].line);
            let one_band = band_of(flat, ratio, a) == band_of(flat, ratio, b);
            let upper = formula_block(flat, i, cal);
            let lower = formula_block(flat, j, cal);
            &&& marked_line(flat, a) && marked_line(flat, b) && one_band ==> upper == lower
            &&& !(marked_line(flat, b) && one_band) ==> 0 <= upper.1 < flat.len() && top_of(flat, flat[upper.1].line) <= top_of(flat, a)
            &&& !(marked_line(flat, a) && one_band) ==> 0 <= lower.0 < flat.len() && top_of(flat, flat[lower.0].line) >= top_of(flat, b)
        }),
{
    let gap = cal.column_gap_cqw as int;
    let ratio = cal.vertical_gap_ratio as int;
    let (a, b) = (flat[i].line, flat[j].line);
    let ls = column_by_top(flat, gap, c as nat);
    crate::paragraph_extent::lemma_neighbours(flat, gap, c, a, b);
    crate::selection::snapping_lands_on_a_word(flat, i);
    crate::selection::snapping_lands_on_a_word(flat, j);
    crate::sorting::stable_sort_is_sorted_permutation(crate::lines::column_lines(flat, gap, c as nat), crate::lines::by_top(flat));
    let at = ls.index_of(a);
    let p = band_of(flat, ratio, a);
    let q = band_of(flat, ratio, b);
    lemma_block_first(flat, ratio, ls, p, at);
    lemma_block_last(flat, ratio, ls, p, at);
    lemma_block_first(flat, ratio, ls, q, at + 1);
    lemma_block_last(flat, ratio, ls, q, at + 1);
    let lo = block_first(flat, ratio, ls, p, at);
    let hi = block_last(flat, ratio, ls, p, at);
    let lo2 = block_first(flat, ratio, ls, q, at + 1);
    let hi2 = block_last(flat, ratio, ls, q, at + 1);
    lemma_last_among(flat, ls, lo, hi, flat.len() as int);
    lemma_first_among(flat, ls, lo2, hi2, 0);
    assert(ls[at] == a && ls[at + 1] == b);
    assert(among(ls, lo, hi, flat[i].line));
    assert(among(ls, lo2, hi2, flat[j].line));
    assert(in_block(flat, ratio, ls, p, at + 1) == (q == p && marked_line(flat, b)));
    assert(in_block(flat, ratio, ls, q, at) == (p == q && marked_line(flat, a)));
    if marked_line(flat, a) && marked_line(flat, b) && p == q {
        assert(in_block(flat, ratio, ls, p, at));
        assert(block_first(flat, ratio, ls, p, at + 1) == block_first(flat, ratio, ls, p, at));
        assert(block_last(flat, ratio, ls, p, at) == block_last(flat, ratio, ls, p, at + 1));
    }
    let up = formula_block(flat, i, cal).1;
    let low = formula_block(flat, j, cal).0;
    if !(marked_line(flat, b) && p == q) {
        assert(hi == at) by {
            if hi > at {
                assert(in_block(flat, ratio, ls, p, at + 1));
            }
        }
        let k = choose|k: int| lo <= k <= hi && #[trigger] ls[k] == flat[up].line;
        assert(crate::lines::by_top(flat)(ls[k]) <= crate::lines::by_top(flat)(ls[at]));
    }
    if !(marked_line(flat, a) && p == q) {
        assert(lo2 == at + 1) by {
            if lo2 < at + 1 {
                assert(in_block(flat, ratio, ls, q, at));
            }
        }
        let k = choose|k: int| lo2 <= k <= hi2 && #[trigger] ls[k] == flat[low].line;
        assert(crate::lines::by_top(flat)(ls[at + 1]) <= crate::lines::by_top(flat)(ls[k]));
    }
}

/// Lines that follow one another from top to bottom on the whole page are in one band exactly
/// when they do not stand apart.
pub proof fn bands_are_parted_by_space(flat: Seq<FlatWord>, ratio: int, k: int)
    requires
        0 <= k < lines_by_top(flat).len() - 1,
    ensures
        band_of(flat, ratio, lines_by_top(flat)[k]) == band_of(flat, ratio, lines_by_top(flat)[k + 1]) <==> !apart(
            flat,
            ratio,
            lines_by_top(flat)[k],
            lines_by_top(flat)[k + 1],
        ),
        lines_by_top(flat).no_duplicates(),
        forall|l: usize| #[trigger] lines_by_top(flat).contains(l) <==> crate::lines::line_shows(flat, l),
        forall|i: int, j: int|
            0 <= i <= j < lines_by_top(flat).len() ==> top_of(flat, #[trigger] lines_by_top(flat)[i]) <= top_of(
                flat,
                #[trigger] lines_by_top(flat)[j],
            ),
{
    broadcast use vstd::seq_lib::group_to_multiset_ensures;

    let s = crate::lines::lines_by_left(flat);
    let t = lines_by_top(flat);
    let key = crate::lines::by_top(flat);
    crate::lines::lines_by_left_are_the_inked_lines(flat);
    crate::sorting::stable_sort_is_sorted_permutation(s, key);
    s.lemma_multiset_has_no_duplicates();
    t.lemma_multiset_has_no_duplicates_conv();
    assert forall|l: usize| #[trigger] t.contains(l) <==> crate::lines::line_shows(flat, l) by {
        crate::sorting::stable_sort_contains(s, key, l);
    }
    assert forall|i: int, j: int| 0 <= i <= j < t.len() implies top_of(flat, #[trigger] t[i]) <= top_of(flat, #[trigger] t[j]) by {
        assert(key(t[i]) <= key(t[j]));
    }
    assert(t.contains(t[k]) && t.contains(t[k + 1]));
    assert(t.index_of(t[k]) == k);
    assert(t.index_of(t[k + 1]) == k + 1);
}

} // verus!
