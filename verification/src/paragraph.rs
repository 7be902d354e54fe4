//! Paragraphs: their extent within a column, and the way they go on over
//! columns and pages.
use crate::boundary::{full_stop, is_full_stop, semicolon};
use crate::columns::column_boxes_by_top;
use crate::layout::{column_at, PageLayout};
use crate::lines::{
    all_describe, column_by_top, column_lines, column_of, every_inked_line_has_a_column, ids, larger, left_of,
    line_extent, top_of, LineBox,
};
use crate::page_text::{ink_at, is_inked, last_ink, default_calibration, DocCalibration, FlatWord};
use crate::selection::{snap_to_word, snapped};
use crate::sorting::{ints, lower_median, lower_median_of, stable_sort_contains, stable_sort_is_sorted_permutation};
use crate::text::{trim_end, without_trailing_space};
use vstd::prelude::*;

verus! {

// ── lines of a paragraph ──

/// The last word of the line ends a sentence or a clause.
pub open spec fn line_ends_sentence(flat: Seq<FlatWord>, line: usize) -> bool {
    match last_ink(flat, line, flat.len() as int) {
        Some(k) => {
            let t = without_trailing_space(flat[k].text@);
            t.len() > 0 && (full_stop(t.last()) || semicolon(t.last()))
        },
        None => false,
    }
}

/// The distances from one top edge to the next.
pub open spec fn pitches(flat: Seq<FlatWord>, ls: Seq<usize>) -> Seq<int> {
    Seq::new(
        (if ls.len() == 0 { 0 } else { ls.len() - 1 }) as nat,
        |k: int| top_of(flat, ls[k + 1]) - top_of(flat, ls[k]),
    )
}

/// The usual distance from one top edge to the next.
pub open spec fn usual_pitch(flat: Seq<FlatWord>, ls: Seq<usize>) -> int {
    larger(lower_median(pitches(flat, ls)), 1_000)
}

/// Line `b`, below line `a`, goes on with its paragraph: it is not further than
/// 1.35 of the usual distance, and it is not indented, unless the sentence runs
/// on.
pub open spec fn same_paragraph(
    flat: Seq<FlatWord>,
    cal: DocCalibration,
    usual: int,
    a: usize,
    b: usize,
) -> bool {
    &&& 100 * (top_of(flat, b) - top_of(flat, a)) <= 135 * usual
    &&& left_of(flat, b) - left_of(flat, a) <= cal.paragraph_indent_cqw || !line_ends_sentence(flat, a)
}

/// Line `i + 1` of `ls` goes on with the paragraph of line `i`.
pub open spec fn joined(flat: Seq<FlatWord>, cal: DocCalibration, ls: Seq<usize>, i: int) -> bool {
    same_paragraph(flat, cal, usual_pitch(flat, ls), ls[i], ls[i + 1])
}

/// The first line of the paragraph of line `i`.
pub open spec fn first_joined(flat: Seq<FlatWord>, cal: DocCalibration, ls: Seq<usize>, i: int) -> int
    decreases i,
{
    if i > 0 && joined(flat, cal, ls, i - 1) {
        first_joined(flat, cal, ls, i - 1)
    } else {
        i
    }
}

/// The last line of the paragraph of line `i`.
pub open spec fn last_joined(flat: Seq<FlatWord>, cal: DocCalibration, ls: Seq<usize>, i: int) -> int
    decreases ls.len() - i,
{
    if i + 1 < ls.len() && joined(flat, cal, ls, i) {
        last_joined(flat, cal, ls, i + 1)
    } else {
        i
    }
}

/// The first word at or behind `from` on `line`.
pub open spec fn first_on_line(flat: Seq<FlatWord>, line: usize, from: int) -> Option<int>
    decreases flat.len() - from,
{
    if from >= flat.len() {
        None
    } else if flat[from].line == line {
        Some(from)
    } else {
        first_on_line(flat, line, from + 1)
    }
}

/// The last of the first `n` words on `line`.
pub open spec fn last_on_line(flat: Seq<FlatWord>, line: usize, n: int) -> Option<int>
    decreases n,
{
    if n <= 0 {
        None
    } else if flat[n - 1].line == line {
        Some(n - 1)
    } else {
        last_on_line(flat, line, n - 1)
    }
}

/// `o`, or `d` where it is none.
pub open spec fn or_else(o: Option<int>, d: int) -> int {
    match o {
        Some(x) => x,
        None => d,
    }
}

/// The words of the paragraph round place `idx`: from the first word of its
/// first line to the last word of its last line, within the column. Where the
/// line has no column, the whole page.
pub open spec fn paragraph(flat: Seq<FlatWord>, idx: int, cal: DocCalibration) -> (int, int) {
    if flat.len() == 0 {
        (0, 0)
    } else {
        let line = flat[snapped(flat, idx)].line;
        let gap = cal.column_gap_cqw as int;
        match column_of(flat, gap, line) {
            None => (0, flat.len() - 1),
            Some(c) => {
                let ls = column_by_top(flat, gap, c as nat);
                let at = ls.index_of(line);
                let upper = ls[first_joined(flat, cal, ls, at)];
                let lower = ls[last_joined(flat, cal, ls, at)];
                (
                    or_else(first_on_line(flat, upper, 0), 0),
                    or_else(last_on_line(flat, lower, flat.len() as int), flat.len() - 1),
                )
            },
        }
    }
}

fn ends_sentence(flat: &[FlatWord], line: usize) -> (r: bool)
    ensures
        r == line_ends_sentence(flat@, line),
{
    let mut i = flat.len();
    while i > 0
        invariant
            i <= flat@.len(),
            last_ink(flat@, line, flat@.len() as int) == last_ink(flat@, line, i as int),
        decreases i,
    {
        let w = &flat[i - 1];
        if w.line == line && is_inked(w) {
            let t = trim_end(&w.text);
            if t.len() == 0 {
                return false;
            }
            let c = t[t.len() - 1];
            return is_full_stop(c) || c == ';' || c == '；';
        }
        i = i - 1;
    }
    false
}

fn box_pitches(boxes: &Vec<LineBox>, Ghost(flat): Ghost<Seq<FlatWord>>) -> (r: Vec<i128>)
    requires
        all_describe(boxes@, flat),
    ensures
        ints(r@) == pitches(flat, ids(boxes@)),
        forall|k: int| 0 <= k < r@.len() ==> -0x1_0000_0000_0000_0000 <= #[trigger] r@[k] <= 0x1_0000_0000_0000_0000,
{
    let mut r: Vec<i128> = Vec::new();
    let mut i: usize = 0;
    while boxes.len() - i > 1
        invariant
            i <= boxes@.len(),
            i < boxes@.len() || i == 0,
            r@.len() == i,
            all_describe(boxes@, flat),
            forall|k: int| 0 <= k < r@.len() ==> -0x1_0000_0000_0000_0000 <= #[trigger] r@[k] <= 0x1_0000_0000_0000_0000,
            forall|k: int|
                0 <= k < i ==> #[trigger] r@[k] == top_of(flat, ids(boxes@)[k + 1]) - top_of(flat, ids(boxes@)[k]),
        decreases boxes@.len() - i,
    {
        assert(boxes@[i as int].describes(flat) && boxes@[i + 1].describes(flat));
        r.push((boxes[i + 1].top as i128) - (boxes[i].top as i128));
        i = i + 1;
    }
    assert(ints(r@) =~= pitches(flat, ids(boxes@)));
    r
}

fn goes_on(
    flat: &[FlatWord],
    cal: DocCalibration,
    usual: i128,
    boxes: &Vec<LineBox>,
    i: usize,
) -> (r: bool)
    requires
        all_describe(boxes@, flat@),
        i + 1 < boxes@.len(),
        usual == usual_pitch(flat@, ids(boxes@)),
        0 <= usual <= 0x1_0000_0000_0000_0000,
    ensures
        r == joined(flat@, cal, ids(boxes@), i as int),
{
    let n = boxes.len();
    assert(i + 1 < n);
    assert(boxes@[i as int].describes(flat@) && boxes@[i + 1].describes(flat@));
    let a = &boxes[i];
    let b = &boxes[i + 1];
    let pitch: i128 = (b.top as i128) - (a.top as i128);
    if 100 * pitch > 135 * usual {
        return false;
    }
    let indent: i128 = (b.left as i128) - (a.left as i128);
    indent <= cal.paragraph_indent_cqw as i128 || !ends_sentence(flat, a.line)
}

pub(crate) fn find_line(boxes: &Vec<LineBox>, line: usize) -> (r: Option<usize>)
    ensures
        match r {
            Some(k) => k < boxes@.len() && ids(boxes@).contains(line) && boxes@[k as int].line == line && forall|j: int|
                0 <= j < k ==> boxes@[j].line != line,
            None => !ids(boxes@).contains(line),
        },
{
    let mut i: usize = 0;
    while i < boxes.len()
        invariant
            i <= boxes@.len(),
            forall|k: int| 0 <= k < i ==> ids(boxes@)[k] != line,
            forall|k: int| 0 <= k < i ==> boxes@[k].line != line,
        decreases boxes@.len() - i,
    {
        if boxes[i].line == line {
            assert(ids(boxes@)[i as int] == line);
            return Some(i);
        }
        i = i + 1;
    }
    None
}

pub(crate) proof fn lemma_column_by_top(flat: Seq<FlatWord>, gap: int, col: nat, line: usize)
    requires
        column_of(flat, gap, line) == Some(col as usize),
        col <= usize::MAX,
    ensures
        column_by_top(flat, gap, col).no_duplicates(),
        column_by_top(flat, gap, col).contains(line),
        forall|k: int|
            0 <= k < column_by_top(flat, gap, col).len() ==> column_of(
                flat,
                gap,
                #[trigger] column_by_top(flat, gap, col)[k],
            ) == Some(col as usize),
{
    broadcast use vstd::seq_lib::group_to_multiset_ensures;

    let s = column_lines(flat, gap, col);
    let t = column_by_top(flat, gap, col);
    let key = crate::lines::by_top(flat);
    crate::lines::column_lines_are_the_lines_of_the_column(flat, gap, col);
    stable_sort_is_sorted_permutation(s, key);
    s.lemma_multiset_has_no_duplicates();
    t.lemma_multiset_has_no_duplicates_conv();
    stable_sort_contains(s, key, line);
    assert forall|k: int| 0 <= k < t.len() implies column_of(flat, gap, #[trigger] t[k]) == Some(
        col as usize,
    ) by {
        stable_sort_contains(s, key, t[k]);
        assert(t.contains(t[k]));
    }
}

pub(crate) proof fn lemma_first_on_line(flat: Seq<FlatWord>, line: usize, from: int, k: int)
    requires
        0 <= from <= k < flat.len(),
        flat[k].line == line,
    ensures
        first_on_line(flat, line, from) is Some,
        from <= first_on_line(flat, line, from)->0 <= k,
        flat[first_on_line(flat, line, from)->0].line == line,
    decreases k - from,
{
    if flat[from].line != line {
        lemma_first_on_line(flat, line, from + 1, k);
    }
}

pub(crate) proof fn lemma_last_on_line(flat: Seq<FlatWord>, line: usize, n: int, k: int)
    requires
        0 <= k < n <= flat.len(),
        flat[k].line == line,
    ensures
        last_on_line(flat, line, n) is Some,
        k <= last_on_line(flat, line, n)->0 < n,
        flat[last_on_line(flat, line, n)->0].line == line,
    decreases n,
{
    if flat[n - 1].line != line {
        lemma_last_on_line(flat, line, n - 1, k);
    }
}

pub(crate) proof fn lemma_joined_bounds(flat: Seq<FlatWord>, cal: DocCalibration, ls: Seq<usize>, i: int)
    requires
        0 <= i < ls.len(),
    ensures
        0 <= first_joined(flat, cal, ls, i) <= i,
    decreases i,
{
    if i > 0 && joined(flat, cal, ls, i - 1) {
        lemma_joined_bounds(flat, cal, ls, i - 1);
    }
}

pub(crate) proof fn lemma_last_joined_bounds(flat: Seq<FlatWord>, cal: DocCalibration, ls: Seq<usize>, i: int)
    requires
        0 <= i < ls.len(),
    ensures
        i <= last_joined(flat, cal, ls, i) < ls.len(),
    decreases ls.len() - i,
{
    if i + 1 < ls.len() && joined(flat, cal, ls, i) {
        lemma_last_joined_bounds(flat, cal, ls, i + 1);
    }
}

/// A paragraph lies on its page, starts in the column of the place and ends in
/// it.
pub proof fn paragraph_stays_in_its_column(flat: Seq<FlatWord>, idx: int, cal: DocCalibration)
    requires
        0 <= idx,
        flat.len() > 0,
    ensures
        0 <= paragraph(flat, idx, cal).0 < flat.len(),
        0 <= paragraph(flat, idx, cal).1 < flat.len(),
        column_at(flat, cal.column_gap_cqw as int, snapped(flat, idx)) is Some ==> column_at(
            flat,
            cal.column_gap_cqw as int,
            paragraph(flat, idx, cal).0,
        ) == column_at(flat, cal.column_gap_cqw as int, snapped(flat, idx)) && column_at(
            flat,
            cal.column_gap_cqw as int,
            paragraph(flat, idx, cal).1,
        ) == column_at(flat, cal.column_gap_cqw as int, snapped(flat, idx)),
{
    crate::selection::snapping_lands_on_a_word(flat, idx);
    let gap = cal.column_gap_cqw as int;
    let line = flat[snapped(flat, idx)].line;
    match column_of(flat, gap, line) {
        None => {},
        Some(c) => {
            let ls = column_by_top(flat, gap, c as nat);
            lemma_column_by_top(flat, gap, c as nat, line);
            let at = ls.index_of(line);
            lemma_joined_bounds(flat, cal, ls, at);
            lemma_last_joined_bounds(flat, cal, ls, at);
            let u = ls[first_joined(flat, cal, ls, at)];
            let l = ls[last_joined(flat, cal, ls, at)];
            every_inked_line_has_a_column(flat, gap, u);
            every_inked_line_has_a_column(flat, gap, l);
            line_extent(flat, u);
            line_extent(flat, l);
            let ku = choose|k: int| 0 <= k < flat.len() && #[trigger] ink_at(flat, u, k);
            let kl = choose|k: int| 0 <= k < flat.len() && #[trigger] ink_at(flat, l, k);
            lemma_first_on_line(flat, u, 0, ku);
            lemma_last_on_line(flat, l, flat.len() as int, kl);
        },
    }
}

/// The words of the paragraph round place `idx`.
pub fn paragraph_range_with(flat: &[FlatWord], idx: usize, cal: DocCalibration) -> (r: (
    usize,
    usize,
))
    ensures
        r.0 == paragraph(flat@, idx as int, cal).0,
        r.1 == paragraph(flat@, idx as int, cal).1,
        flat@.len() > 0 ==> r.0 < flat@.len() && r.1 < flat@.len(),
{
    if flat.len() == 0 {
        return (0, 0);
    }
    let ghost gap = cal.column_gap_cqw as int;
    let at = snap_to_word(flat, idx);
    let line = flat[at].line;
    let layout = PageLayout::new_with(flat, cal);
    let col = match layout.col_of(flat, at) {
        Some(c) => c,
        None => {
            return (0, flat.len() - 1);
        },
    };
    let boxes = column_boxes_by_top(flat, cal.column_gap_cqw, col);
    let ghost ls = ids(boxes@);
    proof {
        lemma_column_by_top(flat@, gap, col as nat, line);
        paragraph_stays_in_its_column(flat@, idx as int, cal);
    }
    let pos = match find_line(&boxes, line) {
        Some(p) => p,
        None => {
            return (0, flat.len() - 1);
        },
    };
    assert(ls.index_of(line) == pos) by {
        assert(ls[pos as int] == line);
    }
    let pitch = box_pitches(&boxes, Ghost(flat@));
    let low = lower_median_of(&pitch);
    proof {
        if pitch@.len() > 0 {
            let k = choose|k: int| 0 <= k < pitch@.len() && pitch@[k] == low;
            assert(pitch@[k] == low);
        }
    }
    let usual: i128 = if low >= 1_000 {
        low
    } else {
        1_000
    };
    let mut i = pos;
    while i > 0
        invariant
            i <= pos < boxes@.len(),
            all_describe(boxes@, flat@),
            ls == ids(boxes@),
            usual == usual_pitch(flat@, ls),
            0 <= usual <= 0x1_0000_0000_0000_0000,
            first_joined(flat@, cal, ls, pos as int) == first_joined(flat@, cal, ls, i as int),
        ensures
            i == first_joined(flat@, cal, ls, pos as int),
            i <= pos,
        decreases i,
    {
        if !goes_on(flat, cal, usual, &boxes, i - 1) {
            break;
        }
        i = i - 1;
    }
    let mut j = pos;
    while boxes.len() - j > 1
        invariant
            pos <= j < boxes@.len(),
            all_describe(boxes@, flat@),
            ls == ids(boxes@),
            ls.len() == boxes@.len(),
            usual == usual_pitch(flat@, ls),
            0 <= usual <= 0x1_0000_0000_0000_0000,
            last_joined(flat@, cal, ls, pos as int) == last_joined(flat@, cal, ls, j as int),
        ensures
            j == last_joined(flat@, cal, ls, pos as int),
            j < boxes@.len(),
        decreases boxes@.len() - j,
    {
        if !goes_on(flat, cal, usual, &boxes, j) {
            break;
        }
        j = j + 1;
    }
    let start = match find_first_on_line(flat, boxes[i].line) {
        Some(k) => k,
        None => 0,
    };
    let end = match find_last_on_line(flat, boxes[j].line) {
        Some(k) => k,
        None => flat.len() - 1,
    };
    (start, end)
}

fn find_first_on_line(flat: &[FlatWord], line: usize) -> (r: Option<usize>)
    ensures
        match r {
            Some(k) => first_on_line(flat@, line, 0) == Some(k as int) && k < flat@.len(),
            None => first_on_line(flat@, line, 0) is None,
        },
{
    let mut i: usize = 0;
    while i < flat.len()
        invariant
            i <= flat@.len(),
            first_on_line(flat@, line, 0) == first_on_line(flat@, line, i as int),
        decreases flat@.len() - i,
    {
        if flat[i].line == line {
            return Some(i);
        }
        i = i + 1;
    }
    None
}

fn find_last_on_line(flat: &[FlatWord], line: usize) -> (r: Option<usize>)
    ensures
        match r {
            Some(k) => last_on_line(flat@, line, flat@.len() as int) == Some(k as int) && k < flat@.len(),
            None => last_on_line(flat@, line, flat@.len() as int) is None,
        },
{
    let mut i = flat.len();
    while i > 0
        invariant
            i <= flat@.len(),
            last_on_line(flat@, line, flat@.len() as int) == last_on_line(flat@, line, i as int),
        decreases i,
    {
        if flat[i - 1].line == line {
            return Some(i - 1);
        }
        i = i - 1;
    }
    None
}

/// As `paragraph_range_with`, with the usual thresholds.
pub fn paragraph_range(flat: &[FlatWord], idx: usize) -> (r: (usize, usize))
    ensures
        r.0 == paragraph(flat@, idx as int, default_calibration()).0,
        r.1 == paragraph(flat@, idx as int, default_calibration()).1,
        flat@.len() > 0 ==> r.0 < flat@.len() && r.1 < flat@.len(),
{
    paragraph_range_with(flat, idx, DocCalibration::default())
}

} // verus!
