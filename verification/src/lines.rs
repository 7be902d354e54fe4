//! The lines of a page and the columns that they form.
use crate::page_text::{default_calibration, ink_at, inked, is_inked, DocCalibration, FlatWord, CQW};
use crate::sorting::{sort_by_key, stable_sort, stable_sort_contains, stable_sort_is_sorted_permutation, stable_sort_map};
use std::collections::HashMap;
use vstd::prelude::*;

verus! {

broadcast use vstd::std_specs::hash::group_hash_axioms;

pub open spec fn smaller(a: int, b: int) -> int {
    if a <= b {
        a
    } else {
        b
    }
}

pub open spec fn larger(a: int, b: int) -> int {
    if a >= b {
        a
    } else {
        b
    }
}

pub open spec fn magnitude(a: int) -> int {
    if a >= 0 {
        a
    } else {
        -a
    }
}

// ── what the first `n` words say of one line ──

/// How many of them show something on the line.
pub open spec fn words_upto(flat: Seq<FlatWord>, line: usize, n: nat) -> nat
    decreases n,
{
    if n == 0 {
        0
    } else if ink_at(flat, line, n - 1) {
        words_upto(flat, line, (n - 1) as nat) + 1
    } else {
        words_upto(flat, line, (n - 1) as nat)
    }
}

/// Their leftmost edge on the line.
pub open spec fn left_upto(flat: Seq<FlatWord>, line: usize, n: nat) -> int
    decreases n,
{
    if n == 0 {
        0
    } else {
        let before = left_upto(flat, line, (n - 1) as nat);
        if !ink_at(flat, line, n - 1) {
            before
        } else if words_upto(flat, line, (n - 1) as nat) == 0 {
            flat[n - 1].left_cqw as int
        } else {
            smaller(before, flat[n - 1].left_cqw as int)
        }
    }
}

/// Their rightmost edge on the line.
pub open spec fn right_upto(flat: Seq<FlatWord>, line: usize, n: nat) -> int
    decreases n,
{
    if n == 0 {
        0
    } else {
        let before = right_upto(flat, line, (n - 1) as nat);
        let edge = flat[n - 1].left_cqw + flat[n - 1].width_cqw;
        if !ink_at(flat, line, n - 1) {
            before
        } else if words_upto(flat, line, (n - 1) as nat) == 0 {
            edge
        } else {
            larger(before, edge)
        }
    }
}

/// Their topmost edge on the line.
pub open spec fn top_upto(flat: Seq<FlatWord>, line: usize, n: nat) -> int
    decreases n,
{
    if n == 0 {
        0
    } else {
        let before = top_upto(flat, line, (n - 1) as nat);
        if !ink_at(flat, line, n - 1) {
            before
        } else if words_upto(flat, line, (n - 1) as nat) == 0 {
            flat[n - 1].top_cqw as int
        } else {
            smaller(before, flat[n - 1].top_cqw as int)
        }
    }
}

/// The largest line height that they give the line, 0 at least.
pub open spec fn height_upto(flat: Seq<FlatWord>, line: usize, n: nat) -> int
    decreases n,
{
    if n == 0 {
        0
    } else {
        let before = height_upto(flat, line, (n - 1) as nat);
        if ink_at(flat, line, n - 1) {
            larger(before, flat[n - 1].line_height_cqw as int)
        } else {
            before
        }
    }
}

/// The line height that the first of them gives the line.
pub open spec fn first_height_upto(flat: Seq<FlatWord>, line: usize, n: nat) -> int
    decreases n,
{
    if n == 0 {
        0
    } else {
        let before = first_height_upto(flat, line, (n - 1) as nat);
        if ink_at(flat, line, n - 1) && words_upto(flat, line, (n - 1) as nat) == 0 {
            flat[n - 1].line_height_cqw as int
        } else {
            before
        }
    }
}

// ── one line of a page ──

/// The line shows something.
pub open spec fn line_shows(flat: Seq<FlatWord>, line: usize) -> bool {
    words_upto(flat, line, flat.len()) > 0
}

pub open spec fn left_of(flat: Seq<FlatWord>, line: usize) -> int {
    left_upto(flat, line, flat.len())
}

pub open spec fn right_of(flat: Seq<FlatWord>, line: usize) -> int {
    right_upto(flat, line, flat.len())
}

pub open spec fn top_of(flat: Seq<FlatWord>, line: usize) -> int {
    top_upto(flat, line, flat.len())
}

pub open spec fn height_of(flat: Seq<FlatWord>, line: usize) -> int {
    height_upto(flat, line, flat.len())
}

pub open spec fn first_height_of(flat: Seq<FlatWord>, line: usize) -> int {
    first_height_upto(flat, line, flat.len())
}

/// How wide the line is, 0 at least.
pub open spec fn width_of(flat: Seq<FlatWord>, line: usize) -> int {
    larger(right_of(flat, line) - left_of(flat, line), 0)
}

proof fn lemma_extent_upto(flat: Seq<FlatWord>, line: usize, n: nat)
    requires
        n <= flat.len(),
    ensures
        words_upto(flat, line, n) > 0 <==> exists|k: int|
            0 <= k < n && #[trigger] ink_at(flat, line, k),
        forall|k: int|
            0 <= k < n && #[trigger] ink_at(flat, line, k) ==> left_upto(flat, line, n)
                <= flat[k].left_cqw && flat[k].left_cqw + flat[k].width_cqw <= right_upto(
                flat,
                line,
                n,
            ) && top_upto(flat, line, n) <= flat[k].top_cqw && flat[k].line_height_cqw
                <= height_upto(flat, line, n),
        words_upto(flat, line, n) > 0 ==> exists|k: int|
            0 <= k < n && #[trigger] ink_at(flat, line, k) && flat[k].left_cqw == left_upto(
                flat,
                line,
                n,
            ),
        words_upto(flat, line, n) > 0 ==> exists|k: int|
            0 <= k < n && #[trigger] ink_at(flat, line, k) && flat[k].top_cqw == top_upto(
                flat,
                line,
                n,
            ),
    decreases n,
{
    if n > 0 {
        lemma_extent_upto(flat, line, (n - 1) as nat);
        if ink_at(flat, line, n - 1) {
            assert(0 <= n - 1 < n && ink_at(flat, line, n - 1));
        }
    }
}

/// A line shows something exactly when one of its words does; then it reaches
/// round all those words, and its left and top edges are edges of such words.
pub proof fn line_extent(flat: Seq<FlatWord>, line: usize)
    ensures
        line_shows(flat, line) <==> exists|k: int|
            0 <= k < flat.len() && #[trigger] ink_at(flat, line, k),
        forall|k: int|
            0 <= k < flat.len() && #[trigger] ink_at(flat, line, k) ==> left_of(flat, line)
                <= flat[k].left_cqw && flat[k].left_cqw + flat[k].width_cqw <= right_of(flat, line)
                && top_of(flat, line) <= flat[k].top_cqw && flat[k].line_height_cqw <= height_of(
                flat,
                line,
            ),
        line_shows(flat, line) ==> exists|k: int|
            0 <= k < flat.len() && #[trigger] ink_at(flat, line, k) && flat[k].left_cqw == left_of(
                flat,
                line,
            ),
        line_shows(flat, line) ==> exists|k: int|
            0 <= k < flat.len() && #[trigger] ink_at(flat, line, k) && flat[k].top_cqw == top_of(
                flat,
                line,
            ),
{
    lemma_extent_upto(flat, line, flat.len());
}

/// The place and size of one line.
#[derive(Clone, Copy)]
pub struct LineBox {
    pub line: usize,
    pub left: i64,
    pub right: i128,
    pub top: i64,
    pub height: i64,
    pub first_height: i64,
}

impl LineBox {
    /// The box is that of its line in `flat`.
    pub open spec fn describes(self, flat: Seq<FlatWord>) -> bool {
        &&& line_shows(flat, self.line)
        &&& self.left == left_of(flat, self.line)
        &&& self.right == right_of(flat, self.line)
        &&& self.top == top_of(flat, self.line)
        &&& self.height == height_of(flat, self.line)
        &&& self.first_height == first_height_of(flat, self.line)
        &&& -0x1_0000_0000_0000_0000 <= self.right <= 0x1_0000_0000_0000_0000
    }

    /// The line's width.
    pub fn width(&self) -> (r: i128)
        requires
            -0x1_0000_0000_0000_0000 <= self.right <= 0x1_0000_0000_0000_0000,
        ensures
            r == larger(self.right - self.left, 0),
            0 <= r <= 0x2_0000_0000_0000_0000,
    {
        let w: i128 = self.right - (self.left as i128);
        if w >= 0 {
            w
        } else {
            0
        }
    }
}

/// The box of `line`; none where the line shows nothing.
pub fn line_box(flat: &[FlatWord], line: usize) -> (r: Option<LineBox>)
    ensures
        match r {
            Some(b) => b.line == line && b.describes(flat@),
            None => !line_shows(flat@, line),
        },
{
    let mut words: usize = 0;
    let mut b = LineBox { line, left: 0, right: 0, top: 0, height: 0, first_height: 0 };
    let mut i: usize = 0;
    while i < flat.len()
        invariant
            i <= flat@.len(),
            words <= i,
            b.line == line,
            words == words_upto(flat@, line, i as nat),
            b.left == left_upto(flat@, line, i as nat),
            b.right == right_upto(flat@, line, i as nat),
            b.top == top_upto(flat@, line, i as nat),
            b.height == height_upto(flat@, line, i as nat),
            b.first_height == first_height_upto(flat@, line, i as nat),
            -0x1_0000_0000_0000_0000 <= b.right <= 0x1_0000_0000_0000_0000,
        decreases flat@.len() - i,
    {
        let w = &flat[i];
        if w.line == line && is_inked(w) {
            let edge: i128 = (w.left_cqw as i128) + (w.width_cqw as i128);
            if words == 0 {
                b.left = w.left_cqw;
                b.right = edge;
                b.top = w.top_cqw;
                b.first_height = w.line_height_cqw;
            } else {
                if w.left_cqw < b.left {
                    b.left = w.left_cqw;
                }
                if edge > b.right {
                    b.right = edge;
                }
                if w.top_cqw < b.top {
                    b.top = w.top_cqw;
                }
            }
            if w.line_height_cqw > b.height {
                b.height = w.line_height_cqw;
            }
            words = words + 1;
        }
        i = i + 1;
    }
    if words == 0 {
        None
    } else {
        Some(b)
    }
}

// ── the lines of a page ──

/// The lines on which the first `n` words show something, in the order in which
/// they first do.
pub open spec fn lines_upto(flat: Seq<FlatWord>, n: nat) -> Seq<usize>
    decreases n,
{
    if n == 0 {
        Seq::empty()
    } else {
        let before = lines_upto(flat, (n - 1) as nat);
        if inked(flat[n - 1]) && !before.contains(flat[n - 1].line) {
            before.push(flat[n - 1].line)
        } else {
            before
        }
    }
}

/// The lines of the page that show something.
pub open spec fn inked_lines(flat: Seq<FlatWord>) -> Seq<usize> {
    lines_upto(flat, flat.len())
}

/// A line's left edge, as a sorting key.
pub open spec fn by_left(flat: Seq<FlatWord>) -> spec_fn(usize) -> int {
    |l: usize| left_of(flat, l)
}

/// A line's top edge, as a sorting key.
pub open spec fn by_top(flat: Seq<FlatWord>) -> spec_fn(usize) -> int {
    |l: usize| top_of(flat, l)
}

/// The lines from left to right.
pub open spec fn lines_by_left(flat: Seq<FlatWord>) -> Seq<usize> {
    stable_sort(inked_lines(flat), by_left(flat))
}

proof fn lemma_lines_upto(flat: Seq<FlatWord>, n: nat)
    requires
        n <= flat.len(),
    ensures
        lines_upto(flat, n).no_duplicates(),
        lines_upto(flat, n).len() <= n,
        forall|l: usize|
            #[trigger]
            lines_upto(flat, n).contains(l) <==> exists|k: int|
                0 <= k < n && #[trigger] ink_at(flat, l, k),
    decreases n,
{
    if n > 0 {
        lemma_lines_upto(flat, (n - 1) as nat);
        let before = lines_upto(flat, (n - 1) as nat);
        let now = lines_upto(flat, n);
        let w = flat[n - 1];
        assert forall|l: usize| #[trigger]
            now.contains(l) <==> exists|k: int| 0 <= k < n && #[trigger] ink_at(flat, l, k) by {
            if now.contains(l) {
                if before.contains(l) {
                    let k = choose|k: int| 0 <= k < n - 1 && #[trigger] ink_at(flat, l, k);
                    assert(ink_at(flat, l, k));
                } else {
                    let j = choose|j: int| 0 <= j < now.len() && now[j] == l;
                    assert(l == w.line && inked(w)) by {
                        if j < before.len() {
                            assert(before[j] == l);
                        }
                    }
                    assert(ink_at(flat, l, n - 1));
                }
            }
            if exists|k: int| 0 <= k < n && #[trigger] ink_at(flat, l, k) {
                let k = choose|k: int| 0 <= k < n && #[trigger] ink_at(flat, l, k);
                if k < n - 1 {
                    assert(before.contains(l));
                    let j = choose|j: int| 0 <= j < before.len() && before[j] == l;
                    assert(now[j] == l);
                } else if !before.contains(l) {
                    assert(now[now.len() - 1] == l);
                } else {
                    let j = choose|j: int| 0 <= j < before.len() && before[j] == l;
                    assert(now[j] == l);
                }
            }
        }
    }
}

/// The lines from left to right are exactly the lines that show something, each
/// once.
pub proof fn lines_by_left_are_the_inked_lines(flat: Seq<FlatWord>)
    ensures
        lines_by_left(flat).no_duplicates(),
        lines_by_left(flat).len() == inked_lines(flat).len(),
        lines_by_left(flat).len() <= flat.len(),
        forall|l: usize|
            #[trigger] lines_by_left(flat).contains(l) <==> line_shows(flat, l),
{
    broadcast use vstd::seq_lib::group_to_multiset_ensures;

    let s = inked_lines(flat);
    let t = lines_by_left(flat);
    lemma_lines_upto(flat, flat.len());
    stable_sort_is_sorted_permutation(s, by_left(flat));
    s.lemma_multiset_has_no_duplicates();
    t.lemma_multiset_has_no_duplicates_conv();
    assert forall|l: usize| #[trigger] t.contains(l) <==> line_shows(flat, l) by {
        stable_sort_contains(s, by_left(flat), l);
        line_extent(flat, l);
    }
}

/// The ids of some boxes.
pub open spec fn ids(boxes: Seq<LineBox>) -> Seq<usize> {
    boxes.map_values(|b: LineBox| b.line)
}

/// Every box is that of its line.
pub open spec fn all_describe(boxes: Seq<LineBox>, flat: Seq<FlatWord>) -> bool {
    forall|k: int| 0 <= k < boxes.len() ==> (#[trigger] boxes[k]).describes(flat)
}

fn box_left(b: LineBox) -> (k: i128)
    ensures
        k == b.left,
{
    b.left as i128
}

fn box_top(b: LineBox) -> (k: i128)
    ensures
        k == b.top,
{
    b.top as i128
}

fn holds_line(boxes: &Vec<LineBox>, line: usize) -> (r: bool)
    ensures
        r == ids(boxes@).contains(line),
{
    let mut i: usize = 0;
    while i < boxes.len()
        invariant
            i <= boxes@.len(),
            forall|k: int| 0 <= k < i ==> ids(boxes@)[k] != line,
        decreases boxes@.len() - i,
    {
        if boxes[i].line == line {
            assert(ids(boxes@)[i as int] == line);
            return true;
        }
        i = i + 1;
    }
    false
}

/// The boxes of the lines that show something, in the order of their first word.
pub fn line_boxes(flat: &[FlatWord]) -> (boxes: Vec<LineBox>)
    ensures
        ids(boxes@) == inked_lines(flat@),
        all_describe(boxes@, flat@),
{
    let mut boxes: Vec<LineBox> = Vec::new();
    let mut i: usize = 0;
    assert(ids(boxes@) =~= lines_upto(flat@, 0));
    while i < flat.len()
        invariant
            i <= flat@.len(),
            ids(boxes@) == lines_upto(flat@, i as nat),
            all_describe(boxes@, flat@),
        decreases flat@.len() - i,
    {
        let w = &flat[i];
        if is_inked(w) && !holds_line(&boxes, w.line) {
            match line_box(flat, w.line) {
                Some(b) => {
                    let ghost before = boxes@;
                    boxes.push(b);
                    assert(ids(boxes@) =~= ids(before).push(w.line));
                },
                None => {
                    proof {
                        assert(ink_at(flat@, w.line, i as int));
                        line_extent(flat@, w.line);
                    }
                },
            }
        }
        i = i + 1;
    }
    boxes
}

proof fn lemma_sorted_boxes(boxes: Seq<LineBox>, flat: Seq<FlatWord>, key: spec_fn(LineBox) -> int)
    requires
        all_describe(boxes, flat),
    ensures
        all_describe(stable_sort(boxes, key), flat),
{
    let s = stable_sort(boxes, key);
    assert forall|k: int| 0 <= k < s.len() implies (#[trigger] s[k]).describes(flat) by {
        stable_sort_contains(boxes, key, s[k]);
        assert(s.contains(s[k]));
        let j = choose|j: int| 0 <= j < boxes.len() && boxes[j] == s[k];
        assert(boxes[j].describes(flat));
    }
}

/// The boxes in ascending order of their left edges.
pub(crate) fn sort_by_left(boxes: &Vec<LineBox>, Ghost(flat): Ghost<Seq<FlatWord>>) -> (out: Vec<LineBox>)
    requires
        all_describe(boxes@, flat),
    ensures
        ids(out@) == stable_sort(ids(boxes@), by_left(flat)),
        all_describe(out@, flat),
{
    let ghost key = |b: LineBox| b.left as int;
    let out = sort_by_key(boxes, box_left, Ghost(key));
    proof {
        stable_sort_map(boxes@, |b: LineBox| b.line, key, by_left(flat));
        lemma_sorted_boxes(boxes@, flat, key);
    }
    out
}

/// The boxes in ascending order of their top edges.
pub(crate) fn sort_by_top(boxes: &Vec<LineBox>, Ghost(flat): Ghost<Seq<FlatWord>>) -> (out: Vec<LineBox>)
    requires
        all_describe(boxes@, flat),
    ensures
        ids(out@) == stable_sort(ids(boxes@), by_top(flat)),
        all_describe(out@, flat),
{
    let ghost key = |b: LineBox| b.top as int;
    let out = sort_by_key(boxes, box_top, Ghost(key));
    proof {
        stable_sort_map(boxes@, |b: LineBox| b.line, key, by_top(flat));
        lemma_sorted_boxes(boxes@, flat, key);
    }
    out
}

// ── columns ──

/// The number of the column of line `k`, counted from the left: a line starts a
/// new column where its left edge is more than `gap` right of the line before.
pub open spec fn column_number(flat: Seq<FlatWord>, gap: int, k: nat) -> nat
    decreases k,
{
    if k == 0 {
        0
    } else {
        let s = lines_by_left(flat);
        let before = column_number(flat, gap, (k - 1) as nat);
        if left_of(flat, s[k as int]) - left_of(flat, s[k - 1]) > gap {
            before + 1
        } else {
            before
        }
    }
}

/// The columns of the first `n` lines.
pub open spec fn column_map_upto(flat: Seq<FlatWord>, gap: int, n: nat) -> Map<usize, usize>
    decreases n,
{
    if n == 0 {
        Map::empty()
    } else {
        column_map_upto(flat, gap, (n - 1) as nat).insert(
            lines_by_left(flat)[n - 1],
            column_number(flat, gap, (n - 1) as nat) as usize,
        )
    }
}

/// Which column each line belongs to.
pub open spec fn column_map(flat: Seq<FlatWord>, gap: int) -> Map<usize, usize> {
    column_map_upto(flat, gap, lines_by_left(flat).len())
}

/// The column of `line`; none where the line shows nothing.
pub open spec fn column_of(flat: Seq<FlatWord>, gap: int, line: usize) -> Option<usize> {
    if column_map(flat, gap).contains_key(line) {
        Some(column_map(flat, gap)[line])
    } else {
        None
    }
}

/// The left edges of the columns that the first `n` lines form.
pub open spec fn column_lefts_upto(flat: Seq<FlatWord>, gap: int, n: nat) -> Seq<i64>
    decreases n,
{
    if n == 0 {
        Seq::empty()
    } else {
        let before = column_lefts_upto(flat, gap, (n - 1) as nat);
        if n == 1 || column_number(flat, gap, (n - 1) as nat) != column_number(
            flat,
            gap,
            (n - 2) as nat,
        ) {
            before.push(left_of(flat, lines_by_left(flat)[n - 1]) as i64)
        } else {
            before
        }
    }
}

/// The left edges of the columns.
pub open spec fn column_lefts(flat: Seq<FlatWord>, gap: int) -> Seq<i64> {
    column_lefts_upto(flat, gap, lines_by_left(flat).len())
}

/// The lines of column `col` among the first `n`, from left to right.
pub open spec fn column_lines_upto(flat: Seq<FlatWord>, gap: int, col: nat, n: nat) -> Seq<usize>
    decreases n,
{
    if n == 0 {
        Seq::empty()
    } else {
        let before = column_lines_upto(flat, gap, col, (n - 1) as nat);
        if column_number(flat, gap, (n - 1) as nat) == col {
            before.push(lines_by_left(flat)[n - 1])
        } else {
            before
        }
    }
}

/// The lines of column `col`, from left to right.
pub open spec fn column_lines(flat: Seq<FlatWord>, gap: int, col: nat) -> Seq<usize> {
    column_lines_upto(flat, gap, col, lines_by_left(flat).len())
}

/// The lines of column `col`, from top to bottom.
pub open spec fn column_by_top(flat: Seq<FlatWord>, gap: int, col: nat) -> Seq<usize> {
    stable_sort(column_lines(flat, gap, col), by_top(flat))
}

/// All lines of the page, from top to bottom.
pub open spec fn lines_by_top(flat: Seq<FlatWord>) -> Seq<usize> {
    stable_sort(lines_by_left(flat), by_top(flat))
}

/// How many columns there are.
pub open spec fn column_count(flat: Seq<FlatWord>, gap: int) -> nat {
    column_lefts(flat, gap).len()
}

pub proof fn lemma_column_number(flat: Seq<FlatWord>, gap: int, k: nat)
    ensures
        column_number(flat, gap, k) <= k,
        column_lefts_upto(flat, gap, (k + 1) as nat).len() == column_number(flat, gap, k) + 1,
    decreases k,
{
    if k > 0 {
        lemma_column_number(flat, gap, (k - 1) as nat);
    } else {
        assert(column_lefts_upto(flat, gap, 0).len() == 0);
    }
}

pub proof fn lemma_column_number_monotone(flat: Seq<FlatWord>, gap: int, a: nat, b: nat)
    requires
        a <= b,
    ensures
        column_number(flat, gap, a) <= column_number(flat, gap, b),
    decreases b,
{
    if a < b {
        lemma_column_number_monotone(flat, gap, a, (b - 1) as nat);
    }
}

pub proof fn lemma_column_map_upto(flat: Seq<FlatWord>, gap: int, n: nat)
    requires
        n <= lines_by_left(flat).len(),
    ensures
        forall|l: usize|
            #[trigger] column_map_upto(flat, gap, n).contains_key(l) <==> exists|k: int|
                0 <= k < n && #[trigger] lines_by_left(flat)[k] == l,
        forall|k: int|
            0 <= k < n ==> column_map_upto(flat, gap, n)[#[trigger] lines_by_left(flat)[k]]
                == column_number(flat, gap, k as nat),
    decreases n,
{
    lines_by_left_are_the_inked_lines(flat);
    if n > 0 {
        lemma_column_map_upto(flat, gap, (n - 1) as nat);
        lemma_column_number(flat, gap, (n - 1) as nat);
        let s = lines_by_left(flat);
        assert(column_number(flat, gap, (n - 1) as nat) <= usize::MAX) by {
            assert(s.len() <= flat.len());
            lemma_flat_len(flat, (n - 1) as nat);
        }
    }
}

proof fn lemma_flat_len(flat: Seq<FlatWord>, k: nat)
    requires
        k < lines_by_left(flat).len(),
    ensures
        k <= usize::MAX,
{
    lines_by_left_are_the_inked_lines(flat);
    let s = lines_by_left(flat);
    assert(s.no_duplicates());
    // Distinct line numbers: there are no more of them than numbers.
    lemma_distinct_numbers(s, (usize::MAX + 1) as nat);
}

proof fn lemma_distinct_numbers(s: Seq<usize>, bound: nat)
    requires
        s.no_duplicates(),
        forall|k: int| 0 <= k < s.len() ==> #[trigger] s[k] < bound,
    ensures
        s.len() <= bound,
{
    s.unique_seq_to_set();
    let small = vstd::set_lib::set_int_range(0, bound as int);
    vstd::set_lib::lemma_int_range(0, bound as int);
    let f = |x: usize| x as int;
    let image = s.to_set().map(f);
    assert forall|x: int| image.contains(x) implies small.contains(x) by {
        let u = choose|u: usize| s.to_set().contains(u) && f(u) == x;
        assert(s.contains(u));
    }
    assert(vstd::relations::injective_on(f, s.to_set()));
    vstd::set_lib::lemma_map_size(s.to_set(), image, f);
    vstd::set_lib::lemma_len_subset(image, small);
}

/// The numbers of the columns of boxes that stand from left to right.
pub(crate) fn column_numbers(
    boxes: &Vec<LineBox>,
    gap: i64,
    Ghost(flat): Ghost<Seq<FlatWord>>,
) -> (cols: Vec<usize>)
    requires
        all_describe(boxes@, flat),
        ids(boxes@) == lines_by_left(flat),
    ensures
        cols@.len() == boxes@.len(),
        forall|k: int| 0 <= k < cols@.len() ==> #[trigger] cols@[k] == column_number(flat, gap as int, k as nat),
{
    let mut cols: Vec<usize> = Vec::new();
    let mut i: usize = 0;
    while i < boxes.len()
        invariant
            i <= boxes@.len(),
            cols@.len() == i,
            all_describe(boxes@, flat),
            ids(boxes@) == lines_by_left(flat),
            forall|k: int| 0 <= k < i ==> #[trigger] cols@[k] == column_number(flat, gap as int, k as nat),
        decreases boxes@.len() - i,
    {
        if i == 0 {
            cols.push(0);
        } else {
            proof {
                lemma_column_number(flat, gap as int, (i - 1) as nat);
                assert(ids(boxes@)[i as int] == boxes@[i as int].line);
                assert(ids(boxes@)[i - 1] == boxes@[i - 1].line);
            }
            let before = cols[i - 1];
            if (boxes[i].left as i128) - (boxes[i - 1].left as i128) > gap as i128 {
                cols.push(before + 1);
            } else {
                cols.push(before);
            }
        }
        i = i + 1;
    }
    cols
}

/// Which column each line belongs to, and the left edge of each column, where
/// left edges more than `column_gap_cqw` apart part two columns.
pub fn line_columns_with(flat: &[FlatWord], column_gap_cqw: i64) -> (r: (
    HashMap<usize, usize>,
    Vec<i64>,
))
    ensures
        r.0@ == column_map(flat@, column_gap_cqw as int),
        r.1@ == column_lefts(flat@, column_gap_cqw as int),
{
    let boxes = sort_by_left(&line_boxes(flat), Ghost(flat@));
    let cols = column_numbers(&boxes, column_gap_cqw, Ghost(flat@));
    let ghost gap = column_gap_cqw as int;
    let mut map: HashMap<usize, usize> = HashMap::new();
    let mut lefts: Vec<i64> = Vec::new();
    let mut i: usize = 0;
    while i < boxes.len()
        invariant
            i <= boxes@.len() == cols@.len(),
            ids(boxes@) == lines_by_left(flat@),
            all_describe(boxes@, flat@),
            gap == column_gap_cqw,
            forall|k: int| 0 <= k < cols@.len() ==> #[trigger] cols@[k] == column_number(flat@, gap, k as nat),
            map@ == column_map_upto(flat@, gap, i as nat),
            lefts@ == column_lefts_upto(flat@, gap, i as nat),
        decreases boxes@.len() - i,
    {
        assert(ids(boxes@)[i as int] == boxes@[i as int].line);
        if i == 0 || cols[i] != cols[i - 1] {
            lefts.push(boxes[i].left);
        }
        map.insert(boxes[i].line, cols[i]);
        i = i + 1;
    }
    (map, lefts)
}

/// As `line_columns_with`, with the usual column gap.
pub fn line_columns(flat: &[FlatWord]) -> (r: (HashMap<usize, usize>, Vec<i64>))
    ensures
        r.0@ == column_map(flat@, default_calibration().column_gap_cqw as int),
        r.1@ == column_lefts(flat@, default_calibration().column_gap_cqw as int),
{
    line_columns_with(flat, DocCalibration::default().column_gap_cqw)
}

/// Word `i` counts for a step over the column with left edge `col`: its own
/// column starts less than one `cqw` from there. Without a column every word
/// counts.
pub open spec fn in_column(flat: Seq<FlatWord>, gap: int, col: Option<i64>, i: int) -> bool {
    match col {
        None => true,
        Some(c) => match column_of(flat, gap, flat[i].line) {
            None => false,
            Some(x) => x < column_lefts(flat, gap).len() && magnitude(
                column_lefts(flat, gap)[x as int] - c,
            ) < CQW,
        },
    }
}

/// The columns of a page, to ask which words count for a step.
pub struct ColumnFilter {
    pub column_of: HashMap<usize, usize>,
    pub lefts: Vec<i64>,
}

impl ColumnFilter {
    pub open spec fn of(self, flat: Seq<FlatWord>, gap: int) -> bool {
        &&& self.column_of@ == column_map(flat, gap)
        &&& self.lefts@ == column_lefts(flat, gap)
    }

    pub fn new(flat: &[FlatWord], gap: i64) -> (r: ColumnFilter)
        ensures
            r.of(flat@, gap as int),
    {
        let (column_of, lefts) = line_columns_with(flat, gap);
        ColumnFilter { column_of, lefts }
    }

    pub(crate) fn admits(&self, flat: &[FlatWord], i: usize, col: Option<i64>, Ghost(gap): Ghost<int>) -> (r: bool)
        requires
            self.of(flat@, gap),
            i < flat@.len(),
        ensures
            r == in_column(flat@, gap, col, i as int),
    {
        match col {
            None => true,
            Some(c) => match self.column_of.get(&flat[i].line) {
                None => false,
                Some(x) => {
                    if *x >= self.lefts.len() {
                        return false;
                    }
                    let d: i128 = (self.lefts[*x] as i128) - (c as i128);
                    -(CQW as i128) < d && d < CQW as i128
                },
            },
        }
    }
}

/// Every line that shows something belongs to a column, every other line to
/// none, and there is a left edge for each column.
pub proof fn every_inked_line_has_a_column(flat: Seq<FlatWord>, gap: int, line: usize)
    ensures
        column_of(flat, gap, line) is Some <==> line_shows(flat, line),
        column_of(flat, gap, line) is Some ==> column_of(flat, gap, line)->0 < column_count(flat, gap),
{
    let s = lines_by_left(flat);
    lines_by_left_are_the_inked_lines(flat);
    lemma_column_map_upto(flat, gap, s.len());
    assert(s.contains(line) <==> line_shows(flat, line));
    if column_of(flat, gap, line) is Some {
        let k = choose|k: int| 0 <= k < s.len() && #[trigger] s[k] == line;
        assert(column_map(flat, gap)[s[k]] == column_number(flat, gap, k as nat));
        lemma_column_number(flat, gap, (s.len() - 1) as nat);
        lemma_column_number_monotone(flat, gap, k as nat, (s.len() - 1) as nat);
    } else if line_shows(flat, line) {
        let k = choose|k: int| 0 <= k < s.len() && s[k] == line;
        assert(s[k] == line);
    }
}

/// Neighbours from left to right are in one column exactly when their left
/// edges are no more than the gap apart.
pub proof fn neighbours_share_a_column_within_the_gap(flat: Seq<FlatWord>, gap: int, k: int)
    requires
        0 <= k < lines_by_left(flat).len() - 1,
    ensures
        column_of(flat, gap, lines_by_left(flat)[k]) == column_of(flat, gap, lines_by_left(flat)[k + 1])
            <==> left_of(flat, lines_by_left(flat)[k + 1]) - left_of(flat, lines_by_left(flat)[k])
            <= gap,
{
    let s = lines_by_left(flat);
    lemma_column_map_upto(flat, gap, s.len());
    assert(column_map(flat, gap)[s[k]] == column_number(flat, gap, k as nat));
    assert(column_map(flat, gap)[s[k + 1]] == column_number(flat, gap, (k + 1) as nat));
}

proof fn lemma_column_lines_distinct(flat: Seq<FlatWord>, gap: int, col: nat, n: nat)
    requires
        n <= lines_by_left(flat).len(),
    ensures
        column_lines_upto(flat, gap, col, n).no_duplicates(),
        forall|l: usize|
            #[trigger] column_lines_upto(flat, gap, col, n).contains(l) <==> exists|k: int|
                0 <= k < n && #[trigger] lines_by_left(flat)[k] == l && column_number(flat, gap, k as nat)
                    == col,
    decreases n,
{
    lines_by_left_are_the_inked_lines(flat);
    if n > 0 {
        lemma_column_lines_distinct(flat, gap, col, (n - 1) as nat);
        let s = lines_by_left(flat);
        let before = column_lines_upto(flat, gap, col, (n - 1) as nat);
        let now = column_lines_upto(flat, gap, col, n);
        assert forall|l: usize| #[trigger] now.contains(l) <==> exists|k: int|
            0 <= k < n && #[trigger] s[k] == l && column_number(flat, gap, k as nat) == col by {
            if now.contains(l) && !before.contains(l) {
                let j = choose|j: int| 0 <= j < now.len() && now[j] == l;
                if j < before.len() {
                    assert(before[j] == l);
                }
                assert(s[n - 1] == l);
            }
            if before.contains(l) {
                let j = choose|j: int| 0 <= j < before.len() && before[j] == l;
                assert(now[j] == l);
            }
            if exists|k: int| 0 <= k < n && #[trigger] s[k] == l && column_number(flat, gap, k as nat) == col {
                let k = choose|k: int| 0 <= k < n && #[trigger] s[k] == l && column_number(flat, gap, k as nat) == col;
                if k == n - 1 {
                    assert(now[now.len() - 1] == l);
                } else {
                    assert(before.contains(l));
                }
            }
        }
        if column_number(flat, gap, (n - 1) as nat) == col {
            assert(!before.contains(s[n - 1]));
        }
    }
}

/// The lines of a column are exactly the lines that belong to it, each once.
pub proof fn column_lines_are_the_lines_of_the_column(flat: Seq<FlatWord>, gap: int, col: nat)
    ensures
        column_lines(flat, gap, col).no_duplicates(),
        forall|l: usize|
            col <= usize::MAX ==> (#[trigger] column_lines(flat, gap, col).contains(l) <==> column_of(
                flat,
                gap,
                l,
            ) == Some(col as usize)),
{
    let s = lines_by_left(flat);
    lines_by_left_are_the_inked_lines(flat);
    lemma_column_lines_distinct(flat, gap, col, s.len());
    lemma_column_map_upto(flat, gap, s.len());
    assert forall|l: usize| col <= usize::MAX implies (#[trigger] column_lines(flat, gap, col).contains(l) <==> column_of(flat, gap, l) == Some(col as usize)) by {
        if column_lines(flat, gap, col).contains(l) {
            let k = choose|k: int|
                0 <= k < s.len() && #[trigger] s[k] == l && column_number(flat, gap, k as nat) == col;
            assert(s[k] == l);
        }
        if column_of(flat, gap, l) == Some(col as usize) {
            let k = choose|k: int| 0 <= k < s.len() && #[trigger] s[k] == l;
            assert(column_map(flat, gap)[s[k]] == column_number(flat, gap, k as nat));
            assert(s[k] == l && column_number(flat, gap, k as nat) == col);
        }
    }
}

// ── columns, seen from outside ──

proof fn lemma_place_by_left(flat: Seq<FlatWord>, gap: int, line: usize) -> (k: int)
    requires
        line_shows(flat, line),
    ensures
        0 <= k < lines_by_left(flat).len(),
        lines_by_left(flat)[k] == line,
        column_of(flat, gap, line) == Some(column_number(flat, gap, k as nat) as usize),
        column_number(flat, gap, k as nat) <= usize::MAX,
{
    let s = lines_by_left(flat);
    lines_by_left_are_the_inked_lines(flat);
    assert(s.contains(line));
    let k = choose|k: int| 0 <= k < s.len() && s[k] == line;
    lemma_column_map_upto(flat, gap, s.len());
    assert(column_map(flat, gap)[s[k]] == column_number(flat, gap, k as nat));
    k
}

proof fn lemma_ascending_lefts(flat: Seq<FlatWord>, i: int, j: int)
    requires
        0 <= i <= j < lines_by_left(flat).len(),
    ensures
        left_of(flat, lines_by_left(flat)[i]) <= left_of(flat, lines_by_left(flat)[j]),
{
    stable_sort_is_sorted_permutation(inked_lines(flat), by_left(flat));
    let s = lines_by_left(flat);
    assert(by_left(flat)(s[i]) <= by_left(flat)(s[j]));
}

proof fn lemma_same_number(flat: Seq<FlatWord>, gap: int, i: int, j: int)
    requires
        0 <= i <= j < lines_by_left(flat).len(),
        left_of(flat, lines_by_left(flat)[j]) - left_of(flat, lines_by_left(flat)[i]) <= gap,
    ensures
        column_number(flat, gap, i as nat) == column_number(flat, gap, j as nat),
    decreases j - i,
{
    if i < j {
        lemma_ascending_lefts(flat, i, j - 1);
        lemma_ascending_lefts(flat, j - 1, j);
        lemma_same_number(flat, gap, i, j - 1);
    }
}

/// Columns are numbered from left to right, lines whose left edges are no more than the
/// gap apart are of one column, and lines that a stretch wider than the gap parts, in
/// which no line starts, are of different ones.
pub proof fn columns_are_parted_by_wide_gaps(flat: Seq<FlatWord>, gap: int, a: usize, b: usize, x: int, y: int)
    requires
        line_shows(flat, a),
        line_shows(flat, b),
        left_of(flat, a) <= left_of(flat, b),
    ensures
        column_of(flat, gap, a) is Some && column_of(flat, gap, b) is Some,
        left_of(flat, a) < left_of(flat, b) ==> column_of(flat, gap, a)->0 <= column_of(flat, gap, b)->0,
        left_of(flat, b) - left_of(flat, a) <= gap ==> column_of(flat, gap, a) == column_of(flat, gap, b),
        left_of(flat, a) <= x && x + gap < y && x < y && y <= left_of(flat, b) && (forall|l: usize|
            #[trigger] line_shows(flat, l) ==> left_of(flat, l) <= x || y <= left_of(flat, l)) ==> column_of(flat, gap, a)->0
            < column_of(flat, gap, b)->0,
{
    let s = lines_by_left(flat);
    let i = lemma_place_by_left(flat, gap, a);
    let j = lemma_place_by_left(flat, gap, b);
    if i <= j {
        lemma_column_number_monotone(flat, gap, i as nat, j as nat);
        if left_of(flat, b) - left_of(flat, a) <= gap {
            lemma_same_number(flat, gap, i, j);
        }
    } else {
        lemma_ascending_lefts(flat, j, i);
        if 0 <= gap {
            lemma_same_number(flat, gap, j, i);
        }
    }
    if left_of(flat, a) <= x && x + gap < y && x < y && y <= left_of(flat, b) && (forall|l: usize|
        #[trigger] line_shows(flat, l) ==> left_of(flat, l) <= x || y <= left_of(flat, l)) {
        lemma_ascending_lefts(flat, i, i);
        if j < i {
            lemma_ascending_lefts(flat, j, i);
        }
        lemma_parted(flat, gap, i, j, x, y);
    }
}

proof fn lemma_parted(flat: Seq<FlatWord>, gap: int, i: int, j: int, x: int, y: int)
    requires
        0 <= i < j < lines_by_left(flat).len(),
        left_of(flat, lines_by_left(flat)[i]) <= x,
        y <= left_of(flat, lines_by_left(flat)[j]),
        x + gap < y,
        forall|l: usize| #[trigger] line_shows(flat, l) ==> left_of(flat, l) <= x || y <= left_of(flat, l),
    ensures
        column_number(flat, gap, i as nat) < column_number(flat, gap, j as nat),
    decreases j - i,
{
    let s = lines_by_left(flat);
    lines_by_left_are_the_inked_lines(flat);
    assert(s.contains(s[j - 1]));
    assert(line_shows(flat, s[j - 1]));
    if left_of(flat, s[j - 1]) <= x {
        lemma_column_number_monotone(flat, gap, i as nat, (j - 1) as nat);
    } else {
        if i < j - 1 {
            lemma_parted(flat, gap, i, j - 1, x, y);
            lemma_column_number_monotone(flat, gap, (j - 1) as nat, j as nat);
        }
    }
}

/// One of the first `n` lines, of column `c`, starts at `x`.
spec fn starts_there(flat: Seq<FlatWord>, gap: int, n: nat, c: int, x: int) -> bool {
    exists|k: int|
        0 <= k < n && column_number(flat, gap, k as nat) == c && left_of(flat, #[trigger] lines_by_left(flat)[k]) == x
}

proof fn lemma_lefts_upto(flat: Seq<FlatWord>, gap: int, n: nat)
    requires
        0 < n <= lines_by_left(flat).len(),
    ensures
        ({
            let lefts = column_lefts_upto(flat, gap, n);
            let s = lines_by_left(flat);
            &&& lefts.len() == column_number(flat, gap, (n - 1) as nat) + 1
            &&& forall|k: int|
                0 <= k < n ==> lefts[column_number(flat, gap, k as nat) as int] <= left_of(flat, #[trigger] s[k])
            &&& forall|c: int| 0 <= c < lefts.len() ==> starts_there(flat, gap, n, c, #[trigger] lefts[c] as int)
        }),
    decreases n,
{
    let s = lines_by_left(flat);
    let lefts = column_lefts_upto(flat, gap, n);
    let m = (n - 1) as nat;
    lines_by_left_are_the_inked_lines(flat);
    lemma_column_number(flat, gap, m);
    assert(s.contains(s[m as int]));
    line_extent(flat, s[m as int]);
    assert(i64::MIN <= left_of(flat, s[m as int]) <= i64::MAX);
    if n == 1 {
        assert(column_lefts_upto(flat, gap, 0).len() == 0);
        assert(lefts[0] == left_of(flat, s[0]));
        assert(column_number(flat, gap, 0) == 0);
        assert forall|c: int| 0 <= c < lefts.len() implies starts_there(flat, gap, n, c, #[trigger] lefts[c] as int) by {
            assert(column_number(flat, gap, 0) == c && left_of(flat, s[0]) == lefts[c]);
        }
    } else {
        lemma_lefts_upto(flat, gap, m);
        let before = column_lefts_upto(flat, gap, m);
        lemma_ascending_lefts(flat, m - 1, m as int);
        assert forall|k: int| 0 <= k < n implies lefts[column_number(flat, gap, k as nat) as int] <= left_of(
            flat,
            #[trigger] s[k],
        ) by {
            lemma_column_number_monotone(flat, gap, k as nat, m);
            if k < m {
                lemma_column_number_monotone(flat, gap, k as nat, (m - 1) as nat);
                assert(before[column_number(flat, gap, k as nat) as int] <= left_of(flat, s[k]));
                assert(lefts[column_number(flat, gap, k as nat) as int] == before[column_number(flat, gap, k as nat) as int]);
            } else if column_number(flat, gap, m) == column_number(flat, gap, (m - 1) as nat) {
                assert(before[column_number(flat, gap, (m - 1) as nat) as int] <= left_of(flat, s[m - 1]));
            }
        }
        assert forall|c: int| 0 <= c < lefts.len() implies starts_there(flat, gap, n, c, #[trigger] lefts[c] as int) by {
            if c < before.len() {
                assert(starts_there(flat, gap, m, c, before[c] as int));
                let k = choose|k: int|
                    0 <= k < m && column_number(flat, gap, k as nat) == c && left_of(flat, #[trigger] s[k]) == before[c];
                assert(column_number(flat, gap, k as nat) == c && left_of(flat, s[k]) == lefts[c]);
            } else {
                assert(column_number(flat, gap, m) == c && left_of(flat, s[m as int]) == lefts[c]);
            }
        }
    }
}

/// The left edge of a column is that of its leftmost line: no line of the column starts
/// further left, and one of them starts there.
pub proof fn a_column_starts_with_its_leftmost_line(flat: Seq<FlatWord>, gap: int, c: usize)
    requires
        c < column_count(flat, gap),
    ensures
        forall|l: usize|
            #[trigger] column_of(flat, gap, l) == Some(c) ==> column_lefts(flat, gap)[c as int] <= left_of(flat, l),
        exists|l: usize|
            #[trigger] column_of(flat, gap, l) == Some(c) && column_lefts(flat, gap)[c as int] == left_of(flat, l),
{
    let s = lines_by_left(flat);
    let lefts = column_lefts(flat, gap);
    if s.len() == 0 {
        assert(lefts.len() == 0);
    }
    lemma_lefts_upto(flat, gap, s.len());
    lemma_column_map_upto(flat, gap, s.len());
    assert forall|l: usize| #[trigger] column_of(flat, gap, l) == Some(c) implies lefts[c as int] <= left_of(flat, l) by {
        every_inked_line_has_a_column(flat, gap, l);
        let k = lemma_place_by_left(flat, gap, l);
        assert(lefts[column_number(flat, gap, k as nat) as int] <= left_of(flat, s[k]));
    }
    assert(starts_there(flat, gap, s.len(), c as int, lefts[c as int] as int));
    let k = choose|k: int|
        0 <= k < s.len() && column_number(flat, gap, k as nat) == c && left_of(flat, #[trigger] s[k]) == lefts[c as int];
    lines_by_left_are_the_inked_lines(flat);
    assert(s.contains(s[k]));
    assert(column_map(flat, gap)[s[k]] == column_number(flat, gap, k as nat));
    every_inked_line_has_a_column(flat, gap, s[k]);
    assert(column_of(flat, gap, s[k]) == Some(c));
}

/// Without a column every word counts. With the left edge of a column, exactly the words
/// of that column count, where the gap between columns is one `cqw` at least; words of
/// lines that show nothing do not count.
pub proof fn a_column_takes_its_own_words(flat: Seq<FlatWord>, gap: int, c: usize, i: int)
    requires
        c < column_count(flat, gap),
        1_000_000 <= gap,
        0 <= i < flat.len(),
    ensures
        in_column(flat, gap, None, i),
        in_column(flat, gap, Some(column_lefts(flat, gap)[c as int]), i) <==> column_of(flat, gap, flat[i].line) == Some(c),
        !line_shows(flat, flat[i].line) ==> !in_column(flat, gap, Some(column_lefts(flat, gap)[c as int]), i),
{
    let lefts = column_lefts(flat, gap);
    every_inked_line_has_a_column(flat, gap, flat[i].line);
    if let Some(x) = column_of(flat, gap, flat[i].line) {
        if x != c {
            a_column_starts_with_its_leftmost_line(flat, gap, c);
            a_column_starts_with_its_leftmost_line(flat, gap, x);
            let a = choose|l: usize| #[trigger] column_of(flat, gap, l) == Some(c) && lefts[c as int] == left_of(flat, l);
            let b = choose|l: usize| #[trigger] column_of(flat, gap, l) == Some(x) && lefts[x as int] == left_of(flat, l);
            every_inked_line_has_a_column(flat, gap, a);
            every_inked_line_has_a_column(flat, gap, b);
            if left_of(flat, a) <= left_of(flat, b) {
                columns_are_parted_by_wide_gaps(flat, gap, a, b, 0, 0);
            } else {
                columns_are_parted_by_wide_gaps(flat, gap, b, a, 0, 0);
            }
        }
    }
}

/// The outline of a line is made of the words that show something on it: their leftmost,
/// rightmost and topmost edges, their largest height, and the height of the first.
pub proof fn a_line_is_as_large_as_its_words(flat: Seq<FlatWord>, line: usize, first: int)
    requires
        0 <= first < flat.len(),
        flat[first].line == line && inked(flat[first]),
        forall|k: int| 0 <= k < first && flat[k].line == line ==> !inked(#[trigger] flat[k]),
    ensures
        first_height_of(flat, line) == flat[first].line_height_cqw,
        exists|k: int| 0 <= k < flat.len() && #[trigger] ink_at(flat, line, k) && flat[k].left_cqw + flat[k].width_cqw == right_of(flat, line),
        height_of(flat, line) == 0 || exists|k: int|
            0 <= k < flat.len() && #[trigger] ink_at(flat, line, k) && flat[k].line_height_cqw == height_of(flat, line),
        0 <= height_of(flat, line),
{
    lemma_sizes_upto(flat, line, first, flat.len());
}

proof fn lemma_nothing_before(flat: Seq<FlatWord>, line: usize, n: nat)
    requires
        n <= flat.len(),
        forall|k: int| 0 <= k < n && flat[k].line == line ==> !inked(#[trigger] flat[k]),
    ensures
        words_upto(flat, line, n) == 0,
    decreases n,
{
    if n > 0 {
        assert(!(flat[n - 1].line == line && inked(flat[n - 1])));
        lemma_nothing_before(flat, line, (n - 1) as nat);
    }
}

proof fn lemma_sizes_upto(flat: Seq<FlatWord>, line: usize, first: int, n: nat)
    requires
        0 <= first < n <= flat.len(),
        ink_at(flat, line, first),
        forall|k: int| 0 <= k < first && flat[k].line == line ==> !inked(#[trigger] flat[k]),
    ensures
        words_upto(flat, line, n) > 0,
        first_height_upto(flat, line, n) == flat[first].line_height_cqw,
        exists|k: int| 0 <= k < n && #[trigger] ink_at(flat, line, k) && flat[k].left_cqw + flat[k].width_cqw == right_upto(flat, line, n),
        height_upto(flat, line, n) == 0 || exists|k: int|
            0 <= k < n && #[trigger] ink_at(flat, line, k) && flat[k].line_height_cqw == height_upto(flat, line, n),
        0 <= height_upto(flat, line, n),
    decreases n,
{
    let m = (n - 1) as nat;
    if first < m {
        lemma_sizes_upto(flat, line, first, m);
        let k = choose|k: int| 0 <= k < m && #[trigger] ink_at(flat, line, k) && flat[k].left_cqw + flat[k].width_cqw == right_upto(flat, line, m);
        assert(ink_at(flat, line, k));
        if ink_at(flat, line, m as int) {
            assert(ink_at(flat, line, m as int));
        }
        if height_upto(flat, line, m) != 0 {
            let h = choose|k: int| 0 <= k < m && #[trigger] ink_at(flat, line, k) && flat[k].line_height_cqw == height_upto(flat, line, m);
            assert(ink_at(flat, line, h));
        }
    } else {
        lemma_nothing_before(flat, line, m);
        lemma_heights_before(flat, line, m);
        assert(ink_at(flat, line, m as int));
    }
}

proof fn lemma_heights_before(flat: Seq<FlatWord>, line: usize, n: nat)
    requires
        words_upto(flat, line, n) == 0,
    ensures
        height_upto(flat, line, n) == 0,
    decreases n,
{
    if n > 0 {
        lemma_heights_before(flat, line, (n - 1) as nat);
    }
}

} // verus!
