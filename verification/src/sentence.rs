//! Sentences: their extent within a column, and the way they go on over columns
//! and pages.
use crate::boundary::{breaks, depth_behind, opt_view, scan_word_boundary};
use crate::formula::{among, apart, are_apart, line_is_formula, marked_line, stands_among};
use crate::layout::{
    column_at, column_words, first_line_indented, lemma_previous_ranks_lower, lemma_words_are_in_the_column,
    previous_text_column, text_column, text_column_from, text_columns, text_rank, PageLayout,
};
use crate::lines::{
    all_describe, by_top, column_lefts, every_inked_line_has_a_column, ids, line_box, line_shows, sort_by_top, LineBox,
};
use crate::page_text::{default_calibration, is_inked, DocCalibration, FlatWord};
use crate::paragraph::{or_else, paragraph, paragraph_range_with};
use crate::selection::{first_inked, snap_to_word, snapped, SelectionStep};
use crate::sorting::{stable_sort, stable_sort_contains};
use vstd::prelude::*;

verus! {

// ── reading words one after the other ──

/// The words that a list of places stands for.
pub open spec fn places(v: Seq<usize>) -> Seq<int> {
    v.map_values(|i: usize| i as int)
}

/// All places lie on the page.
pub open spec fn on_page(flat: Seq<FlatWord>, ws: Seq<int>) -> bool {
    forall|k: int| 0 <= k < ws.len() ==> 0 <= #[trigger] ws[k] < flat.len()
}

/// The text of the word behind word `k`.
pub open spec fn next_text(flat: Seq<FlatWord>, ws: Seq<int>, k: int) -> Option<Seq<char>> {
    if k + 1 < ws.len() {
        Some(flat[ws[k + 1]].text@)
    } else {
        None
    }
}

/// A sentence ends with word `k`, read at bracket depth `d`.
pub open spec fn ends_at(flat: Seq<FlatWord>, ws: Seq<int>, k: int, d: nat) -> bool {
    breaks(flat[ws[k]].text@, d, next_text(flat, ws, k))
}

/// The bracket depth behind word `k`.
pub open spec fn depth_past(flat: Seq<FlatWord>, ws: Seq<int>, k: int, d: nat) -> nat {
    depth_behind(flat[ws[k]].text@, d)
}

/// Reading the words `from..to` outside of brackets at first: where the
/// sentence that runs on at `to` starts, and the bracket depth at `to`.
pub open spec fn start_scan(flat: Seq<FlatWord>, ws: Seq<int>, from: int, to: int) -> (int, nat)
    decreases to - from,
{
    if to <= from {
        (from, 0)
    } else {
        let before = start_scan(flat, ws, from, to - 1);
        (
            if ends_at(flat, ws, to - 1, before.1) {
                to
            } else {
                before.0
            },
            depth_past(flat, ws, to - 1, before.1),
        )
    }
}

/// The bracket depth where the sentence that runs on at `to` starts.
pub open spec fn opening_depth(flat: Seq<FlatWord>, ws: Seq<int>, from: int, to: int) -> nat {
    start_scan(flat, ws, from, start_scan(flat, ws, from, to).0).1
}

/// Reading the words `k..=last` at bracket depth `d`: the first word that ends
/// a sentence, and the bracket depth there or behind `last`.
pub open spec fn end_scan(flat: Seq<FlatWord>, ws: Seq<int>, k: int, last: int, d: nat) -> (Option<int>, nat)
    decreases last + 1 - k,
{
    if k > last {
        (None, d)
    } else if ends_at(flat, ws, k, d) {
        (Some(k), depth_past(flat, ws, k, d))
    } else {
        end_scan(flat, ws, k + 1, last, depth_past(flat, ws, k, d))
    }
}

pub(crate) proof fn lemma_start_scan(flat: Seq<FlatWord>, ws: Seq<int>, from: int, to: int)
    ensures
        from <= start_scan(flat, ws, from, to).0,
        from < to ==> start_scan(flat, ws, from, to).0 <= to,
        to <= from ==> start_scan(flat, ws, from, to).0 == from,
    decreases to - from,
{
    if to > from {
        lemma_start_scan(flat, ws, from, to - 1);
    }
}

pub(crate) proof fn lemma_end_scan(flat: Seq<FlatWord>, ws: Seq<int>, k: int, last: int, d: nat)
    ensures
        end_scan(flat, ws, k, last, d).0 is Some ==> k <= end_scan(flat, ws, k, last, d).0->0 <= last,
    decreases last + 1 - k,
{
    if k <= last && !ends_at(flat, ws, k, d) {
        lemma_end_scan(flat, ws, k + 1, last, depth_past(flat, ws, k, d));
    }
}

fn read_word(flat: &[FlatWord], ws: &Vec<usize>, k: usize, depth: &mut usize) -> (r: bool)
    requires
        k < ws@.len(),
        on_page(flat@, places(ws@)),
    ensures
        r == ends_at(flat@, places(ws@), k as int, *old(depth) as nat),
        *final(depth) == depth_past(flat@, places(ws@), k as int, *old(depth) as nat),
{
    let n = ws.len();
    assert(places(ws@)[k as int] == ws@[k as int]);
    let next: Option<&str> = if n - k > 1 {
        assert(places(ws@)[k + 1] == ws@[k + 1]);
        Some(flat[ws[k + 1]].text.as_str())
    } else {
        None
    };
    scan_word_boundary(flat[ws[k]].text.as_str(), depth, next)
}

/// Where the sentence that runs on at `to` starts, and the bracket depth there.
fn find_start(flat: &[FlatWord], ws: &Vec<usize>, from: usize, to: usize) -> (r: (usize, usize))
    requires
        to <= ws@.len(),
        on_page(flat@, places(ws@)),
    ensures
        r.0 == start_scan(flat@, places(ws@), from as int, to as int).0,
        r.1 == opening_depth(flat@, places(ws@), from as int, to as int),
        from <= r.0,
        from < to ==> r.0 <= to,
        to <= from ==> r.0 == from,
{
    let mut depth: usize = 0;
    let mut r: (usize, usize) = (from, 0);
    let mut k = from;
    while k < to
        invariant
            from <= k,
            k <= to || k == from,
            to <= ws@.len(),
            on_page(flat@, places(ws@)),
            r.0 == start_scan(flat@, places(ws@), from as int, k as int).0,
            r.1 == opening_depth(flat@, places(ws@), from as int, k as int),
            depth == start_scan(flat@, places(ws@), from as int, k as int).1,
        decreases to - k,
    {
        if read_word(flat, ws, k, &mut depth) {
            r = (k + 1, depth);
        }
        k = k + 1;
    }
    proof {
        lemma_start_scan(flat@, places(ws@), from as int, to as int);
    }
    r
}

fn find_end(flat: &[FlatWord], ws: &Vec<usize>, from: usize, last: usize, depth: &mut usize) -> (r: Option<usize>)
    requires
        last < ws@.len(),
        on_page(flat@, places(ws@)),
    ensures
        match r {
            Some(k) => end_scan(flat@, places(ws@), from as int, last as int, *old(depth) as nat).0 == Some(k as int) && from <= k <= last,
            None => end_scan(flat@, places(ws@), from as int, last as int, *old(depth) as nat).0 is None,
        },
        *final(depth) == end_scan(flat@, places(ws@), from as int, last as int, *old(depth) as nat).1,
{
    let n = ws.len();
    let mut k = from;
    while k <= last
        invariant
            last < ws@.len() == n,
            from <= k,
            on_page(flat@, places(ws@)),
            end_scan(flat@, places(ws@), from as int, last as int, *old(depth) as nat) == end_scan(
                flat@,
                places(ws@),
                k as int,
                last as int,
                *depth as nat,
            ),
        decreases last + 1 - k,
    {
        if read_word(flat, ws, k, depth) {
            return Some(k);
        }
        k = k + 1;
    }
    None
}

// ── formula sentences ──

/// `s` with each run of equal items reduced to one.
pub open spec fn dedup(s: Seq<usize>) -> Seq<usize>
    decreases s.len(),
{
    if s.len() <= 1 {
        s
    } else {
        let before = dedup(s.drop_last());
        if s.last() == s[s.len() - 2] {
            before
        } else {
            before.push(s.last())
        }
    }
}

/// The lines of some words, from top to bottom.
pub open spec fn lines_of_words(flat: Seq<FlatWord>, ws: Seq<int>) -> Seq<usize> {
    dedup(stable_sort(ws.map_values(|i: int| flat[i].line), by_top(flat)))
}

/// Lines `a` and `b` of `ls` belong to one run of formula lines, `m` being the
/// further one.
pub open spec fn runs_on(flat: Seq<FlatWord>, ratio: int, ls: Seq<usize>, a: int, b: int, m: int) -> bool {
    !apart(flat, ratio, ls[a], ls[b]) && marked_line(flat, ls[m])
}

pub open spec fn run_first(flat: Seq<FlatWord>, ratio: int, ls: Seq<usize>, i: int) -> int
    decreases i,
{
    if i > 0 && runs_on(flat, ratio, ls, i - 1, i, i - 1) {
        run_first(flat, ratio, ls, i - 1)
    } else {
        i
    }
}

pub open spec fn run_last(flat: Seq<FlatWord>, ratio: int, ls: Seq<usize>, i: int) -> int
    decreases ls.len() - i,
{
    if i + 1 < ls.len() && runs_on(flat, ratio, ls, i, i + 1, i + 1) {
        run_last(flat, ratio, ls, i + 1)
    } else {
        i
    }
}

/// Those of the first `n` words that stand on one of `ls[lo..=hi]`.
pub open spec fn words_on(flat: Seq<FlatWord>, ws: Seq<int>, ls: Seq<usize>, lo: int, hi: int, n: nat) -> Seq<int>
    decreases n,
{
    if n == 0 {
        Seq::empty()
    } else {
        let before = words_on(flat, ws, ls, lo, hi, (n - 1) as nat);
        if among(ls, lo, hi, flat[ws[n - 1]].line) {
            before.push(ws[n - 1])
        } else {
            before
        }
    }
}

/// Where `x` first stands in `s`, from place `k` on.
pub open spec fn first_place<T>(s: Seq<T>, x: T, k: int) -> Option<int>
    decreases s.len() - k,
{
    if k >= s.len() {
        None
    } else if s[k] == x {
        Some(k)
    } else {
        first_place(s, x, k + 1)
    }
}

/// Where `x` first stands in `s`, or `d`.
pub open spec fn place_of<T>(s: Seq<T>, x: T, d: int) -> int {
    or_else(first_place(s, x, 0), d)
}

/// A step over the words `lo..=hi` of the column with left edge `left`.
pub open spec fn step_over(page: u32, lo: int, hi: int, left: i64) -> SelectionStep {
    SelectionStep { page, lo: lo as usize, hi: hi as usize, column_left: Some(left) }
}

/// The formula sentence round place `idx`: within its column and its run of
/// formula lines, from behind the sentence end before it to the next one.
pub open spec fn formula_sentence(flat: Seq<FlatWord>, idx: int, page: u32, cal: DocCalibration) -> Seq<SelectionStep> {
    let gap = cal.column_gap_cqw as int;
    let ratio = cal.vertical_gap_ratio as int;
    let a = snapped(flat, idx);
    if flat.len() == 0 || column_at(flat, gap, a) is None {
        Seq::empty()
    } else {
        let col = column_at(flat, gap, a)->0;
        let ws = column_words(flat, gap, col);
        let ls = lines_of_words(flat, ws);
        let l = place_of(ls, flat[a].line, 0);
        let run = words_on(flat, ws, ls, run_first(flat, ratio, ls, l), run_last(flat, ratio, ls, l), ws.len());
        let at = place_of(run, a, 0);
        let start = start_scan(flat, run, 0, at).0;
        let end = end_scan(flat, run, start, run.len() - 1, opening_depth(flat, run, 0, at)).0;
        let last = match end {
            Some(k) => k,
            None => run.len() - 1,
        };
        seq![step_over(page, run[start], run[last], column_lefts(flat, gap)[col as int])]
    }
}

pub proof fn lemma_first_place<T>(s: Seq<T>, x: T, k: int)
    requires
        0 <= k,
    ensures
        match first_place(s, x, k) {
            Some(p) => k <= p < s.len() && s[p] == x && forall|j: int| k <= j < p ==> s[j] != x,
            None => forall|j: int| k <= j < s.len() ==> s[j] != x,
        },
    decreases s.len() - k,
{
    if k < s.len() && s[k] != x {
        lemma_first_place(s, x, k + 1);
    }
}

pub(crate) fn find_place(ws: &Vec<usize>, x: usize) -> (r: Option<usize>)
    ensures
        match r {
            Some(p) => p < ws@.len() && first_place(places(ws@), x as int, 0) == Some(p as int),
            None => first_place(places(ws@), x as int, 0) is None,
        },
{
    let mut i: usize = 0;
    while i < ws.len()
        invariant
            i <= ws@.len(),
            first_place(places(ws@), x as int, 0) == first_place(places(ws@), x as int, i as int),
        decreases ws@.len() - i,
    {
        assert(places(ws@)[i as int] == ws@[i as int]);
        if ws[i] == x {
            return Some(i);
        }
        i = i + 1;
    }
    None
}

fn place_in(ws: &Vec<usize>, x: usize, d: usize) -> (r: usize)
    ensures
        r == place_of(places(ws@), x as int, d as int),
        r < ws@.len() || r == d,
{
    match find_place(ws, x) {
        Some(p) => p,
        None => d,
    }
}

/// The boxes of the lines of some words.
fn boxes_of_words(flat: &[FlatWord], ws: &Vec<usize>) -> (r: Vec<LineBox>)
    requires
        on_page(flat@, places(ws@)),
        forall|k: int| 0 <= k < ws@.len() ==> line_shows(flat@, flat@[#[trigger] ws@[k] as int].line),
    ensures
        ids(r@) == places(ws@).map_values(|i: int| flat@[i].line),
        all_describe(r@, flat@),
{
    let mut r: Vec<LineBox> = Vec::new();
    let mut i: usize = 0;
    while i < ws.len()
        invariant
            i <= ws@.len(),
            r@.len() == i,
            on_page(flat@, places(ws@)),
            forall|k: int| 0 <= k < ws@.len() ==> line_shows(flat@, flat@[#[trigger] ws@[k] as int].line),
            all_describe(r@, flat@),
            forall|k: int| 0 <= k < i ==> (#[trigger] r@[k]).line == flat@[ws@[k] as int].line,
        decreases ws@.len() - i,
    {
        assert(places(ws@)[i as int] == ws@[i as int]);
        match line_box(flat, flat[ws[i]].line) {
            Some(b) => {
                r.push(b);
            },
            None => {
                assert(line_shows(flat@, flat@[ws@[i as int] as int].line));
                assert(false);
            },
        }
        i = i + 1;
    }
    assert(ids(r@) =~= places(ws@).map_values(|i: int| flat@[i].line));
    r
}

fn dedup_boxes(boxes: &Vec<LineBox>, Ghost(flat): Ghost<Seq<FlatWord>>) -> (r: Vec<LineBox>)
    requires
        all_describe(boxes@, flat),
    ensures
        ids(r@) == dedup(ids(boxes@)),
        all_describe(r@, flat),
{
    let mut r: Vec<LineBox> = Vec::new();
    let mut i: usize = 0;
    assert(ids(r@) =~= dedup(ids(boxes@).take(0)));
    while i < boxes.len()
        invariant
            i <= boxes@.len(),
            all_describe(boxes@, flat),
            all_describe(r@, flat),
            ids(r@) == dedup(ids(boxes@).take(i as int)),
        decreases boxes@.len() - i,
    {
        let ghost t = ids(boxes@).take(i + 1);
        assert(t.drop_last() =~= ids(boxes@).take(i as int));
        assert(t.last() == boxes@[i as int].line);
        if i == 0 || boxes[i].line != boxes[i - 1].line {
            let ghost before = r@;
            if i > 0 {
                assert(t[t.len() - 2] == boxes@[i - 1].line);
            }
            r.push(boxes[i]);
            assert(ids(r@) =~= ids(before).push(boxes@[i as int].line));
            assert(i == 0 ==> dedup(t) =~= t);
        } else {
            assert(t[t.len() - 2] == boxes@[i - 1].line);
        }
        i = i + 1;
    }
    assert(ids(boxes@).take(i as int) =~= ids(boxes@));
    r
}

pub(crate) proof fn lemma_dedup(s: Seq<usize>, x: usize)
    requires
        s.contains(x),
    ensures
        dedup(s).contains(x),
    decreases s.len(),
{
    if s.len() > 1 {
        let before = dedup(s.drop_last());
        let k = choose|k: int| 0 <= k < s.len() && s[k] == x;
        if k < s.len() - 1 {
            assert(s.drop_last()[k] == x);
            lemma_dedup(s.drop_last(), x);
            let j = choose|j: int| 0 <= j < before.len() && before[j] == x;
            assert(dedup(s)[j] == x);
        } else if s.last() == s[s.len() - 2] {
            assert(s.drop_last()[s.len() - 2] == x);
            lemma_dedup(s.drop_last(), x);
        } else {
            assert(dedup(s)[before.len() as int] == x);
        }
    }
}

pub(crate) proof fn lemma_run(flat: Seq<FlatWord>, ratio: int, ls: Seq<usize>, i: int)
    requires
        0 <= i < ls.len(),
    ensures
        0 <= run_first(flat, ratio, ls, i) <= i,
    decreases i,
{
    if i > 0 && runs_on(flat, ratio, ls, i - 1, i, i - 1) {
        lemma_run(flat, ratio, ls, i - 1);
    }
}

pub(crate) proof fn lemma_words_on(flat: Seq<FlatWord>, ws: Seq<int>, ls: Seq<usize>, lo: int, hi: int, n: nat)
    requires
        n <= ws.len(),
        on_page(flat, ws),
    ensures
        on_page(flat, words_on(flat, ws, ls, lo, hi, n)),
        forall|k: int|
            0 <= k < n && among(ls, lo, hi, flat[#[trigger] ws[k]].line) ==> words_on(flat, ws, ls, lo, hi, n).contains(ws[k]),
    decreases n,
{
    if n > 0 {
        lemma_words_on(flat, ws, ls, lo, hi, (n - 1) as nat);
        let before = words_on(flat, ws, ls, lo, hi, (n - 1) as nat);
        let now = words_on(flat, ws, ls, lo, hi, n);
        assert forall|k: int| 0 <= k < n && among(ls, lo, hi, flat[#[trigger] ws[k]].line) implies now.contains(ws[k]) by {
            if k < n - 1 {
                let j = choose|j: int| 0 <= j < before.len() && before[j] == ws[k];
                assert(now[j] == ws[k]);
            } else {
                assert(now[now.len() - 1] == ws[k]);
            }
        }
    }
}

fn collect_words_on(
    flat: &[FlatWord],
    ws: &Vec<usize>,
    boxes: &Vec<LineBox>,
    lo: usize,
    hi: usize,
) -> (r: Vec<usize>)
    requires
        on_page(flat@, places(ws@)),
        lo <= hi < boxes@.len(),
    ensures
        places(r@) == words_on(flat@, places(ws@), ids(boxes@), lo as int, hi as int, ws@.len()),
{
    let mut r: Vec<usize> = Vec::new();
    let mut i: usize = 0;
    assert(places(r@) =~= Seq::<int>::empty());
    while i < ws.len()
        invariant
            i <= ws@.len(),
            on_page(flat@, places(ws@)),
            lo <= hi < boxes@.len(),
            places(r@) == words_on(flat@, places(ws@), ids(boxes@), lo as int, hi as int, i as nat),
        decreases ws@.len() - i,
    {
        assert(places(ws@)[i as int] == ws@[i as int]);
        if stands_among(boxes, lo, hi, flat[ws[i]].line) {
            let ghost before = r@;
            r.push(ws[i]);
            assert(places(r@) =~= places(before).push(ws@[i as int] as int));
        }
        i = i + 1;
    }
    r
}

/// The formula sentence round place `idx`.
pub fn formula_sentence_walk_with(
    flat: &[FlatWord],
    idx: usize,
    start_page: u32,
    cal: DocCalibration,
) -> (r: Vec<SelectionStep>)
    ensures
        r@ == formula_sentence(flat@, idx as int, start_page, cal),
{
    let mut r: Vec<SelectionStep> = Vec::new();
    if flat.len() == 0 {
        return r;
    }
    let ghost gap = cal.column_gap_cqw as int;
    let ghost ratio = cal.vertical_gap_ratio as int;
    let a = snap_to_word(flat, idx);
    let layout = PageLayout::new_with(flat, cal);
    let col = match layout.col_of(flat, a) {
        Some(c) => c,
        None => {
            return r;
        },
    };
    let rep = layout.rep(col);
    let words = layout.word_indices(flat, col);
    let ghost ws = places(words@);
    proof {
        lemma_words_are_in_the_column(flat@, gap, col);
        assert(ws == column_words(flat@, gap, col));
        assert forall|k: int| 0 <= k < words@.len() implies line_shows(flat@, flat@[#[trigger] words@[k] as int].line) by {
            assert(ws[k] == words@[k]);
            every_inked_line_has_a_column(flat@, gap, flat@[words@[k] as int].line);
        }
        assert(ws.contains(a as int));
    }
    let raw = boxes_of_words(flat, &words);
    let sorted = sort_by_top(&raw, Ghost(flat@));
    let boxes = dedup_boxes(&sorted, Ghost(flat@));
    let ghost ls = ids(boxes@);
    let ghost line = flat@[a as int].line;
    proof {
        assert(ls == lines_of_words(flat@, ws));
        let k = choose|k: int| 0 <= k < ws.len() && ws[k] == a;
        assert(ids(raw@)[k] == line);
        assert(ids(raw@).contains(line));
        stable_sort_contains(ids(raw@), by_top(flat@), line);
        lemma_dedup(stable_sort(ids(raw@), by_top(flat@)), line);
        lemma_first_place(ls, line, 0);
        assert(ls.len() == boxes@.len());
    }
    let pos = find_box_place(&boxes, flat[a].line);
    let mut lo = pos;
    while lo > 0
        invariant
            lo <= pos < boxes@.len(),
            all_describe(boxes@, flat@),
            ls == ids(boxes@),
            ratio == cal.vertical_gap_ratio,
            run_first(flat@, ratio, ls, pos as int) == run_first(flat@, ratio, ls, lo as int),
        ensures
            lo == run_first(flat@, ratio, ls, pos as int),
            lo <= pos,
        decreases lo,
    {
        assert(boxes@[lo - 1].describes(flat@) && boxes@[lo as int].describes(flat@));
        assert(ls[lo - 1] == boxes@[lo - 1].line && ls[lo as int] == boxes@[lo as int].line);
        if are_apart(&boxes[lo - 1], &boxes[lo], cal.vertical_gap_ratio, Ghost(flat@)) || !line_is_formula(
            flat,
            boxes[lo - 1].line,
        ) {
            break;
        }
        lo = lo - 1;
    }
    let mut hi = pos;
    while boxes.len() - hi > 1
        invariant
            pos <= hi < boxes@.len(),
            all_describe(boxes@, flat@),
            ls == ids(boxes@),
            ls.len() == boxes@.len(),
            ratio == cal.vertical_gap_ratio,
            run_last(flat@, ratio, ls, pos as int) == run_last(flat@, ratio, ls, hi as int),
        ensures
            hi == run_last(flat@, ratio, ls, pos as int),
            pos <= hi < boxes@.len(),
        decreases boxes@.len() - hi,
    {
        assert(boxes@[hi + 1].describes(flat@) && boxes@[hi as int].describes(flat@));
        assert(ls[hi + 1] == boxes@[hi + 1].line && ls[hi as int] == boxes@[hi as int].line);
        if are_apart(&boxes[hi], &boxes[hi + 1], cal.vertical_gap_ratio, Ghost(flat@)) || !line_is_formula(
            flat,
            boxes[hi + 1].line,
        ) {
            break;
        }
        hi = hi + 1;
    }
    let run = collect_words_on(flat, &words, &boxes, lo, hi);
    let ghost rs = places(run@);
    proof {
        lemma_words_on(flat@, ws, ls, lo as int, hi as int, ws.len());
        assert(ls[pos as int] == line);
        assert(among(ls, lo as int, hi as int, line));
        let k = choose|k: int| 0 <= k < ws.len() && ws[k] == a;
        assert(among(ls, lo as int, hi as int, flat@[ws[k]].line));
        assert(rs.contains(a as int));
        assert(rs.len() == run@.len());
        lemma_first_place(rs, a as int, 0);
    }
    let at = place_in(&run, a, 0);
    let (start, opening) = find_start(flat, &run, 0, at);
    let mut depth: usize = opening;
    let last = match find_end(flat, &run, start, run.len() - 1, &mut depth) {
        Some(k) => k,
        None => run.len() - 1,
    };
    proof {
        assert(rs[start as int] == run@[start as int]);
        assert(rs[last as int] == run@[last as int]);
    }
    r.push(SelectionStep { page: start_page, lo: run[start], hi: run[last], column_left: Some(rep) });
    r
}

fn find_box_place(boxes: &Vec<LineBox>, line: usize) -> (r: usize)
    requires
        first_place(ids(boxes@), line, 0) is Some,
    ensures
        r < boxes@.len(),
        r == place_of(ids(boxes@), line, 0),
{
    let mut i: usize = 0;
    proof {
        lemma_first_place(ids(boxes@), line, 0);
    }
    while i < boxes.len()
        invariant
            i <= boxes@.len(),
            first_place(ids(boxes@), line, 0) is Some,
            first_place(ids(boxes@), line, 0) == first_place(ids(boxes@), line, i as int),
        decreases boxes@.len() - i,
    {
        assert(ids(boxes@)[i as int] == boxes@[i as int].line);
        if boxes[i].line == line {
            return i;
        }
        i = i + 1;
    }
    assert(false);
    0
}

/// As `formula_sentence_walk_with`, with the usual thresholds.
pub fn formula_sentence_walk(flat: &[FlatWord], idx: usize, start_page: u32) -> (r: Vec<SelectionStep>)
    ensures
        r@ == formula_sentence(flat@, idx as int, start_page, default_calibration()),
{
    formula_sentence_walk_with(flat, idx, start_page, DocCalibration::default())
}

// ── going back ──

/// The unfinished sentence at the end of some words: from behind the last
/// sentence end to the last word; none where the last word ends a sentence.
pub open spec fn sentence_tail(flat: Seq<FlatWord>, ws: Seq<int>) -> Option<(int, int)> {
    let start = start_scan(flat, ws, 0, ws.len() as int).0;
    if start >= ws.len() {
        None
    } else {
        Some((ws[start], ws.last()))
    }
}

/// Where the sentence at word `k` of a column starts, words before `least` left
/// out of it; and the bracket depth.
pub open spec fn start_from(flat: Seq<FlatWord>, ws: Seq<int>, least: int, k: int) -> (int, nat)
    decreases k,
{
    if k <= 0 {
        (0, 0)
    } else {
        let before = start_from(flat, ws, least, k - 1);
        if ws[k - 1] < least {
            (k, before.1)
        } else {
            (
                if ends_at(flat, ws, k - 1, before.1) {
                    k
                } else {
                    before.0
                },
                depth_past(flat, ws, k - 1, before.1),
            )
        }
    }
}

/// The sentence at `idx` reaches back to the start of its column.
pub open spec fn open_at_column_start(flat: Seq<FlatWord>, idx: int, cal: DocCalibration, col: usize) -> bool {
    let ws = column_words(flat, cal.column_gap_cqw as int, col);
    &&& start_from(flat, ws, paragraph(flat, idx, cal).0, place_of(ws, idx, 0)).0 == 0
    &&& !ends_at(flat, ws, 0, 0)
}

/// The unfinished sentence at the end of the page before.
pub open spec fn tail_of_page(prev: Seq<FlatWord>, page: u32, cal: DocCalibration) -> Seq<SelectionStep> {
    let gap = cal.column_gap_cqw as int;
    let cols = text_columns(prev, gap);
    if cols.len() == 0 {
        Seq::empty()
    } else {
        match sentence_tail(prev, column_words(prev, gap, cols.last())) {
            None => Seq::empty(),
            Some(t) => seq![step_over(page_before(page), t.0, t.1, column_lefts(prev, gap)[cols.last() as int])],
        }
    }
}

pub open spec fn page_before(page: u32) -> u32 {
    if page == 0 {
        0
    } else {
        (page - 1) as u32
    }
}

/// The part of the sentence at `idx` that stands before its column: in the
/// columns of running text before it, and on the page before.
pub open spec fn sentence_before(
    flat: Seq<FlatWord>,
    idx: int,
    prev: Option<Seq<FlatWord>>,
    page: u32,
    cal: DocCalibration,
) -> Seq<SelectionStep>
    decreases text_rank(flat, cal.column_gap_cqw as int, column_at(flat, cal.column_gap_cqw as int, idx)),
{
    let gap = cal.column_gap_cqw as int;
    match column_at(flat, gap, idx) {
        None => Seq::empty(),
        Some(col) => if !open_at_column_start(flat, idx, cal, col) {
            Seq::empty()
        } else {
            match previous_text_column(flat, gap, col) {
                Some(p) => {
                    let pw = column_words(flat, gap, p);
                    match sentence_tail(flat, pw) {
                        None => Seq::empty(),
                        Some(t) => {
                            proof {
                                lemma_tail_column(flat, gap, col);
                            }
                            let earlier = if t.0 == pw[0] {
                                sentence_before(flat, pw[0], prev, page, cal)
                            } else {
                                Seq::empty()
                            };
                            earlier.push(step_over(page, t.0, t.1, column_lefts(flat, gap)[p as int]))
                        },
                    }
                },
                None => match prev {
                    Some(pf) => tail_of_page(pf, page, cal),
                    None => Seq::empty(),
                },
            }
        },
    }
}

pub proof fn lemma_tail_column(flat: Seq<FlatWord>, gap: int, col: usize)
    requires
        previous_text_column(flat, gap, col) is Some,
    ensures
        ({
            let p = previous_text_column(flat, gap, col)->0;
            let pw = column_words(flat, gap, p);
            sentence_tail(flat, pw) is Some ==> column_at(flat, gap, pw[0]) == Some(p) && text_rank(
                flat,
                gap,
                column_at(flat, gap, pw[0]),
            ) < text_rank(flat, gap, Some(col))
        }),
{
    lemma_previous_ranks_lower(flat, gap, col);
    let p = previous_text_column(flat, gap, col)->0;
    lemma_words_are_in_the_column(flat, gap, p);
    lemma_start_scan(flat, column_words(flat, gap, p), 0, column_words(flat, gap, p).len() as int);
}

/// The unfinished sentence at the end of some words.
pub fn sentence_tail_in_column(flat: &[FlatWord], words: &Vec<usize>) -> (r: Option<(usize, usize)>)
    requires
        on_page(flat@, places(words@)),
    ensures
        match r {
            Some(t) => sentence_tail(flat@, places(words@)) == Some((t.0 as int, t.1 as int)) && words@.len() > 0,
            None => sentence_tail(flat@, places(words@)) is None,
        },
{
    let n = words.len();
    if n == 0 {
        return None;
    }
    let start = find_start(flat, words, 0, n).0;
    if start >= n {
        return None;
    }
    assert(places(words@)[start as int] == words@[start as int]);
    assert(places(words@).last() == words@[n - 1]);
    Some((words[start], words[n - 1]))
}

fn starts_column(flat: &[FlatWord], ws: &Vec<usize>, least: usize, to: usize) -> (r: bool)
    requires
        on_page(flat@, places(ws@)),
        to < ws@.len(),
    ensures
        r == (start_from(flat@, places(ws@), least as int, to as int).0 == 0 && !ends_at(flat@, places(ws@), 0, 0)),
{
    let mut depth: usize = 0;
    let mut start: usize = 0;
    let mut k: usize = 0;
    while k < to
        invariant
            k <= to < ws@.len(),
            on_page(flat@, places(ws@)),
            start == start_from(flat@, places(ws@), least as int, k as int).0,
            depth == start_from(flat@, places(ws@), least as int, k as int).1,
        decreases to - k,
    {
        assert(places(ws@)[k as int] == ws@[k as int]);
        if ws[k] < least {
            start = k + 1;
        } else if read_word(flat, ws, k, &mut depth) {
            start = k + 1;
        }
        k = k + 1;
    }
    if start != 0 {
        return false;
    }
    let mut d0: usize = 0;
    !read_word(flat, ws, 0, &mut d0)
}

fn tail_before(prev: &[FlatWord], start_page: u32, cal: DocCalibration) -> (r: Vec<SelectionStep>)
    ensures
        r@ == tail_of_page(prev@, start_page, cal),
{
    let mut r: Vec<SelectionStep> = Vec::new();
    let layout = PageLayout::new_with(prev, cal);
    let cols = layout.text_columns_in_content_order(prev);
    if cols.len() == 0 {
        return r;
    }
    let col = cols[cols.len() - 1];
    let words = layout.word_indices(prev, col);
    proof {
        lemma_places(prev@, words@);
        crate::layout::lemma_text_columns(prev@, layout.gap(), prev@.len());
        assert(text_column(prev@, layout.gap(), cols@[cols@.len() - 1] as nat));
    }
    match sentence_tail_in_column(prev, &words) {
        Some(t) => {
            r.push(
                SelectionStep {
                    page: if start_page == 0 {
                        0
                    } else {
                        start_page - 1
                    },
                    lo: t.0,
                    hi: t.1,
                    column_left: Some(layout.rep(col)),
                },
            );
        },
        None => {},
    }
    r
}

proof fn lemma_places(flat: Seq<FlatWord>, words: Seq<usize>)
    requires
        forall|k: int| 0 <= k < words.len() ==> #[trigger] words[k] < flat.len(),
    ensures
        on_page(flat, places(words)),
        places(words).len() == words.len(),
{
    assert forall|k: int| 0 <= k < places(words).len() implies 0 <= #[trigger] places(words)[k] < flat.len() by {
        assert(places(words)[k] == words[k]);
    }
}

/// The part of the sentence at `idx` that stands before its column.
pub fn sentence_backward_with(
    flat: &[FlatWord],
    idx: usize,
    prev_flat: Option<&[FlatWord]>,
    start_page: u32,
    cal: DocCalibration,
) -> (r: Vec<SelectionStep>)
    requires
        idx < flat@.len(),
    ensures
        r@ == sentence_before(flat@, idx as int, page_words(prev_flat), start_page, cal),
    decreases text_rank(flat@, cal.column_gap_cqw as int, column_at(flat@, cal.column_gap_cqw as int, idx as int)),
{
    let ghost gap = cal.column_gap_cqw as int;
    let layout = PageLayout::new_with(flat, cal);
    let col = match layout.col_of(flat, idx) {
        Some(c) => c,
        None => {
            return Vec::new();
        },
    };
    let words = layout.word_indices(flat, col);
    proof {
        lemma_places(flat@, words@);
        lemma_words_are_in_the_column(flat@, gap, col);
        assert(places(words@).contains(idx as int));
        lemma_first_place(places(words@), idx as int, 0);
    }
    let pos = place_in(&words, idx, 0);
    let (para_lo, _) = paragraph_range_with(flat, idx, cal);
    if !starts_column(flat, &words, para_lo, pos) {
        return Vec::new();
    }
    match layout.previous_text_column(flat, col) {
        Some(p) => {
            let pw = layout.word_indices(flat, p);
            proof {
                lemma_places(flat@, pw@);
                lemma_tail_column(flat@, gap, col);
            }
            match sentence_tail_in_column(flat, &pw) {
                None => Vec::new(),
                Some(t) => {
                    assert(places(pw@)[0] == pw@[0]);
                    let mut steps = if t.0 == pw[0] {
                        sentence_backward_with(flat, pw[0], prev_flat, start_page, cal)
                    } else {
                        Vec::new()
                    };
                    steps.push(
                        SelectionStep {
                            page: start_page,
                            lo: t.0,
                            hi: t.1,
                            column_left: Some(layout.rep(p)),
                        },
                    );
                    steps
                },
            }
        },
        None => match prev_flat {
            Some(prev) => tail_before(prev, start_page, cal),
            None => Vec::new(),
        },
    }
}

/// The words of a page, where there is one.
pub open spec fn page_words(p: Option<&[FlatWord]>) -> Option<Seq<FlatWord>> {
    match p {
        Some(f) => Some(f@),
        None => None,
    }
}

// ── going on ──

/// The text of the first word at or behind `from` that shows something.
pub open spec fn text_from(flat: Seq<FlatWord>, from: int) -> Option<Seq<char>> {
    match first_inked(flat, from) {
        Some(k) => Some(flat[k].text@),
        None => None,
    }
}

/// What a sentence gathers on its way: a stretch of one column.
pub struct Stretch {
    pub lo: usize,
    pub hi: usize,
    pub col: usize,
}

/// The step over a stretch.
pub open spec fn stretch_step(flat: Seq<FlatWord>, cal: DocCalibration, page: u32, s: Stretch) -> SelectionStep {
    step_over(page, s.lo as int, s.hi as int, column_lefts(flat, cal.column_gap_cqw as int)[s.col as int])
}

/// The stretch with word `j` of column `c` taken in.
pub open spec fn stretched(acc: Option<Stretch>, j: int, c: usize) -> Stretch {
    match acc {
        Some(s) => if s.col == c {
            Stretch { lo: s.lo, hi: j as usize, col: c }
        } else {
            Stretch { lo: j as usize, hi: j as usize, col: c }
        },
        None => Stretch { lo: j as usize, hi: j as usize, col: c },
    }
}

/// The step that ends where word `j` of column `c` starts a new stretch.
pub open spec fn left_behind(
    flat: Seq<FlatWord>,
    cal: DocCalibration,
    page: u32,
    acc: Option<Stretch>,
    c: usize,
) -> Seq<SelectionStep> {
    match acc {
        Some(s) => if s.col == c {
            Seq::empty()
        } else {
            seq![stretch_step(flat, cal, page, s)]
        },
        None => Seq::empty(),
    }
}

/// Word `j` takes part in a sentence that runs on: it belongs to a column of
/// running text, or it is a formula in any column.
pub open spec fn takes_part(flat: Seq<FlatWord>, cal: DocCalibration, j: int) -> bool {
    let gap = cal.column_gap_cqw as int;
    &&& column_at(flat, gap, j) is Some
    &&& text_column(flat, gap, column_at(flat, gap, j)->0 as nat) || flat[j].formula
}

/// A sentence that runs on from word `j` at bracket depth `d`: its steps,
/// whether it ends on this page, and the bracket depth at the end of the page.
pub open spec fn flow(
    flat: Seq<FlatWord>,
    cal: DocCalibration,
    page: u32,
    j: int,
    acc: Option<Stretch>,
    d: nat,
) -> (Seq<SelectionStep>, bool, nat)
    decreases flat.len() - j,
{
    if j >= flat.len() {
        match acc {
            Some(s) => (seq![stretch_step(flat, cal, page, s)], false, d),
            None => (Seq::empty(), false, d),
        }
    } else if !takes_part(flat, cal, j) {
        flow(flat, cal, page, j + 1, acc, d)
    } else {
        let c = column_at(flat, cal.column_gap_cqw as int, j)->0;
        let behind = left_behind(flat, cal, page, acc, c);
        let now = stretched(acc, j, c);
        let text = flat[j].text@;
        if breaks(text, d, text_from(flat, j + 1)) {
            (behind.push(stretch_step(flat, cal, page, now)), true, depth_behind(text, d))
        } else {
            let rest = flow(flat, cal, page, j + 1, Some(now), depth_behind(text, d));
            (behind + rest.0, rest.1, rest.2)
        }
    }
}

/// Where a sentence enters the next page: at the first word of the leftmost
/// column of running text, unless that starts a paragraph.
pub open spec fn page_entry(flat: Seq<FlatWord>, cal: DocCalibration) -> Option<int> {
    let gap = cal.column_gap_cqw as int;
    match text_column_from(flat, gap, 0) {
        None => None,
        Some(c) => if first_line_indented(flat, cal, c) || column_words(flat, gap, c).len() == 0 {
            None
        } else {
            Some(column_words(flat, gap, c)[0])
        },
    }
}

/// A sentence that runs on over the rest of the page, and over the next page.
pub open spec fn flow_on(
    flat: Seq<FlatWord>,
    next: Option<Seq<FlatWord>>,
    page: u32,
    cal: DocCalibration,
    from: int,
    d: nat,
) -> Seq<SelectionStep> {
    let here = flow(flat, cal, page, from, None, d);
    if here.1 {
        here.0
    } else {
        match next {
            None => here.0,
            Some(nf) => match page_entry(nf, cal) {
                None => here.0,
                Some(j) => here.0 + flow(nf, cal, (page + 1) as u32, j, None, here.2).0,
            },
        }
    }
}

/// The sentence at word `a` from where it starts in its column: to its end in
/// the column or to the end of its paragraph; where the paragraph reaches the
/// end of the column, over the columns behind it and the next page.
pub open spec fn sentence_from(
    flat: Seq<FlatWord>,
    a: int,
    next: Option<Seq<FlatWord>>,
    page: u32,
    cal: DocCalibration,
) -> Seq<SelectionStep> {
    let gap = cal.column_gap_cqw as int;
    if column_at(flat, gap, a) is None {
        Seq::empty()
    } else {
        let col = column_at(flat, gap, a)->0;
        let left = column_lefts(flat, gap)[col as int];
        let ws = column_words(flat, gap, col);
        let para = paragraph(flat, a, cal);
        let para_end = place_of(ws, para.1, ws.len() - 1);
        let from = place_of(ws, para.0, 0);
        let at = place_of(ws, a, 0);
        let start = start_scan(flat, ws, from, at).0;
        let end = end_scan(flat, ws, start, para_end, opening_depth(flat, ws, from, at));
        match end.0 {
            Some(k) => seq![step_over(page, ws[start], ws[k], left)],
            None => if para_end < ws.len() - 1 {
                seq![step_over(page, ws[start], ws[para_end], left)]
            } else {
                seq![step_over(page, ws[start], ws.last(), left)] + flow_on(
                    flat,
                    next,
                    page,
                    cal,
                    ws.last() + 1,
                    end.1,
                )
            },
        }
    }
}

/// The sentence round place `idx` in reading order.
pub open spec fn sentence(
    flat: Seq<FlatWord>,
    idx: int,
    prev: Option<Seq<FlatWord>>,
    next: Option<Seq<FlatWord>>,
    page: u32,
    cal: DocCalibration,
) -> Seq<SelectionStep> {
    if flat.len() == 0 {
        Seq::empty()
    } else {
        let a = snapped(flat, idx);
        if flat[a].formula {
            formula_sentence(flat, a, page, cal)
        } else {
            sentence_before(flat, a, prev, page, cal) + sentence_from(flat, a, next, page, cal)
        }
    }
}

fn next_non_space<'a>(flat: &'a [FlatWord], from: usize) -> (r: Option<&'a str>)
    ensures
        opt_view(r) == text_from(flat@, from as int),
{
    let mut i = from;
    while i < flat.len()
        invariant
            first_inked(flat@, from as int) == first_inked(flat@, i as int),
        decreases flat@.len() - i,
    {
        if is_inked(&flat[i]) {
            return Some(flat[i].text.as_str());
        }
        i = i + 1;
    }
    None
}

/// Follows a sentence over the words of a page from word `from` on, adding its
/// steps; tells whether it ended.
fn follow(
    flat: &[FlatWord],
    layout: &PageLayout,
    page: u32,
    from: usize,
    depth: &mut usize,
    steps: &mut Vec<SelectionStep>,
) -> (ended: bool)
    requires
        layout.of(flat@),
    ensures
        final(steps)@ == old(steps)@ + flow(flat@, layout.cal, page, from as int, None, *old(depth) as nat).0,
        ended == flow(flat@, layout.cal, page, from as int, None, *old(depth) as nat).1,
        *final(depth) == flow(flat@, layout.cal, page, from as int, None, *old(depth) as nat).2,
{
    let ghost cal = layout.cal;
    let ghost all = flow(flat@, cal, page, from as int, None, *depth as nat);
    let mut acc: Option<Stretch> = None;
    let mut j = from;
    assert(steps@ + all.0 =~= old(steps)@ + all.0);
    while j < flat.len()
        invariant
            layout.of(flat@),
            cal == layout.cal,
            all == flow(flat@, cal, page, from as int, None, *old(depth) as nat),
            steps@ + flow(flat@, cal, page, j as int, acc, *depth as nat).0 == old(steps)@ + all.0,
            flow(flat@, cal, page, j as int, acc, *depth as nat).1 == all.1,
            flow(flat@, cal, page, j as int, acc, *depth as nat).2 == all.2,
            acc is Some ==> acc->0.col < layout.reps@.len(),
        decreases flat@.len() - j,
    {
        let col = match layout.col_of(flat, j) {
            Some(c) => c,
            None => {
                j = j + 1;
                continue;
            },
        };
        if !layout.is_text_column(col, Ghost(flat@)) && !flat[j].formula {
            j = j + 1;
            continue;
        }
        let ghost before = steps@;
        let ghost acc0 = acc;
        let ghost d0 = *depth as nat;
        let mut lo = j;
        match &acc {
            Some(s) => {
                if s.col == col {
                    lo = s.lo;
                } else {
                    steps.push(
                        SelectionStep { page, lo: s.lo, hi: s.hi, column_left: Some(layout.rep(s.col)) },
                    );
                }
            },
            None => {},
        }
        acc = Some(Stretch { lo, hi: j, col });
        assert(steps@ =~= before + left_behind(flat@, cal, page, acc0, col));
        let next = if j < usize::MAX {
            next_non_space(flat, j + 1)
        } else {
            None
        };
        if scan_word_boundary(flat[j].text.as_str(), depth, next) {
            steps.push(SelectionStep { page, lo, hi: j, column_left: Some(layout.rep(col)) });
            assert(steps@ =~= old(steps)@ + all.0);
            return true;
        }
        proof {
            let rest = flow(flat@, cal, page, j + 1, acc, *depth as nat);
            assert(steps@ + rest.0 =~= before + (left_behind(flat@, cal, page, acc0, col) + rest.0));
        }
        j = j + 1;
    }
    match &acc {
        Some(s) => {
            steps.push(SelectionStep { page, lo: s.lo, hi: s.hi, column_left: Some(layout.rep(s.col)) });
        },
        None => {},
    }
    assert(steps@ =~= old(steps)@ + all.0);
    false
}

pub(crate) fn find_entry(flat: &[FlatWord], layout: &PageLayout) -> (r: Option<usize>)
    requires
        layout.of(flat@),
    ensures
        match r {
            Some(j) => page_entry(flat@, layout.cal) == Some(j as int) && j < flat@.len(),
            None => page_entry(flat@, layout.cal) is None,
        },
{
    match layout.first_text_column(flat) {
        None => None,
        Some(c) => {
            if layout.column_first_line_indented(flat, c) {
                return None;
            }
            let words = layout.word_indices(flat, c);
            assert(places(words@).len() == words@.len());
            if words.len() == 0 {
                None
            } else {
                assert(places(words@)[0] == words@[0]);
                Some(words[0])
            }
        },
    }
}

/// The sentence at word `a` from where it starts in its column.
fn sentence_from_word(
    flat: &[FlatWord],
    a: usize,
    next_flat: Option<&[FlatWord]>,
    start_page: u32,
    cal: DocCalibration,
) -> (r: Vec<SelectionStep>)
    requires
        a < flat@.len(),
        next_flat is Some ==> start_page < u32::MAX,
    ensures
        r@ == sentence_from(flat@, a as int, page_words(next_flat), start_page, cal),
{
    let ghost gap = cal.column_gap_cqw as int;
    let mut steps: Vec<SelectionStep> = Vec::new();
    let layout = PageLayout::new_with(flat, cal);
    let col = match layout.col_of(flat, a) {
        Some(c) => c,
        None => {
            return steps;
        },
    };
    let left = layout.rep(col);
    let words = layout.word_indices(flat, col);
    let ghost ws = places(words@);
    proof {
        lemma_places(flat@, words@);
        lemma_words_are_in_the_column(flat@, gap, col);
        assert(ws.contains(a as int));
        lemma_first_place(ws, a as int, 0);
    }
    let (para_lo, para_hi) = paragraph_range_with(flat, a, cal);
    let pos = place_in(&words, a, 0);
    let para_start = place_in(&words, para_lo, 0);
    let para_end = place_in(&words, para_hi, words.len() - 1);
    let (start, opening) = find_start(flat, &words, para_start, pos);
    let mut depth: usize = opening;
    let end = find_end(flat, &words, start, para_end, &mut depth);
    let last = words[words.len() - 1];
    proof {
        assert(ws[start as int] == words@[start as int]);
        assert(ws[para_end as int] == words@[para_end as int]);
        assert(ws.last() == last);
    }
    match end {
        Some(k) => {
            assert(ws[k as int] == words@[k as int]);
            steps.push(SelectionStep { page: start_page, lo: words[start], hi: words[k], column_left: Some(left) });
            return steps;
        },
        None => {},
    }
    if para_end < words.len() - 1 {
        steps.push(
            SelectionStep { page: start_page, lo: words[start], hi: words[para_end], column_left: Some(left) },
        );
        return steps;
    }
    steps.push(SelectionStep { page: start_page, lo: words[start], hi: last, column_left: Some(left) });
    let ghost head = steps@;
    let ghost d = depth as nat;
    let n = flat.len();
    assert(last < n);
    if follow(flat, &layout, start_page, last + 1, &mut depth, &mut steps) {
        return steps;
    }
    match next_flat {
        None => {},
        Some(next) => {
            let next_layout = PageLayout::new_with(next, cal);
            match find_entry(next, &next_layout) {
                Some(j) => {
                    follow(next, &next_layout, start_page + 1, j, &mut depth, &mut steps);
                },
                None => {},
            }
        },
    }
    assert(steps@ =~= head + flow_on(flat@, page_words(next_flat), start_page, cal, last + 1, d));
    steps
}

/// The sentence of place `idx` from where it starts in its column, as far as the
/// next page; nothing on a page without words.
pub fn sentence_forward_with(
    flat: &[FlatWord],
    idx: usize,
    next_flat: Option<&[FlatWord]>,
    start_page: u32,
    cal: DocCalibration,
) -> (r: Vec<SelectionStep>)
    requires
        next_flat is Some ==> start_page < u32::MAX,
    ensures
        r@ == if flat@.len() == 0 {
            Seq::empty()
        } else {
            sentence_from(flat@, snapped(flat@, idx as int), page_words(next_flat), start_page, cal)
        },
{
    if flat.len() == 0 {
        return Vec::new();
    }
    let a = snap_to_word(flat, idx);
    sentence_from_word(flat, a, next_flat, start_page, cal)
}

/// The sentence round place `idx` in reading order: back over earlier columns
/// and the page before where it starts there, and on over later columns and
/// the next page where it ends there.
pub fn sentence_walk_with(
    flat: &[FlatWord],
    idx: usize,
    prev_flat: Option<&[FlatWord]>,
    next_flat: Option<&[FlatWord]>,
    start_page: u32,
    cal: DocCalibration,
) -> (r: Vec<SelectionStep>)
    requires
        next_flat is Some ==> start_page < u32::MAX,
    ensures
        r@ == sentence(flat@, idx as int, page_words(prev_flat), page_words(next_flat), start_page, cal),
{
    if flat.len() == 0 {
        return Vec::new();
    }
    let a = snap_to_word(flat, idx);
    if flat[a].formula {
        return formula_sentence_walk_with(flat, a, start_page, cal);
    }
    let mut steps = sentence_backward_with(flat, a, prev_flat, start_page, cal);
    let mut rest = sentence_from_word(flat, a, next_flat, start_page, cal);
    steps.append(&mut rest);
    steps
}

/// As `sentence_walk_with`, with the usual thresholds.
pub fn sentence_walk(
    flat: &[FlatWord],
    idx: usize,
    prev_flat: Option<&[FlatWord]>,
    next_flat: Option<&[FlatWord]>,
    start_page: u32,
) -> (r: Vec<SelectionStep>)
    requires
        next_flat is Some ==> start_page < u32::MAX,
    ensures
        r@ == sentence(
            flat@,
            idx as int,
            page_words(prev_flat),
            page_words(next_flat),
            start_page,
            default_calibration(),
        ),
{
    sentence_walk_with(flat, idx, prev_flat, next_flat, start_page, DocCalibration::default())
}

} // verus!
