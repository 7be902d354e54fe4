//! Paragraphs in reading order, over columns and pages.
use crate::formula::{formula_block, formula_block_range_with};
use crate::layout::{
    column_at, column_end, column_words, first_line_indented, lemma_next_column_is_later, lemma_previous_ranks_lower,
    lemma_text_columns, lemma_words_are_in_the_column, next_text_column, previous_text_column,
    reading_stays_in_running_text, text_column, text_columns, text_rank, PageLayout,
};
use crate::lines::{column_lefts, magnitude};
use crate::page_text::{default_calibration, inked, is_inked, DocCalibration, FlatWord, CQW};
use crate::paragraph::{paragraph, paragraph_range_with};
use crate::selection::{snap_to_word, snapped, SelectionStep};
use crate::sentence::{find_entry, page_before, page_entry, page_words, places, step_over};
use vstd::prelude::*;

verus! {

// ── going back ──

/// The paragraph at `a` starts with the first line of its column, and that line
/// is not indented: it may have begun before.
pub open spec fn begins_before(flat: Seq<FlatWord>, a: int, cal: DocCalibration, col: usize) -> bool {
    let words = column_words(flat, cal.column_gap_cqw as int, col);
    &&& words.len() > 0
    &&& flat[paragraph(flat, a, cal).0].line == flat[words[0]].line
    &&& !first_line_indented(flat, cal, col)
}

/// The paragraph round the last word of column `col` reaches the end of the
/// column.
pub open spec fn reaches_column_end(flat: Seq<FlatWord>, cal: DocCalibration, col: usize) -> bool {
    let words = column_words(flat, cal.column_gap_cqw as int, col);
    words.len() > 0 && flat[paragraph(flat, words.last(), cal).1].line == flat[words.last()].line
}

/// The step over the paragraph round the last word of column `col`.
pub open spec fn last_paragraph(flat: Seq<FlatWord>, page: u32, cal: DocCalibration, col: usize) -> SelectionStep {
    let gap = cal.column_gap_cqw as int;
    let p = paragraph(flat, column_words(flat, gap, col).last(), cal);
    step_over(page, p.0, p.1, column_lefts(flat, gap)[col as int])
}

/// The last paragraph of the page before, where it runs on.
pub open spec fn paragraph_of_page_before(prev: Seq<FlatWord>, page: u32, cal: DocCalibration) -> Seq<SelectionStep> {
    let cols = text_columns(prev, cal.column_gap_cqw as int);
    if cols.len() > 0 && reaches_column_end(prev, cal, cols.last()) && !first_line_indented(
        prev,
        cal,
        cols.last(),
    ) {
        seq![last_paragraph(prev, page_before(page), cal, cols.last())]
    } else {
        Seq::empty()
    }
}

/// The part of the paragraph at `a` that stands before its column.
pub open spec fn paragraph_before(
    flat: Seq<FlatWord>,
    a: int,
    prev: Option<Seq<FlatWord>>,
    page: u32,
    cal: DocCalibration,
) -> Seq<SelectionStep>
    decreases text_rank(flat, cal.column_gap_cqw as int, column_at(flat, cal.column_gap_cqw as int, a)),
{
    let gap = cal.column_gap_cqw as int;
    match column_at(flat, gap, a) {
        None => Seq::empty(),
        Some(col) => if !begins_before(flat, a, cal, col) {
            Seq::empty()
        } else {
            match previous_text_column(flat, gap, col) {
                Some(p) => if !reaches_column_end(flat, cal, p) {
                    Seq::empty()
                } else {
                    proof {
                        lemma_last_word_column(flat, gap, col);
                    }
                    paragraph_before(flat, column_words(flat, gap, p).last(), prev, page, cal).push(
                        last_paragraph(flat, page, cal, p),
                    )
                },
                None => match prev {
                    Some(pf) => paragraph_of_page_before(pf, page, cal),
                    None => Seq::empty(),
                },
            }
        },
    }
}

pub proof fn lemma_last_word_column(flat: Seq<FlatWord>, gap: int, col: usize)
    requires
        previous_text_column(flat, gap, col) is Some,
    ensures
        ({
            let p = previous_text_column(flat, gap, col)->0;
            let words = column_words(flat, gap, p);
            words.len() > 0 ==> column_at(flat, gap, words.last()) == Some(p) && text_rank(
                flat,
                gap,
                column_at(flat, gap, words.last()),
            ) < text_rank(flat, gap, Some(col))
        }),
{
    lemma_previous_ranks_lower(flat, gap, col);
    let p = previous_text_column(flat, gap, col)->0;
    lemma_words_are_in_the_column(flat, gap, p);
}

/// The part of the paragraph at `a` that stands before its column.
pub fn paragraph_backward_with(
    flat: &[FlatWord],
    a: usize,
    prev_flat: Option<&[FlatWord]>,
    start_page: u32,
    cal: DocCalibration,
) -> (r: Vec<SelectionStep>)
    requires
        a < flat@.len(),
    ensures
        r@ == paragraph_before(flat@, a as int, page_words(prev_flat), start_page, cal),
    decreases text_rank(flat@, cal.column_gap_cqw as int, column_at(flat@, cal.column_gap_cqw as int, a as int)),
{
    let ghost gap = cal.column_gap_cqw as int;
    let layout = PageLayout::new_with(flat, cal);
    let col = match layout.col_of(flat, a) {
        Some(c) => c,
        None => {
            return Vec::new();
        },
    };
    let (lo, _) = paragraph_range_with(flat, a, cal);
    let words = layout.word_indices(flat, col);
    assert(places(words@).len() == words@.len());
    if words.len() == 0 {
        return Vec::new();
    }
    assert(places(words@)[0] == words@[0]);
    if flat[lo].line != flat[words[0]].line || layout.column_first_line_indented(flat, col) {
        return Vec::new();
    }
    match layout.previous_text_column(flat, col) {
        Some(p) => {
            let pw = layout.word_indices(flat, p);
            assert(places(pw@).len() == pw@.len());
            if pw.len() == 0 {
                return Vec::new();
            }
            let last = pw[pw.len() - 1];
            assert(places(pw@).last() == last);
            let (plo, phi) = paragraph_range_with(flat, last, cal);
            if flat[phi].line != flat[last].line {
                return Vec::new();
            }
            proof {
                lemma_last_word_column(flat@, gap, col);
            }
            let mut steps = paragraph_backward_with(flat, last, prev_flat, start_page, cal);
            steps.push(SelectionStep { page: start_page, lo: plo, hi: phi, column_left: Some(layout.rep(p)) });
            steps
        },
        None => match prev_flat {
            Some(prev) => paragraph_on_page_before(prev, start_page, cal),
            None => Vec::new(),
        },
    }
}

fn paragraph_on_page_before(prev: &[FlatWord], start_page: u32, cal: DocCalibration) -> (r: Vec<SelectionStep>)
    ensures
        r@ == paragraph_of_page_before(prev@, start_page, cal),
{
    let mut r: Vec<SelectionStep> = Vec::new();
    let layout = PageLayout::new_with(prev, cal);
    let cols = layout.text_columns_in_content_order(prev);
    if cols.len() == 0 {
        return r;
    }
    let col = cols[cols.len() - 1];
    proof {
        lemma_text_columns(prev@, layout.gap(), prev@.len());
        assert(text_column(prev@, layout.gap(), cols@[cols@.len() - 1] as nat));
    }
    let words = layout.word_indices(prev, col);
    assert(places(words@).len() == words@.len());
    if words.len() == 0 {
        return r;
    }
    let last = words[words.len() - 1];
    assert(places(words@).last() == last);
    let (plo, phi) = paragraph_range_with(prev, last, cal);
    if prev[phi].line == prev[last].line && !layout.column_first_line_indented(prev, col) {
        r.push(
            SelectionStep {
                page: if start_page == 0 {
                    0
                } else {
                    start_page - 1
                },
                lo: plo,
                hi: phi,
                column_left: Some(layout.rep(col)),
            },
        );
    }
    r
}

// ── going on ──

/// The paragraph at `a` from its column on: over the columns of running text
/// behind it, and over the next page, as long as it reaches the end of each
/// column and the next one does not start with an indented line.
pub open spec fn paragraph_from(
    flat: Seq<FlatWord>,
    a: int,
    next: Option<Seq<FlatWord>>,
    page: u32,
    cal: DocCalibration,
) -> Seq<SelectionStep>
    decreases
            (if next is Some { 1int } else { 0int }),
            flat.len() - column_end_at(flat, cal.column_gap_cqw as int, a),
{
    let gap = cal.column_gap_cqw as int;
    match column_at(flat, gap, a) {
        None => Seq::empty(),
        Some(col) => {
            let para = paragraph(flat, a, cal);
            let here = seq![step_over(page, para.0, para.1, column_lefts(flat, gap)[col as int])];
            let words = column_words(flat, gap, col);
            if words.len() > 0 && flat[para.1].line != flat[words.last()].line {
                here
            } else {
                match next_text_column(flat, gap, col) {
                    Some(c) => {
                        proof {
                            lemma_next_text_words(flat, gap, col);
                        }
                        if first_line_indented(flat, cal, c) {
                            here
                        } else {
                            here + paragraph_from(flat, column_words(flat, gap, c)[0], next, page, cal)
                        }
                    },
                    None => match next {
                        None => here,
                        Some(nf) => match page_entry(nf, cal) {
                            None => here,
                            Some(j) => here + paragraph_from(nf, j, None, (page + 1) as u32, cal),
                        },
                    },
                }
            }
        },
    }
}

/// The end of the column of word `a`.
pub open spec fn column_end_at(flat: Seq<FlatWord>, gap: int, a: int) -> int {
    match column_at(flat, gap, a) {
        Some(c) => column_end(flat, gap, c),
        None => 0,
    }
}

pub proof fn lemma_next_text_words(flat: Seq<FlatWord>, gap: int, col: usize)
    requires
        next_text_column(flat, gap, col) is Some,
    ensures
        ({
            let c = next_text_column(flat, gap, col)->0;
            let words = column_words(flat, gap, c);
            &&& words.len() > 0
            &&& 0 <= words[0] < flat.len()
            &&& column_at(flat, gap, words[0]) == Some(c)
            &&& column_end(flat, gap, col) < column_end(flat, gap, c) <= flat.len()
            &&& column_end_at(flat, gap, words[0]) == column_end(flat, gap, c)
        }),
{
    reading_stays_in_running_text(flat, gap, col);
    lemma_next_column_is_later(flat, gap, col);
    let c = next_text_column(flat, gap, col)->0;
    lemma_next_column_is_later(flat, gap, c);
    lemma_words_are_in_the_column(flat, gap, c);
}

/// The paragraph at `a` from its column on.
fn paragraph_from_word(
    flat: &[FlatWord],
    a: usize,
    next_flat: Option<&[FlatWord]>,
    start_page: u32,
    cal: DocCalibration,
) -> (r: Vec<SelectionStep>)
    requires
        a < flat@.len(),
        next_flat is Some ==> start_page < u32::MAX,
    ensures
        r@ == paragraph_from(flat@, a as int, page_words(next_flat), start_page, cal),
    decreases
            (if next_flat is Some { 1int } else { 0int }),
            flat@.len() - column_end_at(flat@, cal.column_gap_cqw as int, a as int),
{
    let ghost gap = cal.column_gap_cqw as int;
    let mut steps: Vec<SelectionStep> = Vec::new();
    let layout = PageLayout::new_with(flat, cal);
    let col = match layout.col_of(flat, a) {
        Some(c) => c,
        None => {
            return steps;
        },
    };
    let (lo, hi) = paragraph_range_with(flat, a, cal);
    steps.push(SelectionStep { page: start_page, lo, hi, column_left: Some(layout.rep(col)) });
    let words = layout.word_indices(flat, col);
    assert(places(words@).len() == words@.len());
    if words.len() > 0 {
        let last = words[words.len() - 1];
        assert(places(words@).last() == last);
        if flat[hi].line != flat[last].line {
            return steps;
        }
    }
    match layout.next_text_column(flat, col) {
        Some(c) => {
            proof {
                lemma_next_text_words(flat@, gap, col);
                lemma_next_column_is_later(flat@, gap, col);
            }
            if layout.column_first_line_indented(flat, c) {
                return steps;
            }
            let first = layout.word_indices(flat, c);
            assert(places(first@).len() == first@.len());
            assert(places(first@)[0] == first@[0]);
            let mut rest = paragraph_from_word(flat, first[0], next_flat, start_page, cal);
            steps.append(&mut rest);
        },
        None => match next_flat {
            None => {},
            Some(next) => {
                let next_layout = PageLayout::new_with(next, cal);
                match find_entry(next, &next_layout) {
                    None => {},
                    Some(j) => {
                        let mut rest = paragraph_from_word(next, j, None, start_page + 1, cal);
                        steps.append(&mut rest);
                    },
                }
            },
        },
    }
    steps
}

/// The paragraph of place `idx` from its column on, as far as the next page;
/// nothing on a page without words.
pub fn paragraph_forward_with(
    flat: &[FlatWord],
    idx: usize,
    next_flat: Option<&[FlatWord]>,
    start_page: u32,
    cal: DocCalibration,
) -> (r: Vec<SelectionStep>)
    requires
        next_flat is Some ==> start_page < u32::MAX,
    ensures
        r@ == if flat@.len() == 0 {
            Seq::empty()
        } else {
            paragraph_from(flat@, snapped(flat@, idx as int), page_words(next_flat), start_page, cal)
        },
{
    if flat.len() == 0 {
        return Vec::new();
    }
    let a = snap_to_word(flat, idx);
    paragraph_from_word(flat, a, next_flat, start_page, cal)
}

// ── formulas ──

/// The step over the formula block at `a`.
pub open spec fn block_step(flat: Seq<FlatWord>, a: int, page: u32, cal: DocCalibration, col: usize) -> SelectionStep {
    let b = formula_block(flat, a, cal);
    step_over(page, b.0, b.1, column_lefts(flat, cal.column_gap_cqw as int)[col as int])
}

/// Column `col` holds a formula word more than half a `cqw` below word `last`.
pub open spec fn formula_below(flat: Seq<FlatWord>, gap: int, col: usize, last: int) -> bool {
    exists|i: int|
        0 <= i < flat.len() && inked(flat[i]) && flat[i].formula && #[trigger] column_at(flat, gap, i) == Some(
            col,
        ) && flat[i].top_cqw > flat[last].top_cqw + 500_000
}

/// The first column from `k` on whose left edge is less than one `cqw` from
/// `left`.
pub open spec fn column_near(lefts: Seq<i64>, left: i64, k: int) -> Option<int>
    decreases lefts.len() - k,
{
    if k >= lefts.len() {
        None
    } else if magnitude(lefts[k] - left) < CQW {
        Some(k)
    } else {
        column_near(lefts, left, k + 1)
    }
}

/// Where a formula block goes on on the next page: at the first word of the
/// column in the same place, if that is a formula and not indented.
pub open spec fn formula_entry(next: Seq<FlatWord>, left: i64, cal: DocCalibration) -> Option<int> {
    let gap = cal.column_gap_cqw as int;
    match column_near(column_lefts(next, gap), left, 0) {
        None => None,
        Some(c) => {
            let words = column_words(next, gap, c as usize);
            if words.len() > 0 && next[words[0]].formula && !first_line_indented(next, cal, c as usize) {
                Some(words[0])
            } else {
                None
            }
        },
    }
}

/// The paragraph round place `idx` on a page taken by itself.
pub open spec fn paragraph_alone(flat: Seq<FlatWord>, idx: int, page: u32, cal: DocCalibration) -> Seq<SelectionStep> {
    let gap = cal.column_gap_cqw as int;
    if flat.len() == 0 {
        Seq::empty()
    } else {
        let a = snapped(flat, idx);
        if flat[a].formula {
            match column_at(flat, gap, a) {
                None => Seq::empty(),
                Some(col) => seq![block_step(flat, a, page, cal, col)],
            }
        } else {
            paragraph_before(flat, a, None, page, cal) + paragraph_from(flat, a, None, page, cal)
        }
    }
}

/// The formula block at `a`, and on the next page where it goes on there.
pub open spec fn formula_paragraph(
    flat: Seq<FlatWord>,
    a: int,
    next: Option<Seq<FlatWord>>,
    page: u32,
    cal: DocCalibration,
) -> Seq<SelectionStep> {
    let gap = cal.column_gap_cqw as int;
    match column_at(flat, gap, a) {
        None => Seq::empty(),
        Some(col) => {
            let here = seq![block_step(flat, a, page, cal, col)];
            if next is None || formula_below(flat, gap, col, formula_block(flat, a, cal).1) {
                here
            } else {
                match formula_entry(next->0, column_lefts(flat, gap)[col as int], cal) {
                    None => here,
                    Some(j) => here + paragraph_alone(next->0, j, (page + 1) as u32, cal),
                }
            }
        },
    }
}

/// The paragraph round place `idx` in reading order; for a formula, its block.
pub open spec fn reading_paragraph(
    flat: Seq<FlatWord>,
    idx: int,
    prev: Option<Seq<FlatWord>>,
    next: Option<Seq<FlatWord>>,
    page: u32,
    cal: DocCalibration,
) -> Seq<SelectionStep> {
    if flat.len() == 0 {
        Seq::empty()
    } else {
        let a = snapped(flat, idx);
        if flat[a].formula {
            formula_paragraph(flat, a, next, page, cal)
        } else {
            paragraph_before(flat, a, prev, page, cal) + paragraph_from(flat, a, next, page, cal)
        }
    }
}

fn has_formula_below(flat: &[FlatWord], layout: &PageLayout, col: usize, last: usize) -> (r: bool)
    requires
        layout.of(flat@),
        last < flat@.len(),
    ensures
        r == formula_below(flat@, layout.gap(), col, last as int),
{
    let least: i128 = (flat[last].top_cqw as i128) + 500_000;
    let mut i: usize = 0;
    while i < flat.len()
        invariant
            i <= flat@.len(),
            last < flat@.len(),
            layout.of(flat@),
            least == flat@[last as int].top_cqw + 500_000,
            forall|k: int|
                0 <= k < i ==> !(inked(flat@[k]) && flat@[k].formula && #[trigger] column_at(flat@, layout.gap(), k)
                    == Some(col) && flat@[k].top_cqw > least),
        decreases flat@.len() - i,
    {
        if is_inked(&flat[i]) && flat[i].formula && (flat[i].top_cqw as i128) > least {
            match layout.col_of(flat, i) {
                Some(c) => {
                    if c == col {
                        return true;
                    }
                },
                None => {},
            }
        }
        i = i + 1;
    }
    false
}

fn find_column_near(lefts: &Vec<i64>, left: i64) -> (r: Option<usize>)
    ensures
        match r {
            Some(k) => column_near(lefts@, left, 0) == Some(k as int) && k < lefts@.len(),
            None => column_near(lefts@, left, 0) is None,
        },
{
    let mut k: usize = 0;
    while k < lefts.len()
        invariant
            k <= lefts@.len(),
            column_near(lefts@, left, 0) == column_near(lefts@, left, k as int),
        decreases lefts@.len() - k,
    {
        let d: i128 = (lefts[k] as i128) - (left as i128);
        if -(CQW as i128) < d && d < CQW as i128 {
            return Some(k);
        }
        k = k + 1;
    }
    None
}

fn find_formula_entry(next: &[FlatWord], left: i64, cal: DocCalibration) -> (r: Option<usize>)
    ensures
        match r {
            Some(j) => formula_entry(next@, left, cal) == Some(j as int) && j < next@.len(),
            None => formula_entry(next@, left, cal) is None,
        },
{
    let layout = PageLayout::new_with(next, cal);
    match find_column_near(&layout.reps, left) {
        None => None,
        Some(c) => {
            let words = layout.word_indices(next, c);
            assert(places(words@).len() == words@.len());
            if words.len() == 0 {
                return None;
            }
            assert(places(words@)[0] == words@[0]);
            let first = words[0];
            if next[first].formula && !layout.column_first_line_indented(next, c) {
                Some(first)
            } else {
                None
            }
        },
    }
}

fn paragraph_walk_alone(flat: &[FlatWord], idx: usize, start_page: u32, cal: DocCalibration) -> (r: Vec<SelectionStep>)
    ensures
        r@ == paragraph_alone(flat@, idx as int, start_page, cal),
{
    let mut steps: Vec<SelectionStep> = Vec::new();
    if flat.len() == 0 {
        return steps;
    }
    let a = snap_to_word(flat, idx);
    if flat[a].formula {
        let layout = PageLayout::new_with(flat, cal);
        match layout.col_of(flat, a) {
            None => {},
            Some(col) => {
                let (lo, hi) = formula_block_range_with(flat, a, cal);
                steps.push(SelectionStep { page: start_page, lo, hi, column_left: Some(layout.rep(col)) });
            },
        }
        return steps;
    }
    let mut before = paragraph_backward_with(flat, a, None, start_page, cal);
    let mut rest = paragraph_from_word(flat, a, None, start_page, cal);
    before.append(&mut rest);
    before
}

/// The formula block at `a`, and on the next page where it goes on there.
pub fn paragraph_walk_formula_with(
    flat: &[FlatWord],
    a: usize,
    next_flat: Option<&[FlatWord]>,
    start_page: u32,
    cal: DocCalibration,
) -> (r: Vec<SelectionStep>)
    requires
        a < flat@.len(),
        next_flat is Some ==> start_page < u32::MAX,
    ensures
        r@ == formula_paragraph(flat@, a as int, page_words(next_flat), start_page, cal),
{
    let mut steps: Vec<SelectionStep> = Vec::new();
    let layout = PageLayout::new_with(flat, cal);
    let col = match layout.col_of(flat, a) {
        Some(c) => c,
        None => {
            return steps;
        },
    };
    let left = layout.rep(col);
    let (lo, hi) = formula_block_range_with(flat, a, cal);
    steps.push(SelectionStep { page: start_page, lo, hi, column_left: Some(left) });
    match next_flat {
        None => {},
        Some(next) => {
            if has_formula_below(flat, &layout, col, hi) {
                return steps;
            }
            match find_formula_entry(next, left, cal) {
                None => {},
                Some(j) => {
                    let mut rest = paragraph_walk_alone(next, j, start_page + 1, cal);
                    steps.append(&mut rest);
                },
            }
        },
    }
    steps
}

/// The paragraph round place `idx` in reading order: back over earlier columns
/// and the page before, and on over later columns and the next page; for a
/// formula, its block.
pub fn paragraph_walk_with(
    flat: &[FlatWord],
    idx: usize,
    prev_flat: Option<&[FlatWord]>,
    next_flat: Option<&[FlatWord]>,
    start_page: u32,
    cal: DocCalibration,
) -> (r: Vec<SelectionStep>)
    requires
        next_flat is Some ==> start_page < u32::MAX,
    ensures
        r@ == reading_paragraph(
            flat@,
            idx as int,
            page_words(prev_flat),
            page_words(next_flat),
            start_page,
            cal,
        ),
{
    if flat.len() == 0 {
        return Vec::new();
    }
    let a = snap_to_word(flat, idx);
    if flat[a].formula {
        return paragraph_walk_formula_with(flat, a, next_flat, start_page, cal);
    }
    let mut steps = paragraph_backward_with(flat, a, prev_flat, start_page, cal);
    let mut rest = paragraph_from_word(flat, a, next_flat, start_page, cal);
    steps.append(&mut rest);
    steps
}

/// As `paragraph_walk_with`, with the usual thresholds.
pub fn paragraph_walk(
    flat: &[FlatWord],
    idx: usize,
    prev_flat: Option<&[FlatWord]>,
    next_flat: Option<&[FlatWord]>,
    start_page: u32,
) -> (r: Vec<SelectionStep>)
    requires
        next_flat is Some ==> start_page < u32::MAX,
    ensures
        r@ == reading_paragraph(
            flat@,
            idx as int,
            page_words(prev_flat),
            page_words(next_flat),
            start_page,
            default_calibration(),
        ),
{
    paragraph_walk_with(flat, idx, prev_flat, next_flat, start_page, DocCalibration::default())
}

} // verus!
