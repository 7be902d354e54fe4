//! Splitting a page into running text and small print, and finding formulas.
//!
//! - A column of tall single characters, isolated and evenly spaced, is set
//!   vertically: it is small print.
//! - A narrow column of three lines or more with signs of mathematics is a
//!   formula column; all of it stays with the running text, single characters
//!   too.
//! - A line whose signs and surroundings speak for it is a formula.
//! - A line in a smaller font than its column, or a narrow fragment, is small
//!   print.
use crate::columns::{all_in_range, body_width, column_height, column_width, in_range, ranged_median, PageColumns};
use crate::lines::{
    all_describe, column_by_top, column_count, column_lefts, column_lines, column_lines_are_the_lines_of_the_column, column_map,
    column_number, column_of, every_inked_line_has_a_column, height_of, ids, larger, left_of,
    lemma_column_map_upto, lines_by_left, lines_by_left_are_the_inked_lines, magnitude, right_of,
    smaller, sort_by_top, top_of, width_of, words_upto, LineBox,
};
use crate::page_text::{
    assign_gestures, build_flat, copy_word, default_calibration, flat_words, ink_at, with_gestures,
    DocCalibration, FlatWord, OverlayLine, CQW,
};
use crate::signs::{
    chars_upto, has_relation, lemma_lines_count_bound, line_count, line_counts, lines_count,
    lines_count_upto, line_count_upto, math_symbols, operators, page_chars, single_glyph, visible, LineCounts,
};
use crate::sorting::{ints, median};
use crate::text::{count_chars, is_space};
use vstd::prelude::*;

verus! {

/// The score from which a line counts as a formula.
pub const FORMULA_SCORE_THRESHOLD: u32 = 450_000;

/// The smallest size that a line is taken to have.
pub const LEAST_SIZE: i64 = 1_000;

// ── columns ──

/// How many of the first `n` lines are single characters.
pub open spec fn singles_upto(flat: Seq<FlatWord>, ls: Seq<usize>, n: nat) -> nat
    decreases n,
{
    if n == 0 {
        0
    } else if single_glyph(flat, ls[n - 1]) {
        singles_upto(flat, ls, (n - 1) as nat) + 1
    } else {
        singles_upto(flat, ls, (n - 1) as nat)
    }
}

/// A single character that is less than twice as tall as wide.
pub open spec fn squat_glyph(flat: Seq<FlatWord>, line: usize) -> bool {
    &&& single_glyph(flat, line)
    &&& height_of(flat, line) < 2 * larger(right_of(flat, line) - left_of(flat, line), LEAST_SIZE as int)
}

/// How many of the first `n` lines are single squat characters.
pub open spec fn squats_upto(flat: Seq<FlatWord>, ls: Seq<usize>, n: nat) -> nat
    decreases n,
{
    if n == 0 {
        0
    } else if squat_glyph(flat, ls[n - 1]) {
        squats_upto(flat, ls, (n - 1) as nat) + 1
    } else {
        squats_upto(flat, ls, (n - 1) as nat)
    }
}

/// The distance from the bottom of one line to the top of another.
pub open spec fn drop_between(flat: Seq<FlatWord>, upper: usize, lower: usize) -> int {
    top_of(flat, lower) - (top_of(flat, upper) + height_of(flat, upper))
}

/// The gaps between neighbours among lines that stand from top to bottom.
pub open spec fn gaps(flat: Seq<FlatWord>, ls: Seq<usize>) -> Seq<int> {
    Seq::new(
        (if ls.len() == 0 { 0 } else { ls.len() - 1 }) as nat,
        |k: int| larger(drop_between(flat, ls[k], ls[k + 1]), 0),
    )
}

/// No other column starts within four `cqw` of column `col`.
pub open spec fn isolated_column(flat: Seq<FlatWord>, gap: int, col: nat) -> bool {
    forall|other: int|
        0 <= other < column_count(flat, gap) && other != col ==> magnitude(
            #[trigger] column_lefts(flat, gap)[other] - column_lefts(flat, gap)[col as int],
        ) > 4 * CQW
}

/// A column of vertically set text: three lines or more, half of them single
/// characters, those mostly twice as tall as wide, no other column near, and
/// the usual gap between the lines from 0.7 to 1.6 of the usual height.
pub open spec fn vertical_column(flat: Seq<FlatWord>, gap: int, col: nat) -> bool {
    let ls = column_lines(flat, gap, col);
    let singles = singles_upto(flat, ls, ls.len());
    let usual_gap = median(gaps(flat, column_by_top(flat, gap, col)));
    let usual_height = larger(column_height(flat, gap, col), LEAST_SIZE as int);
    &&& ls.len() >= 3
    &&& 2 * singles >= ls.len()
    &&& singles > 0 && squats_upto(flat, ls, ls.len()) <= singles / 2
    &&& isolated_column(flat, gap, col)
    &&& 7 * usual_height <= 10 * usual_gap <= 16 * usual_height
}

/// Some of the lines holds a relation.
pub open spec fn any_relation(flat: Seq<FlatWord>, ls: Seq<usize>) -> bool {
    exists|k: int| 0 <= k < ls.len() && #[trigger] has_relation(flat, ls[k])
}

/// A column of formulas: three lines or more, less than half as wide as running
/// text, with 12 % of operators, 4 % of mathematical symbols or a relation.
pub open spec fn formula_column(flat: Seq<FlatWord>, gap: int, col: nat) -> bool {
    let ls = column_lines(flat, gap, col);
    let chars = lines_count(flat, ls, visible());
    &&& !vertical_column(flat, gap, col)
    &&& ls.len() >= 3
    &&& 2 * column_width(flat, gap, col) < body_width(flat, gap)
    &&& chars > 0
    &&& {
        ||| 100 * lines_count(flat, ls, operators()) >= 12 * chars
        ||| 100 * lines_count(flat, ls, math_symbols()) >= 4 * chars
        ||| any_relation(flat, ls)
    }
}

// ── lines ──

/// A line with 12 % of operators, or a short one (below 0.6 of the usual width)
/// with a relation.
pub open spec fn formula_line(flat: Seq<FlatWord>, gap: int, line: usize) -> bool {
    let chars = line_count(flat, line, visible());
    &&& chars > 0
    &&& {
        ||| 100 * line_count(flat, line, operators()) >= 12 * chars
        ||| has_relation(flat, line) && 10 * width_of(flat, line) < 6 * body_width(flat, gap)
    }
}

/// Line `i` of lines from top to bottom has, above and below it, more space
/// than `ratio` of its height. The first and the last line have none.
pub open spec fn isolated_at(flat: Seq<FlatWord>, ls: Seq<usize>, ratio: int, i: int) -> bool {
    let h = larger(height_of(flat, ls[i]), LEAST_SIZE as int);
    let above = if i == 0 {
        0
    } else {
        drop_between(flat, ls[i - 1], ls[i])
    };
    let below = if i + 1 == ls.len() {
        0
    } else {
        top_of(flat, ls[i + 1]) - (top_of(flat, ls[i]) + h)
    };
    let least = h * larger(ratio, 1_000);
    larger(above, 0) * 1_000_000 > least && larger(below, 0) * 1_000_000 > least
}

/// The line is set apart within column `col`.
pub open spec fn isolated_line(flat: Seq<FlatWord>, cal: DocCalibration, col: nat, line: usize) -> bool {
    let ls = column_by_top(flat, cal.column_gap_cqw as int, col);
    exists|i: int|
        0 <= i < ls.len() && #[trigger] ls[i] == line && isolated_at(
            flat,
            ls,
            cal.vertical_gap_ratio as int,
            i,
        )
}

/// How far a line speaks for a formula, in sixtieths of its characters:
/// operators up to 24 (full at 30 % of the characters), symbols up to 15 (full
/// at 10 %), 9 for a relation; in a formula column 12 more and 39 at least; 6
/// for a line set apart, 3 for an indented one; 60 at most.
pub open spec fn formula_weight(
    chars: nat,
    ops: nat,
    math: nat,
    relation: bool,
    in_formula_column: bool,
    set_apart: bool,
    indented: bool,
) -> int {
    let signs = smaller(80 * ops as int, 24 * chars as int) + smaller(150 * math as int, 15 * chars as int) + if relation {
        9 * chars as int
    } else {
        0
    };
    let column = if in_formula_column {
        larger(signs + 12 * chars, 39 * chars as int)
    } else {
        signs
    };
    let apart = column + if set_apart {
        6 * chars as int
    } else {
        0
    };
    let all = apart + if indented {
        3 * chars as int
    } else {
        0
    };
    smaller(all, 60 * chars as int)
}

/// The line starts two `cqw` or more right of its column.
pub open spec fn indented_line(flat: Seq<FlatWord>, gap: int, col: nat, line: usize) -> bool {
    left_of(flat, line) - column_lefts(flat, gap)[col as int] >= 2 * CQW
}

/// The formula score of a line of column `col`, in millionths.
pub open spec fn line_score(flat: Seq<FlatWord>, cal: DocCalibration, col: nat, line: usize) -> int {
    let gap = cal.column_gap_cqw as int;
    let chars = line_count(flat, line, visible());
    if chars == 0 {
        0
    } else {
        formula_weight(
            chars,
            line_count(flat, line, operators()),
            line_count(flat, line, math_symbols()),
            has_relation(flat, line),
            formula_column(flat, gap, col),
            isolated_line(flat, cal, col, line),
            indented_line(flat, gap, col, line),
        ) * 1_000_000 / (60 * chars as int)
    }
}

/// The font size of `line`, 0 where it is unknown.
pub open spec fn font_of(overlay: Seq<OverlayLine>, line: usize) -> int {
    if line < overlay.len() {
        overlay[line as int].font_size_pt as int
    } else {
        0
    }
}

/// The known font sizes of the first `n` lines.
pub open spec fn known_fonts(overlay: Seq<OverlayLine>, ls: Seq<usize>, n: nat) -> Seq<int>
    decreases n,
{
    if n == 0 {
        Seq::empty()
    } else if font_of(overlay, ls[n - 1]) > 0 {
        known_fonts(overlay, ls, (n - 1) as nat).push(font_of(overlay, ls[n - 1]))
    } else {
        known_fonts(overlay, ls, (n - 1) as nat)
    }
}

/// The median of the known font sizes of column `col`.
pub open spec fn column_font(overlay: Seq<OverlayLine>, flat: Seq<FlatWord>, gap: int, col: nat) -> int {
    let ls = column_lines(flat, gap, col);
    median(known_fonts(overlay, ls, ls.len()))
}

/// The line is set smaller than its column: by its font where both are known,
/// else, in a column of four lines or more, by its height.
pub open spec fn smaller_type(
    overlay: Seq<OverlayLine>,
    flat: Seq<FlatWord>,
    cal: DocCalibration,
    col: nat,
    line: usize,
) -> bool {
    let gap = cal.column_gap_cqw as int;
    let font = font_of(overlay, line);
    let usual = column_font(overlay, flat, gap, col);
    if font > 0 && usual > 0 {
        font * 1_000_000 < usual * cal.small_height_ratio
    } else {
        &&& column_lines(flat, gap, col).len() >= 4
        &&& height_of(flat, line) * 1_000_000 < column_height(flat, gap, col) * cal.small_height_ratio
    }
}

/// A line of column `col` is small print.
pub open spec fn small_line(
    overlay: Seq<OverlayLine>,
    flat: Seq<FlatWord>,
    cal: DocCalibration,
    col: nat,
    line: usize,
) -> bool {
    let gap = cal.column_gap_cqw as int;
    if vertical_column(flat, gap, col) {
        true
    } else if formula_column(flat, gap, col) || formula_line(flat, gap, line) {
        false
    } else {
        smaller_type(overlay, flat, cal, col, line) || width_of(flat, line) < 2 * CQW
    }
}

// ── words ──

/// What becomes of the words of `line`: whether they are small print, whether
/// they are a formula, and the score.
pub struct Verdict {
    pub small: bool,
    pub formula: bool,
    pub score: u32,
}

/// The verdict on `line`.
pub open spec fn verdict(
    overlay: Seq<OverlayLine>,
    flat: Seq<FlatWord>,
    cal: DocCalibration,
    line: usize,
) -> Verdict {
    let gap = cal.column_gap_cqw as int;
    match column_of(flat, gap, line) {
        None => Verdict { small: false, formula: false, score: 0 },
        Some(c) => {
            let score = line_score(flat, cal, c as nat, line);
            if small_line(overlay, flat, cal, c as nat, line) {
                Verdict { small: true, formula: false, score: 0 }
            } else {
                Verdict {
                    small: false,
                    formula: formula_column(flat, gap, c as nat) || score >= FORMULA_SCORE_THRESHOLD,
                    score: score as u32,
                }
            }
        },
    }
}

/// The words of one layer among the first `n`, in order, marked by the verdict
/// on their lines.
pub open spec fn layer_words(
    overlay: Seq<OverlayLine>,
    flat: Seq<FlatWord>,
    cal: DocCalibration,
    small: bool,
    n: nat,
) -> Seq<FlatWord>
    decreases n,
{
    if n == 0 {
        Seq::empty()
    } else {
        let before = layer_words(overlay, flat, cal, small, (n - 1) as nat);
        let v = verdict(overlay, flat, cal, flat[n - 1].line);
        if v.small == small {
            before.push(FlatWord { formula: v.formula, formula_score: v.score, ..flat[n - 1] })
        } else {
            before
        }
    }
}

/// The words of one layer of a page.
pub open spec fn page_layer(overlay: Seq<OverlayLine>, cal: DocCalibration, small: bool) -> Seq<FlatWord> {
    let flat = flat_words(overlay);
    with_gestures(layer_words(overlay, flat, cal, small, flat.len()))
}

// ── deciding it ──

fn max128(a: i128, b: i128) -> (r: i128)
    ensures
        r == larger(a as int, b as int),
{
    if a >= b {
        a
    } else {
        b
    }
}

fn min128(a: i128, b: i128) -> (r: i128)
    ensures
        r == smaller(a as int, b as int),
{
    if a <= b {
        a
    } else {
        b
    }
}

/// `x` times `ratio`.
pub(crate) fn times(x: i128, ratio: i32) -> (r: i128)
    requires
        -0x40_0000_0000_0000_0000 <= x <= 0x40_0000_0000_0000_0000,
    ensures
        r == x * ratio,
{
    proof {
        assert(-0x40_0000_0000_0000_0000 * 0x8000_0000 <= x * ratio <= 0x40_0000_0000_0000_0000
            * 0x8000_0000) by (nonlinear_arith)
            requires
                -0x40_0000_0000_0000_0000 <= x <= 0x40_0000_0000_0000_0000,
                -0x8000_0000 <= ratio <= 0x7fff_ffff,
        ;
    }
    x * (ratio as i128)
}

fn drop_between_boxes(upper: &LineBox, lower: &LineBox, Ghost(flat): Ghost<Seq<FlatWord>>) -> (r: i128)
    requires
        upper.describes(flat),
        lower.describes(flat),
    ensures
        r == drop_between(flat, upper.line, lower.line),
        -0x2_0000_0000_0000_0000 <= r <= 0x2_0000_0000_0000_0000,
{
    (lower.top as i128) - ((upper.top as i128) + (upper.height as i128))
}

fn box_gaps(sorted: &Vec<LineBox>, Ghost(flat): Ghost<Seq<FlatWord>>) -> (r: Vec<i128>)
    requires
        all_describe(sorted@, flat),
    ensures
        ints(r@) == gaps(flat, ids(sorted@)),
        all_in_range(r@),
{
    let mut r: Vec<i128> = Vec::new();
    let mut i: usize = 0;
    while sorted.len() - i > 1
        invariant
            i <= sorted@.len(),
            i < sorted@.len() || i == 0,
            r@.len() == i,
            all_describe(sorted@, flat),
            all_in_range(r@),
            forall|k: int|
                0 <= k < i ==> #[trigger] r@[k] == larger(
                    drop_between(flat, ids(sorted@)[k], ids(sorted@)[k + 1]),
                    0,
                ),
        decreases sorted@.len() - i,
    {
        assert(sorted@[i as int].describes(flat) && sorted@[i + 1].describes(flat));
        let d = drop_between_boxes(&sorted[i], &sorted[i + 1], Ghost(flat));
        r.push(max128(d, 0));
        i = i + 1;
    }
    assert(ints(r@) =~= gaps(flat, ids(sorted@)));
    r
}

fn is_isolated_column(lefts: &Vec<i64>, col: usize, Ghost(flat): Ghost<Seq<FlatWord>>, Ghost(gap): Ghost<int>) -> (r: bool)
    requires
        lefts@ == column_lefts(flat, gap),
        col < lefts@.len(),
    ensures
        r == isolated_column(flat, gap, col as nat),
{
    let mut other: usize = 0;
    while other < lefts.len()
        invariant
            other <= lefts@.len(),
            col < lefts@.len(),
            lefts@ == column_lefts(flat, gap),
            forall|k: int|
                0 <= k < other && k != col ==> magnitude(
                    #[trigger] column_lefts(flat, gap)[k] - column_lefts(flat, gap)[col as int],
                ) > 4 * CQW,
        decreases lefts@.len() - other,
    {
        if other != col {
            let d: i128 = (lefts[other] as i128) - (lefts[col] as i128);
            if d <= 4 * (CQW as i128) && -d <= 4 * (CQW as i128) {
                assert(magnitude(column_lefts(flat, gap)[other as int] - column_lefts(flat, gap)[col as int]) <= 4 * CQW);
                return false;
            }
        }
        other = other + 1;
    }
    true
}

fn is_single(c: &LineCounts) -> (r: bool)
    ensures
        r == (c.words == 1 && c.chars == 1),
{
    c.words == 1 && c.chars == 1
}

/// Whether column `col` is set vertically.
fn is_vertical_column(
    flat: &[FlatWord],
    columns: &PageColumns,
    col: usize,
    Ghost(gap): Ghost<int>,
) -> (r: bool)
    requires
        chars_upto(flat@, flat@.len()) <= usize::MAX,
        columns.of(flat@, gap),
        col < columns.members@.len(),
    ensures
        r == vertical_column(flat@, gap, col as nat),
{
    let m = &columns.members[col];
    let ghost ls = column_lines(flat@, gap, col as nat);
    assert(ids(m@) == ls && all_describe(m@, flat@));
    assert(ids(m@).len() == m@.len());
    let mut singles: usize = 0;
    let mut squats: usize = 0;
    let mut i: usize = 0;
    while i < m.len()
        invariant
            i <= m@.len(),
            ids(m@) == ls,
            all_describe(m@, flat@),
            chars_upto(flat@, flat@.len()) <= usize::MAX,
            squats <= singles <= i,
            singles == singles_upto(flat@, ls, i as nat),
            squats == squats_upto(flat@, ls, i as nat),
        decreases m@.len() - i,
    {
        assert(ids(m@)[i as int] == m@[i as int].line && m@[i as int].describes(flat@));
        let b = &m[i];
        let c = line_counts(flat, b.line);
        if is_single(&c) {
            singles = singles + 1;
            let raw: i128 = b.right - (b.left as i128);
            if (b.height as i128) < 2 * max128(raw, LEAST_SIZE as i128) {
                squats = squats + 1;
            }
        }
        i = i + 1;
    }
    if m.len() < 3 || m.len() - singles > singles {
        return false;
    }
    if singles == 0 || squats > singles / 2 {
        return false;
    }
    if !is_isolated_column(&columns.lefts, col, Ghost(flat@), Ghost(gap)) {
        return false;
    }
    let sorted = sort_by_top(m, Ghost(flat@));
    let usual_gap = ranged_median(&box_gaps(&sorted, Ghost(flat@)));
    assert(in_range(columns.heights@[col as int]));
    let usual_height = max128(columns.heights[col], LEAST_SIZE as i128);
    7 * usual_height <= 10 * usual_gap && 10 * usual_gap <= 16 * usual_height
}

/// Whether column `col`, vertical or not, holds formulas.
fn is_formula_column(
    flat: &[FlatWord],
    columns: &PageColumns,
    col: usize,
    vertical: bool,
    Ghost(gap): Ghost<int>,
) -> (r: bool)
    requires
        chars_upto(flat@, flat@.len()) <= usize::MAX,
        columns.of(flat@, gap),
        col < columns.members@.len(),
        vertical == vertical_column(flat@, gap, col as nat),
    ensures
        r == formula_column(flat@, gap, col as nat),
{
    let m = &columns.members[col];
    let ghost ls = column_lines(flat@, gap, col as nat);
    assert(ids(m@) == ls && all_describe(m@, flat@));
    assert(ids(m@).len() == m@.len());
    assert(in_range(columns.widths@[col as int]));
    if vertical || m.len() < 3 || 2 * columns.widths[col] >= columns.body_width {
        return false;
    }
    proof {
        column_lines_are_the_lines_of_the_column(flat@, gap, col as nat);
    }
    let mut chars: usize = 0;
    let mut ops: usize = 0;
    let mut math: usize = 0;
    let mut relation = false;
    let mut i: usize = 0;
    while i < m.len()
        invariant
            i <= m@.len(),
            ids(m@) == ls,
            ls.no_duplicates(),
            chars_upto(flat@, flat@.len()) <= usize::MAX,
            chars == lines_count_upto(flat@, ls, visible(), i as nat, flat@.len()),
            ops == lines_count_upto(flat@, ls, operators(), i as nat, flat@.len()),
            math == lines_count_upto(flat@, ls, math_symbols(), i as nat, flat@.len()),
            relation == (exists|k: int| 0 <= k < i && #[trigger] has_relation(flat@, ls[k])),
        decreases m@.len() - i,
    {
        assert(ids(m@)[i as int] == m@[i as int].line);
        let c = line_counts(flat, m[i].line);
        proof {
            lemma_lines_count_bound(flat@, ls, visible(), (i + 1) as nat, flat@.len());
            lemma_lines_count_bound(flat@, ls, operators(), (i + 1) as nat, flat@.len());
            lemma_lines_count_bound(flat@, ls, math_symbols(), (i + 1) as nat, flat@.len());
            if c.relation {
                assert(has_relation(flat@, ls[i as int]));
            }
        }
        chars = chars + c.chars;
        ops = ops + c.ops;
        math = math + c.math;
        relation = relation || c.relation;
        i = i + 1;
    }
    chars > 0 && (100 * (ops as i128) >= 12 * (chars as i128) || 100 * (math as i128) >= 4 * (
    chars as i128) || relation)
}

/// Whether a line with the counts `c` and the box `b` reads as a formula.
fn is_formula_line(
    c: &LineCounts,
    b: &LineBox,
    body: i128,
    Ghost(flat): Ghost<Seq<FlatWord>>,
    Ghost(gap): Ghost<int>,
) -> (r: bool)
    requires
        c.of(flat, b.line),
        b.describes(flat),
        body == body_width(flat, gap),
        in_range(body),
    ensures
        r == formula_line(flat, gap, b.line),
{
    c.chars > 0 && (100 * (c.ops as i128) >= 12 * (c.chars as i128) || (c.relation && 10 * b.width()
        < 6 * body))
}

fn is_isolated_at(
    sorted: &Vec<LineBox>,
    i: usize,
    ratio: i32,
    Ghost(flat): Ghost<Seq<FlatWord>>,
) -> (r: bool)
    requires
        all_describe(sorted@, flat),
        i < sorted@.len(),
    ensures
        r == isolated_at(flat, ids(sorted@), ratio as int, i as int),
{
    assert(sorted@[i as int].describes(flat));
    let h = max128(sorted[i].height as i128, LEAST_SIZE as i128);
    let above: i128 = if i == 0 {
        0
    } else {
        assert(sorted@[i - 1].describes(flat));
        drop_between_boxes(&sorted[i - 1], &sorted[i], Ghost(flat))
    };
    let below: i128 = if i == sorted.len() - 1 {
        0
    } else {
        assert(sorted@[i + 1].describes(flat));
        (sorted[i + 1].top as i128) - ((sorted[i].top as i128) + h)
    };
    let ratio: i32 = if ratio >= 1_000 {
        ratio
    } else {
        1_000
    };
    let least = times(h, ratio);
    max128(above, 0) * 1_000_000 > least && max128(below, 0) * 1_000_000 > least
}

fn is_isolated_line(
    sorted: &Vec<LineBox>,
    line: usize,
    cal: DocCalibration,
    Ghost(flat): Ghost<Seq<FlatWord>>,
    Ghost(col): Ghost<nat>,
) -> (r: bool)
    requires
        all_describe(sorted@, flat),
        ids(sorted@) == column_by_top(flat, cal.column_gap_cqw as int, col),
    ensures
        r == isolated_line(flat, cal, col, line),
{
    let ghost ls = ids(sorted@);
    let mut i: usize = 0;
    while i < sorted.len()
        invariant
            i <= sorted@.len(),
            ls == ids(sorted@),
            ls == column_by_top(flat, cal.column_gap_cqw as int, col),
            all_describe(sorted@, flat),
            forall|k: int|
                0 <= k < i && #[trigger] ls[k] == line ==> !isolated_at(
                    flat,
                    ls,
                    cal.vertical_gap_ratio as int,
                    k,
                ),
        decreases sorted@.len() - i,
    {
        assert(ls[i as int] == sorted@[i as int].line);
        if sorted[i].line == line && is_isolated_at(sorted, i, cal.vertical_gap_ratio, Ghost(flat)) {
            return true;
        }
        i = i + 1;
    }
    false
}

/// The formula score in millionths of a line with the counts `c`.
fn score_of(c: &LineCounts, in_formula_column: bool, set_apart: bool, indented: bool) -> (r: u32)
    ensures
        c.chars == 0 ==> r == 0,
        c.chars > 0 ==> r == formula_weight(
            c.chars as nat,
            c.ops as nat,
            c.math as nat,
            c.relation,
            in_formula_column,
            set_apart,
            indented,
        ) * 1_000_000 / (60 * c.chars as int),
        r <= 1_000_000,
{
    if c.chars == 0 {
        return 0;
    }
    let chars: i128 = c.chars as i128;
    let mut s: i128 = min128(80 * (c.ops as i128), 24 * chars) + min128(
        150 * (c.math as i128),
        15 * chars,
    );
    if c.relation {
        s = s + 9 * chars;
    }
    if in_formula_column {
        s = max128(s + 12 * chars, 39 * chars);
    }
    if set_apart {
        s = s + 6 * chars;
    }
    if indented {
        s = s + 3 * chars;
    }
    let weight = min128(s, 60 * chars);
    let all = 60 * chars;
    let r: i128 = weight * 1_000_000 / all;
    proof {
        assert(0 <= weight <= all);
        assert(0 <= r <= 1_000_000) by (nonlinear_arith)
            requires
                r == (weight * 1_000_000) / (all as int),
                0 <= weight <= all,
                all > 0,
        ;
    }
    r as u32
}

/// The known font sizes of some lines.
fn fonts_of(overlay: &[OverlayLine], boxes: &Vec<LineBox>) -> (r: Vec<i128>)
    ensures
        ints(r@) == known_fonts(overlay@, ids(boxes@), boxes@.len()),
        all_in_range(r@),
{
    let mut r: Vec<i128> = Vec::new();
    let mut i: usize = 0;
    assert(ints(r@) =~= Seq::<int>::empty());
    while i < boxes.len()
        invariant
            i <= boxes@.len(),
            ints(r@) == known_fonts(overlay@, ids(boxes@), i as nat),
            all_in_range(r@),
        decreases boxes@.len() - i,
    {
        assert(ids(boxes@)[i as int] == boxes@[i as int].line);
        let f = font_size(overlay, boxes[i].line);
        if f > 0 {
            let ghost before = r@;
            r.push(f as i128);
            assert(ints(r@) =~= ints(before).push(f as int));
        }
        i = i + 1;
    }
    r
}

fn font_size(overlay: &[OverlayLine], line: usize) -> (r: i64)
    ensures
        r == font_of(overlay@, line),
{
    if line < overlay.len() {
        overlay[line].font_size_pt
    } else {
        0
    }
}

/// The verdict on a line with the box `b` of column `col`.
fn judge_line(
    overlay: &[OverlayLine],
    flat: &[FlatWord],
    columns: &PageColumns,
    col: usize,
    b: &LineBox,
    cal: DocCalibration,
) -> (r: Verdict)
    requires
        chars_upto(flat@, flat@.len()) <= usize::MAX,
        columns.of(flat@, cal.column_gap_cqw as int),
        col < columns.members@.len(),
        b.describes(flat@),
        column_of(flat@, cal.column_gap_cqw as int, b.line) == Some(col),
    ensures
        r == verdict(overlay@, flat@, cal, b.line),
{
    let ghost gap = cal.column_gap_cqw as int;
    let m = &columns.members[col];
    assert(ids(m@) == column_lines(flat@, gap, col as nat) && all_describe(m@, flat@));
    assert(ids(m@).len() == m@.len());
    let vertical = is_vertical_column(flat, columns, col, Ghost(gap));
    if vertical {
        return Verdict { small: true, formula: false, score: 0 };
    }
    let in_formula_column = is_formula_column(flat, columns, col, vertical, Ghost(gap));
    let c = line_counts(flat, b.line);
    if !in_formula_column && !is_formula_line(&c, b, columns.body_width, Ghost(flat@), Ghost(gap)) {
        let font = font_size(overlay, b.line);
        let usual = ranged_median(&fonts_of(overlay, m));
        assert(in_range(columns.heights@[col as int]));
        let tiny = if font > 0 && usual > 0 {
            (font as i128) * 1_000_000 < times(usual, cal.small_height_ratio)
        } else {
            m.len() >= 4 && (b.height as i128) * 1_000_000 < times(
                columns.heights[col],
                cal.small_height_ratio,
            )
        };
        if tiny || b.width() < 2 * (CQW as i128) {
            return Verdict { small: true, formula: false, score: 0 };
        }
    }
    let sorted = sort_by_top(m, Ghost(flat@));
    let set_apart = is_isolated_line(&sorted, b.line, cal, Ghost(flat@), Ghost(col as nat));
    let indented = (b.left as i128) - (columns.lefts[col] as i128) >= 2 * (CQW as i128);
    let score = score_of(&c, in_formula_column, set_apart, indented);
    Verdict {
        small: false,
        formula: in_formula_column || score >= FORMULA_SCORE_THRESHOLD,
        score,
    }
}

/// The verdicts on the lines of a page, in the order of `columns.boxes`.
fn judge_lines(
    overlay: &[OverlayLine],
    flat: &[FlatWord],
    columns: &PageColumns,
    cal: DocCalibration,
) -> (r: Vec<Verdict>)
    requires
        chars_upto(flat@, flat@.len()) <= usize::MAX,
        columns.of(flat@, cal.column_gap_cqw as int),
    ensures
        r@.len() == columns.boxes@.len(),
        forall|k: int|
            0 <= k < r@.len() ==> #[trigger] r@[k] == verdict(
                overlay@,
                flat@,
                cal,
                columns.boxes@[k].line,
            ),
{
    let ghost gap = cal.column_gap_cqw as int;
    let ghost s = lines_by_left(flat@);
    let mut r: Vec<Verdict> = Vec::new();
    let mut i: usize = 0;
    proof {
        lemma_column_map_upto(flat@, gap, s.len());
    }
    while i < columns.boxes.len()
        invariant
            i <= columns.boxes@.len(),
            r@.len() == i,
            chars_upto(flat@, flat@.len()) <= usize::MAX,
            gap == cal.column_gap_cqw,
            s == lines_by_left(flat@),
            columns.of(flat@, gap),
            forall|k: int|
                0 <= k < s.len() ==> column_map(flat@, gap)[#[trigger] s[k]] == column_number(
                    flat@,
                    gap,
                    k as nat,
                ),
            forall|l: usize|
                #[trigger] column_map(flat@, gap).contains_key(l) <==> exists|k: int|
                    0 <= k < s.len() && #[trigger] s[k] == l,
            forall|k: int|
                0 <= k < i ==> #[trigger] r@[k] == verdict(
                    overlay@,
                    flat@,
                    cal,
                    columns.boxes@[k].line,
                ),
        decreases columns.boxes@.len() - i,
    {
        let b = columns.boxes[i];
        proof {
            assert(ids(columns.boxes@)[i as int] == b.line);
            assert(s[i as int] == b.line);
            assert(column_of(flat@, gap, b.line) == Some(columns.numbers@[i as int]));
            every_inked_line_has_a_column(flat@, gap, b.line);
        }
        r.push(judge_line(overlay, flat, columns, columns.numbers[i], &b, cal));
        i = i + 1;
    }
    r
}

fn find_box(boxes: &Vec<LineBox>, line: usize) -> (r: Option<usize>)
    ensures
        match r {
            Some(k) => k < boxes@.len() && boxes@[k as int].line == line,
            None => !ids(boxes@).contains(line),
        },
{
    let mut i: usize = 0;
    while i < boxes.len()
        invariant
            i <= boxes@.len(),
            forall|k: int| 0 <= k < i ==> ids(boxes@)[k] != line,
        decreases boxes@.len() - i,
    {
        if boxes[i].line == line {
            return Some(i);
        }
        i = i + 1;
    }
    None
}

/// Splits the words of a page into running text and small print and marks the
/// formulas.
pub fn classify_words_with(overlay: &[OverlayLine], cal: DocCalibration) -> (r: (
    Vec<FlatWord>,
    Vec<FlatWord>,
))
    requires
        page_chars(overlay@) <= usize::MAX,
    ensures
        r.0@ == page_layer(overlay@, cal, false),
        r.1@ == page_layer(overlay@, cal, true),
{
    let flat = build_flat(overlay);
    let columns = PageColumns::new(&flat, cal.column_gap_cqw);
    let verdicts = judge_lines(overlay, &flat, &columns, cal);
    let mut body: Vec<FlatWord> = Vec::new();
    let mut small: Vec<FlatWord> = Vec::new();
    let ghost gap = cal.column_gap_cqw as int;
    let mut i: usize = 0;
    while i < flat.len()
        invariant
            i <= flat@.len(),
            gap == cal.column_gap_cqw,
            columns.of(flat@, gap),
            verdicts@.len() == columns.boxes@.len(),
            forall|k: int|
                0 <= k < verdicts@.len() ==> #[trigger] verdicts@[k] == verdict(
                    overlay@,
                    flat@,
                    cal,
                    columns.boxes@[k].line,
                ),
            body@ == layer_words(overlay@, flat@, cal, false, i as nat),
            small@ == layer_words(overlay@, flat@, cal, true, i as nat),
        decreases flat@.len() - i,
    {
        let mut w = copy_word(&flat[i]);
        match find_box(&columns.boxes, w.line) {
            Some(k) => {
                let v = &verdicts[k];
                w.formula = v.formula;
                w.formula_score = v.score;
                if v.small {
                    small.push(w);
                } else {
                    body.push(w);
                }
            },
            None => {
                proof {
                    lines_by_left_are_the_inked_lines(flat@);
                    assert(!lines_by_left(flat@).contains(w.line));
                    every_inked_line_has_a_column(flat@, gap, w.line);
                }
                w.formula = false;
                w.formula_score = 0;
                body.push(w);
            },
        }
        i = i + 1;
    }
    assign_gestures(&mut body);
    assign_gestures(&mut small);
    (body, small)
}

/// As `classify_words_with`, with the usual thresholds.
pub fn classify_words(overlay: &[OverlayLine]) -> (r: (Vec<FlatWord>, Vec<FlatWord>))
    requires
        page_chars(overlay@) <= usize::MAX,
    ensures
        r.0@ == page_layer(overlay@, default_calibration(), false),
        r.1@ == page_layer(overlay@, default_calibration(), true),
{
    classify_words_with(overlay, DocCalibration::default())
}

// ── laws ──

proof fn lemma_layers_partition(
    overlay: Seq<OverlayLine>,
    flat: Seq<FlatWord>,
    cal: DocCalibration,
    n: nat,
)
    requires
        n <= flat.len(),
    ensures
        layer_words(overlay, flat, cal, false, n).len() + layer_words(overlay, flat, cal, true, n).len() == n,
    decreases n,
{
    if n > 0 {
        lemma_layers_partition(overlay, flat, cal, (n - 1) as nat);
    }
}

/// The text and the place of a word.
pub open spec fn same_word(a: FlatWord, b: FlatWord) -> bool {
    &&& a.line == b.line
    &&& a.text == b.text
    &&& a.left_cqw == b.left_cqw
    &&& a.top_cqw == b.top_cqw
    &&& a.width_cqw == b.width_cqw
    &&& a.height_cqw == b.height_cqw
    &&& a.line_height_cqw == b.line_height_cqw
}

/// The places on the page of the words of one layer, among the first `n` words.
pub open spec fn layer_places(
    overlay: Seq<OverlayLine>,
    flat: Seq<FlatWord>,
    cal: DocCalibration,
    small: bool,
    n: nat,
) -> Seq<int>
    decreases n,
{
    if n == 0 {
        Seq::empty()
    } else {
        let before = layer_places(overlay, flat, cal, small, (n - 1) as nat);
        if verdict(overlay, flat, cal, flat[n - 1].line).small == small {
            before.push(n - 1)
        } else {
            before
        }
    }
}

proof fn lemma_layer_places(overlay: Seq<OverlayLine>, flat: Seq<FlatWord>, cal: DocCalibration, small: bool, n: nat)
    requires
        n <= flat.len(),
    ensures
        ({
            let places = layer_places(overlay, flat, cal, small, n);
            let words = layer_words(overlay, flat, cal, small, n);
            &&& places.len() == words.len()
            &&& forall|i: int| 0 <= i < places.len() ==> 0 <= #[trigger] places[i] < n && same_word(words[i], flat[places[i]])
            &&& forall|i: int, j: int| 0 <= i < j < places.len() ==> #[trigger] places[i] < #[trigger] places[j]
            &&& forall|k: int|
                0 <= k < n ==> (#[trigger] places.contains(k) <==> verdict(overlay, flat, cal, flat[k].line).small
                    == small)
        }),
    decreases n,
{
    if n > 0 {
        let m = (n - 1) as nat;
        lemma_layer_places(overlay, flat, cal, small, m);
        let places = layer_places(overlay, flat, cal, small, n);
        let before = layer_places(overlay, flat, cal, small, m);
        let own = verdict(overlay, flat, cal, flat[n - 1].line).small == small;
        assert forall|k: int| 0 <= k < n implies (#[trigger] places.contains(k) <==> verdict(
            overlay,
            flat,
            cal,
            flat[k].line,
        ).small == small) by {
            if own {
                assert(places == before.push(n - 1));
                assert(places[places.len() - 1] == n - 1);
                if k < n - 1 && before.contains(k) {
                    let i = choose|i: int| 0 <= i < before.len() && before[i] == k;
                    assert(places[i] == k);
                }
                if k < n - 1 && places.contains(k) {
                    let i = choose|i: int| 0 <= i < places.len() && places[i] == k;
                    assert(before[i] == k);
                }
            } else {
                assert(places == before);
                if k == n - 1 && places.contains(k) {
                    let i = choose|i: int| 0 <= i < before.len() && before[i] == k;
                    assert(before[i] < n - 1);
                }
            }
        }
    }
}

/// The words of a layer stand on the page in the same order, at rising places.
pub open spec fn stands_at_places(layer: Seq<FlatWord>, flat: Seq<FlatWord>, places: Seq<int>) -> bool {
    &&& places.len() == layer.len()
    &&& forall|i: int| 0 <= i < places.len() ==> 0 <= #[trigger] places[i] < flat.len() && same_word(layer[i], flat[places[i]])
    &&& forall|i: int, j: int| 0 <= i < j < places.len() ==> #[trigger] places[i] < #[trigger] places[j]
}

/// The body and the small print share out the words of a page: each layer has its
/// words in the order of the page, every word is in exactly one layer, and the
/// words of a line are all in the same one.
pub proof fn layers_share_out_the_words(overlay: Seq<OverlayLine>, cal: DocCalibration)
    ensures
        ({
            let flat = flat_words(overlay);
            let body = layer_places(overlay, flat, cal, false, flat.len());
            let small = layer_places(overlay, flat, cal, true, flat.len());
            &&& stands_at_places(page_layer(overlay, cal, false), flat, body)
            &&& stands_at_places(page_layer(overlay, cal, true), flat, small)
            &&& body.len() + small.len() == flat.len()
            &&& forall|k: int|
                #![trigger body.contains(k)]
                #![trigger small.contains(k)]
                0 <= k < flat.len() ==> body.contains(k) == !small.contains(k)
            &&& forall|k: int, m: int|
                0 <= k < flat.len() && 0 <= m < flat.len() && flat[k].line == flat[m].line ==> #[trigger] body.contains(k)
                    == #[trigger] body.contains(m)
        }),
{
    let flat = flat_words(overlay);
    lemma_layer_places(overlay, flat, cal, false, flat.len());
    lemma_layer_places(overlay, flat, cal, true, flat.len());
    lemma_layers_partition(overlay, flat, cal, flat.len());
}

proof fn lemma_layer_origin(
    overlay: Seq<OverlayLine>,
    flat: Seq<FlatWord>,
    cal: DocCalibration,
    small: bool,
    n: nat,
    i: int,
) -> (k: int)
    requires
        n <= flat.len(),
        0 <= i < layer_words(overlay, flat, cal, small, n).len(),
    ensures
        0 <= k < n,
        same_word(layer_words(overlay, flat, cal, small, n)[i], flat[k]),
        verdict(overlay, flat, cal, flat[k].line).small == small,
        layer_words(overlay, flat, cal, small, n)[i].formula == verdict(overlay, flat, cal, flat[k].line).formula,
        layer_words(overlay, flat, cal, small, n)[i].formula_score == verdict(overlay, flat, cal, flat[k].line).score,
    decreases n,
{
    let before = layer_words(overlay, flat, cal, small, (n - 1) as nat);
    if i < before.len() {
        lemma_layer_origin(overlay, flat, cal, small, (n - 1) as nat, i)
    } else {
        n - 1
    }
}

proof fn lemma_ink_is_visible(s: Seq<char>, i: int)
    requires
        0 <= i < s.len(),
        !is_space(s[i]),
    ensures
        count_chars(s, visible(), s.len()) > 0,
{
    lemma_visible_upto(s, i, s.len());
}

proof fn lemma_visible_upto(s: Seq<char>, i: int, n: nat)
    requires
        0 <= i < n <= s.len(),
        !is_space(s[i]),
    ensures
        count_chars(s, visible(), n) > 0,
    decreases n,
{
    if i < n - 1 {
        lemma_visible_upto(s, i, (n - 1) as nat);
    } else {
        assert(visible()(s[n - 1]));
    }
}

proof fn lemma_inked_line_has_chars(flat: Seq<FlatWord>, line: usize, n: nat)
    requires
        n <= flat.len(),
        words_upto(flat, line, n) > 0,
    ensures
        line_count_upto(flat, line, visible(), n) > 0,
    decreases n,
{
    if n > 0 {
        if ink_at(flat, line, n - 1) {
            let t = flat[n - 1].text@;
            let i = choose|i: int| 0 <= i < t.len() && !is_space(#[trigger] t[i]);
            lemma_ink_is_visible(t, i);
        } else {
            lemma_inked_line_has_chars(flat, line, (n - 1) as nat);
        }
    }
}

/// A line is marked as formula exactly when its score reaches the threshold,
/// and the score is at most a million.
pub proof fn formula_exactly_from_the_threshold(
    overlay: Seq<OverlayLine>,
    flat: Seq<FlatWord>,
    cal: DocCalibration,
    line: usize,
)
    ensures
        verdict(overlay, flat, cal, line).formula <==> verdict(overlay, flat, cal, line).score
            >= FORMULA_SCORE_THRESHOLD,
        verdict(overlay, flat, cal, line).score <= 1_000_000,
{
    let gap = cal.column_gap_cqw as int;
    every_inked_line_has_a_column(flat, gap, line);
    match column_of(flat, gap, line) {
        None => {},
        Some(c) => {
            lemma_inked_line_has_chars(flat, line, flat.len());
            let chars = line_count(flat, line, visible());
            let in_column = formula_column(flat, gap, c as nat);
            let weight = formula_weight(
                chars,
                line_count(flat, line, operators()),
                line_count(flat, line, math_symbols()),
                has_relation(flat, line),
                in_column,
                isolated_line(flat, cal, c as nat, line),
                indented_line(flat, gap, c as nat, line),
            );
            let all = 60 * chars as int;
            let score = line_score(flat, cal, c as nat, line);
            assert(0 <= weight <= all);
            assert(0 <= score <= 1_000_000) by (nonlinear_arith)
                requires
                    score == (weight * 1_000_000) / all,
                    0 <= weight <= all,
                    all > 0,
            ;
            if in_column {
                assert(weight >= 39 * chars);
                assert(score >= 650_000) by (nonlinear_arith)
                    requires
                        score == (weight * 1_000_000) / all,
                        weight >= 39 * chars,
                        all == 60 * chars,
                        chars > 0,
                ;
            }
        },
    }
}

/// A word of a layer is a word of the page with its text and place; in the
/// small print nothing is a formula; in the running text exactly the words
/// whose score reaches the threshold are.
pub proof fn layer_words_are_page_words(
    overlay: Seq<OverlayLine>,
    cal: DocCalibration,
    small: bool,
    i: int,
)
    requires
        0 <= i < page_layer(overlay, cal, small).len(),
    ensures
        exists|k: int|
            0 <= k < flat_words(overlay).len() && same_word(
                page_layer(overlay, cal, small)[i],
                #[trigger] flat_words(overlay)[k],
            ),
        page_layer(overlay, cal, small)[i].formula <==> page_layer(overlay, cal, small)[i].formula_score
            >= FORMULA_SCORE_THRESHOLD,
        small ==> !page_layer(overlay, cal, small)[i].formula,
{
    let flat = flat_words(overlay);
    let k = lemma_layer_origin(overlay, flat, cal, small, flat.len(), i);
    formula_exactly_from_the_threshold(overlay, flat, cal, flat[k].line);
    assert(same_word(page_layer(overlay, cal, small)[i], flat_words(overlay)[k]));
}

// ── what is told apart ──

/// What speaks for a formula is added up, in sixtieths for each character: up to 24 for
/// operators, 80 for each of them; up to 15 for mathematical signs, 150 for each; 9 for a
/// relation; 6 for a line that is set apart and 3 for one that is indented. In a formula column
/// 12 more are added, and it is 39 at least. It is never more than 60.
pub proof fn signs_of_formulas_are_added_up(n: nat, ops: nat, math: nat, relation: bool, column: bool, apart: bool, indented: bool)
    ensures
        formula_weight(n, 0, 0, false, false, false, false) == 0,
        formula_weight(n, ops, math, relation, column, apart, indented) <= 60 * n,
        0 <= formula_weight(n, ops, math, relation, column, apart, indented),
        80 * ops <= 24 * n ==> formula_weight(n, ops, 0, false, false, false, false) == 80 * ops,
        80 * ops >= 24 * n ==> formula_weight(n, ops, 0, false, false, false, false) == 24 * n,
        150 * math <= 15 * n ==> formula_weight(n, 0, math, false, false, false, false) == 150 * math,
        150 * math >= 15 * n ==> formula_weight(n, 0, math, false, false, false, false) == 15 * n,
        formula_weight(n, ops, math, false, false, false, false) == formula_weight(n, ops, 0, false, false, false, false)
            + formula_weight(n, 0, math, false, false, false, false),
        formula_weight(n, ops, math, true, false, false, false) == formula_weight(n, ops, math, false, false, false, false) + 9 * n,
        formula_weight(n, ops, math, relation, true, false, false) == if formula_weight(n, ops, math, relation, false, false, false)
            >= 27 * n {
            formula_weight(n, ops, math, relation, false, false, false) + 12 * n
        } else {
            39 * n as int
        },
        ({
            let more = formula_weight(n, ops, math, relation, column, false, false) + (if apart {
                6 * n
            } else {
                0
            }) + (if indented {
                3 * n
            } else {
                0
            });
            formula_weight(n, ops, math, relation, column, apart, indented) == if more <= 60 * n {
                more
            } else {
                60 * n as int
            }
        }),
{
}

/// A line that shows something is small print if its column is set vertically. In a formula
/// column that is not, no line is, and every line is a formula. Elsewhere a line with three
/// operators to 25 characters, or with a relation and less than 0.6 of the usual width, is no
/// small print; any other line is exactly if its type is smaller than that of its column
/// or it is narrower than two `cqw`. What is small print is no formula; of the rest a line is one
/// from a score of 0.45 on.
pub proof fn lines_are_told_apart(overlay: Seq<OverlayLine>, flat: Seq<FlatWord>, cal: DocCalibration, line: usize, c: usize)
    requires
        column_of(flat, cal.column_gap_cqw as int, line) == Some(c),
    ensures
        ({
            let gap = cal.column_gap_cqw as int;
            let v = verdict(overlay, flat, cal, line);
            let vertical = vertical_column(flat, gap, c as nat);
            let formulas = formula_column(flat, gap, c as nat);
            let n = line_count(flat, line, visible());
            let ops = line_count(flat, line, operators());
            let signs = 25 * ops >= 3 * n || has_relation(flat, line) && 5 * width_of(flat, line) < 3 * body_width(flat, gap);
            &&& vertical ==> v.small
            &&& formulas && !vertical ==> !v.small && v.formula
            &&& !vertical && !formulas && signs ==> !v.small
            &&& !vertical && !formulas && !signs ==> v.small == (smaller_type(overlay, flat, cal, c as nat, line) || width_of(
                flat,
                line,
            ) < 2_000_000)
            &&& v.small ==> !v.formula && v.score == 0
            &&& !v.small ==> (v.formula <==> v.score >= 450_000)
        }),
{
    let gap = cal.column_gap_cqw as int;
    every_inked_line_has_a_column(flat, gap, line);
    lemma_inked_line_has_chars(flat, line, flat.len());
    formula_exactly_from_the_threshold(overlay, flat, cal, line);
}

/// A line's type is smaller than that of its column by its font, where both are known: less than
/// the given share of the usual one. Where they are not, by its height, in columns of four lines
/// or more. The usual font is the middle one of those that are known.
pub proof fn smaller_type_is_told_by_font_or_height(overlay: Seq<OverlayLine>, flat: Seq<FlatWord>, cal: DocCalibration, c: nat, line: usize)
    ensures
        ({
            let gap = cal.column_gap_cqw as int;
            let ls = column_lines(flat, gap, c);
            let usual = column_font(overlay, flat, gap, c);
            let font: int = if line < overlay.len() {
                overlay[line as int].font_size_pt as int
            } else {
                0
            };
            &&& font > 0 && usual > 0 ==> (smaller_type(overlay, flat, cal, c, line) <==> font * 1_000_000 < usual
                * cal.small_height_ratio)
            &&& (font <= 0 || usual <= 0) && ls.len() < 4 ==> !smaller_type(overlay, flat, cal, c, line)
            &&& (font <= 0 || usual <= 0) && ls.len() >= 4 ==> (smaller_type(overlay, flat, cal, c, line) <==> height_of(flat, line)
                * 1_000_000 < column_height(flat, gap, c) * cal.small_height_ratio)
        }),
{
}

/// The fonts that are known are those of the lines, in order, where they have one.
pub proof fn known_fonts_are_those_of_the_lines(overlay: Seq<OverlayLine>, ls: Seq<usize>, n: nat)
    requires
        n <= ls.len(),
    ensures
        known_fonts(overlay, ls, n) == ls.take(n as int).filter(|l: usize| font_of(overlay, l) > 0).map_values(
            |l: usize| font_of(overlay, l),
        ),
    decreases n,
{
    reveal(Seq::filter);
    let p = |l: usize| font_of(overlay, l) > 0;
    let f = |l: usize| font_of(overlay, l);
    let t = ls.take(n as int);
    if n > 0 {
        known_fonts_are_those_of_the_lines(overlay, ls, (n - 1) as nat);
        assert(t.drop_last() =~= ls.take(n - 1));
        assert(t.last() == ls[n - 1]);
        let sub = ls.take(n - 1).filter(p);
        if p(ls[n - 1]) {
            assert(sub.push(ls[n - 1]).map_values(f) =~= sub.map_values(f).push(f(ls[n - 1])));
        }
    } else {
        assert(t.filter(p) =~= Seq::<usize>::empty());
        assert(t.filter(p).map_values(f) =~= Seq::<int>::empty());
    }
}

/// A column is a formula column only if it has three lines or more, is narrower than half of the
/// usual width and is not set vertically; with a relation in it, or three operators to 25
/// characters, or one mathematical sign to 25, it is then one, and else it is not.
pub proof fn narrow_columns_with_signs_are_formulas(flat: Seq<FlatWord>, gap: int, c: nat, k: int)
    ensures
        ({
            let ls = column_lines(flat, gap, c);
            let n = lines_count(flat, ls, visible());
            let ops = lines_count(flat, ls, operators());
            let math = lines_count(flat, ls, math_symbols());
            let narrow = ls.len() >= 3 && 2 * column_width(flat, gap, c) < body_width(flat, gap) && !vertical_column(flat, gap, c);
            &&& formula_column(flat, gap, c) ==> narrow && n > 0
            &&& narrow && n > 0 && 0 <= k < ls.len() && has_relation(flat, ls[k]) ==> formula_column(flat, gap, c)
            &&& narrow && n > 0 && 25 * ops >= 3 * n ==> formula_column(flat, gap, c)
            &&& narrow && n > 0 && 25 * math >= n ==> formula_column(flat, gap, c)
            &&& formula_column(flat, gap, c) ==> 25 * ops >= 3 * n || 25 * math >= n || exists|j: int|
                0 <= j < ls.len() && #[trigger] has_relation(flat, ls[j])
        }),
{
}

/// A column is set vertically only if it has three lines or more, half of them single
/// characters, most of these tall, and stands more than four `cqw` from every other column.
pub proof fn vertical_columns_are_single_characters_apart(flat: Seq<FlatWord>, gap: int, c: nat, other: int)
    requires
        vertical_column(flat, gap, c),
    ensures
        ({
            let ls = column_lines(flat, gap, c);
            let singles = singles_upto(flat, ls, ls.len());
            &&& ls.len() >= 3
            &&& 2 * singles >= ls.len()
            &&& 2 * squats_upto(flat, ls, ls.len()) <= singles
            &&& 0 <= other < column_count(flat, gap) && other != c ==> column_lefts(flat, gap)[other] - column_lefts(flat, gap)[c as int]
                > 4_000_000 || column_lefts(flat, gap)[c as int] - column_lefts(flat, gap)[other] > 4_000_000
        }),
{
    if 0 <= other < column_count(flat, gap) && other != c {
        assert(magnitude(column_lefts(flat, gap)[other] - column_lefts(flat, gap)[c as int]) > 4 * CQW);
    }
}

/// A line between two others of its column is set apart exactly when the space above it and the
/// space below it are both more than the given share of its height; the first and the last
/// line of a column never are.
pub proof fn a_line_is_set_apart_by_the_space_round_it(
    flat: Seq<FlatWord>,
    cal: DocCalibration,
    c: usize,
    above: usize,
    line: usize,
    below: usize,
)
    requires
        crate::paragraph_extent::next_below(flat, cal.column_gap_cqw as int, c, above, line),
        crate::paragraph_extent::next_below(flat, cal.column_gap_cqw as int, c, line, below),
        1_000 <= height_of(flat, line),
        1_000 <= cal.vertical_gap_ratio,
    ensures
        ({
            let up = top_of(flat, line) - top_of(flat, above) - height_of(flat, above);
            let down = top_of(flat, below) - top_of(flat, line) - height_of(flat, line);
            let least = height_of(flat, line) * cal.vertical_gap_ratio;
            isolated_line(flat, cal, c as nat, line) <==> up * 1_000_000 > least && down * 1_000_000 > least
        }),
{
    let gap = cal.column_gap_cqw as int;
    let ls = column_by_top(flat, gap, c as nat);
    crate::paragraph_extent::lemma_neighbours(flat, gap, c, above, line);
    crate::paragraph_extent::lemma_neighbours(flat, gap, c, line, below);
    crate::paragraph::lemma_column_by_top(flat, gap, c as nat, line);
    let i = ls.index_of(line);
    let h = height_of(flat, line);
    let r = cal.vertical_gap_ratio as int;
    assert(ls[i] == line && ls[i - 1] == above && ls[i + 1] == below);
    assert(h * r > 0) by (nonlinear_arith)
        requires
            h >= 1_000,
            r >= 1_000,
    ;
    if isolated_line(flat, cal, c as nat, line) {
        let k = choose|k: int| 0 <= k < ls.len() && #[trigger] ls[k] == line && isolated_at(flat, ls, r, k);
        assert(k == i);
    }
    let up = top_of(flat, line) - top_of(flat, above) - height_of(flat, above);
    let down = top_of(flat, below) - top_of(flat, line) - h;
    if up * 1_000_000 > h * r && down * 1_000_000 > h * r {
        assert(isolated_at(flat, ls, r, i));
    }
}

} // verus!
