//! Where selections lie: the rectangles that show them, and the box that is cut
//! out to recognise a formula.
use crate::lines::{in_column, larger, smaller, ColumnFilter};
use crate::page_text::{default_calibration, inked, is_inked, DocCalibration, FlatWord};
use crate::selection::SelectionStep;
use crate::text::{free_of, lemma_last_field, decimal, decimal_is_digits, push_decimal, push_signed, signed_decimal, signed_decimal_is_injective};
use vstd::prelude::*;

verus! {

/// A rectangle over selected words.
#[derive(Debug, Clone, Copy, PartialEq, Eq, Structural)]
pub struct SelectionRect {
    pub left_cqw: i64,
    pub top_cqw: i64,
    pub width_cqw: i128,
    pub height_cqw: i64,
}

/// The extent of some words: left, right and top edge, and height.
pub struct Extent {
    pub left: int,
    pub right: int,
    pub top: int,
    pub height: int,
}

/// Word `k` is shown: it shows something and counts for the column.
pub open spec fn shown(flat: Seq<FlatWord>, gap: int, col: Option<i64>, k: int) -> bool {
    inked(flat[k]) && in_column(flat, gap, col, k)
}

/// The extent of the shown words among `i..j`.
pub open spec fn extent(flat: Seq<FlatWord>, gap: int, col: Option<i64>, i: int, j: int) -> Option<Extent>
    decreases j - i,
{
    if j <= i {
        None
    } else {
        let before = extent(flat, gap, col, i, j - 1);
        let w = flat[j - 1];
        if !shown(flat, gap, col, j - 1) {
            before
        } else {
            let left = w.left_cqw as int;
            let right = w.left_cqw + w.width_cqw;
            let top = w.top_cqw as int;
            let height = larger(w.line_height_cqw as int, 0);
            match before {
                None => Some(Extent { left, right, top, height }),
                Some(e) => Some(
                    Extent {
                        left: smaller(e.left, left),
                        right: larger(e.right, right),
                        top: smaller(e.top, top),
                        height: larger(e.height, height),
                    },
                ),
            }
        }
    }
}

/// The rectangle over an extent, 0.01 `cqw` wide at least.
pub open spec fn rect_over(e: Extent) -> SelectionRect {
    SelectionRect {
        left_cqw: e.left as i64,
        top_cqw: e.top as i64,
        width_cqw: larger(e.right - e.left, 10_000) as i128,
        height_cqw: e.height as i64,
    }
}

/// The word behind the words from `j` on, up to `hi`, that stand on `line`.
pub open spec fn line_run(flat: Seq<FlatWord>, line: usize, j: int, hi: int) -> int
    decreases hi + 1 - j,
{
    if j <= hi && flat[j].line == line {
        line_run(flat, line, j + 1, hi)
    } else {
        j
    }
}

pub proof fn lemma_line_run(flat: Seq<FlatWord>, line: usize, j: int, hi: int)
    requires
        j <= hi + 1,
    ensures
        j <= line_run(flat, line, j, hi) <= hi + 1,
    decreases hi + 1 - j,
{
    if j <= hi && flat[j].line == line {
        lemma_line_run(flat, line, j + 1, hi);
    }
}

/// The rectangles over the words `i..=hi`, one for each stretch of a line that
/// shows something.
pub open spec fn selection_rects(flat: Seq<FlatWord>, gap: int, col: Option<i64>, i: int, hi: int) -> Seq<SelectionRect>
    decreases hi + 1 - i,
{
    if i > hi {
        Seq::empty()
    } else {
        proof {
            lemma_line_run(flat, flat[i].line, i + 1, hi);
        }
        let j = line_run(flat, flat[i].line, i + 1, hi);
        let rest = selection_rects(flat, gap, col, j, hi);
        match extent(flat, gap, col, i, j) {
            Some(e) => seq![rect_over(e)] + rest,
            None => rest,
        }
    }
}

/// The rectangles over the words `lo..=hi`; with a column, over its words alone.
pub fn selection_rects_with(
    flat: &[FlatWord],
    lo: usize,
    hi: usize,
    col: Option<i64>,
    column_gap_cqw: i64,
) -> (r: Vec<SelectionRect>)
    requires
        lo <= hi ==> hi < flat@.len(),
    ensures
        r@ == selection_rects(flat@, column_gap_cqw as int, col, lo as int, hi as int),
{
    let ghost gap = column_gap_cqw as int;
    let n = flat.len();
    let filter = ColumnFilter::new(flat, column_gap_cqw);
    let mut rects: Vec<SelectionRect> = Vec::new();
    let mut i = lo;
    let ghost all = selection_rects(flat@, gap, col, lo as int, hi as int);
    assert(rects@ + all =~= all);
    while i <= hi
        invariant
            lo <= i,
            i <= hi ==> hi < n,
            n == flat@.len(),
            filter.of(flat@, gap),
            all == rects@ + selection_rects(flat@, gap, col, i as int, hi as int),
        decreases hi + 1 - i,
    {
        let line = flat[i].line;
        let mut found = false;
        let mut left: i64 = 0;
        let mut right: i128 = 0;
        let mut top: i64 = 0;
        let mut height: i64 = 0;
        let mut j = i;
        while j <= hi && flat[j].line == line
            invariant
                i <= j <= hi + 1 <= n,
                i <= hi,
                n == flat@.len(),
                line == flat@[i as int].line,
                filter.of(flat@, gap),
                line_run(flat@, line, i as int, hi as int) == line_run(flat@, line, j as int, hi as int),
                -0x1_0000_0000_0000_0000 <= right <= 0x1_0000_0000_0000_0000,
                0 <= height,
                match extent(flat@, gap, col, i as int, j as int) {
                    Some(e) => found && e.left == left && e.right == right && e.top == top && e.height == height,
                    None => !found && height == 0,
                },
            decreases hi + 1 - j,
        {
            let w = &flat[j];
            if is_inked(w) && filter.admits(flat, j, col, Ghost(gap)) {
                let edge: i128 = (w.left_cqw as i128) + (w.width_cqw as i128);
                if !found || w.left_cqw < left {
                    left = w.left_cqw;
                }
                if !found || edge > right {
                    right = edge;
                }
                if !found || w.top_cqw < top {
                    top = w.top_cqw;
                }
                if w.line_height_cqw > height {
                    height = w.line_height_cqw;
                }
                found = true;
            }
            j = j + 1;
        }
        let ghost before = rects@;
        let ghost rest = selection_rects(flat@, gap, col, j as int, hi as int);
        assert(j == line_run(flat@, line, i as int, hi as int));
        assert(j == line_run(flat@, line, i + 1, hi as int));
        if found {
            let raw: i128 = right - (left as i128);
            let width: i128 = if raw >= 10_000 {
                raw
            } else {
                10_000
            };
            rects.push(SelectionRect { left_cqw: left, top_cqw: top, width_cqw: width, height_cqw: height });
            assert(rects@ + rest =~= before + (seq![rects@.last()] + rest));
        }
        i = j;
    }
    assert(rects@ + Seq::<SelectionRect>::empty() =~= rects@);
    rects
}

/// As `selection_rects_with`, with the usual column gap.
pub fn selection_rects_filtered(flat: &[FlatWord], lo: usize, hi: usize, col: Option<i64>) -> (r: Vec<
    SelectionRect,
>)
    requires
        lo <= hi ==> hi < flat@.len(),
    ensures
        r@ == selection_rects(
            flat@,
            default_calibration().column_gap_cqw as int,
            col,
            lo as int,
            hi as int,
        ),
{
    selection_rects_with(flat, lo, hi, col, DocCalibration::default().column_gap_cqw)
}

// ── the box of a formula ──

/// The outer edges of the first `n` rectangles.
pub open spec fn outer(rects: Seq<SelectionRect>, n: nat) -> (int, int, int, int)
    decreases n,
{
    let r = rects[n - 1];
    let right = r.left_cqw + r.width_cqw;
    let bottom = r.top_cqw + r.height_cqw;
    if n <= 1 {
        (r.left_cqw as int, r.top_cqw as int, right, bottom)
    } else {
        let b = outer(rects, (n - 1) as nat);
        (
            smaller(b.0, r.left_cqw as int),
            smaller(b.1, r.top_cqw as int),
            larger(b.2, right),
            larger(b.3, bottom),
        )
    }
}

/// A length in pixels, at four pixels to the point on a page that is
/// `page_width` thousandths of a point wide: rounded down, from 0 on, and no
/// more than an `i32` holds.
pub open spec fn pixels_down(length: int, page_width: int) -> int {
    smaller(larger(length * page_width / 25_000_000_000, 0), i32::MAX as int)
}

/// A length in pixels, rounded up, from 1 on.
pub open spec fn pixels_up(length: int, page_width: int) -> int {
    smaller(larger(-(-(length * page_width) / 25_000_000_000), 1), i32::MAX as int)
}

/// The box in pixels round some rectangles: left, top, width and height.
pub open spec fn pixel_box(rects: Seq<SelectionRect>, page_width: int) -> (int, int, int, int) {
    if rects.len() == 0 {
        (0, 0, 1, 1)
    } else {
        let o = outer(rects, rects.len());
        (
            pixels_down(o.0, page_width),
            pixels_down(o.1, page_width),
            pixels_up(o.2 - o.0, page_width),
            pixels_up(o.3 - o.1, page_width),
        )
    }
}

fn floor_div(a: i128) -> (r: i128)
    requires
        -0x1000_0000_0000_0000_0000_0000_0000 <= a <= 0x1000_0000_0000_0000_0000_0000_0000,
    ensures
        r == (a as int) / 25_000_000_000,
{
    if a >= 0 {
        a / 25_000_000_000
    } else {
        let q: i128 = (-a + 24_999_999_999) / 25_000_000_000;
        -q
    }
}

fn product(length: i128, page_width: u32) -> (r: i128)
    requires
        -0x40_0000_0000_0000_0000 <= length <= 0x40_0000_0000_0000_0000,
    ensures
        r == length * page_width,
        -0x1000_0000_0000_0000_0000_0000_0000 <= r <= 0x1000_0000_0000_0000_0000_0000_0000,
{
    proof {
        assert(-0x40_0000_0000_0000_0000 * 0x1_0000_0000 <= length * page_width <= 0x40_0000_0000_0000_0000
            * 0x1_0000_0000) by (nonlinear_arith)
            requires
                -0x40_0000_0000_0000_0000 <= length <= 0x40_0000_0000_0000_0000,
                0 <= page_width < 0x1_0000_0000,
        ;
    }
    length * (page_width as i128)
}

fn clamp_pixels(x: i128, least: i32) -> (r: i32)
    requires
        0 <= least,
    ensures
        r == smaller(larger(x as int, least as int), i32::MAX as int),
{
    if x <= least as i128 {
        least
    } else if x >= i32::MAX as i128 {
        i32::MAX
    } else {
        x as i32
    }
}

pub(crate) fn down(length: i128, page_width: u32) -> (r: i32)
    requires
        -0x40_0000_0000_0000_0000 <= length <= 0x40_0000_0000_0000_0000,
    ensures
        r == pixels_down(length as int, page_width as int),
{
    clamp_pixels(floor_div(product(length, page_width)), 0)
}

pub(crate) fn up(length: i128, page_width: u32) -> (r: i32)
    requires
        -0x40_0000_0000_0000_0000 <= length <= 0x40_0000_0000_0000_0000,
    ensures
        r == pixels_up(length as int, page_width as int),
{
    clamp_pixels(-floor_div(-product(length, page_width)), 1)
}

/// The box in pixels round the words of a step.
pub fn selection_bbox_with(
    flat: &[FlatWord],
    step: &SelectionStep,
    page_width_pt: u32,
    column_gap_cqw: i64,
) -> (r: (i32, i32, i32, i32))
    requires
        step.lo <= step.hi ==> step.hi < flat@.len(),
    ensures
        (r.0 as int, r.1 as int, r.2 as int, r.3 as int) == pixel_box(
            selection_rects(flat@, column_gap_cqw as int, step.column_left, step.lo as int, step.hi as int),
            page_width_pt as int,
        ),
        r.0 >= 0,
        r.1 >= 0,
        r.2 >= 1,
        r.3 >= 1,
{
    let rects = selection_rects_with(flat, step.lo, step.hi, step.column_left, column_gap_cqw);
    if rects.len() == 0 {
        return (0, 0, 1, 1);
    }
    proof {
        lemma_rect_sizes(flat@, column_gap_cqw as int, step.column_left, step.lo as int, step.hi as int);
    }
    let mut left: i128 = rects[0].left_cqw as i128;
    let mut top: i128 = rects[0].top_cqw as i128;
    let mut right: i128 = (rects[0].left_cqw as i128) + rects[0].width_cqw;
    let mut bottom: i128 = (rects[0].top_cqw as i128) + (rects[0].height_cqw as i128);
    let mut i: usize = 1;
    while i < rects.len()
        invariant
            1 <= i <= rects@.len(),
            forall|k: int| 0 <= k < rects@.len() ==> 0 <= #[trigger] rects@[k].width_cqw <= 0x2_0000_0000_0000_0000,
            (left as int, top as int, right as int, bottom as int) == outer(rects@, i as nat),
            -0x8000_0000_0000_0000 <= left <= 0x8000_0000_0000_0000,
            -0x8000_0000_0000_0000 <= top <= 0x8000_0000_0000_0000,
            -0x8000_0000_0000_0000 <= right <= 0x4_0000_0000_0000_0000,
            -0x1_0000_0000_0000_0000 <= bottom <= 0x1_0000_0000_0000_0000,
        decreases rects@.len() - i,
    {
        let r = rects[i];
        assert(0 <= rects@[i as int].width_cqw <= 0x2_0000_0000_0000_0000);
        let x: i128 = r.left_cqw as i128;
        let y: i128 = r.top_cqw as i128;
        if x < left {
            left = x;
        }
        if y < top {
            top = y;
        }
        if x + r.width_cqw > right {
            right = x + r.width_cqw;
        }
        if y + (r.height_cqw as i128) > bottom {
            bottom = y + (r.height_cqw as i128);
        }
        i = i + 1;
    }
    (
        down(left, page_width_pt),
        down(top, page_width_pt),
        up(right - left, page_width_pt),
        up(bottom - top, page_width_pt),
    )
}

proof fn lemma_extent(flat: Seq<FlatWord>, gap: int, col: Option<i64>, i: int, j: int)
    ensures
        match extent(flat, gap, col, i, j) {
            Some(e) => i64::MIN <= e.left <= i64::MAX && -0x1_0000_0000_0000_0000 <= e.right
                <= 0x1_0000_0000_0000_0000,
            None => true,
        },
    decreases j - i,
{
    if i < j {
        lemma_extent(flat, gap, col, i, j - 1);
    }
}

proof fn lemma_rect_sizes(flat: Seq<FlatWord>, gap: int, col: Option<i64>, i: int, hi: int)
    ensures
        forall|k: int|
            0 <= k < selection_rects(flat, gap, col, i, hi).len() ==> 10_000 <= #[trigger] selection_rects(
                flat,
                gap,
                col,
                i,
                hi,
            )[k].width_cqw <= 0x2_0000_0000_0000_0000,
    decreases hi + 1 - i,
{
    if i <= hi {
        lemma_line_run(flat, flat[i].line, i + 1, hi);
        let j = line_run(flat, flat[i].line, i + 1, hi);
        lemma_rect_sizes(flat, gap, col, j, hi);
        lemma_extent(flat, gap, col, i, j);
        let all = selection_rects(flat, gap, col, i, hi);
        let rest = selection_rects(flat, gap, col, j, hi);
        match extent(flat, gap, col, i, j) {
            Some(e) => {
                assert(all == seq![rect_over(e)] + rest);
                assert forall|k: int| 0 <= k < all.len() implies 10_000 <= #[trigger] all[k].width_cqw
                    <= 0x2_0000_0000_0000_0000 by {
                    if k > 0 {
                        assert(all[k] == rest[k - 1]);
                    }
                }
            },
            None => {
                assert(all == rest);
            },
        }
    }
}

/// As `selection_bbox_with`, with the usual column gap.
pub fn selection_bbox_px(flat: &[FlatWord], step: &SelectionStep, page_width_pt: u32) -> (r: (
    i32,
    i32,
    i32,
    i32,
))
    requires
        step.lo <= step.hi ==> step.hi < flat@.len(),
    ensures
        (r.0 as int, r.1 as int, r.2 as int, r.3 as int) == pixel_box(
            selection_rects(
                flat@,
                default_calibration().column_gap_cqw as int,
                step.column_left,
                step.lo as int,
                step.hi as int,
            ),
            page_width_pt as int,
        ),
        r.0 >= 0,
        r.1 >= 0,
        r.2 >= 1,
        r.3 >= 1,
{
    selection_bbox_with(flat, step, page_width_pt, DocCalibration::default().column_gap_cqw)
}

/// The name under which a recognised formula is kept: the book, the page, the
/// box, and the scale of four pixels to the point.
pub open spec fn copy_key(book_id: Seq<char>, page: nat, bbox: (i32, i32, i32, i32)) -> Seq<char> {
    book_id + seq![':'] + decimal(page) + seq![':'] + signed_decimal(bbox.0 as int) + seq![':']
        + signed_decimal(bbox.1 as int) + seq![':'] + signed_decimal(bbox.2 as int) + seq![':']
        + signed_decimal(bbox.3 as int) + seq!['@', '4']
}

/// The name under which the formula in `bbox` is kept.
pub fn formula_copy_key(book_id: &str, page: u32, bbox: (i32, i32, i32, i32)) -> (r: String)
    ensures
        r@ == copy_key(book_id@, page as nat, bbox),
{
    let mut out = String::new();
    out.append(book_id);
    out.push(':');
    push_decimal(&mut out, page as u64);
    out.push(':');
    push_signed(&mut out, bbox.0 as i64);
    out.push(':');
    push_signed(&mut out, bbox.1 as i64);
    out.push(':');
    push_signed(&mut out, bbox.2 as i64);
    out.push(':');
    push_signed(&mut out, bbox.3 as i64);
    out.push('@');
    out.push('4');
    assert(out@ =~= copy_key(book_id@, page as nat, bbox));
    out
}

proof fn lemma_number_has_no_colon(n: int)
    ensures
        free_of(signed_decimal(n), ':'),
{
    decimal_is_digits((if n < 0 { -n } else { n }) as nat);
    let s = signed_decimal(n);
    assert forall|i: int| 0 <= i < s.len() implies #[trigger] s[i] != ':' by {
        if n < 0 {
            if i > 0 {
                assert(s[i] == decimal((-n) as nat)[i - 1]);
            }
        } else {
            assert(s[i] == decimal(n as nat)[i]);
        }
    }
}

/// Formulas are kept under one name only if they are of the same book, page and
/// box.
pub proof fn copy_key_tells_formulas_apart(
    book1: Seq<char>,
    page1: nat,
    box1: (i32, i32, i32, i32),
    book2: Seq<char>,
    page2: nat,
    box2: (i32, i32, i32, i32),
)
    requires
        copy_key(book1, page1, box1) == copy_key(book2, page2, box2),
    ensures
        book1 == book2,
        page1 == page2,
        box1 == box2,
{
    lemma_number_has_no_colon(box1.0 as int);
    lemma_number_has_no_colon(box1.1 as int);
    lemma_number_has_no_colon(box1.2 as int);
    lemma_number_has_no_colon(box1.3 as int);
    lemma_number_has_no_colon(box2.0 as int);
    lemma_number_has_no_colon(box2.1 as int);
    lemma_number_has_no_colon(box2.2 as int);
    lemma_number_has_no_colon(box2.3 as int);
    lemma_number_has_no_colon(page1 as int);
    lemma_number_has_no_colon(page2 as int);
    let c = seq![':'];
    let end = seq!['@', '4'];
    let a0 = book1;
    let a1 = a0 + c + signed_decimal(page1 as int);
    let a2 = a1 + c + signed_decimal(box1.0 as int);
    let a3 = a2 + c + signed_decimal(box1.1 as int);
    let a4 = a3 + c + signed_decimal(box1.2 as int);
    let a5 = a4 + c + signed_decimal(box1.3 as int);
    let b0 = book2;
    let b1 = b0 + c + signed_decimal(page2 as int);
    let b2 = b1 + c + signed_decimal(box2.0 as int);
    let b3 = b2 + c + signed_decimal(box2.1 as int);
    let b4 = b3 + c + signed_decimal(box2.2 as int);
    let b5 = b4 + c + signed_decimal(box2.3 as int);
    assert(copy_key(book1, page1, box1) =~= a5 + end);
    assert(copy_key(book2, page2, box2) =~= b5 + end);
    assert(a5 =~= (a5 + end).take((a5 + end).len() - 2));
    assert(b5 =~= (b5 + end).take((b5 + end).len() - 2));
    lemma_last_field(a4, signed_decimal(box1.3 as int), b4, signed_decimal(box2.3 as int), ':');
    lemma_last_field(a3, signed_decimal(box1.2 as int), b3, signed_decimal(box2.2 as int), ':');
    lemma_last_field(a2, signed_decimal(box1.1 as int), b2, signed_decimal(box2.1 as int), ':');
    lemma_last_field(a1, signed_decimal(box1.0 as int), b1, signed_decimal(box2.0 as int), ':');
    lemma_last_field(a0, signed_decimal(page1 as int), b0, signed_decimal(page2 as int), ':');
    signed_decimal_is_injective(box1.3 as int, box2.3 as int);
    signed_decimal_is_injective(box1.2 as int, box2.2 as int);
    signed_decimal_is_injective(box1.1 as int, box2.1 as int);
    signed_decimal_is_injective(box1.0 as int, box2.0 as int);
    signed_decimal_is_injective(page1 as int, page2 as int);
}

// ── what the rectangles cover ──

/// The rectangle covers the word: from edge to edge, from its top on, and as high as its
/// line.
pub open spec fn covers(r: SelectionRect, w: FlatWord) -> bool {
    &&& r.left_cqw <= w.left_cqw
    &&& w.left_cqw + w.width_cqw <= r.left_cqw + r.width_cqw
    &&& r.top_cqw <= w.top_cqw
    &&& w.line_height_cqw <= r.height_cqw
}

/// The words `i..j` are of one line, all that are shown among them are covered by `r`, and
/// each edge of `r` is that of such a word; `r` is 0.01 `cqw` wide at least.
pub open spec fn fits_line(flat: Seq<FlatWord>, gap: int, col: Option<i64>, i: int, j: int, r: SelectionRect) -> bool {
    &&& forall|k: int| i <= k < j ==> (#[trigger] flat[k]).line == flat[i].line
    &&& forall|k: int| i <= k < j && #[trigger] shown(flat, gap, col, k) ==> covers(r, flat[k])
    &&& exists|k: int| i <= k < j && #[trigger] shown(flat, gap, col, k) && r.left_cqw == flat[k].left_cqw
    &&& exists|k: int| i <= k < j && #[trigger] shown(flat, gap, col, k) && r.top_cqw == flat[k].top_cqw
    &&& r.width_cqw == 10_000 || exists|k: int|
        i <= k < j && #[trigger] shown(flat, gap, col, k) && r.left_cqw + r.width_cqw == flat[k].left_cqw + flat[k].width_cqw
    &&& r.height_cqw == 0 || exists|k: int|
        i <= k < j && #[trigger] shown(flat, gap, col, k) && r.height_cqw == flat[k].line_height_cqw
    &&& r.width_cqw >= 10_000
}

/// What is known of the extent of the shown words among `i..j`.
spec fn extent_fits(flat: Seq<FlatWord>, gap: int, col: Option<i64>, i: int, j: int) -> bool {
    match extent(flat, gap, col, i, j) {
        None => forall|k: int| i <= k < j ==> !#[trigger] shown(flat, gap, col, k),
        Some(e) => {
            &&& forall|k: int|
                i <= k < j && #[trigger] shown(flat, gap, col, k) ==> e.left <= flat[k].left_cqw && flat[k].left_cqw
                    + flat[k].width_cqw <= e.right && e.top <= flat[k].top_cqw && flat[k].line_height_cqw <= e.height
            &&& exists|k: int| i <= k < j && #[trigger] shown(flat, gap, col, k) && e.left == flat[k].left_cqw
            &&& exists|k: int| i <= k < j && #[trigger] shown(flat, gap, col, k) && e.top == flat[k].top_cqw
            &&& exists|k: int| i <= k < j && #[trigger] shown(flat, gap, col, k) && e.right == flat[k].left_cqw + flat[k].width_cqw
            &&& e.height == 0 || exists|k: int|
                i <= k < j && #[trigger] shown(flat, gap, col, k) && e.height == flat[k].line_height_cqw
            &&& 0 <= e.height
        },
    }
}

proof fn lemma_extent_fits(flat: Seq<FlatWord>, gap: int, col: Option<i64>, i: int, j: int)
    requires
        i <= j,
    ensures
        extent_fits(flat, gap, col, i, j),
    decreases j - i,
{
    if i < j {
        lemma_extent_fits(flat, gap, col, i, j - 1);
        let before = extent(flat, gap, col, i, j - 1);
        if shown(flat, gap, col, j - 1) {
            assert(i <= j - 1 < j && shown(flat, gap, col, j - 1));
            if let Some(e) = before {
                let a = choose|k: int| i <= k < j - 1 && #[trigger] shown(flat, gap, col, k) && e.left == flat[k].left_cqw;
                let b = choose|k: int| i <= k < j - 1 && #[trigger] shown(flat, gap, col, k) && e.top == flat[k].top_cqw;
                let c = choose|k: int|
                    i <= k < j - 1 && #[trigger] shown(flat, gap, col, k) && e.right == flat[k].left_cqw + flat[k].width_cqw;
                assert(shown(flat, gap, col, a) && shown(flat, gap, col, b) && shown(flat, gap, col, c));
                if e.height != 0 {
                    let d = choose|k: int|
                        i <= k < j - 1 && #[trigger] shown(flat, gap, col, k) && e.height == flat[k].line_height_cqw;
                    assert(shown(flat, gap, col, d));
                }
            }
        } else if let Some(e) = before {
            let a = choose|k: int| i <= k < j - 1 && #[trigger] shown(flat, gap, col, k) && e.left == flat[k].left_cqw;
            let b = choose|k: int| i <= k < j - 1 && #[trigger] shown(flat, gap, col, k) && e.top == flat[k].top_cqw;
            let c = choose|k: int|
                i <= k < j - 1 && #[trigger] shown(flat, gap, col, k) && e.right == flat[k].left_cqw + flat[k].width_cqw;
            assert(shown(flat, gap, col, a) && shown(flat, gap, col, b) && shown(flat, gap, col, c));
            if e.height != 0 {
                let d = choose|k: int|
                    i <= k < j - 1 && #[trigger] shown(flat, gap, col, k) && e.height == flat[k].line_height_cqw;
                assert(shown(flat, gap, col, d));
            }
        }
    }
}

proof fn lemma_run_is_one_line(flat: Seq<FlatWord>, line: usize, j: int, hi: int)
    requires
        j <= hi + 1,
    ensures
        forall|k: int| j <= k < line_run(flat, line, j, hi) ==> (#[trigger] flat[k]).line == line,
    decreases hi + 1 - j,
{
    lemma_line_run(flat, line, j, hi);
    if j <= hi && flat[j].line == line {
        lemma_run_is_one_line(flat, line, j + 1, hi);
    }
}

proof fn lemma_rect_fits(flat: Seq<FlatWord>, gap: int, col: Option<i64>, i: int, j: int)
    requires
        i < j,
        forall|k: int| i <= k < j ==> (#[trigger] flat[k]).line == flat[i].line,
        extent(flat, gap, col, i, j) is Some,
    ensures
        fits_line(flat, gap, col, i, j, rect_over(extent(flat, gap, col, i, j)->0)),
{
    let e = extent(flat, gap, col, i, j)->0;
    let r = rect_over(e);
    lemma_extent_fits(flat, gap, col, i, j);
    lemma_extent(flat, gap, col, i, j);
    let a = choose|k: int| i <= k < j && #[trigger] shown(flat, gap, col, k) && e.left == flat[k].left_cqw;
    let b = choose|k: int| i <= k < j && #[trigger] shown(flat, gap, col, k) && e.top == flat[k].top_cqw;
    let c = choose|k: int| i <= k < j && #[trigger] shown(flat, gap, col, k) && e.right == flat[k].left_cqw + flat[k].width_cqw;
    assert(shown(flat, gap, col, a) && shown(flat, gap, col, b) && shown(flat, gap, col, c));
    if e.height != 0 {
        let d = choose|k: int| i <= k < j && #[trigger] shown(flat, gap, col, k) && e.height == flat[k].line_height_cqw;
        assert(shown(flat, gap, col, d));
    }
}

/// A selection is shown whole: every word from `lo` to `hi` that shows something and counts
/// for the column is covered by one of the rectangles.
pub proof fn every_selected_word_is_covered(flat: Seq<FlatWord>, gap: int, col: Option<i64>, lo: int, hi: int, k: int)
    requires
        0 <= lo <= k <= hi < flat.len(),
        inked(flat[k]),
        in_column(flat, gap, col, k),
    ensures
        exists|m: int|
            0 <= m < selection_rects(flat, gap, col, lo, hi).len() && covers(
                #[trigger] selection_rects(flat, gap, col, lo, hi)[m],
                flat[k],
            ),
    decreases hi + 1 - lo,
{
    let line = flat[lo].line;
    lemma_line_run(flat, line, lo + 1, hi);
    lemma_run_is_one_line(flat, line, lo + 1, hi);
    let j = line_run(flat, line, lo + 1, hi);
    let all = selection_rects(flat, gap, col, lo, hi);
    let rest = selection_rects(flat, gap, col, j, hi);
    assert(shown(flat, gap, col, k));
    lemma_extent_fits(flat, gap, col, lo, j);
    if k < j {
        assert(extent(flat, gap, col, lo, j) is Some);
        lemma_rect_fits(flat, gap, col, lo, j);
        assert(covers(all[0], flat[k]));
    } else {
        every_selected_word_is_covered(flat, gap, col, j, hi, k);
        let m = choose|m: int| 0 <= m < rest.len() && covers(#[trigger] rest[m], flat[k]);
        if extent(flat, gap, col, lo, j) is Some {
            assert(all[m + 1] == rest[m]);
        } else {
            assert(all[m] == rest[m]);
        }
    }
}

/// Nothing else is shown: every rectangle fits a stretch of one line among the words from
/// `lo` to `hi`.
pub proof fn every_rectangle_fits_selected_words(flat: Seq<FlatWord>, gap: int, col: Option<i64>, lo: int, hi: int, m: int)
    requires
        0 <= lo,
        hi < flat.len(),
        0 <= m < selection_rects(flat, gap, col, lo, hi).len(),
    ensures
        exists|i: int, j: int|
            lo <= i < j <= hi + 1 && #[trigger] fits_line(flat, gap, col, i, j, selection_rects(flat, gap, col, lo, hi)[m]),
    decreases hi + 1 - lo,
{
    if lo <= hi {
        let line = flat[lo].line;
        lemma_line_run(flat, line, lo + 1, hi);
        lemma_run_is_one_line(flat, line, lo + 1, hi);
        let e = line_run(flat, line, lo + 1, hi);
        let all = selection_rects(flat, gap, col, lo, hi);
        let rest = selection_rects(flat, gap, col, e, hi);
        if extent(flat, gap, col, lo, e) is Some {
            if m == 0 {
                lemma_rect_fits(flat, gap, col, lo, e);
                assert(fits_line(flat, gap, col, lo, e, all[0]));
            } else {
                every_rectangle_fits_selected_words(flat, gap, col, e, hi, m - 1);
                assert(all[m] == rest[m - 1]);
            }
        } else {
            every_rectangle_fits_selected_words(flat, gap, col, e, hi, m);
        }
    }
}

/// The box in pixels round a selection holds all its words: at four pixels to the point it
/// starts no later than the word, is no smaller, and ends no earlier than its right edge,
/// as far as pixels are counted.
pub proof fn the_pixel_box_holds_every_word(
    flat: Seq<FlatWord>,
    gap: int,
    col: Option<i64>,
    lo: int,
    hi: int,
    k: int,
    page_width: int,
)
    requires
        0 <= lo <= k <= hi < flat.len(),
        inked(flat[k]),
        in_column(flat, gap, col, k),
        0 <= page_width,
    ensures
        ({
            let b = pixel_box(selection_rects(flat, gap, col, lo, hi), page_width);
            let w = flat[k];
            let right = w.left_cqw + w.width_cqw;
            &&& b.0 == 0 || b.0 == i32::MAX || b.0 * 25_000_000_000 <= w.left_cqw * page_width
            &&& b.1 == 0 || b.1 == i32::MAX || b.1 * 25_000_000_000 <= w.top_cqw * page_width
            &&& b.2 == i32::MAX || b.2 * 25_000_000_000 >= w.width_cqw * page_width
            &&& b.3 == i32::MAX || b.3 * 25_000_000_000 >= w.line_height_cqw * page_width
            &&& b.0 == i32::MAX || b.2 == i32::MAX || (b.0 + 1 + b.2) * 25_000_000_000 >= right * page_width
        }),
{
    let rects = selection_rects(flat, gap, col, lo, hi);
    every_selected_word_is_covered(flat, gap, col, lo, hi, k);
    let m = choose|m: int| 0 <= m < rects.len() && covers(#[trigger] rects[m], flat[k]);
    lemma_outer_holds(rects, rects.len(), m);
    let o = outer(rects, rects.len());
    let w = flat[k];
    let p = page_width;
    let right = w.left_cqw + w.width_cqw;
    lemma_times(o.0, w.left_cqw as int, p);
    lemma_times(o.1, w.top_cqw as int, p);
    lemma_times(w.width_cqw as int, o.2 - o.0, p);
    lemma_times(w.line_height_cqw as int, o.3 - o.1, p);
    lemma_times(right, o.2, p);
    assert((o.2 - o.0) * p == o.2 * p - o.0 * p) by (nonlinear_arith);
}

pub(crate) proof fn lemma_times(a: int, b: int, p: int)
    requires
        a <= b,
        0 <= p,
    ensures
        a * p <= b * p,
{
    assert(a * p <= b * p) by (nonlinear_arith)
        requires
            a <= b,
            0 <= p,
    ;
}

proof fn lemma_outer_holds(rects: Seq<SelectionRect>, n: nat, m: int)
    requires
        0 <= m < n <= rects.len(),
    ensures
        ({
            let o = outer(rects, n);
            let r = rects[m];
            o.0 <= r.left_cqw && o.1 <= r.top_cqw && r.left_cqw + r.width_cqw <= o.2 && r.top_cqw + r.height_cqw <= o.3
        }),
    decreases n,
{
    if m < n - 1 {
        lemma_outer_holds(rects, (n - 1) as nat, m);
    }
}

/// Words that stand one after the other on a line are shown under one rectangle.
pub proof fn a_line_is_shown_under_one_rectangle(flat: Seq<FlatWord>, gap: int, col: Option<i64>, lo: int, hi: int, k: int, m: int)
    requires
        0 <= lo <= k <= m <= hi < flat.len(),
        inked(flat[k]) && in_column(flat, gap, col, k),
        inked(flat[m]) && in_column(flat, gap, col, m),
        forall|j: int| k <= j <= m ==> (#[trigger] flat[j]).line == flat[k].line,
    ensures
        exists|r: int|
            0 <= r < selection_rects(flat, gap, col, lo, hi).len() && covers(
                #[trigger] selection_rects(flat, gap, col, lo, hi)[r],
                flat[k],
            ) && covers(selection_rects(flat, gap, col, lo, hi)[r], flat[m]),
    decreases hi + 1 - lo,
{
    let line = flat[lo].line;
    lemma_line_run(flat, line, lo + 1, hi);
    lemma_run_is_one_line(flat, line, lo + 1, hi);
    let j = line_run(flat, line, lo + 1, hi);
    let all = selection_rects(flat, gap, col, lo, hi);
    let rest = selection_rects(flat, gap, col, j, hi);
    assert(shown(flat, gap, col, k) && shown(flat, gap, col, m));
    lemma_extent_fits(flat, gap, col, lo, j);
    if k < j {
        lemma_run_goes_through(flat, line, lo + 1, hi, k, m);
        assert(extent(flat, gap, col, lo, j) is Some);
        lemma_rect_fits(flat, gap, col, lo, j);
        assert(covers(all[0], flat[k]) && covers(all[0], flat[m]));
    } else {
        a_line_is_shown_under_one_rectangle(flat, gap, col, j, hi, k, m);
        let r = choose|r: int| 0 <= r < rest.len() && covers(#[trigger] rest[r], flat[k]) && covers(rest[r], flat[m]);
        if extent(flat, gap, col, lo, j) is Some {
            assert(all[r + 1] == rest[r]);
        } else {
            assert(all[r] == rest[r]);
        }
    }
}

proof fn lemma_run_goes_through(flat: Seq<FlatWord>, line: usize, j: int, hi: int, k: int, m: int)
    requires
        j - 1 <= k <= m <= hi,
        k < line_run(flat, line, j, hi),
        k < j ==> flat[k].line == line,
        forall|i: int| k <= i <= m ==> (#[trigger] flat[i]).line == flat[k].line,
    ensures
        m < line_run(flat, line, j, hi),
    decreases hi + 1 - j,
{
    if k < j {
        lemma_runs_past(flat, line, j, hi, m);
    } else if j <= hi && flat[j].line == line {
        lemma_run_goes_through(flat, line, j + 1, hi, k, m);
    }
}

proof fn lemma_runs_past(flat: Seq<FlatWord>, line: usize, j: int, hi: int, m: int)
    requires
        j - 1 <= m <= hi,
        forall|i: int| j <= i <= m ==> (#[trigger] flat[i]).line == line,
    ensures
        m < line_run(flat, line, j, hi),
    decreases hi + 1 - j,
{
    lemma_line_run(flat, line, j, hi);
    if j <= m {
        assert(flat[j].line == line);
        lemma_runs_past(flat, line, j + 1, hi, m);
    }
}

} // verus!
