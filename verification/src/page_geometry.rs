//! The pages of a book one below the other: which one is in view, and how much
//! room the others take.
//!
//! Ratios of height to width are in millionths, pixels in thousandths; the width of
//! a page, a whole number of pixels at a zoom in per cent, is in hundredths.
use vstd::prelude::*;

verus! {

pub const ZOOM_MIN: u32 = 50;
pub const ZOOM_MAX: u32 = 400;
pub const ZOOM_STEP: u32 = 25;

/// How many pages before and behind the current one are laid out.
pub const PAGE_WINDOW: u32 = 15;

/// The space between two pages.
pub const PAGE_GAP: u32 = 28_000;

/// The top edge of page `p`, in hundred-millionths of a pixel: the heights of the pages
/// before it, from the running sum of their ratios, and the gaps.
pub open spec fn page_top(prefix: Seq<i64>, page_w: i64, gap: u32, p: int) -> int {
    page_w * prefix[p - 1] + gap * (p - 1) * 100_000
}

/// The middle of the view, in hundred-millionths of a pixel.
pub open spec fn view_middle(scroll_top: i64, client_height: i64) -> int {
    (2 * scroll_top + client_height) * 50_000
}

/// Page `p` starts at or above the middle of the view.
pub open spec fn starts_above(
    prefix: Seq<i64>,
    page_w: i64,
    gap: u32,
    scroll_top: i64,
    client_height: i64,
    p: int,
) -> bool {
    page_top(prefix, page_w, gap, p) <= view_middle(scroll_top, client_height)
}

/// Bisection for the last page between `lo` and `hi` that starts above the
/// middle; `found` where none does.
pub open spec fn bisect(
    prefix: Seq<i64>,
    page_w: i64,
    gap: u32,
    scroll_top: i64,
    client_height: i64,
    lo: int,
    hi: int,
    found: int,
) -> int
    decreases hi + 1 - lo,
{
    if lo > hi {
        found
    } else {
        let mid = (lo + hi) / 2;
        if starts_above(prefix, page_w, gap, scroll_top, client_height, mid) {
            bisect(prefix, page_w, gap, scroll_top, client_height, mid + 1, hi, mid)
        } else {
            bisect(prefix, page_w, gap, scroll_top, client_height, lo, mid - 1, found)
        }
    }
}

/// The page in the middle of the view.
pub open spec fn page_in_view(
    prefix: Seq<i64>,
    page_w: i64,
    gap: u32,
    scroll_top: i64,
    client_height: i64,
) -> int {
    if prefix.len() <= 1 {
        1
    } else {
        bisect(prefix, page_w, gap, scroll_top, client_height, 1, prefix.len() - 1, 1)
    }
}

/// A running sum of ratios that are not negative.
pub open spec fn running_sum(prefix: Seq<i64>) -> bool {
    forall|i: int, j: int| 0 <= i <= j < prefix.len() ==> #[trigger] prefix[i] <= #[trigger] prefix[j]
}

proof fn lemma_tops_ascend(prefix: Seq<i64>, page_w: i64, gap: u32, p: int, q: int)
    requires
        0 <= page_w,
        running_sum(prefix),
        1 <= p <= q <= prefix.len(),
    ensures
        page_top(prefix, page_w, gap, p) <= page_top(prefix, page_w, gap, q),
{
    let a = prefix[p - 1];
    let b = prefix[q - 1];
    assert(page_w * a <= page_w * b) by (nonlinear_arith)
        requires
            a <= b,
            0 <= page_w,
    ;
    assert(gap * (p - 1) <= gap * (q - 1)) by (nonlinear_arith)
        requires
            p <= q,
            0 <= gap,
    ;
}

proof fn lemma_bisect(
    prefix: Seq<i64>,
    page_w: i64,
    gap: u32,
    scroll_top: i64,
    client_height: i64,
    lo: int,
    hi: int,
    found: int,
)
    requires
        0 <= page_w,
        running_sum(prefix),
        1 <= lo,
        hi < prefix.len(),
        lo <= hi + 1,
        1 <= found,
        lo == found + 1 && starts_above(prefix, page_w, gap, scroll_top, client_height, found) || lo == 1 && found == 1,
        hi + 1 < prefix.len() ==> !starts_above(prefix, page_w, gap, scroll_top, client_height, hi + 1),
    ensures
        ({
            let r = bisect(prefix, page_w, gap, scroll_top, client_height, lo, hi, found);
            &&& 1 <= r
            &&& r < prefix.len() || r == found
            &&& r == 1 || starts_above(prefix, page_w, gap, scroll_top, client_height, r)
            &&& forall|p: int|
                r < p < prefix.len() ==> !starts_above(prefix, page_w, gap, scroll_top, client_height, p)
        }),
    decreases hi + 1 - lo,
{
    if lo > hi {
        assert forall|p: int| found < p < prefix.len() implies !starts_above(
            prefix,
            page_w,
            gap,
            scroll_top,
            client_height,
            p,
        ) by {
            lemma_tops_ascend(prefix, page_w, gap, hi + 1, p);
        }
    } else {
        let mid = (lo + hi) / 2;
        if starts_above(prefix, page_w, gap, scroll_top, client_height, mid) {
            lemma_bisect(prefix, page_w, gap, scroll_top, client_height, mid + 1, hi, mid);
        } else {
            lemma_bisect(prefix, page_w, gap, scroll_top, client_height, lo, mid - 1, found);
        }
    }
}

/// The page in view is a page of the book, and it is the last one that starts
/// above the middle of the view, or the first page where none does.
pub proof fn page_in_view_is_the_last_above_the_middle(
    prefix: Seq<i64>,
    page_w: i64,
    gap: u32,
    scroll_top: i64,
    client_height: i64,
)
    requires
        0 <= page_w,
        running_sum(prefix),
        prefix.len() > 1,
    ensures
        ({
            let r = page_in_view(prefix, page_w, gap, scroll_top, client_height);
            &&& 1 <= r < prefix.len()
            &&& r == 1 || starts_above(prefix, page_w, gap, scroll_top, client_height, r)
            &&& forall|p: int|
                r < p < prefix.len() ==> !starts_above(prefix, page_w, gap, scroll_top, client_height, p)
        }),
{
    lemma_bisect(prefix, page_w, gap, scroll_top, client_height, 1, prefix.len() - 1, 1);
}

fn top_of_page(before: i64, page_w: i64, gap: u32, pages_before: u32) -> (r: i128)
    ensures
        r == page_w * before + gap * pages_before * 100_000,
{
    proof {
        assert(-0x8000_0000_0000_0000 * 0x8000_0000_0000_0000 <= page_w * before <= 0x8000_0000_0000_0000
            * 0x8000_0000_0000_0000) by (nonlinear_arith)
            requires
                -0x8000_0000_0000_0000 <= page_w <= 0x8000_0000_0000_0000,
                -0x8000_0000_0000_0000 <= before <= 0x8000_0000_0000_0000,
        ;
        assert(0 <= gap * pages_before <= 0x1_0000_0000 * 0x1_0000_0000) by (nonlinear_arith)
            requires
                0 <= gap < 0x1_0000_0000,
                0 <= pages_before < 0x1_0000_0000,
        ;
    }
    let heights: i128 = (page_w as i128) * (before as i128);
    let gaps: i128 = (gap as i128) * (pages_before as i128);
    heights + gaps * 100_000
}

/// The page in the middle of the view, found by bisection.
pub fn current_page_from_prefix(
    prefix: &[i64],
    page_w: i64,
    gap: u32,
    scroll_top: i64,
    client_height: i64,
) -> (r: u32)
    requires
        prefix@.len() <= u32::MAX,
    ensures
        r == page_in_view(prefix@, page_w, gap, scroll_top, client_height),
{
    if prefix.len() <= 1 {
        return 1;
    }
    let n: u32 = (prefix.len() - 1) as u32;
    let middle: i128 = (2 * (scroll_top as i128) + (client_height as i128)) * 50_000;
    let mut lo: u32 = 1;
    let mut hi: u32 = n;
    let mut found: u32 = 1;
    while lo <= hi
        invariant
            1 <= lo <= n + 1,
            hi <= n == prefix@.len() - 1,
            n < u32::MAX,
            middle == view_middle(scroll_top, client_height),
            page_in_view(prefix@, page_w, gap, scroll_top, client_height) == bisect(
                prefix@,
                page_w,
                gap,
                scroll_top,
                client_height,
                lo as int,
                hi as int,
                found as int,
            ),
        decreases hi + 1 - lo,
    {
        let mid: u32 = lo + (hi - lo) / 2;
        assert(mid == (lo + hi) / 2);
        let top = top_of_page(prefix[(mid - 1) as usize], page_w, gap, mid - 1);
        if top <= middle {
            found = mid;
            lo = mid + 1;
        } else {
            hi = mid - 1;
        }
    }
    found
}

/// The room, in hundred-millionths of a pixel, that the pages before `window_start` and
/// behind `window_end` take.
pub open spec fn spacers(
    prefix: Seq<i64>,
    page_w: i64,
    gap: u32,
    window_start: int,
    window_end: int,
) -> (int, int) {
    let n = if prefix.len() == 0 {
        0
    } else {
        prefix.len() - 1
    };
    (
        if window_start > 1 {
            page_w * prefix[window_start - 1] + gap * (window_start - 2) * 100_000
        } else {
            0
        },
        if n > window_end {
            page_w * (prefix[n] - prefix[window_end]) + gap * (n - window_end - 1) * 100_000
        } else {
            0
        },
    )
}

/// The room that the pages before and behind the window take.
pub fn spacer_heights(
    prefix: &[i64],
    page_w: i64,
    gap: u32,
    window_start: u32,
    window_end: u32,
) -> (r: (i128, i128))
    requires
        prefix@.len() <= u32::MAX,
        window_start > 1 ==> window_start <= prefix@.len(),
        window_end < prefix@.len() ==> i64::MIN <= prefix@.last() - prefix@[window_end as int] <= i64::MAX,
    ensures
        (r.0 as int, r.1 as int) == spacers(prefix@, page_w, gap, window_start as int, window_end as int),
{
    let n: u32 = if prefix.len() == 0 {
        0
    } else {
        (prefix.len() - 1) as u32
    };
    let top: i128 = if window_start > 1 {
        top_of_page(prefix[(window_start - 1) as usize], page_w, gap, window_start - 2)
    } else {
        0
    };
    let bottom: i128 = if n > window_end {
        top_of_page(prefix[n as usize] - prefix[window_end as usize], page_w, gap, n - window_end - 1)
    } else {
        0
    };
    (top, bottom)
}

/// The room of the pages `first` to `last` of a book, in hundred-millionths of a pixel,
/// with a gap between each two of them.
pub open spec fn pages_room(prefix: Seq<i64>, page_w: i64, gap: u32, first: int, last: int) -> int {
    page_w * (prefix[last] - prefix[first - 1]) + gap * (last - first) * 100_000
}

/// Whichever pages are drawn, the scrolled height is that of the whole book: the
/// room above, the pages of the window and the room below, with a gap between
/// each two of them, take what all pages take.
pub proof fn spacers_keep_the_whole_height(
    prefix: Seq<i64>,
    page_w: i64,
    gap: u32,
    window_start: int,
    window_end: int,
)
    requires
        prefix.len() >= 2,
        prefix[0] == 0,
        1 <= window_start <= window_end < prefix.len(),
    ensures
        ({
            let (above, below) = spacers(prefix, page_w, gap, window_start, window_end);
            let over: int = if window_start > 1 {
                gap * 100_000
            } else {
                0
            };
            let under: int = if window_end < prefix.len() - 1 {
                gap * 100_000
            } else {
                0
            };
            above + over + pages_room(prefix, page_w, gap, window_start, window_end) + under + below
                == pages_room(prefix, page_w, gap, 1, prefix.len() - 1)
        }),
{
    let n = prefix.len() - 1;
    let w = page_w as int;
    let g = gap as int;
    let a = prefix[window_start - 1] as int;
    let b = prefix[window_end] as int;
    let c = prefix[n] as int;
    assert(w * (b - a) == w * b - w * a) by (nonlinear_arith);
    assert(w * (c - b) == w * c - w * b) by (nonlinear_arith);
    assert(w * (c - 0) == w * c);
    assert(w * 0 == 0);
    assert(g * (window_start - 2) == g * window_start - 2 * g) by (nonlinear_arith);
    assert(g * (window_end - window_start) == g * window_end - g * window_start) by (nonlinear_arith);
    assert(g * (n - window_end - 1) == g * n - g * window_end - g) by (nonlinear_arith);
    assert(g * (n - 1) == g * n - g) by (nonlinear_arith);
}

/// The ratio of height to width of page `page`; 1 for a page that the book does
/// not have.
pub open spec fn page_ratio(prefix: Seq<i64>, page: int) -> int {
    if 1 <= page < prefix.len() {
        prefix[page] - prefix[page - 1]
    } else {
        1_000_000
    }
}

/// The ratio of height to width of page `page`, in millionths.
pub fn page_ratio_at(prefix: &[i64], page: u32) -> (r: i128)
    requires
        page >= 1,
    ensures
        r == page_ratio(prefix@, page as int),
        -0x1_0000_0000_0000_0000 <= r <= 0x1_0000_0000_0000_0000,
{
    let p = page as usize;
    if p < prefix.len() {
        (prefix[p] as i128) - (prefix[p - 1] as i128)
    } else {
        1_000_000
    }
}

/// The ratio of width to height of page `page`, in millionths of millionths; 1
/// where the page has no height.
pub fn page_aspect_at(prefix: &[i64], page: u32) -> (r: i128)
    requires
        page >= 1,
    ensures
        r == if page_ratio(prefix@, page as int) > 0 {
            1_000_000_000_000_000_000int / page_ratio(prefix@, page as int)
        } else {
            1_000_000_000_000int
        },
{
    let ratio = page_ratio_at(prefix, page);
    if ratio > 0 {
        1_000_000_000_000_000_000 / ratio
    } else {
        1_000_000_000_000
    }
}

/// A number held to the pages of a book, of which there is at least one.
pub open spec fn page_within(page: int, page_count: int) -> int {
    if page < 1 || page_count < 1 {
        1
    } else if page > page_count {
        page_count
    } else {
        page
    }
}

/// The first and the last page that are laid out round page `current`: `radius`
/// before and behind it, held to the book.
pub open spec fn window(current: int, page_count: int, radius: int) -> (int, int) {
    (page_within(current - radius, page_count), page_within(current + radius, page_count))
}

/// The pages that are laid out round page `current`.
pub fn window_bounds(current: u32, page_count: u32, radius: u32) -> (r: (u32, u32))
    ensures
        (r.0 as int, r.1 as int) == window(current as int, page_count as int, radius as int),
        1 <= r.0 <= r.1,
        r.1 <= page_count || r.1 == 1,
{
    let last: u32 = if page_count >= 1 {
        page_count
    } else {
        1
    };
    let start: u32 = if current <= radius {
        1
    } else if current - radius > last {
        last
    } else {
        current - radius
    };
    let end: u32 = if current >= last || last - current < radius {
        last
    } else if current == 0 && radius == 0 {
        1
    } else {
        current + radius
    };
    (start, end)
}

/// A window lies within the book. The current page of a book lies in its window,
/// which reaches no further than the radius on either side.
pub proof fn window_holds_the_current_page(current: int, page_count: int, radius: int)
    requires
        0 <= radius,
    ensures
        1 <= window(current, page_count, radius).0 <= window(current, page_count, radius).1,
        window(current, page_count, radius).1 <= if page_count >= 1 {
            page_count
        } else {
            1
        },
        1 <= current <= page_count ==> {
            &&& window(current, page_count, radius).0 <= current <= window(current, page_count, radius).1
            &&& current - window(current, page_count, radius).0 <= radius
            &&& window(current, page_count, radius).1 - current <= radius
        },
{
}

/// A zoom within the limits.
pub open spec fn zoom_within(zoom: int) -> int {
    if zoom < ZOOM_MIN {
        ZOOM_MIN as int
    } else if zoom > ZOOM_MAX {
        ZOOM_MAX as int
    } else {
        zoom
    }
}

/// The next smaller zoom, within the limits.
pub fn zoom_out(zoom: u32) -> (r: u32)
    ensures
        r == zoom_within(zoom - ZOOM_STEP),
{
    if zoom < ZOOM_MIN + ZOOM_STEP {
        ZOOM_MIN
    } else if zoom - ZOOM_STEP > ZOOM_MAX {
        ZOOM_MAX
    } else {
        zoom - ZOOM_STEP
    }
}

/// The next larger zoom, within the limits.
pub fn zoom_in(zoom: u32) -> (r: u32)
    ensures
        r == zoom_within(zoom + ZOOM_STEP),
{
    if zoom > ZOOM_MAX - ZOOM_STEP {
        ZOOM_MAX
    } else if zoom + ZOOM_STEP < ZOOM_MIN {
        ZOOM_MIN
    } else {
        zoom + ZOOM_STEP
    }
}

/// Where the limits leave room for a step, zooming out undoes zooming in and the
/// other way round.
pub proof fn zooming_there_and_back(zoom: int)
    requires
        ZOOM_MIN <= zoom <= ZOOM_MAX,
    ensures
        zoom + ZOOM_STEP <= ZOOM_MAX ==> zoom_within(zoom_within(zoom + ZOOM_STEP) - ZOOM_STEP) == zoom,
        zoom - ZOOM_STEP >= ZOOM_MIN ==> zoom_within(zoom_within(zoom - ZOOM_STEP) + ZOOM_STEP) == zoom,
{
}

/// The width of a page, in hundredths of a pixel: what the view leaves of its
/// width, `least` at least, at the zoom in per cent.
pub open spec fn zoomed_width(client_width: int, zoom: int, least: int) -> int {
    let content = if client_width - 48 >= least {
        client_width - 48
    } else {
        least
    };
    content * zoom
}

/// The width of a page at a zoom in per cent.
pub fn page_width(client_width: i32, zoom: u32, least: i32) -> (r: i64)
    ensures
        r == zoomed_width(client_width as int, zoom as int, least as int),
        least >= 0 ==> r >= 0,
{
    let inner: i64 = (client_width as i64) - 48;
    let content: i64 = if inner >= least as i64 {
        inner
    } else {
        least as i64
    };
    proof {
        assert(-0x8000_0000 * 0xffff_ffff <= content * zoom <= 0x7fff_ffff * 0xffff_ffff) by (nonlinear_arith)
            requires
                -0x8000_0000 <= content <= 0x7fff_ffff,
                0 <= zoom <= 0xffff_ffff,
        ;
        assert(0 <= content ==> 0 <= content * zoom) by (nonlinear_arith)
            requires
                0 <= zoom,
        ;
    }
    content * (zoom as i64)
}

/// The window reaches the radius to either side of the current page, where the book does.
pub proof fn the_window_reaches_its_radius(current: int, page_count: int, radius: int)
    requires
        0 <= radius,
        1 <= current <= page_count,
    ensures
        window(current, page_count, radius).0 == if current - radius >= 1 {
            current - radius
        } else {
            1
        },
        window(current, page_count, radius).1 == if current + radius <= page_count {
            current + radius
        } else {
            page_count
        },
{
}

/// The pages follow one another: the first one starts at the top, and each one starts a gap
/// below the end of the one before it, whose height is its ratio times the width.
pub proof fn pages_follow_one_another(prefix: Seq<i64>, page_w: i64, gap: u32, p: int)
    requires
        prefix.len() > 1,
        prefix[0] == 0,
        1 <= p < prefix.len() - 1,
    ensures
        page_top(prefix, page_w, gap, 1) == 0,
        page_top(prefix, page_w, gap, p + 1) == page_top(prefix, page_w, gap, p) + page_w * page_ratio(prefix, p) + gap * 100_000,
{
    let a = prefix[p - 1] as int;
    let b = prefix[p] as int;
    assert(page_w * b == page_w * a + page_w * (b - a)) by (nonlinear_arith);
    assert(gap * p == gap * (p - 1) + gap) by (nonlinear_arith);
    assert(page_w * 0 == 0 && gap * 0 == 0);
}

/// A page is as wide as what the view leaves of its width, at the zoom; the middle of the view
/// is half its height below its top.
pub proof fn a_page_is_as_wide_as_the_view_leaves(client_width: int, zoom: int, least: int, scroll_top: i64, client_height: i64)
    ensures
        client_width - 48 >= least ==> zoomed_width(client_width, zoom, least) == (client_width - 48) * zoom,
        client_width - 48 < least ==> zoomed_width(client_width, zoom, least) == least * zoom,
        2 * view_middle(scroll_top, client_height) == 200_000 * scroll_top + 100_000 * client_height,
{
}

} // verus!
