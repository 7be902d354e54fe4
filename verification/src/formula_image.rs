//! The image of a formula: cut out of the image of its page and put on white.
use vstd::prelude::*;

verus! {

/// An image with four bytes for each pixel: red, green, blue and opacity.
#[derive(Debug)]
pub struct PageImage {
    pub width: u32,
    pub height: u32,
    pub pixels: Vec<u8>,
}

/// The width, the height and the pixels of an encoded image, or why it cannot be
/// read.
pub uninterp spec fn decoded_image(bytes: Seq<u8>) -> Result<(u32, u32, Seq<u8>), Seq<char>>;

/// Reads an encoded image: `image::load_from_memory`, and
/// `image::DynamicImage::to_rgba8` of it, which has four bytes for each pixel.
/// The error is told in its own words.
#[verifier::external_body]
fn decode(bytes: &Vec<u8>) -> (r: Result<PageImage, String>)
    ensures
        match r {
            Ok(i) => decoded_image(bytes@) == Ok::<(u32, u32, Seq<u8>), Seq<char>>((i.width, i.height, i.pixels@))
                && i.whole(),
            Err(e) => decoded_image(bytes@) == Err::<(u32, u32, Seq<u8>), Seq<char>>(e@),
        },
{
    match image::load_from_memory(bytes) {
        Ok(img) => {
            let rgba = img.to_rgba8();
            Ok(PageImage { width: rgba.width(), height: rgba.height(), pixels: rgba.into_raw() })
        }
        Err(e) => Err(e.to_string()),
    }
}

impl PageImage {
    /// There are four bytes for each pixel.
    pub open spec fn whole(self) -> bool {
        self.pixels@.len() == 4 * self.width * self.height
    }
}

/// Byte `c` of the pixel in column `x` and row `y` of an image.
pub open spec fn byte_at(pixels: Seq<u8>, width: int, x: int, y: int, c: int) -> u8 {
    pixels[4 * (y * width + x) + c]
}

/// The bytes of an image that has the same pixel everywhere.
pub open spec fn plain_pixels(width: int, height: int, pixel: Seq<u8>) -> Seq<u8> {
    Seq::new((4 * width * height) as nat, |i: int| pixel[i % 4])
}

/// The bytes of the area of an image that begins at (`x`, `y`) and is `w` pixels
/// wide and `h` high.
pub open spec fn cut_pixels(pixels: Seq<u8>, width: int, x: int, y: int, w: int, h: int) -> Seq<u8> {
    Seq::new((4 * w * h) as nat, |i: int| byte_at(pixels, width, x + (i / 4) % w, y + (i / 4) / w, i % 4))
}

/// The bytes of the image `bottom` onto which the image `top` was laid, with its
/// upper left corner at (`x`, `y`). An image is its width, its height and its
/// bytes.
pub uninterp spec fn overlaid(bottom: (u32, u32, Seq<u8>), top: (u32, u32, Seq<u8>), x: u32, y: u32) -> Seq<u8>;

/// An image that has the same pixel everywhere: `image::RgbaImage::from_pixel`.
#[verifier::external_body]
fn plain_image(width: u32, height: u32, pixel: [u8; 4]) -> (r: PageImage)
    requires
        4 * width * height <= isize::MAX,
    ensures
        r.width == width,
        r.height == height,
        r.pixels@ == plain_pixels(width as int, height as int, pixel@),
{
    let pixels = image::RgbaImage::from_pixel(width, height, image::Rgba(pixel)).into_raw();
    PageImage { width, height, pixels }
}

/// The area of an image that begins at (`x`, `y`) and is `w` pixels wide and `h`
/// high: `image::imageops::crop_imm`, and `image::SubImage::to_image` of it, which
/// copies pixel by pixel.
#[verifier::external_body]
fn cut_out(image: &PageImage, x: u32, y: u32, w: u32, h: u32) -> (r: PageImage)
    requires
        image.whole(),
        x + w <= image.width,
        y + h <= image.height,
    ensures
        r.width == w,
        r.height == h,
        r.pixels@ == cut_pixels(image.pixels@, image.width as int, x as int, y as int, w as int, h as int),
{
    let all = image::RgbaImage::from_raw(image.width, image.height, image.pixels.clone()).unwrap_or_default();
    let part = image::imageops::crop_imm(&all, x, y, w, h).to_image();
    PageImage { width: part.width(), height: part.height(), pixels: part.into_raw() }
}

/// Lays one image onto another: `image::imageops::overlay`, which blends each
/// pixel of the upper image with the one below it. An opaque pixel takes the
/// place of the one below; what the upper image does not cover stays. How a pixel
/// that is not opaque is blended is left to the name.
#[verifier::external_body]
fn lay_over(bottom: PageImage, top: &PageImage, x: u32, y: u32) -> (r: PageImage)
    requires
        bottom.whole(),
        top.whole(),
        x + top.width <= bottom.width,
        y + top.height <= bottom.height,
    ensures
        r.width == bottom.width,
        r.height == bottom.height,
        r.whole(),
        r.pixels@ == overlaid(
            (bottom.width, bottom.height, bottom.pixels@),
            (top.width, top.height, top.pixels@),
            x,
            y,
        ),
        laid_at(r, bottom, *top, x as int, y as int),
{
    let mut ground = image::RgbaImage::from_raw(bottom.width, bottom.height, bottom.pixels).unwrap_or_default();
    let part = image::RgbaImage::from_raw(top.width, top.height, top.pixels.clone()).unwrap_or_default();
    image::imageops::overlay(&mut ground, &part, x as i64, y as i64);
    PageImage { width: bottom.width, height: bottom.height, pixels: ground.into_raw() }
}

/// `r` has the opaque pixels of `top`, with its upper left corner at (`x`, `y`),
/// and the pixels of `bottom` all round it.
pub open spec fn laid_at(r: PageImage, bottom: PageImage, top: PageImage, x: int, y: int) -> bool {
    &&& forall|i: int, j: int, c: int|
        0 <= i < bottom.width && 0 <= j < bottom.height && 0 <= c < 4 && !(x <= i < x + top.width && y <= j < y
            + top.height) ==> #[trigger] byte_at(r.pixels@, r.width as int, i, j, c) == byte_at(
            bottom.pixels@,
            bottom.width as int,
            i,
            j,
            c,
        )
    &&& forall|i: int, j: int, c: int|
        0 <= i < top.width && 0 <= j < top.height && 0 <= c < 4 && byte_at(top.pixels@, top.width as int, i, j, 3)
            == 255 ==> byte_at(r.pixels@, r.width as int, x + i, y + j, c) == #[trigger] byte_at(
            top.pixels@,
            top.width as int,
            i,
            j,
            c,
        )
}

/// The white margin round a formula, in pixels.
pub const MARGIN: u32 = 2;

/// The value of every byte of a white pixel.
pub const WHITE: u8 = 255;

/// `v`, but not below `lo` and not above `hi`.
pub open spec fn held(v: int, lo: int, hi: int) -> int {
    if v < lo {
        lo
    } else if v > hi {
        hi
    } else {
        v
    }
}

/// The box does not begin behind the image.
pub open spec fn begins_within(bbox: (i32, i32, i32, i32), width: int, height: int) -> bool {
    &&& 1 <= width <= i32::MAX
    &&& 1 <= height <= i32::MAX
    &&& 1 <= width - bbox.0 <= i32::MAX
    &&& 1 <= height - bbox.1 <= i32::MAX
}

/// The area of a box: it begins within the image, has a pixel at least, and is
/// no longer than from where the box begins to the end of the image.
pub open spec fn area_of(bbox: (i32, i32, i32, i32), width: int, height: int) -> (int, int, int, int) {
    (
        held(bbox.0 as int, 0, width - 1),
        held(bbox.1 as int, 0, height - 1),
        held(bbox.2 as int, 1, width - bbox.0),
        held(bbox.3 as int, 1, height - bbox.1),
    )
}

fn hold(v: i32, lo: i32, hi: i32) -> (r: i32)
    requires
        lo <= hi,
    ensures
        r == held(v as int, lo as int, hi as int),
{
    if v < lo {
        lo
    } else if v > hi {
        hi
    } else {
        v
    }
}

/// The area of a box in an image.
pub fn crop_area(bbox: (i32, i32, i32, i32), width: u32, height: u32) -> (r: (u32, u32, u32, u32))
    requires
        begins_within(bbox, width as int, height as int),
    ensures
        (r.0 as int, r.1 as int, r.2 as int, r.3 as int) == area_of(bbox, width as int, height as int),
{
    let x = hold(bbox.0, 0, width as i32 - 1);
    let y = hold(bbox.1, 0, height as i32 - 1);
    let w = hold(bbox.2, 1, width as i32 - bbox.0);
    let h = hold(bbox.3, 1, height as i32 - bbox.1);
    (x as u32, y as u32, w as u32, h as u32)
}

/// What became of the image of a formula.
#[derive(Debug)]
pub enum FormulaCanvas {
    /// The image of the page cannot be read.
    Unreadable(String),
    /// The box begins behind the page, or is too large for an image.
    OffPage,
    /// The image, on white.
    Ready(PageImage),
}

/// The size of the canvas for an area: the margin all round it.
pub open spec fn canvas_size(area: (int, int, int, int)) -> (int, int) {
    (area.2 + 2 * MARGIN, area.3 + 2 * MARGIN)
}

/// The canvas can be held in memory.
pub open spec fn canvas_fits(bbox: (i32, i32, i32, i32), width: int, height: int) -> bool {
    let size = canvas_size(area_of(bbox, width, height));
    4 * size.0 * size.1 <= isize::MAX
}

/// The part of an area that lies within the image.
pub open spec fn inside(area: (int, int, int, int), width: int, height: int) -> (int, int, int, int) {
    (
        area.0,
        area.1,
        held(area.2, 0, width - area.0),
        held(area.3, 0, height - area.1),
    )
}

/// The image of the formula in a box of a page's image: what lies in the box, on
/// white, with a margin.
pub open spec fn canvas_shows(c: FormulaCanvas, image: (u32, u32, Seq<u8>), bbox: (i32, i32, i32, i32)) -> bool {
    let width = image.0 as int;
    let height = image.1 as int;
    if begins_within(bbox, width, height) && canvas_fits(bbox, width, height) {
        let area = area_of(bbox, width, height);
        let size = canvas_size(area);
        let part = inside(area, width, height);
        &&& c is Ready
        &&& c->Ready_0.width == size.0
        &&& c->Ready_0.height == size.1
        &&& c->Ready_0.whole()
        &&& c->Ready_0.pixels@ == overlaid(
            (size.0 as u32, size.1 as u32, plain_pixels(size.0, size.1, seq![WHITE, WHITE, WHITE, WHITE])),
            (
                part.2 as u32,
                part.3 as u32,
                cut_pixels(image.2, width, part.0, part.1, part.2, part.3),
            ),
            MARGIN,
            MARGIN,
        )
        &&& formula_on_white(c->Ready_0, image, part)
    } else {
        c is OffPage
    }
}

/// The canvas is white but for the part of the image behind the margin, of which
/// it has all opaque pixels.
pub open spec fn formula_on_white(c: PageImage, image: (u32, u32, Seq<u8>), part: (int, int, int, int)) -> bool {
    &&& forall|i: int, j: int, k: int|
        0 <= i < c.width && 0 <= j < c.height && 0 <= k < 4 && !(MARGIN <= i < MARGIN + part.2 && MARGIN <= j < MARGIN
            + part.3) ==> #[trigger] byte_at(c.pixels@, c.width as int, i, j, k) == WHITE
    &&& forall|i: int, j: int, k: int|
        0 <= i < part.2 && 0 <= j < part.3 && 0 <= k < 4 && byte_at(
            image.2,
            image.0 as int,
            part.0 + i,
            part.1 + j,
            3,
        ) == 255 ==> byte_at(c.pixels@, c.width as int, MARGIN + i, MARGIN + j, k) == #[trigger] byte_at(
            image.2,
            image.0 as int,
            part.0 + i,
            part.1 + j,
            k,
        )
}

proof fn lemma_index(width: int, height: int, i: int, j: int, c: int)
    requires
        0 <= i < width,
        0 <= j < height,
        0 <= c < 4,
    ensures
        0 <= 4 * (j * width + i) + c < 4 * width * height,
        (4 * (j * width + i) + c) % 4 == c,
        (4 * (j * width + i) + c) / 4 == j * width + i,
        (j * width + i) % width == i,
        (j * width + i) / width == j,
{
    let q = j * width + i;
    assert(0 <= j * width) by (nonlinear_arith)
        requires
            0 <= j,
            0 < width,
    ;
    assert(q + 1 <= width * height) by (nonlinear_arith)
        requires
            q == j * width + i,
            i < width,
            j + 1 <= height,
            0 < width,
    ;
    assert(4 * width * height == 4 * (width * height)) by (nonlinear_arith);
    vstd::arithmetic::div_mod::lemma_fundamental_div_mod_converse(4 * q + c, 4, q, c);
    vstd::arithmetic::div_mod::lemma_fundamental_div_mod_converse(q, width, j, i);
}

proof fn lemma_cut(pixels: Seq<u8>, width: int, x: int, y: int, w: int, h: int, i: int, j: int, c: int)
    requires
        0 <= i < w,
        0 <= j < h,
        0 <= c < 4,
    ensures
        byte_at(cut_pixels(pixels, width, x, y, w, h), w, i, j, c) == byte_at(pixels, width, x + i, y + j, c),
{
    lemma_index(w, h, i, j, c);
}

proof fn lemma_size(w: u32, h: u32)
    ensures
        0 <= 4 * w * h,
{
    assert(0 <= 4 * w * h) by (nonlinear_arith)
        requires
            0 <= w,
            0 <= h,
    ;
}

/// The image of the formula in a box of a page's image.
pub fn canvas_of(image: &PageImage, bbox: (i32, i32, i32, i32)) -> (r: FormulaCanvas)
    requires
        image.whole(),
    ensures
        canvas_shows(r, (image.width, image.height, image.pixels@), bbox),
{
    let top: u32 = i32::MAX as u32;
    if image.width < 1 || image.width > top || image.height < 1 || image.height > top {
        return FormulaCanvas::OffPage;
    }
    let across: i64 = (image.width as i64) - (bbox.0 as i64);
    let down: i64 = (image.height as i64) - (bbox.1 as i64);
    if across < 1 || across > i32::MAX as i64 || down < 1 || down > i32::MAX as i64 {
        return FormulaCanvas::OffPage;
    }
    let area = crop_area(bbox, image.width, image.height);
    let width: u32 = area.2 + 2 * MARGIN;
    let height: u32 = area.3 + 2 * MARGIN;
    proof {
        let w = width as int;
        let h = height as int;
        assert(0 <= w * h <= 0x1_0000_0000 * 0x1_0000_0000) by (nonlinear_arith)
            requires
                0 <= w <= 0x1_0000_0000,
                0 <= h <= 0x1_0000_0000,
        ;
        assert(4 * w * h == 4 * (w * h)) by (nonlinear_arith);
    }
    let bytes: u128 = 4 * ((width as u128) * (height as u128));
    if bytes > isize::MAX as u128 {
        return FormulaCanvas::OffPage;
    }
    let w: u32 = if area.2 > image.width - area.0 {
        image.width - area.0
    } else {
        area.2
    };
    let h: u32 = if area.3 > image.height - area.1 {
        image.height - area.1
    } else {
        area.3
    };
    let white: [u8; 4] = [WHITE, WHITE, WHITE, WHITE];
    assert(white@ =~= seq![WHITE, WHITE, WHITE, WHITE]);
    let ground = plain_image(width, height, white);
    let part = cut_out(image, area.0, area.1, w, h);
    proof {
        lemma_size(width, height);
        lemma_size(w, h);
    }
    let ghost below = ground;
    let canvas = lay_over(ground, &part, MARGIN, MARGIN);
    proof {
        let p = (area.0 as int, area.1 as int, w as int, h as int);
        let page = (image.width, image.height, image.pixels@);
        assert(p == inside(area_of(bbox, image.width as int, image.height as int), image.width as int, image.height as int));
        assert forall|i: int, j: int, k: int|
            0 <= i < canvas.width && 0 <= j < canvas.height && 0 <= k < 4 && !(MARGIN <= i < MARGIN + p.2 && MARGIN <= j
                < MARGIN + p.3) implies #[trigger] byte_at(canvas.pixels@, canvas.width as int, i, j, k) == WHITE by {
            lemma_index(width as int, height as int, i, j, k);
            assert(byte_at(below.pixels@, width as int, i, j, k) == WHITE);
        }
        assert forall|i: int, j: int, k: int|
            0 <= i < p.2 && 0 <= j < p.3 && 0 <= k < 4 && byte_at(page.2, page.0 as int, p.0 + i, p.1 + j, 3)
                == 255 implies byte_at(canvas.pixels@, canvas.width as int, MARGIN + i, MARGIN + j, k) == #[trigger] byte_at(
            page.2,
            page.0 as int,
            p.0 + i,
            p.1 + j,
            k,
        ) by {
            lemma_cut(page.2, page.0 as int, p.0, p.1, p.2, p.3, i, j, k);
            lemma_cut(page.2, page.0 as int, p.0, p.1, p.2, p.3, i, j, 3);
            assert(byte_at(part.pixels@, part.width as int, i, j, k) == byte_at(page.2, page.0 as int, p.0 + i, p.1 + j, k));
        }
        assert(formula_on_white(canvas, page, p));
    }
    FormulaCanvas::Ready(canvas)
}

/// What is said of an image of a page that cannot be read.
pub open spec fn unreadable_text(e: Seq<char>) -> Seq<char> {
    "解码页面图像失败:"@ + e
}

/// The image of the formula in a box of a page whose image is encoded in `bytes`.
pub fn formula_canvas(bytes: &Vec<u8>, bbox: (i32, i32, i32, i32)) -> (r: FormulaCanvas)
    ensures
        match decoded_image(bytes@) {
            Ok(image) => canvas_shows(r, image, bbox),
            Err(e) => r is Unreadable && r->Unreadable_0@ == unreadable_text(e),
        },
{
    match decode(bytes) {
        Ok(image) => canvas_of(&image, bbox),
        Err(e) => {
            let mut text = String::new();
            text.append("解码页面图像失败:");
            text.append(e.as_str());
            assert(text@ =~= unreadable_text(e@));
            FormulaCanvas::Unreadable(text)
        },
    }
}

/// The area of a box that begins within the image lies within it, and is never
/// empty.
pub proof fn a_formula_stays_within_its_page(bbox: (i32, i32, i32, i32), width: int, height: int)
    requires
        begins_within(bbox, width, height),
        0 <= bbox.0,
        0 <= bbox.1,
    ensures
        ({
            let a = area_of(bbox, width, height);
            &&& 0 <= a.0 && 0 <= a.1 && 1 <= a.2 && 1 <= a.3
            &&& a.0 + a.2 <= width
            &&& a.1 + a.3 <= height
        }),
{
}

/// A box that lies on the page is cut out as it is, and the canvas has two pixels more on
/// each side.
pub proof fn a_box_on_the_page_is_cut_out_as_it_is(bbox: (i32, i32, i32, i32), width: int, height: int)
    requires
        0 <= bbox.0 && 0 <= bbox.1 && 1 <= bbox.2 && 1 <= bbox.3,
        bbox.0 + bbox.2 <= width,
        bbox.1 + bbox.3 <= height,
    ensures
        area_of(bbox, width, height) == (bbox.0 as int, bbox.1 as int, bbox.2 as int, bbox.3 as int),
        inside(area_of(bbox, width, height), width, height) == (bbox.0 as int, bbox.1 as int, bbox.2 as int, bbox.3 as int),
        canvas_size(area_of(bbox, width, height)) == (bbox.2 + 4, bbox.3 + 4),
{
}

} // verus!
