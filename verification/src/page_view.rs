//! What is drawn of a page: its image, its words, the selection on it, and what
//! the mouse does to them.
use crate::classify::{classify_words_with, page_layer};
use crate::double::rounded;
use crate::gestures::ClickState;
use crate::keys::{base64_text, to_base64};
use crate::lines::in_column;
use crate::page_text::{build_flat, flat_words, inked, DocCalibration, FlatWord, Layer, OverlayLine};
use crate::rects::{
    covers, every_rectangle_fits_selected_words, every_selected_word_is_covered, fits_line, selection_rects,
    selection_rects_with, SelectionRect,
};
use crate::selection::{Selection, SelectionStep};
use crate::session::ReaderSession;
use crate::signs::page_chars;
use crate::text::{blank, decimal, digit, is_blank};
use vstd::prelude::*;

verus! {

// ── the text of a page ──

/// Where the words of a page come from: its text, or the recognition of its
/// image, which may not be set up or may fail.
#[derive(Debug)]
pub enum PageTextSource {
    Text(Vec<OverlayLine>),
    Recognised(Vec<OverlayLine>),
    NotConfigured,
    Failed(String),
}

/// Where the words of a page come from: its text, or, where that will not do, the
/// recognition of its image, which gives lines, is not set up or fails.
pub fn text_source(
    needs_recognition: bool,
    text: Vec<OverlayLine>,
    recognised: Result<Option<Vec<OverlayLine>>, String>,
) -> (r: PageTextSource)
    ensures
        r == if !needs_recognition {
            PageTextSource::Text(text)
        } else {
            match recognised {
                Ok(Some(lines)) => PageTextSource::Recognised(lines),
                Ok(None) => PageTextSource::NotConfigured,
                Err(e) => PageTextSource::Failed(e),
            }
        },
{
    if !needs_recognition {
        return PageTextSource::Text(text);
    }
    match recognised {
        Ok(Some(lines)) => PageTextSource::Recognised(lines),
        Ok(None) => PageTextSource::NotConfigured,
        Err(e) => PageTextSource::Failed(e),
    }
}

/// The words of both layers of a page, and a warning.
pub open spec fn words_from(
    source: PageTextSource,
    cal: DocCalibration,
) -> (Seq<FlatWord>, Seq<FlatWord>, Option<Seq<char>>) {
    match source {
        PageTextSource::Text(overlay) => (
            page_layer(overlay@, cal, false),
            page_layer(overlay@, cal, true),
            None,
        ),
        PageTextSource::Recognised(overlay) => (flat_words(overlay@), Seq::empty(), None),
        PageTextSource::NotConfigured => (
            Seq::empty(),
            Seq::empty(),
            Some("未配置页面 OCR 模型:扫描页暂不能选中文字,可在设置或工具栏配置后重试"@),
        ),
        PageTextSource::Failed(e) => (Seq::empty(), Seq::empty(), Some("页面 OCR 失败:"@ + e@)),
    }
}

/// The words of both layers of a page, and a warning where there are none. The
/// words that were recognised in an image are all in the body.
pub fn page_overlay(source: &PageTextSource, cal: DocCalibration) -> (r: (Vec<FlatWord>, Vec<FlatWord>, Option<String>))
    requires
        source is Text ==> page_chars(source->Text_0@) <= usize::MAX,
    ensures
        (r.0@, r.1@, crate::model::opt_text(r.2)) == words_from(*source, cal),
{
    match source {
        PageTextSource::Text(overlay) => {
            let (body, small) = classify_words_with(overlay.as_slice(), cal);
            (body, small, None)
        },
        PageTextSource::Recognised(overlay) => {
            let none: Vec<FlatWord> = Vec::new();
            assert(none@ =~= Seq::<FlatWord>::empty());
            (build_flat(overlay.as_slice()), none, None)
        },
        PageTextSource::NotConfigured => {
            let none: Vec<FlatWord> = Vec::new();
            let nothing: Vec<FlatWord> = Vec::new();
            assert(none@ =~= Seq::<FlatWord>::empty());
            (
                none,
                nothing,
                Some("未配置页面 OCR 模型:扫描页暂不能选中文字,可在设置或工具栏配置后重试".to_owned()),
            )
        },
        PageTextSource::Failed(e) => {
            let none: Vec<FlatWord> = Vec::new();
            let nothing: Vec<FlatWord> = Vec::new();
            assert(none@ =~= Seq::<FlatWord>::empty());
            let mut text = String::new();
            text.append("页面 OCR 失败:");
            text.append(e.as_str());
            assert(text@ =~= "页面 OCR 失败:"@ + e@);
            (none, nothing, Some(text))
        },
    }
}

/// The address of an image that it holds itself.
pub open spec fn image_address(base64: Seq<char>) -> Seq<char> {
    "data:image/png;base64,"@ + base64
}

/// The address of a page's image.
pub fn image_uri(png: &Vec<u8>) -> (r: String)
    ensures
        r@ == image_address(base64_text(png@)),
{
    let code = to_base64(png.as_slice());
    let mut r = String::new();
    r.append("data:image/png;base64,");
    r.append(code.as_str());
    assert(r@ =~= image_address(code@));
    r
}

// ── the selection on a page ──

/// The place, or the last one where there are fewer words.
pub open spec fn within(i: usize, n: nat) -> int {
    if i < n {
        i as int
    } else {
        n - 1
    }
}

/// The rectangles of one step on the words of a page.
pub open spec fn step_rects(flat: Seq<FlatWord>, gap: int, s: SelectionStep) -> Seq<SelectionRect> {
    selection_rects(flat, gap, s.column_left, within(s.lo, flat.len()), within(s.hi, flat.len()))
}

/// The rectangles of the first `n` steps that lie on a page.
pub open spec fn rects_of_steps(
    flat: Seq<FlatWord>,
    gap: int,
    steps: Seq<SelectionStep>,
    page: u32,
    n: nat,
) -> Seq<SelectionRect>
    decreases n,
{
    if n == 0 {
        Seq::empty()
    } else if steps[n - 1].page == page && flat.len() > 0 {
        rects_of_steps(flat, gap, steps, page, (n - 1) as nat) + step_rects(flat, gap, steps[n - 1])
    } else {
        rects_of_steps(flat, gap, steps, page, (n - 1) as nat)
    }
}

/// The rectangles of a selection on one layer of a page.
pub open spec fn rects_on(selection: Option<Selection>, page: u32, layer: Layer, flat: Seq<FlatWord>, gap: int) -> Seq<
    SelectionRect,
> {
    match selection {
        Some(sel) => if sel.layer == layer {
            rects_of_steps(flat, gap, sel.steps@, page, sel.steps@.len())
        } else {
            Seq::empty()
        },
        None => Seq::empty(),
    }
}

/// The rectangles of a selection on one layer of a page.
pub fn page_rects(selection: &Option<Selection>, page: u32, layer: Layer, flat: &[FlatWord], column_gap_cqw: i64) -> (r: Vec<
    SelectionRect,
>)
    ensures
        r@ == rects_on(*selection, page, layer, flat@, column_gap_cqw as int),
{
    let mut r: Vec<SelectionRect> = Vec::new();
    let ghost gap = column_gap_cqw as int;
    if let Some(sel) = selection {
        if sel.layer == layer {
            let n = flat.len();
            let mut i: usize = 0;
            while i < sel.steps.len()
                invariant
                    i <= sel.steps@.len(),
                    n == flat@.len(),
                    gap == column_gap_cqw as int,
                    r@ == rects_of_steps(flat@, gap, sel.steps@, page, i as nat),
                decreases sel.steps@.len() - i,
            {
                let s = sel.steps[i];
                if s.page == page && n > 0 {
                    let lo: usize = if s.lo < n {
                        s.lo
                    } else {
                        n - 1
                    };
                    let hi: usize = if s.hi < n {
                        s.hi
                    } else {
                        n - 1
                    };
                    let mut more = selection_rects_with(flat, lo, hi, s.column_left, column_gap_cqw);
                    r.append(&mut more);
                }
                i = i + 1;
            }
        }
    }
    r
}

// ── styles ──

/// Three digits.
pub open spec fn three_digits(n: nat) -> Seq<char> {
    seq![digit(n / 100 % 10), digit(n / 10 % 10), digit(n % 10)]
}

/// A length in millionths, written with three digits behind the point.
pub open spec fn length_text(x: int) -> Seq<char> {
    let t = rounded((if x < 0 {
        -x
    } else {
        x
    }) as nat, 1000);
    (if x < 0 {
        "-"@
    } else {
        Seq::empty()
    }) + decimal(t / 1000) + "."@ + three_digits(t % 1000)
}

fn push_digits(out: &mut String, n: u128)
    ensures
        final(out)@ == old(out)@ + decimal(n as nat),
    decreases n,
{
    if n >= 10 {
        push_digits(out, n / 10);
    }
    let b: u8 = 48u8 + (n % 10) as u8;
    out.push(b as char);
    assert(out@ =~= old(out)@ + decimal(n as nat));
}

/// Appends a length in millionths, with three digits behind the point.
pub fn push_length(out: &mut String, x: i128)
    ensures
        final(out)@ == old(out)@ + length_text(x as int),
{
    let size: u128 = if x < 0 {
        (-(x + 1)) as u128 + 1
    } else {
        x as u128
    };
    let ghost start = out@;
    if x < 0 {
        out.append("-");
    }
    let ghost signed = out@;
    assert(signed =~= start + (if x < 0 {
        "-"@
    } else {
        Seq::<char>::empty()
    }));
    let q: u128 = size / 1000;
    let rest: u128 = size % 1000;
    let t: u128 = if 2 * rest > 1000 || (2 * rest == 1000 && q % 2 == 1) {
        q + 1
    } else {
        q
    };
    assert(t == rounded(size as nat, 1000));
    push_digits(out, t / 1000);
    out.append(".");
    let f: u128 = t % 1000;
    let a: u8 = 48u8 + (f / 100) as u8;
    let b: u8 = 48u8 + (f / 10 % 10) as u8;
    let c: u8 = 48u8 + (f % 10) as u8;
    out.push(a as char);
    out.push(b as char);
    out.push(c as char);
    proof {
        assert((f / 100) % 10 == f / 100);
        assert(out@ =~= start + length_text(x as int));
    }
}

/// The style of a word on the page: its place and size.
pub open spec fn word_style_text(w: FlatWord) -> Seq<char> {
    let height = length_text(w.height_cqw as int);
    "left: "@ + length_text(w.left_cqw as int) + "%; top: "@ + length_text(w.top_cqw as int) + "cqw; width: "@
        + length_text(w.width_cqw as int) + "cqw; height: "@ + height + "cqw; font-size: 12px; font-size: "@ + height
        + "cqw; line-height: 12px; line-height: "@ + height + "cqw"@
}

/// The style of a word on the page.
pub fn word_style(w: &FlatWord) -> (r: String)
    ensures
        r@ == word_style_text(*w),
{
    let mut r = String::new();
    r.append("left: ");
    push_length(&mut r, w.left_cqw as i128);
    r.append("%; top: ");
    push_length(&mut r, w.top_cqw as i128);
    r.append("cqw; width: ");
    push_length(&mut r, w.width_cqw as i128);
    r.append("cqw; height: ");
    push_length(&mut r, w.height_cqw as i128);
    r.append("cqw; font-size: 12px; font-size: ");
    push_length(&mut r, w.height_cqw as i128);
    r.append("cqw; line-height: 12px; line-height: ");
    push_length(&mut r, w.height_cqw as i128);
    r.append("cqw");
    assert(r@ =~= word_style_text(*w));
    r
}

/// The style of a rectangle of the selection.
pub open spec fn rect_style_text(s: SelectionRect) -> Seq<char> {
    "left: "@ + length_text(s.left_cqw as int) + "%; top: "@ + length_text(s.top_cqw as int) + "cqw; width: "@
        + length_text(s.width_cqw as int) + "cqw; height: "@ + length_text(s.height_cqw as int) + "cqw"@
}

/// The style of a rectangle of the selection.
pub fn rect_style(s: &SelectionRect) -> (r: String)
    ensures
        r@ == rect_style_text(*s),
{
    let mut r = String::new();
    r.append("left: ");
    push_length(&mut r, s.left_cqw as i128);
    r.append("%; top: ");
    push_length(&mut r, s.top_cqw as i128);
    r.append("cqw; width: ");
    push_length(&mut r, s.width_cqw);
    r.append("cqw; height: ");
    push_length(&mut r, s.height_cqw as i128);
    r.append("cqw");
    assert(r@ =~= rect_style_text(*s));
    r
}

/// The style class of a word.
pub fn word_class(w: &FlatWord) -> (r: &'static str)
    ensures
        r@ == if blank(w.text@) {
            "reader-overlay-word space-word"@
        } else {
            "reader-overlay-word"@
        },
{
    if is_blank(w.text.as_str()) {
        "reader-overlay-word space-word"
    } else {
        "reader-overlay-word"
    }
}

// ── the mouse ──

/// What pressing a button on a word does.
#[derive(Debug, Clone, Copy, PartialEq, Eq, Structural)]
pub enum WordPress {
    Nothing,
    StartDrag,
    ExtendSelection,
}

/// What pressing a button on a word does: nothing for the second button; with
/// the shift key it extends the selection.
pub fn word_press(secondary: bool, shift: bool) -> (r: WordPress)
    ensures
        r == if secondary {
            WordPress::Nothing
        } else if shift {
            WordPress::ExtendSelection
        } else {
            WordPress::StartDrag
        },
{
    if secondary {
        WordPress::Nothing
    } else if shift {
        WordPress::ExtendSelection
    } else {
        WordPress::StartDrag
    }
}

/// What a double click selects.
#[derive(Debug, Clone, Copy, PartialEq, Eq, Structural)]
pub enum DoubleClick {
    Nothing,
    Word(Layer, usize),
    Paragraph(Layer, usize),
}

/// What a double click on a word selects: the paragraph with the command key,
/// else the word; nothing with the shift key.
pub fn word_double_click(layer: Layer, idx: usize, meta: bool, shift: bool) -> (r: DoubleClick)
    ensures
        r == if shift {
            DoubleClick::Nothing
        } else if meta {
            DoubleClick::Paragraph(layer, idx)
        } else {
            DoubleClick::Word(layer, idx)
        },
{
    if shift {
        DoubleClick::Nothing
    } else if meta {
        DoubleClick::Paragraph(layer, idx)
    } else {
        DoubleClick::Word(layer, idx)
    }
}

/// What a double click beside the words selects: what the word that was clicked
/// last on this page would.
pub fn page_double_click(clicks: &ClickState, page: u32, meta: bool) -> (r: DoubleClick)
    ensures
        r == if clicks.page != page || clicks.word == usize::MAX {
            DoubleClick::Nothing
        } else if meta {
            DoubleClick::Paragraph(clicks.layer, clicks.word)
        } else {
            DoubleClick::Word(clicks.layer, clicks.word)
        },
{
    match clicks.pending_word(page) {
        Some((layer, idx)) => {
            if meta {
                DoubleClick::Paragraph(layer, idx)
            } else {
                DoubleClick::Word(layer, idx)
            }
        },
        None => DoubleClick::Nothing,
    }
}

impl ReaderSession {
    /// Whether a click with the second button selects the word under it: where
    /// nothing is selected yet.
    pub fn context_selects_word(&self) -> (r: bool)
        ensures
            r == !self.has_selection(),
    {
        match &self.selection {
            Some(sel) => sel.steps.len() == 0,
            None => true,
        }
    }
}

/// What a key does on the pages.
#[derive(Debug, Clone, Copy, PartialEq, Eq, Structural)]
pub enum PageKey {
    Nothing,
    CloseBar,
    CopyText,
}

/// What a key does on the pages: Escape closes the bar, the command key with C
/// copies the selected text.
pub fn page_key(escape: bool, meta: bool, letter_c: bool) -> (r: PageKey)
    ensures
        r == if escape {
            PageKey::CloseBar
        } else if meta && letter_c {
            PageKey::CopyText
        } else {
            PageKey::Nothing
        },
{
    if escape {
        PageKey::CloseBar
    } else if meta && letter_c {
        PageKey::CopyText
    } else {
        PageKey::Nothing
    }
}

proof fn lemma_rects_of(flat: Seq<FlatWord>, gap: int, steps: Seq<SelectionStep>, page: u32, n: nat, i: int, m: int)
    requires
        0 <= i < n <= steps.len(),
        steps[i].page == page,
        flat.len() > 0,
        0 <= m < step_rects(flat, gap, steps[i]).len(),
    ensures
        rects_of_steps(flat, gap, steps, page, n).contains(step_rects(flat, gap, steps[i])[m]),
    decreases n,
{
    let before = rects_of_steps(flat, gap, steps, page, (n - 1) as nat);
    let all = rects_of_steps(flat, gap, steps, page, n);
    let r = step_rects(flat, gap, steps[i])[m];
    if i == n - 1 {
        assert(all[before.len() + m] == r);
    } else {
        lemma_rects_of(flat, gap, steps, page, (n - 1) as nat, i, m);
        let j = choose|j: int| 0 <= j < before.len() && before[j] == r;
        assert(all[j] == r);
    }
}

/// A selection is shown on each of its pages: in its own layer, every word of a step on the
/// page that shows something and counts for its column is covered by a rectangle; in the
/// other layer nothing is shown.
pub proof fn a_selection_is_shown_on_its_pages(
    selection: Selection,
    page: u32,
    layer: Layer,
    flat: Seq<FlatWord>,
    gap: int,
    i: int,
    k: int,
)
    ensures
        layer != selection.layer ==> rects_on(Some(selection), page, layer, flat, gap).len() == 0,
        rects_on(None, page, layer, flat, gap).len() == 0,
        layer == selection.layer && 0 <= i < selection.steps@.len() && selection.steps@[i].page == page && k < flat.len()
            && selection.steps@[i].lo <= k <= selection.steps@[i].hi && inked(flat[k]) && in_column(
            flat,
            gap,
            selection.steps@[i].column_left,
            k,
        ) ==> exists|m: int|
            0 <= m < rects_on(Some(selection), page, layer, flat, gap).len() && covers(
                #[trigger] rects_on(Some(selection), page, layer, flat, gap)[m],
                flat[k],
            ),
{
    let steps = selection.steps@;
    if layer == selection.layer && 0 <= i < steps.len() && steps[i].page == page && k < flat.len() && steps[i].lo <= k
        <= steps[i].hi && inked(flat[k]) && in_column(flat, gap, steps[i].column_left, k) {
        let s = steps[i];
        let lo = within(s.lo, flat.len());
        let hi = within(s.hi, flat.len());
        every_selected_word_is_covered(flat, gap, s.column_left, lo, hi, k);
        let own = step_rects(flat, gap, s);
        let m = choose|m: int| 0 <= m < own.len() && covers(#[trigger] own[m], flat[k]);
        lemma_rects_of(flat, gap, steps, page, steps.len(), i, m);
        let all = rects_on(Some(selection), page, layer, flat, gap);
        let j = choose|j: int| 0 <= j < all.len() && all[j] == own[m];
        assert(covers(all[j], flat[k]));
    }
}

/// The rectangle fits words of step `i`, which is on the page.
pub open spec fn shows_step(
    flat: Seq<FlatWord>,
    gap: int,
    steps: Seq<SelectionStep>,
    page: u32,
    i: int,
    r: SelectionRect,
) -> bool {
    &&& 0 <= i < steps.len()
    &&& steps[i].page == page
    &&& exists|a: int, b: int|
        within(steps[i].lo, flat.len()) <= a < b <= within(steps[i].hi, flat.len()) + 1 && #[trigger] fits_line(
            flat,
            gap,
            steps[i].column_left,
            a,
            b,
            r,
        )
}

proof fn lemma_shown_from(flat: Seq<FlatWord>, gap: int, steps: Seq<SelectionStep>, page: u32, n: nat, m: int)
    requires
        n <= steps.len(),
        0 <= m < rects_of_steps(flat, gap, steps, page, n).len(),
    ensures
        exists|i: int| #[trigger] shows_step(flat, gap, steps, page, i, rects_of_steps(flat, gap, steps, page, n)[m]),
    decreases n,
{
    if n > 0 {
        let before = rects_of_steps(flat, gap, steps, page, (n - 1) as nat);
        let all = rects_of_steps(flat, gap, steps, page, n);
        if m < before.len() {
            lemma_shown_from(flat, gap, steps, page, (n - 1) as nat, m);
            assert(all[m] == before[m]);
        } else {
            let s = steps[n - 1];
            let own = step_rects(flat, gap, s);
            assert(all[m] == own[m - before.len()]);
            every_rectangle_fits_selected_words(
                flat,
                gap,
                s.column_left,
                within(s.lo, flat.len()),
                within(s.hi, flat.len()),
                m - before.len(),
            );
            assert(shows_step(flat, gap, steps, page, n - 1, all[m]));
        }
    }
}

/// Every rectangle on a page fits words of a step on that page.
pub proof fn nothing_but_the_selection_is_shown(
    selection: Selection,
    page: u32,
    layer: Layer,
    flat: Seq<FlatWord>,
    gap: int,
    m: int,
)
    requires
        0 <= m < rects_on(Some(selection), page, layer, flat, gap).len(),
    ensures
        exists|i: int|
            #[trigger] shows_step(
                flat,
                gap,
                selection.steps@,
                page,
                i,
                rects_on(Some(selection), page, layer, flat, gap)[m],
            ),
{
    lemma_shown_from(flat, gap, selection.steps@, page, selection.steps@.len(), m);
}

/// Lengths are written with three decimals, rounded to the nearest: `t` thousandths, a minus
/// sign before them where there is one.
#[verifier::rlimit(60)]
pub proof fn lengths_are_written_with_three_decimals(x: int, n: nat)
    ensures
        0 <= x ==> exists|t: nat|
            #![trigger decimal(t / 1000)]
            length_text(x) == decimal(t / 1000) + seq!['.'] + three_digits(t % 1000) && 2 * (t * 1000 - x) <= 1000 && 2 * (x - t * 1000)
                <= 1000,
        0 < x ==> length_text(-x) == seq!['-'] + length_text(x),
        100 <= n < 1000 ==> three_digits(n) == decimal(n),
        10 <= n < 100 ==> three_digits(n) == seq!['0'] + decimal(n),
        n < 10 ==> three_digits(n) == seq!['0', '0'] + decimal(n),
{
    reveal_strlit(".");
    reveal_strlit("-");
    assert("."@ =~= seq!['.']);
    assert("-"@ =~= seq!['-']);
    if 0 <= x {
        crate::double::rounding_is_to_the_nearest(x as nat, 1000);
        let t = rounded(x as nat, 1000);
        assert(length_text(x) =~= decimal(t / 1000) + seq!['.'] + three_digits(t % 1000));
    }
    if 0 < x {
        assert(length_text(-x) =~= seq!['-'] + length_text(x));
    }
    let z = '0';
    assert(digit(0) == z);
    if n < 10 {
        assert(three_digits(n) =~= seq!['0', '0'] + decimal(n));
    } else if n < 100 {
        assert(decimal(n / 10) == seq![digit(n / 10)]);
        assert(decimal(n) =~= seq![digit(n / 10), digit(n % 10)]);
        assert(three_digits(n) =~= seq!['0'] + decimal(n));
    } else if n < 1000 {
        assert(n / 10 / 10 == n / 100);
        assert(decimal(n / 10 / 10) == seq![digit(n / 100)]);
        assert(decimal(n / 10) =~= seq![digit(n / 100), digit(n / 10 % 10)]);
        assert(decimal(n) =~= seq![digit(n / 100), digit(n / 10 % 10), digit(n % 10)]);
        assert(three_digits(n) =~= decimal(n));
    }
}

/// The words of a page are those of its text, shared out between running text and small print;
/// recognised words are all running text; where recognition is not set up, or fails, there are no
/// words and a warning.
pub proof fn words_come_from_text_or_recognition(overlay: Vec<OverlayLine>, cal: DocCalibration, e: String)
    ensures
        words_from(PageTextSource::Text(overlay), cal) == (page_layer(overlay@, cal, false), page_layer(overlay@, cal, true), None::<
            Seq<char>,
        >),
        words_from(PageTextSource::Recognised(overlay), cal).0 == flat_words(overlay@),
        words_from(PageTextSource::Recognised(overlay), cal).1.len() == 0,
        words_from(PageTextSource::Recognised(overlay), cal).2 is None,
        words_from(PageTextSource::NotConfigured, cal).0.len() == 0 && words_from(PageTextSource::NotConfigured, cal).1.len() == 0,
        words_from(PageTextSource::NotConfigured, cal).2 is Some,
        words_from(PageTextSource::Failed(e), cal).0.len() == 0 && words_from(PageTextSource::Failed(e), cal).1.len() == 0,
        words_from(PageTextSource::Failed(e), cal).2 == Some("页面 OCR 失败:"@ + e@),
{
}

} // verus!
