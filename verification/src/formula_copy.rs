//! Recognising the formula of a selection: from the request through the worker
//! that handles one request at a time to the message at the end; and the
//! formulas that go into an explanation.
use crate::action_bar::sure_formula;
use crate::copying::{
    joined_lines, last_place, layer_flat, layer_of, pages_present, step_texts, step_words, RenderedPage,
};
use crate::error::{clock_text, made_of, ErrorInfo, ErrorSeverity, ErrorSource};
use crate::lines::{larger, smaller, ColumnFilter};
use crate::page_text::{default_calibration, inked, is_inked, DocCalibration, FlatWord, Layer};
use crate::rects::{copy_key, down, formula_copy_key, pixel_box, pixels_down, pixels_up, selection_bbox_with, selection_rects, up};
use crate::selection::{Selection, SelectionStep};
use crate::session::{slot_value, ActionBarState, ActionBarStatus, CopyRequest, ReaderSession, SingleSlotCache};
use crate::text::{
    blank, is_blank, push_decimal, replace_all, replaced, same_text, trimmed_is_empty_iff_blank, views,
};
use crate::translation_input::{
    a_formula_shows_something, formula_at, formula_spans, formulas_are_those_of_the_spans, gather_run, in_run,
    lemma_run_goes_on, place_holder, translated_steps,
};
use std::collections::HashMap;
use vstd::prelude::*;

verus! {

broadcast use vstd::std_specs::hash::group_hash_axioms;

// ── the request ──

/// The box in pixels round a step.
pub open spec fn step_box(flat: Seq<FlatWord>, gap: int, step: SelectionStep, page_width: u32) -> (i32, i32, i32, i32) {
    let b = pixel_box(
        selection_rects(flat, gap, step.column_left, step.lo as int, step.hi as int),
        page_width as int,
    );
    (b.0 as i32, b.1 as i32, b.2 as i32, b.3 as i32)
}

/// What the formula button does.
#[derive(Debug)]
pub enum FormulaCopy {
    /// The selection is no single formula on a page that is there, or it is
    /// already being recognised.
    Nothing,
    /// The formula was recognised before: this is copied.
    Cached(String),
    /// The formula has to be recognised.
    Recognise(CopyRequest),
}

impl ReaderSession {
    /// The selection is one step over a sure formula, and its words are there.
    pub open spec fn formula_selected(self) -> bool {
        &&& self.selection is Some
        &&& sure_formula(self.selection->0)
        &&& self.selection->0.steps@.len() == 1
        &&& ({
            let step = self.selection->0.steps@[0];
            self.cache@.contains_key(step.page) && step.hi < layer_of(
                self.cache@[step.page],
                self.selection->0.layer,
            ).len()
        })
    }

    /// The box of the selected formula.
    pub open spec fn formula_box(self) -> (i32, i32, i32, i32) {
        let step = self.selection->0.steps@[0];
        let page = self.cache@[step.page];
        step_box(layer_of(page, self.selection->0.layer), self.cal.column_gap_cqw as int, step, page.w_pt)
    }

    /// The name under which the selected formula is kept.
    pub open spec fn formula_key(self) -> Seq<char> {
        copy_key(self.book_id@, self.selection->0.steps@[0].page as nat, self.formula_box())
    }

    /// A request for the formula under `key` is waiting.
    pub open spec fn copy_pending(self, key: Seq<char>) -> bool {
        self.pending_copy is Some && self.pending_copy->0.key@ == key
    }

    /// What the formula button does with the selection.
    pub fn formula_copy_action(&self) -> (r: FormulaCopy)
        ensures
            match r {
                FormulaCopy::Nothing => !self.formula_selected() || (slot_value(self.ocr_cache, self.formula_key())
                    is None && self.copy_pending(self.formula_key())),
                FormulaCopy::Cached(latex) => self.formula_selected() && slot_value(
                    self.ocr_cache,
                    self.formula_key(),
                ) == Some(latex@),
                FormulaCopy::Recognise(req) => {
                    let sel = self.selection->0;
                    &&& self.formula_selected()
                    &&& slot_value(self.ocr_cache, self.formula_key()) is None
                    &&& !self.copy_pending(self.formula_key())
                    &&& req.page == if sel.steps@[0].page > 0 {
                        sel.steps@[0].page - 1
                    } else {
                        0
                    }
                    &&& req.key@ == self.formula_key()
                    &&& req.bbox == self.formula_box()
                    &&& req.fallback@ == joined_lines(
                        step_texts(self.cache@, sel.layer, sel.steps@, self.cal.column_gap_cqw as int),
                    )
                },
            },
    {
        let sel = match &self.selection {
            None => {
                return FormulaCopy::Nothing;
            },
            Some(s) => s,
        };
        if !sel.formula || sel.formula_score < crate::classify::FORMULA_SCORE_THRESHOLD || sel.steps.len() != 1 {
            return FormulaCopy::Nothing;
        }
        let step = sel.steps[0];
        let page = match self.cache.get(&step.page) {
            None => {
                return FormulaCopy::Nothing;
            },
            Some(p) => p,
        };
        let flat = layer_flat(page, sel.layer);
        if step.hi >= flat.len() {
            return FormulaCopy::Nothing;
        }
        let bbox = selection_bbox_with(flat, &step, page.w_pt, self.cal.column_gap_cqw);
        let key = formula_copy_key(self.book_id.as_str(), step.page, bbox);
        match self.ocr_cache.get(key.as_str()) {
            Some(latex) => FormulaCopy::Cached(latex),
            None => {
                let waiting = match &self.pending_copy {
                    Some(p) => same_text(p.key.as_str(), key.as_str()),
                    None => false,
                };
                if waiting {
                    return FormulaCopy::Nothing;
                }
                let text = self.selected_text();
                assert(pages_present(self.cache@, sel.steps@, 1));
                let fallback = match text {
                    Some(t) => t,
                    None => String::new(),
                };
                FormulaCopy::Recognise(
                    CopyRequest {
                        page: if step.page > 0 {
                            (step.page - 1) as usize
                        } else {
                            0
                        },
                        key,
                        bbox,
                        fallback,
                    },
                )
            },
        }
    }

    /// The bar with another status.
    pub open spec fn bar_with(self, status: ActionBarStatus) -> Option<ActionBarState> {
        match self.action_bar {
            Some(bar) => Some(ActionBarState { status, ..bar }),
            None => None,
        }
    }

    fn set_bar_status(&mut self, status: ActionBarStatus)
        ensures
            *final(self) == (ReaderSession { action_bar: old(self).bar_with(status), ..*old(self) }),
    {
        match self.action_bar {
            Some(bar) => {
                self.action_bar = Some(ActionBarState { status, ..bar });
            },
            None => {},
        }
    }

    /// A formula was copied that had been recognised before: the bar says so.
    /// The result tells which bar is to be reset later.
    pub fn cached_formula_copied(&mut self) -> (generation: Option<u64>)
        ensures
            *final(self) == (ReaderSession {
                action_bar: old(self).bar_with(ActionBarStatus::Success),
                ..*old(self)
            }),
            generation == match old(self).action_bar {
                Some(bar) => Some(bar.generation),
                None => None,
            },
    {
        self.set_bar_status(ActionBarStatus::Success);
        match self.action_bar {
            Some(bar) => Some(bar.generation),
            None => None,
        }
    }

    /// Takes a request in, in place of one that still waits. Tells whether a
    /// worker has to be started: not where one is at work.
    pub fn request_formula(&mut self, req: CopyRequest) -> (start_worker: bool)
        ensures
            start_worker == !old(self).copy_busy,
            *final(self) == (ReaderSession {
                pending_copy: Some(req),
                action_bar: old(self).bar_with(ActionBarStatus::Loading),
                copy_busy: true,
                ..*old(self)
            }),
    {
        self.pending_copy = Some(req);
        self.set_bar_status(ActionBarStatus::Loading);
        let start = !self.copy_busy;
        self.copy_busy = true;
        start
    }

    // ── the worker ──

    /// The worker asks for its next request; without one it stops.
    pub fn next_formula(&mut self) -> (req: Option<CopyRequest>)
        ensures
            req == old(self).pending_copy,
            *final(self) == (ReaderSession {
                pending_copy: None,
                copy_busy: old(self).pending_copy is Some,
                ..*old(self)
            }),
    {
        let req = self.pending_copy.take();
        self.copy_busy = req.is_some();
        req
    }

    /// A result came in; it counts only where no newer request waits.
    pub fn formula_superseded(&self) -> (r: bool)
        ensures
            r == self.pending_copy is Some,
    {
        self.pending_copy.is_some()
    }

    /// The formula was recognised: it is kept, the bar says so, and so does the
    /// message in the result. The number tells which bar is to be reset later,
    /// 0 for none. Dropped where a newer request waits.
    pub fn formula_recognised(&mut self, key: String, latex: String) -> (r: Option<(ErrorInfo, u64)>)
        ensures
            old(self).pending_copy is Some ==> r is None && *final(self) == *old(self),
            old(self).pending_copy is None ==> ({
                &&& r is Some
                &&& made_of(
                    (r->0).0,
                    "reader-copy"@,
                    "已复制 LaTeX"@,
                    "公式已识别并复制到剪贴板"@,
                    ErrorSeverity::Info,
                    ErrorSource::General,
                )
                &&& (r->0).1 == match old(self).action_bar {
                    Some(bar) => bar.generation,
                    None => 0,
                }
                &&& *final(self) == (ReaderSession {
                    copy_busy: false,
                    ocr_cache: SingleSlotCache { slot: Some((key, latex)) },
                    action_bar: old(self).bar_with(ActionBarStatus::Success),
                    ..*old(self)
                })
            }),
    {
        if self.pending_copy.is_some() {
            return None;
        }
        self.copy_busy = false;
        self.ocr_cache.put(key, latex);
        self.set_bar_status(ActionBarStatus::Success);
        let generation: u64 = match self.action_bar {
            Some(bar) => bar.generation,
            None => 0,
        };
        Some(
            (
                ErrorInfo::new(
                    "reader-copy",
                    "已复制 LaTeX",
                    "公式已识别并复制到剪贴板",
                    ErrorSeverity::Info,
                    ErrorSource::General,
                ),
                generation,
            ),
        )
    }

    /// The formula was not recognised: the bar says so, and, unless recognition
    /// is not set up at all, a warning. Dropped where a newer request waits.
    pub fn formula_failed(&mut self, not_configured: bool, message: &str) -> (r: Option<Option<ErrorInfo>>)
        ensures
            old(self).pending_copy is Some ==> r is None && *final(self) == *old(self),
            old(self).pending_copy is None ==> ({
                &&& r is Some
                &&& (r->0 is None <==> not_configured)
                &&& r->0 is Some ==> made_of(
                    r->0->0,
                    "reader-copy"@,
                    "OCR 不可用,已复制文本层重建结果"@,
                    message@,
                    ErrorSeverity::Warning,
                    ErrorSource::General,
                )
                &&& *final(self) == (ReaderSession {
                    copy_busy: false,
                    action_bar: old(self).bar_with(ActionBarStatus::Error),
                    ..*old(self)
                })
            }),
    {
        if self.pending_copy.is_some() {
            return None;
        }
        self.copy_busy = false;
        self.set_bar_status(ActionBarStatus::Error);
        if not_configured {
            return Some(None);
        }
        Some(
            Some(
                ErrorInfo::new(
                    "reader-copy",
                    "OCR 不可用,已复制文本层重建结果",
                    message,
                    ErrorSeverity::Warning,
                    ErrorSource::General,
                ),
            ),
        )
    }

    /// The bar at rest again, if it is still the one that succeeded.
    pub open spec fn bar_reset(self, generation: u64) -> ReaderSession {
        if self.action_bar is Some && self.action_bar->0.generation == generation && self.action_bar->0.status
            == ActionBarStatus::Success {
            ReaderSession { action_bar: self.bar_with(ActionBarStatus::Idle), ..self }
        } else {
            self
        }
    }

    /// Some time after a success the bar goes back to rest, if it is still the
    /// bar that succeeded.
    pub fn reset_action_bar(&mut self, generation: u64)
        ensures
            *final(self) == old(self).bar_reset(generation),
    {
        match self.action_bar {
            Some(bar) => {
                if bar.generation == generation && bar.status == ActionBarStatus::Success {
                    self.set_bar_status(ActionBarStatus::Idle);
                }
            },
            None => {},
        }
    }
}

/// The message after copying.
pub fn copy_feedback(ok: bool) -> (r: ErrorInfo)
    ensures
        ok ==> made_of(
            r,
            "reader-copy"@,
            "已复制"@,
            "选中内容已复制到剪贴板"@,
            ErrorSeverity::Info,
            ErrorSource::General,
        ),
        !ok ==> made_of(
            r,
            "reader-copy"@,
            "复制失败"@,
            "无法写入系统剪贴板"@,
            ErrorSeverity::Warning,
            ErrorSource::General,
        ),
        clock_text(r.timestamp@),
{
    if ok {
        ErrorInfo::new(
            "reader-copy",
            "已复制",
            "选中内容已复制到剪贴板",
            ErrorSeverity::Info,
            ErrorSource::General,
        )
    } else {
        ErrorInfo::new(
            "reader-copy",
            "复制失败",
            "无法写入系统剪贴板",
            ErrorSeverity::Warning,
            ErrorSource::General,
        )
    }
}

// ── formulas in an explanation ──

/// A box on a page, in pixels.
pub type Region = (u32, (i32, i32, i32, i32));

/// The outer edges of the words `i..j` that show something.
pub open spec fn words_outer(flat: Seq<FlatWord>, i: int, j: int) -> Option<(int, int, int, int)>
    decreases j - i,
{
    if j <= i {
        None
    } else {
        let before = words_outer(flat, i, j - 1);
        let w = flat[j - 1];
        let right = w.left_cqw + w.width_cqw;
        let bottom = w.top_cqw + w.height_cqw;
        if !inked(w) {
            before
        } else {
            match before {
                None => Some((w.left_cqw as int, w.top_cqw as int, right, bottom)),
                Some(b) => Some(
                    (
                        smaller(b.0, w.left_cqw as int),
                        smaller(b.1, w.top_cqw as int),
                        larger(b.2, right),
                        larger(b.3, bottom),
                    ),
                ),
            }
        }
    }
}

/// The box in pixels round the words `i..j`; none where they show nothing.
pub open spec fn words_box(flat: Seq<FlatWord>, i: int, j: int, page_width: u32) -> Option<(i32, i32, i32, i32)> {
    match words_outer(flat, i, j) {
        None => None,
        Some(o) => Some(
            (
                pixels_down(o.0, page_width as int) as i32,
                pixels_down(o.1, page_width as int) as i32,
                pixels_up(o.2 - o.0, page_width as int) as i32,
                pixels_up(o.3 - o.1, page_width as int) as i32,
            ),
        ),
    }
}

/// The box of a formula on a page.
pub open spec fn span_box(flat: Seq<FlatWord>, page: u32, page_width: u32, span: (int, int)) -> Region {
    (page, words_box(flat, span.0, span.1, page_width)->0)
}

/// The boxes of the formulas among the words `i..=hi` that count for the column.
pub open spec fn region_boxes(
    flat: Seq<FlatWord>,
    gap: int,
    col: Option<i64>,
    page: u32,
    page_width: u32,
    i: int,
    hi: int,
) -> Seq<Region> {
    formula_spans(flat, gap, col, i, hi).map_values(|s: (int, int)| span_box(flat, page, page_width, s))
}

/// The boxes of the formulas in the first `n` steps, pages that are missing
/// left out.
pub open spec fn formula_regions(
    pages: Map<u32, RenderedPage>,
    layer: Layer,
    steps: Seq<SelectionStep>,
    gap: int,
    n: nat,
) -> Seq<Region>
    decreases n,
{
    if n == 0 {
        Seq::empty()
    } else {
        let before = formula_regions(pages, layer, steps, gap, (n - 1) as nat);
        let s = steps[n - 1];
        if !pages.contains_key(s.page) {
            before
        } else {
            let flat = step_words(pages, layer, s);
            before + region_boxes(
                flat,
                gap,
                s.column_left,
                s.page,
                pages[s.page].w_pt,
                s.lo as int,
                last_place(flat, s.hi as int),
            )
        }
    }
}

proof fn lemma_words_outer(flat: Seq<FlatWord>, i: int, j: int)
    ensures
        words_outer(flat, i, j) is Some <==> exists|k: int| i <= k < j && inked(#[trigger] flat[k]),
    decreases j - i,
{
    if i < j {
        lemma_words_outer(flat, i, j - 1);
        if inked(flat[j - 1]) {
        } else if exists|k: int| i <= k < j && inked(#[trigger] flat[k]) {
            let k = choose|k: int| i <= k < j && inked(#[trigger] flat[k]);
            assert(i <= k < j - 1);
        }
    }
}

/// The box in pixels round the words `i..j`; none where they show nothing.
pub fn formula_run_bbox(flat: &[FlatWord], i: usize, j: usize, page_width_pt: u32) -> (r: Option<(i32, i32, i32, i32)>)
    requires
        i <= j <= flat@.len(),
    ensures
        r == words_box(flat@, i as int, j as int, page_width_pt),
{
    let mut found = false;
    let mut left: i128 = 0;
    let mut top: i128 = 0;
    let mut right: i128 = 0;
    let mut bottom: i128 = 0;
    let mut k = i;
    while k < j
        invariant
            i <= k <= j <= flat@.len(),
            match words_outer(flat@, i as int, k as int) {
                Some(o) => found && o == (left as int, top as int, right as int, bottom as int),
                None => !found,
            },
            -0x8000_0000_0000_0000 <= left <= 0x8000_0000_0000_0000,
            -0x8000_0000_0000_0000 <= top <= 0x8000_0000_0000_0000,
            -0x1_0000_0000_0000_0000 <= right <= 0x1_0000_0000_0000_0000,
            -0x1_0000_0000_0000_0000 <= bottom <= 0x1_0000_0000_0000_0000,
        decreases j - k,
    {
        let w = &flat[k];
        if is_inked(w) {
            let x: i128 = w.left_cqw as i128;
            let y: i128 = w.top_cqw as i128;
            let r: i128 = x + (w.width_cqw as i128);
            let b: i128 = y + (w.height_cqw as i128);
            if !found || x < left {
                left = x;
            }
            if !found || y < top {
                top = y;
            }
            if !found || r > right {
                right = r;
            }
            if !found || b > bottom {
                bottom = b;
            }
            found = true;
        }
        k = k + 1;
    }
    if !found {
        return None;
    }
    Some(
        (
            down(left, page_width_pt),
            down(top, page_width_pt),
            up(right - left, page_width_pt),
            up(bottom - top, page_width_pt),
        ),
    )
}

fn step_regions(
    flat: &[FlatWord],
    column_gap_cqw: i64,
    col: Option<i64>,
    page: u32,
    page_width: u32,
    lo: usize,
    hi: usize,
    out: &mut Vec<Region>,
)
    requires
        hi < flat@.len(),
    ensures
        final(out)@ == old(out)@ + region_boxes(
            flat@,
            column_gap_cqw as int,
            col,
            page,
            page_width,
            lo as int,
            hi as int,
        ),
{
    let n = flat.len();
    let ghost gap = column_gap_cqw as int;
    let ghost all = region_boxes(flat@, gap, col, page, page_width, lo as int, hi as int);
    let filter = ColumnFilter::new(flat, column_gap_cqw);
    let mut i = lo;
    assert(out@ + all =~= old(out)@ + all);
    while i <= hi
        invariant
            hi < n == flat@.len(),
            filter.of(flat@, gap),
            out@ + region_boxes(flat@, gap, col, page, page_width, i as int, hi as int) == old(out)@ + all,
        decreases hi + 1 - i,
    {
        if !filter.admits(flat, i, col, Ghost(gap)) || !flat[i].formula {
            i = i + 1;
            continue;
        }
        let (raw, end, _) = gather_run(flat, &filter, col, i, hi, Ghost(gap));
        proof {
            lemma_run_goes_on(flat@, gap, col, i as int, hi as int, flat@[i as int].line);
            assert(in_run(flat@, gap, col, i as int, hi as int));
            trimmed_is_empty_iff_blank(raw@);
        }
        if is_blank(&raw) {
            i = i + 1;
            continue;
        }
        let ghost before = out@;
        let ghost rest = region_boxes(flat@, gap, col, page, page_width, end as int, hi as int);
        proof {
            a_formula_shows_something(flat@, gap, col, i as int, hi as int);
            lemma_words_outer(flat@, i as int, end as int);
        }
        if let Some(b) = formula_run_bbox(flat, i, end, page_width) {
            out.push((page, b));
            proof {
                let here = region_boxes(flat@, gap, col, page, page_width, i as int, hi as int);
                assert(here =~= seq![(page, b)] + rest);
                assert(out@ + rest =~= before + (seq![(page, b)] + rest));
            }
        }
        i = end;
    }
    proof {
        assert(region_boxes(flat@, gap, col, page, page_width, i as int, hi as int) =~= Seq::<Region>::empty());
        assert(out@ + Seq::<Region>::empty() =~= out@);
    }
}

/// The boxes of the formulas in a selection.
pub fn selection_formula_regions_with(sel: &Selection, pages: &HashMap<u32, RenderedPage>, column_gap_cqw: i64) -> (r:
    Vec<Region>)
    ensures
        r@ == formula_regions(pages@, sel.layer, sel.steps@, column_gap_cqw as int, sel.steps@.len()),
{
    let mut out: Vec<Region> = Vec::new();
    let mut k: usize = 0;
    while k < sel.steps.len()
        invariant
            k <= sel.steps@.len(),
            out@ == formula_regions(pages@, sel.layer, sel.steps@, column_gap_cqw as int, k as nat),
        decreases sel.steps@.len() - k,
    {
        let step = sel.steps[k];
        match pages.get(&step.page) {
            Some(p) => {
                let flat = layer_flat(p, sel.layer);
                if flat.len() > 0 {
                    let hi = if step.hi < flat.len() {
                        step.hi
                    } else {
                        flat.len() - 1
                    };
                    step_regions(flat, column_gap_cqw, step.column_left, step.page, p.w_pt, step.lo, hi, &mut out);
                } else {
                    proof {
                        let none = region_boxes(
                            flat@,
                            column_gap_cqw as int,
                            step.column_left,
                            step.page,
                            p.w_pt,
                            step.lo as int,
                            -1,
                        );
                        assert(none =~= Seq::<Region>::empty());
                        assert(out@ + none =~= out@);
                    }
                }
            },
            None => {},
        }
        k = k + 1;
    }
    out
}

/// As `selection_formula_regions_with`, with the usual column gap.
pub fn selection_formula_regions(sel: &Selection, pages: &HashMap<u32, RenderedPage>) -> (r: Vec<Region>)
    ensures
        r@ == formula_regions(
            pages@,
            sel.layer,
            sel.steps@,
            default_calibration().column_gap_cqw as int,
            sel.steps@.len(),
        ),
{
    selection_formula_regions_with(sel, pages, DocCalibration::default().column_gap_cqw)
}

/// A formula of a selection: the number of its step, the place of its first word
/// and the place behind its last one.
pub struct FormulaSpan {
    pub step: int,
    pub from: int,
    pub to: int,
}

/// The formulas of the first `n` steps.
pub open spec fn selection_spans(
    pages: Map<u32, RenderedPage>,
    layer: Layer,
    steps: Seq<SelectionStep>,
    gap: int,
    n: nat,
) -> Seq<FormulaSpan>
    decreases n,
{
    if n == 0 {
        Seq::empty()
    } else {
        let s = steps[n - 1];
        let flat = step_words(pages, layer, s);
        selection_spans(pages, layer, steps, gap, (n - 1) as nat) + formula_spans(
            flat,
            gap,
            s.column_left,
            s.lo as int,
            last_place(flat, s.hi as int),
        ).map_values(|p: (int, int)| FormulaSpan { step: n - 1, from: p.0, to: p.1 })
    }
}

/// The text of a formula of a selection.
pub open spec fn span_formula(
    pages: Map<u32, RenderedPage>,
    layer: Layer,
    steps: Seq<SelectionStep>,
    gap: int,
    p: FormulaSpan,
) -> Seq<char> {
    let s = steps[p.step];
    let flat = step_words(pages, layer, s);
    formula_at(flat, gap, s.column_left, p.from, last_place(flat, s.hi as int))
}

/// The box of a formula of a selection, on the page of its step.
pub open spec fn span_region(
    pages: Map<u32, RenderedPage>,
    layer: Layer,
    steps: Seq<SelectionStep>,
    p: FormulaSpan,
) -> Region {
    let s = steps[p.step];
    span_box(step_words(pages, layer, s), s.page, pages[s.page].w_pt, (p.from, p.to))
}

/// Box `k` lies round the words of formula `k`, on the page of the step that
/// holds them.
pub open spec fn boxes_formula(
    pages: Map<u32, RenderedPage>,
    layer: Layer,
    steps: Seq<SelectionStep>,
    gap: int,
    n: nat,
    k: int,
) -> bool {
    let p = selection_spans(pages, layer, steps, gap, n)[k];
    &&& 0 <= p.step < n
    &&& translated_steps(pages, layer, steps, gap, n).1[k] == span_formula(pages, layer, steps, gap, p)
    &&& formula_regions(pages, layer, steps, gap, n)[k] == span_region(pages, layer, steps, p)
}

/// The boxes of a selection's formulas are in step with the formulas in its text
/// for translation: there are as many, and box `k` lies round the words of
/// formula `k`, on the page of the step that holds them.
pub proof fn regions_box_the_formulas(
    pages: Map<u32, RenderedPage>,
    layer: Layer,
    steps: Seq<SelectionStep>,
    gap: int,
    n: nat,
)
    requires
        n <= steps.len(),
        pages_present(pages, steps, n as int),
    ensures
        ({
            let spans = selection_spans(pages, layer, steps, gap, n);
            let formulas = translated_steps(pages, layer, steps, gap, n).1;
            let regions = formula_regions(pages, layer, steps, gap, n);
            &&& regions.len() == spans.len()
            &&& formulas.len() == spans.len()
            &&& forall|k: int| 0 <= k < spans.len() ==> #[trigger] boxes_formula(pages, layer, steps, gap, n, k)
        }),
    decreases n,
{
    if n > 0 {
        let m = (n - 1) as nat;
        regions_box_the_formulas(pages, layer, steps, gap, m);
        let s = steps[n - 1];
        assert(pages.contains_key(steps[n - 1].page));
        let flat = step_words(pages, layer, s);
        let hi = last_place(flat, s.hi as int);
        let spans0 = selection_spans(pages, layer, steps, gap, m);
        let formulas0 = translated_steps(pages, layer, steps, gap, m).1;
        let regions0 = formula_regions(pages, layer, steps, gap, m);
        formulas_are_those_of_the_spans(flat, gap, s.column_left, s.lo as int, hi, formulas0.len());
        let own = formula_spans(flat, gap, s.column_left, s.lo as int, hi);
        let spans = selection_spans(pages, layer, steps, gap, n);
        let formulas = translated_steps(pages, layer, steps, gap, n).1;
        let regions = formula_regions(pages, layer, steps, gap, n);
        assert(spans.len() == spans0.len() + own.len());
        assert(formulas.len() == formulas0.len() + own.len());
        assert(regions.len() == regions0.len() + own.len());
        assert forall|k: int| 0 <= k < spans.len() implies #[trigger] boxes_formula(pages, layer, steps, gap, n, k) by {
            if k < spans0.len() {
                assert(boxes_formula(pages, layer, steps, gap, m, k));
                assert(spans[k] == spans0[k] && formulas[k] == formulas0[k] && regions[k] == regions0[k]);
            } else {
                let j = k - spans0.len();
                assert(spans[k] == FormulaSpan { step: n - 1, from: own[j].0, to: own[j].1 });
                assert(formulas[k] == formula_at(flat, gap, s.column_left, own[j].0, hi));
                assert(regions[k] == span_box(flat, s.page, pages[s.page].w_pt, own[j]));
            }
        }
    }
}

/// The text with the place holders of the first `n` formulas replaced by what
/// was recognised of them; formulas of which nothing was recognised keep theirs.
pub open spec fn with_formulas(text: Seq<char>, latex: Seq<Seq<char>>, n: nat) -> Seq<char>
    decreases n,
{
    if n == 0 {
        text
    } else {
        let before = with_formulas(text, latex, (n - 1) as nat);
        if latex[n - 1].len() > 0 {
            replaced(before, place_holder(n), latex[n - 1])
        } else {
            before
        }
    }
}

/// The text with the place holders replaced by the recognised formulas.
pub fn insert_formulas(text: &str, latex: &Vec<String>) -> (out: String)
    ensures
        out@ == with_formulas(text@, views(latex@), latex@.len()),
{
    let mut out = text.to_owned();
    let mut i: usize = 0;
    while i < latex.len()
        invariant
            i <= latex@.len(),
            out@ == with_formulas(text@, views(latex@), i as nat),
        decreases latex@.len() - i,
    {
        assert(views(latex@)[i as int] == latex@[i as int]@);
        if !latex[i].as_str().is_empty() {
            let mut mark = String::new();
            mark.append("[公式");
            push_decimal(&mut mark, (i as u64) + 1);
            mark.push(']');
            assert(mark@ =~= place_holder((i + 1) as nat));
            out = replace_all(out.as_str(), mark.as_str(), latex[i].as_str());
        }
        i = i + 1;
    }
    out
}

// ── explaining ──

/// What the explain button asks about.
#[derive(Debug)]
pub struct ExplainRequest {
    /// The text, with place holders for its formulas.
    pub input: String,
    /// The boxes of the formulas.
    pub regions: Vec<Region>,
    /// The page on which the selection begins.
    pub page: u32,
}

/// A formula that has to be recognised: its number, the name under which it is
/// kept, and its box.
#[derive(Debug)]
pub struct MissingFormula {
    pub number: usize,
    pub key: String,
    pub region: Region,
}

/// The name under which the formula in a box is kept.
pub open spec fn region_key(book_id: Seq<char>, r: Region) -> Seq<char> {
    copy_key(book_id, r.0 as nat, r.1)
}

/// What is known of the formulas: nothing of those that are not kept.
pub open spec fn known_formulas(c: SingleSlotCache, book_id: Seq<char>, regions: Seq<Region>) -> Seq<Seq<char>> {
    regions.map_values(
        |r: Region|
            match slot_value(c, region_key(book_id, r)) {
                Some(v) => v,
                None => Seq::empty(),
            },
    )
}

/// The numbers of the formulas among the first `n` that are not kept.
pub open spec fn unknown_formulas(c: SingleSlotCache, book_id: Seq<char>, regions: Seq<Region>, n: nat) -> Seq<int>
    decreases n,
{
    if n == 0 {
        Seq::empty()
    } else if slot_value(c, region_key(book_id, regions[n - 1])) is None {
        unknown_formulas(c, book_id, regions, (n - 1) as nat).push(n - 1)
    } else {
        unknown_formulas(c, book_id, regions, (n - 1) as nat)
    }
}

/// The missing formulas are those with these numbers.
pub open spec fn names_missing(
    misses: Seq<MissingFormula>,
    book_id: Seq<char>,
    regions: Seq<Region>,
    numbers: Seq<int>,
) -> bool {
    misses.len() == numbers.len() && forall|k: int|
        0 <= k < misses.len() ==> (#[trigger] misses[k]).number == numbers[k] && misses[k].region == regions[numbers[k]]
            && misses[k].key@ == region_key(book_id, regions[numbers[k]])
}

impl ReaderSession {
    /// What the explain button asks about; nothing where the bar does not offer
    /// an explanation or there is nothing to explain.
    pub fn explain_request(&self) -> (r: Option<ExplainRequest>)
        ensures
            r is Some <==> self.translatable() && self.action_bar is Some && self.action_bar->0.explain_enabled,
            r is Some ==> {
                let sel = self.selection->0;
                &&& r->0.input@ == self.translation_text()
                &&& r->0.regions@ == formula_regions(
                    self.cache@,
                    sel.layer,
                    sel.steps@,
                    self.cal.column_gap_cqw as int,
                    sel.steps@.len(),
                )
                &&& sel.steps@.len() > 0
                &&& r->0.page == sel.steps@[0].page
            },
    {
        match &self.action_bar {
            None => {
                return None;
            },
            Some(bar) => {
                if !bar.explain_enabled {
                    return None;
                }
            },
        }
        let input = match self.translation_source() {
            None => {
                return None;
            },
            Some(t) => t.0,
        };
        match &self.selection {
            None => None,
            Some(sel) => {
                proof {
                    if sel.steps@.len() == 0 {
                        assert(blank(self.translation_text()));
                    }
                }
                Some(
                    ExplainRequest {
                        input,
                        regions: selection_formula_regions_with(sel, &self.cache, self.cal.column_gap_cqw),
                        page: sel.steps[0].page,
                    },
                )
            },
        }
    }

    /// What is known of the formulas in some boxes, and which of them have to be
    /// recognised.
    pub fn formulas_known(&self, regions: &Vec<Region>) -> (r: (Vec<String>, Vec<MissingFormula>))
        ensures
            views(r.0@) == known_formulas(self.ocr_cache, self.book_id@, regions@),
            names_missing(
                r.1@,
                self.book_id@,
                regions@,
                unknown_formulas(self.ocr_cache, self.book_id@, regions@, regions@.len()),
            ),
    {
        let mut latex: Vec<String> = Vec::new();
        let mut misses: Vec<MissingFormula> = Vec::new();
        let ghost known = known_formulas(self.ocr_cache, self.book_id@, regions@);
        let mut i: usize = 0;
        assert(views(latex@) =~= known.take(0));
        while i < regions.len()
            invariant
                i <= regions@.len(),
                known == known_formulas(self.ocr_cache, self.book_id@, regions@),
                views(latex@) == known.take(i as int),
                names_missing(
                    misses@,
                    self.book_id@,
                    regions@,
                    unknown_formulas(self.ocr_cache, self.book_id@, regions@, i as nat),
                ),
            decreases regions@.len() - i,
        {
            let region = regions[i];
            let key = formula_copy_key(self.book_id.as_str(), region.0, region.1);
            let ghost before = latex@;
            match self.ocr_cache.get(key.as_str()) {
                Some(v) => {
                    latex.push(v);
                },
                None => {
                    latex.push(String::new());
                    misses.push(MissingFormula { number: i, key, region });
                },
            }
            assert(views(latex@) =~= views(before).push(known[i as int]));
            assert(known.take(i + 1) =~= known.take(i as int).push(known[i as int]));
            i = i + 1;
        }
        assert(known.take(i as int) =~= known);
        (latex, misses)
    }

    /// A formula was recognised for an explanation: it is kept.
    pub fn keep_formula(&mut self, key: String, latex: String)
        ensures
            *final(self) == (ReaderSession { ocr_cache: SingleSlotCache { slot: Some((key, latex)) }, ..*old(self) }),
    {
        self.ocr_cache.put(key, latex);
    }
}

/// What succeeded in an earlier bar resets no later one, and neither does it one
/// in which something has begun since.
pub proof fn an_old_success_resets_nothing(session: ReaderSession, generation: u64)
    requires
        match session.action_bar {
            Some(bar) => bar.generation != generation || bar.status != ActionBarStatus::Success,
            None => true,
        },
    ensures
        session.bar_reset(generation) == session,
{
}

// ── what a region holds ──

proof fn lemma_outer_holds_word(flat: Seq<FlatWord>, i: int, j: int, k: int)
    requires
        i <= k < j,
        inked(flat[k]),
    ensures
        match words_outer(flat, i, j) {
            Some(o) => o.0 <= flat[k].left_cqw && o.1 <= flat[k].top_cqw && flat[k].left_cqw + flat[k].width_cqw <= o.2
                && flat[k].top_cqw + flat[k].height_cqw <= o.3,
            None => false,
        },
    decreases j - i,
{
    if k < j - 1 {
        lemma_outer_holds_word(flat, i, j - 1, k);
    }
}

/// The box that is cut out for a formula holds every word of it that shows something: at four
/// pixels to the point it starts no later than the word, and is no smaller, as far as pixels
/// are counted; and there is a box exactly when there is such a word.
pub proof fn a_formula_box_holds_its_words(flat: Seq<FlatWord>, i: int, j: int, k: int, page_width: u32)
    requires
        i <= k < j,
        inked(flat[k]),
    ensures
        words_box(flat, i, j, page_width) is Some,
        ({
            let b = words_box(flat, i, j, page_width)->0;
            let w = flat[k];
            &&& b.0 == 0 || b.0 == i32::MAX || b.0 * 25_000_000_000 <= w.left_cqw * page_width
            &&& b.1 == 0 || b.1 == i32::MAX || b.1 * 25_000_000_000 <= w.top_cqw * page_width
            &&& b.2 == i32::MAX || b.2 * 25_000_000_000 >= w.width_cqw * page_width
            &&& b.3 == i32::MAX || b.3 * 25_000_000_000 >= w.height_cqw * page_width
            &&& b.0 == i32::MAX || b.2 == i32::MAX || (b.0 + 1 + b.2) * 25_000_000_000 >= (w.left_cqw + w.width_cqw) * page_width
            &&& b.1 == i32::MAX || b.3 == i32::MAX || (b.1 + 1 + b.3) * 25_000_000_000 >= (w.top_cqw + w.height_cqw) * page_width
        }),
{
    lemma_outer_holds_word(flat, i, j, k);
    let o = words_outer(flat, i, j)->0;
    let w = flat[k];
    let p = page_width as int;
    let right = w.left_cqw + w.width_cqw;
    let bottom = w.top_cqw + w.height_cqw;
    crate::rects::lemma_times(o.0, w.left_cqw as int, p);
    crate::rects::lemma_times(o.1, w.top_cqw as int, p);
    crate::rects::lemma_times(w.width_cqw as int, o.2 - o.0, p);
    crate::rects::lemma_times(w.height_cqw as int, o.3 - o.1, p);
    crate::rects::lemma_times(right, o.2, p);
    crate::rects::lemma_times(bottom, o.3, p);
    assert((o.2 - o.0) * p == o.2 * p - o.0 * p) by (nonlinear_arith);
    assert((o.3 - o.1) * p == o.3 * p - o.1 * p) by (nonlinear_arith);
}

/// The `n`th formula is put where its number stands, and the numbers of formulas that are not
/// known stay.
pub proof fn formulas_are_put_where_their_numbers_stand(text: Seq<char>, latex: Seq<Seq<char>>, x: Seq<char>)
    ensures
        with_formulas(text, Seq::empty(), 0) == text,
        x.len() == 0 ==> with_formulas(text, latex.push(x), latex.len() + 1) == with_formulas(text, latex, latex.len()),
        x.len() > 0 ==> with_formulas(text, latex.push(x), latex.len() + 1) == replaced(
            with_formulas(text, latex, latex.len()),
            "[公式"@ + crate::text::decimal(latex.len() + 1) + seq![']'],
            x,
        ),
{
    lemma_formulas_prefix(text, latex, x, latex.len());
    assert(latex.push(x)[latex.len() as int] == x);
}

proof fn lemma_formulas_prefix(text: Seq<char>, latex: Seq<Seq<char>>, x: Seq<char>, n: nat)
    requires
        n <= latex.len(),
    ensures
        with_formulas(text, latex.push(x), n) == with_formulas(text, latex, n),
    decreases n,
{
    if n > 0 {
        lemma_formulas_prefix(text, latex, x, (n - 1) as nat);
        assert(latex.push(x)[n - 1] == latex[n - 1]);
    }
}

} // verus!
