//! What is rendered next: the page in view, then its neighbours; results that
//! come too late are dropped.
use crate::copying::RenderedPage;
use crate::error::{made_of, ErrorInfo, ErrorSeverity, ErrorSource};
use crate::page_cache::{distance, evict_cache_pages, evicted_pages, MAX_CACHE_PAGES};
use crate::page_geometry::{current_page_from_prefix, page_in_view, page_width, zoomed_width, PAGE_GAP};
use crate::page_text::DocCalibration;
use crate::session::{ReaderSession, SingleSlotCache};
use std::collections::HashMap;
use vstd::prelude::*;

verus! {

broadcast use vstd::std_specs::hash::group_hash_axioms;

/// How many pages before and behind the page in view are rendered ahead.
pub const PREFETCH_RADIUS: u32 = 1;

/// How long after a jump scrolling does not change the page, in milliseconds.
pub const JUMP_LOCK_MS: u64 = 800;

/// What a worker does about the neighbour of a page.
#[derive(Debug, Clone, Copy, PartialEq, Eq, Structural)]
pub enum PrefetchStep {
    /// There is no such page, or it is there already; look at the next neighbour.
    Skip,
    /// Render this page.
    Render(u32),
    /// Another page is wanted; look at no further neighbour.
    Stop,
}

/// How long a worker waits at a time for the view to rest, in milliseconds.
pub const SETTLE_SLICE_MS: u64 = 30;

/// How many times it has to wait.
pub const SETTLE_SLICES: u64 = 4;

/// Whether the view rests on a page.
#[derive(Debug, Clone, Copy, PartialEq, Eq, Structural)]
pub enum Settle {
    /// It has not rested long enough.
    Wait,
    /// It has.
    Settled,
    /// Another page is wanted; the wait begins anew.
    Moved,
}

/// What became of a rendered page.
#[derive(Debug)]
pub enum Acceptance {
    /// It came too late and is of no use.
    Dropped,
    /// It is kept; the message, if any, is to be shown.
    Kept(Option<ErrorInfo>),
}

/// What scrolling changes.
#[derive(Debug, Clone, Copy, PartialEq, Eq, Structural)]
pub struct Scrolled {
    /// The width of the view that was seen last.
    pub last_width: i32,
    /// The page that is in view from now on, if it is another one.
    pub new_page: Option<u32>,
}

impl ReaderSession {
    /// The page sums fit the book: one for the start and one for each page.
    pub open spec fn measured(self) -> bool {
        self.page_ratio_prefix@.len() == self.page_count + 1
    }

    /// Page `page` is still wanted as it was when the epoch was `epoch`.
    pub open spec fn current_work(self, page: u32, epoch: u64) -> bool {
        self.render_target == Some(page) && self.render_epoch == epoch
    }

    /// A page is near the page that is wanted now.
    pub open spec fn near_target(self, page: u32) -> bool {
        self.render_target is Some && distance(page, self.render_target->0) <= PREFETCH_RADIUS
    }

    /// Scrolling to `page`: it is rendered next, and what is under way for
    /// another page becomes late. The result is the page that is shown as
    /// loading from now on.
    pub fn schedule_render(&mut self, page: u32, page_loading: Option<u32>) -> (r: Option<u32>)
        requires
            old(self).render_epoch < u64::MAX,
        ensures
            old(self).render_target == Some(page) ==> *final(self) == *old(self) && r == page_loading,
            old(self).render_target != Some(page) ==> *final(self) == (ReaderSession {
                render_target: Some(page),
                render_epoch: (old(self).render_epoch + 1) as u64,
                ..*old(self)
            }) && r == if page_loading == Some(page) {
                page_loading
            } else {
                None
            },
    {
        let same = match self.render_target {
            Some(t) => t == page,
            None => false,
        };
        if same {
            return page_loading;
        }
        self.render_target = Some(page);
        self.render_epoch = self.render_epoch + 1;
        match page_loading {
            Some(p) => {
                if p == page {
                    Some(p)
                } else {
                    None
                }
            },
            None => None,
        }
    }

    /// The page that a jump to `page` leads to: no further than the last page.
    pub open spec fn jump_target(self, page: u32) -> u32 {
        if page <= self.page_count {
            page
        } else {
            self.page_count
        }
    }

    /// The page whose place is scrolled to, from the first to the last.
    pub open spec fn jump_place(self, page: u32) -> int {
        let t = self.jump_target(page);
        if t >= 1 {
            t as int
        } else {
            1
        }
    }

    /// A jump to `page` at time `now`: it is rendered next, and for a while
    /// scrolling does not change the page. The result is the target; the page
    /// that is shown as loading; and where to scroll, as the sum of the ratios
    /// before it and the gaps, in thousandths of a pixel.
    pub fn request_jump(&mut self, page: u32, now: u64) -> (r: (u32, Option<u32>, i64, u64))
        requires
            old(self).measured(),
            old(self).render_epoch < u64::MAX,
            now <= u64::MAX - JUMP_LOCK_MS,
        ensures
            *final(self) == (ReaderSession {
                render_target: Some(old(self).jump_target(page)),
                render_epoch: (old(self).render_epoch + 1) as u64,
                jump_lock_until: (now + JUMP_LOCK_MS) as u64,
                ..*old(self)
            }),
            r.0 == old(self).jump_target(page),
            r.1 == if old(self).cache@.contains_key(r.0) {
                None
            } else {
                Some(r.0)
            },
            r.2 == old(self).page_ratio_prefix@[old(self).jump_place(page) - 1],
            r.3 == PAGE_GAP * (old(self).jump_place(page) - 1),
    {
        let target: u32 = if page <= self.page_count {
            page
        } else {
            self.page_count
        };
        let loading = if self.cache.contains_key(&target) {
            None
        } else {
            Some(target)
        };
        let place: u32 = if target >= 1 {
            target
        } else {
            1
        };
        let ratio = self.page_ratio_prefix[(place - 1) as usize];
        proof {
            let k = (place - 1) as int;
            assert(0 <= PAGE_GAP * k <= 28_000 * 0x1_0000_0000) by (nonlinear_arith)
                requires
                    0 <= k <= 0x1_0000_0000,
                    PAGE_GAP == 28_000,
            ;
        }
        let gaps: u64 = (PAGE_GAP as u64) * ((place - 1) as u64);
        self.render_target = Some(target);
        self.render_epoch = self.render_epoch + 1;
        self.jump_lock_until = now + JUMP_LOCK_MS;
        (target, loading, ratio, gaps)
    }

    /// The view was scrolled. A change of its width is only noted, and for a
    /// while after a jump the page stays; else the page in the middle of the
    /// view becomes the current one. The width and the height of the view are in
    /// whole pixels.
    pub fn scrolled(
        &self,
        current: u32,
        last_width: i32,
        scroll_top: i64,
        client_width: i32,
        client_height: i32,
        zoom: u32,
        now: u64,
    ) -> (r: Scrolled)
        requires
            self.page_ratio_prefix@.len() <= u32::MAX,
        ensures
            r.last_width == client_width,
            ({
                let page_w = zoomed_width(client_width as int, zoom as int, 1) as i64;
                let height = (client_height * 1_000) as i64;
                let page = page_in_view(self.page_ratio_prefix@, page_w, PAGE_GAP, scroll_top, height);
                r.new_page == if last_width != client_width || now < self.jump_lock_until || page == current {
                    None
                } else {
                    Some(page as u32)
                }
            }),
    {
        if last_width != client_width || now < self.jump_lock_until {
            return Scrolled { last_width: client_width, new_page: None };
        }
        let page_w = page_width(client_width, zoom, 1);
        let page = current_page_from_prefix(
            self.page_ratio_prefix.as_slice(),
            page_w,
            PAGE_GAP,
            scroll_top,
            (client_height as i64) * 1_000,
        );
        Scrolled {
            last_width: client_width,
            new_page: if page == current {
                None
            } else {
                Some(page)
            },
        }
    }

    /// Whether the work on `page` that began at `epoch` is still wanted.
    pub fn still_wanted(&self, page: u32, epoch: u64) -> (r: bool)
        ensures
            r == self.current_work(page, epoch),
    {
        match self.render_target {
            Some(t) => t == page && self.render_epoch == epoch,
            None => false,
        }
    }

    /// Whether the view rests on `page` after so many waits since `epoch`: it rests
    /// once all of them are over and no other page was wanted meanwhile.
    pub fn settle_step(&self, page: u32, epoch: u64, slices: u64) -> (r: Settle)
        ensures
            r == if !self.current_work(page, epoch) {
                Settle::Moved
            } else if slices >= SETTLE_SLICES {
                Settle::Settled
            } else {
                Settle::Wait
            },
    {
        if !self.still_wanted(page, epoch) {
            Settle::Moved
        } else if slices >= SETTLE_SLICES {
            Settle::Settled
        } else {
            Settle::Wait
        }
    }

    /// Whether a worker that has finished with `page` at `epoch` has new work.
    pub fn has_new_work(&self, page: u32, epoch: u64) -> (r: bool)
        ensures
            r == (self.render_target is Some && !self.current_work(page, epoch)),
    {
        match self.render_target {
            Some(t) => t != page || self.render_epoch != epoch,
            None => false,
        }
    }

    /// The neighbour that is looked at: the page behind, or before.
    pub open spec fn neighbour(page: u32, back: bool) -> int {
        if back {
            page - 1
        } else {
            page + 1
        }
    }

    /// Whether the neighbour of `page` is to be rendered ahead: it exists, it is
    /// not there yet, and the work on `page` is still wanted.
    pub fn prefetch_step(&self, page: u32, epoch: u64, back: bool) -> (r: PrefetchStep)
        ensures
            ({
                let p = Self::neighbour(page, back);
                r == if !self.current_work(page, epoch) {
                    PrefetchStep::Stop
                } else if p < 1 || p > self.page_count || self.cache@.contains_key(p as u32) {
                    PrefetchStep::Skip
                } else {
                    PrefetchStep::Render(p as u32)
                }
            }),
    {
        let p: i64 = if back {
            (page as i64) - 1
        } else {
            (page as i64) + 1
        };
        if !self.still_wanted(page, epoch) {
            return PrefetchStep::Stop;
        }
        if p < 1 || p > self.page_count as i64 {
            return PrefetchStep::Skip;
        }
        let q: u32 = p as u32;
        if self.cache.contains_key(&q) {
            return PrefetchStep::Skip;
        }
        PrefetchStep::Render(q)
    }

    /// The cache with `page` added and the pages that are too many removed.
    pub open spec fn cache_with(self, page: u32, rendered: RenderedPage) -> Map<u32, RenderedPage> {
        let all = self.cache@.insert(page, rendered);
        let current = match self.render_target {
            Some(t) => t,
            None => page,
        };
        all.remove_keys(evicted_pages(all.dom(), current, self.selection, MAX_CACHE_PAGES as nat))
    }

    /// The result for page `page` is of use: the work on `claimed` that began at
    /// `epoch` is still wanted, or the page is near the one that is wanted now.
    pub open spec fn useful(self, page: u32, claimed: u32, epoch: u64) -> bool {
        self.current_work(claimed, epoch) || self.near_target(page)
    }

    /// Whether the result for page `page` is of use.
    pub fn is_useful(&self, page: u32, claimed: u32, epoch: u64) -> (r: bool)
        ensures
            r == self.useful(page, claimed, epoch),
    {
        let near = match self.render_target {
            Some(t) => {
                let d: u32 = if page >= t {
                    page - t
                } else {
                    t - page
                };
                d <= PREFETCH_RADIUS
            },
            None => false,
        };
        self.still_wanted(claimed, epoch) || near
    }

    /// Page `page` was rendered for the work on `claimed` that began at `epoch`.
    /// It is kept if that work is still wanted or the page is near the one that
    /// is wanted now; the first page whose text is missing brings a warning.
    pub fn accept_page(&mut self, page: u32, claimed: u32, epoch: u64, rendered: RenderedPage) -> (r: Acceptance)
        ensures
            ({
                let useful = old(self).useful(page, claimed, epoch);
                let warn = rendered.warning is Some && !old(self).ocr_warning_shown;
                &&& !useful ==> r is Dropped && *final(self) == *old(self)
                &&& useful ==> r is Kept
                &&& useful ==> final(self).cache@ == old(self).cache_with(page, rendered)
                &&& useful ==> *final(self) == (ReaderSession {
                    cache: final(self).cache,
                    ocr_warning_shown: old(self).ocr_warning_shown || rendered.warning is Some,
                    ..*old(self)
                })
                &&& useful ==> (r->Kept_0 is Some <==> warn)
                &&& useful && warn ==> made_of(
                    r->Kept_0->0,
                    "reader-ocr-unavailable"@,
                    "页面 OCR 不可用"@,
                    rendered.warning->0@,
                    ErrorSeverity::Warning,
                    ErrorSource::General,
                )
            }),
    {
        if !self.is_useful(page, claimed, epoch) {
            return Acceptance::Dropped;
        }
        let mut message: Option<ErrorInfo> = None;
        match &rendered.warning {
            Some(w) => {
                if !self.ocr_warning_shown {
                    message = Some(
                        ErrorInfo::new(
                            "reader-ocr-unavailable",
                            "页面 OCR 不可用",
                            w.as_str(),
                            ErrorSeverity::Warning,
                            ErrorSource::General,
                        ),
                    );
                    self.ocr_warning_shown = true;
                }
            },
            None => {},
        }
        self.cache.insert(page, rendered);
        let current: u32 = match self.render_target {
            Some(t) => t,
            None => page,
        };
        evict_cache_pages(&mut self.cache, current, self.selection.as_ref(), MAX_CACHE_PAGES);
        Acceptance::Kept(message)
    }

    /// Page `page` is recognised anew: it is forgotten and rendered next.
    pub fn render_again(&mut self, page: u32)
        requires
            old(self).render_epoch < u64::MAX,
        ensures
            final(self).cache@ == old(self).cache@.remove(page),
            *final(self) == (ReaderSession {
                cache: final(self).cache,
                render_epoch: (old(self).render_epoch + 1) as u64,
                render_target: Some(page),
                ..*old(self)
            }),
    {
        self.cache.remove(&page);
        self.render_epoch = self.render_epoch + 1;
        self.render_target = Some(page);
    }
}

/// What is shown as loading once page `page` is there.
pub fn loading_done(page_loading: Option<u32>, page: u32) -> (r: Option<u32>)
    ensures
        r == if page_loading == Some(page) {
            None
        } else {
            page_loading
        },
{
    match page_loading {
        Some(p) => {
            if p == page {
                None
            } else {
                Some(p)
            }
        },
        None => None,
    }
}

/// The message that a page could not be rendered.
pub fn render_failed(message: &str) -> (r: ErrorInfo)
    ensures
        made_of(
            r,
            "reader-render-failed"@,
            "渲染页面失败"@,
            message@,
            ErrorSeverity::Warning,
            ErrorSource::General,
        ),
{
    ErrorInfo::new("reader-render-failed", "渲染页面失败", message, ErrorSeverity::Warning, ErrorSource::General)
}

/// A warning of the reader.
pub open spec fn reader_warning(e: ErrorInfo, code: Seq<char>, title: Seq<char>, message: Seq<char>) -> bool {
    made_of(e, code, title, message, ErrorSeverity::Warning, ErrorSource::General)
}

fn warning(code: &str, title: &str, message: &str) -> (r: ErrorInfo)
    ensures
        reader_warning(r, code@, title@, message@),
{
    ErrorInfo::new(code, title, message, ErrorSeverity::Warning, ErrorSource::General)
}

/// The message that a book could not be opened.
pub fn open_failed(message: &str) -> (r: ErrorInfo)
    ensures
        reader_warning(r, "reader-open-failed"@, "打开 PDF 失败"@, message@),
{
    warning("reader-open-failed", "打开 PDF 失败", message)
}

/// The message that the text of a book could not be read.
pub fn parse_failed(message: &str) -> (r: ErrorInfo)
    ensures
        reader_warning(r, "reader-parse-failed"@, "提取文本失败"@, message@),
{
    warning("reader-parse-failed", "提取文本失败", message)
}

impl ReaderSession {
    /// Nothing is selected, dragged, copied or shown over the pages.
    pub open spec fn at_start(self) -> bool {
        &&& self.selection is None
        &&& self.drag_anchor is None
        &&& !self.dragging
        &&& !self.shift_extending
        &&& self.ocr_cache.slot is None
        &&& self.pending_copy is None
        &&& !self.copy_busy
        &&& self.action_bar is None
        &&& self.action_bar_gen == 0
        &&& self.translation is None
        &&& self.translation_gen == 0
    }

    /// A book that was opened at page `start`, which has been rendered. A warning
    /// about its text is to be shown.
    pub fn open(
        book_id: String,
        book_name: String,
        page_count: u32,
        cal: DocCalibration,
        page_ratio_prefix: Vec<i64>,
        start: u32,
        first: RenderedPage,
        now: u64,
    ) -> (r: (ReaderSession, Option<ErrorInfo>))
        ensures
            r.0.at_start(),
            r.0.book_id == book_id,
            r.0.book_name == book_name,
            r.0.page_count == page_count,
            r.0.cal == cal,
            r.0.page_ratio_prefix == page_ratio_prefix,
            r.0.cache@ == Map::<u32, RenderedPage>::empty().insert(start, first),
            r.0.render_target == Some(start),
            r.0.render_epoch == 0,
            r.0.jump_lock_until == now,
            r.0.ocr_warning_shown == (first.warning is Some),
            r.1 is Some <==> first.warning is Some,
            r.1 is Some ==> reader_warning(
                r.1->0,
                "reader-ocr-unavailable"@,
                "页面 OCR 不可用"@,
                first.warning->0@,
            ),
    {
        let message: Option<ErrorInfo> = match &first.warning {
            Some(w) => Some(warning("reader-ocr-unavailable", "页面 OCR 不可用", w.as_str())),
            None => None,
        };
        let ocr_warning_shown = message.is_some();
        let mut cache: HashMap<u32, RenderedPage> = HashMap::new();
        cache.insert(start, first);
        (
            ReaderSession {
                page_count,
                cal,
                cache,
                page_ratio_prefix,
                render_target: Some(start),
                render_epoch: 0,
                jump_lock_until: now,
                book_id,
                book_name,
                selection: None,
                drag_anchor: None,
                dragging: false,
                shift_extending: false,
                ocr_cache: SingleSlotCache::new(),
                pending_copy: None,
                copy_busy: false,
                action_bar: None,
                action_bar_gen: 0,
                translation: None,
                translation_gen: 0,
                ocr_warning_shown,
            },
            message,
        )
    }

    /// The text of page `page` was recognised anew on request; `outcome` tells
    /// whether recognition is set up, or why it failed. The result is the page
    /// that is shown as loading from now on, and a message.
    pub fn page_recognised(&mut self, page: u32, outcome: Result<bool, String>) -> (r: (Option<u32>, Option<ErrorInfo>))
        requires
            old(self).render_epoch < u64::MAX,
        ensures
            match outcome {
                Ok(configured) => {
                    &&& r.0 == Some(page)
                    &&& r.1 is None <==> configured
                    &&& r.1 is Some ==> reader_warning(
                        r.1->0,
                        "reader-ocr-unavailable"@,
                        "未配置页面 OCR 模型"@,
                        "请把本地 ONNX 模型包放到 ~/.ueberneon/page-ocr-models/ 并在设置中启用"@,
                    )
                    &&& final(self).cache@ == old(self).cache@.remove(page)
                    &&& *final(self) == (ReaderSession {
                        cache: final(self).cache,
                        render_epoch: (old(self).render_epoch + 1) as u64,
                        render_target: Some(page),
                        ..*old(self)
                    })
                },
                Err(e) => {
                    &&& r.0 is None
                    &&& r.1 is Some
                    &&& reader_warning(r.1->0, "reader-ocr-failed"@, "页面 OCR 失败"@, e@)
                    &&& *final(self) == *old(self)
                },
            },
    {
        match outcome {
            Ok(configured) => {
                self.render_again(page);
                let message: Option<ErrorInfo> = if configured {
                    None
                } else {
                    Some(
                        warning(
                            "reader-ocr-unavailable",
                            "未配置页面 OCR 模型",
                            "请把本地 ONNX 模型包放到 ~/.ueberneon/page-ocr-models/ 并在设置中启用",
                        ),
                    )
                };
                (Some(page), message)
            },
            Err(e) => (None, Some(warning("reader-ocr-failed", "页面 OCR 失败", e.as_str()))),
        }
    }
}

/// The page on which a book opens: that of a citation, else the one that was
/// read last, else the first; within the book.
pub fn start_page(saved: Option<u32>, citation: Option<u32>, page_count: u32) -> (r: u32)
    requires
        page_count >= 1,
    ensures
        ({
            let wanted = match citation {
                Some(c) => c,
                None => match saved {
                    Some(s) => s,
                    None => 1,
                },
            };
            r == if wanted < 1 {
                1
            } else if wanted > page_count {
                page_count
            } else {
                wanted
            }
        }),
{
    let wanted: u32 = match citation {
        Some(c) => c,
        None => match saved {
            Some(s) => s,
            None => 1,
        },
    };
    if wanted < 1 {
        1
    } else if wanted > page_count {
        page_count
    } else {
        wanted
    }
}

/// Every change of the target makes the work that was under way late: the epoch
/// has gone up, so what comes of it is of use only near the new target.
pub proof fn new_target_makes_old_work_late(before: ReaderSession, after: ReaderSession, target: u32, page: u32, claimed: u32)
    requires
        after.render_target == Some(target),
        after.render_epoch == before.render_epoch + 1,
    ensures
        !after.current_work(claimed, before.render_epoch),
        after.useful(page, claimed, before.render_epoch) <==> distance(page, target) <= PREFETCH_RADIUS,
{
}

/// A jump goes to the page that is asked for, or to the last one of the book; what is rendered
/// stays in the cache while its page is the one in view, and a page is worth keeping while it is
/// in view or next to that one.
pub proof fn a_rendered_page_in_view_is_kept(s: ReaderSession, page: u32, rendered: RenderedPage, t: u32)
    ensures
        page <= s.page_count ==> s.jump_target(page) == page,
        page > s.page_count ==> s.jump_target(page) == s.page_count,
        s.render_target is None || s.render_target == Some(page) ==> s.cache_with(page, rendered).contains_key(page) && s.cache_with(
            page,
            rendered,
        )[page] == rendered,
        s.cache@.insert(page, rendered).dom().len() <= 60 ==> s.cache_with(page, rendered) == s.cache@.insert(page, rendered),
        s.near_target(page) <==> s.render_target is Some && (page == s.render_target->0 || page + 1 == s.render_target->0 || page
            == s.render_target->0 + 1),
{
    let all = s.cache@.insert(page, rendered);
    let current = match s.render_target {
        Some(t) => t,
        None => page,
    };
    let gone = evicted_pages(all.dom(), current, s.selection, MAX_CACHE_PAGES as nat);
    if all.dom().len() <= 60 {
        assert(gone =~= Set::<u32>::empty());
        assert(all.remove_keys(gone) =~= all);
    }
}

} // verus!
