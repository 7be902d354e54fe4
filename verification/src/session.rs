//! The state of an open book: its pages, the selection and the gestures that
//! change it.
use crate::copying::{layer_flat, layer_of, RenderedPage};
use crate::page_text::{DocCalibration, FlatWord, Layer};
use crate::selection::{snap_to_word, snapped, Selection, SelectionStep};
use crate::sentence::sentence;
use crate::text::same_text;
use std::collections::HashMap;
use vstd::prelude::*;

verus! {

broadcast use vstd::std_specs::hash::group_hash_axioms;

/// What a button that works in the background shows.
#[derive(Debug, Clone, Copy, PartialEq, Eq, Structural)]
pub enum ActionBarStatus {
    Idle,
    Loading,
    Error,
    Success,
}

/// The bar of actions on the selection. Places are in thousandths of a pixel.
#[derive(Debug, Clone, Copy, PartialEq, Eq, Structural)]
pub struct ActionBarState {
    pub x: i64,
    pub y: i64,
    pub status: ActionBarStatus,
    /// Tells one opening of the bar from another.
    pub generation: u64,
    pub show_formula: bool,
    pub translation_enabled: bool,
    pub explain_enabled: bool,
}

/// The card that shows a translation.
#[derive(Debug, Clone)]
pub struct TranslationCardState {
    pub x: i64,
    pub y: i64,
    pub status: ActionBarStatus,
    /// The number of the request that it answers.
    pub generation: u64,
    pub text: String,
    pub source_text: String,
    pub source_sentences: Vec<String>,
    pub translated_sentences: Vec<String>,
    /// For each source sentence, its first and last translated sentence.
    pub groups: Vec<(usize, usize)>,
}

/// A formula that is to be recognised and copied.
#[derive(Debug)]
pub struct CopyRequest {
    /// The page, counted from 0.
    pub page: usize,
    pub key: String,
    pub bbox: (i32, i32, i32, i32),
    /// What is copied where recognition fails.
    pub fallback: String,
}

/// The last recognised formula and the name it is kept under.
#[derive(Debug, Clone)]
pub struct SingleSlotCache {
    pub slot: Option<(String, String)>,
}

/// What the cache holds under `key`.
pub open spec fn slot_value(c: SingleSlotCache, key: Seq<char>) -> Option<Seq<char>> {
    match c.slot {
        Some(kv) => if kv.0@ == key {
            Some(kv.1@)
        } else {
            None
        },
        None => None,
    }
}

pub open spec fn opt_chars(s: Option<String>) -> Option<Seq<char>> {
    match s {
        Some(t) => Some(t@),
        None => None,
    }
}

impl SingleSlotCache {
    pub fn new() -> (r: SingleSlotCache)
        ensures
            r.slot is None,
    {
        SingleSlotCache { slot: None }
    }

    /// What is kept under `key`.
    pub fn get(&self, key: &str) -> (r: Option<String>)
        ensures
            opt_chars(r) == slot_value(*self, key@),
    {
        match &self.slot {
            Some(kv) => {
                if same_text(kv.0.as_str(), key) {
                    Some(kv.1.clone())
                } else {
                    None
                }
            },
            None => None,
        }
    }

    /// Keeps `value` under `key`, and nothing else any more.
    pub fn put(&mut self, key: String, value: String)
        ensures
            final(self).slot == Some((key, value)),
    {
        self.slot = Some((key, value));
    }
}

/// A value that was put is found under its key, and under no other.
pub proof fn put_then_get(c: SingleSlotCache, key: String, value: String, other: Seq<char>)
    requires
        c.slot == Some((key, value)),
    ensures
        slot_value(c, key@) == Some(value@),
        other != key@ ==> slot_value(c, other) is None,
{
}

/// An open book.
#[derive(Debug)]
pub struct ReaderSession {
    pub page_count: u32,
    pub cal: DocCalibration,
    pub cache: HashMap<u32, RenderedPage>,
    /// The running sum of the pages' ratios of height to width, in millionths;
    /// one longer than the book.
    pub page_ratio_prefix: Vec<i64>,
    /// The page that is to be rendered next.
    pub render_target: Option<u32>,
    /// Goes up with every change of the target, so that late results show.
    pub render_epoch: u64,
    /// Until this time, in milliseconds, scrolling does not change the page.
    pub jump_lock_until: u64,
    pub book_id: String,
    pub book_name: String,
    pub selection: Option<Selection>,
    pub drag_anchor: Option<(u32, Layer, usize)>,
    pub dragging: bool,
    pub shift_extending: bool,
    pub ocr_cache: SingleSlotCache,
    pub pending_copy: Option<CopyRequest>,
    pub copy_busy: bool,
    pub action_bar: Option<ActionBarState>,
    pub action_bar_gen: u64,
    pub translation: Option<TranslationCardState>,
    pub translation_gen: u64,
    pub ocr_warning_shown: bool,
}

/// The selection is made of these parts.
pub open spec fn selects(
    sel: Option<Selection>,
    layer: Layer,
    steps: Seq<SelectionStep>,
    formula: bool,
    score: u32,
    anchor: Option<(u32, Layer, usize)>,
) -> bool {
    match sel {
        None => false,
        Some(s) => s.layer == layer && s.steps@ == steps && s.formula == formula && s.formula_score == score
            && s.anchor == anchor,
    }
}

// ── extending a selection ──

/// A step over plain places, whatever their columns.
pub open spec fn plain_step(page: u32, lo: int, hi: int) -> SelectionStep {
    SelectionStep { page, lo: lo as usize, hi: hi as usize, column_left: None }
}

/// The words of a layer of a cached page; none where the page is not cached or
/// the layer is empty.
pub open spec fn cached_words(pages: Map<u32, RenderedPage>, page: u32, layer: Layer) -> Option<Seq<FlatWord>> {
    if pages.contains_key(page) && layer_of(pages[page], layer).len() > 0 {
        Some(layer_of(pages[page], layer))
    } else {
        None
    }
}

/// The steps from the anchor of a selection to word `idx` of `page`: within one
/// page, or over the break between two.
pub open spec fn extended_steps(
    pages: Map<u32, RenderedPage>,
    sel: Selection,
    page: u32,
    layer: Layer,
    idx: int,
) -> Option<Seq<SelectionStep>> {
    if sel.anchor is None {
        None
    } else {
        let (apage, alayer, araw) = sel.anchor->0;
        let awords = cached_words(pages, apage, layer);
        let words = cached_words(pages, page, layer);
        if alayer != layer || sel.layer != layer || awords is None || words is None {
            None
        } else {
            let a = snapped(awords->0, araw as int);
            let i = snapped(words->0, idx);
            if apage == page {
                Some(
                    seq![
                        if a <= i {
                            plain_step(page, a, i)
                        } else {
                            plain_step(page, i, a)
                        },
                    ],
                )
            } else if page == apage + 1 {
                Some(seq![plain_step(apage, a, awords->0.len() - 1), plain_step(page, 0, i)])
            } else if apage == page + 1 {
                Some(seq![plain_step(page, i, words->0.len() - 1), plain_step(apage, 0, a)])
            } else {
                None
            }
        }
    }
}

/// The word that a selection was started at.
pub open spec fn anchor_word(pages: Map<u32, RenderedPage>, sel: Selection) -> FlatWord {
    let (apage, alayer, araw) = sel.anchor->0;
    let words = layer_of(pages[apage], alayer);
    words[snapped(words, araw as int)]
}

/// The selection from the anchor of `selection` to word `idx` of `page`; none
/// across layers, over more than one page break, or where a page is missing.
pub fn shift_extend_selection(
    cache: &HashMap<u32, RenderedPage>,
    selection: &Selection,
    page: u32,
    layer: Layer,
    idx: usize,
) -> (r: Option<Selection>)
    ensures
        r is Some <==> extended_steps(cache@, *selection, page, layer, idx as int) is Some,
        r is Some ==> selects(
            r,
            layer,
            extended_steps(cache@, *selection, page, layer, idx as int)->0,
            anchor_word(cache@, *selection).formula,
            anchor_word(cache@, *selection).formula_score,
            selection.anchor,
        ),
{
    let (apage, alayer, araw) = match selection.anchor {
        Some(a) => a,
        None => {
            return None;
        },
    };
    if alayer != layer || selection.layer != layer {
        return None;
    }
    let aflat = match cache.get(&apage) {
        Some(p) => layer_flat(p, layer),
        None => {
            return None;
        },
    };
    let flat = match cache.get(&page) {
        Some(p) => layer_flat(p, layer),
        None => {
            return None;
        },
    };
    if aflat.len() == 0 || flat.len() == 0 {
        return None;
    }
    let a = snap_to_word(aflat, araw);
    let i = snap_to_word(flat, idx);
    let mut steps: Vec<SelectionStep> = Vec::new();
    if apage == page {
        let (lo, hi) = if a <= i {
            (a, i)
        } else {
            (i, a)
        };
        steps.push(SelectionStep { page, lo, hi, column_left: None });
    } else if (page as u64) == (apage as u64) + 1 {
        steps.push(SelectionStep { page: apage, lo: a, hi: aflat.len() - 1, column_left: None });
        steps.push(SelectionStep { page, lo: 0, hi: i, column_left: None });
    } else if (apage as u64) == (page as u64) + 1 {
        steps.push(SelectionStep { page, lo: i, hi: flat.len() - 1, column_left: None });
        steps.push(SelectionStep { page: apage, lo: 0, hi: a, column_left: None });
    } else {
        return None;
    }
    assert(steps@ =~= extended_steps(cache@, *selection, page, layer, idx as int)->0);
    Some(
        Selection {
            layer,
            steps,
            formula: aflat[a].formula,
            formula_score: aflat[a].formula_score,
            anchor: selection.anchor,
        },
    )
}

/// An extended selection starts and ends on cached pages, keeps its anchor, and
/// its steps are in reading order.
pub proof fn extension_is_in_reading_order(
    pages: Map<u32, RenderedPage>,
    sel: Selection,
    page: u32,
    layer: Layer,
    idx: int,
)
    requires
        0 <= idx,
        extended_steps(pages, sel, page, layer, idx) is Some,
    ensures
        ({
            let steps = extended_steps(pages, sel, page, layer, idx)->0;
            &&& 1 <= steps.len() <= 2
            &&& forall|k: int|
                0 <= k < steps.len() ==> pages.contains_key(#[trigger] steps[k].page) && steps[k].lo <= steps[k].hi
                    < layer_of(pages[steps[k].page], layer).len()
            &&& steps.len() == 2 ==> steps[0].page + 1 == steps[1].page
        }),
{
    let (apage, alayer, araw) = sel.anchor->0;
    let awords = cached_words(pages, apage, layer)->0;
    let words = cached_words(pages, page, layer)->0;
    crate::selection::snapping_lands_on_a_word(awords, araw as int);
    crate::selection::snapping_lands_on_a_word(words, idx);
    vstd::std_specs::vec::axiom_spec_len(&pages[apage].body);
    vstd::std_specs::vec::axiom_spec_len(&pages[apage].small);
    vstd::std_specs::vec::axiom_spec_len(&pages[page].body);
    vstd::std_specs::vec::axiom_spec_len(&pages[page].small);
}

/// A step takes in word `i` of page `page`.
pub open spec fn step_takes(s: SelectionStep, page: u32, i: int) -> bool {
    s.page == page && s.lo <= i <= s.hi
}

/// An extended selection holds the word that it was started at and the word that
/// it was extended to.
pub proof fn an_extension_holds_both_ends(
    pages: Map<u32, RenderedPage>,
    sel: Selection,
    page: u32,
    layer: Layer,
    idx: int,
)
    requires
        0 <= idx,
        extended_steps(pages, sel, page, layer, idx) is Some,
    ensures
        ({
            let steps = extended_steps(pages, sel, page, layer, idx)->0;
            let (apage, alayer, araw) = sel.anchor->0;
            let start = snapped(layer_of(pages[apage], layer), araw as int);
            let end = snapped(layer_of(pages[page], layer), idx);
            &&& exists|k: int| 0 <= k < steps.len() && step_takes(#[trigger] steps[k], apage, start)
            &&& exists|k: int| 0 <= k < steps.len() && step_takes(#[trigger] steps[k], page, end)
        }),
{
    let steps = extended_steps(pages, sel, page, layer, idx)->0;
    let (apage, alayer, araw) = sel.anchor->0;
    let awords = cached_words(pages, apage, layer)->0;
    let words = cached_words(pages, page, layer)->0;
    crate::selection::snapping_lands_on_a_word(awords, araw as int);
    crate::selection::snapping_lands_on_a_word(words, idx);
    vstd::std_specs::vec::axiom_spec_len(&pages[apage].body);
    vstd::std_specs::vec::axiom_spec_len(&pages[apage].small);
    vstd::std_specs::vec::axiom_spec_len(&pages[page].body);
    vstd::std_specs::vec::axiom_spec_len(&pages[page].small);
    let start = snapped(awords, araw as int);
    let end = snapped(words, idx);
    if apage == page {
        assert(step_takes(steps[0], apage, start));
        assert(step_takes(steps[0], page, end));
    } else if page == apage + 1 {
        assert(step_takes(steps[0], apage, start));
        assert(step_takes(steps[1], page, end));
    } else {
        assert(step_takes(steps[0], page, end));
        assert(step_takes(steps[1], apage, start));
    }
}

/// Extending a selection that was extended before gives what extending the first
/// one gives: it goes out from the same word.
pub proof fn extending_again_goes_out_from_the_same_word(
    pages: Map<u32, RenderedPage>,
    sel: Selection,
    once: Option<Selection>,
    steps: Seq<SelectionStep>,
    formula: bool,
    formula_score: u32,
    page: u32,
    layer: Layer,
    idx: int,
)
    requires
        selects(once, sel.layer, steps, formula, formula_score, sel.anchor),
    ensures
        extended_steps(pages, once->0, page, layer, idx) == extended_steps(pages, sel, page, layer, idx),
{
}

} // verus!
