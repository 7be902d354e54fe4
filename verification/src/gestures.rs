//! Mouse gestures on the words of a page: dragging, clicking, and extending a
//! selection.
use crate::copying::{layer_flat, layer_of};
use crate::page_text::{FlatWord, Layer};
use crate::paragraph_walk::{paragraph_walk_with, reading_paragraph};
use crate::selection::{snap_to_word, snapped, Selection, SelectionStep};
use crate::sentence::{sentence, sentence_walk_with};
use crate::session::{
    anchor_word, cached_words, extended_steps, plain_step, selects, shift_extend_selection, ReaderSession,
};
use vstd::prelude::*;

verus! {

broadcast use vstd::std_specs::hash::group_hash_axioms;

impl ReaderSession {
    /// There is a selection, and it is not empty.
    pub open spec fn has_selection(self) -> bool {
        self.selection is Some && self.selection->0.steps@.len() > 0
    }

    /// There is a selection on `layer`, and it is not empty.
    pub open spec fn has_selection_on(self, layer: Layer) -> bool {
        self.has_selection() && self.selection->0.layer == layer
    }

    /// `self`, with a drag begun at word `idx` and nothing selected.
    pub open spec fn drag_begun(self, page: u32, layer: Layer, idx: usize) -> ReaderSession {
        ReaderSession {
            drag_anchor: Some((page, layer, idx)),
            dragging: true,
            shift_extending: false,
            selection: None,
            action_bar: None,
            translation: None,
            ..self
        }
    }

    /// Begins a drag at word `idx`.
    pub fn start_drag(&mut self, page: u32, layer: Layer, idx: usize)
        ensures
            *final(self) == old(self).drag_begun(page, layer, idx),
    {
        self.drag_anchor = Some((page, layer, idx));
        self.dragging = true;
        self.shift_extending = false;
        self.selection = None;
        self.action_bar = None;
        self.translation = None;
    }

    /// `new` holds the selection that reaches from the anchor of the selection
    /// in `self` to word `idx`.
    pub open spec fn extends_to(self, new: Option<Selection>, page: u32, layer: Layer, idx: usize) -> bool {
        selects(
            new,
            layer,
            extended_steps(self.cache@, self.selection->0, page, layer, idx as int)->0,
            anchor_word(self.cache@, self.selection->0).formula,
            anchor_word(self.cache@, self.selection->0).formula_score,
            self.selection->0.anchor,
        )
    }

    /// The selection can be extended to word `idx`.
    pub open spec fn can_extend(self, page: u32, layer: Layer, idx: usize) -> bool {
        self.selection is Some && extended_steps(self.cache@, self.selection->0, page, layer, idx as int) is Some
    }

    /// Pressing with the shift key on word `idx`: extends a selection of the same
    /// layer, and keeps it where that is not possible; begins a drag where there
    /// is none.
    pub fn begin_shift_extend(&mut self, page: u32, layer: Layer, idx: usize)
        ensures
            !old(self).has_selection_on(layer) ==> *final(self) == old(self).drag_begun(page, layer, idx),
            old(self).has_selection_on(layer) && !old(self).can_extend(page, layer, idx) ==> *final(self) == *old(
                self,
            ),
            old(self).has_selection_on(layer) && old(self).can_extend(page, layer, idx) ==> old(self).extends_to(
                final(self).selection,
                page,
                layer,
                idx,
            ) && *final(self) == (ReaderSession {
                selection: final(self).selection,
                shift_extending: true,
                dragging: true,
                drag_anchor: Some((page, layer, idx)),
                action_bar: None,
                translation: None,
                ..*old(self)
            }),
    {
        let on_layer = match &self.selection {
            Some(sel) => sel.layer == layer && sel.steps.len() > 0,
            None => false,
        };
        if !on_layer {
            self.start_drag(page, layer, idx);
            return;
        }
        let extended = match &self.selection {
            Some(sel) => shift_extend_selection(&self.cache, sel, page, layer, idx),
            None => None,
        };
        if extended.is_some() {
            self.shift_extending = true;
            self.dragging = true;
            self.drag_anchor = Some((page, layer, idx));
            self.selection = extended;
            self.action_bar = None;
            self.translation = None;
        }
    }

    /// The formula mark and score of the word where the drag began.
    pub open spec fn drag_mark(self) -> (bool, u32) {
        match self.drag_anchor {
            None => (false, 0),
            Some(a) => if self.cache@.contains_key(a.0) && a.2 < layer_of(self.cache@[a.0], a.1).len() {
                (
                    layer_of(self.cache@[a.0], a.1)[a.2 as int].formula,
                    layer_of(self.cache@[a.0], a.1)[a.2 as int].formula_score,
                )
            } else {
                (false, 0)
            },
        }
    }

    /// The drag that is under way can take word `idx`: it began on another word
    /// of the same page and layer.
    pub open spec fn drag_reaches(self, page: u32, layer: Layer, idx: usize) -> bool {
        &&& self.dragging
        &&& self.drag_anchor is Some
        &&& (self.drag_anchor->0).0 == page
        &&& (self.drag_anchor->0).1 == layer
        &&& (self.drag_anchor->0).2 != idx
    }

    /// Moving over word `idx` while dragging: selects from the word where the
    /// drag began, on the same page and layer; with the shift key, extends the
    /// selection.
    pub fn extend_drag(&mut self, page: u32, layer: Layer, idx: usize)
        ensures
            old(self).shift_extending && !old(self).can_extend(page, layer, idx) ==> *final(self) == *old(self),
            old(self).shift_extending && old(self).can_extend(page, layer, idx) ==> old(self).extends_to(
                final(self).selection,
                page,
                layer,
                idx,
            ) && *final(self) == (ReaderSession {
                selection: final(self).selection,
                drag_anchor: Some((page, layer, idx)),
                ..*old(self)
            }),
            !old(self).shift_extending && !old(self).drag_reaches(page, layer, idx) ==> *final(self) == *old(self),
            !old(self).shift_extending && old(self).drag_reaches(page, layer, idx) ==> ({
                let a = (old(self).drag_anchor->0).2;
                &&& selects(
                    final(self).selection,
                    layer,
                    seq![
                        if a <= idx {
                            plain_step(page, a as int, idx as int)
                        } else {
                            plain_step(page, idx as int, a as int)
                        },
                    ],
                    old(self).drag_mark().0,
                    old(self).drag_mark().1,
                    old(self).drag_anchor,
                )
                &&& *final(self) == (ReaderSession { selection: final(self).selection, ..*old(self) })
            }),
    {
        if self.shift_extending {
            let extended = match &self.selection {
                Some(sel) => shift_extend_selection(&self.cache, sel, page, layer, idx),
                None => None,
            };
            if extended.is_some() {
                self.drag_anchor = Some((page, layer, idx));
                self.selection = extended;
            }
            return;
        }
        if !self.dragging {
            return;
        }
        match self.drag_anchor {
            None => {},
            Some(anchor) => {
                let (apage, alayer, a) = anchor;
                if apage == page && alayer == layer && a != idx {
                    let (formula, formula_score) = match self.cache.get(&apage) {
                        Some(p) => {
                            let flat = layer_flat(p, alayer);
                            if a < flat.len() {
                                (flat[a].formula, flat[a].formula_score)
                            } else {
                                (false, 0)
                            }
                        },
                        None => (false, 0),
                    };
                    let (lo, hi) = if a <= idx {
                        (a, idx)
                    } else {
                        (idx, a)
                    };
                    let mut steps: Vec<SelectionStep> = Vec::new();
                    steps.push(SelectionStep { page, lo, hi, column_left: None });
                    self.selection = Some(
                        Selection { layer, steps, formula, formula_score, anchor: Some(anchor) },
                    );
                }
            },
        }
    }

    /// Ends a drag and keeps what it selected.
    pub fn end_drag(&mut self)
        ensures
            *final(self) == (ReaderSession {
                dragging: false,
                shift_extending: false,
                drag_anchor: None,
                ..*old(self)
            }),
    {
        self.dragging = false;
        self.shift_extending = false;
        self.drag_anchor = None;
    }

    /// Leaving the pages ends a drag too.
    pub fn cancel_drag(&mut self)
        ensures
            *final(self) == (ReaderSession {
                dragging: false,
                shift_extending: false,
                drag_anchor: None,
                ..*old(self)
            }),
    {
        self.end_drag();
    }

    /// `self` with `selection`, at rest and with its bar and card closed.
    pub open spec fn at_rest_with(self, selection: Option<Selection>) -> ReaderSession {
        ReaderSession {
            selection,
            dragging: false,
            shift_extending: false,
            drag_anchor: None,
            action_bar: None,
            translation: None,
            ..self
        }
    }

    fn rest_with(&mut self, selection: Option<Selection>)
        ensures
            *final(self) == old(self).at_rest_with(selection),
    {
        self.selection = selection;
        self.dragging = false;
        self.shift_extending = false;
        self.drag_anchor = None;
        self.action_bar = None;
        self.translation = None;
    }

    /// The word that a click on word `idx` of a page selects, with its formula
    /// mark and score.
    pub open spec fn clicked_word(self, page: u32, layer: Layer, idx: usize) -> (int, bool, u32) {
        match cached_words(self.cache@, page, layer) {
            Some(words) => {
                let i = snapped(words, idx as int);
                (i, words[i].formula, words[i].formula_score)
            },
            None => (idx as int, false, 0),
        }
    }

    /// Double click: selects the word.
    pub fn select_word(&mut self, page: u32, layer: Layer, idx: usize)
        ensures
            *final(self) == old(self).at_rest_with(final(self).selection),
            ({
                let w = old(self).clicked_word(page, layer, idx);
                selects(
                    final(self).selection,
                    layer,
                    seq![plain_step(page, w.0, w.0)],
                    w.1,
                    w.2,
                    Some((page, layer, w.0 as usize)),
                )
            }),
    {
        let (i, formula, formula_score) = match self.cache.get(&page) {
            Some(p) => {
                let flat = layer_flat(p, layer);
                if flat.len() > 0 {
                    let i = snap_to_word(flat, idx);
                    (i, flat[i].formula, flat[i].formula_score)
                } else {
                    (idx, false, 0)
                }
            },
            None => (idx, false, 0),
        };
        let mut steps: Vec<SelectionStep> = Vec::new();
        steps.push(SelectionStep { page, lo: i, hi: i, column_left: None });
        let sel = Selection { layer, steps, formula, formula_score, anchor: Some((page, layer, i)) };
        self.rest_with(Some(sel));
    }

    /// The words of the page before `page`, where it is cached.
    pub open spec fn words_before(self, page: u32, layer: Layer) -> Option<Seq<FlatWord>> {
        if page > 0 && self.cache@.contains_key((page - 1) as u32) {
            Some(layer_of(self.cache@[(page - 1) as u32], layer))
        } else {
            None
        }
    }

    /// The words of the page behind `page`, where it is cached.
    pub open spec fn words_behind(self, page: u32, layer: Layer) -> Option<Seq<FlatWord>> {
        if page < u32::MAX && self.cache@.contains_key((page + 1) as u32) {
            Some(layer_of(self.cache@[(page + 1) as u32], layer))
        } else {
            None
        }
    }

    /// Triple click: selects the sentence in reading order. Nothing happens on a
    /// page without words.
    pub fn select_sentence(&mut self, page: u32, layer: Layer, idx: usize)
        ensures
            cached_words(old(self).cache@, page, layer) is None ==> *final(self) == *old(self),
            cached_words(old(self).cache@, page, layer) is Some ==> ({
                let words = cached_words(old(self).cache@, page, layer)->0;
                let a = snapped(words, idx as int);
                &&& *final(self) == old(self).at_rest_with(final(self).selection)
                &&& selects(
                    final(self).selection,
                    layer,
                    sentence(
                        words,
                        a,
                        old(self).words_before(page, layer),
                        old(self).words_behind(page, layer),
                        page,
                        old(self).cal,
                    ),
                    words[a].formula,
                    words[a].formula_score,
                    Some((page, layer, a as usize)),
                )
            }),
    {
        let sel = match self.cache.get(&page) {
            None => {
                return;
            },
            Some(p) => {
                let flat = layer_flat(p, layer);
                if flat.len() == 0 {
                    return;
                }
                let a = snap_to_word(flat, idx);
                let prev: Option<&[FlatWord]> = if page > 0 {
                    match self.cache.get(&(page - 1)) {
                        Some(q) => Some(layer_flat(q, layer).as_slice()),
                        None => None,
                    }
                } else {
                    None
                };
                let next: Option<&[FlatWord]> = if page < u32::MAX {
                    match self.cache.get(&(page + 1)) {
                        Some(q) => Some(layer_flat(q, layer).as_slice()),
                        None => None,
                    }
                } else {
                    None
                };
                let steps = sentence_walk_with(flat, a, prev, next, page, self.cal);
                Selection {
                    layer,
                    steps,
                    formula: flat[a].formula,
                    formula_score: flat[a].formula_score,
                    anchor: Some((page, layer, a)),
                }
            },
        };
        self.rest_with(Some(sel));
    }

    /// Double click with the command key: selects the paragraph in reading
    /// order. Nothing happens on a page without words.
    pub fn select_paragraph(&mut self, page: u32, layer: Layer, idx: usize)
        ensures
            cached_words(old(self).cache@, page, layer) is None ==> *final(self) == *old(self),
            cached_words(old(self).cache@, page, layer) is Some ==> ({
                let words = cached_words(old(self).cache@, page, layer)->0;
                let a = snapped(words, idx as int);
                &&& *final(self) == old(self).at_rest_with(final(self).selection)
                &&& selects(
                    final(self).selection,
                    layer,
                    reading_paragraph(
                        words,
                        a,
                        old(self).words_before(page, layer),
                        old(self).words_behind(page, layer),
                        page,
                        old(self).cal,
                    ),
                    words[a].formula,
                    words[a].formula_score,
                    Some((page, layer, a as usize)),
                )
            }),
    {
        let sel = match self.cache.get(&page) {
            None => {
                return;
            },
            Some(p) => {
                let flat = layer_flat(p, layer);
                if flat.len() == 0 {
                    return;
                }
                let a = snap_to_word(flat, idx);
                let prev: Option<&[FlatWord]> = if page > 0 {
                    match self.cache.get(&(page - 1)) {
                        Some(q) => Some(layer_flat(q, layer).as_slice()),
                        None => None,
                    }
                } else {
                    None
                };
                let next: Option<&[FlatWord]> = if page < u32::MAX {
                    match self.cache.get(&(page + 1)) {
                        Some(q) => Some(layer_flat(q, layer).as_slice()),
                        None => None,
                    }
                } else {
                    None
                };
                let steps = paragraph_walk_with(flat, a, prev, next, page, self.cal);
                Selection {
                    layer,
                    steps,
                    formula: flat[a].formula,
                    formula_score: flat[a].formula_score,
                    anchor: Some((page, layer, a)),
                }
            },
        };
        self.rest_with(Some(sel));
    }

    /// Pressing on a page beside its words: clears the selection, unless the
    /// shift key is held to extend one. Tells whether it was cleared.
    pub fn press_blank(&mut self, shift: bool) -> (cleared: bool)
        ensures
            cleared == !(shift && old(self).has_selection()),
            cleared ==> *final(self) == old(self).at_rest_with(None),
            !cleared ==> *final(self) == *old(self),
    {
        let selected = match &self.selection {
            Some(sel) => sel.steps.len() > 0,
            None => false,
        };
        if shift && selected {
            return false;
        }
        self.rest_with(None);
        true
    }
}

// ── counting clicks ──

/// Two clicks on a word within this time, in milliseconds, belong together.
pub const CLICK_WINDOW_MS: u64 = 350;

/// The clicks that belong together so far.
#[derive(Debug, Clone, Copy, PartialEq, Eq, Structural)]
pub struct ClickState {
    pub count: u32,
    pub page: u32,
    pub layer: Layer,
    /// The word; `usize::MAX` for none.
    pub word: usize,
    pub generation: u64,
    pub last_ms: u64,
}

impl ClickState {
    /// Three clicks make a sentence, so no more than two are ever pending.
    pub open spec fn valid(self) -> bool {
        self.count <= 2
    }

    /// A click on word `idx` at time `now` belongs to the clicks before it.
    pub open spec fn continues(self, page: u32, layer: Layer, idx: usize, now: u64) -> bool {
        &&& self.page == page
        &&& self.layer == layer
        &&& self.word == idx
        &&& now <= self.last_ms + CLICK_WINDOW_MS
    }

    /// No click yet.
    pub fn new(now: u64) -> (r: ClickState)
        ensures
            r.valid(),
            r == (ClickState { count: 0, page: 0, layer: Layer::Body, word: usize::MAX, generation: 0, last_ms: now }),
    {
        ClickState { count: 0, page: 0, layer: Layer::Body, word: usize::MAX, generation: 0, last_ms: now }
    }

    /// A click on word `idx` at time `now`. Tells whether it was the third in a
    /// row, which selects the sentence and starts the count again.
    pub fn click(&mut self, page: u32, layer: Layer, idx: usize, now: u64) -> (third: bool)
        requires
            old(self).valid(),
            old(self).generation < u64::MAX - 1,
        ensures
            final(self).valid(),
            third == (old(self).continues(page, layer, idx, now) && old(self).count == 2),
            third ==> *final(self) == (ClickState {
                count: 0,
                page,
                layer,
                word: usize::MAX,
                generation: (old(self).generation + 2) as u64,
                last_ms: now,
            }),
            !third ==> *final(self) == (ClickState {
                count: if old(self).continues(page, layer, idx, now) {
                    (old(self).count + 1) as u32
                } else {
                    1
                },
                page,
                layer,
                word: idx,
                generation: (old(self).generation + 1) as u64,
                last_ms: now,
            }),
    {
        let within = now <= self.last_ms || now - self.last_ms <= CLICK_WINDOW_MS;
        let count: u32 = if self.page == page && self.layer == layer && self.word == idx && within {
            self.count + 1
        } else {
            1
        };
        let generation = self.generation;
        if count >= 3 {
            *self = ClickState { count: 0, page, layer, word: usize::MAX, generation: generation + 2, last_ms: now };
            return true;
        }
        *self = ClickState { count, page, layer, word: idx, generation: generation + 1, last_ms: now };
        false
    }

    /// A press beside the words: no click is pending any more.
    pub fn forget(&mut self, page: u32, now: u64)
        requires
            old(self).generation < u64::MAX,
        ensures
            final(self).valid(),
            *final(self) == (ClickState {
                count: 0,
                page,
                layer: Layer::Body,
                word: usize::MAX,
                generation: (old(self).generation + 1) as u64,
                last_ms: now,
            }),
    {
        *self = ClickState {
            count: 0,
            page,
            layer: Layer::Body,
            word: usize::MAX,
            generation: self.generation + 1,
            last_ms: now,
        };
    }

    /// The word that a double click beside the words stands for: the last one
    /// clicked on this page.
    pub fn pending_word(&self, page: u32) -> (r: Option<(Layer, usize)>)
        ensures
            r == if self.page == page && self.word != usize::MAX {
                Some((self.layer, self.word))
            } else {
                None
            },
    {
        if self.page == page && self.word != usize::MAX {
            Some((self.layer, self.word))
        } else {
            None
        }
    }
}

/// A gesture reads on over the words of the same layer on the page before and on the next page,
/// where these are there; and it acts on the word that is nearest to the place.
pub proof fn a_gesture_sees_the_pages_beside_its_own(s: ReaderSession, page: u32, layer: Layer, idx: usize)
    ensures
        page > 0 && s.cache@.contains_key((page - 1) as u32) ==> s.words_before(page, layer) == Some(
            match layer {
                Layer::Body => s.cache@[(page - 1) as u32].body@,
                Layer::Small => s.cache@[(page - 1) as u32].small@,
            },
        ),
        page == 0 || !s.cache@.contains_key((page - 1) as u32) ==> s.words_before(page, layer) is None,
        page < u32::MAX && s.cache@.contains_key((page + 1) as u32) ==> s.words_behind(page, layer) == Some(
            match layer {
                Layer::Body => s.cache@[(page + 1) as u32].body@,
                Layer::Small => s.cache@[(page + 1) as u32].small@,
            },
        ),
        page == u32::MAX || !s.cache@.contains_key((page + 1) as u32) ==> s.words_behind(page, layer) is None,
        ({
            let words = match layer {
                Layer::Body => s.cache@[page].body@,
                Layer::Small => s.cache@[page].small@,
            };
            s.cache@.contains_key(page) && words.len() > 0 ==> cached_words(s.cache@, page, layer) == Some(words) && s.clicked_word(
                page,
                layer,
                idx,
            ).0 == snapped(words, idx as int)
        }),
        !s.cache@.contains_key(page) ==> cached_words(s.cache@, page, layer) is None,
{
}

/// Whatever is begun with the mouse puts away what was shown for the selection before: a drag
/// starts with nothing selected, and once it is over neither a drag nor an extension goes on; the
/// book, its pages and what is being copied stay as they are.
pub proof fn a_gesture_puts_away_what_was_shown(s: ReaderSession, page: u32, layer: Layer, idx: usize, selection: Option<Selection>)
    ensures
        ({
            let d = s.drag_begun(page, layer, idx);
            &&& d.dragging && d.drag_anchor == Some((page, layer, idx)) && !d.shift_extending
            &&& d.selection is None && d.action_bar is None && d.translation is None
            &&& d.cache == s.cache && d.book_id == s.book_id && d.page_count == s.page_count && d.cal == s.cal
            &&& d.pending_copy == s.pending_copy && d.copy_busy == s.copy_busy && d.render_target == s.render_target
        }),
        ({
            let r = s.at_rest_with(selection);
            &&& !r.dragging && r.drag_anchor is None && !r.shift_extending
            &&& r.selection == selection && r.action_bar is None && r.translation is None
            &&& r.cache == s.cache && r.book_id == s.book_id && r.page_count == s.page_count && r.cal == s.cal
            &&& r.pending_copy == s.pending_copy && r.copy_busy == s.copy_busy && r.render_target == s.render_target
        }),
{
}

/// A click goes on with the one before it on the same word of the same page and layer, within 350
/// milliseconds; a drag reaches another word of the page and layer where it began.
pub proof fn clicks_go_on_within_their_time(c: ClickState, page: u32, layer: Layer, idx: usize, now: u64, s: ReaderSession)
    ensures
        c.continues(page, layer, idx, now) ==> c.page == page && c.layer == layer && c.word == idx && now <= c.last_ms + 350,
        c.page == page && c.layer == layer && c.word == idx && now <= c.last_ms + 350 ==> c.continues(page, layer, idx, now),
        s.drag_reaches(page, layer, idx) <==> s.dragging && s.drag_anchor is Some && s.drag_anchor->0 != (page, layer, idx) && (
        s.drag_anchor->0).0 == page && (s.drag_anchor->0).1 == layer,
{
}

} // verus!
