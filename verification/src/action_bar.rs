//! The actions on a selection: copying, translating, explaining, and recognising
//! a formula in the background.
use crate::classify::FORMULA_SCORE_THRESHOLD;
use crate::copying::{copy_steps_with, joined_lines, pages_present, step_texts};
use crate::lines::{larger, smaller};
use crate::selection::Selection;
use crate::session::{ActionBarState, ActionBarStatus, ReaderSession, TranslationCardState};
use crate::text::{blank, is_blank, trim, trimmed, views};
use crate::translation_input::{
    holds_plain_text, selection_has_plain_text_with, selection_translation_input_with, translated_steps,
};
use vstd::prelude::*;

verus! {

broadcast use vstd::std_specs::hash::group_hash_axioms;

// ── opening and closing ──

/// The selection is a formula beyond doubt.
pub open spec fn sure_formula(sel: Selection) -> bool {
    sel.formula && sel.formula_score >= FORMULA_SCORE_THRESHOLD
}

impl ReaderSession {
    /// Opens the bar at a place: with the formula button for a sure formula, and
    /// with translation and explanation where they are set up and the selection
    /// holds plain text. Without a selection the bar and the card close.
    pub fn open_action_bar(&mut self, x: i64, y: i64, translator_ready: bool, explainer_ready: bool)
        requires
            old(self).action_bar_gen < u64::MAX,
        ensures
            !old(self).has_selection() ==> *final(self) == (ReaderSession {
                action_bar: None,
                translation: None,
                ..*old(self)
            }),
            old(self).has_selection() ==> ({
                let sel = old(self).selection->0;
                let plain = holds_plain_text(old(self).cache@, old(self).cal.column_gap_cqw as int, sel);
                let generation = (old(self).action_bar_gen + 1) as u64;
                *final(self) == (ReaderSession {
                    action_bar_gen: generation,
                    action_bar: Some(
                        ActionBarState {
                            x,
                            y,
                            status: ActionBarStatus::Idle,
                            generation,
                            show_formula: sure_formula(sel),
                            translation_enabled: translator_ready && plain,
                            explain_enabled: explainer_ready && plain,
                        },
                    ),
                    ..*old(self)
                })
            }),
    {
        let (selected, show_formula, plain) = match &self.selection {
            Some(sel) => (
                sel.steps.len() > 0,
                sel.formula && sel.formula_score >= FORMULA_SCORE_THRESHOLD,
                selection_has_plain_text_with(sel, &self.cache, self.cal.column_gap_cqw),
            ),
            None => (false, false, false),
        };
        if !selected {
            self.action_bar = None;
            self.translation = None;
            return;
        }
        self.action_bar_gen = self.action_bar_gen + 1;
        self.action_bar = Some(
            ActionBarState {
                x,
                y,
                status: ActionBarStatus::Idle,
                generation: self.action_bar_gen,
                show_formula,
                translation_enabled: translator_ready && plain,
                explain_enabled: explainer_ready && plain,
            },
        );
    }

    /// Closes the bar and the card.
    pub fn close_action_bar(&mut self)
        ensures
            *final(self) == (ReaderSession { action_bar: None, translation: None, ..*old(self) }),
    {
        self.action_bar = None;
        self.translation = None;
    }

    /// Scrolling closes the bar, unless a translation is shown.
    pub fn scroll_action_bar(&mut self)
        ensures
            old(self).translation is Some ==> *final(self) == *old(self),
            old(self).translation is None ==> *final(self) == (ReaderSession {
                action_bar: None,
                translation: None,
                ..*old(self)
            }),
    {
        if self.translation.is_none() {
            self.close_action_bar();
        }
    }

    // ── copying ──

    /// The text of the selection; none without a selection or where a page is
    /// missing.
    pub fn selected_text(&self) -> (r: Option<String>)
        ensures
            r is Some <==> self.selection is Some && pages_present(
                self.cache@,
                self.selection->0.steps@,
                self.selection->0.steps@.len() as int,
            ),
            r is Some ==> r->0@ == joined_lines(
                step_texts(
                    self.cache@,
                    self.selection->0.layer,
                    self.selection->0.steps@,
                    self.cal.column_gap_cqw as int,
                ),
            ),
    {
        match &self.selection {
            None => None,
            Some(sel) => copy_steps_with(sel, &self.cache, self.cal.column_gap_cqw),
        }
    }

    // ── translating ──

    /// What the selection says to a translator.
    pub open spec fn translation_text(self) -> Seq<char> {
        let sel = self.selection->0;
        joined_lines(
            translated_steps(self.cache@, sel.layer, sel.steps@, self.cal.column_gap_cqw as int, sel.steps@.len()).0,
        )
    }

    /// The formulas in what the selection says to a translator.
    pub open spec fn translation_formulas(self) -> Seq<Seq<char>> {
        let sel = self.selection->0;
        translated_steps(self.cache@, sel.layer, sel.steps@, self.cal.column_gap_cqw as int, sel.steps@.len()).1
    }

    /// The selection has something to say to a translator.
    pub open spec fn translatable(self) -> bool {
        &&& self.selection is Some
        &&& pages_present(self.cache@, self.selection->0.steps@, self.selection->0.steps@.len() as int)
        &&& !blank(self.translation_text())
    }

    pub(crate) fn translation_source(&self) -> (r: Option<(String, Vec<String>)>)
        ensures
            r is Some <==> self.translatable(),
            r is Some ==> (r->0).0@ == self.translation_text() && views((r->0).1@) == self.translation_formulas(),
    {
        match &self.selection {
            None => None,
            Some(sel) => match selection_translation_input_with(sel, &self.cache, self.cal.column_gap_cqw) {
                None => None,
                Some(t) => {
                    if is_blank(&t.0) {
                        None
                    } else {
                        Some(t)
                    }
                },
            },
        }
    }

    /// What the translate button sends: the text, without white space at its ends,
    /// and its formulas; none where the bar does not offer translation or there
    /// is nothing to translate.
    pub fn translation_request(&self) -> (r: Option<(String, Vec<String>)>)
        ensures
            r is Some <==> self.translatable() && self.action_bar is Some && self.action_bar->0.translation_enabled,
            r is Some ==> (r->0).0@ == trimmed(self.translation_text()) && views((r->0).1@) == self.translation_formulas(),
    {
        match &self.action_bar {
            None => None,
            Some(bar) => {
                if bar.translation_enabled {
                    match self.translation_source() {
                        None => None,
                        Some(t) => Some((trim(t.0.as_str()), t.1)),
                    }
                } else {
                    None
                }
            },
        }
    }

    /// What the retry button sends, and where the card stays; none without a
    /// card or with nothing to translate.
    pub fn retry_request(&self) -> (r: Option<(String, Vec<String>, i64, i64)>)
        ensures
            r is Some <==> self.translatable() && self.translation is Some,
            r is Some ==> (r->0).0@ == trimmed(self.translation_text()) && views((r->0).1@) == self.translation_formulas()
                && (r->0).2 == self.translation->0.x && (r->0).3 == self.translation->0.y,
    {
        match &self.translation {
            None => None,
            Some(card) => match self.translation_source() {
                None => None,
                Some(t) => Some((trim(t.0.as_str()), t.1, card.x, card.y)),
            },
        }
    }

    /// `self` is `before` with the card of a new translation, and without the bar.
    pub open spec fn translation_started(self, before: ReaderSession, x: i64, y: i64, source_text: String) -> bool {
        &&& self == (ReaderSession {
            translation_gen: (before.translation_gen + 1) as u64,
            action_bar: None,
            translation: self.translation,
            ..before
        })
        &&& self.translation is Some
        &&& ({
            let card = self.translation->0;
            &&& card.x == x
            &&& card.y == y
            &&& card.status == ActionBarStatus::Loading
            &&& card.generation == before.translation_gen + 1
            &&& card.text@.len() == 0
            &&& card.source_text == source_text
            &&& card.source_sentences@.len() == 0
            &&& card.translated_sentences@.len() == 0
            &&& card.groups@.len() == 0
        })
    }

    /// Opens the card for a new translation and closes the bar. The result is
    /// the number of the request; answers to earlier ones are dropped.
    pub fn start_translation(&mut self, x: i64, y: i64, source_text: String) -> (generation: u64)
        requires
            old(self).translation_gen < u64::MAX,
        ensures
            generation == old(self).translation_gen + 1,
            final(self).translation_started(*old(self), x, y, source_text),
    {
        self.translation_gen = self.translation_gen + 1;
        self.action_bar = None;
        self.translation = Some(
            TranslationCardState {
                x,
                y,
                status: ActionBarStatus::Loading,
                generation: self.translation_gen,
                text: String::new(),
                source_text,
                source_sentences: Vec::new(),
                translated_sentences: Vec::new(),
                groups: Vec::new(),
            },
        );
        self.translation_gen
    }

    /// The card still waits for the answer to request `generation`.
    pub open spec fn awaits(self, generation: u64) -> bool {
        self.translation is Some && self.translation->0.generation == generation
    }

    /// Shows what has come so far; dropped where the card is for another request.
    pub fn set_card_text(&mut self, generation: u64, text: String)
        ensures
            !old(self).awaits(generation) ==> *final(self) == *old(self),
            old(self).awaits(generation) ==> *final(self) == (ReaderSession {
                translation: Some(TranslationCardState { text, ..old(self).translation->0 }),
                ..*old(self)
            }),
    {
        match self.translation.take() {
            None => {},
            Some(card) => {
                if card.generation == generation {
                    let mut c = card;
                    c.text = text;
                    self.translation = Some(c);
                } else {
                    self.translation = Some(card);
                }
            },
        }
    }

    /// Shows how a translation ended; dropped where the card is for another
    /// request.
    pub fn finish_translation(&mut self, generation: u64, outcome: TranslationOutcome)
        ensures
            !old(self).awaits(generation) ==> *final(self) == *old(self),
            old(self).awaits(generation) ==> *final(self) == (ReaderSession {
                translation: Some(finished_card(old(self).translation->0, outcome)),
                ..*old(self)
            }),
    {
        match self.translation.take() {
            None => {},
            Some(card) => {
                if card.generation == generation {
                    let mut c = card;
                    match outcome {
                        TranslationOutcome::Failed(text) => {
                            c.status = ActionBarStatus::Error;
                            c.text = text;
                        },
                        TranslationOutcome::Done(text, alignment) => {
                            c.status = ActionBarStatus::Success;
                            c.text = text;
                            c.source_text = alignment.source_text;
                            c.source_sentences = alignment.source_sentences;
                            c.translated_sentences = alignment.translated_sentences;
                            c.groups = alignment.groups;
                        },
                    }
                    self.translation = Some(c);
                } else {
                    self.translation = Some(card);
                }
            },
        }
    }

    /// Moves the card with the mouse: from its old place by as much as the mouse
    /// has moved, and not beyond the upper left corner.
    pub fn drag_card(&mut self, origin: (i64, i64), start: (i64, i64), now: (i64, i64))
        requires
            i64::MIN <= origin.0 + now.0 - start.0 <= i64::MAX,
            i64::MIN <= origin.1 + now.1 - start.1 <= i64::MAX,
        ensures
            old(self).translation is None ==> *final(self) == *old(self),
            old(self).translation is Some ==> *final(self) == (ReaderSession {
                translation: Some(
                    TranslationCardState {
                        x: larger(origin.0 + now.0 - start.0, 0) as i64,
                        y: larger(origin.1 + now.1 - start.1, 0) as i64,
                        ..old(self).translation->0
                    },
                ),
                ..*old(self)
            }),
    {
        match self.translation.take() {
            None => {},
            Some(card) => {
                let mut c = card;
                let x: i128 = (origin.0 as i128) + ((now.0 as i128) - (start.0 as i128));
                let y: i128 = (origin.1 as i128) + ((now.1 as i128) - (start.1 as i128));
                c.x = if x >= 0 {
                    x as i64
                } else {
                    0
                };
                c.y = if y >= 0 {
                    y as i64
                } else {
                    0
                };
                self.translation = Some(c);
            },
        }
    }
}

/// The texts of a translation, sentence by sentence.
#[derive(Debug)]
pub struct Alignment {
    pub source_text: String,
    pub source_sentences: Vec<String>,
    pub translated_sentences: Vec<String>,
    pub groups: Vec<(usize, usize)>,
}

/// How a translation ended.
#[derive(Debug)]
pub enum TranslationOutcome {
    Failed(String),
    Done(String, Alignment),
}

/// The card once the translation has ended.
pub open spec fn finished_card(card: TranslationCardState, outcome: TranslationOutcome) -> TranslationCardState {
    match outcome {
        TranslationOutcome::Failed(text) => TranslationCardState { status: ActionBarStatus::Error, text, ..card },
        TranslationOutcome::Done(text, a) => TranslationCardState {
            status: ActionBarStatus::Success,
            text,
            source_text: a.source_text,
            source_sentences: a.source_sentences,
            translated_sentences: a.translated_sentences,
            groups: a.groups,
            ..card
        },
    }
}

/// Where the card of a translation opens in a window of `width` by `height`
/// thousandths of a pixel: in the middle, for a card of 720 pixels or what the
/// window leaves, and 0.6 of the window's height.
pub fn card_place(width: i64, height: i64) -> (r: (i64, i64))
    ensures
        r.0 == larger((width - smaller(720_000, larger(width - 48_000, 0))) / 2, 0),
        r.1 == larger(height / 5, 0),
{
    let room: i128 = (width as i128) - 48_000;
    let room: i128 = if room >= 0 {
        room
    } else {
        0
    };
    let card: i128 = if room <= 720_000 {
        room
    } else {
        720_000
    };
    let free: i128 = (width as i128) - card;
    let x: i64 = if free > 0 {
        (free / 2) as i64
    } else {
        0
    };
    let y: i64 = if height > 0 {
        height / 5
    } else {
        0
    };
    (x, y)
}

/// Texts one below the other.
pub fn join_lines(parts: &Vec<String>) -> (out: String)
    ensures
        out@ == joined_lines(views(parts@)),
{
    let mut out = String::new();
    let mut i: usize = 0;
    let ghost all = views(parts@);
    assert(all.take(0) =~= Seq::<Seq<char>>::empty());
    while i < parts.len()
        invariant
            i <= parts@.len(),
            all == views(parts@),
            out@ == joined_lines(all.take(i as int)),
        decreases parts@.len() - i,
    {
        let ghost before = out@;
        if i > 0 {
            out.push('\n');
        }
        out.append(parts[i].as_str());
        proof {
            let t = all.take(i + 1);
            assert(t.drop_last() =~= all.take(i as int));
            assert(t.last() == parts@[i as int]@);
            if i == 0 {
                assert(out@ =~= parts@[0]@);
            } else {
                assert(out@ =~= before + seq!['\n'] + parts@[i as int]@);
            }
        }
        i = i + 1;
    }
    assert(all.take(i as int) =~= all);
    out
}

/// The finished parts of a translation, one to a line, and below them what has
/// come of the next one.
pub open spec fn shown_text(parts: Seq<Seq<char>>, visible: Seq<char>) -> Seq<char> {
    let done = joined_lines(parts);
    if done.len() > 0 {
        done + seq!['\n'] + visible
    } else {
        visible
    }
}

/// What the card shows while a translation comes in.
pub fn stream_display(parts: &Vec<String>, visible: &str) -> (out: String)
    ensures
        out@ == shown_text(views(parts@), visible@),
{
    let mut out = join_lines(parts);
    let ghost done = out@;
    if !out.as_str().is_empty() {
        out.push('\n');
        out.append(visible);
        assert(out@ =~= done + seq!['\n'] + visible@);
    } else {
        out.append(visible);
        assert(out@ =~= visible@);
    }
    out
}

/// The finished parts of a translation that broke off, an empty line and the
/// error; without parts the error alone.
pub open spec fn failed_text(parts: Seq<Seq<char>>, error: Seq<char>) -> Seq<char> {
    let done = joined_lines(parts);
    if done.len() > 0 {
        done + seq!['\n', '\n'] + error
    } else {
        error
    }
}

/// What the card shows when a translation broke off.
pub fn failure_text(parts: &Vec<String>, error: &str) -> (out: String)
    ensures
        out@ == failed_text(views(parts@), error@),
{
    let mut out = join_lines(parts);
    let ghost done = out@;
    if !out.as_str().is_empty() {
        out.push('\n');
        out.push('\n');
        out.append(error);
        assert(out@ =~= done + seq!['\n', '\n'] + error@);
    } else {
        out.append(error);
        assert(out@ =~= error@);
    }
    out
}

/// Which side of the card the mouse is over, and on which sentence.
#[derive(Debug, Clone, Copy, PartialEq, Eq, Structural)]
pub enum Hover {
    Source(usize),
    Translated(usize),
}

/// Translated sentence `j` belongs to source sentence `i`.
pub open spec fn aligned(groups: Seq<(usize, usize)>, i: int, j: int) -> bool {
    0 <= i < groups.len() && groups[i].0 <= j <= groups[i].1
}

/// Whether translated sentence `j` is highlighted: the mouse is over it, or over
/// the source sentence that it belongs to.
pub fn translated_highlighted(hover: Option<Hover>, groups: &Vec<(usize, usize)>, j: usize) -> (r: bool)
    ensures
        r == match hover {
            Some(Hover::Translated(k)) => k == j,
            Some(Hover::Source(i)) => aligned(groups@, i as int, j as int),
            None => false,
        },
{
    match hover {
        Some(Hover::Translated(k)) => k == j,
        Some(Hover::Source(i)) => i < groups.len() && groups[i].0 <= j && j <= groups[i].1,
        None => false,
    }
}

/// Whether source sentence `i` is highlighted: the mouse is over it, or over a
/// translated sentence whose source, `source_of_hovered`, it is.
pub fn source_highlighted(hover: Option<Hover>, source_of_hovered: Option<usize>, i: usize) -> (r: bool)
    ensures
        r == match hover {
            Some(Hover::Source(k)) => k == i,
            Some(Hover::Translated(_)) => source_of_hovered == Some(i),
            None => false,
        },
{
    match hover {
        Some(Hover::Source(k)) => k == i,
        Some(Hover::Translated(_)) => match source_of_hovered {
            Some(s) => s == i,
            None => false,
        },
        None => false,
    }
}

/// The label of the formula button.
pub open spec fn formula_label_text(status: ActionBarStatus) -> Seq<char> {
    match status {
        ActionBarStatus::Idle => "精确复制公式"@,
        ActionBarStatus::Loading => "识别中…"@,
        ActionBarStatus::Error => "识别失败，重试"@,
        ActionBarStatus::Success => "已复制 LaTeX"@,
    }
}

/// The label of the formula button.
pub fn formula_label(status: ActionBarStatus) -> (r: &'static str)
    ensures
        r@ == formula_label_text(status),
{
    match status {
        ActionBarStatus::Idle => "精确复制公式",
        ActionBarStatus::Loading => "识别中…",
        ActionBarStatus::Error => "识别失败，重试",
        ActionBarStatus::Success => "已复制 LaTeX",
    }
}

/// The style class for a status.
pub open spec fn status_class_text(status: ActionBarStatus) -> Seq<char> {
    match status {
        ActionBarStatus::Idle => ""@,
        ActionBarStatus::Loading => "is-loading"@,
        ActionBarStatus::Error => "is-error"@,
        ActionBarStatus::Success => "is-success"@,
    }
}

/// The style class for a status.
pub fn status_class(status: ActionBarStatus) -> (r: &'static str)
    ensures
        r@ == status_class_text(status),
{
    match status {
        ActionBarStatus::Idle => "",
        ActionBarStatus::Loading => "is-loading",
        ActionBarStatus::Error => "is-error",
        ActionBarStatus::Success => "is-success",
    }
}

/// A new translation makes the answers to earlier ones late: its card awaits only
/// its own.
pub proof fn a_new_translation_awaits_its_own_answer(
    before: ReaderSession,
    after: ReaderSession,
    x: i64,
    y: i64,
    source_text: String,
    generation: u64,
)
    requires
        after.translation_started(before, x, y, source_text),
        before.translation_gen < u64::MAX,
    ensures
        after.awaits(generation) <==> generation == after.translation_gen,
        generation <= before.translation_gen ==> !after.awaits(generation),
{
}

/// What is shown of a translation while it comes in is what is done, part by part, and the part
/// that is coming in on a line of its own; where it fails, the reason stands below what is done.
pub proof fn a_translation_is_shown_part_by_part(parts: Seq<Seq<char>>, visible: Seq<char>, error: Seq<char>, p: Seq<char>)
    ensures
        shown_text(Seq::empty(), visible) == visible,
        p.len() > 0 ==> shown_text(seq![p], visible) == p + seq!['\n'] + visible,
        failed_text(Seq::empty(), error) == error,
        p.len() > 0 ==> failed_text(seq![p], error) == p + seq!['\n', '\n'] + error,
        joined_lines(parts).len() > 0 ==> shown_text(parts, visible) == joined_lines(parts) + seq!['\n'] + visible,
{
    assert(seq![p][0] == p);
}

/// A selection is surely a formula when its anchor word is one, with a score of 0.45 or more.
pub proof fn a_sure_formula_has_the_score(sel: Selection)
    ensures
        sure_formula(sel) ==> sel.formula && sel.formula_score >= 450_000,
        sel.formula && sel.formula_score >= 450_000 ==> sure_formula(sel),
{
}

} // verus!
