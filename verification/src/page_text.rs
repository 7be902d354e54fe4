//! The words of a rendered page.
//!
//! Lengths are in millionths of a `cqw` (one hundredth of the page width), font
//! sizes in millionths of a point, ratios in millionths.
use crate::lines::magnitude;
use crate::text::{blank, is_blank};
use vstd::prelude::*;

verus! {

/// One `cqw` in the unit of lengths.
pub const CQW: i64 = 1_000_000;

/// The two text layers of a page: running text, and footnotes and the like.
#[derive(Debug, Clone, Copy, PartialEq, Eq, Structural)]
pub enum Layer {
    Body,
    Small,
}

/// A word as the PDF text extraction places it.
#[derive(Debug, Clone)]
pub struct OverlayWord {
    pub text: String,
    pub left_pct: i64,
    pub top_cqw: i64,
    pub width_cqw: i64,
    pub height_cqw: i64,
}

/// A line of placed words with its real font size (0 where it is unknown).
#[derive(Debug, Clone)]
pub struct OverlayLine {
    pub height_cqw: i64,
    pub font_size_pt: i64,
    pub words: Vec<OverlayWord>,
}

/// A word of a page in content order.
#[derive(Debug, Clone)]
pub struct FlatWord {
    pub line: usize,
    pub text: String,
    pub left_cqw: i64,
    pub top_cqw: i64,
    pub width_cqw: i64,
    pub height_cqw: i64,
    pub line_height_cqw: i64,
    /// Whether the word belongs to a formula.
    pub formula: bool,
    /// How sure that is, in millionths.
    pub formula_score: u32,
    /// The word that a gesture on this one acts on: a space acts on the nearest
    /// word of its line.
    pub gesture: usize,
}

/// Thresholds that are measured per document.
#[derive(Debug, Clone, Copy, PartialEq, Eq, Structural)]
pub struct DocCalibration {
    /// The distance of left edges that starts a new column.
    pub column_gap_cqw: i64,
    /// Text below this part of its column's median size is small print.
    pub small_height_ratio: i32,
    /// The part of a line's height above which a gap separates lines.
    pub vertical_gap_ratio: i32,
    /// The indentation that starts a paragraph.
    pub paragraph_indent_cqw: i64,
}

/// The thresholds in force where nothing was measured.
pub open spec fn default_calibration() -> DocCalibration {
    DocCalibration {
        column_gap_cqw: 2_000_000,
        small_height_ratio: 910_000,
        vertical_gap_ratio: 600_000,
        paragraph_indent_cqw: 1_000_000,
    }
}

impl Default for DocCalibration {
    fn default() -> (r: DocCalibration)
        ensures
            r == default_calibration(),
    {
        DocCalibration {
            column_gap_cqw: 2_000_000,
            small_height_ratio: 910_000,
            vertical_gap_ratio: 600_000,
            paragraph_indent_cqw: 1_000_000,
        }
    }
}

// ── words ──

/// A word that shows something: not all white space.
pub open spec fn inked(w: FlatWord) -> bool {
    !blank(w.text@)
}

/// Whether the word shows something.
pub fn is_inked(w: &FlatWord) -> (r: bool)
    ensures
        r == inked(*w),
{
    !is_blank(&w.text)
}

/// A copy of `w`.
pub fn copy_word(w: &FlatWord) -> (r: FlatWord)
    ensures
        r == *w,
{
    FlatWord {
        line: w.line,
        text: w.text.clone(),
        left_cqw: w.left_cqw,
        top_cqw: w.top_cqw,
        width_cqw: w.width_cqw,
        height_cqw: w.height_cqw,
        line_height_cqw: w.line_height_cqw,
        formula: w.formula,
        formula_score: w.formula_score,
        gesture: w.gesture,
    }
}

/// Word `k` of the page, on line `line`, shows something.
pub open spec fn ink_at(flat: Seq<FlatWord>, line: usize, k: int) -> bool {
    flat[k].line == line && inked(flat[k])
}

/// The last of the first `n` words that shows something on `line`.
pub open spec fn last_ink(flat: Seq<FlatWord>, line: usize, n: int) -> Option<int>
    decreases n,
{
    if n <= 0 {
        None
    } else if ink_at(flat, line, n - 1) {
        Some(n - 1)
    } else {
        last_ink(flat, line, n - 1)
    }
}

/// The first word at or behind `from` that shows something on `line`.
pub open spec fn first_ink(flat: Seq<FlatWord>, line: usize, from: int) -> Option<int>
    decreases flat.len() - from,
{
    if from >= flat.len() {
        None
    } else if ink_at(flat, line, from) {
        Some(from)
    } else {
        first_ink(flat, line, from + 1)
    }
}

/// The nearer to `i` of a place before it and a place behind it, the earlier one
/// where both are as near; `other` where there is neither.
pub open spec fn nearest(before: Option<int>, behind: Option<int>, i: int, other: int) -> int {
    match (before, behind) {
        (Some(a), Some(b)) => if i - a <= b - i {
            a
        } else {
            b
        },
        (Some(a), None) => a,
        (None, Some(b)) => b,
        (None, None) => other,
    }
}

/// The word that a gesture on word `i` acts on: the word itself, or, for a
/// space, the nearest word of its line, else itself.
pub open spec fn gesture_target(flat: Seq<FlatWord>, i: int) -> int {
    if inked(flat[i]) {
        i
    } else {
        nearest(last_ink(flat, flat[i].line, i), first_ink(flat, flat[i].line, i + 1), i, i)
    }
}

pub(crate) fn nearest_of(before: Option<usize>, behind: Option<usize>, i: usize, other: usize) -> (r: usize)
    requires
        before is Some ==> before->0 <= i,
        behind is Some ==> i <= behind->0,
    ensures
        r == nearest(
            match before {
                Some(a) => Some(a as int),
                None => None,
            },
            match behind {
                Some(b) => Some(b as int),
                None => None,
            },
            i as int,
            other as int,
        ),
{
    match (before, behind) {
        (Some(a), Some(b)) => {
            if i - a <= b - i {
                a
            } else {
                b
            }
        },
        (Some(a), None) => a,
        (None, Some(b)) => b,
        (None, None) => other,
    }
}

/// `flat` with every word's gesture target set.
pub open spec fn with_gestures(flat: Seq<FlatWord>) -> Seq<FlatWord> {
    Seq::new(
        flat.len(),
        |i: int| FlatWord { gesture: gesture_target(flat, i) as usize, ..flat[i] },
    )
}

proof fn lemma_last_ink(flat: Seq<FlatWord>, line: usize, n: int)
    requires
        n <= flat.len(),
    ensures
        match last_ink(flat, line, n) {
            Some(g) => 0 <= g < n && ink_at(flat, line, g) && forall|k: int|
                g < k < n ==> !#[trigger] ink_at(flat, line, k),
            None => forall|k: int| 0 <= k < n ==> !#[trigger] ink_at(flat, line, k),
        },
    decreases n,
{
    if n > 0 && !ink_at(flat, line, n - 1) {
        lemma_last_ink(flat, line, n - 1);
    }
}

proof fn lemma_first_ink(flat: Seq<FlatWord>, line: usize, from: int)
    requires
        0 <= from,
    ensures
        match first_ink(flat, line, from) {
            Some(g) => from <= g < flat.len() && ink_at(flat, line, g) && forall|k: int|
                from <= k < g ==> !#[trigger] ink_at(flat, line, k),
            None => forall|k: int| from <= k < flat.len() ==> !#[trigger] ink_at(flat, line, k),
        },
    decreases flat.len() - from,
{
    if from < flat.len() && !ink_at(flat, line, from) {
        lemma_first_ink(flat, line, from + 1);
    }
}

/// A gesture acts on a word of the page and of the same line, and where that
/// line shows anything, on a word that shows something: no other such word is
/// nearer, and no earlier one as near.
pub proof fn gesture_lands_on_a_word_of_the_line(flat: Seq<FlatWord>, i: int)
    requires
        0 <= i < flat.len(),
    ensures
        0 <= gesture_target(flat, i) < flat.len(),
        flat[gesture_target(flat, i)].line == flat[i].line,
        (exists|k: int| 0 <= k < flat.len() && #[trigger] ink_at(flat, flat[i].line, k))
            ==> inked(flat[gesture_target(flat, i)]),
        forall|k: int|
            0 <= k < flat.len() && #[trigger] ink_at(flat, flat[i].line, k) ==> magnitude(gesture_target(flat, i) - i)
                <= magnitude(k - i),
        forall|k: int|
            0 <= k < flat.len() && #[trigger] ink_at(flat, flat[i].line, k) && magnitude(gesture_target(flat, i) - i) == magnitude(
                k - i,
            ) ==> gesture_target(flat, i) <= k,
{
    lemma_last_ink(flat, flat[i].line, i);
    lemma_first_ink(flat, flat[i].line, i + 1);
    if inked(flat[i]) {
        assert(ink_at(flat, flat[i].line, i));
    }
}

fn find_last_ink(flat: &Vec<FlatWord>, line: usize, n: usize) -> (r: Option<usize>)
    requires
        n <= flat@.len(),
    ensures
        match r {
            Some(g) => last_ink(flat@, line, n as int) == Some(g as int) && g < n,
            None => last_ink(flat@, line, n as int) is None,
        },
{
    let mut g = n;
    while g > 0
        invariant
            g <= n <= flat@.len(),
            last_ink(flat@, line, n as int) == last_ink(flat@, line, g as int),
        decreases g,
    {
        if flat[g - 1].line == line && is_inked(&flat[g - 1]) {
            return Some(g - 1);
        }
        g = g - 1;
    }
    None
}

fn find_first_ink(flat: &Vec<FlatWord>, line: usize, from: usize) -> (r: Option<usize>)
    requires
        from <= flat@.len(),
    ensures
        match r {
            Some(g) => first_ink(flat@, line, from as int) == Some(g as int) && from <= g < flat@.len(),
            None => first_ink(flat@, line, from as int) is None,
        },
{
    let mut g = from;
    while g < flat.len()
        invariant
            from <= g <= flat@.len(),
            first_ink(flat@, line, from as int) == first_ink(flat@, line, g as int),
        decreases flat@.len() - g,
    {
        if flat[g].line == line && is_inked(&flat[g]) {
            return Some(g);
        }
        g = g + 1;
    }
    None
}

/// Sets the gesture target of every word.
pub fn assign_gestures(flat: &mut Vec<FlatWord>)
    ensures
        final(flat)@ == with_gestures(old(flat)@),
{
    let mut targets: Vec<usize> = Vec::new();
    let mut i: usize = 0;
    while i < flat.len()
        invariant
            i <= flat@.len(),
            targets@.len() == i,
            *flat == *old(flat),
            forall|k: int| 0 <= k < i ==> #[trigger] targets@[k] == gesture_target(flat@, k),
        decreases flat@.len() - i,
    {
        let mut g = i;
        if !is_inked(&flat[i]) {
            let before = find_last_ink(flat, flat[i].line, i);
            let behind = find_first_ink(flat, flat[i].line, i + 1);
            g = nearest_of(before, behind, i, i);
        }
        targets.push(g);
        i = i + 1;
    }
    let mut k: usize = 0;
    while k < flat.len()
        invariant
            k <= flat@.len(),
            flat@.len() == old(flat)@.len() == targets@.len(),
            forall|j: int|
                0 <= j < flat@.len() ==> #[trigger] targets@[j] == gesture_target(old(flat)@, j),
            forall|j: int| 0 <= j < k ==> #[trigger] flat@[j] == with_gestures(old(flat)@)[j],
            forall|j: int| k <= j < flat@.len() ==> #[trigger] flat@[j] == old(flat)@[j],
        decreases flat@.len() - k,
    {
        let g = targets[k];
        flat[k].gesture = g;
        k = k + 1;
    }
    assert(flat@ =~= with_gestures(old(flat)@));
}

/// The words of one overlay line, as words of line `idx`.
pub open spec fn words_of_line(line: OverlayLine, idx: usize, n: nat) -> Seq<FlatWord>
    decreases n,
{
    if n == 0 {
        Seq::empty()
    } else {
        let w = line.words@[n - 1];
        words_of_line(line, idx, (n - 1) as nat).push(
            FlatWord {
                line: idx,
                text: w.text,
                left_cqw: w.left_pct,
                top_cqw: w.top_cqw,
                width_cqw: w.width_cqw,
                height_cqw: w.height_cqw,
                line_height_cqw: line.height_cqw,
                formula: false,
                formula_score: 0,
                gesture: 0,
            },
        )
    }
}

/// The words of the first `n` overlay lines, in order.
pub open spec fn words_of_lines(overlay: Seq<OverlayLine>, n: nat) -> Seq<FlatWord>
    decreases n,
{
    if n == 0 {
        Seq::empty()
    } else {
        words_of_lines(overlay, (n - 1) as nat) + words_of_line(
            overlay[n - 1],
            (n - 1) as usize,
            overlay[n - 1].words@.len(),
        )
    }
}

/// The words of a page: all lines' words in order, with their gesture targets.
pub open spec fn flat_words(overlay: Seq<OverlayLine>) -> Seq<FlatWord> {
    with_gestures(words_of_lines(overlay, overlay.len()))
}

/// The words of a page in content order, none of them marked as formula.
pub fn build_flat(overlay: &[OverlayLine]) -> (flat: Vec<FlatWord>)
    ensures
        flat@ == flat_words(overlay@),
{
    let mut flat: Vec<FlatWord> = Vec::new();
    let mut i: usize = 0;
    while i < overlay.len()
        invariant
            i <= overlay@.len(),
            flat@ == words_of_lines(overlay@, i as nat),
        decreases overlay@.len() - i,
    {
        let line = &overlay[i];
        let mut k: usize = 0;
        assert(flat@ =~= words_of_lines(overlay@, i as nat) + words_of_line(*line, i, 0));
        while k < line.words.len()
            invariant
                k <= line.words@.len(),
                flat@ == words_of_lines(overlay@, i as nat) + words_of_line(*line, i, k as nat),
            decreases line.words@.len() - k,
        {
            let w = &line.words[k];
            flat.push(
                FlatWord {
                    line: i,
                    text: w.text.clone(),
                    left_cqw: w.left_pct,
                    top_cqw: w.top_cqw,
                    width_cqw: w.width_cqw,
                    height_cqw: w.height_cqw,
                    line_height_cqw: line.height_cqw,
                    formula: false,
                    formula_score: 0,
                    gesture: 0,
                },
            );
            k = k + 1;
            assert(flat@ =~= words_of_lines(overlay@, i as nat) + words_of_line(
                *line,
                i,
                k as nat,
            ));
        }
        i = i + 1;
    }
    assign_gestures(&mut flat);
    flat
}

/// How many words stand before line `l`.
pub open spec fn words_before_line(overlay: Seq<OverlayLine>, l: nat) -> nat
    decreases l,
{
    if l == 0 {
        0
    } else {
        words_before_line(overlay, (l - 1) as nat) + overlay[l - 1].words@.len()
    }
}

proof fn lemma_line_words(line: OverlayLine, idx: usize, n: nat)
    requires
        n <= line.words@.len(),
    ensures
        words_of_line(line, idx, n).len() == n,
        forall|j: int| 0 <= j < n ==> word_stands(#[trigger] words_of_line(line, idx, n)[j], line, idx, j),
    decreases n,
{
    if n > 0 {
        lemma_line_words(line, idx, (n - 1) as nat);
    }
}

/// The word is the `j`th one of a line of the page, in its place and size.
pub open spec fn word_stands(w: FlatWord, line: OverlayLine, l: usize, j: int) -> bool {
    &&& w.line == l
    &&& w.text == line.words@[j].text
    &&& w.left_cqw == line.words@[j].left_pct
    &&& w.top_cqw == line.words@[j].top_cqw
    &&& w.width_cqw == line.words@[j].width_cqw
    &&& w.height_cqw == line.words@[j].height_cqw
    &&& w.line_height_cqw == line.height_cqw
    &&& !w.formula
    &&& w.formula_score == 0
}

proof fn lemma_page_words(overlay: Seq<OverlayLine>, n: nat, l: int, j: int)
    requires
        n <= overlay.len() <= usize::MAX,
        0 <= l < n,
        0 <= j < overlay[l].words@.len(),
    ensures
        words_of_lines(overlay, n).len() == words_before_line(overlay, n),
        words_before_line(overlay, l as nat) + j < words_before_line(overlay, n),
        word_stands(words_of_lines(overlay, n)[words_before_line(overlay, l as nat) + j], overlay[l], l as usize, j),
    decreases n,
{
    let m = (n - 1) as nat;
    let own = words_of_line(overlay[n - 1], m as usize, overlay[n - 1].words@.len());
    lemma_line_words(overlay[n - 1], m as usize, overlay[n - 1].words@.len());
    lemma_page_word_count(overlay, m);
    if l < m {
        lemma_page_words(overlay, m, l, j);
    } else {
        assert(word_stands(own[j], overlay[l], l as usize, j));
    }
}

proof fn lemma_page_word_count(overlay: Seq<OverlayLine>, n: nat)
    requires
        n <= overlay.len(),
    ensures
        words_of_lines(overlay, n).len() == words_before_line(overlay, n),
    decreases n,
{
    if n > 0 {
        lemma_page_word_count(overlay, (n - 1) as nat);
        lemma_line_words(overlay[n - 1], (n - 1) as usize, overlay[n - 1].words@.len());
    }
}

/// The words of a page are the words of its lines, line by line, each with the number of its
/// line, its text, its place and its size.
pub proof fn a_page_holds_the_words_of_its_lines(overlay: Seq<OverlayLine>, l: int, j: int)
    requires
        overlay.len() <= usize::MAX,
        0 <= l < overlay.len(),
        0 <= j < overlay[l].words@.len(),
    ensures
        flat_words(overlay).len() == words_before_line(overlay, overlay.len()),
        words_before_line(overlay, l as nat) + j < flat_words(overlay).len(),
        word_stands(flat_words(overlay)[words_before_line(overlay, l as nat) + j], overlay[l], l as usize, j),
{
    lemma_page_words(overlay, overlay.len(), l, j);
}

/// A word shows something exactly when one of its characters is not white space.
pub proof fn a_word_shows_what_is_not_white_space(w: FlatWord)
    ensures
        inked(w) <==> exists|i: int| 0 <= i < w.text@.len() && !crate::text::is_space(#[trigger] w.text@[i]),
{
}

/// Where nothing else is known of a document, columns are parted by two `cqw`, small print has
/// less than 0.91 of the usual size, formulas stand apart from 0.6 of their height on, and a
/// paragraph is indented by more than one `cqw`.
pub proof fn the_usual_thresholds()
    ensures
        default_calibration().column_gap_cqw == 2 * 1_000_000,
        default_calibration().small_height_ratio * 100 == 91 * 1_000_000,
        default_calibration().vertical_gap_ratio * 10 == 6 * 1_000_000,
        default_calibration().paragraph_indent_cqw == 1_000_000,
{
}

} // verus!
