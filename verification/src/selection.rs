//! Selections of words on pages.
use crate::lines::magnitude;
use crate::page_text::{inked, is_inked, nearest, nearest_of, FlatWord, Layer};
use vstd::prelude::*;

verus! {

/// One step of a selection: the words `lo..=hi` of a page.
#[derive(Debug, Clone, Copy, PartialEq, Eq, Structural)]
pub struct SelectionStep {
    pub page: u32,
    pub lo: usize,
    pub hi: usize,
    /// Where it is given, only the words of the column with this left edge
    /// count.
    pub column_left: Option<i64>,
}

/// A selection: steps in reading order, over columns and one page break at most.
#[derive(Debug, Clone)]
pub struct Selection {
    pub layer: Layer,
    pub steps: Vec<SelectionStep>,
    /// Whether the selection is treated as a formula.
    pub formula: bool,
    /// The formula score of the anchor word, in millionths.
    pub formula_score: u32,
    /// The word where the selection was started.
    pub anchor: Option<(u32, Layer, usize)>,
}

/// The last word of the first `n` that shows something.
pub open spec fn last_inked(flat: Seq<FlatWord>, n: int) -> Option<int>
    decreases n,
{
    if n <= 0 {
        None
    } else if inked(flat[n - 1]) {
        Some(n - 1)
    } else {
        last_inked(flat, n - 1)
    }
}

/// The first word at or behind `from` that shows something.
pub open spec fn first_inked(flat: Seq<FlatWord>, from: int) -> Option<int>
    decreases flat.len() - from,
{
    if from >= flat.len() {
        None
    } else if inked(flat[from]) {
        Some(from)
    } else {
        first_inked(flat, from + 1)
    }
}

/// The word that place `idx` stands for: the nearest one that shows something,
/// else the last word of the page.
pub open spec fn snapped(flat: Seq<FlatWord>, idx: int) -> int {
    if flat.len() == 0 {
        0
    } else {
        let i = if idx < flat.len() {
            idx
        } else {
            flat.len() - 1
        };
        nearest(last_inked(flat, i + 1), first_inked(flat, i), i, flat.len() - 1)
    }
}

proof fn lemma_last_inked(flat: Seq<FlatWord>, n: int)
    requires
        n <= flat.len(),
    ensures
        match last_inked(flat, n) {
            Some(g) => 0 <= g < n && inked(flat[g]) && forall|k: int|
                g < k < n ==> !inked(#[trigger] flat[k]),
            None => forall|k: int| 0 <= k < n ==> !inked(#[trigger] flat[k]),
        },
    decreases n,
{
    if n > 0 && !inked(flat[n - 1]) {
        lemma_last_inked(flat, n - 1);
    }
}

pub(crate) proof fn lemma_first_inked(flat: Seq<FlatWord>, from: int)
    requires
        0 <= from,
    ensures
        match first_inked(flat, from) {
            Some(g) => from <= g < flat.len() && inked(flat[g]) && forall|k: int|
                from <= k < g ==> !inked(#[trigger] flat[k]),
            None => forall|k: int| from <= k < flat.len() ==> !inked(#[trigger] flat[k]),
        },
    decreases flat.len() - from,
{
    if 0 <= from < flat.len() && !inked(flat[from]) {
        lemma_first_inked(flat, from + 1);
    }
}

/// Snapping lands on the page, leaves a word that shows something where it is,
/// lands on such a word wherever the page has one, no other being nearer and no
/// earlier one as near, and changes nothing when done twice. A place behind the
/// page stands for its last word, and so does any place of a page that shows nothing.
pub proof fn snapping_lands_on_a_word(flat: Seq<FlatWord>, idx: int)
    requires
        0 <= idx,
        flat.len() > 0,
    ensures
        0 <= snapped(flat, idx) < flat.len(),
        idx < flat.len() && inked(flat[idx]) ==> snapped(flat, idx) == idx,
        (exists|k: int| 0 <= k < flat.len() && inked(#[trigger] flat[k])) ==> inked(
            flat[snapped(flat, idx)],
        ),
        snapped(flat, snapped(flat, idx)) == snapped(flat, idx),
        forall|k: int|
            0 <= k < flat.len() && idx < flat.len() && inked(#[trigger] flat[k]) ==> magnitude(snapped(flat, idx) - idx)
                <= magnitude(k - idx),
        forall|k: int|
            0 <= k < flat.len() && idx < flat.len() && inked(#[trigger] flat[k]) && magnitude(snapped(flat, idx) - idx) == magnitude(
                k - idx,
            ) ==> snapped(flat, idx) <= k,
        idx >= flat.len() ==> snapped(flat, idx) == snapped(flat, flat.len() - 1),
        (forall|k: int| 0 <= k < flat.len() ==> !inked(#[trigger] flat[k])) ==> snapped(flat, idx) == flat.len() - 1,
{
    let i = if idx < flat.len() {
        idx
    } else {
        flat.len() - 1
    };
    lemma_last_inked(flat, i + 1);
    lemma_first_inked(flat, i);
    let s = snapped(flat, idx);
    lemma_last_inked(flat, s + 1);
    lemma_first_inked(flat, s);
}

/// The word that place `idx` stands for.
#[verifier::loop_isolation(false)]
pub fn snap_to_word(flat: &[FlatWord], idx: usize) -> (r: usize)
    ensures
        r == snapped(flat@, idx as int),
        flat@.len() > 0 ==> r < flat@.len(),
{
    let n = flat.len();
    if n == 0 {
        return 0;
    }
    let at = if idx < n {
        idx
    } else {
        n - 1
    };
    let mut i = at + 1;
    let mut before: Option<usize> = None;
    while i > 0 && before.is_none()
        invariant
            i <= at + 1,
            match before {
                Some(g) => last_inked(flat@, at + 1) == Some(g as int) && g <= at,
                None => last_inked(flat@, at + 1) == last_inked(flat@, i as int),
            },
        decreases i,
    {
        if is_inked(&flat[i - 1]) {
            before = Some(i - 1);
        }
        i = i - 1;
    }
    let mut j = at;
    let mut behind: Option<usize> = None;
    while j < n && behind.is_none()
        invariant
            at <= j <= n,
            match behind {
                Some(g) => first_inked(flat@, at as int) == Some(g as int) && at <= g < n,
                None => first_inked(flat@, at as int) == first_inked(flat@, j as int),
            },
        decreases n - j,
    {
        if is_inked(&flat[j]) {
            behind = Some(j);
        }
        j = j + 1;
    }
    nearest_of(before, behind, at, n - 1)
}

} // verus!
