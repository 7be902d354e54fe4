//! The text of selections, as it is copied.
use crate::lines::{first_height_of, in_column, larger, line_box, line_shows, top_of, ColumnFilter};
use crate::page_text::{default_calibration, first_ink, ink_at, inked, is_inked, last_ink, DocCalibration, FlatWord, Layer};
use crate::selection::{Selection, SelectionStep};
use crate::symbols::{cjk_char, is_cjk};
use crate::text::{first_visible, first_visible_char, is_space, last_visible, last_visible_char};
use std::collections::HashMap;
use vstd::prelude::*;

verus! {

broadcast use vstd::std_specs::hash::group_hash_axioms;

/// A rendered page: its image, the words of its layers, its size in thousandths
/// of a point, and what went wrong with its text.
#[derive(Debug)]
pub struct RenderedPage {
    pub src: String,
    pub body: Vec<FlatWord>,
    pub small: Vec<FlatWord>,
    pub w_pt: u32,
    pub h_pt: u32,
    pub warning: Option<String>,
}

/// The words of one layer.
pub open spec fn layer_of(page: RenderedPage, layer: Layer) -> Seq<FlatWord> {
    match layer {
        Layer::Body => page.body@,
        Layer::Small => page.small@,
    }
}

/// The words of one layer.
pub fn layer_flat(page: &RenderedPage, layer: Layer) -> (r: &Vec<FlatWord>)
    ensures
        r@ == layer_of(*page, layer),
{
    match layer {
        Layer::Body => &page.body,
        Layer::Small => &page.small,
    }
}

// ── line breaks ──

/// The step from line `a` to line `b` ends a paragraph: the space between them
/// is more than 1.25 of the taller one (of 0.6 `cqw` at least), or one of them
/// shows nothing.
pub open spec fn paragraph_break(flat: Seq<FlatWord>, a: usize, b: usize) -> bool {
    if !line_shows(flat, a) || !line_shows(flat, b) {
        true
    } else {
        let space = top_of(flat, b) - (top_of(flat, a) + first_height_of(flat, a));
        let tall = larger(larger(first_height_of(flat, a), first_height_of(flat, b)), 600_000);
        4 * space > 5 * tall
    }
}

/// The last character of line `a`, a space where there is none.
pub open spec fn line_last_char(flat: Seq<FlatWord>, a: usize) -> char {
    match last_ink(flat, a, flat.len() as int) {
        Some(k) => match last_visible(flat[k].text@) {
            Some(c) => c,
            None => ' ',
        },
        None => ' ',
    }
}

/// The first character of line `b`, a space where there is none.
pub open spec fn line_first_char(flat: Seq<FlatWord>, b: usize) -> char {
    match first_ink(flat, b, 0) {
        Some(k) => match first_visible(flat[k].text@) {
            Some(c) => c,
            None => ' ',
        },
        None => ' ',
    }
}

/// What joins two lines of one paragraph: nothing between ideographs, else a
/// space.
pub open spec fn line_join(flat: Seq<FlatWord>, a: usize, b: usize) -> Seq<char> {
    if cjk_char(line_last_char(flat, a)) && cjk_char(line_first_char(flat, b)) {
        Seq::empty()
    } else {
        seq![' ']
    }
}

/// What stands for the step from line `a` to line `b`.
pub open spec fn separator(flat: Seq<FlatWord>, a: usize, b: usize) -> Seq<char> {
    if a == b {
        Seq::empty()
    } else if paragraph_break(flat, a, b) {
        seq!['\n']
    } else {
        line_join(flat, a, b)
    }
}

/// Whether the step from line `a` to line `b` ends a paragraph.
pub fn is_paragraph_break(flat: &[FlatWord], a: usize, b: usize) -> (r: bool)
    ensures
        r == paragraph_break(flat@, a, b),
{
    match (line_box(flat, a), line_box(flat, b)) {
        (Some(x), Some(y)) => {
            let space: i128 = (y.top as i128) - ((x.top as i128) + (x.first_height as i128));
            let mut tall: i128 = 600_000;
            if (x.first_height as i128) > tall {
                tall = x.first_height as i128;
            }
            if (y.first_height as i128) > tall {
                tall = y.first_height as i128;
            }
            4 * space > 5 * tall
        },
        _ => true,
    }
}

fn last_char_of_line(flat: &[FlatWord], a: usize) -> (r: char)
    ensures
        r == line_last_char(flat@, a),
{
    let mut i = flat.len();
    while i > 0
        invariant
            i <= flat@.len(),
            last_ink(flat@, a, flat@.len() as int) == last_ink(flat@, a, i as int),
        decreases i,
    {
        if flat[i - 1].line == a && is_inked(&flat[i - 1]) {
            return match last_visible_char(&flat[i - 1].text) {
                Some(c) => c,
                None => ' ',
            };
        }
        i = i - 1;
    }
    ' '
}

fn first_char_of_line(flat: &[FlatWord], b: usize) -> (r: char)
    ensures
        r == line_first_char(flat@, b),
{
    let mut i: usize = 0;
    while i < flat.len()
        invariant
            i <= flat@.len(),
            first_ink(flat@, b, 0) == first_ink(flat@, b, i as int),
        decreases flat@.len() - i,
    {
        if flat[i].line == b && is_inked(&flat[i]) {
            return match first_visible_char(&flat[i].text) {
                Some(c) => c,
                None => ' ',
            };
        }
        i = i + 1;
    }
    ' '
}

/// Appends what stands for the step from line `a` to line `b`.
pub(crate) fn push_separator(out: &mut String, flat: &[FlatWord], a: usize, b: usize)
    ensures
        final(out)@ == old(out)@ + separator(flat@, a, b),
{
    if a != b {
        if is_paragraph_break(flat, a, b) {
            out.push('\n');
        } else if !(is_cjk(last_char_of_line(flat, a)) && is_cjk(first_char_of_line(flat, b))) {
            out.push(' ');
        }
    }
    assert(out@ =~= old(out)@ + separator(flat@, a, b));
}

// ── the text of a step ──

/// The first word from `k` on, up to `hi`, that counts for the column; `hi + 1`
/// where there is none.
pub open spec fn next_counting(flat: Seq<FlatWord>, gap: int, col: Option<i64>, k: int, hi: int) -> int
    decreases hi + 1 - k,
{
    if k > hi {
        hi + 1
    } else if in_column(flat, gap, col, k) {
        k
    } else {
        next_counting(flat, gap, col, k + 1, hi)
    }
}

/// What word `i` adds to the text, `next` being the word that counts behind it:
/// the word, save a space at the end of its line, and the step to the next line.
pub open spec fn word_text(flat: Seq<FlatWord>, i: int, next: int, hi: int) -> Seq<char> {
    let line_end = next > hi || flat[next].line != flat[i].line;
    let own = if !inked(flat[i]) && line_end {
        Seq::empty()
    } else {
        flat[i].text@
    };
    if next <= hi {
        own + separator(flat, flat[i].line, flat[next].line)
    } else {
        own
    }
}

/// The text of the words `i..=hi` that count for the column.
pub open spec fn text_of_words(flat: Seq<FlatWord>, gap: int, col: Option<i64>, i: int, hi: int) -> Seq<char>
    decreases hi + 1 - i,
{
    if i > hi {
        Seq::empty()
    } else if !in_column(flat, gap, col, i) {
        text_of_words(flat, gap, col, i + 1, hi)
    } else {
        word_text(flat, i, next_counting(flat, gap, col, i + 1, hi), hi) + text_of_words(
            flat,
            gap,
            col,
            i + 1,
            hi,
        )
    }
}

/// The last place of a step on its page.
pub open spec fn last_place(flat: Seq<FlatWord>, hi: int) -> int {
    if hi < flat.len() {
        hi
    } else {
        flat.len() - 1
    }
}

/// The text of the words `lo..=hi`, as far as they are on the page.
pub open spec fn step_text(flat: Seq<FlatWord>, gap: int, lo: int, hi: int, col: Option<i64>) -> Seq<char> {
    text_of_words(flat, gap, col, lo, last_place(flat, hi))
}

pub(crate) fn find_counting(
    flat: &[FlatWord],
    filter: &ColumnFilter,
    col: Option<i64>,
    k: usize,
    hi: usize,
    Ghost(gap): Ghost<int>,
) -> (r: usize)
    requires
        filter.of(flat@, gap),
        hi < flat@.len(),
        k <= hi + 1,
    ensures
        r == next_counting(flat@, gap, col, k as int, hi as int),
        k <= r <= hi + 1,
        r <= hi ==> in_column(flat@, gap, col, r as int),
        forall|j: int| k <= j < r ==> !in_column(flat@, gap, col, j),
{
    let n = flat.len();
    let mut j = k;
    while j <= hi
        invariant
            k <= j <= hi + 1 <= n,
            n == flat@.len(),
            filter.of(flat@, gap),
            next_counting(flat@, gap, col, k as int, hi as int) == next_counting(flat@, gap, col, j as int, hi as int),
            forall|i: int| k <= i < j ==> !in_column(flat@, gap, col, i),
        decreases hi + 1 - j,
    {
        if filter.admits(flat, j, col, Ghost(gap)) {
            return j;
        }
        j = j + 1;
    }
    j
}

proof fn lemma_skip(flat: Seq<FlatWord>, gap: int, col: Option<i64>, k: int, r: int, hi: int)
    requires
        k <= r <= hi + 1,
        forall|j: int| k <= j < r ==> !in_column(flat, gap, col, j),
    ensures
        text_of_words(flat, gap, col, k, hi) == text_of_words(flat, gap, col, r, hi),
    decreases r - k,
{
    if k < r {
        lemma_skip(flat, gap, col, k + 1, r, hi);
    }
}

/// The text of the words `lo..=hi`: with a column, only its words; lines of one
/// paragraph are joined, paragraphs stand on lines of their own.
pub fn copy_text_with(flat: &[FlatWord], lo: usize, hi: usize, col: Option<i64>, column_gap_cqw: i64) -> (r: String)
    ensures
        r@ == step_text(flat@, column_gap_cqw as int, lo as int, hi as int, col),
{
    let n = flat.len();
    let mut out = String::new();
    if n == 0 || lo > hi {
        return out;
    }
    let ghost gap = column_gap_cqw as int;
    let hi = if hi < n {
        hi
    } else {
        n - 1
    };
    let filter = ColumnFilter::new(flat, column_gap_cqw);
    let ghost all = text_of_words(flat@, gap, col, lo as int, hi as int);
    let mut i = lo;
    assert(out@ + all =~= all);
    while i <= hi
        invariant
            i <= hi ==> i < n,
            hi < n == flat@.len(),
            filter.of(flat@, gap),
            all == out@ + text_of_words(flat@, gap, col, i as int, hi as int),
        decreases hi + 1 - i,
    {
        if !filter.admits(flat, i, col, Ghost(gap)) {
            i = i + 1;
            continue;
        }
        let ghost before = out@;
        let next = find_counting(flat, &filter, col, i + 1, hi, Ghost(gap));
        let line_end = next > hi || flat[next].line != flat[i].line;
        if is_inked(&flat[i]) || !line_end {
            out.append(flat[i].text.as_str());
        }
        if next <= hi {
            push_separator(&mut out, flat, flat[i].line, flat[next].line);
        }
        proof {
            assert(out@ =~= before + word_text(flat@, i as int, next as int, hi as int));
            lemma_skip(flat@, gap, col, i + 1, next as int, hi as int);
            assert(out@ + text_of_words(flat@, gap, col, next as int, hi as int) =~= before + (word_text(
                flat@,
                i as int,
                next as int,
                hi as int,
            ) + text_of_words(flat@, gap, col, i + 1, hi as int)));
        }
        i = next;
    }
    assert(out@ + Seq::<char>::empty() =~= out@);
    out
}

/// As `copy_text_with`, with the usual column gap.
pub fn copy_text_filtered(flat: &[FlatWord], lo: usize, hi: usize, col: Option<i64>) -> (r: String)
    ensures
        r@ == step_text(flat@, default_calibration().column_gap_cqw as int, lo as int, hi as int, col),
{
    copy_text_with(flat, lo, hi, col, DocCalibration::default().column_gap_cqw)
}

// ── the text of a selection ──

/// The parts, one to a line.
pub open spec fn joined_lines(parts: Seq<Seq<char>>) -> Seq<char>
    decreases parts.len(),
{
    if parts.len() == 0 {
        Seq::empty()
    } else if parts.len() == 1 {
        parts[0]
    } else {
        joined_lines(parts.drop_last()) + seq!['\n'] + parts.last()
    }
}

/// Every page that the first `n` steps need is there.
pub open spec fn pages_present(pages: Map<u32, RenderedPage>, steps: Seq<SelectionStep>, n: int) -> bool {
    forall|k: int| 0 <= k < n ==> pages.contains_key(#[trigger] steps[k].page)
}

/// The words that a step is about.
pub open spec fn step_words(pages: Map<u32, RenderedPage>, layer: Layer, step: SelectionStep) -> Seq<FlatWord> {
    layer_of(pages[step.page], layer)
}

/// The texts of the steps.
pub open spec fn step_texts(
    pages: Map<u32, RenderedPage>,
    layer: Layer,
    steps: Seq<SelectionStep>,
    gap: int,
) -> Seq<Seq<char>> {
    steps.map_values(
        |s: SelectionStep|
            step_text(step_words(pages, layer, s), gap, s.lo as int, s.hi as int, s.column_left),
    )
}

/// The text of a selection, one step to a line; none where a page is missing.
pub fn copy_steps_with(sel: &Selection, pages: &HashMap<u32, RenderedPage>, column_gap_cqw: i64) -> (r: Option<String>)
    ensures
        r is Some <==> pages_present(pages@, sel.steps@, sel.steps@.len() as int),
        r is Some ==> r->0@ == joined_lines(step_texts(pages@, sel.layer, sel.steps@, column_gap_cqw as int)),
{
    let ghost gap = column_gap_cqw as int;
    let ghost texts = step_texts(pages@, sel.layer, sel.steps@, gap);
    let mut out = String::new();
    let mut i: usize = 0;
    assert(texts.take(0) =~= Seq::<Seq<char>>::empty());
    while i < sel.steps.len()
        invariant
            i <= sel.steps@.len(),
            gap == column_gap_cqw,
            texts == step_texts(pages@, sel.layer, sel.steps@, gap),
            pages_present(pages@, sel.steps@, i as int),
            out@ == joined_lines(texts.take(i as int)),
        decreases sel.steps@.len() - i,
    {
        let step = sel.steps[i];
        let page = match pages.get(&step.page) {
            Some(p) => p,
            None => {
                assert(!pages@.contains_key(sel.steps@[i as int].page));
                return None;
            },
        };
        let part = copy_text_with(layer_flat(page, sel.layer), step.lo, step.hi, step.column_left, column_gap_cqw);
        let ghost before = out@;
        if i > 0 {
            out.push('\n');
        }
        out.append(part.as_str());
        proof {
            assert(part@ == texts[i as int]);
            let t = texts.take(i + 1);
            assert(t.drop_last() =~= texts.take(i as int));
            assert(t.last() == part@);
            assert(out@ =~= joined_lines(t)) by {
                if i == 0 {
                    assert(out@ =~= part@);
                } else {
                    assert(out@ =~= before + seq!['\n'] + part@);
                }
            }
        }
        i = i + 1;
    }
    assert(texts.take(i as int) =~= texts);
    Some(out)
}

/// As `copy_steps_with`, with the usual column gap.
pub fn copy_steps(sel: &Selection, pages: &HashMap<u32, RenderedPage>) -> (r: Option<String>)
    ensures
        r is Some <==> pages_present(pages@, sel.steps@, sel.steps@.len() as int),
        r is Some ==> r->0@ == joined_lines(
            step_texts(pages@, sel.layer, sel.steps@, default_calibration().column_gap_cqw as int),
        ),
{
    copy_steps_with(sel, pages, DocCalibration::default().column_gap_cqw)
}

// ── what a copy holds ──

/// What can be seen of a text: its characters without the white space.
pub open spec fn seen(s: Seq<char>) -> Seq<char> {
    s.filter(|c: char| !is_space(c))
}

/// What can be seen of the words `k..=hi` that count for the column, one behind the other.
pub open spec fn seen_of_words(flat: Seq<FlatWord>, gap: int, col: Option<i64>, k: int, hi: int) -> Seq<char>
    decreases hi + 1 - k,
{
    if k > hi {
        Seq::empty()
    } else if in_column(flat, gap, col, k) {
        seen(flat[k].text@) + seen_of_words(flat, gap, col, k + 1, hi)
    } else {
        seen_of_words(flat, gap, col, k + 1, hi)
    }
}

/// What can be seen of the first `n` steps: of each the words of the layer, on its page.
pub open spec fn seen_of_steps(pages: Map<u32, RenderedPage>, layer: Layer, steps: Seq<SelectionStep>, gap: int, n: nat) -> Seq<char>
    decreases n,
{
    if n == 0 {
        Seq::empty()
    } else {
        let s = steps[n - 1];
        let words = match layer {
            Layer::Body => pages[s.page].body@,
            Layer::Small => pages[s.page].small@,
        };
        let hi: int = if s.hi < words.len() {
            s.hi as int
        } else {
            words.len() - 1
        };
        seen_of_steps(pages, layer, steps, gap, (n - 1) as nat) + seen_of_words(words, gap, s.column_left, s.lo as int, hi)
    }
}

pub(crate) proof fn lemma_seen_parts(a: Seq<char>, b: Seq<char>)
    ensures
        seen(a + b) == seen(a) + seen(b),
{
    Seq::filter_distributes_over_add(a, b, |c: char| !is_space(c));
}

pub(crate) proof fn lemma_unseen(s: Seq<char>)
    requires
        forall|i: int| 0 <= i < s.len() ==> is_space(#[trigger] s[i]),
    ensures
        seen(s) == Seq::<char>::empty(),
    decreases s.len(),
{
    reveal(Seq::filter);
    if s.len() > 0 {
        assert forall|i: int| 0 <= i < s.drop_last().len() implies is_space(#[trigger] s.drop_last()[i]) by {
            assert(s.drop_last()[i] == s[i]);
        }
        lemma_unseen(s.drop_last());
        assert(is_space(s[s.len() - 1]));
    }
}

pub(crate) proof fn lemma_separator_unseen(flat: Seq<FlatWord>, a: usize, b: usize)
    ensures
        seen(separator(flat, a, b)) == Seq::<char>::empty(),
{
    let s = separator(flat, a, b);
    assert forall|i: int| 0 <= i < s.len() implies is_space(#[trigger] s[i]) by {}
    lemma_unseen(s);
}

pub(crate) proof fn lemma_word_seen(flat: Seq<FlatWord>, i: int, next: int, hi: int)
    ensures
        seen(word_text(flat, i, next, hi)) == seen(flat[i].text@),
{
    let line_end = next > hi || flat[next].line != flat[i].line;
    let w = if !inked(flat[i]) && line_end {
        Seq::empty()
    } else {
        flat[i].text@
    };
    if !inked(flat[i]) {
        lemma_unseen(flat[i].text@);
    }
    lemma_unseen(Seq::empty());
    assert(seen(w) == seen(flat[i].text@));
    if next <= hi {
        let sep = separator(flat, flat[i].line, flat[next].line);
        lemma_separator_unseen(flat, flat[i].line, flat[next].line);
        lemma_seen_parts(w, sep);
        assert(seen(w) + Seq::<char>::empty() =~= seen(w));
    }
}

/// Copying loses nothing that can be seen and adds nothing: what can be seen of the text
/// of a step is what can be seen of its words that count for the column, in their order.
pub proof fn a_copy_holds_what_can_be_seen(flat: Seq<FlatWord>, gap: int, col: Option<i64>, lo: int, hi: int)
    ensures
        seen(text_of_words(flat, gap, col, lo, hi)) == seen_of_words(flat, gap, col, lo, hi),
    decreases hi + 1 - lo,
{
    if lo > hi {
        lemma_unseen(Seq::empty());
    } else {
        a_copy_holds_what_can_be_seen(flat, gap, col, lo + 1, hi);
        if in_column(flat, gap, col, lo) {
            let next = next_counting(flat, gap, col, lo + 1, hi);
            let rest = text_of_words(flat, gap, col, lo + 1, hi);
            let own = word_text(flat, lo, next, hi);
            lemma_seen_parts(own, rest);
            lemma_word_seen(flat, lo, next, hi);
        }
    }
}

proof fn lemma_joined_seen(pages: Map<u32, RenderedPage>, layer: Layer, steps: Seq<SelectionStep>, gap: int, n: nat)
    requires
        n <= steps.len(),
    ensures
        seen(joined_lines(step_texts(pages, layer, steps, gap).take(n as int))) == seen_of_steps(pages, layer, steps, gap, n),
    decreases n,
{
    let texts = step_texts(pages, layer, steps, gap);
    let t = texts.take(n as int);
    if n == 0 {
        lemma_unseen(Seq::empty());
    } else {
        lemma_joined_seen(pages, layer, steps, gap, (n - 1) as nat);
        let s = steps[n - 1];
        let words = step_words(pages, layer, s);
        assert(t.drop_last() =~= texts.take(n - 1));
        assert(t.last() == step_text(words, gap, s.lo as int, s.hi as int, s.column_left));
        a_copy_holds_what_can_be_seen(words, gap, s.column_left, s.lo as int, last_place(words, s.hi as int));
        if n == 1 {
            assert(seen_of_steps(pages, layer, steps, gap, 0) =~= Seq::<char>::empty());
            assert(seen_of_steps(pages, layer, steps, gap, 1) =~= seen(t[0]));
        } else {
            let before = joined_lines(t.drop_last());
            lemma_seen_parts(before + seq!['\n'], t.last());
            lemma_seen_parts(before, seq!['\n']);
            lemma_unseen(seq!['\n']);
            assert(seen(before) + Seq::<char>::empty() =~= seen(before));
        }
    }
}

/// What can be seen of the text of a selection is what can be seen of the words of the
/// selected layer at the places of its steps, in their order.
pub proof fn a_selection_copies_its_own_layer(pages: Map<u32, RenderedPage>, layer: Layer, steps: Seq<SelectionStep>, gap: int)
    ensures
        seen(joined_lines(step_texts(pages, layer, steps, gap))) == seen_of_steps(pages, layer, steps, gap, steps.len()),
{
    lemma_joined_seen(pages, layer, steps, gap, steps.len());
    let texts = step_texts(pages, layer, steps, gap);
    assert(texts.take(steps.len() as int) =~= texts);
}

/// The other layer does not matter: pages that have the same words in small print give
/// the same text for a selection in small print, whatever their running text is, and the
/// other way round.
pub proof fn a_copy_does_not_depend_on_the_other_layer(
    pages: Map<u32, RenderedPage>,
    others: Map<u32, RenderedPage>,
    steps: Seq<SelectionStep>,
    gap: int,
)
    ensures
        (forall|k: int| 0 <= k < steps.len() ==> pages[(#[trigger] steps[k]).page].small@ == others[steps[k].page].small@)
            ==> step_texts(pages, Layer::Small, steps, gap) == step_texts(others, Layer::Small, steps, gap),
        (forall|k: int| 0 <= k < steps.len() ==> pages[(#[trigger] steps[k]).page].body@ == others[steps[k].page].body@)
            ==> step_texts(pages, Layer::Body, steps, gap) == step_texts(others, Layer::Body, steps, gap),
{
    if forall|k: int| 0 <= k < steps.len() ==> pages[(#[trigger] steps[k]).page].small@ == others[steps[k].page].small@ {
        assert(step_texts(pages, Layer::Small, steps, gap) =~= step_texts(others, Layer::Small, steps, gap));
    }
    if forall|k: int| 0 <= k < steps.len() ==> pages[(#[trigger] steps[k]).page].body@ == others[steps[k].page].body@ {
        assert(step_texts(pages, Layer::Body, steps, gap) =~= step_texts(others, Layer::Body, steps, gap));
    }
}

/// Each step is copied to a line of its own: the text of two runs of steps is that of the
/// first, a line break and that of the second; a step alone is its text.
pub proof fn steps_are_copied_line_by_line(parts: Seq<Seq<char>>, more: Seq<Seq<char>>)
    requires
        parts.len() > 0,
        more.len() > 0,
    ensures
        parts.len() == 1 ==> joined_lines(parts) == parts[0],
        joined_lines(parts + more) == joined_lines(parts) + seq!['\n'] + joined_lines(more),
    decreases more.len(),
{
    let all = parts + more;
    assert(all.drop_last() =~= parts + more.drop_last());
    assert(all.last() == more.last());
    if more.len() == 1 {
        assert(parts + more.drop_last() =~= parts);
        assert(more.last() == more[0]);
    } else {
        steps_are_copied_line_by_line(parts, more.drop_last());
        assert(joined_lines(parts) + seq!['\n'] + joined_lines(more.drop_last()) + seq!['\n'] + more.last() =~= joined_lines(
            parts,
        ) + seq!['\n'] + (joined_lines(more.drop_last()) + seq!['\n'] + more.last()));
    }
}

/// Where words count one after the other, a word is followed by what parts its line from
/// that of the next one: nothing on the same line. A word that shows something is copied
/// as it stands, and so is a space between words of a line; a space at the end of a line
/// or of the step is left out.
pub proof fn words_are_copied_one_after_the_other(flat: Seq<FlatWord>, gap: int, col: Option<i64>, k: int, hi: int)
    requires
        0 <= k <= hi < flat.len(),
        in_column(flat, gap, col, k),
    ensures
        k == hi ==> text_of_words(flat, gap, col, k, hi) == if inked(flat[k]) {
            flat[k].text@
        } else {
            Seq::empty()
        },
        k < hi && in_column(flat, gap, col, k + 1) ==> text_of_words(flat, gap, col, k, hi) == (if inked(flat[k])
            || flat[k].line == flat[k + 1].line {
            flat[k].text@
        } else {
            Seq::empty()
        }) + (if flat[k].line == flat[k + 1].line {
            Seq::empty()
        } else {
            separator(flat, flat[k].line, flat[k + 1].line)
        }) + text_of_words(flat, gap, col, k + 1, hi),
{
    if k == hi {
        assert(next_counting(flat, gap, col, k + 1, hi) == hi + 1);
        assert(text_of_words(flat, gap, col, k + 1, hi) =~= Seq::<char>::empty());
        assert(text_of_words(flat, gap, col, k, hi) =~= word_text(flat, k, hi + 1, hi));
    } else if in_column(flat, gap, col, k + 1) {
        assert(next_counting(flat, gap, col, k + 1, hi) == k + 1);
        let own = if inked(flat[k]) || flat[k].line == flat[k + 1].line {
            flat[k].text@
        } else {
            Seq::empty()
        };
        let sep = if flat[k].line == flat[k + 1].line {
            Seq::empty()
        } else {
            separator(flat, flat[k].line, flat[k + 1].line)
        };
        assert(word_text(flat, k, k + 1, hi) =~= own + sep);
    }
}

/// A word that does not count for the column adds nothing, and does not part its
/// neighbours.
pub proof fn words_of_other_columns_are_left_out(flat: Seq<FlatWord>, gap: int, col: Option<i64>, k: int, hi: int)
    requires
        0 <= k <= hi < flat.len(),
        !in_column(flat, gap, col, k),
    ensures
        text_of_words(flat, gap, col, k, hi) == text_of_words(flat, gap, col, k + 1, hi),
        next_counting(flat, gap, col, k, hi) == next_counting(flat, gap, col, k + 1, hi),
{
}

/// What parts two lines: a line break, where more than 1.25 of the taller line, and of 0.6
/// `cqw` at least, lies between the upper one and the lower one; else nothing between
/// ideographs, and a space between other characters. `i` and `j` are the first words that
/// show something on either line, `m` the last one of the upper line.
pub proof fn lines_are_parted_as_they_stand(flat: Seq<FlatWord>, a: usize, b: usize, i: int, m: int, j: int, x: char, y: char)
    requires
        a != b,
        0 <= i <= m < flat.len(),
        0 <= j < flat.len(),
        ink_at(flat, a, i),
        ink_at(flat, a, m),
        ink_at(flat, b, j),
        forall|k: int| 0 <= k < i && flat[k].line == a ==> !inked(#[trigger] flat[k]),
        forall|k: int| m < k < flat.len() && flat[k].line == a ==> !inked(#[trigger] flat[k]),
        forall|k: int| 0 <= k < j && flat[k].line == b ==> !inked(#[trigger] flat[k]),
        last_visible(flat[m].text@) == Some(x),
        first_visible(flat[j].text@) == Some(y),
    ensures
        ({
            let space = top_of(flat, b) - top_of(flat, a) - flat[i].line_height_cqw;
            let far = 4 * space > 3_000_000 && 4 * space > 5 * flat[i].line_height_cqw && 4 * space > 5 * flat[j].line_height_cqw;
            let x_is_cjk = '\u{4e00}' <= x <= '\u{9fff}' || '\u{3400}' <= x <= '\u{4dbf}' || '\u{f900}' <= x <= '\u{faff}';
            let y_is_cjk = '\u{4e00}' <= y <= '\u{9fff}' || '\u{3400}' <= y <= '\u{4dbf}' || '\u{f900}' <= y <= '\u{faff}';
            separator(flat, a, b) == if far {
                seq!['\n']
            } else if x_is_cjk && y_is_cjk {
                Seq::empty()
            } else {
                seq![' ']
            }
        }),
{
    crate::lines::a_line_is_as_large_as_its_words(flat, a, i);
    crate::lines::a_line_is_as_large_as_its_words(flat, b, j);
    crate::lines::line_extent(flat, a);
    crate::lines::line_extent(flat, b);
    crate::paragraph_extent::lemma_last_ink_is(flat, a, flat.len() as int, m);
    lemma_first_ink_is(flat, b, 0, j);
}

pub(crate) proof fn lemma_first_ink_is(flat: Seq<FlatWord>, line: usize, from: int, j: int)
    requires
        0 <= from <= j < flat.len(),
        ink_at(flat, line, j),
        forall|k: int| 0 <= k < j && flat[k].line == line ==> !inked(#[trigger] flat[k]),
    ensures
        first_ink(flat, line, from) == Some(j),
    decreases j - from,
{
    if from < j {
        assert(!(flat[from].line == line && inked(flat[from])));
        lemma_first_ink_is(flat, line, from + 1, j);
    }
}

} // verus!
