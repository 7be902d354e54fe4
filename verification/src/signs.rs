//! Counting the characters on the lines of a page.
use crate::lines::words_upto;
use crate::page_text::{flat_words, ink_at, is_inked, FlatWord, OverlayLine};
use crate::symbols::{is_math_symbol_char, is_operator_char, is_relation_char, math_char, operator_char, relation_char};
use crate::text::{any_where, blank, count_chars, count_where, is_space, is_whitespace};
use vstd::prelude::*;

verus! {

// ── characters on a line ──

pub open spec fn visible() -> spec_fn(char) -> bool {
    |c: char| !is_space(c)
}

pub open spec fn operators() -> spec_fn(char) -> bool {
    |c: char| operator_char(c)
}

pub open spec fn math_symbols() -> spec_fn(char) -> bool {
    |c: char| math_char(c)
}

pub open spec fn relations() -> spec_fn(char) -> bool {
    |c: char| relation_char(c)
}

/// How many characters of the first `n` words, on `line`, satisfy `p`.
pub open spec fn line_count_upto(
    flat: Seq<FlatWord>,
    line: usize,
    p: spec_fn(char) -> bool,
    n: nat,
) -> nat
    decreases n,
{
    if n == 0 {
        0
    } else {
        let before = line_count_upto(flat, line, p, (n - 1) as nat);
        if ink_at(flat, line, n - 1) {
            before + count_chars(flat[n - 1].text@, p, flat[n - 1].text@.len())
        } else {
            before
        }
    }
}

/// How many characters on `line` satisfy `p`.
pub open spec fn line_count(flat: Seq<FlatWord>, line: usize, p: spec_fn(char) -> bool) -> nat {
    line_count_upto(flat, line, p, flat.len())
}

/// Some word of the first `n`, on `line`, holds a relation.
pub open spec fn relation_upto(flat: Seq<FlatWord>, line: usize, n: nat) -> bool {
    exists|k: int|
        0 <= k < n && #[trigger] ink_at(flat, line, k) && flat[k].text@.any(relations())
}

/// The line holds a relation.
pub open spec fn has_relation(flat: Seq<FlatWord>, line: usize) -> bool {
    relation_upto(flat, line, flat.len())
}

/// The line is one word of one character.
pub open spec fn single_glyph(flat: Seq<FlatWord>, line: usize) -> bool {
    words_upto(flat, line, flat.len()) == 1 && line_count(flat, line, visible()) == 1
}

/// The characters of the first `n` words.
pub open spec fn chars_upto(flat: Seq<FlatWord>, n: nat) -> nat
    decreases n,
{
    if n == 0 {
        0
    } else {
        chars_upto(flat, (n - 1) as nat) + flat[n - 1].text@.len()
    }
}

/// How many characters the page holds.
pub open spec fn page_chars(overlay: Seq<OverlayLine>) -> nat {
    chars_upto(flat_words(overlay), flat_words(overlay).len())
}

proof fn lemma_count_chars(s: Seq<char>, p: spec_fn(char) -> bool, n: nat)
    ensures
        count_chars(s, p, n) <= n,
    decreases n,
{
    if n > 0 {
        lemma_count_chars(s, p, (n - 1) as nat);
    }
}

/// How many characters on the first `m` of some lines satisfy `p`, going by the
/// first `n` words.
pub open spec fn lines_count_upto(
    flat: Seq<FlatWord>,
    ls: Seq<usize>,
    p: spec_fn(char) -> bool,
    m: nat,
    n: nat,
) -> nat
    decreases m,
{
    if m == 0 {
        0
    } else {
        lines_count_upto(flat, ls, p, (m - 1) as nat, n) + line_count_upto(flat, ls[m - 1], p, n)
    }
}

/// How many characters on some lines satisfy `p`.
pub open spec fn lines_count(flat: Seq<FlatWord>, ls: Seq<usize>, p: spec_fn(char) -> bool) -> nat {
    lines_count_upto(flat, ls, p, ls.len(), flat.len())
}

proof fn lemma_lines_count_step(
    flat: Seq<FlatWord>,
    ls: Seq<usize>,
    p: spec_fn(char) -> bool,
    m: nat,
    n: nat,
)
    requires
        0 < n <= flat.len(),
        m <= ls.len(),
        ls.no_duplicates(),
    ensures
        lines_count_upto(flat, ls, p, m, n) <= lines_count_upto(flat, ls, p, m, (n - 1) as nat)
            + flat[n - 1].text@.len(),
        (forall|k: int| 0 <= k < m ==> ls[k] != flat[n - 1].line) ==> lines_count_upto(
            flat,
            ls,
            p,
            m,
            n,
        ) == lines_count_upto(flat, ls, p, m, (n - 1) as nat),
    decreases m,
{
    lemma_count_chars(flat[n - 1].text@, p, flat[n - 1].text@.len());
    if m > 0 {
        lemma_lines_count_step(flat, ls, p, (m - 1) as nat, n);
        if ls[m - 1] == flat[n - 1].line {
            assert forall|k: int| 0 <= k < m - 1 implies ls[k] != flat[n - 1].line by {}
        }
    }
}

pub proof fn lemma_lines_count_bound(
    flat: Seq<FlatWord>,
    ls: Seq<usize>,
    p: spec_fn(char) -> bool,
    m: nat,
    n: nat,
)
    requires
        n <= flat.len(),
        m <= ls.len(),
        ls.no_duplicates(),
    ensures
        lines_count_upto(flat, ls, p, m, n) <= chars_upto(flat, n),
    decreases n,
{
    if n > 0 {
        lemma_lines_count_bound(flat, ls, p, m, (n - 1) as nat);
        lemma_lines_count_step(flat, ls, p, m, n);
    } else {
        lemma_lines_count_none(flat, ls, p, m);
    }
}

proof fn lemma_lines_count_none(
    flat: Seq<FlatWord>,
    ls: Seq<usize>,
    p: spec_fn(char) -> bool,
    m: nat,
)
    ensures
        lines_count_upto(flat, ls, p, m, 0) == 0,
    decreases m,
{
    if m > 0 {
        lemma_lines_count_none(flat, ls, p, (m - 1) as nat);
    }
}

proof fn lemma_chars_monotone(flat: Seq<FlatWord>, a: nat, b: nat)
    requires
        a <= b,
    ensures
        chars_upto(flat, a) <= chars_upto(flat, b),
    decreases b,
{
    if a < b {
        lemma_chars_monotone(flat, a, (b - 1) as nat);
    }
}

proof fn lemma_line_count_bound(
    flat: Seq<FlatWord>,
    line: usize,
    p: spec_fn(char) -> bool,
    n: nat,
)
    requires
        n <= flat.len(),
    ensures
        line_count_upto(flat, line, p, n) <= chars_upto(flat, n),
{
    lemma_lines_count_bound(flat, seq![line], p, 1, n);
    assert(lines_count_upto(flat, seq![line], p, 0, n) == 0);
    assert(lines_count_upto(flat, seq![line], p, 1, n) == line_count_upto(flat, line, p, n));
}

/// What the characters on a line say.
#[derive(Clone, Copy)]
pub struct LineCounts {
    pub words: usize,
    pub chars: usize,
    pub ops: usize,
    pub math: usize,
    pub relation: bool,
}

impl LineCounts {
    pub open spec fn of(self, flat: Seq<FlatWord>, line: usize) -> bool {
        &&& self.words == words_upto(flat, line, flat.len())
        &&& self.chars == line_count(flat, line, visible())
        &&& self.ops == line_count(flat, line, operators())
        &&& self.math == line_count(flat, line, math_symbols())
        &&& self.relation == has_relation(flat, line)
    }
}

fn is_visible(c: char) -> (r: bool)
    ensures
        r == !is_space(c),
{
    !is_whitespace(c)
}

/// Counts the characters on `line`.
pub fn line_counts(flat: &[FlatWord], line: usize) -> (r: LineCounts)
    requires
        chars_upto(flat@, flat@.len()) <= usize::MAX,
    ensures
        r.of(flat@, line),
{
    let mut r = LineCounts { words: 0, chars: 0, ops: 0, math: 0, relation: false };
    let mut i: usize = 0;
    while i < flat.len()
        invariant
            i <= flat@.len(),
            chars_upto(flat@, flat@.len()) <= usize::MAX,
            r.words <= i,
            r.words == words_upto(flat@, line, i as nat),
            r.chars == line_count_upto(flat@, line, visible(), i as nat),
            r.ops == line_count_upto(flat@, line, operators(), i as nat),
            r.math == line_count_upto(flat@, line, math_symbols(), i as nat),
            r.relation == relation_upto(flat@, line, i as nat),
        decreases flat@.len() - i,
    {
        let w = &flat[i];
        if w.line == line && is_inked(w) {
            let chars = count_where(&w.text, is_visible, Ghost(visible()));
            let ops = count_where(&w.text, is_operator_char, Ghost(operators()));
            let math = count_where(&w.text, is_math_symbol_char, Ghost(math_symbols()));
            let rel = any_where(&w.text, is_relation_char, Ghost(relations()));
            proof {
                lemma_line_count_bound(flat@, line, visible(), (i + 1) as nat);
                lemma_line_count_bound(flat@, line, operators(), (i + 1) as nat);
                lemma_line_count_bound(flat@, line, math_symbols(), (i + 1) as nat);
                lemma_chars_monotone(flat@, (i + 1) as nat, flat@.len());
                assert(ink_at(flat@, line, i as int));
            }
            r.words = r.words + 1;
            r.chars = r.chars + chars;
            r.ops = r.ops + ops;
            r.math = r.math + math;
            r.relation = r.relation || rel;
        } else {
            assert(!ink_at(flat@, line, i as int));
        }
        i = i + 1;
    }
    r
}

/// Characters are counted one by one: as many as there are of the kind.
pub proof fn characters_are_counted_one_by_one(s: Seq<char>, p: spec_fn(char) -> bool, n: nat)
    requires
        n <= s.len(),
    ensures
        count_chars(s, p, n) == s.take(n as int).filter(p).len(),
    decreases n,
{
    reveal(Seq::filter);
    let t = s.take(n as int);
    if n > 0 {
        characters_are_counted_one_by_one(s, p, (n - 1) as nat);
        assert(t.drop_last() =~= s.take(n - 1));
        assert(t.last() == s[n - 1]);
    } else {
        assert(t.filter(p) =~= Seq::<char>::empty());
    }
}

/// A line counts the characters of its words that show something: each word adds its own, and
/// a word of another line adds none.
pub proof fn a_line_counts_the_characters_of_its_words(flat: Seq<FlatWord>, w: FlatWord, line: usize, p: spec_fn(char) -> bool)
    ensures
        line_count(flat.push(w), line, p) == line_count(flat, line, p) + if w.line == line && !blank(w.text@) {
            w.text@.filter(p).len()
        } else {
            0
        },
        line_count(Seq::empty(), line, p) == 0,
{
    let all = flat.push(w);
    lemma_count_prefix(flat, w, line, p, flat.len());
    assert(all[flat.len() as int] == w);
    characters_are_counted_one_by_one(w.text@, p, w.text@.len());
    assert(w.text@.take(w.text@.len() as int) =~= w.text@);
    assert(ink_at(all, line, all.len() - 1) == (w.line == line && !blank(w.text@)));
}

proof fn lemma_count_prefix(flat: Seq<FlatWord>, w: FlatWord, line: usize, p: spec_fn(char) -> bool, n: nat)
    requires
        n <= flat.len(),
    ensures
        line_count_upto(flat.push(w), line, p, n) == line_count_upto(flat, line, p, n),
    decreases n,
{
    if n > 0 {
        lemma_count_prefix(flat, w, line, p, (n - 1) as nat);
        assert(flat.push(w)[n - 1] == flat[n - 1]);
    }
}

} // verus!
