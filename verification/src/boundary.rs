//! Where sentences end.
use crate::text::{
    chars_of, first_visible, first_visible_char, is_space, lemma_cut_leading, lemma_cut_trailing, same_chars, trim_end,
    without_trailing_space,
};
use vstd::prelude::*;

verus! {

pub open spec fn opening(c: char) -> bool {
    c == '(' || c == '[' || c == '{'
}

pub open spec fn closing(c: char) -> bool {
    c == ')' || c == ']' || c == '}'
}

pub open spec fn semicolon(c: char) -> bool {
    c == ';' || c == '；'
}

/// The marks that end a sentence.
pub open spec fn full_stop(c: char) -> bool {
    c == '.' || c == '!' || c == '?' || c == '。' || c == '！' || c == '？'
}

/// The depth of brackets behind `c`.
pub open spec fn deeper(c: char, depth: nat) -> nat {
    if opening(c) {
        if depth < usize::MAX {
            depth + 1
        } else {
            usize::MAX as nat
        }
    } else if closing(c) && depth > 0 {
        (depth - 1) as nat
    } else {
        depth
    }
}

/// Reading `s` from place `k` at bracket depth `depth`: whether a semicolon
/// outside of brackets comes up, and the depth there or at the end.
pub open spec fn scan(s: Seq<char>, k: int, depth: nat) -> (bool, nat)
    decreases s.len() - k,
{
    if k >= s.len() {
        (false, depth)
    } else if semicolon(s[k]) && depth == 0 {
        (true, depth)
    } else {
        scan(s, k + 1, deeper(s[k], depth))
    }
}

/// `s` ends, white space aside, in a mark that ends a sentence.
pub open spec fn ends_in_stop(s: Seq<char>) -> bool {
    let t = without_trailing_space(s);
    t.len() > 0 && full_stop(t.last())
}

/// Abbreviations that stand before a comma, a bracket or a number in citations.
pub open spec fn abbreviation(s: Seq<char>) -> bool {
    ||| s == "al"@ || s == "e.g"@ || s == "i.e"@ || s == "etc"@ || s == "vs"@ || s == "et al"@
    ||| s == "fig"@ || s == "figs"@ || s == "sec"@ || s == "secs"@ || s == "no"@ || s == "pp"@
}

pub open spec fn ascii_digit(c: char) -> bool {
    '0' <= c <= '9'
}

/// The period of `word` belongs to an abbreviation: the word is one, and what
/// comes next starts with `,`, `]`, `)` or a digit.
pub open spec fn citation_period(word: Seq<char>, next: Option<Seq<char>>) -> bool {
    let t = without_trailing_space(word);
    &&& t.len() > 0 && t.last() == '.'
    &&& abbreviation(t.drop_last())
    &&& next is Some
    &&& match first_visible(next->0) {
        Some(c) => c == ',' || c == ']' || c == ')' || ascii_digit(c),
        None => false,
    }
}

/// A sentence ends with `text`, read at bracket depth `depth` and followed by
/// `next`.
pub open spec fn breaks(text: Seq<char>, depth: nat, next: Option<Seq<char>>) -> bool {
    scan(text, 0, depth).0 || (ends_in_stop(text) && !citation_period(text, next))
}

/// The bracket depth behind `text`.
pub open spec fn depth_behind(text: Seq<char>, depth: nat) -> nat {
    scan(text, 0, depth).1
}

pub open spec fn opt_view(s: Option<&str>) -> Option<Seq<char>> {
    match s {
        Some(t) => Some(t@),
        None => None,
    }
}

fn is_abbreviation(s: &Vec<char>) -> (r: bool)
    ensures
        r == abbreviation(s@),
{
    same_chars(s, &chars_of("al")) || same_chars(s, &chars_of("e.g")) || same_chars(
        s,
        &chars_of("i.e"),
    ) || same_chars(s, &chars_of("etc")) || same_chars(s, &chars_of("vs")) || same_chars(
        s,
        &chars_of("et al"),
    ) || same_chars(s, &chars_of("fig")) || same_chars(s, &chars_of("figs")) || same_chars(
        s,
        &chars_of("sec"),
    ) || same_chars(s, &chars_of("secs")) || same_chars(s, &chars_of("no")) || same_chars(
        s,
        &chars_of("pp"),
    )
}

pub fn is_full_stop(c: char) -> (r: bool)
    ensures
        r == full_stop(c),
{
    matches!(c, '.' | '!' | '?' | '。' | '！' | '？')
}

/// Whether the period of `word` belongs to an abbreviation in a citation.
pub fn is_citation_period(word: &str, next: Option<&str>) -> (r: bool)
    ensures
        r == citation_period(word@, opt_view(next)),
{
    let mut t = trim_end(word);
    if t.len() == 0 || t[t.len() - 1] != '.' {
        return false;
    }
    let ghost before = t@;
    t.pop();
    assert(t@ =~= before.drop_last());
    if !is_abbreviation(&t) {
        return false;
    }
    match next {
        None => false,
        Some(n) => match first_visible_char(n) {
            Some(c) => c == ',' || c == ']' || c == ')' || ('0' <= c && c <= '9'),
            None => false,
        },
    }
}

/// Reads one word: keeps the bracket depth, and tells whether a sentence ends
/// with it, be it at a semicolon outside of brackets or at a closing mark.
pub fn scan_word_boundary(text: &str, depth: &mut usize, next: Option<&str>) -> (r: bool)
    ensures
        r == breaks(text@, *old(depth) as nat, opt_view(next)),
        *final(depth) == depth_behind(text@, *old(depth) as nat),
{
    let chars = chars_of(text);
    let mut d: usize = *depth;
    let mut i: usize = 0;
    while i < chars.len()
        invariant
            i <= chars@.len(),
            chars@ == text@,
            *depth == *old(depth),
            scan(text@, 0, *old(depth) as nat) == scan(text@, i as int, d as nat),
        decreases chars@.len() - i,
    {
        let c = chars[i];
        if c == '(' || c == '[' || c == '{' {
            if d < usize::MAX {
                d = d + 1;
            }
        } else if c == ')' || c == ']' || c == '}' {
            if d > 0 {
                d = d - 1;
            }
        } else if (c == ';' || c == '；') && d == 0 {
            *depth = d;
            return true;
        }
        i = i + 1;
    }
    *depth = d;
    let t = trim_end(text);
    t.len() > 0 && is_full_stop(t[t.len() - 1]) && !is_citation_period(text, next)
}

/// A text without brackets and semicolons leaves the depth alone and ends a
/// sentence only by its closing mark.
pub proof fn plain_words_keep_the_depth(s: Seq<char>, k: int, depth: nat)
    requires
        0 <= k,
        forall|i: int| 0 <= i < s.len() ==> !opening(#[trigger] s[i]) && !closing(s[i]) && !semicolon(s[i]),
    ensures
        scan(s, k, depth) == (false, depth),
    decreases s.len() - k,
{
    if k < s.len() {
        plain_words_keep_the_depth(s, k + 1, depth);
    }
}

/// At a depth that the rest of the word cannot close, no semicolon ends a
/// sentence.
pub proof fn semicolons_inside_brackets_do_not_break(s: Seq<char>, k: int, depth: nat)
    requires
        0 <= k,
        s.len() - k < depth <= usize::MAX,
    ensures
        !scan(s, k, depth).0,
    decreases s.len() - k,
{
    if k < s.len() {
        semicolons_inside_brackets_do_not_break(s, k + 1, deeper(s[k], depth));
    }
}

// ── what ends a sentence ──

/// What follows starts, white space aside, with `,`, `]`, `)` or a digit.
pub open spec fn cites(next: Option<Seq<char>>) -> bool {
    next is Some && exists|m: int|
        0 <= m < next->0.len() && (#[trigger] next->0[m] == ',' || next->0[m] == ']' || next->0[m] == ')' || '0'
            <= next->0[m] <= '9') && forall|j: int| 0 <= j < m ==> is_space(#[trigger] next->0[j])
}

proof fn lemma_cites(next: Option<Seq<char>>)
    ensures
        cites(next) <==> next is Some && match first_visible(next->0) {
            Some(c) => c == ',' || c == ']' || c == ')' || ascii_digit(c),
            None => false,
        },
{
    if next is Some {
        let s = next->0;
        lemma_first_seen(s, 0);
        if cites(next) {
            let m = choose|m: int|
                0 <= m < s.len() && (#[trigger] s[m] == ',' || s[m] == ']' || s[m] == ')' || '0' <= s[m] <= '9')
                    && forall|j: int| 0 <= j < m ==> is_space(#[trigger] s[j]);
            assert(!is_space(s[m]));
            lemma_cut_leading(s, m);
        }
        if exists|m: int| 0 <= m < s.len() && !is_space(#[trigger] s[m]) && forall|j: int| 0 <= j < m ==> is_space(#[trigger] s[j]) {
            let m = choose|m: int|
                0 <= m < s.len() && !is_space(#[trigger] s[m]) && forall|j: int| 0 <= j < m ==> is_space(#[trigger] s[j]);
            lemma_cut_leading(s, m);
        } else {
            lemma_cut_leading(s, s.len() as int);
        }
    }
}

/// Either all is white space, or there is a first character that is not.
proof fn lemma_first_seen(s: Seq<char>, k: int)
    requires
        0 <= k <= s.len(),
        forall|j: int| 0 <= j < k ==> is_space(#[trigger] s[j]),
    ensures
        (forall|j: int| 0 <= j < s.len() ==> is_space(#[trigger] s[j])) || exists|m: int|
            0 <= m < s.len() && !is_space(#[trigger] s[m]) && forall|j: int| 0 <= j < m ==> is_space(#[trigger] s[j]),
    decreases s.len() - k,
{
    if k < s.len() {
        if is_space(s[k]) {
            lemma_first_seen(s, k + 1);
        } else {
            assert(!is_space(s[k]));
        }
    }
}

/// A word whose last character, white space aside, is one of `.`, `!`, `?`, `。`, `！`
/// and `？` ends its sentence, whatever the brackets, unless the mark is the period of
/// one of the abbreviations `al`, `e.g`, `i.e`, `etc`, `vs`, `et al`, `fig`, `figs`,
/// `sec`, `secs`, `no` and `pp` before a citation.
pub proof fn a_closing_mark_ends_a_sentence(text: Seq<char>, k: int, depth: nat, next: Option<Seq<char>>)
    requires
        0 <= k < text.len(),
        text[k] == '.' || text[k] == '!' || text[k] == '?' || text[k] == '。' || text[k] == '！' || text[k] == '？',
        forall|j: int| k < j < text.len() ==> is_space(#[trigger] text[j]),
        text[k] == '.' && cites(next) ==> {
            let word = text.take(k);
            &&& word != "al"@ && word != "e.g"@ && word != "i.e"@ && word != "etc"@ && word != "vs"@
            &&& word != "et al"@ && word != "fig"@ && word != "figs"@ && word != "sec"@ && word != "secs"@
            &&& word != "no"@ && word != "pp"@
        },
    ensures
        breaks(text, depth, next),
{
    lemma_cut_trailing(text, k + 1);
    let t = text.take(k + 1);
    assert(t.last() == text[k]);
    assert(t.drop_last() =~= text.take(k));
    lemma_cites(next);
}

proof fn lemma_scan_finds(s: Seq<char>, k: int, depth: nat)
    requires
        0 <= k,
        scan(s, k, depth).0,
    ensures
        exists|i: int| k <= i < s.len() && (#[trigger] s[i] == ';' || s[i] == '；'),
    decreases s.len() - k,
{
    if k < s.len() {
        if semicolon(s[k]) {
            assert(s[k] == ';' || s[k] == '；');
        } else {
            lemma_scan_finds(s, k + 1, deeper(s[k], depth));
        }
    }
}

/// Nothing else ends a sentence: the word holds a semicolon, or one of the six marks
/// is its last character, white space aside.
pub proof fn only_marks_and_semicolons_end_a_sentence(text: Seq<char>, depth: nat, next: Option<Seq<char>>)
    requires
        breaks(text, depth, next),
    ensures
        (exists|i: int| 0 <= i < text.len() && (#[trigger] text[i] == ';' || text[i] == '；')) || exists|k: int|
            0 <= k < text.len() && (#[trigger] text[k] == '.' || text[k] == '!' || text[k] == '?' || text[k] == '。'
                || text[k] == '！' || text[k] == '？') && forall|j: int| k < j < text.len() ==> is_space(#[trigger] text[j]),
{
    if scan(text, 0, depth).0 {
        lemma_scan_finds(text, 0, depth);
    } else {
        lemma_last_seen(text);
        let t = without_trailing_space(text);
        let k = t.len() - 1;
        assert(text[k] == t.last());
    }
}

pub(crate) proof fn lemma_last_seen(s: Seq<char>)
    ensures
        ({
            let n = without_trailing_space(s).len() as int;
            &&& n <= s.len()
            &&& without_trailing_space(s) == s.take(n)
            &&& forall|j: int| n <= j < s.len() ==> is_space(#[trigger] s[j])
        }),
    decreases s.len(),
{
    if s.len() > 0 && is_space(s.last()) {
        lemma_last_seen(s.drop_last());
        let n = without_trailing_space(s).len() as int;
        assert(s.drop_last().take(n) =~= s.take(n));
        assert forall|j: int| n <= j < s.len() implies is_space(#[trigger] s[j]) by {
            if j < s.len() - 1 {
                assert(s.drop_last()[j] == s[j]);
            }
        }
    } else {
        assert(s.take(s.len() as int) =~= s);
    }
}

/// One of the abbreviations before a citation does not end a sentence by its period.
pub proof fn an_abbreviation_before_a_citation_goes_on(word: Seq<char>, blanks: Seq<char>, depth: nat, next: Option<Seq<char>>)
    requires
        word == "al"@ || word == "e.g"@ || word == "i.e"@ || word == "etc"@ || word == "vs"@ || word == "et al"@ || word
            == "fig"@ || word == "figs"@ || word == "sec"@ || word == "secs"@ || word == "no"@ || word == "pp"@,
        forall|j: int| 0 <= j < blanks.len() ==> is_space(#[trigger] blanks[j]),
        cites(next),
    ensures
        !breaks(word + seq!['.'] + blanks, depth, next),
{
    let text = word + seq!['.'] + blanks;
    let k = word.len() as int;
    assert(text[k] == '.');
    assert forall|j: int| k < j < text.len() implies is_space(#[trigger] text[j]) by {
        assert(text[j] == blanks[j - k - 1]);
    }
    lemma_cut_trailing(text, k + 1);
    let t = text.take(k + 1);
    assert(t.last() == '.');
    assert(t.drop_last() =~= word);
    lemma_cites(next);
    reveal_strlit("al");
    reveal_strlit("e.g");
    reveal_strlit("i.e");
    reveal_strlit("etc");
    reveal_strlit("vs");
    reveal_strlit("et al");
    reveal_strlit("fig");
    reveal_strlit("figs");
    reveal_strlit("sec");
    reveal_strlit("secs");
    reveal_strlit("no");
    reveal_strlit("pp");
    assert forall|i: int| 0 <= i < text.len() implies !opening(#[trigger] text[i]) && !closing(text[i]) && !semicolon(text[i]) by {
        if i < k {
            assert(text[i] == word[i]);
        } else if i > k {
            assert(is_space(text[i]));
        }
    }
    plain_words_keep_the_depth(text, 0, depth);
}

/// Outside of brackets a semicolon ends a sentence, if no bracket opens before it in
/// its word.
pub proof fn a_semicolon_outside_of_brackets_ends_a_sentence(text: Seq<char>, k: int, next: Option<Seq<char>>)
    requires
        0 <= k < text.len(),
        text[k] == ';' || text[k] == '；',
        forall|j: int| 0 <= j < k ==> #[trigger] text[j] != '(' && text[j] != '[' && text[j] != '{',
    ensures
        breaks(text, 0, next),
{
    lemma_semicolon_found(text, 0, k);
}

proof fn lemma_semicolon_found(text: Seq<char>, i: int, k: int)
    requires
        0 <= i <= k < text.len(),
        semicolon(text[k]),
        forall|j: int| 0 <= j < k ==> !opening(#[trigger] text[j]),
    ensures
        scan(text, i, 0).0,
    decreases k - i,
{
    if i < k {
        lemma_semicolon_found(text, i + 1, k);
    }
}

/// Inside brackets that the word does not close, only a closing mark at its end ends
/// a sentence.
pub proof fn inside_brackets_only_a_closing_mark_ends_a_sentence(text: Seq<char>, depth: nat, next: Option<Seq<char>>)
    requires
        0 < depth <= usize::MAX,
        forall|j: int| 0 <= j < text.len() ==> #[trigger] text[j] != ')' && text[j] != ']' && text[j] != '}',
    ensures
        !scan(text, 0, depth).0,
        depth_behind(text, depth) >= depth,
        breaks(text, depth, next) ==> exists|k: int|
            0 <= k < text.len() && (#[trigger] text[k] == '.' || text[k] == '!' || text[k] == '?' || text[k] == '。'
                || text[k] == '！' || text[k] == '？') && forall|j: int| k < j < text.len() ==> is_space(#[trigger] text[j]),
{
    lemma_held(text, 0, depth);
    if breaks(text, depth, next) {
        lemma_last_seen(text);
        let t = without_trailing_space(text);
        assert(text[t.len() - 1] == t.last());
    }
}

proof fn lemma_held(text: Seq<char>, k: int, depth: nat)
    requires
        0 <= k,
        0 < depth <= usize::MAX,
        forall|j: int| 0 <= j < text.len() ==> !closing(#[trigger] text[j]),
    ensures
        !scan(text, k, depth).0,
        scan(text, k, depth).1 >= depth,
    decreases text.len() - k,
{
    if k < text.len() {
        lemma_held(text, k + 1, deeper(text[k], depth));
    }
}

/// Brackets are counted one by one: each opening one is a step deeper, each closing
/// one a step back, nothing else counts, and reading two parts of a word that is not
/// ended in the first is reading one behind the other.
pub proof fn brackets_are_counted(a: Seq<char>, b: Seq<char>, c: char, depth: nat)
    requires
        depth < usize::MAX,
        !scan(a, 0, depth).0,
    ensures
        c == '(' || c == '[' || c == '{' ==> depth_behind(seq![c], depth) == depth + 1,
        c == ')' || c == ']' || c == '}' ==> depth_behind(seq![c], depth + 1) == depth && depth_behind(seq![c], 0) == 0,
        c != '(' && c != '[' && c != '{' && c != ')' && c != ']' && c != '}' ==> depth_behind(seq![c], depth) == depth,
        depth_behind(a + b, depth) == depth_behind(b, depth_behind(a, depth)),
        scan(a + b, 0, depth).0 == scan(b, 0, depth_behind(a, depth)).0,
{
    let s = seq![c];
    assert(scan(s, 1, deeper(c, depth)) == (false, deeper(c, depth)));
    assert(scan(s, 1, deeper(c, depth + 1)) == (false, deeper(c, depth + 1)));
    assert(scan(s, 1, deeper(c, 0)) == (false, deeper(c, 0)));
    assert(s[0] == c);
    lemma_scan_parts(a, b, 0, depth);
}

proof fn lemma_scan_parts(a: Seq<char>, b: Seq<char>, k: int, depth: nat)
    requires
        0 <= k <= a.len(),
        !scan(a, k, depth).0,
    ensures
        scan(a + b, k, depth) == scan(b, 0, scan(a, k, depth).1),
    decreases a.len() - k,
{
    if k < a.len() {
        assert((a + b)[k] == a[k]);
        lemma_scan_parts(a, b, k + 1, deeper(a[k], depth));
    } else {
        lemma_scan_behind(a, b, 0, depth);
    }
}

proof fn lemma_scan_behind(a: Seq<char>, b: Seq<char>, k: int, depth: nat)
    requires
        0 <= k <= b.len(),
    ensures
        scan(a + b, a.len() + k, depth) == scan(b, k, depth),
    decreases b.len() - k,
{
    if k < b.len() {
        assert((a + b)[a.len() + k] == b[k]);
        lemma_scan_behind(a, b, k + 1, deeper(b[k], depth));
    }
}

} // verus!
