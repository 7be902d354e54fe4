//! Characters and strings: white space, trimming, decimal numerals and the
//! string operations that the panels share.
use vstd::prelude::*;

verus! {

/// Appends one character: `String::push` leaves what was there and puts the
/// character behind it.
pub assume_specification[ String::push ](s: &mut String, ch: char)
    ensures
        final(s)@ == old(s)@.push(ch),
;

/// The characters with the Unicode property `White_Space`.
pub open spec fn is_space(c: char) -> bool {
    let n = c as int;
    ||| 0x9 <= n <= 0xD
    ||| n == 0x20
    ||| n == 0x85
    ||| n == 0xA0
    ||| n == 0x1680
    ||| 0x2000 <= n <= 0x200A
    ||| n == 0x2028
    ||| n == 0x2029
    ||| n == 0x202F
    ||| n == 0x205F
    ||| n == 0x3000
}

/// Whether `c` is white space.
pub fn is_whitespace(c: char) -> (r: bool)
    ensures
        r == is_space(c),
{
    let n: u32 = c as u32;
    (0x9 <= n && n <= 0xD) || n == 0x20 || n == 0x85 || n == 0xA0 || n == 0x1680 || (0x2000 <= n
        && n <= 0x200A) || n == 0x2028 || n == 0x2029 || n == 0x202F || n == 0x205F || n == 0x3000
}

/// A text that holds nothing but white space.
pub open spec fn blank(s: Seq<char>) -> bool {
    forall|i: int| 0 <= i < s.len() ==> is_space(#[trigger] s[i])
}

/// How many of the first `n` characters satisfy `p`.
pub open spec fn count_chars(s: Seq<char>, p: spec_fn(char) -> bool, n: nat) -> nat
    decreases n,
{
    if n == 0 {
        0
    } else if p(s[n - 1]) {
        count_chars(s, p, (n - 1) as nat) + 1
    } else {
        count_chars(s, p, (n - 1) as nat)
    }
}

/// What is left of `s` without its leading white space.
pub open spec fn without_leading_space(s: Seq<char>) -> Seq<char>
    decreases s.len(),
{
    if s.len() > 0 && is_space(s[0]) {
        without_leading_space(s.drop_first())
    } else {
        s
    }
}

/// What is left of `s` without its trailing white space.
pub open spec fn without_trailing_space(s: Seq<char>) -> Seq<char>
    decreases s.len(),
{
    if s.len() > 0 && is_space(s.last()) {
        without_trailing_space(s.drop_last())
    } else {
        s
    }
}

/// `s` without the white space at either end.
pub open spec fn trimmed(s: Seq<char>) -> Seq<char> {
    without_trailing_space(without_leading_space(s))
}

/// The characters of a string.
pub fn chars_of(s: &str) -> (out: Vec<char>)
    ensures
        out@ == s@,
{
    let mut out: Vec<char> = Vec::new();
    for c in it: s.chars()
        invariant
            out@ == it.seq().take(it.index() as int),
            it.seq() == s@,
    {
        out.push(c);
    }
    out
}

/// The string made of the characters `lo..hi`.
pub fn string_of(chars: &Vec<char>, lo: usize, hi: usize) -> (out: String)
    requires
        lo <= hi <= chars@.len(),
    ensures
        out@ == chars@.subrange(lo as int, hi as int),
{
    let mut out = String::new();
    let mut i = lo;
    while i < hi
        invariant
            lo <= i <= hi <= chars@.len(),
            out@ == chars@.subrange(lo as int, i as int),
        decreases hi - i,
    {
        out.push(chars[i]);
        i = i + 1;
        assert(chars@.subrange(lo as int, i as int) =~= chars@.subrange(lo as int, i - 1).push(
            chars@[i - 1],
        ));
    }
    out
}

/// Whether `s` is empty or all white space.
pub fn is_blank(s: &str) -> (r: bool)
    ensures
        r == blank(s@),
{
    let chars = chars_of(s);
    let mut i: usize = 0;
    while i < chars.len()
        invariant
            i <= chars@.len(),
            chars@ == s@,
            forall|k: int| 0 <= k < i ==> is_space(#[trigger] chars@[k]),
        decreases chars@.len() - i,
    {
        if !is_whitespace(chars[i]) {
            return false;
        }
        i = i + 1;
    }
    true
}

/// How many characters of `s` satisfy `f`, which decides `p`.
pub(crate) fn count_where(
    s: &str,
    f: impl Fn(char) -> bool,
    Ghost(p): Ghost<spec_fn(char) -> bool>,
) -> (r: usize)
    requires
        forall|c: char| f.requires((c,)),
        forall|c: char, b: bool| f.ensures((c,), b) ==> b == p(c),
    ensures
        r == count_chars(s@, p, s@.len()),
        r <= s@.len(),
{
    let chars = chars_of(s);
    let mut i: usize = 0;
    let mut r: usize = 0;
    while i < chars.len()
        invariant
            r <= i <= chars@.len(),
            chars@ == s@,
            r == count_chars(s@, p, i as nat),
            forall|c: char| f.requires((c,)),
            forall|c: char, b: bool| f.ensures((c,), b) ==> b == p(c),
        decreases chars@.len() - i,
    {
        if f(chars[i]) {
            r = r + 1;
        }
        i = i + 1;
    }
    r
}

/// Whether some character of `s` satisfies `f`, which decides `p`.
pub(crate) fn any_where(
    s: &str,
    f: impl Fn(char) -> bool,
    Ghost(p): Ghost<spec_fn(char) -> bool>,
) -> (r: bool)
    requires
        forall|c: char| f.requires((c,)),
        forall|c: char, b: bool| f.ensures((c,), b) ==> b == p(c),
    ensures
        r == s@.any(p),
{
    let chars = chars_of(s);
    let mut i: usize = 0;
    while i < chars.len()
        invariant
            i <= chars@.len(),
            chars@ == s@,
            forall|k: int| 0 <= k < i ==> !p(#[trigger] s@[k]),
            forall|c: char| f.requires((c,)),
            forall|c: char, b: bool| f.ensures((c,), b) ==> b == p(c),
        decreases chars@.len() - i,
    {
        if f(chars[i]) {
            assert(p(s@[i as int]));
            return true;
        }
        i = i + 1;
    }
    false
}

/// The text without the white space at either end.
pub fn trim(s: &str) -> (out: String)
    ensures
        out@ == trimmed(s@),
{
    let chars = chars_of(s);
    let n: usize = chars.len();
    let mut lo: usize = 0;
    proof {
        assert(s@.subrange(0, n as int) =~= s@);
    }
    while lo < n && is_whitespace(chars[lo])
        invariant
            lo <= n == chars@.len(),
            chars@ == s@,
            without_leading_space(s@) == without_leading_space(s@.subrange(lo as int, n as int)),
        decreases n - lo,
    {
        assert(s@.subrange(lo as int, n as int).drop_first() =~= s@.subrange(lo + 1, n as int));
        lo = lo + 1;
    }
    assert(without_leading_space(s@) == s@.subrange(lo as int, n as int));
    let mut hi: usize = n;
    while hi > lo && is_whitespace(chars[hi - 1])
        invariant
            lo <= hi <= n == chars@.len(),
            chars@ == s@,
            trimmed(s@) == without_trailing_space(s@.subrange(lo as int, hi as int)),
        decreases hi,
    {
        assert(s@.subrange(lo as int, hi as int).drop_last() =~= s@.subrange(lo as int, hi - 1));
        hi = hi - 1;
    }
    string_of(&chars, lo, hi)
}

proof fn lemma_leading_blank(s: Seq<char>)
    ensures
        without_leading_space(s).len() == 0 <==> blank(s),
        without_leading_space(s).len() > 0 ==> !is_space(without_leading_space(s)[0]),
    decreases s.len(),
{
    if s.len() > 0 && is_space(s[0]) {
        lemma_leading_blank(s.drop_first());
        if blank(s.drop_first()) {
            assert forall|i: int| 0 <= i < s.len() implies is_space(#[trigger] s[i]) by {
                if i > 0 {
                    assert(s.drop_first()[i - 1] == s[i]);
                }
            }
        }
    }
}

proof fn lemma_trailing_keeps_first(s: Seq<char>)
    requires
        s.len() > 0,
        !is_space(s[0]),
    ensures
        without_trailing_space(s).len() > 0,
    decreases s.len(),
{
    if is_space(s.last()) {
        lemma_trailing_keeps_first(s.drop_last());
    }
}

/// Trimming leaves nothing exactly when the text is blank.
pub proof fn trimmed_is_empty_iff_blank(s: Seq<char>)
    ensures
        trimmed(s).len() == 0 <==> blank(s),
{
    lemma_leading_blank(s);
    let t = without_leading_space(s);
    if t.len() > 0 {
        lemma_trailing_keeps_first(t);
    }
}

/// The decimal numeral of `n`, without leading zeros.
pub open spec fn decimal(n: nat) -> Seq<char>
    decreases n,
{
    if n < 10 {
        seq![digit(n)]
    } else {
        decimal(n / 10).push(digit(n % 10))
    }
}

/// The character of one decimal digit.
pub open spec fn digit(d: nat) -> char {
    ((48 + d) as u8) as char
}

fn digit_char(d: u64) -> (c: char)
    requires
        d < 10,
    ensures
        c == digit(d as nat),
{
    let b: u8 = 48u8 + (d as u8);
    b as char
}

/// Appends the decimal numeral of `n`.
pub fn push_decimal(out: &mut String, n: u64)
    ensures
        final(out)@ == old(out)@ + decimal(n as nat),
    decreases n,
{
    if n >= 10 {
        push_decimal(out, n / 10);
    }
    let ghost before = out@;
    out.push(digit_char(n % 10));
    proof {
        if n >= 10 {
            assert(out@ =~= old(out)@ + decimal((n / 10) as nat).push(digit((n % 10) as nat)));
        } else {
            assert(out@ =~= old(out)@ + seq![digit(n as nat)]);
        }
    }
}

/// The decimal numeral of an integer, with a minus sign where it is negative.
pub open spec fn signed_decimal(n: int) -> Seq<char> {
    if n < 0 {
        seq!['-'] + decimal((-n) as nat)
    } else {
        decimal(n as nat)
    }
}

/// Appends the decimal numeral of an integer.
pub fn push_signed(out: &mut String, n: i64)
    ensures
        final(out)@ == old(out)@ + signed_decimal(n as int),
{
    if n < 0 {
        out.push('-');
        let ghost before = out@;
        let m: i128 = -(n as i128);
        push_decimal(out, m as u64);
        assert(out@ =~= old(out)@ + signed_decimal(n as int));
    } else {
        push_decimal(out, n as u64);
    }
}

proof fn lemma_digit(d: nat)
    requires
        d < 10,
    ensures
        digit(d) as int == 48 + d,
{
    assert(forall|b: u8| (#[trigger] (b as char)) as int == b);
    assert(digit(d) == ((48 + d) as u8) as char);
}

/// Decimal numerals are made of digits.
pub proof fn decimal_is_digits(n: nat)
    ensures
        decimal(n).len() > 0,
        forall|i: int| 0 <= i < decimal(n).len() ==> 48 <= #[trigger] decimal(n)[i] as int <= 57,
    decreases n,
{
    if n < 10 {
        lemma_digit(n);
    } else {
        decimal_is_digits(n / 10);
        lemma_digit(n % 10);
    }
}

/// Different numbers have different numerals.
pub proof fn decimal_is_injective(a: nat, b: nat)
    requires
        decimal(a) == decimal(b),
    ensures
        a == b,
    decreases a,
{
    decimal_is_digits(a / 10);
    decimal_is_digits(b / 10);
    lemma_digit(a % 10);
    lemma_digit(b % 10);
    if a < 10 {
        lemma_digit(a);
        if b >= 10 {
            assert(decimal(b).len() > 1);
        } else {
            lemma_digit(b);
            assert(decimal(a)[0] == digit(a));
            assert(decimal(b)[0] == digit(b));
        }
    } else {
        assert(decimal(a).len() > 1);
        if b < 10 {
            assert(decimal(b).len() == 1);
        } else {
            assert(decimal(a).last() == digit(a % 10));
            assert(decimal(b).last() == digit(b % 10));
            assert(decimal(a).drop_last() =~= decimal(a / 10));
            assert(decimal(b).drop_last() =~= decimal(b / 10));
            decimal_is_injective(a / 10, b / 10);
        }
    }
}

/// Different integers have different numerals.
pub proof fn signed_decimal_is_injective(a: int, b: int)
    requires
        signed_decimal(a) == signed_decimal(b),
    ensures
        a == b,
{
    decimal_is_digits((if a < 0 { -a } else { a }) as nat);
    decimal_is_digits((if b < 0 { -b } else { b }) as nat);
    if a < 0 && b < 0 {
        assert(signed_decimal(a).drop_first() =~= decimal((-a) as nat));
        assert(signed_decimal(b).drop_first() =~= decimal((-b) as nat));
        decimal_is_injective((-a) as nat, (-b) as nat);
    } else if a >= 0 && b >= 0 {
        decimal_is_injective(a as nat, b as nat);
    } else {
        assert(signed_decimal(a)[0] == signed_decimal(b)[0]);
        assert(signed_decimal(if a < 0 { a } else { b })[0] == '-');
    }
}

/// Whether two texts are the same.
pub fn same_text(a: &str, b: &str) -> (r: bool)
    ensures
        r == (a@ == b@),
{
    let x = chars_of(a);
    let y = chars_of(b);
    same_chars(&x, &y)
}

/// Whether two lists of characters are the same.
pub fn same_chars(x: &Vec<char>, y: &Vec<char>) -> (r: bool)
    ensures
        r == (x@ == y@),
{
    if x.len() != y.len() {
        return false;
    }
    let mut i: usize = 0;
    while i < x.len()
        invariant
            i <= x@.len() == y@.len(),
            forall|k: int| 0 <= k < i ==> x@[k] == y@[k],
        decreases x@.len() - i,
    {
        if x[i] != y[i] {
            assert(x@[i as int] != y@[i as int]);
            return false;
        }
        i = i + 1;
    }
    assert(x@ =~= y@);
    true
}

/// The first character that is no white space.
pub open spec fn first_visible(s: Seq<char>) -> Option<char> {
    let t = without_leading_space(s);
    if t.len() > 0 {
        Some(t[0])
    } else {
        None
    }
}

/// The last character that is no white space.
pub open spec fn last_visible(s: Seq<char>) -> Option<char> {
    let t = without_trailing_space(s);
    if t.len() > 0 {
        Some(t.last())
    } else {
        None
    }
}

/// The first character of `s` that is no white space.
pub fn first_visible_char(s: &str) -> (r: Option<char>)
    ensures
        r == first_visible(s@),
{
    let chars = chars_of(s);
    let n = chars.len();
    let mut lo: usize = 0;
    assert(s@.subrange(0, n as int) =~= s@);
    while lo < n
        invariant
            lo <= n == chars@.len(),
            chars@ == s@,
            without_leading_space(s@) == without_leading_space(s@.subrange(lo as int, n as int)),
        decreases n - lo,
    {
        if !is_whitespace(chars[lo]) {
            return Some(chars[lo]);
        }
        assert(s@.subrange(lo as int, n as int).drop_first() =~= s@.subrange(lo + 1, n as int));
        lo = lo + 1;
    }
    None
}

/// The last character of `s` that is no white space.
pub fn last_visible_char(s: &str) -> (r: Option<char>)
    ensures
        r == last_visible(s@),
{
    let t = trim_end(s);
    if t.len() == 0 {
        None
    } else {
        Some(t[t.len() - 1])
    }
}

/// The characters of `s` without the white space at the end.
pub fn trim_end(s: &str) -> (t: Vec<char>)
    ensures
        t@ == without_trailing_space(s@),
{
    let mut t = chars_of(s);
    while t.len() > 0
        invariant
            without_trailing_space(s@) == without_trailing_space(t@),
        ensures
            t@ == without_trailing_space(s@),
        decreases t@.len(),
    {
        let c = t[t.len() - 1];
        if !is_whitespace(c) {
            break;
        }
        let ghost before = t@;
        t.pop();
        assert(t@ =~= before.drop_last());
    }
    t
}

/// `pat` stands at place `k` of `s`.
pub open spec fn stands_at(s: Seq<char>, pat: Seq<char>, k: int) -> bool {
    0 <= k && k + pat.len() <= s.len() && s.subrange(k, k + pat.len()) == pat
}

/// `s` from place `k` on, with every `pat` replaced by `with`, from left to
/// right.
pub open spec fn replaced_from(s: Seq<char>, pat: Seq<char>, with: Seq<char>, k: int) -> Seq<char>
    decreases s.len() - k,
{
    if k >= s.len() || pat.len() == 0 {
        Seq::empty()
    } else if stands_at(s, pat, k) {
        with + replaced_from(s, pat, with, k + pat.len())
    } else {
        seq![s[k]] + replaced_from(s, pat, with, k + 1)
    }
}

/// `s` with every `pat` replaced by `with`, from left to right.
pub open spec fn replaced(s: Seq<char>, pat: Seq<char>, with: Seq<char>) -> Seq<char> {
    replaced_from(s, pat, with, 0)
}

/// Whether `pat` stands at place `k` of `s`.
pub fn matches_at(s: &Vec<char>, pat: &Vec<char>, k: usize) -> (r: bool)
    requires
        k <= s@.len(),
    ensures
        r == stands_at(s@, pat@, k as int),
{
    let n = s.len();
    if pat.len() > n - k {
        return false;
    }
    let mut i: usize = 0;
    while i < pat.len()
        invariant
            i <= pat@.len(),
            k + pat@.len() <= s@.len() == n,
            forall|j: int| 0 <= j < i ==> s@[k + j] == pat@[j],
        decreases pat@.len() - i,
    {
        if s[k + i] != pat[i] {
            assert(s@.subrange(k as int, k + pat@.len())[i as int] != pat@[i as int]);
            return false;
        }
        i = i + 1;
    }
    assert(s@.subrange(k as int, k + pat@.len()) =~= pat@);
    true
}

/// The text with every `pat`, which is not empty, replaced by `with`.
pub fn replace_all(s: &str, pat: &str, with: &str) -> (out: String)
    requires
        pat@.len() > 0,
    ensures
        out@ == replaced(s@, pat@, with@),
{
    let chars = chars_of(s);
    let p = chars_of(pat);
    let mut out = String::new();
    let mut k: usize = 0;
    assert(out@ + replaced_from(s@, pat@, with@, 0) =~= replaced(s@, pat@, with@));
    while k < chars.len()
        invariant
            k <= chars@.len(),
            chars@ == s@,
            p@ == pat@,
            pat@.len() > 0,
            out@ + replaced_from(s@, pat@, with@, k as int) == replaced(s@, pat@, with@),
        decreases chars@.len() - k,
    {
        let ghost before = out@;
        if matches_at(&chars, &p, k) {
            let ghost rest = replaced_from(s@, pat@, with@, k + pat@.len());
            out.append(with);
            k = k + p.len();
            assert(out@ + rest =~= before + (with@ + rest));
        } else {
            let ghost rest = replaced_from(s@, pat@, with@, k + 1);
            out.push(chars[k]);
            assert(out@ + rest =~= before + (seq![chars@[k as int]] + rest));
            k = k + 1;
        }
    }
    assert(out@ + Seq::<char>::empty() =~= out@);
    out
}

proof fn lemma_replaced_without(s: Seq<char>, pat: Seq<char>, with: Seq<char>, k: int)
    requires
        0 <= k <= s.len(),
        pat.len() > 0,
        forall|j: int| 0 <= j < s.len() ==> !#[trigger] stands_at(s, pat, j),
    ensures
        replaced_from(s, pat, with, k) == s.subrange(k, s.len() as int),
    decreases s.len() - k,
{
    if k < s.len() {
        lemma_replaced_without(s, pat, with, k + 1);
        assert(!stands_at(s, pat, k));
        assert(seq![s[k]] + s.subrange(k + 1, s.len() as int) =~= s.subrange(k, s.len() as int));
    } else {
        assert(s.subrange(k, s.len() as int) =~= Seq::<char>::empty());
    }
}

/// A text in which `pat` does not occur is left as it is.
pub proof fn replacing_what_is_not_there_changes_nothing(s: Seq<char>, pat: Seq<char>, with: Seq<char>)
    requires
        pat.len() > 0,
        forall|j: int| 0 <= j < s.len() ==> !#[trigger] stands_at(s, pat, j),
    ensures
        replaced(s, pat, with) == s,
{
    lemma_replaced_without(s, pat, with, 0);
    assert(s.subrange(0, s.len() as int) =~= s);
}

/// A text that is no longer than `s` stands somewhere in it.
pub open spec fn occurs(s: Seq<char>, pat: Seq<char>) -> bool {
    exists|k: int| 0 <= k <= s.len() && #[trigger] stands_at(s, pat, k)
}

/// The first place from `k` on where `pat` stands in `s`.
pub open spec fn first_occurrence(s: Seq<char>, pat: Seq<char>, k: int) -> Option<int>
    decreases s.len() + 1 - k,
{
    if k > s.len() {
        None
    } else if stands_at(s, pat, k) {
        Some(k)
    } else {
        first_occurrence(s, pat, k + 1)
    }
}

/// Where `pat` first stands in `s`.
pub fn find_chars(s: &Vec<char>, pat: &Vec<char>) -> (r: Option<usize>)
    ensures
        match r {
            Some(k) => first_occurrence(s@, pat@, 0) == Some(k as int) && k + pat@.len() <= s@.len(),
            None => first_occurrence(s@, pat@, 0) is None && !occurs(s@, pat@),
        },
        r is Some <==> occurs(s@, pat@),
{
    let n = s.len();
    let mut k: usize = 0;
    loop
        invariant
            k <= n == s@.len(),
            first_occurrence(s@, pat@, 0) == first_occurrence(s@, pat@, k as int),
            forall|j: int| 0 <= j < k ==> !#[trigger] stands_at(s@, pat@, j),
        decreases n - k,
    {
        if matches_at(s, pat, k) {
            assert(stands_at(s@, pat@, k as int));
            return Some(k);
        }
        if k == n {
            assert(first_occurrence(s@, pat@, n + 1) is None);
            return None;
        }
        k = k + 1;
    }
}

// ── numbers and lines ──

/// The number that digits spell, in base ten.
pub open spec fn digits_value(s: Seq<char>, n: nat) -> nat
    decreases n,
{
    if n == 0 {
        0
    } else {
        10 * digits_value(s, (n - 1) as nat) + (s[n - 1] as int - 48) as nat
    }
}

/// All characters are ASCII digits.
pub open spec fn all_digits(s: Seq<char>) -> bool {
    forall|i: int| 0 <= i < s.len() ==> '0' <= #[trigger] s[i] <= '9'
}

/// The digits of a numeral: what comes behind a plus sign, if there is one.
pub open spec fn numeral_digits(s: Seq<char>) -> Seq<char> {
    if s.len() > 0 && s[0] == '+' {
        s.drop_first()
    } else {
        s
    }
}

/// The number that `s` spells, up to `max`: digits, one at least, and a plus
/// sign before them at most.
pub open spec fn parsed_number(s: Seq<char>, max: nat) -> Option<nat> {
    let d = numeral_digits(s);
    if d.len() > 0 && all_digits(d) && digits_value(d, d.len()) <= max {
        Some(digits_value(d, d.len()))
    } else {
        None
    }
}

/// The number that `s` spells, up to `max`.
pub fn parse_number(s: &str, max: u64) -> (r: Option<u64>)
    ensures
        match r {
            Some(n) => parsed_number(s@, max as nat) == Some(n as nat),
            None => parsed_number(s@, max as nat) is None,
        },
{
    let all = chars_of(s);
    let mut from: usize = 0;
    if all.len() > 0 && all[0] == '+' {
        from = 1;
    }
    let ghost d = numeral_digits(s@);
    let n = all.len();
    assert forall|i: int| 0 <= i < d.len() implies d[i] == all@[i + from] by {}
    if n == from {
        return None;
    }
    let mut value: u64 = 0;
    let mut i: usize = from;
    let mut fits = true;
    while i < n
        invariant
            from <= i <= n == all@.len(),
            from <= 1,
            d.len() == n - from,
            forall|k: int| 0 <= k < d.len() ==> d[k] == all@[k + from],
            forall|k: int| 0 <= k < i - from ==> '0' <= #[trigger] d[k] <= '9',
            fits ==> value == digits_value(d, (i - from) as nat) && value <= max,
            !fits ==> digits_value(d, (i - from) as nat) > max,
            d == numeral_digits(s@),
        decreases n - i,
    {
        let c = all[i];
        assert(d[i - from] == c);
        if !('0' <= c && c <= '9') {
            assert(!all_digits(d));
            return None;
        }
        let digit: u64 = (c as u32 - 48) as u64;
        if fits {
            let wide: u128 = 10 * (value as u128) + (digit as u128);
            if wide <= max as u128 {
                value = wide as u64;
            } else {
                fits = false;
            }
        }
        i = i + 1;
    }
    assert(all_digits(d));
    if fits {
        Some(value)
    } else {
        None
    }
}

/// Where the first line break from place `k` on stands; the length where there
/// is none.
pub open spec fn line_end(s: Seq<char>, k: int) -> int
    decreases s.len() - k,
{
    if k >= s.len() {
        s.len() as int
    } else if s[k] == '\n' {
        k
    } else {
        line_end(s, k + 1)
    }
}

pub proof fn lemma_line_end(s: Seq<char>, k: int)
    requires
        0 <= k <= s.len(),
    ensures
        k <= line_end(s, k) <= s.len(),
        line_end(s, k) < s.len() ==> s[line_end(s, k)] == '\n',
    decreases s.len() - k,
{
    if k < s.len() && s[k] != '\n' {
        lemma_line_end(s, k + 1);
    }
}

/// The characters of `s` from `k` up to `end`, without a carriage return before
/// a line break.
pub open spec fn line_text(s: Seq<char>, k: int, end: int) -> Seq<char> {
    if end < s.len() && k < end && s[end - 1] == '\r' {
        s.subrange(k, end - 1)
    } else {
        s.subrange(k, end)
    }
}

/// The lines of `s` from place `k` on: each ends at a line break, with or
/// without a carriage return before it; the last one may have none.
pub open spec fn lines_from(s: Seq<char>, k: int) -> Seq<Seq<char>>
    decreases s.len() + 1 - k,
{
    if k >= s.len() || k < 0 {
        Seq::empty()
    } else {
        proof {
            lemma_line_end(s, k);
        }
        let end = line_end(s, k);
        seq![line_text(s, k, end)] + lines_from(s, end + 1)
    }
}

/// What some strings hold.
pub open spec fn views(v: Seq<String>) -> Seq<Seq<char>> {
    v.map_values(|s: String| s@)
}

/// The lines of a text.
pub fn lines_of(s: &str) -> (r: Vec<String>)
    ensures
        views(r@) == lines_from(s@, 0),
{
    let chars = chars_of(s);
    let n = chars.len();
    let mut r: Vec<String> = Vec::new();
    let mut k: usize = 0;
    let mut done = n == 0;
    let ghost all = lines_from(s@, 0);
    assert(views(r@) + all =~= all);
    while !done
        invariant
            n == chars@.len(),
            chars@ == s@,
            !done ==> k < n,
            done ==> lines_from(s@, k as int).len() == 0,
            views(r@) + lines_from(s@, k as int) == all,
        decreases n - k, (if done { 0int } else { 1int }),
    {
        let mut end = k;
        while end < n && chars[end] != '\n'
            invariant
                k <= end <= n == chars@.len(),
                chars@ == s@,
                line_end(s@, k as int) == line_end(s@, end as int),
            decreases n - end,
        {
            end = end + 1;
        }
        let ghost line = line_text(s@, k as int, end as int);
        let ghost rest = lines_from(s@, end + 1);
        assert(lines_from(s@, k as int) == seq![line] + rest);
        let cut = if end < n && k < end && chars[end - 1] == '\r' {
            end - 1
        } else {
            end
        };
        let ghost before = r@;
        r.push(string_of(&chars, k, cut));
        proof {
            assert(views(r@) =~= views(before).push(line));
            assert(views(r@) + rest =~= views(before) + (seq![line] + rest));
        }
        if end == n {
            assert(rest =~= lines_from(s@, n as int));
            k = n;
            done = true;
        } else {
            k = end + 1;
            done = k == n;
        }
    }
    assert(lines_from(s@, k as int) =~= Seq::<Seq<char>>::empty());
    assert(views(r@) + Seq::<Seq<char>>::empty() =~= views(r@));
    r
}

/// The text does not hold `c`.
pub open spec fn free_of(s: Seq<char>, c: char) -> bool {
    forall|i: int| 0 <= i < s.len() ==> #[trigger] s[i] != c
}

/// Two texts that are joined by `c` can be told again where the last one does not
/// hold `c`.
pub(crate) proof fn lemma_last_field(a: Seq<char>, x: Seq<char>, b: Seq<char>, y: Seq<char>, c: char)
    requires
        a + seq![c] + x == b + seq![c] + y,
        free_of(x, c),
        free_of(y, c),
    ensures
        a == b,
        x == y,
{
    let p = a + seq![c];
    let q = b + seq![c];
    let s = p + x;
    let t = q + y;
    assert(s.len() == p.len() + x.len() && t.len() == q.len() + y.len());
    assert(s[a.len() as int] == p[a.len() as int]);
    assert(t[b.len() as int] == q[b.len() as int]);
    if a.len() < b.len() {
        let k = b.len() as int;
        assert(s[k] == x[k - p.len()]);
    }
    if b.len() < a.len() {
        let k = a.len() as int;
        assert(t[k] == y[k - q.len()]);
    }
    assert forall|i: int| 0 <= i < a.len() implies a[i] == b[i] by {
        assert(s[i] == p[i] && t[i] == q[i]);
    }
    assert(a =~= b);
    assert forall|i: int| 0 <= i < x.len() implies x[i] == y[i] by {
        assert(s[p.len() + i] == x[i] && t[q.len() + i] == y[i]);
    }
    assert(x =~= y);
}

// ── what the operations do, seen from outside ──

/// White space is what Unicode calls so: tab, line feed, line tabulation, form feed,
/// carriage return, the spaces and the separators of lines and paragraphs.
pub proof fn white_space_is_that_of_unicode(c: char)
    ensures
        is_space(c) <==> (c == '\t' || c == '\n' || c == '\u{b}' || c == '\u{c}' || c == '\r' || c == ' ' || c
            == '\u{85}' || c == '\u{a0}' || c == '\u{1680}' || '\u{2000}' <= c <= '\u{200a}' || c == '\u{2028}' || c
            == '\u{2029}' || c == '\u{202f}' || c == '\u{205f}' || c == '\u{3000}'),
{
}

pub(crate) proof fn lemma_cut_trailing(s: Seq<char>, n: int)
    requires
        0 <= n <= s.len(),
        n > 0 ==> !is_space(s[n - 1]),
        forall|j: int| n <= j < s.len() ==> is_space(#[trigger] s[j]),
    ensures
        without_trailing_space(s) == s.take(n),
    decreases s.len(),
{
    if s.len() == n {
        assert(s.take(n) =~= s);
    } else {
        assert(is_space(s[s.len() - 1]));
        lemma_cut_trailing(s.drop_last(), n);
        assert(s.drop_last().take(n) =~= s.take(n));
    }
}

pub(crate) proof fn lemma_cut_leading(s: Seq<char>, n: int)
    requires
        0 <= n <= s.len(),
        n < s.len() ==> !is_space(s[n]),
        forall|j: int| 0 <= j < n ==> is_space(#[trigger] s[j]),
    ensures
        without_leading_space(s) == s.skip(n),
    decreases s.len(),
{
    if n == 0 {
        assert(s.skip(0) =~= s);
    } else {
        assert(is_space(s[0]));
        let t = s.drop_first();
        assert forall|j: int| 0 <= j < n - 1 implies is_space(#[trigger] t[j]) by {
            assert(t[j] == s[j + 1]);
        }
        if n < s.len() {
            assert(t[n - 1] == s[n]);
        }
        lemma_cut_leading(t, n - 1);
        assert(t.skip(n - 1) =~= s.skip(n));
    }
}

/// Of `before + middle + behind`, where the outer parts are white space and the
/// middle neither starts nor ends with any, trimming leaves the middle; its ends are
/// what first and last can be seen.
pub proof fn trimming_leaves_the_middle(before: Seq<char>, middle: Seq<char>, behind: Seq<char>)
    requires
        forall|i: int| 0 <= i < before.len() ==> is_space(#[trigger] before[i]),
        forall|i: int| 0 <= i < behind.len() ==> is_space(#[trigger] behind[i]),
        middle.len() > 0 ==> !is_space(middle[0]) && !is_space(middle.last()),
    ensures
        trimmed(before + middle + behind) == middle,
        middle.len() > 0 ==> first_visible(before + middle + behind) == Some(middle[0]),
        middle.len() > 0 ==> last_visible(before + middle + behind) == Some(middle.last()),
        middle.len() == 0 ==> first_visible(before + middle + behind) is None,
        middle.len() == 0 ==> last_visible(before + middle + behind) is None,
{
    let s = before + middle + behind;
    if middle.len() == 0 {
        assert forall|j: int| 0 <= j < s.len() implies is_space(#[trigger] s[j]) by {
            if j < before.len() {
                assert(s[j] == before[j]);
            } else {
                assert(s[j] == behind[j - before.len()]);
            }
        }
        lemma_cut_leading(s, s.len() as int);
        lemma_cut_trailing(s, 0);
        assert(trimmed(s) =~= middle);
    } else {
        let a = before.len() as int;
        let b = a + middle.len();
        assert(s[a] == middle[0]);
        assert(s[b - 1] == middle[middle.len() - 1]);
        assert forall|j: int| 0 <= j < a implies is_space(#[trigger] s[j]) by {
            assert(s[j] == before[j]);
        }
        assert forall|j: int| b <= j < s.len() implies is_space(#[trigger] s[j]) by {
            assert(s[j] == behind[j - b]);
        }
        lemma_cut_leading(s, a);
        lemma_cut_trailing(s, b);
        let t = s.skip(a);
        assert(t[middle.len() - 1] == s[b - 1]);
        assert forall|j: int| middle.len() <= j < t.len() implies is_space(#[trigger] t[j]) by {
            assert(t[j] == s[j + a]);
        }
        lemma_cut_trailing(t, middle.len() as int);
        assert(t.take(middle.len() as int) =~= middle);
    }
}

proof fn lemma_line_end_at(s: Seq<char>, k: int, n: int)
    requires
        0 <= k <= n <= s.len(),
        n < s.len() ==> s[n] == '\n',
        forall|j: int| k <= j < n ==> #[trigger] s[j] != '\n',
    ensures
        line_end(s, k) == n,
    decreases n - k,
{
    if k < n {
        lemma_line_end_at(s, k + 1, n);
    }
}

proof fn lemma_lines_behind(a: Seq<char>, b: Seq<char>, k: int)
    requires
        0 <= k <= b.len(),
    ensures
        lines_from(a + b, a.len() + k) == lines_from(b, k),
    decreases b.len() + 1 - k,
{
    let s = a + b;
    let n = a.len() as int;
    if k < b.len() {
        lemma_line_end(b, k);
        lemma_line_end(s, n + k);
        let e = line_end(b, k);
        assert(line_end(s, n + k) == n + e) by {
            lemma_ends_behind(a, b, k);
        }
        assert(line_text(s, n + k, n + e) =~= line_text(b, k, e)) by {
            if e > k {
                assert(s[n + e - 1] == b[e - 1]);
            }
        }
        if e < b.len() {
            lemma_lines_behind(a, b, e + 1);
        } else {
            assert(lines_from(s, n + e + 1) =~= lines_from(b, e + 1));
        }
    }
}

proof fn lemma_ends_behind(a: Seq<char>, b: Seq<char>, k: int)
    requires
        0 <= k <= b.len(),
    ensures
        line_end(a + b, a.len() + k) == a.len() + line_end(b, k),
    decreases b.len() - k,
{
    if k < b.len() {
        assert((a + b)[a.len() + k] == b[k]);
        if b[k] != '\n' {
            lemma_ends_behind(a, b, k + 1);
        }
    }
}

/// A text without line breaks is one line, or none where it is empty. What comes
/// before the first line break is a line, and the rest has lines of its own; a
/// carriage return before the break belongs to the break.
pub proof fn lines_are_what_stands_between_breaks(a: Seq<char>, b: Seq<char>)
    requires
        forall|i: int| 0 <= i < a.len() ==> #[trigger] a[i] != '\n',
    ensures
        lines_from(a, 0) == if a.len() == 0 {
            Seq::<Seq<char>>::empty()
        } else {
            seq![a]
        },
        a.len() == 0 || a.last() != '\r' ==> lines_from(a + seq!['\n'] + b, 0) == seq![a] + lines_from(b, 0),
        lines_from(a + seq!['\r', '\n'] + b, 0) == seq![a] + lines_from(b, 0),
{
    let n = a.len() as int;
    if n > 0 {
        lemma_line_end_at(a, 0, n);
        assert(line_text(a, 0, n) =~= a);
        assert(lines_from(a, n + 1) =~= Seq::<Seq<char>>::empty());
        assert(lines_from(a, 0) =~= seq![a]);
    }
    let s = a + seq!['\n'] + b;
    assert forall|j: int| 0 <= j < n implies #[trigger] s[j] != '\n' by {
        assert(s[j] == a[j]);
    }
    assert(s[n] == '\n');
    lemma_line_end_at(s, 0, n);
    if n == 0 || a.last() != '\r' {
        if n > 0 {
            assert(s[n - 1] == a[n - 1]);
        }
        assert(line_text(s, 0, n) =~= a);
        lemma_lines_behind(a + seq!['\n'], b, 0);
    }
    let t = a + seq!['\r', '\n'] + b;
    assert forall|j: int| 0 <= j < n + 1 implies #[trigger] t[j] != '\n' by {
        if j < n {
            assert(t[j] == a[j]);
        } else {
            assert(t[j] == '\r');
        }
    }
    assert(t[n + 1] == '\n');
    assert(t[n] == '\r');
    lemma_line_end_at(t, 0, n + 1);
    assert(line_text(t, 0, n + 1) =~= a);
    lemma_lines_behind(a + seq!['\r', '\n'], b, 0);
}

proof fn lemma_replaced_behind(a: Seq<char>, b: Seq<char>, pat: Seq<char>, with: Seq<char>, k: int)
    requires
        0 <= k <= b.len(),
        pat.len() > 0,
    ensures
        replaced_from(a + b, pat, with, a.len() + k) == replaced_from(b, pat, with, k),
    decreases b.len() - k,
{
    let s = a + b;
    let n = a.len() as int;
    if k < b.len() {
        assert(stands_at(s, pat, n + k) == stands_at(b, pat, k)) by {
            if k + pat.len() <= b.len() {
                assert(s.subrange(n + k, n + k + pat.len()) =~= b.subrange(k, k + pat.len()));
            }
        }
        assert(s[n + k] == b[k]);
        if stands_at(b, pat, k) {
            lemma_replaced_behind(a, b, pat, with, k + pat.len());
        } else {
            lemma_replaced_behind(a, b, pat, with, k + 1);
        }
    }
}

proof fn lemma_replaced_before(s: Seq<char>, pat: Seq<char>, with: Seq<char>, k: int, n: int)
    requires
        0 <= k <= n <= s.len(),
        pat.len() > 0,
        forall|j: int| 0 <= j < n ==> !#[trigger] stands_at(s, pat, j),
    ensures
        replaced_from(s, pat, with, k) == s.subrange(k, n) + replaced_from(s, pat, with, n),
    decreases n - k,
{
    if k < n {
        lemma_replaced_before(s, pat, with, k + 1, n);
        assert(!stands_at(s, pat, k));
        assert(seq![s[k]] + (s.subrange(k + 1, n) + replaced_from(s, pat, with, n)) =~= s.subrange(k, n)
            + replaced_from(s, pat, with, n));
    } else {
        assert(s.subrange(k, n) + replaced_from(s, pat, with, n) =~= replaced_from(s, pat, with, n));
    }
}

/// The first place where `pat` stands is replaced, what comes before it stays, and
/// what comes behind it is treated likewise.
pub proof fn replacing_goes_from_left_to_right(a: Seq<char>, pat: Seq<char>, b: Seq<char>, with: Seq<char>)
    requires
        pat.len() > 0,
        forall|k: int| 0 <= k < a.len() ==> #[trigger] (a + pat + b).subrange(k, k + pat.len()) != pat,
    ensures
        replaced(a + pat + b, pat, with) == a + with + replaced(b, pat, with),
{
    let s = a + pat + b;
    let n = a.len() as int;
    assert forall|j: int| 0 <= j < n implies !#[trigger] stands_at(s, pat, j) by {}
    lemma_replaced_before(s, pat, with, 0, n);
    assert(s.subrange(0, n) =~= a);
    assert(s.subrange(n, n + pat.len()) =~= pat);
    assert(stands_at(s, pat, n));
    lemma_replaced_behind(a + pat, b, pat, with, 0);
    assert(a + (with + replaced(b, pat, with)) =~= a + with + replaced(b, pat, with));
}

/// `pat` occurs in a text exactly when the text is `pat` with something before and
/// something behind it, and it is found at the first such place.
pub proof fn what_occurs_is_a_part(s: Seq<char>, pat: Seq<char>)
    ensures
        occurs(s, pat) <==> exists|k: int| 0 <= k && k + pat.len() <= s.len() && #[trigger] s.subrange(k, k + pat.len()) == pat,
        match first_occurrence(s, pat, 0) {
            Some(k) => 0 <= k && k + pat.len() <= s.len() && s.subrange(k, k + pat.len()) == pat && forall|j: int|
                0 <= j < k && j + pat.len() <= s.len() ==> #[trigger] s.subrange(j, j + pat.len()) != pat,
            None => !occurs(s, pat),
        },
{
    if exists|k: int| 0 <= k && k + pat.len() <= s.len() && #[trigger] s.subrange(k, k + pat.len()) == pat {
        let k = choose|k: int| 0 <= k && k + pat.len() <= s.len() && #[trigger] s.subrange(k, k + pat.len()) == pat;
        assert(stands_at(s, pat, k));
    }
    if occurs(s, pat) {
        let k = choose|k: int| 0 <= k <= s.len() && #[trigger] stands_at(s, pat, k);
        assert(s.subrange(k, k + pat.len()) == pat);
    }
    lemma_first_occurrence(s, pat, 0);
    if first_occurrence(s, pat, 0) is Some {
        let k = first_occurrence(s, pat, 0)->0;
        assert(stands_at(s, pat, k));
        assert forall|j: int| 0 <= j < k && j + pat.len() <= s.len() implies #[trigger] s.subrange(j, j + pat.len()) != pat by {
            assert(!stands_at(s, pat, j));
        }
    }
}

proof fn lemma_first_occurrence(s: Seq<char>, pat: Seq<char>, k: int)
    requires
        0 <= k,
    ensures
        match first_occurrence(s, pat, k) {
            Some(r) => k <= r && stands_at(s, pat, r) && forall|j: int| k <= j < r ==> !#[trigger] stands_at(s, pat, j),
            None => forall|j: int| k <= j <= s.len() ==> !#[trigger] stands_at(s, pat, j),
        },
    decreases s.len() + 1 - k,
{
    if k <= s.len() && !stands_at(s, pat, k) {
        lemma_first_occurrence(s, pat, k + 1);
    }
}

/// A number of one digit is that digit; each further digit is put behind the numeral
/// of what stands before it.
pub proof fn numerals_are_in_base_ten(n: nat)
    ensures
        decimal(0) == seq!['0'] && decimal(1) == seq!['1'] && decimal(2) == seq!['2'] && decimal(3) == seq!['3'],
        decimal(4) == seq!['4'] && decimal(5) == seq!['5'] && decimal(6) == seq!['6'] && decimal(7) == seq!['7'],
        decimal(8) == seq!['8'] && decimal(9) == seq!['9'],
        n > 0 ==> forall|d: nat| d < 10 ==> #[trigger] decimal(10 * n + d) == decimal(n) + decimal(d),
        n > 0 ==> signed_decimal(-n) == seq!['-'] + decimal(n),
        signed_decimal(n as int) == decimal(n),
{
    assert forall|d: nat| n > 0 && d < 10 implies #[trigger] decimal(10 * n + d) == decimal(n) + decimal(d) by {
        assert((10 * n + d) / 10 == n && (10 * n + d) % 10 == d) by (nonlinear_arith)
            requires
                d < 10,
        ;
        assert(decimal(n).push(digit(d)) =~= decimal(n) + seq![digit(d)]);
    }
}

proof fn lemma_value_of_push(s: Seq<char>, c: char, n: nat)
    requires
        n <= s.len(),
    ensures
        digits_value(s.push(c), n) == digits_value(s, n),
    decreases n,
{
    if n > 0 {
        lemma_value_of_push(s, c, (n - 1) as nat);
        assert(s.push(c)[n - 1] == s[n - 1]);
    }
}

proof fn lemma_value_of_decimal(n: nat)
    ensures
        digits_value(decimal(n), decimal(n).len()) == n,
        all_digits(decimal(n)),
        decimal(n).len() > 0,
    decreases n,
{
    if n >= 10 {
        lemma_value_of_decimal(n / 10);
        let d = decimal(n / 10);
        lemma_value_of_push(d, digit(n % 10), d.len());
        assert(decimal(n)[d.len() as int] == digit(n % 10));
        assert forall|i: int| 0 <= i < decimal(n).len() implies '0' <= #[trigger] decimal(n)[i] <= '9' by {
            if i < d.len() {
                assert(decimal(n)[i] == d[i]);
            }
        }
    } else {
        let s = decimal(n);
        assert(s[0] == digit(n));
        assert(digits_value(s, 0) == 0);
        assert(digits_value(s, 1) == 10 * digits_value(s, 0) + (s[0] as int - 48) as nat);
    }
}

/// Reading a numeral gives the number back, with or without a plus sign, where it is
/// not too large; leading zeros change nothing; what holds anything but digits is no
/// number, and neither is nothing.
pub proof fn reading_a_numeral_gives_the_number(n: nat, max: nat, s: Seq<char>)
    ensures
        parsed_number(decimal(n), max) == if n <= max {
            Some(n)
        } else {
            None
        },
        parsed_number(seq!['+'] + decimal(n), max) == parsed_number(decimal(n), max),
        parsed_number(Seq::empty(), max) is None,
        s.len() > 0 && s[0] != '+' ==> parsed_number(seq!['0'] + s, max) == parsed_number(s, max),
        (exists|i: int| 0 < i < s.len() && !('0' <= #[trigger] s[i] <= '9')) ==> parsed_number(s, max) is None,
        s.len() > 0 && s[0] != '+' && !('0' <= s[0] <= '9') ==> parsed_number(s, max) is None,
{
    lemma_value_of_decimal(n);
    let d = decimal(n);
    assert('0' <= d[0] <= '9');
    assert(numeral_digits(d) == d);
    let p = seq!['+'] + d;
    assert(p[0] == '+');
    assert(p.drop_first() =~= d);
    if s.len() > 0 && s[0] != '+' {
        let z = seq!['0'] + s;
        assert(z[0] == '0');
        lemma_leading_zero(s, s.len());
        assert(all_digits(z) == all_digits(s)) by {
            if all_digits(s) {
                assert forall|i: int| 0 <= i < z.len() implies '0' <= #[trigger] z[i] <= '9' by {
                    if i > 0 {
                        assert(z[i] == s[i - 1]);
                    }
                }
            }
            if all_digits(z) {
                assert forall|i: int| 0 <= i < s.len() implies '0' <= #[trigger] s[i] <= '9' by {
                    assert(z[i + 1] == s[i]);
                }
            }
        }
    }
    if exists|i: int| 0 < i < s.len() && !('0' <= #[trigger] s[i] <= '9') {
        let i = choose|i: int| 0 < i < s.len() && !('0' <= #[trigger] s[i] <= '9');
        if s[0] == '+' {
            assert(s.drop_first()[i - 1] == s[i]);
        }
    }
}

proof fn lemma_leading_zero(s: Seq<char>, n: nat)
    requires
        n <= s.len(),
    ensures
        digits_value(seq!['0'] + s, n + 1) == digits_value(s, n),
    decreases n,
{
    let z = seq!['0'] + s;
    if n > 0 {
        lemma_leading_zero(s, (n - 1) as nat);
        assert(z[n as int] == s[n - 1]);
    } else {
        assert(z[0] == '0');
        assert(digits_value(z, 0) == 0);
        assert(digits_value(z, 1) == 10 * digits_value(z, 0) + (z[0] as int - 48) as nat);
    }
}

} // verus!
