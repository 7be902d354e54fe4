//! Keys of services, kept in base64, and identifiers.
use base64::Engine;
use crate::text::{free_of, lemma_last_field};
use vstd::prelude::*;
use vstd::utf8::{decode_utf8, encode_utf8, encode_utf8_decode_utf8, encode_utf8_valid_utf8, valid_utf8};

verus! {

/// Bytes in base64, with the standard alphabet and padding.
pub uninterp spec fn base64_text(bytes: Seq<u8>) -> Seq<char>;

/// The bytes of a text in base64; none where the text is no base64.
pub uninterp spec fn base64_bytes(text: Seq<char>) -> Option<Seq<u8>>;

/// Bytes in base64: `encode` of `base64::engine::general_purpose::STANDARD`. The
/// text is not empty where there are bytes, and decoding it gives them back.
#[verifier::external_body]
pub(crate) fn to_base64(bytes: &[u8]) -> (r: String)
    ensures
        r@ == base64_text(bytes@),
        bytes@.len() > 0 ==> r@.len() > 0,
        base64_bytes(r@) == Some(bytes@),
{
    base64::engine::general_purpose::STANDARD.encode(bytes)
}

/// The bytes of a text in base64: `decode` of
/// `base64::engine::general_purpose::STANDARD`.
#[verifier::external_body]
fn from_base64(text: &str) -> (r: Option<Vec<u8>>)
    ensures
        match r {
            Some(v) => base64_bytes(text@) == Some(v@),
            None => base64_bytes(text@) is None,
        },
{
    base64::engine::general_purpose::STANDARD.decode(text.as_bytes()).ok()
}

/// The text that bytes encode: `String::from_utf8`, which succeeds exactly on
/// valid UTF-8.
#[verifier::external_body]
fn utf8_text(bytes: Vec<u8>) -> (r: Option<String>)
    ensures
        match r {
            Some(s) => valid_utf8(bytes@) && s@ == decode_utf8(bytes@),
            None => !valid_utf8(bytes@),
        },
{
    String::from_utf8(bytes).ok()
}

/// The form in which a key is kept.
pub open spec fn kept_key(key: Seq<char>) -> Seq<char> {
    if key.len() == 0 {
        Seq::empty()
    } else {
        base64_text(encode_utf8(key))
    }
}

/// The key of which these bytes were kept; empty where they are no text.
pub open spec fn key_of_bytes(bytes: Option<Seq<u8>>) -> Seq<char> {
    match bytes {
        Some(b) => if valid_utf8(b) {
            decode_utf8(b)
        } else {
            Seq::empty()
        },
        None => Seq::empty(),
    }
}

/// The key that was kept in this form; empty where it is none.
pub open spec fn read_key(encoded: Seq<char>) -> Seq<char> {
    if encoded.len() == 0 {
        Seq::empty()
    } else {
        key_of_bytes(base64_bytes(encoded))
    }
}

/// The form in which a key is kept. Reading it gives the key back.
pub fn encode_key(key: &str) -> (r: String)
    ensures
        r@ == kept_key(key@),
        read_key(r@) == key@,
{
    if key.is_empty() {
        assert(key@ =~= Seq::<char>::empty());
        String::new()
    } else {
        let bytes = key.as_bytes();
        proof {
            encode_utf8_valid_utf8(key@);
            encode_utf8_decode_utf8(key@);
            if bytes@.len() == 0 {
                assert(decode_utf8(bytes@) =~= Seq::<char>::empty());
            }
        }
        to_base64(bytes)
    }
}

/// The key of which these bytes were kept.
pub fn key_from_bytes(bytes: Option<Vec<u8>>) -> (r: String)
    ensures
        r@ == key_of_bytes(
            match bytes {
                Some(b) => Some(b@),
                None => None,
            },
        ),
{
    match bytes {
        Some(b) => match utf8_text(b) {
            Some(s) => s,
            None => String::new(),
        },
        None => String::new(),
    }
}

/// The key that was kept in this form.
pub fn decode_key(encoded: &str) -> (r: String)
    ensures
        r@ == read_key(encoded@),
{
    if encoded.is_empty() {
        String::new()
    } else {
        key_from_bytes(from_base64(encoded))
    }
}

/// One hexadecimal digit, in lower case.
pub open spec fn hex_digit(d: nat) -> char {
    if d < 10 {
        ((48 + d) as u8) as char
    } else {
        ((87 + d) as u8) as char
    }
}

/// The hexadecimal numeral of `n`, in lower case and without leading zeros.
pub open spec fn hexadecimal(n: nat) -> Seq<char>
    decreases n,
{
    if n < 16 {
        seq![hex_digit(n)]
    } else {
        hexadecimal(n / 16).push(hex_digit(n % 16))
    }
}

fn push_hex(out: &mut String, n: u128)
    ensures
        final(out)@ == old(out)@ + hexadecimal(n as nat),
    decreases n,
{
    if n >= 16 {
        push_hex(out, n / 16);
    }
    let d: u8 = (n % 16) as u8;
    let b: u8 = if d < 10 {
        48 + d
    } else {
        87 + d
    };
    out.push(b as char);
    assert(out@ =~= old(out)@ + hexadecimal(n as nat));
}

/// An identifier: a prefix, a time in nanoseconds and the number of a process.
pub open spec fn id_text(prefix: Seq<char>, nanos: nat, process: nat) -> Seq<char> {
    prefix + seq!['-'] + hexadecimal(nanos) + seq!['-'] + hexadecimal(process)
}

/// An identifier: a prefix, a time in nanoseconds and the number of a process.
pub fn stamped_id(prefix: &str, nanos: u128, process: u32) -> (r: String)
    ensures
        r@ == id_text(prefix@, nanos as nat, process as nat),
{
    let mut r = prefix.to_owned();
    r.push('-');
    push_hex(&mut r, nanos);
    r.push('-');
    push_hex(&mut r, process as u128);
    assert(r@ =~= id_text(prefix@, nanos as nat, process as nat));
    r
}

proof fn lemma_hexadecimal(n: nat)
    ensures
        hexadecimal(n).len() > 0,
        free_of(hexadecimal(n), '-'),
    decreases n,
{
    if n >= 16 {
        lemma_hexadecimal(n / 16);
    }
}

proof fn lemma_hexadecimal_injective(a: nat, b: nat)
    requires
        hexadecimal(a) == hexadecimal(b),
    ensures
        a == b,
    decreases a,
{
    lemma_hexadecimal(a / 16);
    lemma_hexadecimal(b / 16);
    assert(hexadecimal(a).last() == hex_digit(a % 16));
    assert(hexadecimal(b).last() == hex_digit(b % 16));
    if a >= 16 {
        assert(hexadecimal(a).drop_last() =~= hexadecimal(a / 16));
        assert(hexadecimal(a).len() > 1);
    }
    if b >= 16 {
        assert(hexadecimal(b).drop_last() =~= hexadecimal(b / 16));
        assert(hexadecimal(b).len() > 1);
    }
    if a >= 16 && b >= 16 {
        lemma_hexadecimal_injective(a / 16, b / 16);
    }
}

/// Two identifiers are the same only if their prefix, their time and their
/// process are the same.
pub proof fn ids_tell_times_and_processes_apart(
    prefix1: Seq<char>,
    nanos1: nat,
    process1: nat,
    prefix2: Seq<char>,
    nanos2: nat,
    process2: nat,
)
    requires
        id_text(prefix1, nanos1, process1) == id_text(prefix2, nanos2, process2),
    ensures
        prefix1 == prefix2,
        nanos1 == nanos2,
        process1 == process2,
{
    lemma_hexadecimal(nanos1);
    lemma_hexadecimal(nanos2);
    lemma_hexadecimal(process1);
    lemma_hexadecimal(process2);
    let a = prefix1 + seq!['-'] + hexadecimal(nanos1);
    let b = prefix2 + seq!['-'] + hexadecimal(nanos2);
    lemma_last_field(a, hexadecimal(process1), b, hexadecimal(process2), '-');
    lemma_last_field(prefix1, hexadecimal(nanos1), prefix2, hexadecimal(nanos2), '-');
    lemma_hexadecimal_injective(nanos1, nanos2);
    lemma_hexadecimal_injective(process1, process2);
}

/// A letter in lower case where it is an ASCII capital.
pub open spec fn ascii_lower(c: char) -> char {
    if 'A' <= c <= 'Z' {
        ((c as u8 + 32) as u8) as char
    } else {
        c
    }
}

/// Two texts that differ at most in the case of ASCII letters.
pub open spec fn same_but_case(a: Seq<char>, b: Seq<char>) -> bool {
    a.len() == b.len() && forall|i: int| 0 <= i < a.len() ==> ascii_lower(#[trigger] a[i]) == ascii_lower(b[i])
}

fn lower_ascii(c: char) -> (r: char)
    ensures
        r == ascii_lower(c),
{
    if 'A' <= c && c <= 'Z' {
        ((c as u8) + 32) as char
    } else {
        c
    }
}

/// Whether two texts differ at most in the case of ASCII letters.
pub fn equal_but_case(a: &str, b: &str) -> (r: bool)
    ensures
        r == same_but_case(a@, b@),
{
    let x = crate::text::chars_of(a);
    let y = crate::text::chars_of(b);
    if x.len() != y.len() {
        return false;
    }
    let mut i: usize = 0;
    while i < x.len()
        invariant
            i <= x@.len() == y@.len(),
            x@ == a@,
            y@ == b@,
            forall|k: int| 0 <= k < i ==> ascii_lower(#[trigger] a@[k]) == ascii_lower(b@[k]),
        decreases x@.len() - i,
    {
        if lower_ascii(x[i]) != lower_ascii(y[i]) {
            assert(ascii_lower(a@[i as int]) != ascii_lower(b@[i as int]));
            return false;
        }
        i = i + 1;
    }
    true
}

/// Hexadecimal numerals have the digits `0` to `9` and `a` to `f`; each further digit is put
/// behind the numeral of what stands before it.
pub proof fn hexadecimal_numerals_are_in_base_sixteen(n: nat)
    ensures
        hexadecimal(0) == seq!['0'] && hexadecimal(9) == seq!['9'] && hexadecimal(10) == seq!['a'] && hexadecimal(11) == seq!['b'],
        hexadecimal(12) == seq!['c'] && hexadecimal(13) == seq!['d'] && hexadecimal(14) == seq!['e'] && hexadecimal(15) == seq!['f'],
        n > 0 ==> forall|d: nat| d < 16 ==> #[trigger] hexadecimal(16 * n + d) == hexadecimal(n) + hexadecimal(d),
{
    assert forall|d: nat| n > 0 && d < 16 implies #[trigger] hexadecimal(16 * n + d) == hexadecimal(n) + hexadecimal(d) by {
        assert((16 * n + d) / 16 == n && (16 * n + d) % 16 == d) by (nonlinear_arith)
            requires
                d < 16,
        ;
        assert(hexadecimal(n).push(hex_digit(d)) =~= hexadecimal(n) + seq![hex_digit(d)]);
    }
}

/// Only the case of the letters `A` to `Z` is left out of account.
pub proof fn only_the_case_of_letters_is_left_out(c: char, a: Seq<char>, b: Seq<char>)
    ensures
        same_but_case(a, a),
        same_but_case(a, b) ==> same_but_case(b, a),
        'A' <= c <= 'Z' ==> ascii_lower(c) as int == c as int + 32,
        !('A' <= c <= 'Z') ==> ascii_lower(c) == c,
{
}

} // verus!
