//! Classes of characters that tell formulas from running text.
use vstd::prelude::*;

verus! {

/// Operators: relations, binary operations and other mathematical signs.
pub open spec fn operator_char(c: char) -> bool {
    ||| c == '=' || c == '+' || c == '−' || c == '×' || c == '÷' || c == '±'
    ||| c == '<' || c == '>' || c == '≤' || c == '≥' || c == '≠' || c == '≡'
    ||| c == '≈' || c == '∝' || c == '∞' || c == '∂' || c == '∑' || c == '∏'
    ||| c == '∫' || c == '→' || c == '←' || c == '⇒' || c == '⇔' || c == '∀'
    ||| c == '∃' || c == '∈' || c == '∉' || c == '∪' || c == '∩' || c == '⊆'
    ||| c == '⊂' || c == '⊇' || c == '⊃' || c == '∧' || c == '∨' || c == '¬'
    ||| c == '∣' || c == '∥' || c == '·' || c == '⋅'
}

/// Greek letters, mathematical alphanumerics and the asterisks.
pub open spec fn math_char(c: char) -> bool {
    ||| 0x0370 <= c as int <= 0x03FF
    ||| 0x1D400 <= c as int <= 0x1D7FF
    ||| c == '∗' || c == '*'
}

/// Signs of equality, inequality and membership.
pub open spec fn relation_char(c: char) -> bool {
    ||| c == '=' || c == '≈' || c == '≠' || c == '≤' || c == '≥' || c == '<' || c == '>'
    ||| c == '≡' || c == '∈' || c == '∉' || c == '⊆' || c == '⊂' || c == '⊇' || c == '⊃'
}

/// The common Chinese, Japanese and Korean ideographs.
pub open spec fn cjk_char(c: char) -> bool {
    ||| 0x4e00 <= c as int <= 0x9fff
    ||| 0x3400 <= c as int <= 0x4dbf
    ||| 0xf900 <= c as int <= 0xfaff
}

pub fn is_operator_char(c: char) -> (r: bool)
    ensures
        r == operator_char(c),
{
    matches!(
        c,
        '=' | '+' | '−' | '×' | '÷' | '±' | '<' | '>' | '≤' | '≥' | '≠' | '≡' | '≈' | '∝' | '∞'
            | '∂' | '∑' | '∏' | '∫' | '→' | '←' | '⇒' | '⇔' | '∀' | '∃' | '∈' | '∉' | '∪' | '∩'
            | '⊆' | '⊂' | '⊇' | '⊃' | '∧' | '∨' | '¬' | '∣' | '∥' | '·' | '⋅'
    )
}

pub fn is_math_symbol_char(c: char) -> (r: bool)
    ensures
        r == math_char(c),
{
    let code: u32 = c as u32;
    (0x0370 <= code && code <= 0x03FF) || (0x1D400 <= code && code <= 0x1D7FF) || matches!(
        c,
        '∗' | '*'
    )
}

pub fn is_relation_char(c: char) -> (r: bool)
    ensures
        r == relation_char(c),
{
    matches!(
        c,
        '=' | '≈' | '≠' | '≤' | '≥' | '<' | '>' | '≡' | '∈' | '∉' | '⊆' | '⊂' | '⊇' | '⊃'
    )
}

pub fn is_cjk(c: char) -> (r: bool)
    ensures
        r == cjk_char(c),
{
    let code: u32 = c as u32;
    (0x4e00 <= code && code <= 0x9fff) || (0x3400 <= code && code <= 0x4dbf) || (0xf900 <= code
        && code <= 0xfaff)
}

/// The operators, the relations and the other signs of mathematics, and the ideographs.
pub proof fn signs_are_these_characters(c: char)
    ensures
        operator_char(c) <==> "=+−×÷±<>≤≥≠≡≈∝∞∂∑∏∫→←⇒⇔∀∃∈∉∪∩⊆⊂⊇⊃∧∨¬∣∥·⋅"@.contains(c),
        relation_char(c) <==> "=≈≠≤≥<>≡∈∉⊆⊂⊇⊃"@.contains(c),
        relation_char(c) ==> operator_char(c),
        math_char(c) <==> '\u{370}' <= c <= '\u{3ff}' || '\u{1d400}' <= c <= '\u{1d7ff}' || c == '*' || c == '∗',
        cjk_char(c) <==> '\u{4e00}' <= c <= '\u{9fff}' || '\u{3400}' <= c <= '\u{4dbf}' || '\u{f900}' <= c <= '\u{faff}',
{
    reveal_strlit("=+−×÷±<>≤≥≠≡≈∝∞∂∑∏∫→←⇒⇔∀∃∈∉∪∩⊆⊂⊇⊃∧∨¬∣∥·⋅");
    reveal_strlit("=≈≠≤≥<>≡∈∉⊆⊂⊇⊃");
    let s = "=+−×÷±<>≤≥≠≡≈∝∞∂∑∏∫→←⇒⇔∀∃∈∉∪∩⊆⊂⊇⊃∧∨¬∣∥·⋅"@;
    let t = "=≈≠≤≥<>≡∈∉⊆⊂⊇⊃"@;
    assert(s[0] == '=' && s[1] == '+' && s[2] == '−' && s[3] == '×' && s[4] == '÷' && s[5] == '±' && s[6] == '<' && s[7] == '>');
    assert(s[8] == '≤' && s[9] == '≥' && s[10] == '≠' && s[11] == '≡' && s[12] == '≈' && s[13] == '∝' && s[14] == '∞' && s[15] == '∂');
    assert(s[16] == '∑' && s[17] == '∏' && s[18] == '∫' && s[19] == '→' && s[20] == '←' && s[21] == '⇒' && s[22] == '⇔' && s[23] == '∀');
    assert(s[24] == '∃' && s[25] == '∈' && s[26] == '∉' && s[27] == '∪' && s[28] == '∩' && s[29] == '⊆' && s[30] == '⊂' && s[31] == '⊇');
    assert(s[32] == '⊃' && s[33] == '∧' && s[34] == '∨' && s[35] == '¬' && s[36] == '∣' && s[37] == '∥' && s[38] == '·' && s[39] == '⋅');
    assert(s.len() == 40);
    assert(t[0] == '=' && t[1] == '≈' && t[2] == '≠' && t[3] == '≤' && t[4] == '≥' && t[5] == '<' && t[6] == '>' && t[7] == '≡');
    assert(t[8] == '∈' && t[9] == '∉' && t[10] == '⊆' && t[11] == '⊂' && t[12] == '⊇' && t[13] == '⊃');
    assert(t.len() == 14);
}

} // verus!
