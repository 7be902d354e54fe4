//! The usage board: tokens in short, shares and rates.
use crate::double::{divide, percent, percentage, push_tenths, push_whole, quotient, tenths_text, whole_text};
use crate::model::TokenUsageRecord;
use crate::text::{decimal, push_decimal};
use vstd::prelude::*;

verus! {

/// A number of tokens in short: thousands and millions with one digit behind
/// the point.
pub open spec fn tokens_text(n: nat) -> Seq<char> {
    if n >= 1_000_000 {
        tenths_text(quotient(n, 1_000_000)) + "m"@
    } else if n >= 1_000 {
        tenths_text(quotient(n, 1_000)) + "k"@
    } else {
        decimal(n)
    }
}

/// A number of tokens in short.
pub fn fmt_tokens(n: u32) -> (r: String)
    ensures
        r@ == tokens_text(n as nat),
{
    let mut r = String::new();
    if n >= 1_000_000 {
        let x = divide(n, 1_000_000);
        push_tenths(&mut r, x.0, x.1);
        assert(r@ =~= tenths_text(quotient(n as nat, 1_000_000)));
        r.append("m");
    } else if n >= 1_000 {
        let x = divide(n, 1_000);
        push_tenths(&mut r, x.0, x.1);
        assert(r@ =~= tenths_text(quotient(n as nat, 1_000)));
        r.append("k");
    } else {
        push_decimal(&mut r, n as u64);
        assert(r@ =~= decimal(n as nat));
    }
    r
}

/// The share that `value` has of `total`, in whole per cent.
pub fn share_text(value: u32, total: u32) -> (r: String)
    ensures
        r@ == whole_text(percentage(value as nat, total as nat)) + "%"@,
{
    let x = percent(value, total);
    let mut r = String::new();
    push_whole(&mut r, x.0, x.1);
    assert(r@ =~= whole_text(percentage(value as nat, total as nat)));
    r.append("%");
    r
}

/// How often the cache was hit, in whole per cent of all tokens that were looked
/// up in it.
pub fn cache_rate_text(usage: &TokenUsageRecord) -> (r: String)
    requires
        usage.cache_hit_tokens + usage.cache_miss_tokens <= u32::MAX,
    ensures
        r@ == whole_text(
            percentage(usage.cache_hit_tokens as nat, (usage.cache_hit_tokens + usage.cache_miss_tokens) as nat),
        ) + "%"@,
{
    share_text(usage.cache_hit_tokens, usage.cache_hit_tokens + usage.cache_miss_tokens)
}

/// How much of the context window the last prompt took: never more than all of
/// it.
pub open spec fn window_share(last_prompt: nat, window: nat) -> (nat, nat) {
    let x = percentage(last_prompt, window);
    if x.0 > 100 * x.1 {
        (100, 1)
    } else {
        x
    }
}

/// How much of the context window the last prompt took, in per cent with one
/// digit behind the point.
pub fn window_text(last_prompt: u32, window: u32) -> (r: String)
    ensures
        r@ == tenths_text(window_share(last_prompt as nat, window as nat)) + "%"@,
{
    let x = percent(last_prompt, window);
    let mut r = String::new();
    if x.0 as u128 > 100 * x.1 {
        push_tenths(&mut r, 100, 1);
    } else {
        push_tenths(&mut r, x.0, x.1);
    }
    assert(r@ =~= tenths_text(window_share(last_prompt as nat, window as nat)));
    r.append("%");
    r
}

/// The last prompt and the context window, in short.
pub fn window_label(last_prompt: u32, window: u32) -> (r: String)
    ensures
        r@ == tokens_text(last_prompt as nat) + " / "@ + tokens_text(window as nat),
{
    let mut r = fmt_tokens(last_prompt);
    let whole = fmt_tokens(window);
    r.append(" / ");
    r.append(whole.as_str());
    r
}

/// Whether there is anything to show.
pub fn has_usage(usage: &TokenUsageRecord) -> (r: bool)
    ensures
        r == (usage.total_tokens != 0),
{
    usage.total_tokens != 0
}

/// The label of the button that opens the board.
pub fn trigger_label(request_count: u64) -> (r: String)
    ensures
        r@ == "USAGE "@ + decimal(request_count as nat),
{
    let mut r = String::new();
    r.append("USAGE ");
    push_decimal(&mut r, request_count);
    r
}

/// The window is never shown as more than full.
pub proof fn window_is_never_more_than_full(last_prompt: nat, window: nat)
    ensures
        window_share(last_prompt, window).0 <= 100 * window_share(last_prompt, window).1,
{
}

/// Up to a thousand tokens are counted one by one; from there on in thousands and in millions
/// with one decimal, `k` and `m`, rounded to the nearest.
pub proof fn tokens_are_counted_in_thousands_and_millions(n: nat)
    ensures
        n < 1_000 ==> tokens_text(n) == decimal(n),
        1_000 <= n < 1_000_000 ==> exists|t: nat|
            #![trigger decimal(t / 10)]
            tokens_text(n) == decimal(t / 10) + seq!['.'] + decimal(t % 10) + seq!['k'] && t * 100 <= n + 51 && n <= t * 100 + 51,
{
    if 1_000 <= n < 1_000_000 {
        let (m, d) = crate::double::quotient(n, 1_000);
        crate::double::a_quotient_is_the_nearest_number(n, 1_000);
        crate::double::rounding_is_to_the_nearest(10 * m, d);
        let t = crate::double::rounded(10 * m, d);
        reveal_strlit(".");
        reveal_strlit("k");
        assert("."@ =~= seq!['.']);
        assert("k"@ =~= seq!['k']);
        assert(tokens_text(n) == decimal(t / 10) + seq!['.'] + decimal(t % 10) + seq!['k']);
        // 2|t d - 10 m| <= d and 2|1000 m - n d| <= 1000, with d large against 1000.
        lemma_large(n, m, d);
        assert(2 * (100 * (t * d) - 1_000 * m) <= 100 * d && 2 * (1_000 * m - 100 * (t * d)) <= 100 * d);
        assert(2 * (100 * (t * d) - n * d) <= 100 * d + 1_000 && 2 * (n * d - 100 * (t * d)) <= 100 * d + 1_000);
        assert(100 * (t * d) == (100 * t) * d) by (nonlinear_arith);
        assert(2 * (100 * t - n) * d <= 102 * d) by (nonlinear_arith)
            requires
                2 * ((100 * t) * d - n * d) <= 100 * d + 1_000,
                d >= 1_000,
        ;
        assert(2 * (n - 100 * t) * d <= 102 * d) by (nonlinear_arith)
            requires
                2 * (n * d - (100 * t) * d) <= 100 * d + 1_000,
                d >= 1_000,
        ;
        assert(2 * (100 * t - n) <= 102) by (nonlinear_arith)
            requires
                2 * (100 * t - n) * d <= 102 * d,
                d >= 1_000,
        ;
        assert(2 * (n - 100 * t) <= 102) by (nonlinear_arith)
            requires
                2 * (n - 100 * t) * d <= 102 * d,
                d >= 1_000,
        ;
    }
}

proof fn lemma_large(n: nat, m: nat, d: nat)
    requires
        1_000 <= n < 1_000_000,
        m >= crate::double::LEAST,
        2 * (m * 1_000 - n * d) <= 1_000,
    ensures
        d >= 1_000,
{
    if d < 1_000 {
        assert(n * d <= 1_000_000 * 1_000) by (nonlinear_arith)
            requires
                n < 1_000_000,
                d < 1_000,
        ;
    }
}

} // verus!
