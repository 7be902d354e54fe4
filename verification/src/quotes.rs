//! Quotations: finding the words of a page that a quote was taken from.
use crate::copying::{layer_of, RenderedPage};
use crate::page_text::{FlatWord, Layer};
use crate::selection::{Selection, SelectionStep};
use crate::session::{plain_step, selects, ReaderSession};
use crate::text::{
    chars_of, find_chars, first_occurrence, is_space, is_whitespace, occurs, stands_at, what_occurs_is_a_part,
};
use std::collections::HashMap;
use vstd::prelude::*;

verus! {

broadcast use vstd::std_specs::hash::group_hash_axioms;

/// The lower case of a character, as `char::to_lowercase` gives it.
pub uninterp spec fn lower_char(c: char) -> Seq<char>;

/// The lower case of a character: `char::to_lowercase`, which yields one
/// character or more, and the same ones for the same character. Which ones they
/// are stays open.
#[verifier::external_body]
fn lowercase_of(c: char) -> (r: Vec<char>)
    ensures
        r@ == lower_char(c),
        r@.len() >= 1,
{
    c.to_lowercase().collect()
}

/// The first `n` characters in lower case, white space left out.
pub open spec fn normalized_upto(s: Seq<char>, n: nat) -> Seq<char>
    decreases n,
{
    if n == 0 {
        Seq::empty()
    } else {
        let before = normalized_upto(s, (n - 1) as nat);
        if is_space(s[n - 1]) {
            before
        } else {
            before + lower_char(s[n - 1])
        }
    }
}

/// A text in lower case, white space left out.
pub open spec fn normalized(s: Seq<char>) -> Seq<char> {
    normalized_upto(s, s.len())
}

/// The text in lower case, white space left out.
pub fn normalize_quote(text: &str) -> (r: Vec<char>)
    ensures
        r@ == normalized(text@),
{
    let chars = chars_of(text);
    let mut r: Vec<char> = Vec::new();
    let mut i: usize = 0;
    while i < chars.len()
        invariant
            i <= chars@.len(),
            chars@ == text@,
            r@ == normalized_upto(text@, i as nat),
        decreases chars@.len() - i,
    {
        if !is_whitespace(chars[i]) {
            let mut lower = lowercase_of(chars[i]);
            r.append(&mut lower);
        }
        i = i + 1;
    }
    r
}

// ── words that hold a text ──

/// The first `n` words one behind the other.
pub open spec fn run_together(words: Seq<Seq<char>>, n: nat) -> Seq<char>
    decreases n,
{
    if n == 0 {
        Seq::empty()
    } else {
        run_together(words, (n - 1) as nat) + words[n - 1]
    }
}

/// For each character of the first `n` words, the word that it belongs to.
pub open spec fn owners(words: Seq<Seq<char>>, n: nat) -> Seq<int>
    decreases n,
{
    if n == 0 {
        Seq::empty()
    } else {
        owners(words, (n - 1) as nat) + Seq::new(words[n - 1].len(), |i: int| n - 1)
    }
}

/// The words from the one in which `quote` first starts to the one in which it
/// ends there.
pub open spec fn quoted_words(words: Seq<Seq<char>>, quote: Seq<char>) -> Option<(int, int)> {
    let own = owners(words, words.len());
    match first_occurrence(run_together(words, words.len()), quote, 0) {
        None => None,
        Some(k) => if quote.len() == 0 {
            None
        } else {
            Some((own[k], own[k + quote.len() - 1]))
        },
    }
}

/// What some lists of characters hold.
pub open spec fn char_views(v: Seq<Vec<char>>) -> Seq<Seq<char>> {
    v.map_values(|w: Vec<char>| w@)
}

proof fn lemma_owners(words: Seq<Seq<char>>, n: nat)
    requires
        n <= words.len(),
    ensures
        owners(words, n).len() == run_together(words, n).len(),
        forall|k: int| 0 <= k < owners(words, n).len() ==> 0 <= #[trigger] owners(words, n)[k] < n,
        forall|k: int, m: int|
            0 <= k <= m < owners(words, n).len() ==> #[trigger] owners(words, n)[k] <= #[trigger] owners(words, n)[m],
    decreases n,
{
    if n > 0 {
        lemma_owners(words, (n - 1) as nat);
        let before = owners(words, (n - 1) as nat);
        let now = owners(words, n);
        assert forall|k: int| 0 <= k < now.len() implies 0 <= #[trigger] now[k] < n by {
            if k < before.len() {
                assert(now[k] == before[k]);
            }
        }
        assert forall|k: int, m: int| 0 <= k <= m < now.len() implies #[trigger] now[k] <= #[trigger] now[m] by {
            if m < before.len() {
                assert(now[k] == before[k] && now[m] == before[m]);
            } else if k < before.len() {
                assert(now[k] == before[k]);
            }
        }
    }
}

proof fn lemma_first_occurrence(s: Seq<char>, pat: Seq<char>, k: int)
    requires
        0 <= k,
    ensures
        first_occurrence(s, pat, k) is Some ==> k <= first_occurrence(s, pat, k)->0 && stands_at(
            s,
            pat,
            first_occurrence(s, pat, k)->0,
        ),
    decreases s.len() + 1 - k,
{
    if k <= s.len() && !stands_at(s, pat, k) {
        lemma_first_occurrence(s, pat, k + 1);
    }
}

/// The words that hold a quote are words of the page, in order.
pub proof fn quoted_words_are_in_order(words: Seq<Seq<char>>, quote: Seq<char>)
    requires
        quoted_words(words, quote) is Some,
    ensures
        0 <= (quoted_words(words, quote)->0).0 <= (quoted_words(words, quote)->0).1 < words.len(),
{
    lemma_owners(words, words.len());
    lemma_first_occurrence(run_together(words, words.len()), quote, 0);
    let k = first_occurrence(run_together(words, words.len()), quote, 0)->0;
    let own = owners(words, words.len());
    assert(own[k] <= own[k + quote.len() - 1]);
}

proof fn lemma_owner_bounds(words: Seq<Seq<char>>, n: nat, k: int)
    requires
        n <= words.len(),
        0 <= k < owners(words, n).len(),
    ensures
        ({
            let o = owners(words, n)[k];
            0 <= o < n && run_together(words, o as nat).len() <= k < run_together(words, (o + 1) as nat).len()
        }),
    decreases n,
{
    lemma_owners(words, n);
    if n > 0 {
        lemma_owners(words, (n - 1) as nat);
        if k < owners(words, (n - 1) as nat).len() {
            lemma_owner_bounds(words, (n - 1) as nat, k);
        }
    }
}

proof fn lemma_run_prefix(words: Seq<Seq<char>>, a: nat, b: nat)
    requires
        a <= b <= words.len(),
    ensures
        run_together(words, a).len() <= run_together(words, b).len(),
        run_together(words, b).take(run_together(words, a).len() as int) == run_together(words, a),
    decreases b,
{
    let ra = run_together(words, a);
    if a < b {
        lemma_run_prefix(words, a, (b - 1) as nat);
        let before = run_together(words, (b - 1) as nat);
        assert(run_together(words, b).take(ra.len() as int) =~= before.take(ra.len() as int));
    } else {
        assert(ra.take(ra.len() as int) =~= ra);
    }
}

/// The words `lo..=hi` one behind the other.
pub open spec fn run_between(words: Seq<Seq<char>>, lo: int, hi: int) -> Seq<char> {
    run_together(words, (hi + 1) as nat).skip(run_together(words, lo as nat).len() as int)
}

/// The words that are found hold the quote.
pub proof fn quote_lies_within_its_words(words: Seq<Seq<char>>, quote: Seq<char>)
    requires
        quoted_words(words, quote) is Some,
    ensures
        occurs(run_between(words, (quoted_words(words, quote)->0).0, (quoted_words(words, quote)->0).1), quote),
{
    let all = run_together(words, words.len());
    lemma_owners(words, words.len());
    lemma_first_occurrence(all, quote, 0);
    quoted_words_are_in_order(words, quote);
    let k = first_occurrence(all, quote, 0)->0;
    let (lo, hi) = quoted_words(words, quote)->0;
    lemma_owner_bounds(words, words.len(), k);
    lemma_owner_bounds(words, words.len(), k + quote.len() - 1);
    lemma_run_prefix(words, (hi + 1) as nat, words.len());
    lemma_run_prefix(words, lo as nat, (hi + 1) as nat);
    let start = run_together(words, lo as nat).len() as int;
    let upto = run_together(words, (hi + 1) as nat);
    let part = run_between(words, lo, hi);
    assert(upto == all.take(upto.len() as int));
    assert forall|i: int| 0 <= i < quote.len() implies part.subrange(k - start, k - start + quote.len())[i] == quote[i] by {
        assert(part[k - start + i] == upto[k + i]);
        assert(upto[k + i] == all[k + i]);
        assert(all.subrange(k, k + quote.len())[i] == all[k + i]);
    }
    assert(part.subrange(k - start, k - start + quote.len()) =~= quote);
    assert(stands_at(part, quote, k - start));
}

/// The words that hold `quote`, all of them in the form of the quote.
pub fn find_quoted_words(words: &Vec<Vec<char>>, quote: &Vec<char>) -> (r: Option<(usize, usize)>)
    ensures
        match r {
            Some(w) => quoted_words(char_views(words@), quote@) == Some((w.0 as int, w.1 as int)) && w.0 <= w.1
                < words@.len(),
            None => quoted_words(char_views(words@), quote@) is None,
        },
{
    if quote.len() == 0 {
        return None;
    }
    let ghost ws = char_views(words@);
    let mut hay: Vec<char> = Vec::new();
    let mut own: Vec<usize> = Vec::new();
    let mut i: usize = 0;
    while i < words.len()
        invariant
            i <= words@.len(),
            ws == char_views(words@),
            hay@ == run_together(ws, i as nat),
            own@.len() == owners(ws, i as nat).len(),
            forall|k: int| 0 <= k < own@.len() ==> #[trigger] own@[k] == owners(ws, i as nat)[k],
        decreases words@.len() - i,
    {
        let w = &words[i];
        assert(ws[i as int] == w@);
        let ghost hay0 = hay@;
        let ghost own0 = owners(ws, i as nat);
        let mut k: usize = 0;
        assert(hay@ =~= hay0 + w@.take(0));
        while k < w.len()
            invariant
                k <= w@.len(),
                hay@ == hay0 + w@.take(k as int),
                own@.len() == own0.len() + k,
                forall|j: int| 0 <= j < own0.len() ==> #[trigger] own@[j] == own0[j],
                forall|j: int| own0.len() <= j < own@.len() ==> #[trigger] own@[j] == i,
            decreases w@.len() - k,
        {
            hay.push(w[k]);
            own.push(i);
            k = k + 1;
            assert(hay@ =~= hay0 + w@.take(k as int));
        }
        proof {
            assert(w@.take(w@.len() as int) =~= w@);
            let now = owners(ws, (i + 1) as nat);
            assert forall|j: int| 0 <= j < own@.len() implies #[trigger] own@[j] == now[j] by {
                if j < own0.len() {
                    assert(now[j] == own0[j]);
                }
            }
        }
        i = i + 1;
    }
    proof {
        lemma_owners(ws, ws.len());
    }
    match find_chars(&hay, quote) {
        None => None,
        Some(k) => {
            proof {
                quoted_words_are_in_order(ws, quote@);
            }
            let n = hay.len();
            assert(k + quote@.len() <= n);
            Some((own[k], own[k + (quote.len() - 1)]))
        },
    }
}

/// The words of a page in lower case, white space left out.
pub open spec fn normalized_words(flat: Seq<FlatWord>) -> Seq<Seq<char>> {
    flat.map_values(|w: FlatWord| normalized(w.text@))
}

/// The words of one layer that hold a quote.
pub open spec fn quote_in_layer(page: RenderedPage, layer: Layer, quote: Seq<char>) -> Option<(int, int)> {
    quoted_words(normalized_words(layer_of(page, layer)), normalized(quote))
}

/// Where a quote stands on a page: in the running text, else in the small print.
pub open spec fn quote_place(pages: Map<u32, RenderedPage>, page: u32, quote: Seq<char>) -> Option<
    (Layer, int, int),
> {
    if !pages.contains_key(page) {
        None
    } else {
        match quote_in_layer(pages[page], Layer::Body, quote) {
            Some(w) => Some((Layer::Body, w.0, w.1)),
            None => match quote_in_layer(pages[page], Layer::Small, quote) {
                Some(w) => Some((Layer::Small, w.0, w.1)),
                None => None,
            },
        }
    }
}

fn find_in_layer(flat: &Vec<FlatWord>, quote: &Vec<char>) -> (r: Option<(usize, usize)>)
    ensures
        match r {
            Some(w) => quoted_words(normalized_words(flat@), quote@) == Some((w.0 as int, w.1 as int)),
            None => quoted_words(normalized_words(flat@), quote@) is None,
        },
{
    let mut words: Vec<Vec<char>> = Vec::new();
    let mut i: usize = 0;
    while i < flat.len()
        invariant
            i <= flat@.len(),
            words@.len() == i,
            forall|k: int| 0 <= k < i ==> (#[trigger] words@[k])@ == normalized(flat@[k].text@),
        decreases flat@.len() - i,
    {
        words.push(normalize_quote(flat[i].text.as_str()));
        i = i + 1;
    }
    assert(char_views(words@) =~= normalized_words(flat@));
    find_quoted_words(&words, quote)
}

/// The selection of the words of a page that a quote was taken from.
pub fn find_quote_selection(pages: &HashMap<u32, RenderedPage>, page: u32, quote: &str) -> (r: Option<Selection>)
    ensures
        r is Some <==> quote_place(pages@, page, quote@) is Some,
        r is Some ==> ({
            let p = quote_place(pages@, page, quote@)->0;
            selects(r, p.0, seq![plain_step(page, p.1, p.2)], false, 0, None)
        }),
{
    let q = normalize_quote(quote);
    let rendered = match pages.get(&page) {
        None => {
            return None;
        },
        Some(p) => p,
    };
    let (layer, lo, hi) = match find_in_layer(&rendered.body, &q) {
        Some(w) => (Layer::Body, w.0, w.1),
        None => match find_in_layer(&rendered.small, &q) {
            Some(w) => (Layer::Small, w.0, w.1),
            None => {
                return None;
            },
        },
    };
    let mut steps: Vec<SelectionStep> = Vec::new();
    steps.push(SelectionStep { page, lo, hi, column_left: None });
    Some(Selection { layer, steps, formula: false, formula_score: 0, anchor: None })
}

impl ReaderSession {
    /// Shows a quote on a page that is there: selects it and closes the bar and
    /// the card. Tells whether it was found.
    pub fn show_quote(&mut self, page: u32, quote: &str) -> (found: bool)
        ensures
            found == quote_place(old(self).cache@, page, quote@) is Some,
            !found ==> *final(self) == *old(self),
            found ==> *final(self) == (ReaderSession {
                selection: final(self).selection,
                action_bar: None,
                translation: None,
                ..*old(self)
            }),
            found ==> ({
                let p = quote_place(old(self).cache@, page, quote@)->0;
                selects(final(self).selection, p.0, seq![plain_step(page, p.1, p.2)], false, 0, None)
            }),
    {
        let sel = find_quote_selection(&self.cache, page, quote);
        if sel.is_none() {
            return false;
        }
        self.selection = sel;
        self.action_bar = None;
        self.translation = None;
        true
    }
}

/// Texts are compared without their white space and in lower case, character by
/// character.
pub proof fn quotes_are_compared_character_by_character(a: Seq<char>, b: Seq<char>, c: char)
    ensures
        normalized(Seq::empty()) == Seq::<char>::empty(),
        normalized(seq![c]) == if is_space(c) {
            Seq::empty()
        } else {
            lower_char(c)
        },
        normalized(a + b) == normalized(a) + normalized(b),
{
    lemma_normalized_parts(a, b, b.len());
    let s = seq![c];
    assert(normalized_upto(s, 0) =~= Seq::<char>::empty());
    assert(s[0] == c);
    assert(normalized(s) =~= if is_space(c) {
        Seq::empty()
    } else {
        lower_char(c)
    });
    assert((a + b).len() == a.len() + b.len());
}

proof fn lemma_normalized_prefix(a: Seq<char>, b: Seq<char>, n: nat)
    requires
        n <= a.len(),
    ensures
        normalized_upto(a + b, n) == normalized_upto(a, n),
    decreases n,
{
    if n > 0 {
        lemma_normalized_prefix(a, b, (n - 1) as nat);
        assert((a + b)[n - 1] == a[n - 1]);
    }
}

proof fn lemma_normalized_parts(a: Seq<char>, b: Seq<char>, n: nat)
    requires
        n <= b.len(),
    ensures
        normalized_upto(a + b, a.len() + n) == normalized(a) + normalized_upto(b, n),
    decreases n,
{
    if n == 0 {
        lemma_normalized_prefix(a, b, a.len());
        assert(normalized(a) + normalized_upto(b, 0) =~= normalized(a));
    } else {
        lemma_normalized_parts(a, b, (n - 1) as nat);
        assert((a + b)[a.len() + n - 1] == b[n - 1]);
        assert((normalized(a) + normalized_upto(b, (n - 1) as nat)) + lower_char(b[n - 1]) =~= normalized(a) + (
        normalized_upto(b, (n - 1) as nat) + lower_char(b[n - 1])));
    }
}

/// The texts of some words, one behind the other.
pub open spec fn joined_up(words: Seq<Seq<char>>) -> Seq<char>
    decreases words.len(),
{
    if words.len() == 0 {
        Seq::empty()
    } else {
        words[0] + joined_up(words.drop_first())
    }
}

proof fn lemma_joined_up(words: Seq<Seq<char>>, n: nat)
    requires
        n <= words.len(),
    ensures
        joined_up(words) == run_together(words, n) + joined_up(words.skip(n as int)),
    decreases n,
{
    if n == 0 {
        assert(words.skip(0) =~= words);
        assert(run_together(words, 0) + joined_up(words) =~= joined_up(words));
    } else {
        lemma_joined_up(words, (n - 1) as nat);
        let t = words.skip(n - 1);
        assert(t[0] == words[n - 1]);
        assert(t.drop_first() =~= words.skip(n as int));
        assert(run_together(words, (n - 1) as nat) + (words[n - 1] + joined_up(words.skip(n as int))) =~= (run_together(
            words,
            (n - 1) as nat,
        ) + words[n - 1]) + joined_up(words.skip(n as int)));
    }
}

/// A quote is found exactly when it is not empty and stands somewhere in the words as they
/// run together, and then at the first such place: it starts in the first of the words that
/// are found and ends in the last, and nowhere before.
pub proof fn a_quote_is_found_where_it_first_stands(words: Seq<Seq<char>>, quote: Seq<char>)
    ensures
        quoted_words(words, quote) is Some <==> quote.len() > 0 && occurs(joined_up(words), quote),
        quoted_words(words, quote) is Some ==> {
            let (lo, hi) = quoted_words(words, quote)->0;
            exists|k: int|
                #[trigger] stands_at(joined_up(words), quote, k) && run_together(words, lo as nat).len() <= k < run_together(
                    words,
                    (lo + 1) as nat,
                ).len() && run_together(words, hi as nat).len() < k + quote.len() <= run_together(words, (hi + 1) as nat).len()
                    && forall|j: int| 0 <= j < k ==> !#[trigger] stands_at(joined_up(words), quote, j)
        },
{
    let n = words.len();
    let all = run_together(words, n);
    lemma_joined_up(words, n);
    assert(words.skip(n as int) =~= Seq::<Seq<char>>::empty());
    assert(all + Seq::<char>::empty() =~= all);
    assert(joined_up(words) == all);
    what_occurs_is_a_part(all, quote);
    lemma_first_occurrence(all, quote, 0);
    lemma_owners(words, n);
    if quoted_words(words, quote) is Some {
        let k = first_occurrence(all, quote, 0)->0;
        lemma_owner_bounds(words, n, k);
        lemma_owner_bounds(words, n, k + quote.len() - 1);
        assert(stands_at(all, quote, k));
        assert forall|j: int| 0 <= j < k implies !#[trigger] stands_at(all, quote, j) by {
            if stands_at(all, quote, j) {
                assert(all.subrange(j, j + quote.len()) == quote);
            }
        }
    }
}

/// A quote of a page is looked for in its running text, and only if it is not there in its
/// small print.
pub proof fn running_text_is_searched_first(pages: Map<u32, RenderedPage>, page: u32, quote: Seq<char>)
    ensures
        ({
            let body = joined_up(normalized_words(pages[page].body@));
            let small = joined_up(normalized_words(pages[page].small@));
            let q = normalized(quote);
            let found = quote_place(pages, page, quote);
            &&& !pages.contains_key(page) || q.len() == 0 ==> found is None
            &&& pages.contains_key(page) && q.len() > 0 && occurs(body, q) ==> found is Some && (found->0).0 == Layer::Body
                && quoted_words(normalized_words(pages[page].body@), q) == Some(((found->0).1, (found->0).2))
            &&& pages.contains_key(page) && q.len() > 0 && !occurs(body, q) && occurs(small, q) ==> found is Some && (found->0).0
                == Layer::Small && quoted_words(normalized_words(pages[page].small@), q) == Some(((found->0).1, (found->0).2))
            &&& pages.contains_key(page) && !occurs(body, q) && !occurs(small, q) ==> found is None
        }),
{
    let q = normalized(quote);
    a_quote_is_found_where_it_first_stands(normalized_words(pages[page].body@), q);
    a_quote_is_found_where_it_first_stands(normalized_words(pages[page].small@), q);
}

/// The words of a page are compared word by word.
pub proof fn words_are_normalized_one_by_one(flat: Seq<FlatWord>, i: int)
    requires
        0 <= i < flat.len(),
    ensures
        normalized_words(flat).len() == flat.len(),
        normalized_words(flat)[i] == normalized(flat[i].text@),
{
}

} // verus!
