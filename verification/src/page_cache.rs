//! Which rendered pages stay in memory.
use crate::copying::RenderedPage;
use crate::selection::Selection;
use crate::sorting::{sort_by_key, stable_sort, stable_sort_contains, stable_sort_is_sorted_permutation};
use std::collections::HashMap;
use vstd::prelude::*;

verus! {

broadcast use vstd::std_specs::hash::group_hash_axioms;

/// How many rendered pages stay in memory.
pub const MAX_CACHE_PAGES: usize = 60;

/// The selection needs page `p`.
pub open spec fn selected_page(selection: Option<Selection>, p: u32) -> bool {
    selection is Some && exists|k: int|
        0 <= k < selection->0.steps@.len() && #[trigger] selection->0.steps@[k].page == p
}

/// Page `p` stays in any case: it is the current one, or the selection needs it.
pub open spec fn always_kept(current: u32, selection: Option<Selection>, p: u32) -> bool {
    p == current || selected_page(selection, p)
}

/// The pages that may go.
pub open spec fn may_go(pages: Set<u32>, current: u32, selection: Option<Selection>) -> Set<u32> {
    pages.filter(|p: u32| !always_kept(current, selection, p))
}

pub open spec fn distance(p: u32, current: u32) -> int {
    if p >= current {
        p - current
    } else {
        current - p
    }
}

/// Page `a` goes before page `b`: it is further from the current page, or as far
/// and behind it.
pub open spec fn goes_first(current: u32, a: u32, b: u32) -> bool {
    distance(a, current) > distance(b, current) || (distance(a, current) == distance(b, current) && a > b)
}

/// Those of the pages that go before page `p`.
pub open spec fn ahead(pages: Set<u32>, current: u32, p: u32) -> Set<u32> {
    pages.filter(|q: u32| goes_first(current, q, p))
}

/// Page `p` goes: fewer pages go before it than are too many.
pub open spec fn evicted(pages: Set<u32>, current: u32, selection: Option<Selection>, max: nat, p: u32) -> bool {
    let candidates = may_go(pages, current, selection);
    &&& pages.len() > max
    &&& candidates.contains(p)
    &&& ahead(candidates, current, p).len() < pages.len() - max
}

/// The pages that go.
pub open spec fn evicted_pages(pages: Set<u32>, current: u32, selection: Option<Selection>, max: nat) -> Set<u32> {
    pages.filter(|p: u32| evicted(pages, current, selection, max, p))
}

/// The order in which pages go, as a sorting key.
pub open spec fn going_order(current: u32) -> spec_fn(u32) -> int {
    |p: u32| -(distance(p, current) * 0x1_0000_0000 + p)
}

proof fn lemma_going_order(current: u32, a: u32, b: u32)
    ensures
        going_order(current)(a) < going_order(current)(b) <==> goes_first(current, a, b),
        going_order(current)(a) == going_order(current)(b) <==> a == b,
{
}

/// The current page and the pages of the selection are never evicted, and no
/// evicted page is nearer to the current page than one that might have gone and
/// stays.
pub proof fn eviction_keeps_what_is_needed(
    pages: Set<u32>,
    current: u32,
    selection: Option<Selection>,
    max: nat,
    gone: u32,
    stays: u32,
)
    requires
        pages.finite(),
        evicted_pages(pages, current, selection, max).contains(gone),
    ensures
        gone != current,
        !selected_page(selection, gone),
        may_go(pages, current, selection).contains(stays) && !evicted_pages(pages, current, selection, max).contains(
            stays,
        ) ==> distance(gone, current) >= distance(stays, current),
{
    let c = may_go(pages, current, selection);
    if c.contains(stays) && !evicted_pages(pages, current, selection, max).contains(stays) && distance(
        gone,
        current,
    ) < distance(stays, current) {
        let before_gone = ahead(c, current, gone);
        let before_stays = ahead(c, current, stays);
        assert(before_stays.subset_of(before_gone));
        vstd::set_lib::lemma_len_subset(before_stays, before_gone);
    }
}

proof fn lemma_order(current: u32, a: u32, b: u32)
    ensures
        !goes_first(current, a, a),
        a != b ==> (goes_first(current, a, b) <==> !goes_first(current, b, a)),
{
}

proof fn lemma_last_to_go(c: Set<u32>, current: u32) -> (m: u32)
    requires
        c.finite(),
        c.len() > 0,
    ensures
        c.contains(m),
        forall|q: u32| #[trigger] c.contains(q) && q != m ==> goes_first(current, q, m),
    decreases c.len(),
{
    let x = c.choose();
    let rest = c.remove(x);
    if rest.len() == 0 {
        assert forall|q: u32| #[trigger] c.contains(q) && q != x implies goes_first(current, q, x) by {
            assert(rest.contains(q));
        }
        x
    } else {
        let m = lemma_last_to_go(rest, current);
        lemma_order(current, x, m);
        if goes_first(current, x, m) {
            assert forall|q: u32| #[trigger] c.contains(q) && q != m implies goes_first(current, q, m) by {
                if q != x {
                    assert(rest.contains(q));
                }
            }
            m
        } else {
            assert forall|q: u32| #[trigger] c.contains(q) && q != x implies goes_first(current, q, x) by {
                assert(rest.contains(q));
            }
            x
        }
    }
}

/// The `k` pages of `c` that go first.
spec fn first_to_go(c: Set<u32>, current: u32, k: int) -> Set<u32> {
    c.filter(|p: u32| ahead(c, current, p).len() < k)
}

proof fn lemma_first_to_go(c: Set<u32>, current: u32, k: int)
    requires
        c.finite(),
        k >= 0,
    ensures
        first_to_go(c, current, k).finite(),
        first_to_go(c, current, k).len() == if k < c.len() {
            k
        } else {
            c.len() as int
        },
    decreases c.len(),
{
    if c.len() == 0 {
        assert(first_to_go(c, current, k) =~= Set::<u32>::empty());
    } else {
        let m = lemma_last_to_go(c, current);
        let rest = c.remove(m);
        lemma_first_to_go(rest, current, k);
        assert forall|p: u32| rest.contains(p) implies #[trigger] ahead(c, current, p) == ahead(rest, current, p) by {
            lemma_order(current, p, m);
            assert(c.contains(p));
            assert(ahead(c, current, p) =~= ahead(rest, current, p));
        }
        lemma_order(current, m, m);
        assert(ahead(c, current, m) =~= rest);
        let first = first_to_go(rest, current, k);
        if rest.len() < k {
            assert(first_to_go(c, current, k) =~= first.insert(m));
        } else {
            assert(first_to_go(c, current, k) =~= first);
        }
    }
}

/// Eviction brings the number of pages down to the limit, or as near to it as
/// the pages that have to stay allow.
pub proof fn eviction_meets_the_limit(pages: Set<u32>, current: u32, selection: Option<Selection>, max: nat)
    requires
        pages.finite(),
    ensures
        ({
            let gone = evicted_pages(pages, current, selection, max);
            let free = may_go(pages, current, selection);
            &&& gone.finite()
            &&& gone.subset_of(pages)
            &&& gone.len() == if pages.len() <= max {
                0
            } else if pages.len() - max < free.len() {
                (pages.len() - max) as nat
            } else {
                free.len()
            }
        }),
{
    let gone = evicted_pages(pages, current, selection, max);
    let free = may_go(pages, current, selection);
    if pages.len() <= max {
        assert(gone =~= Set::<u32>::empty());
    } else {
        lemma_first_to_go(free, current, pages.len() - max);
        assert(gone =~= first_to_go(free, current, pages.len() - max));
    }
}

fn order_of(current: u32, p: u32) -> (k: i128)
    ensures
        k == going_order(current)(p),
{
    let d: i128 = if p >= current {
        (p - current) as i128
    } else {
        (current - p) as i128
    };
    -(d * 0x1_0000_0000 + (p as i128))
}

#[verifier::loop_isolation(false)]
fn is_kept(current: u32, selection: Option<&Selection>, p: u32) -> (r: bool)
    ensures
        r == always_kept(current, opt_selection(selection), p),
{
    if p == current {
        return true;
    }
    match selection {
        None => false,
        Some(sel) => {
            let mut k: usize = 0;
            while k < sel.steps.len()
                invariant
                    k <= sel.steps@.len(),
                    forall|j: int| 0 <= j < k ==> #[trigger] sel.steps@[j].page != p,
                decreases sel.steps@.len() - k,
            {
                if sel.steps[k].page == p {
                    assert(sel.steps@[k as int].page == p);
                    return true;
                }
                k = k + 1;
            }
            false
        },
    }
}

pub open spec fn opt_selection(s: Option<&Selection>) -> Option<Selection> {
    match s {
        Some(x) => Some(*x),
        None => None,
    }
}

fn candidates(cache: &HashMap<u32, RenderedPage>, current: u32, selection: Option<&Selection>) -> (r: Vec<u32>)
    ensures
        r@.no_duplicates(),
        r@.to_set() == may_go(cache@.dom(), current, opt_selection(selection)),
{
    let mut r: Vec<u32> = Vec::new();
    let ghost sel = opt_selection(selection);
    for k in it: cache.keys()
        invariant
            sel == opt_selection(selection),
            it.seq().unref().to_set() == cache@.dom(),
            it.seq().no_duplicates(),
            r@.no_duplicates(),
            forall|p: u32|
                #[trigger] r@.contains(p) <==> !always_kept(current, sel, p) && exists|j: int|
                    0 <= j < it.index() && #[trigger] it.seq().unref()[j] == p,
    {
        let ghost before = r@;
        let ghost s = it.seq().unref();
        let ghost i = it.index() as int;
        let p: u32 = *k;
        assert(s[i] == p);
        proof {
            if before.contains(p) {
                let j = choose|j: int| 0 <= j < i && #[trigger] s[j] == p;
                assert(it.seq()[j] == it.seq()[i]);
            }
        }
        if !is_kept(current, selection, p) {
            r.push(p);
        }
        proof {
            assert forall|q: u32| #[trigger] r@.contains(q) <==> !always_kept(current, sel, q) && exists|j: int|
                0 <= j < i + 1 && #[trigger] s[j] == q by {
                if before.contains(q) {
                    let j = choose|j: int| 0 <= j < before.len() && before[j] == q;
                    assert(r@[j] == q);
                    let m = choose|m: int| 0 <= m < i && #[trigger] s[m] == q;
                    assert(s[m] == q);
                }
                if q == p && !always_kept(current, sel, q) {
                    assert(r@[r@.len() - 1] == q);
                }
                if r@.contains(q) && !before.contains(q) {
                    let j = choose|j: int| 0 <= j < r@.len() && r@[j] == q;
                    if j < before.len() {
                        assert(before[j] == q);
                    }
                    assert(q == p);
                }
            }
        }
    }
    proof {
        let want = may_go(cache@.dom(), current, sel);
        assert forall|p: u32| r@.to_set().contains(p) <==> want.contains(p) by {
            if want.contains(p) {
                assert(cache@.dom().contains(p));
            }
        }
        assert(r@.to_set() =~= want);
    }
    r
}

/// Removes rendered pages until no more than `max` are left: the furthest from
/// the current page first, but neither that page nor one that the selection
/// needs.
pub fn evict_cache_pages(
    cache: &mut HashMap<u32, RenderedPage>,
    current: u32,
    selection: Option<&Selection>,
    max: usize,
)
    ensures
        final(cache)@ == old(cache)@.remove_keys(
            evicted_pages(old(cache)@.dom(), current, opt_selection(selection), max as nat),
        ),
{
    let ghost dom = cache@.dom();
    let ghost sel = opt_selection(selection);
    if cache.len() <= max {
        assert(evicted_pages(dom, current, sel, max as nat) =~= Set::<u32>::empty());
        assert(cache@ =~= old(cache)@.remove_keys(evicted_pages(dom, current, sel, max as nat)));
        return;
    }
    let overflow: usize = cache.len() - max;
    let list = candidates(cache, current, selection);
    let ghost key = going_order(current);
    let order = |p: u32| -> (k: i128)
        ensures
            k == going_order(current)(p),
        { order_of(current, p) };
    let pages = sort_by_key(&list, order, Ghost(key));
    proof {
        lemma_sorted_pages(list@, current);
    }
    assert(cache@ =~= old(cache)@.remove_keys(pages@.take(0).to_set()));
    let mut i: usize = 0;
    while i < pages.len() && i < overflow
        invariant
            i <= pages@.len(),
            i <= overflow,
            cache@ == old(cache)@.remove_keys(pages@.take(i as int).to_set()),
        decreases pages@.len() - i,
    {
        let p = pages[i];
        cache.remove(&p);
        proof {
            let ta = pages@.take(i as int);
            let tb = pages@.take(i + 1);
            let a = ta.to_set();
            let b = tb.to_set();
            assert forall|q: u32| b.contains(q) <==> a.contains(q) || q == p by {
                if b.contains(q) {
                    let j = choose|j: int| 0 <= j < i + 1 && tb[j] == q;
                    if j < i {
                        assert(ta[j] == q);
                    }
                }
                if a.contains(q) {
                    let j = choose|j: int| 0 <= j < i && ta[j] == q;
                    assert(tb[j] == q);
                }
                if q == p {
                    assert(tb[i as int] == q);
                }
            }
            assert(cache@ =~= old(cache)@.remove_keys(b));
        }
        i = i + 1;
    }
    proof {
        let t = pages@.take(i as int);
        let gone = t.to_set();
        let want = evicted_pages(dom, current, sel, max as nat);
        let c = may_go(dom, current, sel);
        assert(c == list@.to_set());
        assert forall|p: u32| gone.contains(p) <==> want.contains(p) by {
            if c.contains(p) {
                let j = lemma_rank(list@, current, p);
                assert(c.filter(|q: u32| goes_first(current, q, p)) =~= list@.to_set().filter(
                    |q: u32| goes_first(current, q, p),
                ));
                assert(want.contains(p) <==> j < overflow);
                if j < i {
                    assert(t[j] == p);
                }
                if gone.contains(p) {
                    let m = choose|m: int| 0 <= m < i && t[m] == p;
                    assert(pages@[m] == pages@[j]);
                }
            } else if gone.contains(p) {
                let m = choose|m: int| 0 <= m < i && t[m] == p;
                stable_sort_contains(list@, key, p);
                assert(pages@[m] == p);
                assert(list@.contains(p));
            }
        }
        assert(gone =~= want);
    }
}

proof fn lemma_sorted_pages(list: Seq<u32>, current: u32)
    requires
        list.no_duplicates(),
    ensures
        stable_sort(list, going_order(current)).no_duplicates(),
        stable_sort(list, going_order(current)).len() == list.len(),
{
    broadcast use vstd::seq_lib::group_to_multiset_ensures;

    let s = stable_sort(list, going_order(current));
    stable_sort_is_sorted_permutation(list, going_order(current));
    list.lemma_multiset_has_no_duplicates();
    s.lemma_multiset_has_no_duplicates_conv();
}

/// The place of `p` in the order in which pages go is the number of pages that
/// go before it.
proof fn lemma_rank(list: Seq<u32>, current: u32, p: u32) -> (j: int)
    requires
        list.no_duplicates(),
        list.contains(p),
    ensures
        0 <= j < list.len(),
        stable_sort(list, going_order(current))[j] == p,
        list.to_set().filter(|q: u32| goes_first(current, q, p)).len() == j,
{
    let key = going_order(current);
    let s = stable_sort(list, key);
    lemma_sorted_pages(list, current);
    stable_sort_is_sorted_permutation(list, key);
    stable_sort_contains(list, key, p);
    let j = choose|j: int| 0 <= j < s.len() && s[j] == p;
    let before = list.to_set().filter(|q: u32| goes_first(current, q, p));
    let prefix = s.take(j);
    assert forall|q: u32| before.contains(q) <==> prefix.to_set().contains(q) by {
        stable_sort_contains(list, key, q);
        lemma_going_order(current, q, p);
        if before.contains(q) {
            assert(list.contains(q));
            let k = choose|k: int| 0 <= k < s.len() && s[k] == q;
            if k >= j {
                assert(key(s[j]) <= key(s[k]));
            }
            assert(prefix[k] == q);
        }
        if prefix.to_set().contains(q) {
            let k = choose|k: int| 0 <= k < j && prefix[k] == q;
            assert(s[k] == q);
            assert(key(s[k]) <= key(s[j]));
            assert(s[k] != s[j]);
            assert(s.contains(q));
            assert(list.contains(q));
        }
    }
    assert(before =~= prefix.to_set());
    assert(prefix.no_duplicates());
    prefix.unique_seq_to_set();
    j
}

/// Every page but the current one and those of the selection may go.
pub proof fn only_the_current_page_and_the_selection_must_stay(
    pages: Set<u32>,
    current: u32,
    selection: Option<Selection>,
    p: u32,
)
    ensures
        may_go(pages, current, selection).contains(p) <==> pages.contains(p) && p != current && (selection is None
            || forall|k: int| 0 <= k < selection->0.steps@.len() ==> (#[trigger] selection->0.steps@[k]).page != p),
        distance(p, current) == if p >= current {
            p - current
        } else {
            current - p
        },
{
}

} // verus!
