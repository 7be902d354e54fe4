//! Stable sorting by an integer key, and the upper median.
use vstd::prelude::*;
use vstd::seq_lib::*;

verus! {

/// `s` with `x` put behind the last item whose key is not above the key of `x`.
pub open spec fn insert_by<T>(s: Seq<T>, x: T, key: spec_fn(T) -> int) -> Seq<T>
    decreases s.len(),
{
    if s.len() == 0 || key(s.last()) <= key(x) {
        s.push(x)
    } else {
        insert_by(s.drop_last(), x, key).push(s.last())
    }
}

/// `s` in ascending order of `key`; items with equal keys keep their order.
pub open spec fn stable_sort<T>(s: Seq<T>, key: spec_fn(T) -> int) -> Seq<T>
    decreases s.len(),
{
    if s.len() == 0 {
        s
    } else {
        insert_by(stable_sort(s.drop_last(), key), s.last(), key)
    }
}

/// Ascending in `key`.
pub open spec fn ascending<T>(s: Seq<T>, key: spec_fn(T) -> int) -> bool {
    forall|i: int, j: int| 0 <= i <= j < s.len() ==> key(#[trigger] s[i]) <= key(#[trigger] s[j])
}

/// The integers that a vector holds.
pub open spec fn ints(s: Seq<i128>) -> Seq<int> {
    s.map_values(|x: i128| x as int)
}

/// The key by which integers are sorted: the integer itself.
pub open spec fn own_value() -> spec_fn(int) -> int {
    |x: int| x
}

/// The upper median: the item in the middle of the ascending order, 0 for none.
pub open spec fn median(s: Seq<int>) -> int {
    if s.len() == 0 {
        0
    } else {
        stable_sort(s, own_value())[(s.len() / 2) as int]
    }
}

/// The lower median: the item before the middle of the ascending order, 0 for
/// none.
pub open spec fn lower_median(s: Seq<int>) -> int {
    if s.len() == 0 {
        0
    } else {
        stable_sort(s, own_value())[((s.len() - 1) / 2) as int]
    }
}

proof fn lemma_insert_by_props<T>(s: Seq<T>, x: T, key: spec_fn(T) -> int)
    requires
        ascending(s, key),
    ensures
        insert_by(s, x, key).len() == s.len() + 1,
        insert_by(s, x, key).to_multiset() == s.to_multiset().insert(x),
        ascending(insert_by(s, x, key), key),
        insert_by(s, x, key).last() == x || (s.len() > 0 && insert_by(s, x, key).last() == s.last()
            && key(x) < key(s.last())),
    decreases s.len(),
{
    broadcast use group_to_multiset_ensures;

    if s.len() == 0 || key(s.last()) <= key(x) {
        let r = s.push(x);
        assert forall|i: int, j: int| 0 <= i <= j < r.len() implies key(#[trigger] r[i]) <= key(
            #[trigger] r[j],
        ) by {
            if j == r.len() - 1 && i < j {
                assert(key(s[i]) <= key(s[s.len() - 1]));
            }
        }
    } else {
        let d = s.drop_last();
        assert(ascending(d, key)) by {
            assert forall|i: int, j: int| 0 <= i <= j < d.len() implies key(#[trigger] d[i])
                <= key(#[trigger] d[j]) by {
                assert(d[i] == s[i] && d[j] == s[j]);
            }
        }
        lemma_insert_by_props(d, x, key);
        let m = insert_by(d, x, key);
        let r = m.push(s.last());
        assert(s =~= d.push(s.last()));
        assert(r.to_multiset() =~= s.to_multiset().insert(x));
        assert(key(m.last()) <= key(s.last())) by {
            if d.len() > 0 && m.last() == d.last() {
                assert(key(s[s.len() - 2]) <= key(s[s.len() - 1]));
            }
        }
        assert forall|i: int, j: int| 0 <= i <= j < r.len() implies key(#[trigger] r[i]) <= key(
            #[trigger] r[j],
        ) by {
            if j == r.len() - 1 && i < j {
                assert(key(m[i]) <= key(m[m.len() - 1]));
            } else if j < r.len() - 1 {
                assert(r[i] == m[i] && r[j] == m[j]);
            }
        }
    }
}

/// Sorting keeps the items and their number and puts them in ascending order.
pub proof fn stable_sort_is_sorted_permutation<T>(s: Seq<T>, key: spec_fn(T) -> int)
    ensures
        stable_sort(s, key).len() == s.len(),
        stable_sort(s, key).to_multiset() == s.to_multiset(),
        ascending(stable_sort(s, key), key),
    decreases s.len(),
{
    broadcast use group_to_multiset_ensures;

    if s.len() > 0 {
        stable_sort_is_sorted_permutation(s.drop_last(), key);
        lemma_insert_by_props(stable_sort(s.drop_last(), key), s.last(), key);
        assert(s =~= s.drop_last().push(s.last()));
    }
}

/// An item is in the sorted sequence exactly when it was in the given one.
pub proof fn stable_sort_contains<T>(s: Seq<T>, key: spec_fn(T) -> int, x: T)
    ensures
        stable_sort(s, key).contains(x) <==> s.contains(x),
{
    broadcast use group_to_multiset_ensures;

    stable_sort_is_sorted_permutation(s, key);
    assert(stable_sort(s, key).contains(x) <==> stable_sort(s, key).to_multiset().count(x) > 0);
    assert(s.contains(x) <==> s.to_multiset().count(x) > 0);
}

proof fn lemma_insert_at<T>(s: Seq<T>, x: T, key: spec_fn(T) -> int, j: int)
    requires
        0 <= j <= s.len(),
        j == 0 || key(s[j - 1]) <= key(x),
        forall|k: int| j <= k < s.len() ==> key(#[trigger] s[k]) > key(x),
    ensures
        insert_by(s, x, key) == s.insert(j, x),
    decreases s.len(),
{
    if j == s.len() {
        assert(s.insert(j, x) =~= s.push(x));
    } else {
        lemma_insert_at(s.drop_last(), x, key, j);
        assert(s.insert(j, x) =~= s.drop_last().insert(j, x).push(s.last()));
    }
}

pub proof fn lemma_insert_by_map<T, U>(
    s: Seq<T>,
    x: T,
    f: spec_fn(T) -> U,
    kt: spec_fn(T) -> int,
    ku: spec_fn(U) -> int,
)
    requires
        kt(x) == ku(f(x)),
        forall|i: int| 0 <= i < s.len() ==> kt(#[trigger] s[i]) == ku(f(s[i])),
    ensures
        insert_by(s, x, kt).map_values(f) == insert_by(s.map_values(f), f(x), ku),
    decreases s.len(),
{
    let m = s.map_values(f);
    if s.len() == 0 || kt(s.last()) <= kt(x) {
        if s.len() > 0 {
            assert(kt(s[s.len() - 1]) == ku(f(s[s.len() - 1])));
        }
        assert(s.push(x).map_values(f) =~= m.push(f(x)));
    } else {
        assert(kt(s[s.len() - 1]) == ku(f(s[s.len() - 1])));
        lemma_insert_by_map(s.drop_last(), x, f, kt, ku);
        assert(s.drop_last().map_values(f) =~= m.drop_last());
        let i = insert_by(s.drop_last(), x, kt);
        assert(i.push(s.last()).map_values(f) =~= i.map_values(f).push(f(s.last())));
    }
}

/// Sorting commutes with a renaming of the items that keeps their keys.
pub proof fn stable_sort_map<T, U>(
    s: Seq<T>,
    f: spec_fn(T) -> U,
    kt: spec_fn(T) -> int,
    ku: spec_fn(U) -> int,
)
    requires
        forall|i: int| 0 <= i < s.len() ==> kt(#[trigger] s[i]) == ku(f(s[i])),
    ensures
        stable_sort(s, kt).map_values(f) == stable_sort(s.map_values(f), ku),
    decreases s.len(),
{
    if s.len() == 0 {
        assert(s.map_values(f) =~= Seq::<U>::empty());
        assert(stable_sort(s, kt).map_values(f) =~= Seq::<U>::empty());
    } else {
        let d = s.drop_last();
        stable_sort_map(d, f, kt, ku);
        assert(s.map_values(f).drop_last() =~= d.map_values(f));
        let sd = stable_sort(d, kt);
        assert forall|i: int| 0 <= i < sd.len() implies kt(#[trigger] sd[i]) == ku(f(sd[i])) by {
            stable_sort_contains(d, kt, sd[i]);
            assert(sd.contains(sd[i]));
            let k = choose|k: int| 0 <= k < d.len() && d[k] == sd[i];
            assert(s[k] == d[k]);
        }
        assert(kt(s[s.len() - 1]) == ku(f(s[s.len() - 1])));
        lemma_insert_by_map(sd, s.last(), f, kt, ku);
    }
}

/// Sorts `v` by the integer that `key_of` gives each item, in the order `key`.
pub(crate) fn sort_by_key<T: Copy>(
    v: &Vec<T>,
    key_of: impl Fn(T) -> i128,
    Ghost(key): Ghost<spec_fn(T) -> int>,
) -> (out: Vec<T>)
    requires
        forall|x: T| key_of.requires((x,)),
        forall|x: T, k: i128| key_of.ensures((x,), k) ==> k == key(x),
    ensures
        out@ == stable_sort(v@, key),
{
    let mut out: Vec<T> = Vec::new();
    let mut i: usize = 0;
    assert(v@.take(0) =~= Seq::<T>::empty());
    while i < v.len()
        invariant
            i <= v@.len(),
            out@ == stable_sort(v@.take(i as int), key),
            out@.len() == i,
            forall|x: T| key_of.requires((x,)),
            forall|x: T, k: i128| key_of.ensures((x,), k) ==> k == key(x),
        decreases v@.len() - i,
    {
        let x = v[i];
        let kx: i128 = key_of(x);
        let mut j: usize = out.len();
        while j > 0
            invariant
                j <= out@.len(),
                out@.len() == i,
                kx == key(x),
                forall|k: int| j <= k < out@.len() ==> key(#[trigger] out@[k]) > kx,
                forall|x: T| key_of.requires((x,)),
                forall|x: T, k: i128| key_of.ensures((x,), k) ==> k == key(x),
            ensures
                j == 0 || key(out@[j - 1]) <= kx,
            decreases j,
        {
            if key_of(out[j - 1]) <= kx {
                break;
            }
            j = j - 1;
        }
        proof {
            lemma_insert_at(out@, x, key, j as int);
            assert(v@.take(i + 1).drop_last() =~= v@.take(i as int));
            assert(v@.take(i + 1).last() == x);
        }
        out.insert(j, x);
        i = i + 1;
    }
    assert(v@.take(i as int) =~= v@);
    out
}

fn same_value(x: i128) -> (k: i128)
    ensures
        k == x,
{
    x
}

/// The upper median of `v`, 0 for none.
pub fn median_of(v: &Vec<i128>) -> (r: i128)
    ensures
        r == median(ints(v@)),
        v@.len() > 0 ==> v@.contains(r),
        v@.len() == 0 ==> r == 0,
{
    if v.len() == 0 {
        return 0;
    }
    let ghost own = |x: i128| x as int;
    let sorted = sort_by_key(v, same_value, Ghost(own));
    proof {
        stable_sort_map(v@, own, own, own_value());
        assert(v@.map_values(own) =~= ints(v@));
        stable_sort_is_sorted_permutation(v@, own);
        let m = sorted@[(v@.len() / 2) as int];
        stable_sort_contains(v@, own, m);
        assert(sorted@.contains(m));
    }
    sorted[v.len() / 2]
}

/// The lower median of `v`, 0 for none.
pub fn lower_median_of(v: &Vec<i128>) -> (r: i128)
    ensures
        r == lower_median(ints(v@)),
        v@.len() > 0 ==> v@.contains(r),
        v@.len() == 0 ==> r == 0,
{
    if v.len() == 0 {
        return 0;
    }
    let ghost own = |x: i128| x as int;
    let sorted = sort_by_key(v, same_value, Ghost(own));
    proof {
        stable_sort_map(v@, own, own, own_value());
        assert(v@.map_values(own) =~= ints(v@));
        stable_sort_is_sorted_permutation(v@, own);
        let m = sorted@[((v@.len() - 1) / 2) as int];
        stable_sort_contains(v@, own, m);
        assert(sorted@.contains(m));
    }
    sorted[(v.len() - 1) / 2]
}

/// The median of some values is one of them.
pub proof fn median_is_a_value(s: Seq<int>)
    requires
        s.len() > 0,
    ensures
        s.contains(median(s)),
{
    let k = own_value();
    stable_sort_is_sorted_permutation(s, k);
    let m = stable_sort(s, k);
    assert(m.contains(m[(s.len() / 2) as int]));
    stable_sort_contains(s, k, median(s));
}

/// The medians are what stands in the middle of the values in ascending order: for an even
/// number of them the upper and the lower of the two.
pub proof fn medians_stand_in_the_middle(s: Seq<int>, sorted: Seq<int>)
    requires
        s.len() > 0,
        sorted.to_multiset() == s.to_multiset(),
        forall|i: int, j: int| 0 <= i <= j < sorted.len() ==> sorted[i] <= sorted[j],
    ensures
        sorted.len() == s.len(),
        median(s) == sorted[(s.len() / 2) as int],
        lower_median(s) == sorted[((s.len() - 1) / 2) as int],
{
    broadcast use group_to_multiset_ensures;

    let k = own_value();
    let t = stable_sort(s, k);
    stable_sort_is_sorted_permutation(s, k);
    let leq = |a: int, b: int| a <= b;
    assert(vstd::relations::total_ordering(leq));
    assert(vstd::relations::sorted_by(t, leq)) by {
        assert forall|i: int, j: int| 0 <= i < j < t.len() implies #[trigger] leq(t[i], t[j]) by {
            assert(k(t[i]) <= k(t[j]));
        }
    }
    assert(vstd::relations::sorted_by(sorted, leq));
    vstd::seq_lib::lemma_sorted_unique(t, sorted, leq);
    assert(t =~= sorted);
}

proof fn lemma_insert_keeps_order<T>(s: Seq<T>, x: T, key: spec_fn(T) -> int, v: int)
    requires
        ascending(s, key),
    ensures
        insert_by(s, x, key).filter(|y: T| key(y) == v) == if key(x) == v {
            s.filter(|y: T| key(y) == v).push(x)
        } else {
            s.filter(|y: T| key(y) == v)
        },
    decreases s.len(),
{
    reveal(Seq::filter);
    let p = |y: T| key(y) == v;
    if s.len() == 0 || key(s.last()) <= key(x) {
        let r = s.push(x);
        assert(r.drop_last() =~= s);
        assert(r.last() == x);
    } else {
        let d = s.drop_last();
        assert forall|i: int, j: int| 0 <= i <= j < d.len() implies key(#[trigger] d[i]) <= key(#[trigger] d[j]) by {
            assert(d[i] == s[i] && d[j] == s[j]);
        }
        lemma_insert_keeps_order(d, x, key, v);
        let m = insert_by(d, x, key);
        let r = m.push(s.last());
        assert(r.drop_last() =~= m);
        assert(r.last() == s.last());
    }
}

/// Items with equal keys keep their order.
pub proof fn sorting_keeps_the_order_of_equals<T>(s: Seq<T>, key: spec_fn(T) -> int, v: int)
    ensures
        stable_sort(s, key).filter(|y: T| key(y) == v) == s.filter(|y: T| key(y) == v),
    decreases s.len(),
{
    reveal(Seq::filter);
    if s.len() > 0 {
        sorting_keeps_the_order_of_equals(s.drop_last(), key, v);
        stable_sort_is_sorted_permutation(s.drop_last(), key);
        lemma_insert_keeps_order(stable_sort(s.drop_last(), key), s.last(), key, v);
    }
}

} // verus!
