//! A table whose entries are found by a text.
use crate::text::same_text;
use vstd::prelude::*;

verus! {

/// One entry of a table.
#[derive(Debug)]
pub struct Entry<V> {
    pub key: String,
    pub value: V,
}

/// A table with one value under each key. The order of its entries says
/// nothing.
#[derive(Debug)]
pub struct Table<V> {
    entries: Vec<Entry<V>>,
}

/// No key stands twice.
spec fn distinct<V>(s: Seq<Entry<V>>) -> bool {
    forall|i: int, j: int| 0 <= i < s.len() && 0 <= j < s.len() && s[i].key@ == s[j].key@ ==> i == j
}

/// Entry `i` has this key.
spec fn holds_at<V>(s: Seq<Entry<V>>, i: int, key: Seq<char>) -> bool {
    0 <= i < s.len() && s[i].key@ == key
}

/// What the entries map each key to.
spec fn mapped<V>(s: Seq<Entry<V>>) -> Map<Seq<char>, V> {
    Map::new(
        |key: Seq<char>| exists|i: int| holds_at(s, i, key),
        |key: Seq<char>| s[choose|i: int| holds_at(s, i, key)].value,
    )
}

proof fn lemma_mapped_at<V>(s: Seq<Entry<V>>, i: int)
    requires
        distinct(s),
        0 <= i < s.len(),
    ensures
        mapped(s).contains_pair(s[i].key@, s[i].value),
{
    assert(holds_at(s, i, s[i].key@));
}

proof fn lemma_absent<V>(s: Seq<Entry<V>>, key: Seq<char>)
    requires
        forall|i: int| 0 <= i < s.len() ==> (#[trigger] s[i]).key@ != key,
    ensures
        !mapped(s).dom().contains(key),
{
}

proof fn lemma_pushed<V>(s: Seq<Entry<V>>, e: Entry<V>)
    requires
        distinct(s),
        !mapped(s).dom().contains(e.key@),
    ensures
        distinct(s.push(e)),
        mapped(s.push(e)) == mapped(s).insert(e.key@, e.value),
{
    let t = s.push(e);
    assert forall|i: int| 0 <= i < s.len() implies s[i].key@ != e.key@ by {
        if s[i].key@ == e.key@ {
            assert(holds_at(s, i, e.key@));
        }
    }
    assert forall|k: Seq<char>| mapped(t).dom().contains(k) == mapped(s).insert(e.key@, e.value).dom().contains(k) by {
        if exists|i: int| holds_at(s, i, k) {
            let i = choose|i: int| holds_at(s, i, k);
            assert(holds_at(t, i, k));
        }
        assert(holds_at(t, s.len() as int, e.key@));
        if exists|i: int| holds_at(t, i, k) {
            let i = choose|i: int| holds_at(t, i, k);
            if i < s.len() {
                assert(holds_at(s, i, k));
            }
        }
    }
    assert forall|k: Seq<char>| #[trigger] mapped(t).dom().contains(k) implies mapped(t)[k] == mapped(s).insert(e.key@, e.value)[k] by {
        let i = choose|i: int| holds_at(t, i, k);
        if i < s.len() {
            assert(holds_at(s, i, k));
            lemma_mapped_at(s, i);
        }
        lemma_mapped_at(t, i);
    }
    assert(mapped(t) =~= mapped(s).insert(e.key@, e.value));
}

proof fn lemma_removed<V>(s: Seq<Entry<V>>, at: int)
    requires
        distinct(s),
        0 <= at < s.len(),
    ensures
        distinct(s.remove(at)),
        mapped(s.remove(at)) == mapped(s).remove(s[at].key@),
{
    let t = s.remove(at);
    assert forall|i: int, j: int| 0 <= i < t.len() && 0 <= j < t.len() && t[i].key@ == t[j].key@ implies i == j by {
        let i2 = if i < at { i } else { i + 1 };
        let j2 = if j < at { j } else { j + 1 };
        assert(t[i] == s[i2] && t[j] == s[j2]);
    }
    assert forall|k: Seq<char>| mapped(t).dom().contains(k) == mapped(s).remove(s[at].key@).dom().contains(k) by {
        if exists|i: int| holds_at(s, i, k) {
            let i = choose|i: int| holds_at(s, i, k);
            if k != s[at].key@ {
                let i2 = if i < at { i } else { i - 1 };
                assert(holds_at(t, i2, k));
            }
        }
        if exists|i: int| holds_at(t, i, k) {
            let i = choose|i: int| holds_at(t, i, k);
            let i2 = if i < at { i } else { i + 1 };
            assert(holds_at(s, i2, k));
        }
    }
    assert forall|k: Seq<char>| #[trigger] mapped(t).dom().contains(k) implies mapped(t)[k] == mapped(s)[k] by {
        let i = choose|i: int| holds_at(t, i, k);
        let i2 = if i < at { i } else { i + 1 };
        assert(holds_at(s, i2, k));
        lemma_mapped_at(t, i);
        lemma_mapped_at(s, i2);
    }
    assert(mapped(t) =~= mapped(s).remove(s[at].key@));
}

proof fn lemma_size<V>(s: Seq<Entry<V>>)
    requires
        distinct(s),
    ensures
        mapped(s).dom().finite(),
        mapped(s).dom().len() == s.len(),
    decreases s.len(),
{
    if s.len() == 0 {
        assert(mapped(s).dom() =~= Set::<Seq<char>>::empty());
    } else {
        let at = s.len() - 1;
        lemma_removed(s, at);
        assert(s.remove(at) =~= s.drop_last());
        lemma_size(s.drop_last());
        lemma_mapped_at(s, at);
        assert(mapped(s).dom() =~= mapped(s.drop_last()).dom().insert(s[at].key@));
    }
}

impl<V> View for Table<V> {
    type V = Map<Seq<char>, V>;

    closed spec fn view(&self) -> Map<Seq<char>, V> {
        mapped(self.entries@)
    }
}

impl<V> Table<V> {
    #[verifier::type_invariant]
    spec fn one_value_per_key(&self) -> bool {
        distinct(self.entries@)
    }

    pub fn new() -> (r: Table<V>)
        ensures
            r@ == Map::<Seq<char>, V>::empty(),
    {
        let r = Table { entries: Vec::new() };
        assert(r@ =~= Map::<Seq<char>, V>::empty());
        r
    }

    /// Where the entry under `key` stands.
    fn place(&self, key: &str) -> (r: Option<usize>)
        ensures
            match r {
                Some(i) => holds_at(self.entries@, i as int, key@) && self@.contains_pair(
                    key@,
                    self.entries@[i as int].value,
                ),
                None => !self@.dom().contains(key@),
            },
    {
        proof {
            use_type_invariant(self);
        }
        let mut i: usize = 0;
        while i < self.entries.len()
            invariant
                i <= self.entries@.len(),
                distinct(self.entries@),
                forall|k: int| 0 <= k < i ==> (#[trigger] self.entries@[k]).key@ != key@,
            decreases self.entries@.len() - i,
        {
            if same_text(self.entries[i].key.as_str(), key) {
                proof {
                    lemma_mapped_at(self.entries@, i as int);
                }
                return Some(i);
            }
            i = i + 1;
        }
        proof {
            lemma_absent(self.entries@, key@);
        }
        None
    }

    /// Whether there is a value under `key`.
    pub fn contains(&self, key: &str) -> (r: bool)
        ensures
            r == self@.dom().contains(key@),
    {
        self.place(key).is_some()
    }

    /// The value under `key`.
    pub fn get(&self, key: &str) -> (r: Option<&V>)
        ensures
            match r {
                Some(v) => self@.contains_pair(key@, *v),
                None => !self@.dom().contains(key@),
            },
    {
        match self.place(key) {
            Some(i) => Some(&self.entries[i].value),
            None => None,
        }
    }

    /// How many entries there are.
    pub fn len(&self) -> (r: usize)
        ensures
            self@.dom().finite(),
            r == self@.dom().len(),
    {
        proof {
            use_type_invariant(self);
            lemma_size(self.entries@);
        }
        self.entries.len()
    }

    /// Takes the value under `key` out.
    pub fn remove(&mut self, key: &str) -> (r: Option<V>)
        ensures
            final(self)@ == old(self)@.remove(key@),
            match r {
                Some(v) => old(self)@.contains_pair(key@, v),
                None => !old(self)@.dom().contains(key@),
            },
    {
        match self.place(key) {
            Some(i) => {
                proof {
                    use_type_invariant(&*self);
                    lemma_removed(self.entries@, i as int);
                }
                let mut taken: Table<V> = Table::new();
                std::mem::swap(self, &mut taken);
                let mut entries = taken.entries;
                let e = entries.remove(i);
                *self = Table { entries };
                Some(e.value)
            },
            None => {
                assert(self@ =~= self@.remove(key@));
                None
            },
        }
    }

    /// Puts a value under `key`, in place of what stood there.
    pub fn insert(&mut self, key: String, value: V)
        ensures
            final(self)@ == old(self)@.insert(key@, value),
    {
        let ghost before = self@;
        let _ = self.remove(key.as_str());
        proof {
            use_type_invariant(&*self);
            lemma_pushed(self.entries@, Entry { key, value });
            assert(before.remove(key@).insert(key@, value) =~= before.insert(key@, value));
        }
        let mut taken: Table<V> = Table::new();
        std::mem::swap(self, &mut taken);
        let mut entries = taken.entries;
        entries.push(Entry { key, value });
        *self = Table { entries };
    }
}

} // verus!
