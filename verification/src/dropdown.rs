//! A drop-down list: its options, what was chosen, and the search in it.
use crate::search::{lowercase, to_lowercase};
use crate::text::{chars_of, find_chars, occurs, same_text};
use vstd::prelude::*;

verus! {

/// One option.
#[derive(Debug)]
pub struct DropdownOption {
    pub value: String,
    pub label: String,
}

/// The first option from `from` on that has this value.
pub open spec fn option_place(options: Seq<DropdownOption>, value: Seq<char>, from: int) -> Option<int>
    decreases options.len() - from,
{
    if from < 0 || from >= options.len() {
        None
    } else if options[from].value@ == value {
        Some(from)
    } else {
        option_place(options, value, from + 1)
    }
}

/// Where the option with this value stands.
pub fn find_option(options: &Vec<DropdownOption>, value: &str) -> (r: Option<usize>)
    ensures
        match r {
            Some(i) => i < options@.len() && option_place(options@, value@, 0) == Some(i as int),
            None => option_place(options@, value@, 0) is None,
        },
{
    let mut i: usize = 0;
    while i < options.len()
        invariant
            i <= options@.len(),
            option_place(options@, value@, 0) == option_place(options@, value@, i as int),
        decreases options@.len() - i,
    {
        if same_text(options[i].value.as_str(), value) {
            return Some(i);
        }
        i = i + 1;
    }
    None
}

/// The label of a closed list: that of the chosen option, or the text that holds
/// its place.
pub open spec fn chosen_label(options: Seq<DropdownOption>, value: Seq<char>, placeholder: Option<Seq<char>>) -> Seq<char> {
    match option_place(options, value, 0) {
        Some(i) => options[i].label@,
        None => match placeholder {
            Some(p) => p,
            None => Seq::empty(),
        },
    }
}

/// The label of a closed list.
pub fn selected_label(options: &Vec<DropdownOption>, value: &str, placeholder: &Option<String>) -> (r: String)
    ensures
        r@ == chosen_label(options@, value@, crate::model::opt_text(*placeholder)),
{
    match find_option(options, value) {
        Some(i) => options[i].label.clone(),
        None => match placeholder {
            Some(p) => p.clone(),
            None => String::new(),
        },
    }
}

/// Whether one of the options was chosen.
pub fn has_value(options: &Vec<DropdownOption>, value: &str) -> (r: bool)
    ensures
        r == (option_place(options@, value@, 0) is Some),
{
    find_option(options, value).is_some()
}

/// The list shows all its options: it cannot be searched, or nothing is searched
/// for.
pub open spec fn shows_all(searchable: bool, query: Seq<char>) -> bool {
    !searchable || query.len() == 0
}

/// An option is found by a query in lower case.
pub open spec fn found(option: DropdownOption, query: Seq<char>) -> bool {
    occurs(lowercase(option.label@), query)
}

/// The places of the options among the first `n` that satisfy `p`.
pub open spec fn places_where(n: nat, p: spec_fn(int) -> bool) -> Seq<usize>
    decreases n,
{
    if n == 0 {
        Seq::empty()
    } else if p(n - 1) {
        places_where((n - 1) as nat, p).push((n - 1) as usize)
    } else {
        places_where((n - 1) as nat, p)
    }
}

/// The places of the options whose labels, given in lower case, hold the query.
pub fn places_of_query(labels: &Vec<String>, query: &str) -> (r: Vec<usize>)
    ensures
        r@ == places_where(labels@.len(), |i: int| occurs(labels@[i]@, query@)),
{
    let q = chars_of(query);
    let ghost p = |i: int| occurs(labels@[i]@, query@);
    let mut r: Vec<usize> = Vec::new();
    let mut i: usize = 0;
    while i < labels.len()
        invariant
            i <= labels@.len(),
            q@ == query@,
            p == (|i: int| occurs(labels@[i]@, query@)),
            r@ == places_where(i as nat, p),
        decreases labels@.len() - i,
    {
        let label = chars_of(labels[i].as_str());
        if find_chars(&label, &q).is_some() {
            r.push(i);
        }
        i = i + 1;
    }
    r
}

/// The places of the options that the list shows. A search takes no notice of
/// upper and lower case.
pub fn filtered_options(options: &Vec<DropdownOption>, searchable: bool, query: &str) -> (r: Vec<usize>)
    ensures
        r@ == if shows_all(searchable, query@) {
            places_where(options@.len(), |i: int| true)
        } else {
            places_where(options@.len(), |i: int| found(options@[i], lowercase(query@)))
        },
{
    if !searchable || query.is_empty() {
        let ghost p = |i: int| true;
        let mut r: Vec<usize> = Vec::new();
        let mut i: usize = 0;
        while i < options.len()
            invariant
                i <= options@.len(),
                p == (|i: int| true),
                r@ == places_where(i as nat, p),
            decreases options@.len() - i,
        {
            r.push(i);
            i = i + 1;
        }
        return r;
    }
    let q = to_lowercase(query);
    let mut labels: Vec<String> = Vec::new();
    let mut i: usize = 0;
    while i < options.len()
        invariant
            i <= options@.len(),
            labels@.len() == i,
            forall|k: int| 0 <= k < i ==> (#[trigger] labels@[k])@ == lowercase(options@[k].label@),
        decreases options@.len() - i,
    {
        labels.push(to_lowercase(options[i].label.as_str()));
        i = i + 1;
    }
    proof {
        lemma_places_agree(
            options@.len(),
            |i: int| occurs(labels@[i]@, q@),
            |i: int| found(options@[i], lowercase(query@)),
        );
    }
    places_of_query(&labels, q.as_str())
}

proof fn lemma_places_agree(n: nat, p: spec_fn(int) -> bool, q: spec_fn(int) -> bool)
    requires
        forall|i: int| 0 <= i < n ==> #[trigger] p(i) == q(i),
    ensures
        places_where(n, p) == places_where(n, q),
    decreases n,
{
    if n > 0 {
        lemma_places_agree((n - 1) as nat, p, q);
    }
}

/// The state of a drop-down list.
#[derive(Debug)]
pub struct Dropdown {
    pub is_open: bool,
    pub search_query: String,
}

impl Dropdown {
    pub fn new() -> (r: Dropdown)
        ensures
            !r.is_open,
            r.search_query@.len() == 0,
    {
        Dropdown { is_open: false, search_query: String::new() }
    }

    /// A click on the button opens the list, or closes it and forgets the search.
    pub fn press(&mut self)
        ensures
            final(self).is_open == !old(self).is_open,
            final(self).search_query@ == if old(self).is_open {
                Seq::<char>::empty()
            } else {
                old(self).search_query@
            },
    {
        self.is_open = !self.is_open;
        if !self.is_open {
            self.search_query = String::new();
        }
    }

    /// The user types into the search field.
    pub fn search(&mut self, query: String)
        ensures
            *final(self) == (Dropdown { search_query: query, ..*old(self) }),
    {
        self.search_query = query;
    }

    /// A choice, or a click beside the list, closes it and forgets the search.
    pub fn close(&mut self)
        ensures
            !final(self).is_open,
            final(self).search_query@.len() == 0,
    {
        self.is_open = false;
        self.search_query = String::new();
    }
}

/// The shown options are those that the search finds, in their order.
pub proof fn shown_options_are_the_found_ones(n: nat, p: spec_fn(int) -> bool)
    requires
        n <= usize::MAX,
    ensures
        forall|k: int| 0 <= k < places_where(n, p).len() ==> (#[trigger] places_where(n, p)[k]) < n && p(
            places_where(n, p)[k] as int,
        ),
        forall|i: int| 0 <= i < n && #[trigger] p(i) ==> places_where(n, p).contains(i as usize),
        forall|j: int, k: int|
            0 <= j < k < places_where(n, p).len() ==> (#[trigger] places_where(n, p)[j]) < (#[trigger] places_where(
                n,
                p,
            )[k]),
    decreases n,
{
    if n > 0 {
        shown_options_are_the_found_ones((n - 1) as nat, p);
        let prev = places_where((n - 1) as nat, p);
        let all = places_where(n, p);
        assert forall|i: int| 0 <= i < n && #[trigger] p(i) implies all.contains(i as usize) by {
            if i < n - 1 {
                assert(prev.contains(i as usize));
                let j = choose|j: int| 0 <= j < prev.len() && prev[j] == i as usize;
                assert(all[j] == i as usize);
            } else {
                assert(all[prev.len() as int] == i as usize);
            }
        }
    }
}

/// An option is found by its value: the first one that has it.
pub proof fn an_option_is_found_by_its_value(s: Seq<DropdownOption>, value: Seq<char>, i: int)
    ensures
        0 <= i < s.len() && s[i].value@ == value && (forall|k: int| 0 <= k < i ==> !((#[trigger] s[k]).value@ == value)) ==> option_place(s, value, 0) == Some(i),
        (forall|k: int| 0 <= k < s.len() ==> !((#[trigger] s[k]).value@ == value)) ==> option_place(s, value, 0) is None,
{
    lemma_option_place(s, value, 0);
}

proof fn lemma_option_place(s: Seq<DropdownOption>, value: Seq<char>, from: int)
    requires
        0 <= from,
    ensures
        match option_place(s, value, from) {
            Some(p) => from <= p < s.len() && s[p].value@ == value && forall|k: int| from <= k < p ==> !((#[trigger] s[k]).value@ == value),
            None => forall|k: int| from <= k < s.len() ==> !((#[trigger] s[k]).value@ == value),
        },
    decreases s.len() - from,
{
    if from < s.len() && !(s[from].value@ == value) {
        lemma_option_place(s, value, from + 1);
    }
}

/// What a list shows as chosen is the label of the first option with the value, and the
/// placeholder where there is none. An option is found by any part of its label, whatever the
/// case of its letters.
pub proof fn the_chosen_label_is_that_of_the_value(options: Seq<DropdownOption>, value: Seq<char>, placeholder: Seq<char>, i: int, q: Seq<char>)
    ensures
        0 <= i < options.len() && options[i].value@ == value && (forall|k: int| 0 <= k < i ==> (#[trigger] options[k]).value@ != value)
            ==> chosen_label(options, value, Some(placeholder)) == options[i].label@,
        (forall|k: int| 0 <= k < options.len() ==> (#[trigger] options[k]).value@ != value) ==> chosen_label(
            options,
            value,
            Some(placeholder),
        ) == placeholder,
        0 <= i < options.len() ==> (found(options[i], lowercase(q)) <==> exists|k: int|
            0 <= k && k + lowercase(q).len() <= lowercase(options[i].label@).len() && #[trigger] lowercase(options[i].label@).subrange(
                k,
                k + lowercase(q).len(),
            ) == lowercase(q)),
{
    an_option_is_found_by_its_value(options, value, i);
    if 0 <= i < options.len() {
        crate::text::what_occurs_is_a_part(lowercase(options[i].label@), lowercase(q));
    }
}

} // verus!
