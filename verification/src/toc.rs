//! The table of contents: which of its entries stands for the page on show, and
//! which are folded.
use crate::keyed::Table;
use crate::text::{decimal, push_decimal, same_text};
use vstd::prelude::*;

verus! {

/// An entry of the table of contents that is on show.
#[derive(Debug)]
pub struct TocItem {
    pub id: String,
    pub title: String,
    pub level: u32,
    pub page: u32,
    /// It has entries below it.
    pub is_parent: bool,
}

/// Entry `b` is at least as near to the end of the book as entry `a`: by its
/// page, then by its level.
pub open spec fn not_before(a: TocItem, b: TocItem) -> bool {
    a.page < b.page || (a.page == b.page && a.level <= b.level)
}

/// The entry of the first `n` that stands for page `current`: of those that do
/// not begin behind it, the nearest; of several the last.
pub open spec fn nearest_entry(items: Seq<TocItem>, current: u32, n: nat) -> Option<int>
    decreases n,
{
    if n == 0 {
        None
    } else {
        let prev = nearest_entry(items, current, (n - 1) as nat);
        if items[n - 1].page > current {
            prev
        } else {
            match prev {
                Some(k) => if not_before(items[k], items[n - 1]) {
                    Some(n - 1)
                } else {
                    prev
                },
                None => Some(n - 1),
            }
        }
    }
}

/// The entries hold one with this id.
pub open spec fn has_entry(items: Seq<TocItem>, id: Seq<char>) -> bool {
    exists|i: int| 0 <= i < items.len() && (#[trigger] items[i]).id@ == id
}

/// The entry that stands for the page on show: the one that the user chose, as
/// long as its page is on show and it is not folded away; else the nearest.
pub open spec fn active_entry(items: Seq<TocItem>, chosen: Option<(String, u32)>, current: u32) -> Option<Seq<char>> {
    if chosen is Some && (chosen->0).1 == current && has_entry(items, (chosen->0).0@) {
        Some((chosen->0).0@)
    } else {
        match nearest_entry(items, current, items.len()) {
            Some(k) => Some(items[k].id@),
            None => None,
        }
    }
}

fn contains_entry(items: &Vec<TocItem>, id: &str) -> (r: bool)
    ensures
        r == has_entry(items@, id@),
{
    let mut i: usize = 0;
    while i < items.len()
        invariant
            i <= items@.len(),
            forall|k: int| 0 <= k < i ==> (#[trigger] items@[k]).id@ != id@,
        decreases items@.len() - i,
    {
        if same_text(items[i].id.as_str(), id) {
            assert(items@[i as int].id@ == id@);
            return true;
        }
        i = i + 1;
    }
    false
}

/// The place of the entry that is nearest to page `current`.
pub fn find_nearest(items: &Vec<TocItem>, current: u32) -> (r: Option<usize>)
    ensures
        match r {
            Some(k) => k < items@.len() && nearest_entry(items@, current, items@.len()) == Some(k as int),
            None => nearest_entry(items@, current, items@.len()) is None,
        },
{
    let mut best: Option<usize> = None;
    let mut i: usize = 0;
    while i < items.len()
        invariant
            i <= items@.len(),
            match best {
                Some(k) => k < i && nearest_entry(items@, current, i as nat) == Some(k as int),
                None => nearest_entry(items@, current, i as nat) is None,
            },
        decreases items@.len() - i,
    {
        if items[i].page <= current {
            best = match best {
                Some(k) => {
                    let a = &items[k];
                    let b = &items[i];
                    if a.page < b.page || (a.page == b.page && a.level <= b.level) {
                        Some(i)
                    } else {
                        Some(k)
                    }
                },
                None => Some(i),
            };
        }
        i = i + 1;
    }
    best
}

/// The id of the entry that stands for the page on show.
pub fn active_toc_id(items: &Vec<TocItem>, chosen: &Option<(String, u32)>, current: u32) -> (r: Option<String>)
    ensures
        crate::model::opt_text(r) == active_entry(items@, *chosen, current),
{
    if let Some(c) = chosen {
        if c.1 == current && contains_entry(items, c.0.as_str()) {
            return Some(c.0.clone());
        }
    }
    match find_nearest(items, current) {
        Some(k) => Some(items[k].id.clone()),
        None => None,
    }
}

/// The style class of an entry.
pub open spec fn entry_class(active: bool, parent: bool) -> Seq<char> {
    (if active {
        "reader-toc-item is-active"@
    } else {
        "reader-toc-item"@
    }) + (if parent {
        " is-parent"@
    } else {
        Seq::empty()
    })
}

/// The style class of an entry.
pub fn toc_item_class(item: &TocItem, active_id: &Option<String>) -> (r: String)
    ensures
        r@ == entry_class(active_id is Some && active_id->0@ == item.id@, item.is_parent),
{
    let active = match active_id {
        Some(a) => same_text(a.as_str(), item.id.as_str()),
        None => false,
    };
    let mut r = String::new();
    if active {
        r.append("reader-toc-item is-active");
    } else {
        r.append("reader-toc-item");
    }
    let ghost head = r@;
    if item.is_parent {
        r.append(" is-parent");
    }
    assert(r@ =~= entry_class(active, item.is_parent));
    r
}

/// The style of an entry: deeper entries stand further right.
pub fn toc_item_style(item: &TocItem) -> (r: String)
    ensures
        r@ == "padding-left: "@ + decimal((12 + item.level * 14) as nat) + "px"@,
{
    let mut r = String::new();
    r.append("padding-left: ");
    push_decimal(&mut r, 12 + (item.level as u64) * 14);
    r.append("px");
    assert(r@ =~= "padding-left: "@ + decimal((12 + item.level * 14) as nat) + "px"@);
    r
}

/// The sign before an entry that has entries below it.
pub fn fold_sign(collapsed: &Table<()>, id: &str) -> (r: &'static str)
    ensures
        r@ == if collapsed@.dom().contains(id@) {
            "▸"@
        } else {
            "▾"@
        },
{
    if collapsed.contains(id) {
        "▸"
    } else {
        "▾"
    }
}

/// The nearest entry does not begin behind the page, and no other entry that
/// does not is nearer.
pub proof fn nearest_entry_is_nearest(items: Seq<TocItem>, current: u32, n: nat)
    requires
        n <= items.len(),
    ensures
        match nearest_entry(items, current, n) {
            Some(k) => 0 <= k < n && items[k].page <= current && forall|i: int|
                0 <= i < n && (#[trigger] items[i]).page <= current ==> not_before(items[i], items[k]),
            None => forall|i: int| 0 <= i < n ==> (#[trigger] items[i]).page > current,
        },
    decreases n,
{
    if n > 0 {
        nearest_entry_is_nearest(items, current, (n - 1) as nat);
    }
}

/// The entry that is active is the one that was chosen, while its page is on show and it is
/// there; else the last one on the page or before it: the nearest page, the deepest level,
/// and of equal ones the last.
pub proof fn the_active_entry_is_chosen_or_nearest(items: Seq<TocItem>, chosen: Option<(String, u32)>, current: u32, k: int)
    ensures
        chosen is Some && (chosen->0).1 == current && (exists|i: int| 0 <= i < items.len() && (#[trigger] items[i]).id@ == (
        chosen->0).0@) ==> active_entry(items, chosen, current) == Some((chosen->0).0@),
        (chosen is None || (chosen->0).1 != current) && 0 <= k < items.len() && items[k].page <= current && (forall|i: int|
            0 <= i < items.len() && (#[trigger] items[i]).page <= current && i != k ==> items[i].page < items[k].page || items[i].page
                == items[k].page && (items[i].level < items[k].level || items[i].level == items[k].level && i < k)) ==> active_entry(
            items,
            chosen,
            current,
        ) == Some(items[k].id@),
        (chosen is None || (chosen->0).1 != current) && (forall|i: int| 0 <= i < items.len() ==> (#[trigger] items[i]).page > current)
            ==> active_entry(items, chosen, current) is None,
{
    nearest_entry_is_nearest(items, current, items.len());
    if 0 <= k < items.len() && items[k].page <= current && (forall|i: int|
        0 <= i < items.len() && (#[trigger] items[i]).page <= current && i != k ==> items[i].page < items[k].page || items[i].page
            == items[k].page && (items[i].level < items[k].level || items[i].level == items[k].level && i < k)) {
        lemma_nearest_is(items, current, items.len(), k);
    }
}

proof fn lemma_nearest_is(items: Seq<TocItem>, current: u32, n: nat, k: int)
    requires
        n <= items.len(),
        0 <= k < items.len(),
        items[k].page <= current,
        forall|i: int|
            0 <= i < items.len() && (#[trigger] items[i]).page <= current && i != k ==> items[i].page < items[k].page || items[i].page
                == items[k].page && (items[i].level < items[k].level || items[i].level == items[k].level && i < k),
    ensures
        k < n ==> nearest_entry(items, current, n) == Some(k),
    decreases n,
{
    if n > 0 {
        lemma_nearest_is(items, current, (n - 1) as nat, k);
        nearest_entry_is_nearest(items, current, (n - 1) as nat);
        if n - 1 != k && items[n - 1].page <= current {
            assert(items[n - 1].page <= current);
        }
        if k == n - 1 {
            if let Some(p) = nearest_entry(items, current, (n - 1) as nat) {
                assert(items[p].page <= current);
            }
        }
    }
}

} // verus!
