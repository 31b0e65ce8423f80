//! The set of Earley items that belongs to one position of the input.
use vstd::prelude::*;
use crate::item::Item;

verus! {

/// The list `items`, followed by those of `new_items` that it does not hold
/// yet, each once and in the order in which they are given.
pub open spec fn append_new(items: Seq<Item>, new_items: Seq<Item>) -> Seq<Item>
    decreases new_items.len(),
{
    if new_items.len() == 0 {
        items
    } else {
        let first = new_items[0];
        let grown = if items.contains(first) {
            items
        } else {
            items.push(first)
        };
        append_new(grown, new_items.drop_first())
    }
}

/// Appending never removes or moves an item: the old list is a prefix of the
/// new one. An item of the new list is one of the old list or one of the new
/// items, every new item is in the new list, and a list without repetitions
/// stays without them.
pub proof fn lemma_append_new(items: Seq<Item>, new_items: Seq<Item>)
    ensures
        items.is_prefix_of(append_new(items, new_items)),
        forall|k: int|
            0 <= k < append_new(items, new_items).len() ==> items.contains(
                #[trigger] append_new(items, new_items)[k],
            ) || new_items.contains(append_new(items, new_items)[k]),
        forall|k: int|
            0 <= k < new_items.len() ==> append_new(items, new_items).contains(
                #[trigger] new_items[k],
            ),
        items.no_duplicates() ==> append_new(items, new_items).no_duplicates(),
    decreases new_items.len(),
{
    if new_items.len() > 0 {
        let first = new_items[0];
        let grown = if items.contains(first) {
            items
        } else {
            items.push(first)
        };
        let rest = new_items.drop_first();
        let all = append_new(items, new_items);
        lemma_append_new(grown, rest);
        assert(all == append_new(grown, rest));
        assert(items.is_prefix_of(grown));
        assert(grown.contains(first)) by {
            if !items.contains(first) {
                assert(grown[items.len() as int] == first);
            }
        }
        assert forall|k: int| 0 <= k < all.len() implies items.contains(#[trigger] all[k])
            || new_items.contains(all[k]) by {
            if grown.contains(all[k]) {
                let j = choose|j: int| 0 <= j < grown.len() && grown[j] == all[k];
                if j < items.len() {
                    assert(items[j] == all[k]);
                } else {
                    assert(new_items[0] == all[k]);
                }
            } else {
                let j = choose|j: int| 0 <= j < rest.len() && rest[j] == all[k];
                assert(new_items[j + 1] == all[k]);
            }
        }
        assert forall|k: int| 0 <= k < new_items.len() implies all.contains(
            #[trigger] new_items[k],
        ) by {
            if k == 0 {
                let j = choose|j: int| 0 <= j < grown.len() && grown[j] == first;
                assert(all[j] == first);
            } else {
                assert(rest[k - 1] == new_items[k]);
            }
        }
    }
}

/// An ordered set of distinct items with a cursor that passes over it once.
/// Items appended behind the cursor are still reached by it.
#[derive(Debug, Clone, PartialEq, Eq)]
pub struct StateSet {
    items: Vec<Item>,
    next: usize,
    exhausted: bool,
}

/// What a [`StateSet`] stands for.
pub struct StateSetView {
    /// The items, in the order in which they were inserted.
    pub items: Seq<Item>,
    /// The number of items that the cursor has passed.
    pub cursor: nat,
    /// Whether the cursor has run off the end; it then yields nothing more.
    pub exhausted: bool,
}

impl View for StateSet {
    type V = StateSetView;

    closed spec fn view(&self) -> StateSetView {
        StateSetView { items: self.items@, cursor: self.next as nat, exhausted: self.exhausted }
    }
}

/// True if `item` occurs in `items`.
pub fn items_contain(items: &Vec<Item>, item: &Item) -> (found: bool)
    ensures
        found == items@.contains(*item),
{
    let mut i: usize = 0;
    while i < items.len()
        invariant
            i <= items.len(),
            forall|k: int| 0 <= k < i ==> items@[k] != *item,
        decreases items.len() - i,
    {
        if items[i] == *item {
            return true;
        }
        i += 1;
    }
    false
}

impl StateSet {
    /// Constructs a state set from a list of items, with the cursor before
    /// the first of them. The list is taken as it is: the caller sees to it
    /// that no item occurs twice.
    pub fn new(items: Vec<Item>) -> (set: StateSet)
        ensures
            set@ == (StateSetView { items: items@, cursor: 0, exhausted: false }),
    {
        StateSet { items, next: 0, exhausted: false }
    }

    /// Constructs a state set whose cursor has already run off the end.
    pub fn exhausted(items: Vec<Item>) -> (set: StateSet)
        ensures
            set@ == (StateSetView { items: items@, cursor: items@.len(), exhausted: true }),
    {
        let next = items.len();
        StateSet { items, next, exhausted: true }
    }

    /// All the items, in insertion order.
    pub fn items(&self) -> (items: &Vec<Item>)
        ensures
            items@ == self@.items,
    {
        &self.items
    }

    /// Yields the item under the cursor and moves the cursor past it. When
    /// there is no such item the cursor is exhausted, and stays so.
    pub fn next(&mut self) -> (item: Option<Item>)
        ensures
            final(self)@.items == old(self)@.items,
            !old(self)@.exhausted && old(self)@.cursor < old(self)@.items.len() ==> item == Some(
                old(self)@.items[old(self)@.cursor as int],
            ) && final(self)@.cursor == old(self)@.cursor + 1 && !final(self)@.exhausted,
            old(self)@.exhausted || old(self)@.cursor >= old(self)@.items.len() ==> item is None
                && final(self)@.cursor == old(self)@.cursor && final(self)@.exhausted,
    {
        if !self.exhausted && self.next < self.items.len() {
            let item = self.items[self.next];
            self.next = self.next + 1;
            Some(item)
        } else {
            self.exhausted = true;
            None
        }
    }

    /// Appends the items of `new_items` that the set does not hold yet. The
    /// cursor stays where it is.
    pub fn add(&mut self, new_items: Vec<Item>)
        ensures
            final(self)@.items == append_new(old(self)@.items, new_items@),
            final(self)@.cursor == old(self)@.cursor,
            final(self)@.exhausted == old(self)@.exhausted,
    {
        let ghost start = self.items@;
        let mut i: usize = 0;
        assert(new_items@.subrange(0, new_items@.len() as int) == new_items@);
        while i < new_items.len()
            invariant
                i <= new_items.len(),
                self.next == old(self).next,
                self.exhausted == old(self).exhausted,
                append_new(self.items@, new_items@.subrange(i as int, new_items@.len() as int))
                    == append_new(start, new_items@),
            decreases new_items.len() - i,
        {
            let item = new_items[i];
            proof {
                let rest = new_items@.subrange(i as int, new_items@.len() as int);
                assert(rest[0] == item);
                assert(rest.drop_first() == new_items@.subrange(
                    i + 1,
                    new_items@.len() as int,
                ));
            }
            if !items_contain(&self.items, &item) {
                self.items.push(item);
            }
            i += 1;
        }
    }
}

} // verus!
