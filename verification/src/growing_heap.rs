//! A search that always hands out the greatest item found so far and grows
//! new items from it, never taking the same item in twice.

use vstd::prelude::*;
use core::cmp::Ordering;
use core::hash::Hash;
use vstd::std_specs::cmp::PartialEqSpec;
use vstd::std_specs::cmp::PartialOrdSpec;

verus! {

/// An item from which further items grow.
pub trait Growable: Sized {
    /// The items that grow from this one.
    fn grow(&self) -> Vec<Self>;
}

/// The item at a place of a list.
pub open spec fn item_at<T>(items: Seq<T>, place: usize) -> T {
    items[place as int]
}

/// The list without the item at a place; the last item takes that place.
pub open spec fn without<T>(items: Seq<T>, place: usize) -> Seq<T> {
    items.update(place as int, items.last()).drop_last()
}

/// Whether one of the first `n` items equals `item`.
pub open spec fn known<T: PartialEq>(items: Seq<T>, item: T, n: int) -> bool {
    exists|i: int| 0 <= i < n && (#[trigger] items[i]).eq_spec(&item)
}

/// Whether none of the first `n` items is greater than the one at `place`.
pub open spec fn none_greater<T: PartialOrd>(items: Seq<T>, place: usize, n: usize) -> bool {
    forall|i: int|
        0 <= i < n ==> (#[trigger] items[i]).partial_cmp_spec(&item_at(items, place)) != Some(
            Ordering::Greater,
        )
}

/// Whether no item is greater than the one at `place`.
pub open spec fn greatest_at<T: PartialOrd>(items: Seq<T>, place: usize) -> bool {
    forall|i: int|
        0 <= i < items.len() ==> (#[trigger] items[i]).partial_cmp_spec(&item_at(items, place))
            != Some(Ordering::Greater)
}

/// Every list starts with itself.
proof fn lemma_starts_with_itself<T>(items: Seq<T>)
    ensures
        starts_with(items, items),
{
    assert(items.subrange(0, items.len() as int) =~= items);
}

/// A list that starts with a list starts with what that list starts with.
proof fn lemma_starts_with_start<T>(items: Seq<T>, middle: Seq<T>, start: Seq<T>)
    requires
        starts_with(items, middle),
        starts_with(middle, start),
    ensures
        starts_with(items, start),
{
    assert(items.subrange(0, start.len() as int) =~= middle.subrange(0, start.len() as int));
}

/// The list starts with the items of `start`.
pub open spec fn starts_with<T>(items: Seq<T>, start: Seq<T>) -> bool {
    start.len() <= items.len() && items.subrange(0, start.len() as int) == start
}

/// An item that is greater than the greatest so far is the greatest then.
proof fn lemma_new_greatest<T: Ord>(items: Seq<T>, place: usize, next: usize)
    requires
        vstd::laws_cmp::obeys_cmp::<T>(),
        next < items.len(),
        place < next,
        next < usize::MAX,
        none_greater(items, place, next),
        item_at(items, next).partial_cmp_spec(&item_at(items, place)) == Some(Ordering::Greater),
    ensures
        forall|i: int|
            0 <= i <= next ==> (#[trigger] items[i]).partial_cmp_spec(&item_at(items, next))
                != Some(Ordering::Greater),
{
    reveal(vstd::laws_cmp::obeys_partial_cmp_spec_properties);
    reveal(vstd::laws_cmp::obeys_cmp_partial_ord);
    reveal(vstd::laws_cmp::obeys_cmp_ord);
    reveal(vstd::laws_eq::obeys_eq_spec_properties);
    let top = item_at(items, next);
    let old_top = item_at(items, place);
    assert forall|i: int| 0 <= i <= next implies (#[trigger] items[i]).partial_cmp_spec(&top)
        != Some(Ordering::Greater) by {
        if i < next {
            assert(items[i].partial_cmp_spec(&old_top) != Some(Ordering::Greater));
            if items[i].partial_cmp_spec(&top) == Some(Ordering::Greater) {
                assert(items[i].partial_cmp_spec(&old_top) == Some(Ordering::Greater));
            }
        } else {
            assert(top.partial_cmp_spec(&top) == Some(Ordering::Less) <==> top.partial_cmp_spec(
                &top,
            ) == Some(Ordering::Greater));
        }
    }
}

/// The items taken in and not yet handed out, and every item ever taken in.
pub struct UniqueHeap<T> where T: Ord + Hash + Clone {
    pub heap: Vec<T>,
    pub set: Vec<T>,
}

impl<T> UniqueHeap<T> where T: Ord + Hash + Clone {
    /// The heap that has taken in nothing.
    pub fn new() -> (heap: Self)
        ensures
            heap.heap@.len() == 0,
            heap.set@.len() == 0,
    {
        Self { heap: Vec::new(), set: Vec::new() }
    }

    /// Whether an equal item was taken in before.
    fn seen(&self, item: &T) -> (found: bool)
        ensures
            T::obeys_eq_spec() ==> found == known(self.set@, *item, self.set@.len() as int),
    {
        let n = self.set.len();
        let mut i: usize = 0;
        while i < n
            invariant
                i <= n,
                n == self.set@.len(),
                T::obeys_eq_spec() ==> !known(self.set@, *item, i as int),
            decreases n - i,
        {
            if self.set[i] == *item {
                return true;
            }
            i += 1;
        }
        false
    }

    /// Takes the item in, unless an equal item was taken in before.
    pub fn push(&mut self, item: T)
        ensures
            starts_with(final(self).heap@, old(self).heap@),
            starts_with(final(self).set@, old(self).set@),
            T::obeys_eq_spec() ==> (if known(old(self).set@, item, old(self).set@.len() as int) {
                final(self).heap@ == old(self).heap@ && final(self).set@ == old(self).set@
            } else {
                &&& final(self).heap@ == old(self).heap@.push(item)
                &&& final(self).set@.len() == old(self).set@.len() + 1
                &&& cloned(item, final(self).set@.last())
            }),
    {
        let ghost heap = self.heap@;
        let ghost set = self.set@;
        assert(heap.subrange(0, heap.len() as int) =~= heap);
        assert(set.subrange(0, set.len() as int) =~= set);
        if self.seen(&item) {
            return;
        }
        let copy = item.clone();
        self.set.push(copy);
        self.heap.push(item);
        assert(self.set@.subrange(0, set.len() as int) =~= set);
        assert(self.heap@.subrange(0, heap.len() as int) =~= heap);
    }

    /// The place of an item than which none is greater.
    fn place_of_greatest(&self) -> (place: usize)
        requires
            self.heap@.len() > 0,
        ensures
            place < self.heap@.len(),
            vstd::laws_cmp::obeys_cmp::<T>() ==> greatest_at(self.heap@, place),
    {
        let n = self.heap.len();
        let mut place: usize = 0;
        let mut i: usize = 1;
        proof {
            if vstd::laws_cmp::obeys_cmp::<T>() {
                reveal(vstd::laws_cmp::obeys_partial_cmp_spec_properties);
                reveal(vstd::laws_cmp::obeys_cmp_partial_ord);
                reveal(vstd::laws_eq::obeys_eq_spec_properties);
                let top = item_at(self.heap@, 0);
                assert(top.partial_cmp_spec(&top) == Some(Ordering::Less) <==> top.partial_cmp_spec(
                    &top,
                ) == Some(Ordering::Greater));
            }
        }
        while i < n
            invariant
                1 <= i <= n,
                place < i,
                n == self.heap@.len(),
                vstd::laws_cmp::obeys_cmp::<T>() ==> none_greater(self.heap@, place, i),
            decreases n - i,
        {
            proof {
                if vstd::laws_cmp::obeys_cmp::<T>() {
                    reveal(vstd::laws_cmp::obeys_cmp_partial_ord);
                }
            }
            if self.heap[i] > self.heap[place] {
                proof {
                    if vstd::laws_cmp::obeys_cmp::<T>() {
                        lemma_new_greatest(self.heap@, place, i);
                    }
                }
                place = i;
            }
            i += 1;
        }
        place
    }

    /// Hands out an item of the heap than which none is greater, provided
    /// that the items are in a total order; `None` from an empty heap.
    pub fn pop(&mut self) -> (item: Option<T>)
        ensures
            final(self).set@ == old(self).set@,
            match item {
                None => old(self).heap@.len() == 0 && final(self).heap@.len() == 0,
                Some(found) => exists|place: usize|
                    {
                        &&& place < old(self).heap@.len()
                        &&& found == #[trigger] item_at(old(self).heap@, place)
                        &&& final(self).heap@ == without(old(self).heap@, place)
                        &&& vstd::laws_cmp::obeys_cmp::<T>() ==> greatest_at(old(self).heap@, place)
                    },
            },
    {
        if self.heap.len() == 0 {
            return None;
        }
        let place = self.place_of_greatest();
        let ghost before = self.heap@;
        let found = self.heap.swap_remove(place);
        assert(found == item_at(before, place));
        Some(found)
    }
}

/// The search: its heap holds the items found and not yet handed out.
pub struct GrowingHeap<T> where T: Ord + Hash + Clone + Growable {
    pub uh: UniqueHeap<T>,
}

impl<T> GrowingHeap<T> where T: Ord + Hash + Clone + Growable {
    /// The search that starts from one item.
    pub fn new(seed: T) -> (search: Self)
        ensures
            T::obeys_eq_spec() ==> search.uh.heap@ == seq![seed],
    {
        let mut uh = UniqueHeap::new();
        uh.push(seed);
        assert(T::obeys_eq_spec() ==> uh.heap@ =~= seq![seed]);
        Self { uh }
    }

    /// Hands out an item of the heap than which none is greater, provided
    /// that the items are in a total order, and takes in what grows from it;
    /// `None` once the heap is empty.
    pub fn next(&mut self) -> (item: Option<T>)
        ensures
            starts_with(final(self).uh.set@, old(self).uh.set@),
            match item {
                None => old(self).uh.heap@.len() == 0 && final(self).uh.heap@.len() == 0,
                Some(found) => exists|place: usize|
                    {
                        &&& place < old(self).uh.heap@.len()
                        &&& found == #[trigger] item_at(old(self).uh.heap@, place)
                        &&& starts_with(final(self).uh.heap@, without(old(self).uh.heap@, place))
                        &&& vstd::laws_cmp::obeys_cmp::<T>() ==> greatest_at(
                            old(self).uh.heap@,
                            place,
                        )
                    },
            },
    {
        let ghost set = self.uh.set@;
        proof {
            lemma_starts_with_itself(set);
        }
        match self.uh.pop() {
            None => None,
            Some(item) => {
                let ghost rest = self.uh.heap@;
                proof {
                    lemma_starts_with_itself(rest);
                }
                let mut grown = item.grow();
                // The items are taken in in the order in which they grew.
                let mut turned: Vec<T> = Vec::new();
                while grown.len() > 0
                    decreases grown@.len(),
                {
                    match grown.pop() {
                        Some(new_item) => turned.push(new_item),
                        None => {},
                    }
                }
                while turned.len() > 0
                    invariant
                        starts_with(self.uh.heap@, rest),
                        starts_with(self.uh.set@, set),
                    decreases turned@.len(),
                {
                    let ghost heap = self.uh.heap@;
                    let ghost seen = self.uh.set@;
                    match turned.pop() {
                        Some(new_item) => {
                            self.uh.push(new_item);
                        },
                        None => {},
                    }
                    proof {
                        lemma_starts_with_itself(heap);
                        lemma_starts_with_itself(seen);
                        lemma_starts_with_start(self.uh.heap@, heap, rest);
                        lemma_starts_with_start(self.uh.set@, seen, set);
                    }
                }
                Some(item)
            },
        }
    }
}

} // verus!
