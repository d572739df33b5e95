//! A fixed-capacity ring buffer that keeps the most recent items in the
//! order in which they were pushed.

use vstd::arithmetic::div_mod::{lemma_fundamental_div_mod_converse, lemma_small_mod};
use vstd::prelude::*;

verus! {

/// Why a window could not be built.
#[derive(Debug, Clone, Copy, PartialEq, Eq, Structural)]
pub enum WindowError {
    /// A window must be able to hold at least one item.
    ZeroCapacity,
}

/// Holds up to `capacity` items in a fixed backing store. Once it is full,
/// each push replaces the oldest item.
pub struct SlidingWindow<Item> {
    vec: Vec<Item>,
    capacity: usize,
    insert_index: usize,
}

impl<Item> View for SlidingWindow<Item> {
    type V = Seq<Item>;

    /// The items held, oldest first.
    open spec fn view(&self) -> Seq<Item> {
        Seq::new(self.slots().len(), |i: int| self.slots()[self.slot_of(i)])
    }
}

impl<Item> SlidingWindow<Item> {
    /// The backing store, in storage order.
    pub closed spec fn slots(&self) -> Seq<Item> {
        self.vec@
    }

    /// The slot of the backing store that the next push overwrites once the
    /// window is full. It is the slot of the oldest item.
    pub closed spec fn insert_slot(&self) -> int {
        self.insert_index as int
    }

    /// The number of slots, as `capacity` returns it.
    pub closed spec fn spec_capacity(&self) -> usize {
        self.capacity
    }

    /// The number of items held, as `len` returns it.
    pub open spec fn spec_len(&self) -> usize {
        self.slots().len() as usize
    }

    /// Whether every slot is taken, as `is_full` returns it.
    pub open spec fn spec_is_full(&self) -> bool {
        self.slots().len() == self.spec_capacity()
    }

    /// The item at logical `index`, oldest first, if the window holds that
    /// many.
    pub open spec fn spec_get(&self, index: usize) -> Option<&Item> {
        if index < self@.len() {
            Some(&self@[index as int])
        } else {
            None
        }
    }

    /// The slot of the backing store that holds the item at logical `index`.
    pub open spec fn slot_of(&self, index: int) -> int {
        (self.insert_slot() + index) % (self.spec_capacity() as int)
    }

    /// The logical index of the item that lies in `slot` of the backing
    /// store.
    pub open spec fn index_of(&self, slot: int) -> int {
        if slot >= self.insert_slot() {
            slot - self.insert_slot()
        } else {
            slot - self.insert_slot() + self.spec_capacity()
        }
    }

    /// The invariant of the window: the capacity is positive, the backing
    /// store never outgrows it, and the insert slot stays at the start of the
    /// store until the store is full.
    pub open spec fn wf(&self) -> bool {
        &&& 1 <= self.spec_capacity()
        &&& self.slots().len() <= self.spec_capacity()
        &&& 0 <= self.insert_slot() < self.spec_capacity()
        &&& self.slots().len() < self.spec_capacity() ==> self.insert_slot() == 0
    }

    /// A valid window holds at most as many items as its capacity, which is
    /// at least one, and is full exactly when it holds that many.
    pub proof fn lemma_len_within_capacity(&self)
        requires
            self.wf(),
        ensures
            self.spec_capacity() >= 1,
            self@.len() <= self.spec_capacity(),
            self.spec_len() == self@.len(),
            self.spec_is_full() <==> self.spec_len() == self.spec_capacity(),
    {
    }

    /// In a valid window each logical index below the length has a slot of
    /// its own in the backing store, and each slot of the store holds the
    /// item of one logical index.
    pub proof fn lemma_slots_and_indices(&self)
        requires
            self.wf(),
        ensures
            forall|i: int| 0 <= i < self@.len() ==> 0 <= #[trigger] self.slot_of(i) < self@.len(),
            forall|i: int, j: int|
                0 <= i < j < self@.len() ==> #[trigger] self.slot_of(i) != #[trigger] self.slot_of(
                    j,
                ),
            forall|slot: int|
                0 <= slot < self@.len() ==> 0 <= #[trigger] self.index_of(slot) < self@.len()
                    && self.slot_of(self.index_of(slot)) == slot,
    {
        let capacity = self.spec_capacity() as int;
        let start = self.insert_slot();
        assert forall|i: int| 0 <= i < self@.len() implies 0 <= #[trigger] self.slot_of(i)
            < self@.len() && self.slot_of(i) == (if start + i < capacity {
            start + i
        } else {
            start + i - capacity
        }) by {
            lemma_wrapped_sum(start + i, capacity);
        }
        assert forall|slot: int| 0 <= slot < self@.len() implies 0 <= #[trigger] self.index_of(slot)
            < self@.len() && self.slot_of(self.index_of(slot)) == slot by {
            lemma_wrapped_sum(start + self.index_of(slot), capacity);
        }
    }

    /// The window holds an item twice exactly when its backing store does.
    pub proof fn lemma_distinct_as_stored(&self)
        requires
            self.wf(),
        ensures
            self@.no_duplicates() <==> self.slots().no_duplicates(),
    {
        self.lemma_slots_and_indices();
        let view = self@;
        let slots = self.slots();
        if view.no_duplicates() {
            assert forall|i: int, j: int|
                0 <= i < slots.len() && 0 <= j < slots.len() && i != j implies slots[i]
                != slots[j] by {
                let a = self.index_of(i);
                let b = self.index_of(j);
                assert(self.slot_of(a) == i && self.slot_of(b) == j);
                assert(view[a] == slots[i] && view[b] == slots[j]);
            }
        }
        if slots.no_duplicates() {
            assert forall|i: int, j: int|
                0 <= i < view.len() && 0 <= j < view.len() && i != j implies view[i]
                != view[j] by {
                assert(self.slot_of(i) != self.slot_of(j));
            }
        }
    }

    /// An empty window that will hold up to `capacity` items. Its backing
    /// store grows as items arrive, up to `capacity` slots and no further.
    pub fn with_capacity(capacity: usize) -> (window: SlidingWindow<Item>)
        requires
            capacity >= 1,
        ensures
            window.wf(),
            window.spec_capacity() == capacity,
            window.slots() == Seq::<Item>::empty(),
            window.insert_slot() == 0,
            window@ == Seq::<Item>::empty(),
    {
        SlidingWindow { vec: Vec::new(), capacity, insert_index: 0 }
    }

    /// An empty window of `capacity` slots, or the reason why there is none:
    /// a window without a slot is refused.
    pub fn try_with_capacity(capacity: usize) -> (built: Result<SlidingWindow<Item>, WindowError>)
        ensures
            capacity == 0 <==> built is Err,
            built matches Err(error) ==> error == WindowError::ZeroCapacity,
            built matches Ok(window) ==> {
                &&& window.wf()
                &&& window.spec_capacity() == capacity
                &&& window.slots() == Seq::<Item>::empty()
                &&& window.insert_slot() == 0
                &&& window@ == Seq::<Item>::empty()
            },
    {
        if capacity == 0 {
            Err(WindowError::ZeroCapacity)
        } else {
            Ok(SlidingWindow::with_capacity(capacity))
        }
    }

    /// The number of items the window can hold, fixed when it was built.
    #[verifier::when_used_as_spec(spec_capacity)]
    pub fn capacity(&self) -> (capacity: usize)
        ensures
            capacity == self.spec_capacity(),
    {
        self.capacity
    }

    /// The number of items held.
    #[verifier::when_used_as_spec(spec_len)]
    pub fn len(&self) -> (len: usize)
        ensures
            len == self.spec_len(),
            len == self@.len(),
    {
        self.vec.len()
    }

    /// The item at `index` in the order of insertion, the oldest at 0. There
    /// is none at an index that is not below the number of items held, so
    /// none at or beyond the capacity.
    #[verifier::when_used_as_spec(spec_get)]
    pub fn get(&self, index: usize) -> (item: Option<&Item>)
        requires
            self.wf(),
        ensures
            item == self.spec_get(index),
            index < self@.len() ==> item == Some(&self.slots()[self.slot_of(index as int)]),
            index >= self.spec_capacity() ==> item is None,
    {
        if index >= self.capacity {
            return None;
        }
        let room = self.capacity - self.insert_index;
        let slot = if index < room {
            self.insert_index + index
        } else {
            index - room
        };
        proof {
            lemma_wrapped_sum(self.insert_index + index, self.capacity as int);
        }
        if slot < self.vec.len() {
            Some(&self.vec[slot])
        } else {
            None
        }
    }

    /// Makes `value` the newest item. A full window gives up its oldest item
    /// for it: the slot of that item takes `value`, and the insert slot moves
    /// on by one, back to the start after the last slot.
    pub fn push(&mut self, value: Item)
        requires
            old(self).wf(),
        ensures
            final(self).wf(),
            final(self).spec_capacity() == old(self).spec_capacity(),
            !old(self).spec_is_full() ==> {
                &&& final(self).slots() == old(self).slots().push(value)
                &&& final(self).insert_slot() == 0
            },
            old(self).spec_is_full() ==> {
                &&& final(self).slots() == old(self).slots().update(old(self).insert_slot(), value)
                &&& final(self).insert_slot() == old(self).slot_of(1)
            },
            final(self)@ == pushed(old(self)@, old(self).spec_capacity() as nat, value),
            final(self)@.len() <= final(self).spec_capacity(),
            old(self).spec_is_full() ==> {
                &&& final(self).spec_is_full()
                &&& final(self)@[final(self).spec_capacity() - 1] == value
                &&& forall|i: int|
                    1 <= i < old(self)@.len() ==> final(self)@[i - 1] == #[trigger] old(self)@[i]
            },
            !old(self).spec_is_full() ==> {
                &&& final(self)@.len() == old(self)@.len() + 1
                &&& final(self)@[old(self)@.len() as int] == value
                &&& forall|i: int|
                    0 <= i < old(self)@.len() ==> final(self)@[i] == #[trigger] old(self)@[i]
            },
    {
        let ghost capacity = self.capacity as int;
        let ghost start = self.insert_index as int;
        if self.vec.len() < self.capacity {
            self.vec.push(value);
            proof {
                assert forall|i: int| 0 <= i < self.slots().len() implies self.slot_of(i) == i by {
                    lemma_wrapped_sum(i, capacity);
                }
                assert forall|i: int| 0 <= i < old(self).slots().len() implies old(self).slot_of(i)
                    == i by {
                    lemma_wrapped_sum(i, capacity);
                }
                assert(self@ =~= old(self)@.push(value));
            }
        } else {
            self.vec[self.insert_index] = value;
            self.insert_index = (self.insert_index + 1) % self.capacity;
            proof {
                lemma_wrapped_sum(start + 1, capacity);
                assert forall|i: int| 0 <= i < capacity - 1 implies self.slot_of(i) == old(
                    self,
                ).slot_of(i + 1) && self.slot_of(i) != start by {
                    lemma_wrapped_sum(self.insert_slot() + i, capacity);
                    lemma_wrapped_sum(start + i + 1, capacity);
                }
                assert(self.slot_of(capacity - 1) == start) by {
                    lemma_wrapped_sum(self.insert_slot() + capacity - 1, capacity);
                }
                assert(self@ =~= old(self)@.drop_first().push(value));
            }
        }
    }

    /// Whether the window holds as many items as it can.
    #[verifier::when_used_as_spec(spec_is_full)]
    pub fn is_full(&self) -> (full: bool)
        ensures
            full == self.spec_is_full(),
            full <==> self@.len() == self.spec_capacity(),
    {
        self.vec.len() == self.capacity
    }

    /// An iterator that stands before the oldest item.
    pub closed spec fn spec_iter<'a>(&'a self) -> Iter<'a, Item> {
        Iter { sw: self, index: 0 }
    }

    /// A fresh iterator over a valid window has every item of the window
    /// before it, in the order in which `get` numbers them.
    pub proof fn lemma_iter_follows_get(&self)
        requires
            self.wf(),
        ensures
            self.spec_iter().wf(),
            self.spec_iter().remaining().len() == self.spec_len(),
            forall|k: int|
                0 <= k < self.spec_len() ==> Some(&#[trigger] self.spec_iter().remaining()[k])
                    == self.spec_get(k as usize),
    {
    }

    /// A fresh iterator over the items, oldest first.
    #[verifier::when_used_as_spec(spec_iter)]
    pub fn iter<'a>(&'a self) -> (iter: Iter<'a, Item>)
        requires
            self.wf(),
        ensures
            iter == self.spec_iter(),
            iter.wf(),
            iter.window() == *self,
            iter.position() == 0,
            iter.remaining() == self@,
    {
        Iter { sw: self, index: 0 }
    }

    /// The backing store as it lies in memory: in storage order, which is
    /// the order of insertion only until the first item is overwritten.
    pub fn items(&self) -> (items: &Vec<Item>)
        ensures
            items@ == self.slots(),
    {
        &self.vec
    }
}

/// Walks a window from its oldest item to its newest.
pub struct Iter<'a, Item> {
    sw: &'a SlidingWindow<Item>,
    index: usize,
}

impl<'a, Item> Iter<'a, Item> {
    /// The window that is walked.
    pub closed spec fn window(&self) -> SlidingWindow<Item> {
        *self.sw
    }

    /// How many items were handed out.
    pub closed spec fn position(&self) -> nat {
        self.index as nat
    }

    /// The items still to come, in the order in which they will come.
    pub open spec fn remaining(&self) -> Seq<Item> {
        self.window()@.skip(self.position() as int)
    }

    /// The iterator stands at or before the end of a valid window.
    pub open spec fn wf(&self) -> bool {
        &&& self.window().wf()
        &&& self.position() <= self.window()@.len()
    }

    /// Hands out the next item, the one that `get` finds at the iterator's
    /// position, and steps past it. After the newest item there is nothing,
    /// however often it is asked.
    pub fn next(&mut self) -> (item: Option<&'a Item>)
        requires
            old(self).wf(),
        ensures
            final(self).wf(),
            final(self).window() == old(self).window(),
            item == old(self).window().spec_get(old(self).position() as usize),
            item is Some ==> {
                &&& old(self).remaining().len() > 0
                &&& item == Some(&old(self).remaining()[0])
                &&& final(self).position() == old(self).position() + 1
                &&& final(self).remaining() == old(self).remaining().drop_first()
            },
            item is None ==> {
                &&& old(self).remaining().len() == 0
                &&& final(self).position() == old(self).position()
            },
    {
        let option = self.sw.get(self.index);
        if option.is_some() {
            self.index = self.index + 1;
        }
        option
    }
}

/// A sum of two positions of a ring of `capacity` slots wraps round at most
/// once.
pub proof fn lemma_wrapped_sum(sum: int, capacity: int)
    requires
        0 < capacity,
        0 <= sum < 2 * capacity,
    ensures
        sum % capacity == if sum < capacity {
            sum
        } else {
            sum - capacity
        },
{
    if sum < capacity {
        lemma_small_mod(sum as nat, capacity as nat);
    } else {
        lemma_fundamental_div_mod_converse(sum, capacity, 1, sum - capacity);
    }
}

/// What a window of `capacity` slots that holds `items`, oldest first, holds
/// after `value` is pushed: `value` comes last, and the oldest item leaves if
/// there was no room.
pub open spec fn pushed<Item>(items: Seq<Item>, capacity: nat, value: Item) -> Seq<Item> {
    if items.len() < capacity {
        items.push(value)
    } else {
        items.drop_first().push(value)
    }
}

/// The last `capacity` items of `values`, or all of them where there are
/// fewer.
pub open spec fn trailing<Item>(values: Seq<Item>, capacity: nat) -> Seq<Item> {
    if values.len() <= capacity {
        values
    } else {
        values.subrange(values.len() - capacity, values.len() as int)
    }
}

/// What a window of `capacity` slots that holds `items` holds after each of
/// `values` is pushed in turn.
pub open spec fn pushed_all<Item>(items: Seq<Item>, capacity: nat, values: Seq<Item>) -> Seq<Item>
    decreases values.len(),
{
    if values.len() == 0 {
        items
    } else {
        pushed(pushed_all(items, capacity, values.drop_last()), capacity, values.last())
    }
}

/// Pushing onto the trailing part of a stream gives the trailing part of the
/// stream with the pushed item at its end.
pub proof fn lemma_pushed_trailing<Item>(values: Seq<Item>, capacity: nat, value: Item)
    requires
        capacity >= 1,
    ensures
        pushed(trailing(values, capacity), capacity, value) == trailing(
            values.push(value),
            capacity,
        ),
{
    assert(pushed(trailing(values, capacity), capacity, value) =~= trailing(
        values.push(value),
        capacity,
    ));
}

/// A window that was empty holds, after any number of pushes, the last
/// `capacity` of the items pushed, in the order in which they were pushed.
pub proof fn lemma_window_holds_trailing<Item>(capacity: nat, values: Seq<Item>)
    requires
        capacity >= 1,
    ensures
        pushed_all(Seq::<Item>::empty(), capacity, values) == trailing(values, capacity),
    decreases values.len(),
{
    if values.len() == 0 {
        assert(trailing(values, capacity) =~= Seq::<Item>::empty());
    } else {
        lemma_window_holds_trailing(capacity, values.drop_last());
        lemma_pushed_trailing(values.drop_last(), capacity, values.last());
        assert(values.drop_last().push(values.last()) =~= values);
    }
}

/// A window that was empty never holds more than its capacity. It is full
/// from the push that brings the number of pushes to its capacity, not
/// before, and from every later push.
pub proof fn lemma_full_from_capacity_pushes_on<Item>(capacity: nat, values: Seq<Item>)
    requires
        capacity >= 1,
    ensures
        pushed_all(Seq::<Item>::empty(), capacity, values).len() <= capacity,
        pushed_all(Seq::<Item>::empty(), capacity, values).len() == capacity <==> values.len()
            >= capacity,
        values.len() < capacity ==> pushed_all(Seq::<Item>::empty(), capacity, values) == values,
{
    lemma_window_holds_trailing(capacity, values);
}

} // verus!
