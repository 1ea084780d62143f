//! The arena as a mathematical object: a sequence of slots, each with a
//! generation and perhaps a value, and the list of free slots that may be
//! used again.
//!
//! A key names a slot and a generation. It finds a value only while its slot
//! is occupied and carries the same generation. Freeing a slot and filling it
//! again both raise the generation, so a key that has lost its value never
//! finds one again.

use vstd::prelude::*;
use core::marker::PhantomData;

verus! {

/// A handle to a value of type `T` in an arena: a slot and the generation
/// that the slot had when the value was put there. Two keys are equal when
/// both agree.
#[derive(Debug)]
pub struct Key<T> {
    pub index: usize,
    pub generation: u64,
    pub marker: PhantomData<T>,
}

impl<T> Clone for Key<T> {
    fn clone(&self) -> (key: Self)
        ensures
            key == *self,
    {
        Key { index: self.index, generation: self.generation, marker: PhantomData }
    }
}

impl<T> Copy for Key<T> {

}

impl<T> PartialEq for Key<T> {
    fn eq(&self, other: &Self) -> (same: bool) {
        self.index == other.index && self.generation == other.generation
    }
}

impl<T> Eq for Key<T> {

}

impl<T> vstd::std_specs::cmp::PartialEqSpecImpl for Key<T> {
    open spec fn obeys_eq_spec() -> bool {
        true
    }

    open spec fn eq_spec(&self, other: &Self) -> bool {
        self.index == other.index && self.generation == other.generation
    }
}

/// One place of an arena: how often it has changed hands, and what it holds.
pub struct Slot<T> {
    pub generation: u64,
    pub value: Option<T>,
}

/// What an arena holds: its slots in order, and the free slots that the
/// next insertions use, last one first.
#[verifier::ext_equal]
pub struct ArenaView<T> {
    pub slots: Seq<Slot<T>>,
    pub free: Seq<usize>,
}

/// A change to an arena.
pub enum ArenaOp<T> {
    Insert(T),
    Remove(Key<T>),
}

/// The key for generation `generation` of slot `index`.
pub open spec fn key_of<T>(index: int, generation: int) -> Key<T> {
    Key { index: index as usize, generation: generation as u64, marker: PhantomData }
}

impl<T> ArenaView<T> {
    /// The arena without slots.
    pub open spec fn empty() -> ArenaView<T> {
        ArenaView { slots: Seq::empty(), free: Seq::empty() }
    }

    /// Listed free slots exist, are empty, are listed once and can still be
    /// filled and freed again; occupied slots can still be freed.
    pub open spec fn wf(self) -> bool {
        &&& self.slots.len() <= usize::MAX
        &&& self.free.no_duplicates()
        &&& forall|i: int|
            #![trigger self.free[i]]
            0 <= i < self.free.len() ==> self.free[i] < self.slots.len()
                && self.slots[self.free[i] as int].value is None
                && self.slots[self.free[i] as int].generation <= u64::MAX - 2
        &&& forall|i: int|
            #![trigger self.slots[i]]
            0 <= i < self.slots.len() && self.slots[i].value is Some ==> self.slots[i].generation
                < u64::MAX
    }

    /// `key` names an occupied slot in its present generation.
    pub open spec fn contains(self, key: Key<T>) -> bool {
        &&& key.index < self.slots.len()
        &&& self.slots[key.index as int].generation == key.generation
        &&& self.slots[key.index as int].value is Some
    }

    /// The value that `key` finds, if any.
    pub open spec fn lookup(self, key: Key<T>) -> Option<T> {
        if self.contains(key) {
            self.slots[key.index as int].value
        } else {
            None
        }
    }

    /// `key` has lost its value for good: its slot has moved on to a later
    /// generation, or was freed in the generation of the key.
    pub open spec fn spent(self, key: Key<T>) -> bool {
        &&& key.index < self.slots.len()
        &&& (self.slots[key.index as int].generation > key.generation || (
        self.slots[key.index as int].generation == key.generation
            && self.slots[key.index as int].value is None))
    }

    /// The key that an insertion hands out.
    pub open spec fn next_key(self) -> Key<T> {
        if self.free.len() > 0 {
            key_of(self.free.last() as int, self.slots[self.free.last() as int].generation + 1)
        } else {
            key_of(self.slots.len() as int, 0)
        }
    }

    /// The arena after `value` was inserted: in the free slot listed last,
    /// whose generation goes up by one, or in a new slot at the end.
    pub open spec fn insert(self, value: T) -> ArenaView<T> {
        if self.free.len() > 0 {
            let i = self.free.last() as int;
            ArenaView {
                slots: self.slots.update(
                    i,
                    Slot {
                        generation: (self.slots[i].generation + 1) as u64,
                        value: Some(value),
                    },
                ),
                free: self.free.drop_last(),
            }
        } else {
            ArenaView {
                slots: self.slots.push(Slot { generation: 0, value: Some(value) }),
                free: self.free,
            }
        }
    }

    /// The arena after the value of `key` was removed. Where `key` finds a
    /// value, its slot is emptied and its generation goes up by one; the
    /// slot is listed as free unless its generations are nearly used up.
    pub open spec fn remove(self, key: Key<T>) -> ArenaView<T> {
        if self.contains(key) {
            let i = key.index as int;
            let generation = (key.generation + 1) as u64;
            ArenaView {
                slots: self.slots.update(i, Slot { generation, value: None }),
                free: if generation <= u64::MAX - 2 {
                    self.free.push(key.index)
                } else {
                    self.free
                },
            }
        } else {
            self
        }
    }

    /// The arena with the value of `key` replaced, where `key` finds one.
    pub open spec fn replace(self, key: Key<T>, value: T) -> ArenaView<T> {
        if self.contains(key) {
            ArenaView {
                slots: self.slots.update(
                    key.index as int,
                    Slot { generation: key.generation, value: Some(value) },
                ),
                free: self.free,
            }
        } else {
            self
        }
    }

    /// The arena after one change.
    pub open spec fn apply(self, op: ArenaOp<T>) -> ArenaView<T> {
        match op {
            ArenaOp::Insert(value) => self.insert(value),
            ArenaOp::Remove(key) => self.remove(key),
        }
    }

    /// The arena after the changes `ops`, first one first.
    pub open spec fn apply_all(self, ops: Seq<ArenaOp<T>>) -> ArenaView<T>
        decreases ops.len(),
    {
        if ops.len() == 0 {
            self
        } else {
            self.apply_all(ops.drop_last()).apply(ops.last())
        }
    }

    /// The keys of the occupied slots, in the order of the slots.
    pub open spec fn keys(self) -> Seq<Key<T>>
        decreases self.slots.len(),
    {
        if self.slots.len() == 0 {
            Seq::empty()
        } else {
            let before = ArenaView { slots: self.slots.drop_last(), free: self.free }.keys();
            if self.slots.last().value is Some {
                before.push(key_of(self.slots.len() - 1, self.slots.last().generation as int))
            } else {
                before
            }
        }
    }

    /// An insertion keeps the arena in order. Its key finds the new value,
    /// was not in use before and is no key that was spent; every other key
    /// finds what it found before.
    pub proof fn lemma_insert(self, value: T)
        requires
            self.wf(),
            self.free.len() == 0 ==> self.slots.len() < usize::MAX,
        ensures
            self.insert(value).wf(),
            self.insert(value).lookup(self.next_key()) == Some(value),
            !self.contains(self.next_key()),
            !self.spent(self.next_key()),
            forall|k: Key<T>| k != self.next_key() ==> self.insert(value).lookup(k) == self.lookup(k),
            forall|k: Key<T>| self.spent(k) ==> #[trigger] self.insert(value).spent(k),
    {
        let after = self.insert(value);
        if self.free.len() > 0 {
            let last = self.free.len() - 1;
            let i = self.free[last] as int;
            assert(self.slots[i].value is None);
            assert forall|a: int| #![trigger after.free[a]] 0 <= a < after.free.len() implies after.free[a]
                < after.slots.len() && after.slots[after.free[a] as int].value is None
                && after.slots[after.free[a] as int].generation <= u64::MAX - 2 by {
                assert(after.free[a] == self.free[a]);
                assert(self.free[a] != self.free[last]);
            }
            assert forall|a: int|
                #![trigger after.slots[a]]
                0 <= a < after.slots.len() && after.slots[a].value is Some implies after.slots[a].generation
                < u64::MAX by {
                if a != i {
                    assert(after.slots[a] == self.slots[a]);
                }
            }
        } else {
            assert forall|a: int|
                #![trigger after.slots[a]]
                0 <= a < after.slots.len() && after.slots[a].value is Some implies after.slots[a].generation
                < u64::MAX by {
                if a < self.slots.len() {
                    assert(after.slots[a] == self.slots[a]);
                }
            }
        }
    }

    /// A removal keeps the arena in order. Its key finds nothing afterwards
    /// and, if it found a value, is spent; every other key finds what it
    /// found before.
    pub proof fn lemma_remove(self, key: Key<T>)
        requires
            self.wf(),
        ensures
            self.remove(key).wf(),
            self.remove(key).lookup(key) is None,
            self.contains(key) ==> self.remove(key).spent(key),
            forall|k: Key<T>| k != key ==> self.remove(key).lookup(k) == self.lookup(k),
            forall|k: Key<T>| self.spent(k) ==> #[trigger] self.remove(key).spent(k),
    {
        let after = self.remove(key);
        if self.contains(key) {
            let i = key.index as int;
            assert forall|a: int| 0 <= a < self.free.len() implies self.free[a] != key.index by {
                assert(self.slots[self.free[a] as int].value is None);
            }
            assert forall|a: int| #![trigger after.free[a]] 0 <= a < after.free.len() implies after.free[a]
                < after.slots.len() && after.slots[after.free[a] as int].value is None
                && after.slots[after.free[a] as int].generation <= u64::MAX - 2 by {
                if a < self.free.len() {
                    assert(after.free[a] == self.free[a]);
                }
            }
            assert forall|a: int|
                #![trigger after.slots[a]]
                0 <= a < after.slots.len() && after.slots[a].value is Some implies after.slots[a].generation
                < u64::MAX by {
                if a != i {
                    assert(after.slots[a] == self.slots[a]);
                }
            }
            assert(self.slots[i].generation < u64::MAX);
        }
    }

    /// Replacing a value keeps the arena in order and touches no other key.
    pub proof fn lemma_replace(self, key: Key<T>, value: T)
        requires
            self.wf(),
        ensures
            self.replace(key, value).wf(),
            self.contains(key) ==> self.replace(key, value).lookup(key) == Some(value),
            forall|k: Key<T>| k != key ==> self.replace(key, value).lookup(k) == self.lookup(k),
            forall|k: Key<T>|
                #![trigger self.replace(key, value).contains(k)]
                self.replace(key, value).contains(k) == self.contains(k),
            forall|k: Key<T>| self.spent(k) == #[trigger] self.replace(key, value).spent(k),
    {
        let after = self.replace(key, value);
        if self.contains(key) {
            let i = key.index as int;
            assert forall|a: int| #![trigger after.free[a]] 0 <= a < after.free.len() implies after.free[a]
                < after.slots.len() && after.slots[after.free[a] as int].value is None
                && after.slots[after.free[a] as int].generation <= u64::MAX - 2 by {
                assert(self.slots[self.free[a] as int].value is None);
            }
            assert forall|a: int|
                #![trigger after.slots[a]]
                0 <= a < after.slots.len() && after.slots[a].value is Some implies after.slots[a].generation
                < u64::MAX by {
                if a != i {
                    assert(after.slots[a] == self.slots[a]);
                } else {
                    assert(self.slots[i].value is Some);
                }
            }
        }
    }

    /// A key whose value was removed finds nothing once a new value has been
    /// inserted, also where the new value fills the freed slot. The key of
    /// the new value finds it and differs from the old key.
    pub proof fn lemma_removed_key_fails(self, key: Key<T>, value: T)
        requires
            self.wf(),
            self.contains(key),
            self.slots.len() < usize::MAX,
        ensures
            self.remove(key).insert(value).lookup(key) is None,
            self.remove(key).insert(value).lookup(self.remove(key).next_key()) == Some(value),
            self.remove(key).next_key() != key,
            key.generation + 1 <= u64::MAX - 2 ==> self.remove(key).next_key().index == key.index,
    {
        let freed = self.remove(key);
        self.lemma_remove(key);
        freed.lemma_insert(value);
        assert(freed.spent(key));
        assert(freed.insert(value).spent(key));
        if key.generation + 1 <= u64::MAX - 2 {
            assert(freed.free.last() == key.index);
        }
    }

    /// Changes keep the arena in order, and none adds more than one slot.
    pub proof fn lemma_apply_all(self, ops: Seq<ArenaOp<T>>)
        requires
            self.wf(),
            self.slots.len() + ops.len() <= usize::MAX,
        ensures
            self.apply_all(ops).wf(),
            self.apply_all(ops).slots.len() <= self.slots.len() + ops.len(),
        decreases ops.len(),
    {
        if ops.len() > 0 {
            self.lemma_apply_all(ops.drop_last());
            let before = self.apply_all(ops.drop_last());
            match ops.last() {
                ArenaOp::Insert(value) => {
                    before.lemma_insert(value);
                    if before.free.len() > 0 {
                        assert(before.free[before.free.len() - 1] < before.slots.len());
                    }
                },
                ArenaOp::Remove(key) => {
                    before.lemma_remove(key);
                },
            }
        }
    }

    /// Whatever is inserted and removed afterwards, in whatever order, a
    /// spent key stays spent and finds nothing.
    pub proof fn lemma_spent_forever(self, key: Key<T>, ops: Seq<ArenaOp<T>>)
        requires
            self.wf(),
            self.spent(key),
            self.slots.len() + ops.len() <= usize::MAX,
        ensures
            self.apply_all(ops).wf(),
            self.apply_all(ops).spent(key),
            self.apply_all(ops).lookup(key) is None,
        decreases ops.len(),
    {
        if ops.len() > 0 {
            let before = self.apply_all(ops.drop_last());
            self.lemma_spent_forever(key, ops.drop_last());
            self.lemma_apply_all(ops.drop_last());
            match ops.last() {
                ArenaOp::Insert(value) => {
                    before.lemma_insert(value);
                },
                ArenaOp::Remove(other) => {
                    before.lemma_remove(other);
                },
            }
        }
    }

    /// From the moment its value is removed, a key finds nothing, whatever
    /// is inserted and removed afterwards.
    pub proof fn lemma_removed_key_never_returns(self, key: Key<T>, ops: Seq<ArenaOp<T>>)
        requires
            self.wf(),
            self.contains(key),
            self.slots.len() + ops.len() <= usize::MAX,
        ensures
            self.remove(key).apply_all(ops).lookup(key) is None,
    {
        self.lemma_remove(key);
        self.remove(key).lemma_spent_forever(key, ops);
    }

    /// The listed keys are the keys that find a value, each listed once and
    /// in the order of the slots.
    pub proof fn lemma_keys(self)
        requires
            self.slots.len() <= usize::MAX,
        ensures
            forall|k: Key<T>| self.keys().contains(k) <==> self.contains(k),
            forall|a: int, b: int|
                #![trigger self.keys()[a], self.keys()[b]]
                0 <= a < b < self.keys().len() ==> self.keys()[a].index < self.keys()[b].index,
            self.keys().len() <= self.slots.len(),
        decreases self.slots.len(),
    {
        if self.slots.len() > 0 {
            let shorter = ArenaView { slots: self.slots.drop_last(), free: self.free };
            shorter.lemma_keys();
            let before = shorter.keys();
            let n = self.slots.len() - 1;
            let last = key_of::<T>(n, self.slots.last().generation as int);
            let all = self.keys();
            assert forall|k: Key<T>| all.contains(k) <==> self.contains(k) by {
                if all.contains(k) {
                    let a = choose|a: int| 0 <= a < all.len() && all[a] == k;
                    if a < before.len() {
                        assert(before[a] == k);
                        assert(before.contains(k));
                        assert(shorter.contains(k));
                    }
                }
                if self.contains(k) {
                    if k.index == n {
                        assert(k == last);
                        assert(all[all.len() - 1] == k);
                    } else {
                        assert(shorter.contains(k));
                        assert(before.contains(k));
                        let a = choose|a: int| 0 <= a < before.len() && before[a] == k;
                        assert(all[a] == k);
                    }
                }
            }
            assert forall|a: int, b: int|
                #![trigger all[a], all[b]]
                0 <= a < b < all.len() implies all[a].index < all[b].index by {
                assert(before[a] == all[a]);
                assert(before.contains(all[a]));
                assert(shorter.contains(all[a]));
                if b < before.len() {
                    assert(before[b] == all[b]);
                }
            }
        }
    }
}

} // verus!
