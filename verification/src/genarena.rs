//! A store of values behind generation-checked keys.
//!
//! Inserting a value hands out a key. The key finds the value until the
//! value is removed; after that it finds nothing, also when the slot of the
//! value is used again for another one.

use vstd::prelude::*;
use core::marker::PhantomData;
use crate::arena_model::{ArenaView, Key, Slot};

verus! {

pub struct GenArena<T> {
    slots: Vec<Slot<T>>,
    free: Vec<usize>,
}

impl<T> View for GenArena<T> {
    type V = ArenaView<T>;

    closed spec fn view(&self) -> ArenaView<T> {
        ArenaView { slots: self.slots@, free: self.free@ }
    }
}

impl<T> GenArena<T> {
    /// The arena is in order, as every arena made by `new` and changed by
    /// the methods below is.
    pub open spec fn wf(&self) -> bool {
        self@.wf()
    }

    /// An arena without slots.
    pub fn new() -> (arena: Self)
        ensures
            arena.wf(),
            arena@ == ArenaView::<T>::empty(),
    {
        GenArena { slots: Vec::new(), free: Vec::new() }
    }

    /// Put `value` into the arena and return its key. The free slot listed
    /// last is used, with its generation raised by one; where no slot is
    /// free, a new one is added at the end.
    pub fn insert(&mut self, value: T) -> (key: Key<T>)
        requires
            old(self).wf(),
        ensures
            final(self).wf(),
            final(self)@ =~= old(self)@.insert(value),
            key == old(self)@.next_key(),
            final(self)@.lookup(key) == Some(value),
    {
        let ghost before = self@;
        let key = match self.free.pop() {
            Some(index) => {
                assert(before.free[before.free.len() - 1] == index);
                let slot = &mut self.slots[index];
                let generation = slot.generation + 1;
                slot.generation = generation;
                slot.value = Some(value);
                Key { index, generation, marker: PhantomData }
            },
            None => {
                self.slots.push(Slot { generation: 0, value: Some(value) });
                Key { index: self.slots.len() - 1, generation: 0, marker: PhantomData }
            },
        };
        proof {
            before.lemma_insert(value);
            assert(self@.slots =~= before.insert(value).slots);
            assert(self@.free =~= before.insert(value).free);
        }
        key
    }

    /// The value that `key` finds, if any.
    pub fn get(&self, key: Key<T>) -> (found: Option<&T>)
        ensures
            match found {
                Some(value) => self@.lookup(key) == Some(*value),
                None => self@.lookup(key) is None,
            },
    {
        if key.index < self.slots.len() {
            let slot = &self.slots[key.index];
            if slot.generation == key.generation {
                match &slot.value {
                    Some(value) => Some(value),
                    None => None,
                }
            } else {
                None
            }
        } else {
            None
        }
    }

    /// Write access to the value that `key` finds, if any. Nothing else in
    /// the arena can change through it.
    pub fn get_mut(&mut self, key: Key<T>) -> (found: Option<&mut T>)
        ensures
            match found {
                Some(value) => old(self)@.lookup(key) == Some(*value) && final(self)@ =~= old(
                    self,
                )@.replace(key, *final(value)),
                None => old(self)@.lookup(key) is None && final(self)@ =~= old(self)@,
            },
            old(self).wf() ==> final(self).wf(),
    {
        proof {
            if self.wf() {
                assert forall|value: T| #[trigger] self@.replace(key, value).wf() by {
                    self@.lemma_replace(key, value);
                }
            }
        }
        if key.index < self.slots.len() {
            let slot = &mut self.slots[key.index];
            if slot.generation == key.generation {
                match &mut slot.value {
                    Some(value) => Some(value),
                    None => None,
                }
            } else {
                None
            }
        } else {
            None
        }
    }

    /// Take the value that `key` finds out of the arena. The slot becomes
    /// free and its generation goes up by one, so `key` finds nothing from
    /// now on.
    pub fn remove(&mut self, key: Key<T>) -> (removed: Option<T>)
        requires
            old(self).wf(),
        ensures
            final(self).wf(),
            removed == old(self)@.lookup(key),
            final(self)@ =~= old(self)@.remove(key),
    {
        let ghost before = self@;
        proof {
            before.lemma_remove(key);
        }
        if key.index < self.slots.len() {
            let slot = &mut self.slots[key.index];
            if slot.generation == key.generation && slot.value.is_some() {
                let removed = slot.value.take();
                let generation = slot.generation + 1;
                slot.generation = generation;
                if generation <= u64::MAX - 2 {
                    self.free.push(key.index);
                }
                proof {
                    assert(self@.slots =~= before.remove(key).slots);
                    assert(self@.free =~= before.remove(key).free);
                }
                return removed;
            }
        }
        None
    }

    /// The keys of the values in the arena with the values themselves, in
    /// the order of the slots.
    pub fn iter_keys(&self) -> (found: Vec<(Key<T>, &T)>)
        ensures
            found@.len() == self@.keys().len(),
            forall|i: int|
                0 <= i < found@.len() ==> (#[trigger] found@[i]).0 == self@.keys()[i]
                    && self@.lookup(self@.keys()[i]) == Some(*found@[i].1),
    {
        let mut found: Vec<(Key<T>, &T)> = Vec::new();
        let mut i: usize = 0;
        let ghost whole = self@;
        while i < self.slots.len()
            invariant
                whole == self@,
                i <= whole.slots.len(),
                found@.len() == (ArenaView { slots: whole.slots.subrange(0, i as int), free: whole.free }).keys().len(),
                forall|a: int|
                    0 <= a < found@.len() ==> (#[trigger] found@[a]).0 == (ArenaView {
                        slots: whole.slots.subrange(0, i as int),
                        free: whole.free,
                    }).keys()[a] && whole.lookup(found@[a].0) == Some(*found@[a].1),
            decreases whole.slots.len() - i,
        {
            let slot = &self.slots[i];
            proof {
                let longer = whole.slots.subrange(0, i + 1);
                assert(longer.drop_last() == whole.slots.subrange(0, i as int));
                assert(longer.last() == whole.slots[i as int]);
            }
            match &slot.value {
                Some(value) => {
                    found.push((Key { index: i, generation: slot.generation, marker: PhantomData }, value));
                },
                None => {},
            }
            i = i + 1;
        }
        assert(whole.slots.subrange(0, whole.slots.len() as int) == whole.slots);
        found
    }

    /// The values in the arena, in the order of the slots.
    pub fn iter(&self) -> (found: Vec<&T>)
        ensures
            found@.len() == self@.keys().len(),
            forall|i: int|
                0 <= i < found@.len() ==> self@.lookup(self@.keys()[i]) == Some(
                    *#[trigger] found@[i],
                ),
    {
        let pairs = self.iter_keys();
        let mut found: Vec<&T> = Vec::new();
        let mut i: usize = 0;
        while i < pairs.len()
            invariant
                i <= pairs@.len(),
                found@.len() == i,
                forall|a: int| 0 <= a < i ==> *#[trigger] found@[a] == *pairs@[a].1,
            decreases pairs@.len() - i,
        {
            found.push(pairs[i].1);
            i = i + 1;
        }
        found
    }
}

} // verus!
