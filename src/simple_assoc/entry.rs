//! In-place access to the slot of one key of a sparse map.
use vstd::prelude::*;

use crate::simple::SimpleKey;

use super::{placed, SimpleAssocSurotto};

verus! {

/// A view into the slot of one key, which either holds a value or not.
///
/// Made by [`SimpleAssocSurotto::entry`].
pub enum Entry<'a, K: SimpleKey, V> {
    /// The key has a value.
    Occupied(OccupiedEntry<'a, K, V>),
    /// The key has no value.
    Vacant(VacantEntry<'a, K, V>),
}

/// The slot of a key that has a value.
pub struct OccupiedEntry<'a, K: SimpleKey, V> {
    pub(crate) surotto: &'a mut SimpleAssocSurotto<K, V>,
    pub(crate) key: K,
}

/// The slot of a key that has no value.
pub struct VacantEntry<'a, K: SimpleKey, V> {
    pub(crate) surotto: &'a mut SimpleAssocSurotto<K, V>,
    pub(crate) key: K,
}

/// Putting a value in a slot that exists is updating it.
proof fn lemma_placed_existing<V>(slots: Seq<Option<V>>, i: int)
    requires
        0 <= i < slots.len(),
    ensures
        forall|x: V| #[trigger] placed(slots, i, x) == slots.update(i, Some(x)),
{
    assert forall|x: V| #[trigger] placed(slots, i, x) == slots.update(i, Some(x)) by {
        assert(placed(slots, i, x) =~= slots.update(i, Some(x)));
    }
}

impl<'a, K: SimpleKey, V> Entry<'a, K, V> {
    /// The entry's key.
    pub open(crate) spec fn spec_key(&self) -> K {
        match self {
            Entry::Occupied(o) => o.key,
            Entry::Vacant(v) => v.key,
        }
    }

    /// The index of the key.
    pub open(crate) spec fn index(&self) -> int {
        self.spec_key().spec_idx() as int
    }

    /// The borrow of the map that the entry holds.
    pub open(crate) spec fn borrow(&self) -> &'a mut SimpleAssocSurotto<K, V> {
        match self {
            Entry::Occupied(o) => o.surotto,
            Entry::Vacant(v) => v.surotto,
        }
    }

    /// The map's slots now.
    pub open(crate) spec fn slots(&self) -> Seq<Option<V>> {
        (*self.borrow())@
    }

    pub open(crate) spec fn wf(&self) -> bool {
        match self {
            Entry::Occupied(o) => o.wf(),
            Entry::Vacant(v) => v.wf(),
        }
    }

    /// The value in the slot, when there is one.
    pub open(crate) spec fn value(&self) -> V {
        self.slots()[self.index()].unwrap()
    }

    /// Makes sure the slot holds a value, putting `val` there if it holds
    /// none, and returns a mutable reference to it.
    pub fn or_insert(self, val: V) -> (r: &'a mut V)
        requires
            self.wf(),
        ensures
            *r == (if self is Occupied {
                self.value()
            } else {
                val
            }),
            (*final(self.borrow()))@ == placed(self.slots(), self.index(), *final(r)),
    {
        match self {
            Entry::Occupied(o) => {
                proof {
                    lemma_placed_existing(o.slots(), o.index());
                }
                o.into_mut()
            },
            Entry::Vacant(v) => v.insert(val),
        }
    }

    /// Makes sure the slot holds a value, putting the result of `f` there if
    /// it holds none, and returns a mutable reference to it.
    pub fn or_insert_with<F>(self, f: F) -> (r: &'a mut V) where F: FnOnce() -> V
        requires
            self.wf(),
            self is Vacant ==> f.requires(()),
        ensures
            self is Occupied ==> *r == self.value(),
            self is Vacant ==> f.ensures((), *r),
            (*final(self.borrow()))@ == placed(self.slots(), self.index(), *final(r)),
    {
        match self {
            Entry::Occupied(o) => {
                proof {
                    lemma_placed_existing(o.slots(), o.index());
                }
                o.into_mut()
            },
            Entry::Vacant(v) => v.insert(f()),
        }
    }

    /// This entry's key.
    pub fn key(&self) -> (r: K)
        ensures
            r == self.spec_key(),
    {
        match self {
            Entry::Occupied(o) => o.key,
            Entry::Vacant(v) => v.key,
        }
    }

    /// Lets `f` change the value in the slot, if there is one, before anything
    /// else is done with the entry.
    pub fn and_modify<F>(self, f: F) -> (r: Self) where F: FnOnce(&mut V)
        requires
            self.wf(),
            self is Occupied ==> forall|x: &mut V| f.requires((x,)),
        ensures
            r.wf(),
            r is Occupied == self is Occupied,
            r.spec_key() == self.spec_key(),
            *final(r.borrow()) == *final(self.borrow()),
            self is Vacant ==> r.slots() == self.slots(),
            self is Occupied ==> r.slots().len() == self.slots().len(),
            self is Occupied ==> forall|j: int|
                0 <= j < self.slots().len() && j != self.index() ==> r.slots()[j] == self.slots()[j],
    {
        match self {
            Entry::Occupied(mut entry) => {
                f(entry.get_mut());
                Entry::Occupied(entry)
            },
            Entry::Vacant(entry) => Entry::Vacant(entry),
        }
    }
}

impl<'a, K: SimpleKey, V: Default> Entry<'a, K, V> {
    /// Makes sure the slot holds a value, putting `V::default()` there if it
    /// holds none, and returns a mutable reference to it.
    pub fn or_default(self) -> (r: &'a mut V)
        requires
            self.wf(),
        ensures
            self is Occupied ==> *r == self.value(),
            (*final(self.borrow()))@ == placed(self.slots(), self.index(), *final(r)),
    {
        match self {
            Entry::Occupied(o) => {
                proof {
                    lemma_placed_existing(o.slots(), o.index());
                }
                o.into_mut()
            },
            Entry::Vacant(v) => v.insert(V::default()),
        }
    }
}

impl<'a, K: SimpleKey, V> OccupiedEntry<'a, K, V> {
    /// The map's slots now.
    pub open(crate) spec fn slots(&self) -> Seq<Option<V>> {
        (*self.surotto)@
    }

    /// The borrow of the map that the entry holds.
    pub open(crate) spec fn borrow(&self) -> &'a mut SimpleAssocSurotto<K, V> {
        self.surotto
    }

    /// The entry's key.
    pub open(crate) spec fn spec_key(&self) -> K {
        self.key
    }

    /// The index of the key.
    pub open(crate) spec fn index(&self) -> int {
        self.key.spec_idx() as int
    }

    pub open(crate) spec fn wf(&self) -> bool {
        &&& self.index() < self.slots().len()
        &&& self.slots()[self.index()] is Some
    }

    /// The value in the slot.
    pub open(crate) spec fn value(&self) -> V {
        self.slots()[self.index()].unwrap()
    }

    /// This entry's key.
    pub fn key(&self) -> (r: K)
        ensures
            r == self.spec_key(),
    {
        self.key
    }

    /// Takes the key and the value out of the map.
    pub fn remove_entry(self) -> (r: (K, V))
        requires
            self.wf(),
        ensures
            r == (self.spec_key(), self.value()),
            (*final(self.borrow()))@ == self.slots().update(self.index(), None),
    {
        let key = self.key;
        (key, self.remove())
    }

    /// The value in the slot.
    pub fn get(&self) -> (r: &V)
        requires
            self.wf(),
        ensures
            *r == self.value(),
    {
        self.surotto.get_unchecked(self.key)
    }

    /// A mutable reference to the value in the slot, for as long as the entry is borrowed.
    pub fn get_mut(&mut self) -> (r: &mut V)
        requires
            old(self).wf(),
        ensures
            *r == old(self).value(),
            final(self).spec_key() == old(self).spec_key(),
            final(self).slots() == old(self).slots().update(old(self).index(), Some(*final(r))),
            *final(final(self).borrow()) == *final(old(self).borrow()),
    {
        self.surotto.get_unchecked_mut(self.key)
    }

    /// A mutable reference to the value in the slot, for as long as the map is borrowed.
    pub fn into_mut(self) -> (r: &'a mut V)
        requires
            self.wf(),
        ensures
            *r == self.value(),
            (*final(self.borrow()))@ == self.slots().update(self.index(), Some(*final(r))),
    {
        self.surotto.get_unchecked_mut(self.key)
    }

    /// Puts `value` in the slot and returns the value it replaces.
    pub fn insert(&mut self, value: V) -> (r: V)
        requires
            old(self).wf(),
        ensures
            r == old(self).value(),
            final(self).spec_key() == old(self).spec_key(),
            final(self).slots() == old(self).slots().update(old(self).index(), Some(value)),
            *final(final(self).borrow()) == *final(old(self).borrow()),
    {
        let i = self.key.idx();
        let mut slot = Some(value);
        self.surotto.inner.set_and_swap(i, &mut slot);
        slot.unwrap()
    }

    /// Takes the value out of the slot.
    pub fn remove(self) -> (r: V)
        requires
            self.wf(),
        ensures
            r == self.value(),
            (*final(self.borrow()))@ == self.slots().update(self.index(), None),
    {
        let i = self.key.idx();
        let mut slot = None;
        self.surotto.inner.set_and_swap(i, &mut slot);
        slot.unwrap()
    }
}

impl<'a, K: SimpleKey, V> VacantEntry<'a, K, V> {
    /// The map's slots now.
    pub open(crate) spec fn slots(&self) -> Seq<Option<V>> {
        (*self.surotto)@
    }

    /// The borrow of the map that the entry holds.
    pub open(crate) spec fn borrow(&self) -> &'a mut SimpleAssocSurotto<K, V> {
        self.surotto
    }

    /// The entry's key.
    pub open(crate) spec fn spec_key(&self) -> K {
        self.key
    }

    /// The index of the key.
    pub open(crate) spec fn index(&self) -> int {
        self.key.spec_idx() as int
    }

    pub open(crate) spec fn wf(&self) -> bool {
        self.index() < usize::MAX
    }

    /// This entry's key.
    pub fn key(&self) -> (r: K)
        ensures
            r == self.spec_key(),
    {
        self.key
    }

    /// Puts `value` in the slot, growing the map with empty slots as far as
    /// the key if need be, and returns a mutable reference to it.
    pub fn insert(self, value: V) -> (r: &'a mut V)
        requires
            self.wf(),
        ensures
            *r == value,
            (*final(self.borrow()))@ == placed(self.slots(), self.index(), *final(r)),
    {
        let i = self.key.idx();
        self.surotto.fill_to(i);
        let r = self.surotto.inner[i].insert(value);
        r
    }
}

} // verus!
