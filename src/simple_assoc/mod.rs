//! A sparse map from the keys of an append-only arena to optional values.
use vstd::prelude::*;

use std::collections::TryReserveError;
use std::marker::PhantomData;

use crate::simple::{
    vec_capacity, vec_reserve_exact, vec_shrink_to, vec_shrink_to_fit, vec_try_reserve_exact,
    SimpleKey,
};

pub mod entry;
pub mod iterators;

pub use self::entry::{Entry, OccupiedEntry, VacantEntry};
pub use self::iterators::{Iter, IterMut, Keys, Values, ValuesMut};
use self::iterators::present_at;




verus! {

/// The slot at `i` of `slots`, or `None` past their end.
pub open spec fn slot_at<V>(slots: Seq<Option<V>>, i: int) -> Option<V> {
    if 0 <= i < slots.len() {
        slots[i]
    } else {
        None
    }
}

/// `slots` after `value` is put at `i`: grown with empty slots as far as
/// `i` if need be.
pub open spec fn placed<V>(slots: Seq<Option<V>>, i: int, value: V) -> Seq<Option<V>> {
    Seq::new(
        if i < slots.len() {
            slots.len()
        } else {
            (i + 1) as nat
        },
        |j: int|
            if j == i {
                Some(value)
            } else {
                slot_at(slots, j)
            },
    )
}

/// Values associated with keys of a [`SimpleSurotto`](crate::simple::SimpleSurotto),
/// in a growable array of optional slots indexed by the key.
pub struct SimpleAssocSurotto<K: SimpleKey, V> {
    pub(crate) inner: Vec<Option<V>>,
    pub(crate) phantom: PhantomData<K>,
}

impl<K: SimpleKey, V> View for SimpleAssocSurotto<K, V> {
    type V = Seq<Option<V>>;

    /// The slots, by index; a slot is `None` when its key has no value.
    open(crate) spec fn view(&self) -> Seq<Option<V>> {
        self.inner@
    }
}

impl<K: SimpleKey, V> SimpleAssocSurotto<K, V> {
    /// The value associated with index `i`, if any.
    pub open spec fn value_at(&self, i: int) -> Option<V> {
        slot_at(self@, i)
    }

    /// An empty map that has not allocated.
    pub fn new() -> (r: Self)
        ensures
            r@ == Seq::<Option<V>>::empty(),
    {
        SimpleAssocSurotto { inner: Vec::new(), phantom: PhantomData }
    }

    /// An empty map with room for at least `capacity` slots.
    pub fn with_capacity(capacity: usize) -> (r: Self)
        ensures
            r@ == Seq::<Option<V>>::empty(),
    {
        SimpleAssocSurotto { inner: Vec::with_capacity(capacity), phantom: PhantomData }
    }

    /// Associates `value` with `key`, growing the array with empty slots as
    /// far as the key if need be. Returns the value it replaces, if any.
    pub fn insert(&mut self, key: K, value: V) -> (r: Option<V>)
        requires
            key.spec_idx() < usize::MAX,
        ensures
            r == old(self).value_at(key.spec_idx() as int),
            final(self)@ == placed(old(self)@, key.spec_idx() as int, value),
    {
        let i = key.idx();
        self.fill_to(i);
        let mut slot = Some(value);
        self.inner.set_and_swap(i, &mut slot);
        proof {
            assert(self@ =~= placed(old(self)@, i as int, value));
        }
        slot
    }

    /// Grows the array with empty slots until it holds slot `i`.
    fn fill_to(&mut self, i: usize)
        requires
            i < usize::MAX,
        ensures
            final(self)@.len() == if i < old(self)@.len() {
                old(self)@.len()
            } else {
                (i + 1) as nat
            },
            forall|j: int|
                0 <= j < final(self)@.len() ==> #[trigger] final(self)@[j] == slot_at(old(self)@, j),
    {
        while self.inner.len() <= i
            invariant
                i < usize::MAX,
                self@.len() >= old(self)@.len(),
                self@.len() <= old(self)@.len() || self@.len() <= i + 1,
                forall|j: int| 0 <= j < self@.len() ==> #[trigger] self@[j] == slot_at(old(self)@, j),
            decreases i + 1 - self@.len(),
        {
            self.inner.push(None);
        }
    }

    /// Takes out the value associated with `key`, if any.
    pub fn remove(&mut self, key: K) -> (r: Option<V>)
        ensures
            r == old(self).value_at(key.spec_idx() as int),
            final(self)@ == if key.spec_idx() < old(self)@.len() {
                old(self)@.update(key.spec_idx() as int, None)
            } else {
                old(self)@
            },
    {
        let i = key.idx();
        if i < self.inner.len() {
            let mut slot = None;
            self.inner.set_and_swap(i, &mut slot);
            slot
        } else {
            None
        }
    }

    /// The value associated with `key`, if any.
    pub fn get(&self, key: K) -> (r: Option<&V>)
        ensures
            r is Some == self.value_at(key.spec_idx() as int) is Some,
            r is Some ==> *r.unwrap() == self.value_at(key.spec_idx() as int).unwrap(),
    {
        let i = key.idx();
        if i < self.inner.len() {
            self.inner[i].as_ref()
        } else {
            None
        }
    }

    /// A mutable reference to the value associated with `key`, if any.
    pub fn get_mut(&mut self, key: K) -> (r: Option<&mut V>)
        ensures
            r is Some == old(self).value_at(key.spec_idx() as int) is Some,
            r is Some ==> *r.unwrap() == old(self).value_at(key.spec_idx() as int).unwrap()
                && final(self)@ == old(self)@.update(key.spec_idx() as int, Some(*final(r.unwrap()))),
            r is None ==> final(self)@ == old(self)@,
    {
        let i = key.idx();
        if i < self.inner.len() {
            self.inner[i].as_mut()
        } else {
            None
        }
    }

    /// The value associated with `key`, which must have one.
    pub fn get_unchecked(&self, key: K) -> (r: &V)
        requires
            self.value_at(key.spec_idx() as int) is Some,
        ensures
            *r == self.value_at(key.spec_idx() as int).unwrap(),
    {
        self.inner[key.idx()].as_ref().unwrap()
    }

    /// A mutable reference to the value associated with `key`, which must have one.
    pub fn get_unchecked_mut(&mut self, key: K) -> (r: &mut V)
        requires
            old(self).value_at(key.spec_idx() as int) is Some,
        ensures
            *r == old(self).value_at(key.spec_idx() as int).unwrap(),
            final(self)@ == old(self)@.update(key.spec_idx() as int, Some(*final(r))),
    {
        let i = key.idx();
        self.inner[i].as_mut().unwrap()
    }

    /// Whether a value is associated with `key`.
    pub fn contains_key(&self, key: K) -> (r: bool)
        ensures
            r == self.value_at(key.spec_idx() as int) is Some,
    {
        let i = key.idx();
        if i < self.inner.len() {
            self.inner[i].is_some()
        } else {
            false
        }
    }

    /// Whether the array has no slot at all.
    pub fn is_empty(&self) -> (r: bool)
        ensures
            r == (self@.len() == 0),
    {
        self.inner.is_empty()
    }

    /// The number of slots, empty ones included.
    pub fn len(&self) -> (r: usize)
        ensures
            r == self@.len(),
    {
        self.inner.len()
    }

    /// The number of slots the array can hold without reallocating.
    pub fn capacity(&self) -> (r: usize)
        ensures
            r >= self@.len(),
    {
        vec_capacity(&self.inner)
    }

    /// Reserves room for at least `additional` more slots; may reserve more.
    pub fn reserve(&mut self, additional: usize)
        requires
            old(self)@.len() + additional <= usize::MAX,
            (old(self)@.len() + additional) * vstd::layout::size_of::<Option<V>>() <= isize::MAX,
        ensures
            final(self)@ == old(self)@,
    {
        self.inner.reserve(additional)
    }

    /// Reserves room for at least `additional` more slots, without
    /// deliberately over-allocating.
    pub fn reserve_exact(&mut self, additional: usize)
        requires
            old(self)@.len() + additional <= usize::MAX,
            (old(self)@.len() + additional) * vstd::layout::size_of::<Option<V>>() <= isize::MAX,
        ensures
            final(self)@ == old(self)@,
    {
        vec_reserve_exact(&mut self.inner, additional)
    }

    /// Tries to reserve room for at least `additional` more slots.
    pub fn try_reserve(&mut self, additional: usize) -> (r: Result<(), TryReserveError>)
        ensures
            final(self)@ == old(self)@,
    {
        self.inner.try_reserve(additional)
    }

    /// Tries to reserve room for at least `additional` more slots, without
    /// deliberately over-allocating.
    pub fn try_reserve_exact(&mut self, additional: usize) -> (r: Result<(), TryReserveError>)
        ensures
            final(self)@ == old(self)@,
    {
        vec_try_reserve_exact(&mut self.inner, additional)
    }

    /// Shrinks the capacity as close to the length as the allocator allows.
    pub fn shrink_to_fit(&mut self)
        ensures
            final(self)@ == old(self)@,
    {
        vec_shrink_to_fit(&mut self.inner)
    }

    /// Shrinks the capacity, keeping it at least `min_capacity`.
    pub fn shrink_to(&mut self, min_capacity: usize)
        ensures
            final(self)@ == old(self)@,
    {
        vec_shrink_to(&mut self.inner, min_capacity)
    }

    /// The values with their keys, in index order.
    pub fn iter(&self) -> (r: Iter<'_, K, V>)
        ensures
            r.wf(),
            r.remaining() == present_at(self@, 0),
    {
        Iter::over(self.inner.as_slice())
    }

    /// The values, mutably, with their keys, in index order. What is
    /// written through a reference is what its key then has.
    pub fn iter_mut(&mut self) -> (r: IterMut<'_, K, V>)
        ensures
            r.wf(),
            r.remaining().len() == present_at(old(self)@, 0).len(),
            final(self)@.len() == old(self)@.len(),
            forall|i: int|
                0 <= i < r.remaining().len() ==> {
                    let p = #[trigger] r.remaining()[i];
                    &&& p.0 == present_at(old(self)@, 0)[i].0
                    &&& *p.1 == present_at(old(self)@, 0)[i].1
                    &&& 0 <= p.0 < old(self)@.len()
                    &&& final(self)@[p.0] == Some(*final(p.1))
                },
            forall|t: int|
                0 <= t < old(self)@.len() && old(self)@[t] is None ==> #[trigger] final(self)@[t]
                    is None,
    {
        IterMut::over(self.inner.as_mut_slice())
    }

    /// The keys that have a value, in index order.
    pub fn keys(&self) -> (r: Keys<'_, K, V>)
        ensures
            r.wf(),
            r.remaining() == present_at(self@, 0).map_values(|e: (int, V)| e.0),
    {
        Keys { inner: self.iter() }
    }

    /// The values, in index order.
    pub fn values(&self) -> (r: Values<'_, K, V>)
        ensures
            r.wf(),
            r.remaining() == present_at(self@, 0).map_values(|e: (int, V)| e.1),
    {
        Values { inner: self.iter() }
    }

    /// The values, mutably, in index order. What is written through a
    /// reference is what the map then holds there.
    pub fn values_mut(&mut self) -> (r: ValuesMut<'_, K, V>)
        ensures
            r.wf(),
            r.remaining().len() == present_at(old(self)@, 0).len(),
            final(self)@.len() == old(self)@.len(),
            forall|i: int|
                0 <= i < r.remaining().len() ==> {
                    &&& *(#[trigger] r.remaining()[i]) == present_at(old(self)@, 0)[i].1
                    &&& final(self)@[present_at(old(self)@, 0)[i].0] == Some(*final(r.remaining()[i]))
                },
            forall|t: int|
                0 <= t < old(self)@.len() && old(self)@[t] is None ==> #[trigger] final(self)@[t]
                    is None,
    {
        ValuesMut { inner: self.iter_mut() }
    }

    /// The slot of `key`, for in-place access.
    pub fn entry(&mut self, key: K) -> (r: Entry<'_, K, V>)
        requires
            key.spec_idx() < usize::MAX,
        ensures
            r.wf(),
            r.spec_key() == key,
            r.slots() == old(self)@,
            *final(r.borrow()) == *final(self),
            r is Occupied == old(self).value_at(key.spec_idx() as int) is Some,
    {
        if self.contains_key(key) {
            Entry::Occupied(OccupiedEntry { surotto: self, key })
        } else {
            Entry::Vacant(VacantEntry { surotto: self, key })
        }
    }
}

impl<K: SimpleKey, V> Default for SimpleAssocSurotto<K, V> {
    /// An empty map that has not allocated.
    fn default() -> (r: Self)
        ensures
            r@ == Seq::<Option<V>>::empty(),
    {
        Self::new()
    }
}

} // verus!
