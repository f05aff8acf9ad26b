//! An append-only arena that hands out typed keys and never removes a value.
use vstd::prelude::*;

use std::collections::TryReserveError;
use std::marker::PhantomData;

pub mod iterators;
mod key;

pub use self::iterators::{IntoIter, Iter, IterMut, Keys, Values, ValuesMut};
pub use self::key::{SimpleKey, SimpleKeyData};

verus! {

/// Relies on `Vec::capacity`: never less than the vector's length.
#[verifier::external_body]
pub(crate) fn vec_capacity<T>(v: &Vec<T>) -> (r: usize)
    ensures
        r >= v@.len(),
{
    v.capacity()
}

/// Relies on `Vec::reserve_exact`: the contents are kept; it panics only
/// when the new capacity overflows `usize` or exceeds `isize::MAX` bytes.
#[verifier::external_body]
pub(crate) fn vec_reserve_exact<T>(v: &mut Vec<T>, additional: usize)
    requires
        old(v)@.len() + additional <= usize::MAX,
        (old(v)@.len() + additional) * vstd::layout::size_of::<T>() <= isize::MAX,
    ensures
        final(v)@ == old(v)@,
{
    v.reserve_exact(additional)
}

/// Relies on `Vec::try_reserve_exact`: the contents are kept, whatever the outcome.
#[verifier::external_body]
pub(crate) fn vec_try_reserve_exact<T>(v: &mut Vec<T>, additional: usize) -> (r: Result<
    (),
    TryReserveError,
>)
    ensures
        final(v)@ == old(v)@,
{
    v.try_reserve_exact(additional)
}

/// Relies on `Vec::shrink_to_fit`: the contents are kept.
#[verifier::external_body]
pub(crate) fn vec_shrink_to_fit<T>(v: &mut Vec<T>)
    ensures
        final(v)@ == old(v)@,
{
    v.shrink_to_fit()
}

/// Relies on `Vec::shrink_to`: the contents are kept.
#[verifier::external_body]
pub(crate) fn vec_shrink_to<T>(v: &mut Vec<T>, min_capacity: usize)
    ensures
        final(v)@ == old(v)@,
{
    v.shrink_to(min_capacity)
}

/// Each value of `dst` is what `f` makes of the value of `src` at the same
/// index together with the key of `keys` there, which has that index.
pub open spec fn mapped_with<K: SimpleKey, V, T, F: Fn(K, V) -> T>(
    f: F,
    keys: Seq<K>,
    src: Seq<V>,
    dst: Seq<T>,
) -> bool {
    &&& keys.len() == src.len()
    &&& dst.len() == src.len()
    &&& forall|i: int|
        0 <= i < src.len() ==> (#[trigger] keys[i]).spec_idx() == i && f.ensures(
            (keys[i], src[i]),
            dst[i],
        )
}

/// An arena where values can only be inserted, each returning a typed key.
///
/// The key type must belong to this arena alone: every key of it then names
/// a value that is present, and lookups need no `Option`.
pub struct SimpleSurotto<K: SimpleKey, V> {
    inner: Vec<V>,
    phantom: PhantomData<K>,
}

impl<K: SimpleKey, V> View for SimpleSurotto<K, V> {
    type V = Seq<V>;

    /// The values, by index.
    closed spec fn view(&self) -> Seq<V> {
        self.inner@
    }
}

impl<K: SimpleKey, V> SimpleSurotto<K, V> {
    /// An empty arena that has not allocated.
    pub fn new() -> (r: Self)
        ensures
            r@ == Seq::<V>::empty(),
    {
        SimpleSurotto { inner: Vec::new(), phantom: PhantomData }
    }

    /// An empty arena with room for at least `capacity` values.
    pub fn with_capacity(capacity: usize) -> (r: Self)
        ensures
            r@ == Seq::<V>::empty(),
    {
        SimpleSurotto { inner: Vec::with_capacity(capacity), phantom: PhantomData }
    }

    /// Appends `value` and returns its key.
    pub fn insert(&mut self, value: V) -> (key: K)
        requires
            old(self)@.len() < usize::MAX,
        ensures
            final(self)@ == old(self)@.push(value),
            key.spec_idx() == old(self)@.len(),
    {
        let key = K::new(self.inner.len());
        self.inner.push(value);
        key
    }

    /// Appends the value that `f` makes from the new key, and returns the key.
    pub fn insert_with<F>(&mut self, f: F) -> (key: K) where F: FnOnce(K) -> V
        requires
            old(self)@.len() < usize::MAX,
            forall|k: K| k.spec_idx() == old(self)@.len() ==> f.requires((k,)),
        ensures
            key.spec_idx() == old(self)@.len(),
            final(self)@.len() == old(self)@.len() + 1,
            final(self)@.drop_last() == old(self)@,
            f.ensures((key,), final(self)@.last()),
    {
        let key = K::new(self.inner.len());
        let value = f(key);
        self.inner.push(value);
        proof {
            assert(self.inner@.drop_last() =~= old(self)@);
        }
        key
    }

    /// The value of `key`.
    pub fn get(&self, key: K) -> (r: &V)
        requires
            key.spec_idx() < self@.len(),
        ensures
            *r == self@[key.spec_idx() as int],
    {
        &self.inner[key.idx()]
    }

    /// A mutable reference to the value of `key`.
    pub fn get_mut(&mut self, key: K) -> (r: &mut V)
        requires
            key.spec_idx() < old(self)@.len(),
        ensures
            *r == old(self)@[key.spec_idx() as int],
            final(self)@ == old(self)@.update(key.spec_idx() as int, *final(r)),
    {
        let i = key.idx();
        &mut self.inner[i]
    }

    /// Whether the arena holds no value.
    pub fn is_empty(&self) -> (r: bool)
        ensures
            r == (self@.len() == 0),
    {
        self.inner.is_empty()
    }

    /// The number of values, also the index the next key will have.
    pub fn len(&self) -> (r: usize)
        ensures
            r == self@.len(),
    {
        self.inner.len()
    }

    /// The number of values the arena can hold without reallocating.
    pub fn capacity(&self) -> (r: usize)
        ensures
            r >= self@.len(),
    {
        vec_capacity(&self.inner)
    }

    /// Reserves room for at least `additional` more values; may reserve more.
    pub fn reserve(&mut self, additional: usize)
        requires
            old(self)@.len() + additional <= usize::MAX,
            (old(self)@.len() + additional) * vstd::layout::size_of::<V>() <= isize::MAX,
        ensures
            final(self)@ == old(self)@,
    {
        self.inner.reserve(additional)
    }

    /// Reserves room for at least `additional` more values, without
    /// deliberately over-allocating.
    pub fn reserve_exact(&mut self, additional: usize)
        requires
            old(self)@.len() + additional <= usize::MAX,
            (old(self)@.len() + additional) * vstd::layout::size_of::<V>() <= isize::MAX,
        ensures
            final(self)@ == old(self)@,
    {
        vec_reserve_exact(&mut self.inner, additional)
    }

    /// Tries to reserve room for at least `additional` more values.
    pub fn try_reserve(&mut self, additional: usize) -> (r: Result<(), TryReserveError>)
        ensures
            final(self)@ == old(self)@,
    {
        self.inner.try_reserve(additional)
    }

    /// Tries to reserve room for at least `additional` more values, without
    /// deliberately over-allocating.
    pub fn try_reserve_exact(&mut self, additional: usize) -> (r: Result<(), TryReserveError>)
        ensures
            final(self)@ == old(self)@,
    {
        vec_try_reserve_exact(&mut self.inner, additional)
    }

    /// Shrinks the capacity as close to the length as the allocator allows.
    pub fn shrink_to_fit(&mut self)
        ensures
            final(self)@ == old(self)@,
    {
        vec_shrink_to_fit(&mut self.inner)
    }

    /// Shrinks the capacity, keeping it at least `min_capacity`.
    pub fn shrink_to(&mut self, min_capacity: usize)
        ensures
            final(self)@ == old(self)@,
    {
        vec_shrink_to(&mut self.inner, min_capacity)
    }

    /// A new arena of the values `f` makes from each key and value, under
    /// the same keys.
    pub fn map<F, T>(self, f: F) -> (r: SimpleSurotto<K, T>) where F: Fn(K, V) -> T
        requires
            forall|k: K, i: int|
                0 <= i < self@.len() && k.spec_idx() == i ==> #[trigger] f.requires((k, self@[i])),
        ensures
            r@.len() == self@.len(),
            exists|keys: Seq<K>| mapped_with(f, keys, self@, r@),
    {
        let ghost values = self@;
        let n = self.len();
        let mut it = self.into_iter();
        let mut out: Vec<T> = Vec::new();
        let ghost mut keys: Seq<K> = seq![];
        while out.len() < n
            invariant
                n == values.len(),
                it.wf(),
                it.pos() == out@.len(),
                keys.len() == out@.len(),
                out@.len() + it.remaining().len() == values.len(),
                it.remaining() == values.subrange(out@.len() as int, values.len() as int),
                forall|k: K, i: int|
                    0 <= i < values.len() && k.spec_idx() == i ==> #[trigger] f.requires((k, values[i])),
                forall|i: int|
                    0 <= i < out@.len() ==> (#[trigger] keys[i]).spec_idx() == i && f.ensures(
                        (keys[i], values[i]),
                        out@[i],
                    ),
            decreases n - out@.len(),
        {
            let (key, value) = it.next().unwrap();
            proof {
                assert(value == values[out@.len() as int]);
                assert(it.remaining() =~= values.subrange(out@.len() + 1int, values.len() as int));
            }
            let mapped = f(key, value);
            out.push(mapped);
            proof {
                keys = keys.push(key);
            }
        }
        let r = SimpleSurotto { inner: out, phantom: PhantomData };
        proof {
            assert(mapped_with(f, keys, values, r@));
        }
        r
    }

    /// All values with their keys, in index order.
    pub fn iter(&self) -> (r: Iter<'_, K, V>)
        ensures
            r.wf(),
            r.pos() == 0,
            r.remaining() == self@,
    {
        Iter::over(self.inner.as_slice())
    }

    /// All values, mutably, with their keys, in index order. What is
    /// written through a reference is what its key then reaches.
    pub fn iter_mut(&mut self) -> (r: IterMut<'_, K, V>)
        ensures
            r.wf(),
            r.pos() == 0,
            r.remaining().len() == old(self)@.len(),
            final(self)@.len() == old(self)@.len(),
            forall|t: int|
                #![trigger r.remaining()[t]]
                0 <= t < old(self)@.len() ==> *r.remaining()[t] == old(self)@[t] && final(self)@[t]
                    == *final(r.remaining()[t]),
    {
        IterMut::over(self.inner.as_mut_slice())
    }

    /// All keys, in index order.
    pub fn keys(&self) -> (r: Keys<'_, K, V>)
        ensures
            r.wf(),
            r.pos() == 0,
            r.remaining_len() == self@.len(),
    {
        Keys { inner: self.iter() }
    }

    /// All values, in index order.
    pub fn values(&self) -> (r: Values<'_, K, V>)
        ensures
            r.wf(),
            r.remaining() == self@,
    {
        Values { inner: self.iter() }
    }

    /// All values, mutably, in index order. What is written through a
    /// reference is what the arena then holds there.
    pub fn values_mut(&mut self) -> (r: ValuesMut<'_, K, V>)
        ensures
            r.wf(),
            r.remaining().len() == old(self)@.len(),
            final(self)@.len() == old(self)@.len(),
            forall|t: int|
                #![trigger r.remaining()[t]]
                0 <= t < old(self)@.len() ==> *r.remaining()[t] == old(self)@[t] && final(self)@[t]
                    == *final(r.remaining()[t]),
    {
        ValuesMut { inner: self.iter_mut() }
    }

    /// Consumes the arena, handing out each value with its key, in index order.
    pub fn into_iter(self) -> (r: IntoIter<K, V>)
        ensures
            r.wf(),
            r.pos() == 0,
            r.remaining() == self@,
    {
        IntoIter::over(self.inner)
    }
}

impl<K: SimpleKey, V> Default for SimpleSurotto<K, V> {
    /// An empty map that has not allocated.
    fn default() -> (r: Self)
        ensures
            r@ == Seq::<V>::empty(),
    {
        Self::new()
    }
}

} // verus!
