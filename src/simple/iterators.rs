//! Traversals of an append-only arena, each value with its key.
use vstd::prelude::*;

use std::marker::PhantomData;

use super::SimpleKey;

verus! {

/// Yields `(key, &value)` for every value, in index order.
pub struct Iter<'a, K: SimpleKey, V> {
    pub(crate) inner: &'a [V],
    pub(crate) pos: usize,
    pub(crate) phantom: PhantomData<K>,
}

impl<'a, K: SimpleKey, V> Iter<'a, K, V> {
    /// The values still to come.
    pub open(crate) spec fn remaining(&self) -> Seq<V> {
        self.inner@.subrange(self.pos as int, self.inner@.len() as int)
    }

    /// The index of the next value.
    pub open(crate) spec fn pos(&self) -> nat {
        self.pos as nat
    }

    pub open(crate) spec fn wf(&self) -> bool {
        self.pos <= self.inner@.len()
    }

    pub(crate) fn over(inner: &'a [V]) -> (r: Self)
        ensures
            r.wf(),
            r.pos() == 0,
            r.remaining() == inner@,
    {
        let r = Iter { inner, pos: 0, phantom: PhantomData };
        assert(r.remaining() =~= inner@);
        r
    }

    /// The next value with its key, or `None` once all have been yielded.
    pub fn next(&mut self) -> (r: Option<(K, &'a V)>)
        requires
            old(self).wf(),
        ensures
            final(self).wf(),
            old(self).remaining().len() == 0 ==> r is None && final(self).remaining().len() == 0,
            old(self).remaining().len() > 0 ==> {
                &&& r is Some
                &&& r.unwrap().0.spec_idx() == old(self).pos()
                &&& *r.unwrap().1 == old(self).remaining()[0]
                &&& final(self).remaining() == old(self).remaining().drop_first()
                &&& final(self).pos() == old(self).pos() + 1
            },
    {
        let inner: &'a [V] = self.inner;
        if self.pos < inner.len() {
            let i = self.pos;
            let key = K::new(i);
            self.pos = i + 1;
            proof {
                assert(self.remaining() =~= old(self).remaining().drop_first());
            }
            Some((key, &inner[i]))
        } else {
            None
        }
    }
}

/// Splits the first element off `slots`, as a mutable reference.
fn split_first<'a, V>(slots: &'a mut [V]) -> (r: (&'a mut V, &'a mut [V]))
    requires
        old(slots)@.len() > 0,
    ensures
        *r.0 == old(slots)@[0],
        r.1@ == old(slots)@.drop_first(),
        final(slots)@.len() == final(r.1)@.len() + 1,
        final(slots)@[0] == *final(r.0),
        final(slots)@.drop_first() == final(r.1)@,
{
    let (head, tail) = slots.split_at_mut(1);
    (head.first_mut().unwrap(), tail)
}

/// Splits `slots` into one mutable reference per element. What is written
/// through them is what `slots` then holds.
pub(crate) fn split_refs<'a, V>(slots: &'a mut [V]) -> (cells: Vec<&'a mut V>)
    ensures
        cells@.len() == old(slots)@.len(),
        final(slots)@.len() == old(slots)@.len(),
        forall|t: int|
            #![trigger cells@[t]]
            #![trigger final(slots)@[t]]
            0 <= t < cells@.len() ==> *cells@[t] == old(slots)@[t] && final(slots)@[t]
                == *final(cells@[t]),
{
    let ghost n = slots@.len();
    let ghost orig = slots@;
    let mut cells: Vec<&'a mut V> = Vec::new();
    let mut rest = slots;
    while rest.len() > 0
        invariant
            cells@.len() + rest@.len() == n,
            orig == old(slots)@,
            n == orig.len(),
            rest@ == orig.subrange(cells@.len() as int, n as int),
            final(slots)@.len() == cells@.len() + final(rest)@.len(),
            forall|t: int|
                0 <= t < cells@.len() ==> *(#[trigger] cells@[t]) == orig[t] && final(slots)@[t]
                    == *final(cells@[t]),
            forall|t: int|
                0 <= t < final(rest)@.len() ==> final(slots)@[cells@.len() + t]
                    == #[trigger] final(rest)@[t],
        decreases rest@.len(),
    {
        let (cell, tail) = split_first(rest);
        rest = tail;
        cells.push(cell);
    }
    proof {
        assert(final(rest)@ == rest@);
    }
    cells
}

/// Yields `(key, &mut value)` for every value, in index order.
pub struct IterMut<'a, K: SimpleKey, V> {
    /// The references still to come, last first.
    pub(crate) reversed: Vec<&'a mut V>,
    pub(crate) pos: usize,
    pub(crate) phantom: PhantomData<K>,
}

impl<'a, K: SimpleKey, V> IterMut<'a, K, V> {
    /// The references still to come.
    pub open(crate) spec fn remaining(&self) -> Seq<&'a mut V> {
        self.reversed@.reverse()
    }

    /// The index of the next value.
    pub open(crate) spec fn pos(&self) -> nat {
        self.pos as nat
    }

    pub open(crate) spec fn wf(&self) -> bool {
        self.pos + self.reversed@.len() <= usize::MAX
    }

    pub(crate) fn over(inner: &'a mut [V]) -> (r: Self)
        ensures
            r.wf(),
            r.pos() == 0,
            r.remaining().len() == old(inner)@.len(),
            final(inner)@.len() == old(inner)@.len(),
            forall|t: int|
                #![trigger r.remaining()[t]]
                0 <= t < old(inner)@.len() ==> *r.remaining()[t] == old(inner)@[t]
                    && final(inner)@[t] == *final(r.remaining()[t]),
    {
        let n = inner.len();
        let mut cells = split_refs(inner);
        let ghost all = cells@;
        let mut reversed: Vec<&'a mut V> = Vec::new();
        while cells.len() > 0
            invariant
                cells@.len() + reversed@.len() == n,
                n == all.len(),
                cells@ == all.subrange(0, cells@.len() as int),
                reversed@.reverse() == all.subrange(cells@.len() as int, n as int),
            decreases cells@.len(),
        {
            let ghost before = reversed@;
            reversed.push(cells.pop().unwrap());
            proof {
                assert(reversed@.reverse() =~= seq![all[cells@.len() as int]] + before.reverse());
                assert(all.subrange(cells@.len() as int, n as int) =~= seq![all[cells@.len() as int]] + all.subrange(
                    cells@.len() + 1int,
                    n as int,
                ));
            }
        }
        proof {
            assert(all.subrange(0, n as int) =~= all);
        }
        IterMut { reversed, pos: 0, phantom: PhantomData }
    }

    /// The next value, mutably, with its key, or `None` once all have been yielded.
    pub fn next(&mut self) -> (r: Option<(K, &'a mut V)>)
        requires
            old(self).wf(),
        ensures
            final(self).wf(),
            old(self).remaining().len() == 0 ==> r is None && final(self).remaining().len() == 0,
            old(self).remaining().len() > 0 ==> {
                &&& r is Some
                &&& r.unwrap().0.spec_idx() == old(self).pos()
                &&& r.unwrap().1 == old(self).remaining()[0]
                &&& final(self).remaining() == old(self).remaining().drop_first()
                &&& final(self).pos() == old(self).pos() + 1
            },
    {
        let r = self.reversed.pop();
        if r.is_some() {
            let i = self.pos;
            let key = K::new(i);
            self.pos = i + 1;
            proof {
                assert(self.reversed@.reverse() =~= old(self).remaining().drop_first());
            }
            Some((key, r.unwrap()))
        } else {
            None
        }
    }
}

/// Yields the key of every value, in index order.
pub struct Keys<'a, K: SimpleKey, V> {
    pub(crate) inner: Iter<'a, K, V>,
}

impl<'a, K: SimpleKey, V> Keys<'a, K, V> {
    /// How many keys are still to come.
    pub open(crate) spec fn remaining_len(&self) -> nat {
        self.inner.remaining().len()
    }

    /// The index of the next key.
    pub open(crate) spec fn pos(&self) -> nat {
        self.inner.pos()
    }

    pub open(crate) spec fn wf(&self) -> bool {
        self.inner.wf()
    }

    /// The next key, or `None` once all have been yielded.
    pub fn next(&mut self) -> (r: Option<K>)
        requires
            old(self).wf(),
        ensures
            final(self).wf(),
            old(self).remaining_len() == 0 ==> r is None && final(self).remaining_len() == 0,
            old(self).remaining_len() > 0 ==> {
                &&& r is Some
                &&& r.unwrap().spec_idx() == old(self).pos()
                &&& final(self).remaining_len() == old(self).remaining_len() - 1
                &&& final(self).pos() == old(self).pos() + 1
            },
    {
        match self.inner.next() {
            Some(p) => Some(p.0),
            None => None,
        }
    }
}

/// Yields a reference to every value, in index order.
pub struct Values<'a, K: SimpleKey, V> {
    pub(crate) inner: Iter<'a, K, V>,
}

impl<'a, K: SimpleKey, V> Values<'a, K, V> {
    /// The values still to come.
    pub open(crate) spec fn remaining(&self) -> Seq<V> {
        self.inner.remaining()
    }

    pub open(crate) spec fn wf(&self) -> bool {
        self.inner.wf()
    }

    /// The next value, or `None` once all have been yielded.
    pub fn next(&mut self) -> (r: Option<&'a V>)
        requires
            old(self).wf(),
        ensures
            final(self).wf(),
            old(self).remaining().len() == 0 ==> r is None && final(self).remaining().len() == 0,
            old(self).remaining().len() > 0 ==> {
                &&& r is Some
                &&& *r.unwrap() == old(self).remaining()[0]
                &&& final(self).remaining() == old(self).remaining().drop_first()
            },
    {
        match self.inner.next() {
            Some(p) => Some(p.1),
            None => None,
        }
    }
}

/// Yields a mutable reference to every value, in index order.
pub struct ValuesMut<'a, K: SimpleKey, V> {
    pub(crate) inner: IterMut<'a, K, V>,
}

impl<'a, K: SimpleKey, V> ValuesMut<'a, K, V> {
    /// The references still to come.
    pub open(crate) spec fn remaining(&self) -> Seq<&'a mut V> {
        self.inner.remaining()
    }

    pub open(crate) spec fn wf(&self) -> bool {
        self.inner.wf()
    }

    /// The next value, mutably, or `None` once all have been yielded.
    pub fn next(&mut self) -> (r: Option<&'a mut V>)
        requires
            old(self).wf(),
        ensures
            final(self).wf(),
            old(self).remaining().len() == 0 ==> r is None && final(self).remaining().len() == 0,
            old(self).remaining().len() > 0 ==> {
                &&& r == Some(old(self).remaining()[0])
                &&& final(self).remaining() == old(self).remaining().drop_first()
            },
    {
        let r = self.inner.next();
        if r.is_some() {
            Some(crate::second(r.unwrap()))
        } else {
            None
        }
    }
}

/// Takes every value out of a consumed arena, with its key, in index order.
pub struct IntoIter<K: SimpleKey, V> {
    /// The values still to come, last first.
    pub(crate) reversed: Vec<V>,
    pub(crate) pos: usize,
    pub(crate) phantom: PhantomData<K>,
}

impl<K: SimpleKey, V> IntoIter<K, V> {
    /// The values still to come.
    pub open(crate) spec fn remaining(&self) -> Seq<V> {
        self.reversed@.reverse()
    }

    /// The index of the next value.
    pub open(crate) spec fn pos(&self) -> nat {
        self.pos as nat
    }

    pub open(crate) spec fn wf(&self) -> bool {
        self.pos + self.reversed@.len() <= usize::MAX
    }

    pub(crate) fn over(values: Vec<V>) -> (r: Self)
        ensures
            r.wf(),
            r.pos() == 0,
            r.remaining() == values@,
    {
        let ghost orig = values@;
        let mut values = values;
        let mut reversed: Vec<V> = Vec::new();
        let n = values.len();
        while values.len() > 0
            invariant
                values@.len() + reversed@.len() == orig.len(),
                n == orig.len(),
                values@ == orig.subrange(0, values@.len() as int),
                reversed@.reverse() == orig.subrange(values@.len() as int, orig.len() as int),
            decreases values@.len(),
        {
            let ghost before = reversed@;
            let v = values.pop().unwrap();
            reversed.push(v);
            proof {
                assert(reversed@.reverse() =~= seq![v] + before.reverse());
                assert(orig.subrange(values@.len() as int, orig.len() as int) =~= seq![v]
                    + orig.subrange(values@.len() + 1int, orig.len() as int));
            }
        }
        proof {
            assert(orig.subrange(0, orig.len() as int) =~= orig);
        }
        IntoIter { reversed, pos: 0, phantom: PhantomData }
    }

    /// The next value with its key, or `None` once all have been yielded.
    pub fn next(&mut self) -> (r: Option<(K, V)>)
        requires
            old(self).wf(),
        ensures
            final(self).wf(),
            old(self).remaining().len() == 0 ==> r is None && final(self).remaining().len() == 0,
            old(self).remaining().len() > 0 ==> {
                &&& r is Some
                &&& r.unwrap().0.spec_idx() == old(self).pos()
                &&& r.unwrap().1 == old(self).remaining()[0]
                &&& final(self).remaining() == old(self).remaining().drop_first()
                &&& final(self).pos() == old(self).pos() + 1
            },
    {
        match self.reversed.pop() {
            None => None,
            Some(v) => {
                let i = self.pos;
                let key = K::new(i);
                self.pos = i + 1;
                proof {
                    assert(self.reversed@.reverse() =~= old(self).remaining().drop_first());
                }
                Some((key, v))
            },
        }
    }
}

} // verus!
