//! Traversals of the values of a sparse map, each with its key.
use vstd::prelude::*;

use std::marker::PhantomData;

use crate::simple::SimpleKey;

verus! {

/// The values of `slots` with their indices, in index order; the first slot
/// of `slots` has index `base`.
pub open spec fn present_at<V>(slots: Seq<Option<V>>, base: int) -> Seq<(int, V)>
    decreases slots.len(),
{
    if slots.len() == 0 {
        seq![]
    } else {
        let rest = present_at(slots.drop_first(), base + 1);
        match slots[0] {
            Some(v) => seq![(base, v)] + rest,
            None => rest,
        }
    }
}

/// Yields `(key, &value)` for every key that has a value, in index order.
pub struct Iter<'a, K: SimpleKey, V> {
    pub(crate) inner: &'a [Option<V>],
    pub(crate) pos: usize,
    pub(crate) phantom: PhantomData<K>,
}

impl<'a, K: SimpleKey, V> Iter<'a, K, V> {
    /// The values still to come, with their indices.
    pub open(crate) spec fn remaining(&self) -> Seq<(int, V)> {
        present_at(self.inner@.subrange(self.pos as int, self.inner@.len() as int), self.pos as int)
    }

    pub open(crate) spec fn wf(&self) -> bool {
        self.pos <= self.inner@.len()
    }

    pub(crate) fn over(inner: &'a [Option<V>]) -> (r: Self)
        ensures
            r.wf(),
            r.remaining() == present_at(inner@, 0),
    {
        let r = Iter { inner, pos: 0, phantom: PhantomData };
        assert(inner@.subrange(0, inner@.len() as int) =~= inner@);
        r
    }

    /// The next value with its key, or `None` once all have been yielded.
    pub fn next(&mut self) -> (r: Option<(K, &'a V)>)
        requires
            old(self).wf(),
        ensures
            final(self).wf(),
            old(self).remaining().len() == 0 ==> r is None && final(self).remaining().len() == 0,
            old(self).remaining().len() > 0 ==> {
                &&& r is Some
                &&& r.unwrap().0.spec_idx() == old(self).remaining()[0].0
                &&& *r.unwrap().1 == old(self).remaining()[0].1
                &&& final(self).remaining() == old(self).remaining().drop_first()
            },
    {
        let inner: &'a [Option<V>] = self.inner;
        let n = inner.len();
        while self.pos < n
            invariant
                self.inner == inner,
                n == inner@.len(),
                self.wf(),
                self.remaining() == old(self).remaining(),
            decreases n - self.pos,
        {
            let i = self.pos;
            proof {
                let rest = inner@.subrange(i as int, n as int);
                assert(rest.drop_first() =~= inner@.subrange(i + 1, n as int));
                assert(rest[0] == inner@[i as int]);
            }
            self.pos = i + 1;
            match inner[i].as_ref() {
                Some(v) => {
                    return Some((K::new(i), v));
                },
                None => {},
            }
        }
        proof {
            assert(inner@.subrange(self.pos as int, n as int).len() == 0);
        }
        None
    }
}

/// The present cells of `cells` with their indices, in index order; the
/// first cell of `cells` has index `base`.
pub open spec fn present_refs<'a, V>(cells: Seq<Option<&'a mut V>>, base: int) -> Seq<(int, &'a mut V)>
    decreases cells.len(),
{
    if cells.len() == 0 {
        seq![]
    } else {
        let rest = present_refs(cells.drop_first(), base + 1);
        match cells[0] {
            Some(r) => seq![(base, r)] + rest,
            None => rest,
        }
    }
}

/// Cells taken from `slots` line up with the values of `slots`.
proof fn lemma_present_refs<'a, V>(cells: Seq<Option<&'a mut V>>, slots: Seq<Option<V>>, base: int)
    requires
        cells.len() == slots.len(),
        forall|t: int|
            0 <= t < cells.len() ==> {
                &&& (#[trigger] cells[t]) is Some == slots[t] is Some
                &&& cells[t] is Some ==> *cells[t].unwrap() == slots[t].unwrap()
            },
    ensures
        present_refs(cells, base).len() == present_at(slots, base).len(),
        forall|i: int|
            0 <= i < present_refs(cells, base).len() ==> {
                let p = #[trigger] present_refs(cells, base)[i];
                &&& p.0 == present_at(slots, base)[i].0
                &&& *p.1 == present_at(slots, base)[i].1
                &&& base <= p.0 < base + cells.len()
                &&& cells[p.0 - base] is Some
                &&& p.1 == cells[p.0 - base].unwrap()
            },
    decreases cells.len(),
{
    if cells.len() > 0 {
        let (c1, s1) = (cells.drop_first(), slots.drop_first());
        assert forall|t: int| 0 <= t < c1.len() implies {
            &&& (#[trigger] c1[t]) is Some == s1[t] is Some
            &&& c1[t] is Some ==> *c1[t].unwrap() == s1[t].unwrap()
        } by {
            assert(c1[t] == cells[t + 1]);
        }
        lemma_present_refs(c1, s1, base + 1);
        let rest = present_refs(c1, base + 1);
        let pend = present_refs(cells, base);
        assert(cells[0] is Some == slots[0] is Some);
        assert forall|i: int| 0 <= i < pend.len() implies {
            let p = #[trigger] pend[i];
            &&& p.0 == present_at(slots, base)[i].0
            &&& *p.1 == present_at(slots, base)[i].1
            &&& base <= p.0 < base + cells.len()
            &&& cells[p.0 - base] is Some
            &&& p.1 == cells[p.0 - base].unwrap()
        } by {
            if cells[0] is Some {
                if i > 0 {
                    assert(pend[i] == rest[i - 1]);
                    assert(c1[rest[i - 1].0 - (base + 1)] == cells[rest[i - 1].0 - base]);
                }
            } else {
                assert(pend[i] == rest[i]);
                assert(c1[rest[i].0 - (base + 1)] == cells[rest[i].0 - base]);
            }
        }
    }
}

/// Splits the first slot off `slots`, as a mutable reference to its value
/// when it holds one.
fn split_first_value<'a, V>(slots: &'a mut [Option<V>]) -> (r: (Option<&'a mut V>, &'a mut [Option<V>]))
    requires
        old(slots)@.len() > 0,
    ensures
        r.1@ == old(slots)@.drop_first(),
        r.0 is Some == old(slots)@[0] is Some,
        r.0 is Some ==> *r.0.unwrap() == old(slots)@[0].unwrap(),
        final(slots)@.len() == final(r.1)@.len() + 1,
        final(slots)@[0] == if r.0 is Some {
            Some(*final(r.0.unwrap()))
        } else {
            None
        },
        final(slots)@.drop_first() == final(r.1)@,
{
    let (head, tail) = slots.split_at_mut(1);
    (head.first_mut().unwrap().as_mut(), tail)
}

/// Splits `slots` into one mutable reference per slot, to its value when it
/// holds one. What is written through them is what the slots then hold.
pub(crate) fn split_value_refs<'a, V>(slots: &'a mut [Option<V>]) -> (cells: Vec<Option<&'a mut V>>)
    ensures
        cells@.len() == old(slots)@.len(),
        final(slots)@.len() == old(slots)@.len(),
        forall|t: int|
            #![trigger cells@[t]]
            #![trigger final(slots)@[t]]
            0 <= t < cells@.len() ==> {
                &&& cells@[t] is Some == old(slots)@[t] is Some
                &&& cells@[t] is Some ==> *cells@[t].unwrap() == old(slots)@[t].unwrap()
                &&& final(slots)@[t] == if cells@[t] is Some {
                    Some(*final(cells@[t].unwrap()))
                } else {
                    None
                }
            },
{
    let ghost n = slots@.len();
    let ghost orig = slots@;
    let mut cells: Vec<Option<&'a mut V>> = Vec::new();
    let mut rest = slots;
    while rest.len() > 0
        invariant
            cells@.len() + rest@.len() == n,
            orig == old(slots)@,
            n == orig.len(),
            rest@ == orig.subrange(cells@.len() as int, n as int),
            final(slots)@.len() == cells@.len() + final(rest)@.len(),
            forall|t: int|
                0 <= t < cells@.len() ==> {
                    &&& (#[trigger] cells@[t]) is Some == orig[t] is Some
                    &&& cells@[t] is Some ==> *cells@[t].unwrap() == orig[t].unwrap()
                    &&& final(slots)@[t] == if cells@[t] is Some {
                        Some(*final(cells@[t].unwrap()))
                    } else {
                        None
                    }
                },
            forall|t: int|
                0 <= t < final(rest)@.len() ==> final(slots)@[cells@.len() + t]
                    == #[trigger] final(rest)@[t],
        decreases rest@.len(),
    {
        let (cell, tail) = split_first_value(rest);
        rest = tail;
        cells.push(cell);
    }
    proof {
        assert(final(rest)@ == rest@);
    }
    cells
}

/// Yields `(key, &mut value)` for every key that has a value, in index order.
pub struct IterMut<'a, K: SimpleKey, V> {
    pub(crate) cells: Vec<Option<&'a mut V>>,
    pub(crate) pos: usize,
    pub(crate) phantom: PhantomData<K>,
}

impl<'a, K: SimpleKey, V> IterMut<'a, K, V> {
    /// The values still to come, each with its index and the reference it
    /// will be yielded with.
    pub open(crate) spec fn remaining(&self) -> Seq<(int, &'a mut V)> {
        present_refs(
            self.cells@.subrange(self.pos as int, self.cells@.len() as int),
            self.pos as int,
        )
    }

    pub open(crate) spec fn wf(&self) -> bool {
        &&& self.pos <= self.cells@.len()
        &&& self.cells@.len() <= usize::MAX
    }

    pub(crate) fn over(inner: &'a mut [Option<V>]) -> (r: Self)
        ensures
            r.wf(),
            r.remaining().len() == present_at(old(inner)@, 0).len(),
            final(inner)@.len() == old(inner)@.len(),
            forall|i: int|
                0 <= i < r.remaining().len() ==> {
                    let p = #[trigger] r.remaining()[i];
                    &&& p.0 == present_at(old(inner)@, 0)[i].0
                    &&& *p.1 == present_at(old(inner)@, 0)[i].1
                    &&& 0 <= p.0 < old(inner)@.len()
                    &&& final(inner)@[p.0] == Some(*final(p.1))
                },
            forall|t: int|
                0 <= t < old(inner)@.len() && old(inner)@[t] is None ==> #[trigger] final(inner)@[t]
                    is None,
    {
        let n = inner.len();
        let ghost orig = inner@;
        let cells = split_value_refs(inner);
        proof {
            lemma_present_refs(cells@, orig, 0);
            assert(cells@.subrange(0, n as int) =~= cells@);
        }
        IterMut { cells, pos: 0, phantom: PhantomData }
    }

    /// The next value, mutably, with its key, or `None` once all have been yielded.
    pub fn next(&mut self) -> (r: Option<(K, &'a mut V)>)
        requires
            old(self).wf(),
        ensures
            final(self).wf(),
            old(self).remaining().len() == 0 ==> r is None && final(self).remaining().len() == 0,
            old(self).remaining().len() > 0 ==> {
                &&& r is Some
                &&& r.unwrap().0.spec_idx() == old(self).remaining()[0].0
                &&& r.unwrap().1 == old(self).remaining()[0].1
                &&& final(self).remaining() == old(self).remaining().drop_first()
            },
    {
        let n = self.cells.len();
        while self.pos < n
            invariant
                n == self.cells@.len(),
                self.wf(),
                self.remaining() == old(self).remaining(),
            decreases n - self.pos,
        {
            let i = self.pos;
            let ghost cells = self.cells@.subrange(i as int, n as int);
            let ghost before = self.cells@;
            proof {
                assert(cells.drop_first() =~= self.cells@.subrange(i + 1, n as int));
                assert(cells[0] == self.cells@[i as int]);
            }
            self.pos = i + 1;
            let c = self.cells[i].take();
            proof {
                assert(self.cells@.subrange(i + 1, n as int) =~= before.subrange(i + 1, n as int));
            }
            if c.is_some() {
                return Some((K::new(i), c.unwrap()));
            }
        }
        proof {
            assert(self.cells@.subrange(self.pos as int, n as int).len() == 0);
        }
        None
    }
}

/// Yields every key that has a value, in index order.
pub struct Keys<'a, K: SimpleKey, V> {
    pub(crate) inner: Iter<'a, K, V>,
}

impl<'a, K: SimpleKey, V> Keys<'a, K, V> {
    /// The indices of the keys still to come.
    pub open(crate) spec fn remaining(&self) -> Seq<int> {
        self.inner.remaining().map_values(|e: (int, V)| e.0)
    }

    pub open(crate) spec fn wf(&self) -> bool {
        self.inner.wf()
    }

    /// The next key, or `None` once all have been yielded.
    pub fn next(&mut self) -> (r: Option<K>)
        requires
            old(self).wf(),
        ensures
            final(self).wf(),
            old(self).remaining().len() == 0 ==> r is None && final(self).remaining().len() == 0,
            old(self).remaining().len() > 0 ==> {
                &&& r is Some
                &&& r.unwrap().spec_idx() == old(self).remaining()[0]
                &&& final(self).remaining() == old(self).remaining().drop_first()
            },
    {
        let ghost before = self.inner.remaining();
        let r = self.inner.next();
        proof {
            if before.len() > 0 {
                assert(before.drop_first().map_values(|e: (int, V)| e.0) =~= before.map_values(
                    |e: (int, V)| e.0,
                ).drop_first());
            }
        }
        match r {
            Some(p) => Some(p.0),
            None => None,
        }
    }
}

/// Yields a reference to every value, in index order.
pub struct Values<'a, K: SimpleKey, V> {
    pub(crate) inner: Iter<'a, K, V>,
}

impl<'a, K: SimpleKey, V> Values<'a, K, V> {
    /// The values still to come.
    pub open(crate) spec fn remaining(&self) -> Seq<V> {
        self.inner.remaining().map_values(|e: (int, V)| e.1)
    }

    pub open(crate) spec fn wf(&self) -> bool {
        self.inner.wf()
    }

    /// The next value, or `None` once all have been yielded.
    pub fn next(&mut self) -> (r: Option<&'a V>)
        requires
            old(self).wf(),
        ensures
            final(self).wf(),
            old(self).remaining().len() == 0 ==> r is None && final(self).remaining().len() == 0,
            old(self).remaining().len() > 0 ==> {
                &&& r is Some
                &&& *r.unwrap() == old(self).remaining()[0]
                &&& final(self).remaining() == old(self).remaining().drop_first()
            },
    {
        let ghost before = self.inner.remaining();
        let r = self.inner.next();
        proof {
            if before.len() > 0 {
                assert(before.drop_first().map_values(|e: (int, V)| e.1) =~= before.map_values(
                    |e: (int, V)| e.1,
                ).drop_first());
            }
        }
        match r {
            Some(p) => Some(p.1),
            None => None,
        }
    }
}

/// Yields a mutable reference to every value, in index order.
pub struct ValuesMut<'a, K: SimpleKey, V> {
    pub(crate) inner: IterMut<'a, K, V>,
}

impl<'a, K: SimpleKey, V> ValuesMut<'a, K, V> {
    /// The references still to come.
    pub open(crate) spec fn remaining(&self) -> Seq<&'a mut V> {
        self.inner.remaining().map_values(|e: (int, &'a mut V)| e.1)
    }

    pub open(crate) spec fn wf(&self) -> bool {
        self.inner.wf()
    }

    /// The next value, mutably, or `None` once all have been yielded.
    pub fn next(&mut self) -> (r: Option<&'a mut V>)
        requires
            old(self).wf(),
        ensures
            final(self).wf(),
            old(self).remaining().len() == 0 ==> r is None && final(self).remaining().len() == 0,
            old(self).remaining().len() > 0 ==> {
                &&& r == Some(old(self).remaining()[0])
                &&& final(self).remaining() == old(self).remaining().drop_first()
            },
    {
        let ghost before = self.inner.remaining();
        let r = self.inner.next();
        proof {
            if before.len() > 0 {
                assert(before.map_values(|e: (int, &'a mut V)| e.1)[0] == before[0].1);
                assert(before.drop_first().map_values(|e: (int, &'a mut V)| e.1) =~= before.map_values(
                    |e: (int, &'a mut V)| e.1,
                ).drop_first());
            }
        }
        if r.is_some() {
            Some(crate::second(r.unwrap()))
        } else {
            None
        }
    }
}

} // verus!
