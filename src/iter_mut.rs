//! Keyed traversal of the live entries of a map, with mutable access.
use vstd::prelude::*;

use crate::{is_occupied, live_at, Key, Slot};

verus! {

/// The entries still to come from `cells`, whose first cell is slot `base`:
/// each present cell with its key.
pub open(crate) spec fn pending_at<'s, T>(
    cells: Seq<Option<&'s mut T>>,
    versions: Seq<u32>,
    base: int,
) -> Seq<(Key, &'s mut T)>
    decreases cells.len(),
{
    if cells.len() == 0 {
        seq![]
    } else {
        let rest = pending_at(cells.drop_first(), versions.drop_first(), base + 1);
        match cells[0] {
            Some(r) => seq![(Key { index: base as usize, version: versions[0] }, r)] + rest,
            None => rest,
        }
    }
}

/// Cells taken from `slots` line up with the live entries of `slots`.
pub(crate) proof fn lemma_pending_matches<'s, T>(
    cells: Seq<Option<&'s mut T>>,
    versions: Seq<u32>,
    slots: Seq<Slot<T>>,
    base: int,
)
    requires
        cells.len() == versions.len(),
        cells.len() == slots.len(),
        0 <= base,
        base + cells.len() <= usize::MAX + 1,
        forall|t: int|
            0 <= t < cells.len() ==> {
                &&& (#[trigger] cells[t]) is Some == is_occupied(slots[t].version)
                &&& versions[t] == slots[t].version
                &&& cells[t] is Some ==> *cells[t].unwrap() == slots[t].val.unwrap()
            },
    ensures
        pending_at(cells, versions, base).len() == live_at(slots, base).len(),
        forall|i: int|
            0 <= i < pending_at(cells, versions, base).len() ==> {
                let p = #[trigger] pending_at(cells, versions, base)[i];
                let t = p.0.index - base;
                &&& p.0 == live_at(slots, base)[i].0
                &&& *p.1 == live_at(slots, base)[i].1
                &&& 0 <= t < cells.len()
                &&& p.0.index == base + t
                &&& is_occupied(slots[t].version)
                &&& slots[t].version == p.0.version
                &&& p.1 == cells[t].unwrap()
            },
    decreases cells.len(),
{
    if cells.len() > 0 {
        let (c1, v1, s1) = (cells.drop_first(), versions.drop_first(), slots.drop_first());
        assert forall|t: int| 0 <= t < c1.len() implies {
            &&& (#[trigger] c1[t]) is Some == is_occupied(s1[t].version)
            &&& v1[t] == s1[t].version
            &&& c1[t] is Some ==> *c1[t].unwrap() == s1[t].val.unwrap()
        } by {
            assert(c1[t] == cells[t + 1]);
        }
        lemma_pending_matches(c1, v1, s1, base + 1);
        let rest = pending_at(c1, v1, base + 1);
        let lrest = live_at(s1, base + 1);
        let pend = pending_at(cells, versions, base);
        let live = live_at(slots, base);
        assert(cells[0] is Some == is_occupied(slots[0].version));
        if cells[0] is Some {
            assert forall|i: int| 0 <= i < pend.len() implies {
                let p = #[trigger] pend[i];
                let t = p.0.index - base;
                &&& p.0 == live[i].0
                &&& *p.1 == live[i].1
                &&& 0 <= t < cells.len()
                &&& p.0.index == base + t
                &&& is_occupied(slots[t].version)
                &&& slots[t].version == p.0.version
                &&& p.1 == cells[t].unwrap()
            } by {
                if i > 0 {
                    assert(pend[i] == rest[i - 1]);
                    assert(live[i] == lrest[i - 1]);
                    let t1 = rest[i - 1].0.index - (base + 1);
                    assert(c1[t1] == cells[t1 + 1]);
                    assert(s1[t1] == slots[t1 + 1]);
                }
            }
        } else {
            assert forall|i: int| 0 <= i < pend.len() implies {
                let p = #[trigger] pend[i];
                let t = p.0.index - base;
                &&& p.0 == live[i].0
                &&& *p.1 == live[i].1
                &&& 0 <= t < cells.len()
                &&& p.0.index == base + t
                &&& is_occupied(slots[t].version)
                &&& slots[t].version == p.0.version
                &&& p.1 == cells[t].unwrap()
            } by {
                let t1 = rest[i].0.index - (base + 1);
                assert(c1[t1] == cells[t1 + 1]);
                assert(s1[t1] == slots[t1 + 1]);
            }
        }
    }
}

/// Yields `(key, &mut value)` for each live entry, in ascending index order.
pub struct IterMut<'s, T> {
    pub(crate) cells: Vec<Option<&'s mut T>>,
    pub(crate) versions: Vec<u32>,
    pub(crate) pos: usize,
}

impl<'s, T> IterMut<'s, T> {
    /// The entries still to come, each with the reference it will be yielded with.
    pub open(crate) spec fn remaining(&self) -> Seq<(Key, &'s mut T)> {
        let n = self.cells@.len() as int;
        pending_at(
            self.cells@.subrange(self.pos as int, n),
            self.versions@.subrange(self.pos as int, n),
            self.pos as int,
        )
    }

    pub open(crate) spec fn wf(&self) -> bool {
        &&& self.cells@.len() == self.versions@.len()
        &&& self.pos <= self.cells@.len()
    }

    /// The next live entry, or `None` once all have been yielded.
    pub fn next(&mut self) -> (r: Option<(Key, &'s mut T)>)
        requires
            old(self).wf(),
        ensures
            final(self).wf(),
            old(self).remaining().len() == 0 ==> r is None && final(self).remaining().len() == 0,
            old(self).remaining().len() > 0 ==> r == Some(old(self).remaining()[0]),
            old(self).remaining().len() > 0 ==> final(self).remaining() == old(
                self,
            ).remaining().drop_first(),
    {
        let n = self.cells.len();
        while self.pos < n
            invariant
                n == self.cells@.len(),
                self.wf(),
                self.remaining() == old(self).remaining(),
            decreases n - self.pos,
        {
            let i = self.pos;
            let ghost cells = self.cells@.subrange(i as int, n as int);
            let ghost versions = self.versions@.subrange(i as int, n as int);
            let ghost before = self.cells@;
            proof {
                assert(cells.drop_first() =~= self.cells@.subrange(i + 1, n as int));
                assert(versions.drop_first() =~= self.versions@.subrange(i + 1, n as int));
                assert(cells[0] == self.cells@[i as int]);
                assert(versions[0] == self.versions@[i as int]);
            }
            self.pos = i + 1;
            let c = self.cells[i].take();
            proof {
                assert(self.cells@.subrange(i + 1, n as int) =~= before.subrange(i + 1, n as int));
            }
            if c.is_some() {
                let key = Key { index: i, version: self.versions[i] };
                proof {
                    assert(pending_at(cells, versions, i as int).drop_first() == pending_at(
                        cells.drop_first(),
                        versions.drop_first(),
                        i + 1,
                    ));
                }
                return Some((key, c.unwrap()));
            }
        }
        proof {
            assert(self.cells@.subrange(self.pos as int, n as int).len() == 0);
        }
        None
    }
}

} // verus!
