//! Keyed traversal of the live entries of a map.
use vstd::prelude::*;

use crate::{is_occupied, live_at, slots_wf, Key, Slot, SUROTTO_OCCUPIED};

verus! {

/// Yields `(key, &value)` for each live entry, in ascending index order.
pub struct Iter<'s, T> {
    pub(crate) slots: &'s [Slot<T>],
    pub(crate) pos: usize,
}

impl<'s, T> Iter<'s, T> {
    /// The entries still to come.
    pub open(crate) spec fn remaining(&self) -> Seq<(Key, T)> {
        live_at(self.slots@.subrange(self.pos as int, self.slots@.len() as int), self.pos as int)
    }

    pub open(crate) spec fn wf(&self) -> bool {
        &&& self.pos <= self.slots@.len()
        &&& slots_wf(self.slots@)
    }

    pub(crate) fn over(slots: &'s [Slot<T>]) -> (r: Self)
        requires
            slots_wf(slots@),
        ensures
            r.wf(),
            r.remaining() == live_at(slots@, 0),
    {
        let r = Iter { slots, pos: 0 };
        assert(slots@.subrange(0, slots@.len() as int) =~= slots@);
        r
    }

    /// The next live entry, or `None` once all have been yielded.
    pub fn next(&mut self) -> (r: Option<(Key, &'s T)>)
        requires
            old(self).wf(),
        ensures
            final(self).wf(),
            old(self).remaining().len() == 0 ==> r is None && final(self).remaining().len() == 0,
            old(self).remaining().len() > 0 ==> {
                &&& r is Some
                &&& r.unwrap().0 == old(self).remaining()[0].0
                &&& *r.unwrap().1 == old(self).remaining()[0].1
                &&& final(self).remaining() == old(self).remaining().drop_first()
            },
    {
        let slots: &'s [Slot<T>] = self.slots;
        let n = slots.len();
        while self.pos < n
            invariant
                self.slots == slots,
                n == slots@.len(),
                self.wf(),
                self.remaining() == old(self).remaining(),
            decreases n - self.pos,
        {
            let i = self.pos;
            proof {
                let rest = slots@.subrange(i as int, n as int);
                assert(rest.drop_first() =~= slots@.subrange(i + 1, n as int));
                assert(rest[0] == slots@[i as int]);
            }
            self.pos = i + 1;
            let word = slots[i].version;
            proof {
                crate::lemma_state_word(word);
                assert(slots@[i as int].wf());
            }
            if word & SUROTTO_OCCUPIED != 0 {
                let v = slots[i].val.as_ref().unwrap();
                return Some((Key { index: i, version: word }, v));
            }
        }
        proof {
            assert(self.slots@.subrange(self.pos as int, n as int).len() == 0);
        }
        None
    }
}

} // verus!
