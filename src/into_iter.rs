//! Consuming traversal of a map.
use vstd::prelude::*;

use crate::{live_at, slots_wf, Key, Slot, SUROTTO_OCCUPIED};

verus! {

/// Takes each live entry out of a consumed map, with its key, in ascending
/// index order. Each value is moved out exactly once.
pub struct IntoIter<T> {
    pub(crate) slots: Vec<Slot<T>>,
    pub(crate) pos: usize,
}

impl<T> IntoIter<T> {
    /// The entries still to come.
    pub open(crate) spec fn remaining(&self) -> Seq<(Key, T)> {
        live_at(self.slots@.subrange(self.pos as int, self.slots@.len() as int), self.pos as int)
    }

    /// The slots not yet passed are well formed.
    pub open(crate) spec fn wf(&self) -> bool {
        &&& self.pos <= self.slots@.len()
        &&& slots_wf(self.slots@.subrange(self.pos as int, self.slots@.len() as int))
    }

    pub(crate) fn over(slots: Vec<Slot<T>>) -> (r: Self)
        requires
            slots_wf(slots@),
        ensures
            r.wf(),
            r.remaining() == live_at(slots@, 0),
    {
        let r = IntoIter { slots, pos: 0 };
        assert(r.slots@.subrange(0, r.slots@.len() as int) =~= r.slots@);
        r
    }

    /// The next live entry, or `None` once all have been yielded.
    pub fn next(&mut self) -> (r: Option<(Key, T)>)
        requires
            old(self).wf(),
        ensures
            final(self).wf(),
            old(self).remaining().len() == 0 ==> r is None && final(self).remaining().len() == 0,
            old(self).remaining().len() > 0 ==> {
                &&& r == Some(old(self).remaining()[0])
                &&& final(self).remaining() == old(self).remaining().drop_first()
            },
    {
        let n = self.slots.len();
        while self.pos < n
            invariant
                n == self.slots@.len(),
                self.wf(),
                self.remaining() == old(self).remaining(),
            decreases n - self.pos,
        {
            let i = self.pos;
            let ghost rest = self.slots@.subrange(i as int, n as int);
            proof {
                assert(rest.drop_first() =~= self.slots@.subrange(i + 1, n as int));
                assert(rest[0] == self.slots@[i as int]);
                assert(rest[0].wf());
            }
            self.pos = i + 1;
            let word = self.slots[i].version;
            proof {
                crate::lemma_state_word(word);
            }
            if word & SUROTTO_OCCUPIED != 0 {
                let ghost before = self.slots@;
                let v = self.slots[i].val.take();
                proof {
                    assert(self.slots@.subrange(i + 1, n as int) =~= before.subrange(i + 1, n as int));
                }
                return Some((Key { index: i, version: word }, v.unwrap()));
            }
            proof {
                assert forall|t: int| 0 <= t < rest.drop_first().len() implies (#[trigger] rest.drop_first()[t]).wf() by {
                    assert(rest.drop_first()[t] == rest[t + 1]);
                }
            }
        }
        proof {
            assert(self.slots@.subrange(self.pos as int, n as int).len() == 0);
        }
        None
    }
}

} // verus!
