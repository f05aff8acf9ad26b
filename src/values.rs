//! Traversal of the live values.
use vstd::prelude::*;

use crate::{Iter, Key};

verus! {

/// Yields a reference to each live value, in ascending index order of the slots.
pub struct Values<'s, T> {
    pub(crate) inner: Iter<'s, T>,
}

impl<'s, T> Values<'s, T> {
    /// The values still to come.
    pub open(crate) spec fn remaining(&self) -> Seq<T> {
        self.inner.remaining().map_values(|e: (Key, T)| e.1)
    }

    pub open(crate) spec fn wf(&self) -> bool {
        self.inner.wf()
    }

    pub(crate) fn over(inner: Iter<'s, T>) -> (r: Self)
        ensures
            r.inner == inner,
    {
        Values { inner }
    }

    /// The next value, or `None` once all have been yielded.
    pub fn next(&mut self) -> (r: Option<&'s T>)
        requires
            old(self).wf(),
        ensures
            final(self).wf(),
            old(self).remaining().len() == 0 ==> r is None && final(self).remaining().len() == 0,
            old(self).remaining().len() > 0 ==> {
                &&& r is Some
                &&& *r.unwrap() == old(self).remaining()[0]
                &&& final(self).remaining() == old(self).remaining().drop_first()
            },
    {
        let ghost before = self.inner.remaining();
        let r = self.inner.next();
        proof {
            if before.len() > 0 {
                assert(before.drop_first().map_values(|e: (Key, T)| e.1) =~= before.map_values(
                    |e: (Key, T)| e.1,
                ).drop_first());
            }
        }
        match r {
            Some(p) => Some(p.1),
            None => None,
        }
    }
}

} // verus!
