//! Traversal of the keys that currently resolve.
use vstd::prelude::*;

use crate::{Iter, Key};

verus! {

/// Yields the key of each live entry, in ascending index order.
pub struct Keys<'s, T> {
    pub(crate) inner: Iter<'s, T>,
}

impl<'s, T> Keys<'s, T> {
    /// The keys still to come.
    pub open(crate) spec fn remaining(&self) -> Seq<Key> {
        self.inner.remaining().map_values(|e: (Key, T)| e.0)
    }

    pub open(crate) spec fn wf(&self) -> bool {
        self.inner.wf()
    }

    pub(crate) fn over(inner: Iter<'s, T>) -> (r: Self)
        ensures
            r.inner == inner,
    {
        Keys { inner }
    }

    /// The next key, or `None` once all have been yielded.
    pub fn next(&mut self) -> (r: Option<Key>)
        requires
            old(self).wf(),
        ensures
            final(self).wf(),
            old(self).remaining().len() == 0 ==> r is None && final(self).remaining().len() == 0,
            old(self).remaining().len() > 0 ==> {
                &&& r == Some(old(self).remaining()[0])
                &&& final(self).remaining() == old(self).remaining().drop_first()
            },
    {
        let ghost before = self.inner.remaining();
        let r = self.inner.next();
        proof {
            if before.len() > 0 {
                assert(before.drop_first().map_values(|e: (Key, T)| e.0) =~= before.map_values(
                    |e: (Key, T)| e.0,
                ).drop_first());
            }
        }
        match r {
            Some(p) => Some(p.0),
            None => None,
        }
    }
}

} // verus!
