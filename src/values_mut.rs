//! Traversal of the live values, with mutable access.
use vstd::prelude::*;

use crate::{IterMut, Key};

verus! {

/// Yields a mutable reference to each live value, in ascending index order of the slots.
pub struct ValuesMut<'s, T> {
    pub(crate) inner: IterMut<'s, T>,
}

impl<'s, T> ValuesMut<'s, T> {
    /// The references still to come.
    pub open(crate) spec fn remaining(&self) -> Seq<&'s mut T> {
        self.inner.remaining().map_values(|e: (Key, &'s mut T)| e.1)
    }

    pub open(crate) spec fn wf(&self) -> bool {
        self.inner.wf()
    }

    /// The next value, or `None` once all have been yielded.
    pub fn next(&mut self) -> (r: Option<&'s mut T>)
        requires
            old(self).wf(),
        ensures
            final(self).wf(),
            old(self).remaining().len() == 0 ==> r is None && final(self).remaining().len() == 0,
            old(self).remaining().len() > 0 ==> r == Some(old(self).remaining()[0]),
            old(self).remaining().len() > 0 ==> final(self).remaining() == old(
                self,
            ).remaining().drop_first(),
    {
        let ghost before = self.inner.remaining();
        let r = self.inner.next();
        proof {
            if before.len() > 0 {
                assert(before.map_values(|e: (Key, &'s mut T)| e.1)[0] == before[0].1);
                assert(before.drop_first().map_values(|e: (Key, &'s mut T)| e.1) =~= before.map_values(
                    |e: (Key, &'s mut T)| e.1,
                ).drop_first());
            }
        }
        if r.is_some() {
            Some(crate::second(r.unwrap()))
        } else {
            None
        }
    }
}

} // verus!
