//! Borrowing the values of several keys at once, with a runtime proof that
//! no two of the keys name the same slot.
use vstd::prelude::*;

use crate::{lemma_state_word, Key, SurottoMap, SUROTTO_OCCUPIED};

verus! {

/// The keys of `keys` all resolve in `m` and no key occurs twice.
pub open spec fn disjoint_keys<T>(m: Map<Key, T>, keys: Seq<Key>) -> bool {
    &&& forall|i: int| 0 <= i < keys.len() ==> m.contains_key(#[trigger] keys[i])
    &&& forall|i: int, j: int| 0 <= i < j < keys.len() ==> keys[i] != keys[j]
}

impl<T> SurottoMap<T> {
    /// `self` is `pre` with the occupied bit cleared on the slots of
    /// `keys[lo..hi]`, which are distinct and were valid in `pre`.
    pub open(crate) spec fn marked(&self, pre: Self, keys: Seq<Key>, lo: int, hi: int) -> bool {
        &&& 0 <= lo <= hi <= keys.len()
        &&& self.inner@.len() == pre.inner@.len()
        &&& self.next_free == pre.next_free
        &&& self.len == pre.len
        &&& self.live == pre.live
        &&& self.issued == pre.issued
        &&& self.free == pre.free
        &&& forall|a: int| lo <= a < hi ==> pre.valid_key(#[trigger] keys[a])
        &&& forall|a: int, b: int| lo <= a < b < hi ==> keys[a].index != keys[b].index
        &&& forall|t: int|
            0 <= t < self.inner@.len() ==> {
                &&& (#[trigger] self.inner@[t]).val == pre.inner@[t].val
                &&& self.inner@[t].next_free == pre.inner@[t].next_free
            }
        &&& forall|a: int|
            lo <= a < hi ==> #[trigger] self.inner@[keys[a].index as int].version == pre.inner@[keys[
                a].index as int].version - SUROTTO_OCCUPIED
        &&& forall|t: int|
            0 <= t < self.inner@.len() && (forall|a: int| lo <= a < hi ==> keys[a].index != t)
                ==> #[trigger] self.inner@[t].version == pre.inner@[t].version
    }

    /// Marks the slots of `keys` as borrowed, in order, until a key fails
    /// validation against the marks made so far. Returns how many passed.
    fn mark_keys<const N: usize>(&mut self, keys: &[Key; N]) -> (passed: usize)
        requires
            old(self).wf(),
        ensures
            final(self).marked(*old(self), keys@, 0, passed as int),
            passed == N <==> disjoint_keys(old(self)@, keys@),
    {
        let ghost pre = *self;
        proof {
            pre.lemma_view();
        }
        let mut i: usize = 0;
        let mut passed: usize = N;
        while i < N && passed == N
            invariant
                i <= N,
                keys@.len() == N,
                pre.wf(),
                self.marked(pre, keys@, 0, i as int),
                passed == N || (passed == i && !disjoint_keys(pre@, keys@)),
                forall|a: int, b: int| 0 <= a < b < i ==> keys@[a] != keys@[b],
            decreases N - i, passed,
        {
            let key = keys[i];
            if !self.stamp_matches(key) {
                proof {
                    self.lemma_failed_key(pre, keys@, i as int);
                }
                passed = i;
            } else {
                let ghost before = *self;
                let idx = key.index;
                let word = self.inner[idx].version;
                proof {
                    lemma_state_word(word);
                    assert forall|a: int| 0 <= a < i implies keys@[a].index != idx by {
                        if keys@[a].index == idx {
                            assert(before.inner@[keys@[a].index as int].version == pre.inner@[keys@[
                                a].index as int].version - SUROTTO_OCCUPIED);
                        }
                    }
                    assert(pre.valid_key(key));
                }
                self.inner[idx].version = word & !SUROTTO_OCCUPIED;
                proof {
                    assert forall|a: int, b: int| 0 <= a < b < i + 1 implies keys@[a] != keys@[b] by {
                        if b == i {
                            assert(keys@[a].index != idx);
                        }
                    }
                }
                i = i + 1;
            }
        }
        proof {
            if passed == N {
                assert(i == N);
                assert forall|a: int| 0 <= a < keys@.len() implies pre@.contains_key(
                    #[trigger] keys@[a],
                ) by {
                    assert(pre.valid_key(keys@[a]));
                }
            }
        }
        passed
    }

    /// A key that fails validation against the marks of `keys[0..i]`
    /// either was invalid or repeats one of them.
    proof fn lemma_failed_key(&self, pre: Self, keys: Seq<Key>, i: int)
        requires
            pre.wf(),
            0 <= i < keys.len(),
            self.marked(pre, keys, 0, i),
            !self.valid_key(keys[i]),
        ensures
            !disjoint_keys(pre@, keys),
    {
        pre.lemma_view();
        if pre.valid_key(keys[i]) {
            let idx = keys[i].index;
            if forall|a: int| 0 <= a < i ==> keys[a].index != idx {
                assert(self.inner@[idx as int].version == pre.inner@[idx as int].version);
            } else {
                let a = choose|a: int| 0 <= a < i && keys[a].index == idx;
                assert(pre.valid_key(keys[a]));
                assert(keys[a] == keys[i]);
            }
        } else {
            assert(!pre@.contains_key(keys[i]));
        }
    }

    /// Takes the borrow marks off the slots of `keys[0..passed]`.
    fn unmark_keys<const N: usize>(&mut self, keys: &[Key; N], passed: usize, Ghost(pre): Ghost<Self>)
        requires
            old(self).marked(pre, keys@, 0, passed as int),
        ensures
            final(self).inner@ == pre.inner@,
            final(self).next_free == pre.next_free,
            final(self).len == pre.len,
            final(self).live == pre.live,
            final(self).issued == pre.issued,
            final(self).free == pre.free,
    {
        let mut j: usize = 0;
        while j < passed
            invariant
                j <= passed,
                passed <= N,
                keys@.len() == N,
                self.marked(pre, keys@, j as int, passed as int),
            decreases passed - j,
        {
            let idx = keys[j].index;
            let word = self.inner[idx].version;
            proof {
                lemma_state_word(word);
            }
            self.inner[idx].version = word | SUROTTO_OCCUPIED;
            proof {
                assert forall|t: int|
                    0 <= t < self.inner@.len() && (forall|a: int|
                        j + 1 <= a < passed ==> keys@[a].index != t) implies #[trigger] self.inner@[t].version
                    == pre.inner@[t].version by {
                    if t != idx {
                        assert(forall|a: int| j <= a < passed ==> keys@[a].index != t);
                    }
                }
            }
            j = j + 1;
        }
        proof {
            assert forall|t: int| 0 <= t < self.inner@.len() implies self.inner@[t] == pre.inner@[t] by {
                assert(self.inner@[t].version == pre.inner@[t].version);
            }
            assert(self.inner@ =~= pre.inner@);
        }
    }

    /// A state with the slots and bookkeeping of a well-formed one is well formed.
    proof fn lemma_same_state(&self, pre: Self)
        requires
            pre.wf(),
            self.inner@ == pre.inner@,
            self.next_free == pre.next_free,
            self.len == pre.len,
            self.live == pre.live,
            self.issued == pre.issued,
            self.free == pre.free,
        ensures
            self.wf(),
            self@ == pre@,
    {
        assert forall|k: Key| #[trigger] self.live@.contains(k) <==> self.valid_key(k) by {
            assert(pre.valid_key(k) == self.valid_key(k));
        }
        assert forall|k: Key| #[trigger] self.issued@.contains(k) implies self.issued_ok(k) by {
            assert(pre.issued_ok(k));
        }
        assert forall|a: int| 0 <= a < self.free@.len() implies {
            &&& #[trigger] self.free@[a] < self.inner@.len()
            &&& self.reusable(self.free@[a] as int)
            &&& self.inner@[self.free@[a] as int].next_free == self.link_after(a)
        } by {
            assert(pre.reusable(pre.free@[a] as int));
        }
        assert forall|t: int| 0 <= t < self.inner@.len() && #[trigger] self.reusable(t)
            implies self.free@.contains(t as nat) by {
            assert(pre.reusable(t));
        }
        self.lemma_view();
        pre.lemma_view();
        assert(self@ =~= pre@);
    }

    /// Runs the disjoint-borrow protocol over `keys`: each key in turn is
    /// validated and its slot provisionally marked as borrowed by clearing its
    /// occupied bit, so that a later key naming the same slot fails. The marks
    /// are then taken off again, whether or not every key passed.
    fn claim_disjoint<const N: usize>(&mut self, keys: &[Key; N]) -> (ok: bool)
        requires
            old(self).wf(),
        ensures
            final(self).wf(),
            final(self).inner@ == old(self).inner@,
            final(self)@ == old(self)@,
            final(self).issued() == old(self).issued(),
            final(self).free_list() == old(self).free_list(),
            ok == disjoint_keys(old(self)@, keys@),
    {
        let ghost pre = *self;
        let passed = self.mark_keys(keys);
        self.unmark_keys(keys, passed, Ghost(pre));
        proof {
            self.lemma_same_state(pre);
        }
        passed == N
    }

    /// References to the values of all of `keys`, in order, provided that
    /// every key is valid and no key occurs twice; otherwise nothing, and the
    /// map is left exactly as it was.
    pub fn get_disjoint<const N: usize>(&mut self, keys: [Key; N]) -> (r: Option<Vec<&T>>)
        requires
            old(self).wf(),
        ensures
            final(self).wf(),
            final(self)@ == old(self)@,
            final(self).issued() == old(self).issued(),
            final(self).free_list() == old(self).free_list(),
            final(self).slot_count() == old(self).slot_count(),
            r is Some <==> disjoint_keys(old(self)@, keys@),
            r is Some ==> r.unwrap()@.len() == N && forall|i: int|
                0 <= i < N ==> *(#[trigger] r.unwrap()@[i]) == old(self)@[keys@[i]],
    {
        if !self.claim_disjoint(&keys) {
            return None;
        }
        let this: &Self = self;
        proof {
            this.lemma_view();
        }
        let mut refs: Vec<&T> = Vec::new();
        let mut i: usize = 0;
        while i < N
            invariant
                i <= N,
                keys@.len() == N,
                this.wf(),
                disjoint_keys(this@, keys@),
                refs@.len() == i,
                forall|a: int| 0 <= a < i ==> *(#[trigger] refs@[a]) == this@[keys@[a]],
            decreases N - i,
        {
            let idx = keys[i].index;
            proof {
                assert(this@.contains_key(keys@[i as int]));
                this.lemma_view();
            }
            let v = this.inner[idx].val.as_ref().unwrap();
            refs.push(v);
            i = i + 1;
        }
        Some(refs)
    }

    /// Mutable references to the values of all of `keys`, in order, provided
    /// that every key is valid and no key occurs twice; otherwise nothing, and
    /// the map is left exactly as it was. What is written through the
    /// references is what the keys then reach.
    pub fn get_disjoint_mut<const N: usize>(&mut self, keys: [Key; N]) -> (r: Option<Vec<&mut T>>)
        requires
            old(self).wf(),
        ensures
            final(self).wf(),
            final(self).issued() == old(self).issued(),
            final(self).free_list() == old(self).free_list(),
            final(self).slot_count() == old(self).slot_count(),
            final(self)@.dom() == old(self)@.dom(),
            r is Some <==> disjoint_keys(old(self)@, keys@),
            r is None ==> final(self)@ == old(self)@,
            r is Some ==> r.unwrap()@.len() == N,
            r is Some ==> forall|i: int|
                0 <= i < N ==> *(#[trigger] r.unwrap()@[i]) == old(self)@[keys@[i]],
            r is Some ==> forall|i: int|
                0 <= i < N ==> final(self)@[keys@[i]] == *final(#[trigger] r.unwrap()@[i]),
            forall|k: Key|
                old(self)@.contains_key(k) && !keys@.contains(k) ==> #[trigger] final(self)@[k]
                    == old(self)@[k],
    {
        if !self.claim_disjoint(&keys) {
            return None;
        }
        let ghost pre = *self;
        proof {
            pre.lemma_view();
        }
        let cells = self.value_refs();
        proof {
            assert forall|a: int, b: int| 0 <= a < b < N implies keys@[a].index != keys@[b].index by {
                assert(pre.valid_key(keys@[a]));
                assert(pre.valid_key(keys@[b]));
            }
            assert forall|a: int| 0 <= a < N implies (#[trigger] keys@[a]).index < cells@.len()
                && cells@[keys@[a].index as int] is Some by {
                assert(pre@.contains_key(keys@[a]));
            }
        }
        let refs = Self::pick_refs(cells, &keys);
        Some(refs)
    }

    /// Moves the references of `cells` at the slots of `keys` out, in the
    /// order of `keys`. The others are dropped unused.
    fn pick_refs<'a, const N: usize>(cells: Vec<Option<&'a mut T>>, keys: &[Key; N]) -> (refs: Vec<&'a mut T>)
        requires
            forall|a: int|
                0 <= a < N ==> (#[trigger] keys@[a]).index < cells@.len() && cells@[keys@[
                    a].index as int] is Some,
            forall|a: int, b: int| 0 <= a < b < N ==> keys@[a].index != keys@[b].index,
        ensures
            refs@.len() == N,
            forall|a: int| 0 <= a < N ==> #[trigger] refs@[a] == cells@[keys@[a].index as int].unwrap(),
            forall|t: int|
                0 <= t < cells@.len() && cells@[t] is Some && (forall|a: int|
                    0 <= a < N ==> keys@[a].index != t) ==> *final(#[trigger] cells@[t].unwrap())
                    == *cells@[t].unwrap(),
    {
        let ghost cells0 = cells@;
        let mut cells = cells;
        let mut refs: Vec<&'a mut T> = Vec::new();
        let mut i: usize = 0;
        while i < N
            invariant
                i <= N,
                keys@.len() == N,
                cells@.len() == cells0.len(),
                forall|a: int|
                    0 <= a < N ==> (#[trigger] keys@[a]).index < cells0.len() && cells0[keys@[
                        a].index as int] is Some,
                forall|a: int, b: int| 0 <= a < b < N ==> keys@[a].index != keys@[b].index,
                refs@.len() == i,
                forall|a: int| 0 <= a < i ==> #[trigger] refs@[a] == cells0[keys@[a].index as int].unwrap(),
                forall|t: int|
                    0 <= t < cells0.len() && (forall|a: int| 0 <= a < i ==> keys@[a].index != t)
                        ==> #[trigger] cells@[t] == cells0[t],
            decreases N - i,
        {
            let idx = keys[i].index;
            let cell = cells[idx].take();
            refs.push(cell.unwrap());
            proof {
                assert forall|t: int|
                    0 <= t < cells0.len() && (forall|a: int| 0 <= a < i + 1 ==> keys@[a].index != t)
                        implies #[trigger] cells@[t] == cells0[t] by {
                    assert(keys@[i as int].index != t);
                }
            }
            i = i + 1;
        }
        proof {
            assert(has_resolved(cells));
            assert forall|t: int|
                0 <= t < cells0.len() && cells0[t] is Some && (forall|a: int|
                    0 <= a < N ==> keys@[a].index != t) implies *final(#[trigger] cells0[t].unwrap())
                    == *cells0[t].unwrap() by {
                assert(cells@[t] == cells0[t]);
                assert(has_resolved(cells@[t]));
            }
        }
        refs
    }
}

} // verus!
