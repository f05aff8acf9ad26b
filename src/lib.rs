//! A generational slot map: values live in a growable array of slots and are
//! reached through copyable keys that carry the slot's index and the stamp it
//! had when the key was issued. Freed slots are recycled through an intrusive
//! free list, and a key whose slot has been freed or reused no longer resolves.
use vstd::prelude::*;

pub mod disjoint;
pub mod into_iter;
pub mod iter;
pub mod iter_mut;
pub mod keys;
pub mod laws;
pub mod simple;
pub mod simple_assoc;
pub mod values;
pub mod values_mut;

pub use disjoint::disjoint_keys;
pub use into_iter::IntoIter;
pub use iter::Iter;
pub use iter_mut::IterMut;
pub use keys::Keys;
pub use values::Values;
pub use values_mut::ValuesMut;

verus! {

/// State word of a slot that is free, at generation zero.
pub const SUROTTO_FREE: u32 = 0;

/// The high bit of a state word: set while the slot holds a value.
pub const SUROTTO_OCCUPIED: u32 = 0x8000_0000;

/// The last generation a slot can reach. A slot freed into it is retired
/// for good instead of being handed out again, so that no stamp ever repeats.
pub const LAST_GENERATION: u32 = 0x7fff_ffff;

/// Whether a state word has its occupied bit set.
pub open spec fn is_occupied(word: u32) -> bool {
    word >= SUROTTO_OCCUPIED
}

/// The generation bits of a state word.
pub open spec fn generation(word: u32) -> int {
    if is_occupied(word) {
        word - SUROTTO_OCCUPIED
    } else {
        word as int
    }
}

/// What the bit operations on state words compute.
proof fn lemma_state_word(w: u32)
    ensures
        ((w & 0x8000_0000u32) != 0) == (w >= 0x8000_0000u32),
        w < 0x8000_0000u32 ==> (w | 0x8000_0000u32) == w + 0x8000_0000u32,
        w >= 0x8000_0000u32 ==> (w | 0x8000_0000u32) == w,
        w >= 0x8000_0000u32 ==> (w & !0x8000_0000u32) == w - 0x8000_0000u32,
        w < 0x8000_0000u32 ==> (w & !0x8000_0000u32) == w,
{
    assert(((w & 0x8000_0000u32) != 0) == (w >= 0x8000_0000u32)) by (bit_vector);
    assert(w < 0x8000_0000u32 ==> (w | 0x8000_0000u32) == w + 0x8000_0000u32) by (bit_vector);
    assert(w >= 0x8000_0000u32 ==> (w | 0x8000_0000u32) == w) by (bit_vector);
    assert(w >= 0x8000_0000u32 ==> (w & !0x8000_0000u32) == w - 0x8000_0000u32) by (bit_vector);
    assert(w < 0x8000_0000u32 ==> (w & !0x8000_0000u32) == w) by (bit_vector);
}

/// The second component of a pair, moved out as it is.
pub(crate) fn second<A, B>(p: (A, B)) -> (r: B)
    ensures
        r == p.1,
{
    p.1
}

/// A handle to a value of a [`SurottoMap`]: the index of its slot and the
/// slot's stamp (occupied bit and generation) when the handle was issued.
#[derive(Debug, Clone, Copy, PartialEq, Eq, Structural)]
pub struct Key {
    pub index: usize,
    pub version: u32,
}

/// One cell of the backing array.
pub(crate) struct Slot<T> {
    /// The stored value; present exactly while the slot is occupied.
    pub(crate) val: Option<T>,
    /// Occupied bit (high bit) and generation (the other bits).
    pub(crate) version: u32,
    /// While free: `0` for "grow the array", `n` for "next free slot is `n - 1`".
    pub(crate) next_free: usize,
}

impl<T> Slot<T> {
    /// The value is present exactly while the occupied bit is set, and an
    /// occupied slot is never at the last generation.
    pub open(crate) spec fn wf(&self) -> bool {
        &&& self.val.is_some() == is_occupied(self.version)
        &&& is_occupied(self.version) ==> generation(self.version) < LAST_GENERATION
    }
}

/// The live entries of `slots`, in index order, each with its key; the
/// first slot of `slots` has index `base`.
#[allow(private_interfaces)]
pub open(crate) spec fn live_at<T>(slots: Seq<Slot<T>>, base: int) -> Seq<(Key, T)>
    decreases slots.len(),
{
    if slots.len() == 0 {
        seq![]
    } else {
        let rest = live_at(slots.drop_first(), base + 1);
        if is_occupied(slots[0].version) {
            seq![(Key { index: base as usize, version: slots[0].version }, slots[0].val.unwrap())]
                + rest
        } else {
            rest
        }
    }
}

/// Every slot of `slots` is well formed.
#[allow(private_interfaces)]
pub open(crate) spec fn slots_wf<T>(slots: Seq<Slot<T>>) -> bool {
    forall|i: int| 0 <= i < slots.len() ==> (#[trigger] slots[i]).wf()
}

/// A generational slot map.
pub struct SurottoMap<T> {
    inner: Vec<Slot<T>>,
    /// Head of the free list, in the same encoding as `Slot::next_free`.
    next_free: usize,
    len: usize,
    /// The keys that currently resolve.
    live: Ghost<Set<Key>>,
    /// Every key this map has handed out.
    issued: Ghost<Set<Key>>,
    /// The free list, from its head, as slot indices.
    free: Ghost<Seq<nat>>,
}

impl<T> View for SurottoMap<T> {
    type V = Map<Key, T>;

    /// The live entries: each valid key with the value it resolves to.
    closed spec fn view(&self) -> Map<Key, T> {
        Map::new(|k: Key| self.live@.contains(k), |k: Key| self.inner@[k.index as int].val.unwrap())
    }
}

impl<T> SurottoMap<T> {
    /// The keys of the view are the live keys, and each resolves to its slot's value.
    proof fn lemma_view(&self)
        ensures
            self@.dom() == self.live@,
            forall|k: Key| #[trigger] self@.contains_key(k) ==> self@[k] == self.inner@[k.index as int].val.unwrap(),
    {
        assert(self@.dom() =~= self.live@);
    }

    /// The live entries in ascending index order, each with its key.
    pub open(crate) spec fn entries(&self) -> Seq<(Key, T)> {
        live_at(self.inner@, 0)
    }

    /// Every live key has been issued.
    pub proof fn lemma_live_issued(&self)
        requires
            self.wf(),
        ensures
            self@.dom().subset_of(self.issued()),
    {
        self.lemma_view();
    }

    /// There are never more live keys than slots, and fewer when a slot is
    /// free.
    pub proof fn lemma_len_bound(&self)
        requires
            self.wf(),
        ensures
            self@.len() <= self.slot_count(),
            (exists|p: int| 0 <= p < self.slot_count() && !is_occupied(#[trigger] self.slot_version(p)))
                ==> self@.len() < self.slot_count(),
    {
        self.lemma_view();
        let n = self.inner@.len() as int;
        let g = |k: Key| k.index as int;
        let occ = Set::new(|i: int| 0 <= i < n && is_occupied(self.inner@[i].version));
        let img = self.live@.map(g);
        assert forall|a: Key, b: Key|
            self.live@.contains(a) && self.live@.contains(b) && #[trigger] g(a) == #[trigger] g(b)
            implies a == b by {
            assert(self.valid_key(a) && self.valid_key(b));
        }
        assert(vstd::relations::injective_on(g, self.live@));
        vstd::set_lib::lemma_map_size(self.live@, img, g);
        assert(img.subset_of(occ)) by {
            assert forall|i: int| img.contains(i) implies occ.contains(i) by {
                let k = choose|k: Key| self.live@.contains(k) && g(k) == i;
                assert(self.valid_key(k));
            }
        }
        let range = Set::new(|i: int| 0 <= i < n);
        vstd::set_lib::lemma_int_range(0, n);
        assert(range =~= vstd::set_lib::set_int_range(0, n));
        assert(occ.subset_of(range));
        vstd::set_lib::lemma_len_subset(occ, range);
        vstd::set_lib::lemma_len_subset(img, occ);
        if exists|p: int| 0 <= p < self.slot_count() && !is_occupied(#[trigger] self.slot_version(p)) {
            let p = choose|p: int| 0 <= p < self.slot_count() && !is_occupied(#[trigger] self.slot_version(p));
            assert(occ.subset_of(range.remove(p)));
            vstd::set_lib::lemma_len_subset(occ, range.remove(p));
        }
    }

    /// The number of slots, free ones included.
    pub open(crate) spec fn slot_count(&self) -> nat {
        self.inner@.len()
    }

    /// The state word of slot `i`.
    pub open(crate) spec fn slot_version(&self, i: int) -> u32 {
        self.inner@[i].version
    }

    /// The free list, from its head, as slot indices.
    pub open(crate) spec fn free_list(&self) -> Seq<nat> {
        self.free@
    }

    /// Every key this map has ever handed out.
    pub open(crate) spec fn issued(&self) -> Set<Key> {
        self.issued@
    }

    /// Keys once issued that no longer resolve; none of them ever resolves again.
    pub open(crate) spec fn dead(&self) -> Set<Key> {
        self.issued().difference(self@.dom())
    }

    /// A key is valid when its index is in range, the slot is occupied and
    /// the slot's state word equals the key's stamp.
    pub open(crate) spec fn valid_key(&self, k: Key) -> bool {
        &&& k.index < self.inner@.len()
        &&& is_occupied(self.inner@[k.index as int].version)
        &&& self.inner@[k.index as int].version == k.version
    }

    /// An issued key never has a later generation than its slot, and when
    /// it has the slot's generation it is the slot's current stamp.
    pub open(crate) spec fn issued_ok(&self, k: Key) -> bool {
        &&& k.index < self.inner@.len()
        &&& is_occupied(k.version)
        &&& generation(k.version) <= generation(self.inner@[k.index as int].version)
        &&& generation(k.version) == generation(self.inner@[k.index as int].version)
            ==> self.inner@[k.index as int].version == k.version
    }

    /// Slot `i` is free and may be handed out again.
    pub open(crate) spec fn reusable(&self, i: int) -> bool {
        &&& !is_occupied(self.inner@[i].version)
        &&& self.inner@[i].version < LAST_GENERATION
    }

    /// The link that follows position `j` of the free list.
    pub open(crate) spec fn link_after(&self, j: int) -> int {
        if j + 1 < self.free@.len() {
            self.free@[j + 1] + 1int
        } else {
            0
        }
    }

    pub open(crate) spec fn free_list_ok(&self) -> bool {
        &&& self.free@.no_duplicates()
        &&& forall|j: int|
            0 <= j < self.free@.len() ==> {
                &&& #[trigger] self.free@[j] < self.inner@.len()
                &&& self.reusable(self.free@[j] as int)
                &&& self.inner@[self.free@[j] as int].next_free == self.link_after(j)
            }
        &&& self.next_free == (if self.free@.len() == 0 {
            0
        } else {
            self.free@[0] + 1int
        })
        &&& forall|i: int|
            0 <= i < self.inner@.len() && #[trigger] self.reusable(i) ==> self.free@.contains(
                i as nat,
            )
    }

    /// Well-formedness: slots agree with the live entries, the issued keys
    /// and the free list.
    pub open(crate) spec fn wf(&self) -> bool {
        &&& forall|i: int| 0 <= i < self.inner@.len() ==> (#[trigger] self.inner@[i]).wf()
        &&& forall|k: Key| #[trigger] self.live@.contains(k) <==> self.valid_key(k)
        &&& self.live@.finite()
        &&& self.len == self.live@.len()
        &&& self.live@.subset_of(self.issued@)
        &&& forall|k: Key| #[trigger] self.issued@.contains(k) ==> self.issued_ok(k)
        &&& self.free_list_ok()
    }

    /// An empty map that has not allocated.
    pub fn new() -> (r: Self)
        ensures
            r.wf(),
            r@ == Map::<Key, T>::empty(),
            r.issued() == Set::<Key>::empty(),
            r.slot_count() == 0,
            r.free_list() == Seq::<nat>::empty(),
    {
        let r = SurottoMap {
            inner: Vec::new(),
            next_free: 0,
            len: 0,
            live: Ghost(Set::empty()),
            issued: Ghost(Set::empty()),
            free: Ghost(Seq::empty()),
        };
        proof {
            assert(r@ =~= Map::<Key, T>::empty());
        }
        r
    }

    /// An empty map with `capacity` free slots chained in ascending order, so
    /// that the first `capacity` inserts take slots `0, 1, 2, ...`.
    pub fn with_capacity(capacity: usize) -> (r: Self)
        ensures
            r.wf(),
            r@ == Map::<Key, T>::empty(),
            r.issued() == Set::<Key>::empty(),
            r.slot_count() == capacity,
            r.free_list() == Seq::new(capacity as nat, |i: int| i as nat),
            forall|i: int| 0 <= i < capacity ==> #[trigger] r.slot_version(i) == SUROTTO_FREE,
    {
        if capacity == 0 {
            let r = Self::new();
            proof {
                assert(r.free_list() =~= Seq::new(capacity as nat, |i: int| i as nat));
            }
            return r;
        }
        let mut inner: Vec<Slot<T>> = Vec::with_capacity(capacity);
        let mut i: usize = 0;
        while i < capacity - 1
            invariant
                0 < capacity,
                i < capacity,
                inner@.len() == i,
                forall|j: int|
                    0 <= j < i ==> {
                        &&& (#[trigger] inner@[j]).val is None
                        &&& inner@[j].version == SUROTTO_FREE
                        &&& inner@[j].next_free == j + 2
                    },
            decreases capacity - i,
        {
            inner.push(Slot { val: None, version: SUROTTO_FREE, next_free: i + 2 });
            i = i + 1;
        }
        inner.push(Slot { val: None, version: SUROTTO_FREE, next_free: 0 });
        let ghost free = Seq::new(capacity as nat, |i: int| i as nat);
        let r = SurottoMap {
            inner,
            next_free: 1,
            len: 0,
            live: Ghost(Set::empty()),
            issued: Ghost(Set::empty()),
            free: Ghost(free),
        };
        proof {
            assert forall|a: int, b: int|
                0 <= a < free.len() && 0 <= b < free.len() && a != b implies free[a] != free[b] by {}
            assert forall|j: int| 0 <= j < r.inner@.len() && #[trigger] r.reusable(j)
                implies r.free@.contains(j as nat) by {
                assert(r.free@[j] == j as nat);
            }
            assert forall|k: Key| #[trigger] r.live@.contains(k) <==> r.valid_key(k) by {}
            r.lemma_view();
            assert(r@ =~= Map::<Key, T>::empty());
        }
        r
    }

    /// Whether no key currently resolves.
    pub fn is_empty(&self) -> (r: bool)
        requires
            self.wf(),
        ensures
            r == (self@.len() == 0),
    {
        proof {
            self.lemma_view();
        }
        self.len == 0
    }

    /// The number of keys that currently resolve.
    pub fn len(&self) -> (r: usize)
        requires
            self.wf(),
        ensures
            r == self@.len(),
            r <= self.slot_count(),
    {
        proof {
            self.lemma_view();
            self.lemma_len_bound();
        }
        self.len
    }

    /// The number of slots in the backing array, free ones included.
    pub fn big_len(&self) -> (r: usize)
        ensures
            r == self.slot_count(),
    {
        self.inner.len()
    }

    /// The number of slots the backing array can hold without reallocating.
    pub fn capacity(&self) -> (r: usize)
        ensures
            r >= self.slot_count(),
    {
        crate::simple::vec_capacity(&self.inner)
    }

    /// Returns `true` if the key names an occupied slot whose stamp equals the key's.
    pub fn validate_key(&self, key: Key) -> (r: bool)
        requires
            self.wf(),
        ensures
            r == self@.contains_key(key),
    {
        self.stamp_matches(key)
    }

    /// The key check on its own, for states in which the map is not well formed.
    fn stamp_matches(&self, key: Key) -> (r: bool)
        ensures
            r == self.valid_key(key),
    {
        if key.index < self.inner.len() {
            let word = self.inner[key.index].version;
            proof {
                lemma_state_word(word);
            }
            (word | SUROTTO_OCCUPIED) == key.version && (word & SUROTTO_OCCUPIED) != 0
        } else {
            false
        }
    }

    /// Stores `val` and returns the key that reaches it. The head of the free
    /// list is reused if there is one; otherwise a slot is appended.
    pub fn insert(&mut self, val: T) -> (key: Key)
        requires
            old(self).wf(),
            old(self)@.len() < usize::MAX,
        ensures
            final(self).wf(),
            final(self)@ == old(self)@.insert(key, val),
            !old(self).issued().contains(key),
            final(self).issued() == old(self).issued().insert(key),
            old(self).free_list().len() == 0 ==> {
                &&& key.index == old(self).slot_count()
                &&& key.version == SUROTTO_OCCUPIED
                &&& final(self).slot_count() == old(self).slot_count() + 1
                &&& final(self).free_list() == old(self).free_list()
            },
            old(self).free_list().len() > 0 ==> {
                &&& key.index == old(self).free_list()[0]
                &&& key.version == old(self).slot_version(key.index as int) + SUROTTO_OCCUPIED
                &&& final(self).slot_count() == old(self).slot_count()
                &&& final(self).free_list() == old(self).free_list().drop_first()
            },
    {
        if self.next_free == 0 {
            self.insert_appending(val)
        } else {
            self.insert_reusing(val)
        }
    }

    /// Appends a new slot holding `val`, at generation zero.
    fn insert_appending(&mut self, val: T) -> (key: Key)
        requires
            old(self).wf(),
            old(self)@.len() < usize::MAX,
            old(self).free_list().len() == 0,
        ensures
            final(self).wf(),
            final(self)@ == old(self)@.insert(key, val),
            !old(self).issued().contains(key),
            final(self).issued() == old(self).issued().insert(key),
            key.index == old(self).slot_count(),
            key.version == SUROTTO_OCCUPIED,
            final(self).slot_count() == old(self).slot_count() + 1,
            final(self).free_list() == old(self).free_list(),
    {
        let ghost pre = *self;
        let ghost v = val;
        proof {
            pre.lemma_view();
        }
        let pos = self.inner.len();
        self.inner.push(Slot { val: Some(val), version: SUROTTO_OCCUPIED, next_free: 0 });
        self.len = self.len + 1;
        let key = Key { index: pos, version: SUROTTO_OCCUPIED };
        proof {
            assert(!pre.issued@.contains(key)) by {
                if pre.issued@.contains(key) {
                    assert(pre.issued_ok(key));
                }
            }
            assert(!pre.live@.contains(key));
            self.live@ = self.live@.insert(key);
            self.issued@ = self.issued@.insert(key);
            assert forall|k: Key| #[trigger] self.live@.contains(k) <==> self.valid_key(k) by {
                if k.index != pos {
                    assert(pre.valid_key(k) == self.valid_key(k));
                }
            }
            assert forall|k: Key| #[trigger] self.issued@.contains(k) implies self.issued_ok(k) by {
                if k != key {
                    assert(pre.issued_ok(k));
                }
            }
            assert forall|i: int| 0 <= i < self.inner@.len() && #[trigger] self.reusable(i)
                implies self.free@.contains(i as nat) by {
                assert(pre.reusable(i));
            }
            assert forall|j: int| 0 <= j < self.free@.len() implies {
                &&& #[trigger] self.free@[j] < self.inner@.len()
                &&& self.reusable(self.free@[j] as int)
                &&& self.inner@[self.free@[j] as int].next_free == self.link_after(j)
            } by {
                assert(pre.reusable(pre.free@[j] as int));
            }
            self.lemma_view();
            assert(self@ =~= pre@.insert(key, v));
        }
        key
    }

    /// Puts `val` in the slot at the head of the free list, which keeps its
    /// generation and becomes occupied.
    fn insert_reusing(&mut self, val: T) -> (key: Key)
        requires
            old(self).wf(),
            old(self)@.len() < usize::MAX,
            old(self).free_list().len() > 0,
        ensures
            final(self).wf(),
            final(self)@ == old(self)@.insert(key, val),
            !old(self).issued().contains(key),
            final(self).issued() == old(self).issued().insert(key),
            key.index == old(self).free_list()[0],
            key.version == old(self).slot_version(key.index as int) + SUROTTO_OCCUPIED,
            final(self).slot_count() == old(self).slot_count(),
            final(self).free_list() == old(self).free_list().drop_first(),
    {
        let ghost pre = *self;
        let ghost v = val;
        proof {
            pre.lemma_view();
        }
        let pos = self.next_free - 1;
        proof {
            assert(self.free@.contains(pos as nat));
            assert(self.free@[0] == pos);
        }
        let word = self.inner[pos].version;
        let link = self.inner[pos].next_free;
        proof {
            lemma_state_word(word);
        }
        let stamp = word | SUROTTO_OCCUPIED;
        self.inner.set(pos, Slot { val: Some(val), version: stamp, next_free: link });
        self.next_free = link;
        self.len = self.len + 1;
        let key = Key { index: pos, version: stamp };
        proof {
            assert(!pre.issued@.contains(key)) by {
                if pre.issued@.contains(key) {
                    assert(pre.issued_ok(key));
                }
            }
            assert(!pre.live@.contains(key));
            self.live@ = self.live@.insert(key);
            self.issued@ = self.issued@.insert(key);
            self.free@ = self.free@.drop_first();
            assert forall|k: Key| #[trigger] self.live@.contains(k) <==> self.valid_key(k) by {
                if k.index != pos {
                    assert(pre.valid_key(k) == self.valid_key(k));
                }
            }
            assert forall|k: Key| #[trigger] self.issued@.contains(k) implies self.issued_ok(k) by {
                if k != key {
                    assert(pre.issued_ok(k));
                }
            }
            self.lemma_pop_free(pre, pos as int);
            self.lemma_view();
            assert(self@ =~= pre@.insert(key, v));
        }
        key
    }

    /// Taking the head of the free list into use leaves the rest of the list
    /// well formed.
    proof fn lemma_pop_free(&self, pre: Self, pos: int)
        requires
            pre.wf(),
            pre.free@.len() > 0,
            pos == pre.free@[0],
            self.inner@.len() == pre.inner@.len(),
            forall|t: int| 0 <= t < pre.inner@.len() && t != pos ==> self.inner@[t] == pre.inner@[t],
            is_occupied(self.inner@[pos].version),
            self.free@ == pre.free@.drop_first(),
            self.next_free == pre.inner@[pos].next_free,
        ensures
            self.free_list_ok(),
    {
        assert forall|j: int| 0 <= j < self.free@.len() implies {
            &&& #[trigger] self.free@[j] < self.inner@.len()
            &&& self.reusable(self.free@[j] as int)
            &&& self.inner@[self.free@[j] as int].next_free == self.link_after(j)
        } by {
            assert(self.free@[j] == pre.free@[j + 1]);
            assert(pre.free@[j + 1] < pre.inner@.len());
            assert(pre.reusable(pre.free@[j + 1] as int));
            assert(pre.free@[j + 1] != pre.free@[0]);
        }
        assert forall|i: int| 0 <= i < self.inner@.len() && #[trigger] self.reusable(i)
            implies self.free@.contains(i as nat) by {
            assert(pre.reusable(i));
            assert(i != pos);
            let j = choose|j: int| 0 <= j < pre.free@.len() && pre.free@[j] == i as nat;
            assert(j != 0);
            assert(self.free@[j - 1] == i as nat);
        }
        assert(pre.link_after(0) == pre.inner@[pos].next_free);
    }

    /// Whether removing a value at generation `g` retires its slot.
    pub open spec fn retires(g: int) -> bool {
        g + 1 >= LAST_GENERATION
    }

    /// Takes out the value that `key` reaches, if it is valid. Its slot moves
    /// to the next generation and goes to the head of the free list, unless
    /// that generation is the last one, in which case the slot is retired.
    #[verifier::rlimit(40)]
    pub fn remove(&mut self, key: Key) -> (r: Option<T>)
        requires
            old(self).wf(),
        ensures
            final(self).wf(),
            final(self).issued() == old(self).issued(),
            final(self).slot_count() == old(self).slot_count(),
            old(self)@.contains_key(key) ==> {
                &&& r == Some(old(self)@[key])
                &&& final(self)@ == old(self)@.remove(key)
                &&& final(self).slot_version(key.index as int) == key.version - SUROTTO_OCCUPIED + 1
                &&& final(self).free_list() == if Self::retires(generation(key.version)) {
                    old(self).free_list()
                } else {
                    seq![key.index as nat] + old(self).free_list()
                }
            },
            !old(self)@.contains_key(key) ==> r is None && *final(self) == *old(self),
    {
        if !self.validate_key(key) {
            return None;
        }
        let ghost pre = *self;
        proof {
            pre.lemma_view();
        }
        let idx = key.index;
        let slots = self.inner.len();
        assert(idx < slots);
        let word = self.inner[idx].version;
        proof {
            lemma_state_word(word);
            lemma_state_word((word + 1) as u32);
        }
        let freed = (word + 1) & !SUROTTO_OCCUPIED;
        let retire = freed >= LAST_GENERATION;
        let link = if retire { 0 } else { self.next_free };
        let mut taken = Slot { val: None, version: freed, next_free: link };
        self.inner.set_and_swap(idx, &mut taken);
        if !retire {
            self.next_free = idx + 1;
        }
        self.len = self.len - 1;
        proof {
            self.live@ = self.live@.remove(key);
            if !retire {
                self.free@ = seq![idx as nat] + self.free@;
                assert(!pre.free@.contains(idx as nat)) by {
                    if pre.free@.contains(idx as nat) {
                        let j = choose|j: int| 0 <= j < pre.free@.len() && pre.free@[j] == idx as nat;
                        assert(pre.reusable(pre.free@[j] as int));
                    }
                }
                assert forall|j: int| 0 <= j < self.free@.len() implies {
                    &&& #[trigger] self.free@[j] < self.inner@.len()
                    &&& self.reusable(self.free@[j] as int)
                    &&& self.inner@[self.free@[j] as int].next_free == self.link_after(j)
                } by {
                    if j > 0 {
                        assert(self.free@[j] == pre.free@[j - 1]);
                        assert(pre.free@[j - 1] < pre.inner@.len());
                        assert(pre.reusable(pre.free@[j - 1] as int));
                        assert(pre.inner@[pre.free@[j - 1] as int].next_free == pre.link_after(j - 1));
                    }
                }
                assert forall|i: int| 0 <= i < self.inner@.len() && #[trigger] self.reusable(i)
                    implies self.free@.contains(i as nat) by {
                    if i != idx {
                        assert(pre.reusable(i));
                        let j = choose|j: int| 0 <= j < pre.free@.len() && pre.free@[j] == i as nat;
                        assert(self.free@[j + 1] == i as nat);
                    } else {
                        assert(self.free@[0] == i as nat);
                    }
                }
            } else {
                assert forall|j: int| 0 <= j < self.free@.len() implies {
                    &&& #[trigger] self.free@[j] < self.inner@.len()
                    &&& self.reusable(self.free@[j] as int)
                    &&& self.inner@[self.free@[j] as int].next_free == self.link_after(j)
                } by {
                    assert(pre.reusable(pre.free@[j] as int));
                }
                assert forall|i: int| 0 <= i < self.inner@.len() && #[trigger] self.reusable(i)
                    implies self.free@.contains(i as nat) by {
                    assert(pre.reusable(i));
                }
            }
            assert forall|k: Key| #[trigger] self.live@.contains(k) <==> self.valid_key(k) by {
                if k.index != idx {
                    assert(pre.valid_key(k) == self.valid_key(k));
                }
            }
            assert forall|k: Key| #[trigger] self.issued@.contains(k) implies self.issued_ok(k) by {
                assert(pre.issued_ok(k));
            }
            self.lemma_view();
            assert(self@ =~= pre@.remove(key));
        }
        taken.val
    }

    /// The value that `key` reaches, if it is valid.
    pub fn get(&self, key: Key) -> (r: Option<&T>)
        requires
            self.wf(),
        ensures
            r == (if self@.contains_key(key) {
                Some(&self@[key])
            } else {
                None
            }),
    {
        proof {
            self.lemma_view();
        }
        if self.validate_key(key) {
            self.inner[key.index].val.as_ref()
        } else {
            None
        }
    }

    /// The value that `key` reaches, for a caller that knows the key is valid.
    pub fn get_unchecked(&self, key: Key) -> (r: &T)
        requires
            self.wf(),
            self@.contains_key(key),
        ensures
            *r == self@[key],
    {
        proof {
            self.lemma_view();
        }
        self.inner[key.index].val.as_ref().unwrap()
    }

    /// A mutable reference to the value that `key` reaches, for a caller that
    /// knows the key is valid.
    pub fn get_unchecked_mut(&mut self, key: Key) -> (r: &mut T)
        requires
            old(self).wf(),
            old(self)@.contains_key(key),
        ensures
            *r == old(self)@[key],
            final(self).wf(),
            final(self)@ == old(self)@.insert(key, *final(r)),
            final(self).issued() == old(self).issued(),
            final(self).free_list() == old(self).free_list(),
            final(self).slot_count() == old(self).slot_count(),
    {
        proof {
            self.lemma_view();
            self.lemma_value_update(key.index as int);
        }
        let slot = &mut self.inner[key.index];
        slot.val.as_mut().unwrap()
    }

    /// A mutable reference to the value that `key` reaches, if it is valid.
    /// Whatever is written through it is what the key then reaches.
    pub fn get_mut(&mut self, key: Key) -> (r: Option<&mut T>)
        requires
            old(self).wf(),
        ensures
            old(self)@.contains_key(key) ==> r is Some && *r.unwrap() == old(self)@[key],
            old(self)@.contains_key(key) ==> final(self).issued() == old(self).issued()
                && final(self).free_list() == old(self).free_list()
                && final(self).slot_count() == old(self).slot_count(),
            old(self)@.contains_key(key) ==> final(self).wf(),
            old(self)@.contains_key(key) ==> final(self)@ == old(self)@.insert(key, *final(r.unwrap())),
            !old(self)@.contains_key(key) ==> r is None && *final(self) == *old(self),
    {
        if !self.validate_key(key) {
            return None;
        }
        proof {
            self.lemma_view();
            self.lemma_value_update(key.index as int);
        }
        let slot = &mut self.inner[key.index];
        slot.val.as_mut()
    }

    /// Replacing the value of an occupied slot by another value keeps the map well formed.
    proof fn lemma_value_update(&self, i: int)
        requires
            self.wf(),
            0 <= i < self.inner@.len(),
            is_occupied(self.inner@[i].version),
        ensures
            forall|m: Self|
                {
                    &&& m.inner@.len() == self.inner@.len()
                    &&& m.inner@[i].val is Some
                    &&& m.inner@[i].version == self.inner@[i].version
                    &&& m.inner@[i].next_free == self.inner@[i].next_free
                    &&& forall|j: int| 0 <= j < self.inner@.len() && j != i ==> m.inner@[j] == self.inner@[j]
                    &&& m.next_free == self.next_free
                    &&& m.len == self.len
                    &&& m.live == self.live
                    &&& m.issued == self.issued
                    &&& m.free == self.free
                } ==> #[trigger] m.wf(),
    {
        assert forall|m: Self|
            {
                &&& m.inner@.len() == self.inner@.len()
                &&& m.inner@[i].val is Some
                &&& m.inner@[i].version == self.inner@[i].version
                &&& m.inner@[i].next_free == self.inner@[i].next_free
                &&& forall|j: int| 0 <= j < self.inner@.len() && j != i ==> m.inner@[j] == self.inner@[j]
                &&& m.next_free == self.next_free
                &&& m.len == self.len
                &&& m.live == self.live
                &&& m.issued == self.issued
                &&& m.free == self.free
            } implies #[trigger] m.wf() by {
            assert forall|k: Key| #[trigger] m.live@.contains(k) <==> m.valid_key(k) by {
                assert(self.valid_key(k) == m.valid_key(k));
            }
            assert forall|k: Key| #[trigger] m.issued@.contains(k) implies m.issued_ok(k) by {
                assert(self.issued_ok(k));
            }
            assert forall|j: int| 0 <= j < m.free@.len() implies {
                &&& #[trigger] m.free@[j] < m.inner@.len()
                &&& m.reusable(m.free@[j] as int)
                &&& m.inner@[m.free@[j] as int].next_free == m.link_after(j)
            } by {
                assert(self.reusable(self.free@[j] as int));
            }
            assert forall|j: int| 0 <= j < m.inner@.len() && #[trigger] m.reusable(j)
                implies m.free@.contains(j as nat) by {
                assert(self.reusable(j));
            }
        }
    }

    /// Replacing the values of occupied slots by other values keeps the map
    /// well formed, with the same keys, each reaching its slot's new value.
    proof fn lemma_values_replaced(&self)
        requires
            self.wf(),
        ensures
            forall|m: Self|
                {
                    &&& m.inner@.len() == self.inner@.len()
                    &&& forall|t: int|
                        0 <= t < self.inner@.len() ==> {
                            &&& (#[trigger] m.inner@[t]).val is Some == self.inner@[t].val is Some
                            &&& m.inner@[t].version == self.inner@[t].version
                            &&& m.inner@[t].next_free == self.inner@[t].next_free
                        }
                    &&& m.next_free == self.next_free
                    &&& m.len == self.len
                    &&& m.live == self.live
                    &&& m.issued == self.issued
                    &&& m.free == self.free
                } ==> {
                    &&& #[trigger] m.wf()
                    &&& m@.dom() == self@.dom()
                    &&& forall|k: Key|
                        #[trigger] m@.contains_key(k) ==> m@[k] == m.inner@[k.index as int].val.unwrap()
                },
    {
        assert forall|m: Self|
            {
                &&& m.inner@.len() == self.inner@.len()
                &&& forall|t: int|
                    0 <= t < self.inner@.len() ==> {
                        &&& (#[trigger] m.inner@[t]).val is Some == self.inner@[t].val is Some
                        &&& m.inner@[t].version == self.inner@[t].version
                        &&& m.inner@[t].next_free == self.inner@[t].next_free
                    }
                &&& m.next_free == self.next_free
                &&& m.len == self.len
                &&& m.live == self.live
                &&& m.issued == self.issued
                &&& m.free == self.free
            } implies {
                &&& #[trigger] m.wf()
                &&& m@.dom() == self@.dom()
                &&& forall|k: Key|
                    #[trigger] m@.contains_key(k) ==> m@[k] == m.inner@[k.index as int].val.unwrap()
            } by {
            assert forall|k: Key| #[trigger] m.live@.contains(k) <==> m.valid_key(k) by {
                assert(self.valid_key(k) == m.valid_key(k));
            }
            assert forall|k: Key| #[trigger] m.issued@.contains(k) implies m.issued_ok(k) by {
                assert(self.issued_ok(k));
            }
            assert forall|j: int| 0 <= j < m.free@.len() implies {
                &&& #[trigger] m.free@[j] < m.inner@.len()
                &&& m.reusable(m.free@[j] as int)
                &&& m.inner@[m.free@[j] as int].next_free == m.link_after(j)
            } by {
                assert(self.reusable(self.free@[j] as int));
            }
            assert forall|j: int| 0 <= j < m.inner@.len() && #[trigger] m.reusable(j)
                implies m.free@.contains(j as nat) by {
                assert(self.reusable(j));
            }
            m.lemma_view();
            self.lemma_view();
        }
    }

    /// Splits `slots` into one mutable reference per slot, to its value when
    /// it holds one. What is written through them is what the slots then hold.
    fn value_refs_mut<'a>(slots: &'a mut [Slot<T>]) -> (cells: Vec<Option<&'a mut T>>)
        ensures
            cells@.len() == old(slots)@.len(),
            final(slots)@.len() == old(slots)@.len(),
            forall|t: int|
                #![trigger cells@[t]]
                #![trigger final(slots)@[t]]
                0 <= t < cells@.len() ==> {
                    &&& cells@[t] is Some == old(slots)@[t].val is Some
                    &&& cells@[t] is Some ==> *cells@[t].unwrap() == old(slots)@[t].val.unwrap()
                    &&& final(slots)@[t].version == old(slots)@[t].version
                    &&& final(slots)@[t].next_free == old(slots)@[t].next_free
                    &&& final(slots)@[t].val == if cells@[t] is Some {
                        Some(*final(cells@[t].unwrap()))
                    } else {
                        None
                    }
                },
    {
        let ghost n = slots@.len();
        let ghost orig = slots@;
        let mut cells: Vec<Option<&'a mut T>> = Vec::new();
        let mut rest = slots;
        while rest.len() > 0
            invariant
                cells@.len() + rest@.len() == n,
                orig == old(slots)@,
                n == orig.len(),
                rest@ == orig.subrange(cells@.len() as int, n as int),
                final(slots)@.len() == cells@.len() + final(rest)@.len(),
                forall|t: int|
                    0 <= t < cells@.len() ==> {
                        &&& (#[trigger] cells@[t]) is Some == orig[t].val is Some
                        &&& cells@[t] is Some ==> *cells@[t].unwrap() == orig[t].val.unwrap()
                        &&& final(slots)@[t].version == orig[t].version
                        &&& final(slots)@[t].next_free == orig[t].next_free
                        &&& final(slots)@[t].val == if cells@[t] is Some {
                            Some(*final(cells@[t].unwrap()))
                        } else {
                            None
                        }
                    },
                forall|t: int|
                    0 <= t < final(rest)@.len() ==> final(slots)@[cells@.len() + t] == #[trigger] final(rest)@[t],
            decreases rest@.len(),
        {
            let (cell, tail) = Self::split_first_value(rest);
            rest = tail;
            cells.push(cell);
        }
        proof {
            assert(final(rest)@ == rest@);
        }
        cells
    }

    /// Splits the first slot off `slots`, as a mutable reference to its value
    /// when it holds one.
    fn split_first_value<'a>(slots: &'a mut [Slot<T>]) -> (r: (Option<&'a mut T>, &'a mut [Slot<T>]))
        requires
            old(slots)@.len() > 0,
        ensures
            r.1@ == old(slots)@.drop_first(),
            r.0 is Some == old(slots)@[0].val is Some,
            r.0 is Some ==> *r.0.unwrap() == old(slots)@[0].val.unwrap(),
            final(slots)@.len() == final(r.1)@.len() + 1,
            final(slots)@[0].version == old(slots)@[0].version,
            final(slots)@[0].next_free == old(slots)@[0].next_free,
            final(slots)@[0].val == if r.0 is Some {
                Some(*final(r.0.unwrap()))
            } else {
                None
            },
            final(slots)@.drop_first() == final(r.1)@,
    {
        let (head, tail) = slots.split_at_mut(1);
        let slot = head.first_mut().unwrap();
        (slot.val.as_mut(), tail)
    }

    /// One mutable reference per slot, to its value when it holds one; each
    /// live key then reaches whatever is written through its slot's reference.
    fn value_refs(&mut self) -> (cells: Vec<Option<&mut T>>)
        requires
            old(self).wf(),
        ensures
            final(self).wf(),
            final(self).issued() == old(self).issued(),
            final(self).free_list() == old(self).free_list(),
            final(self).slot_count() == old(self).slot_count(),
            final(self)@.dom() == old(self)@.dom(),
            cells@.len() == old(self).slot_count(),
            forall|k: Key|
                #[trigger] old(self)@.contains_key(k) ==> {
                    &&& cells@[k.index as int] is Some
                    &&& *cells@[k.index as int].unwrap() == old(self)@[k]
                    &&& final(self)@[k] == *final(cells@[k.index as int].unwrap())
                },
            forall|t: int|
                0 <= t < cells@.len() && (#[trigger] cells@[t]) is Some ==> is_occupied(
                    old(self).slot_version(t),
                ),
    {
        proof {
            assert forall|t: int| 0 <= t < self.inner@.len() implies #[trigger] self.inner@[t].wf() by {}
            self.lemma_values_replaced();
            self.lemma_view();
        }
        Self::value_refs_mut(self.inner.as_mut_slice())
    }

    /// The live entries with their keys, in ascending index order.
    pub fn iter(&self) -> (r: Iter<'_, T>)
        requires
            self.wf(),
        ensures
            r.wf(),
            r.remaining() == self.entries(),
    {
        Iter::over(self.inner.as_slice())
    }

    /// The keys that currently resolve, in ascending index order.
    pub fn keys(&self) -> (r: Keys<'_, T>)
        requires
            self.wf(),
        ensures
            r.wf(),
            r.remaining() == self.entries().map_values(|e: (Key, T)| e.0),
    {
        Keys::over(self.iter())
    }

    /// The live values, in ascending index order of their slots.
    pub fn values(&self) -> (r: Values<'_, T>)
        requires
            self.wf(),
        ensures
            r.wf(),
            r.remaining() == self.entries().map_values(|e: (Key, T)| e.1),
    {
        Values::over(self.iter())
    }

    /// Consumes the map, handing out each live entry with its key, in
    /// ascending index order.
    pub fn into_iter(self) -> (r: IntoIter<T>)
        requires
            self.wf(),
        ensures
            r.wf(),
            r.remaining() == self.entries(),
    {
        IntoIter::over(self.inner)
    }

    /// The state words of all slots, in index order.
    fn versions(&self) -> (r: Vec<u32>)
        ensures
            r@.len() == self.inner@.len(),
            forall|t: int| 0 <= t < r@.len() ==> #[trigger] r@[t] == self.inner@[t].version,
    {
        let mut r: Vec<u32> = Vec::new();
        let n = self.inner.len();
        let mut i: usize = 0;
        while i < n
            invariant
                n == self.inner@.len(),
                i <= n,
                r@.len() == i,
                forall|t: int| 0 <= t < i ==> #[trigger] r@[t] == self.inner@[t].version,
            decreases n - i,
        {
            r.push(self.inner[i].version);
            i = i + 1;
        }
        r
    }

    /// The live entries with their keys and mutable references to their
    /// values, in ascending index order. What is written through a reference
    /// is what its key then reaches.
    pub fn iter_mut(&mut self) -> (r: IterMut<'_, T>)
        requires
            old(self).wf(),
        ensures
            final(self).wf(),
            final(self).issued() == old(self).issued(),
            final(self).free_list() == old(self).free_list(),
            final(self).slot_count() == old(self).slot_count(),
            final(self)@.dom() == old(self)@.dom(),
            r.wf(),
            r.remaining().len() == old(self).entries().len(),
            forall|i: int|
                0 <= i < r.remaining().len() ==> {
                    &&& (#[trigger] r.remaining()[i]).0 == old(self).entries()[i].0
                    &&& *r.remaining()[i].1 == old(self).entries()[i].1
                    &&& final(self)@[r.remaining()[i].0] == *final(r.remaining()[i].1)
                },
    {
        let versions = self.versions();
        let n = self.inner.len();
        let ghost pre = *self;
        proof {
            pre.lemma_view();
        }
        let cells = self.value_refs();
        proof {
            pre.lemma_iter_mut_start(cells@, versions@);
        }
        let r = IterMut { cells, versions, pos: 0 };
        proof {
            assert(r.cells@.subrange(0, n as int) =~= r.cells@);
            assert(r.versions@.subrange(0, n as int) =~= r.versions@);
        }
        r
    }

    /// The cells that `value_refs` hands out, with the state words, line up
    /// with the live entries.
    proof fn lemma_iter_mut_start<'s>(&self, cells: Seq<Option<&'s mut T>>, versions: Seq<u32>)
        requires
            self.wf(),
            cells.len() == self.slot_count(),
            versions.len() == self.slot_count(),
            self.slot_count() <= usize::MAX,
            forall|t: int| 0 <= t < versions.len() ==> #[trigger] versions[t] == self.inner@[t].version,
            forall|k: Key|
                #[trigger] self@.contains_key(k) ==> {
                    &&& cells[k.index as int] is Some
                    &&& *cells[k.index as int].unwrap() == self@[k]
                },
            forall|t: int| 0 <= t < cells.len() && (#[trigger] cells[t]) is Some ==> is_occupied(self.inner@[t].version),
        ensures
            ({
                let rem = iter_mut::pending_at(cells, versions, 0);
                &&& rem.len() == self.entries().len()
                &&& forall|i: int|
                    0 <= i < rem.len() ==> {
                        &&& (#[trigger] rem[i]).0 == self.entries()[i].0
                        &&& *rem[i].1 == self.entries()[i].1
                        &&& self@.contains_key(rem[i].0)
                        &&& rem[i].1 == cells[rem[i].0.index as int].unwrap()
                    }
            }),
    {
        self.lemma_view();
        let n = cells.len() as int;
        assert forall|t: int| 0 <= t < n implies {
            &&& (#[trigger] cells[t]) is Some == is_occupied(self.inner@[t].version)
            &&& versions[t] == self.inner@[t].version
            &&& cells[t] is Some ==> *cells[t].unwrap() == self.inner@[t].val.unwrap()
        } by {
            assert(self.inner@[t].wf());
            if is_occupied(self.inner@[t].version) {
                let k = Key { index: t as usize, version: self.inner@[t].version };
                assert(self.valid_key(k));
                assert(self@.contains_key(k));
            }
        }
        iter_mut::lemma_pending_matches(cells, versions, self.inner@, 0);
        let rem = iter_mut::pending_at(cells, versions, 0);
        assert forall|i: int| 0 <= i < rem.len() implies self@.contains_key((#[trigger] rem[i]).0) by {
            assert(self.valid_key(rem[i].0));
        }
    }

    /// Mutable references to the live values, in ascending index order of
    /// their slots.
    pub fn values_mut(&mut self) -> (r: ValuesMut<'_, T>)
        requires
            old(self).wf(),
        ensures
            final(self).wf(),
            final(self).issued() == old(self).issued(),
            final(self).free_list() == old(self).free_list(),
            final(self).slot_count() == old(self).slot_count(),
            final(self)@.dom() == old(self)@.dom(),
            r.wf(),
            r.remaining().len() == old(self).entries().len(),
            forall|i: int|
                0 <= i < r.remaining().len() ==> {
                    &&& *(#[trigger] r.remaining()[i]) == old(self).entries()[i].1
                    &&& final(self)@[old(self).entries()[i].0] == *final(r.remaining()[i])
                },
    {
        ValuesMut { inner: self.iter_mut() }
    }
}

} // verus!
