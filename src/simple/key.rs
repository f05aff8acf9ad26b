//! Keys of append-only arenas.
use vstd::prelude::*;

/// The payload of an append-only key: an index that is never `usize::MAX`,
/// so that `Option<Key>` costs no extra space.
pub use nonmax::NonMaxUsize as SimpleKeyData;

verus! {

/// A typed key for a [`SimpleSurotto`](crate::simple::SimpleSurotto).
///
/// A key type must belong to one arena alone: keys are only made by that
/// arena, for entries it holds, so that lookups need no `Option`.
pub trait SimpleKey: Sized + Clone + Copy {
    /// The index this key stands for: what `idx` returns. A verified
    /// implementation defines it; the body here only lets implementations
    /// written in plain Rust leave it out, and callers never see it.
    closed spec fn spec_idx(self) -> nat {
        0
    }

    /// Creates the key of index `idx`.
    fn new(idx: usize) -> (r: Self)
        requires
            idx < usize::MAX,
        ensures
            r.spec_idx() == idx,
    ;

    /// The index this key stands for.
    fn idx(self) -> (r: usize)
        ensures
            r == self.spec_idx(),
    ;
}

} // verus!
