//! Properties that relate several operations of a [`SurottoMap`].
use vstd::prelude::*;

use crate::{disjoint_keys, Key, SurottoMap};

verus! {

/// Right after `insert(v)` returns `key`, `get(key)` gives `v`: the map
/// after the insert reaches `v` through `key`.
pub proof fn insert_then_get<T>(before: SurottoMap<T>, after: SurottoMap<T>, key: Key, v: T)
    requires
        after@ == before@.insert(key, v),
    ensures
        after@.contains_key(key),
        after@[key] == v,
{
}

/// A successful `remove(key)` leaves `key` dead: issued once, resolving no more.
pub proof fn remove_kills_key<T>(before: SurottoMap<T>, after: SurottoMap<T>, key: Key)
    requires
        before.wf(),
        before@.contains_key(key),
        after@ == before@.remove(key),
        after.issued() == before.issued(),
    ensures
        after.dead().contains(key),
        !after@.contains_key(key),
{
    before.lemma_live_issued();
}

/// Inserting never revives a dead key: the key it issues was never issued before.
pub proof fn insert_keeps_dead_keys<T>(
    before: SurottoMap<T>,
    after: SurottoMap<T>,
    key: Key,
    v: T,
)
    requires
        after@ == before@.insert(key, v),
        !before.issued().contains(key),
        after.issued() == before.issued().insert(key),
    ensures
        before.dead().subset_of(after.dead()),
{
}

/// Removing never revives a dead key.
pub proof fn remove_keeps_dead_keys<T>(before: SurottoMap<T>, after: SurottoMap<T>, key: Key)
    requires
        after@ == before@.remove(key) || after@ == before@,
        after.issued() == before.issued(),
    ensures
        before.dead().subset_of(after.dead()),
{
}

/// Writing through references into a map keeps its keys, so never revives a dead key.
pub proof fn same_keys_keep_dead_keys<T>(before: SurottoMap<T>, after: SurottoMap<T>)
    requires
        after@.dom() == before@.dom(),
        after.issued() == before.issued(),
    ensures
        before.dead() == after.dead(),
{
}

/// A dead key resolves to nothing: `get`, `get_mut` and `remove` give `None` for it.
pub proof fn dead_key_resolves_nothing<T>(m: SurottoMap<T>, key: Key)
    requires
        m.dead().contains(key),
    ensures
        !m@.contains_key(key),
{
}

/// A key that `insert` hands out differs from every key issued before at
/// the same index, in its stamp.
pub proof fn fresh_stamp<T>(before: SurottoMap<T>, key: Key, old_key: Key)
    requires
        !before.issued().contains(key),
        before.issued().contains(old_key),
        old_key.index == key.index,
    ensures
        old_key.version != key.version,
{
}

/// Keys with a repeat are never disjoint, so a disjoint borrow of them fails.
pub proof fn repeated_key_not_disjoint<T>(m: Map<Key, T>, keys: Seq<Key>, i: int, j: int)
    requires
        0 <= i < keys.len(),
        0 <= j < keys.len(),
        i != j,
        keys[i] == keys[j],
    ensures
        !disjoint_keys(m, keys),
{
    if i < j {
        assert(keys[i] == keys[j]);
    } else {
        assert(keys[j] == keys[i]);
    }
}

} // verus!
