use surotto::simple::{SimpleKey, SimpleKeyData, SimpleSurotto};
use surotto::simple_assoc::{Entry, SimpleAssocSurotto};

#[derive(Clone, Copy, Eq, PartialEq, Ord, PartialOrd, Hash, Debug)]
struct NodeKey(SimpleKeyData);

impl SimpleKey for NodeKey {
    fn new(idx: usize) -> Self {
        Self(SimpleKeyData::new(idx).unwrap())
    }

    fn idx(self) -> usize {
        self.0.get()
    }
}

#[test]
fn simple_insert_and_get() {
    let mut arena: SimpleSurotto<NodeKey, &str> = SimpleSurotto::new();
    assert!(arena.is_empty());
    let a = arena.insert("a");
    let b = arena.insert("b");
    assert_eq!(a.idx(), 0);
    assert_eq!(b.idx(), 1);
    assert_eq!(*arena.get(a), "a");
    assert_eq!(*arena.get(b), "b");
    *arena.get_mut(a) = "z";
    assert_eq!(*arena.get(a), "z");
    assert_eq!(arena.len(), 2);
    assert!(arena.capacity() >= 2);
}

#[test]
fn simple_insert_with_sees_its_key() {
    let mut arena: SimpleSurotto<NodeKey, usize> = SimpleSurotto::with_capacity(4);
    arena.insert(10);
    let k = arena.insert_with(|k| k.idx() * 100);
    assert_eq!(*arena.get(k), 100);
}

#[test]
fn simple_iteration_in_index_order() {
    let mut arena: SimpleSurotto<NodeKey, u32> = SimpleSurotto::new();
    arena.insert(7);
    arena.insert(8);
    arena.insert(9);
    let mut it = arena.iter();
    let mut seen = Vec::new();
    while let Some((k, v)) = it.next() {
        seen.push((k.idx(), *v));
    }
    assert_eq!(seen, vec![(0, 7), (1, 8), (2, 9)]);

    let mut vm = arena.values_mut();
    while let Some(v) = vm.next() {
        *v += 1;
    }
    let mut keys = arena.keys();
    let mut ks = Vec::new();
    while let Some(k) = keys.next() {
        ks.push(k.idx());
    }
    assert_eq!(ks, vec![0, 1, 2]);
    let mut vals = arena.values();
    let mut vs = Vec::new();
    while let Some(v) = vals.next() {
        vs.push(*v);
    }
    assert_eq!(vs, vec![8, 9, 10]);

    let mut owned = arena.into_iter();
    let mut out = Vec::new();
    while let Some((k, v)) = owned.next() {
        out.push((k.idx(), v));
    }
    assert_eq!(out, vec![(0, 8), (1, 9), (2, 10)]);
}

#[test]
fn simple_capacity_operations_keep_values() {
    let mut arena: SimpleSurotto<NodeKey, u8> = SimpleSurotto::new();
    let k = arena.insert(3);
    arena.reserve(10);
    assert!(arena.capacity() >= 11);
    arena.reserve_exact(20);
    assert!(arena.try_reserve(5).is_ok());
    assert!(arena.try_reserve_exact(5).is_ok());
    arena.shrink_to(4);
    assert!(arena.capacity() >= 4);
    arena.shrink_to_fit();
    assert_eq!(*arena.get(k), 3);
    assert_eq!(arena.len(), 1);
}

#[test]
fn assoc_insert_backfills_empty_slots() {
    let mut arena: SimpleSurotto<NodeKey, ()> = SimpleSurotto::new();
    let k0 = arena.insert(());
    let k1 = arena.insert(());
    let k2 = arena.insert(());
    let mut names: SimpleAssocSurotto<NodeKey, String> = SimpleAssocSurotto::new();
    assert_eq!(names.insert(k2, String::from("two")), None);
    assert_eq!(names.len(), 3);
    assert_eq!(names.get(k0), None);
    assert_eq!(names.get(k1), None);
    assert_eq!(names.get(k2), Some(&String::from("two")));
    assert!(!names.contains_key(k0));
    assert!(names.contains_key(k2));
    assert_eq!(names.insert(k2, String::from("deux")), Some(String::from("two")));
    assert_eq!(names.insert(k0, String::from("zero")), None);
    assert_eq!(names.len(), 3);
    assert_eq!(names.remove(k0), Some(String::from("zero")));
    assert_eq!(names.remove(k0), None);
    assert_eq!(names.get(k0), None);
}

#[test]
fn assoc_insert_at_current_length() {
    let mut arena: SimpleSurotto<NodeKey, ()> = SimpleSurotto::new();
    let k0 = arena.insert(());
    let k1 = arena.insert(());
    let mut tags: SimpleAssocSurotto<NodeKey, u32> = SimpleAssocSurotto::with_capacity(2);
    tags.insert(k0, 1);
    assert_eq!(tags.len(), 1);
    tags.insert(k1, 2);
    assert_eq!(tags.len(), 2);
    assert_eq!(tags.get(k1), Some(&2));
}

#[test]
fn assoc_get_beyond_length_is_none() {
    let mut arena: SimpleSurotto<NodeKey, ()> = SimpleSurotto::new();
    let _k0 = arena.insert(());
    let k1 = arena.insert(());
    let mut tags: SimpleAssocSurotto<NodeKey, u32> = SimpleAssocSurotto::new();
    assert!(tags.is_empty());
    assert_eq!(tags.get(k1), None);
    assert_eq!(tags.get_mut(k1), None);
    assert_eq!(tags.remove(k1), None);
    assert!(tags.is_empty());
}

#[test]
fn assoc_entry_api() {
    let mut arena: SimpleSurotto<NodeKey, ()> = SimpleSurotto::new();
    let k0 = arena.insert(());
    let k1 = arena.insert(());
    let mut counts: SimpleAssocSurotto<NodeKey, u32> = SimpleAssocSurotto::new();
    *counts.entry(k1).or_insert(5) += 1;
    assert_eq!(counts.get(k1), Some(&6));
    *counts.entry(k1).or_insert(100) += 1;
    assert_eq!(counts.get(k1), Some(&7));
    assert_eq!(*counts.entry(k0).or_default(), 0);
    assert_eq!(counts.get(k0), Some(&0));
    counts.entry(k0).and_modify(|v| *v = 42);
    assert_eq!(counts.get(k0), Some(&42));
    assert_eq!(counts.entry(k0).key(), k0);
    match counts.entry(k1) {
        Entry::Occupied(mut o) => {
            assert_eq!(o.key(), k1);
            assert_eq!(*o.get(), 7);
            assert_eq!(o.insert(9), 7);
            *o.get_mut() += 1;
            assert_eq!(o.remove_entry(), (k1, 10));
        }
        Entry::Vacant(_) => panic!("k1 has a value"),
    }
    assert_eq!(counts.get(k1), None);
    match counts.entry(k1) {
        Entry::Occupied(_) => panic!("k1 has no value"),
        Entry::Vacant(v) => {
            assert_eq!(v.key(), k1);
            *v.insert(3) += 1;
        }
    }
    assert_eq!(counts.get(k1), Some(&4));
    assert_eq!(*counts.entry(k1).or_insert_with(|| 50), 4);
    match counts.entry(k0) {
        Entry::Occupied(o) => {
            assert_eq!(o.remove(), 42);
        }
        Entry::Vacant(_) => panic!("k0 has a value"),
    }
    assert_eq!(*counts.entry(k0).or_insert_with(|| 50), 50);
}

#[test]
fn assoc_iteration_skips_empty_slots() {
    let mut arena: SimpleSurotto<NodeKey, ()> = SimpleSurotto::new();
    let k0 = arena.insert(());
    let _k1 = arena.insert(());
    let k2 = arena.insert(());
    let mut tags: SimpleAssocSurotto<NodeKey, u32> = SimpleAssocSurotto::new();
    tags.insert(k2, 20);
    tags.insert(k0, 0);
    let mut it = tags.iter();
    let mut seen = Vec::new();
    while let Some((k, v)) = it.next() {
        seen.push((k.idx(), *v));
    }
    assert_eq!(seen, vec![(0, 0), (2, 20)]);
    let mut im = tags.iter_mut();
    while let Some((k, v)) = im.next() {
        *v += k.idx() as u32;
    }
    let mut vm = tags.values_mut();
    while let Some(v) = vm.next() {
        *v *= 2;
    }
    let mut keys = tags.keys();
    let mut ks = Vec::new();
    while let Some(k) = keys.next() {
        ks.push(k.idx());
    }
    assert_eq!(ks, vec![0, 2]);
    let mut vals = tags.values();
    let mut vs = Vec::new();
    while let Some(v) = vals.next() {
        vs.push(*v);
    }
    assert_eq!(vs, vec![0, 44]);
}

#[test]
fn assoc_unchecked_access_and_capacity() {
    let mut arena: SimpleSurotto<NodeKey, ()> = SimpleSurotto::new();
    let k0 = arena.insert(());
    let mut tags: SimpleAssocSurotto<NodeKey, u32> = SimpleAssocSurotto::new();
    tags.insert(k0, 1);
    *tags.get_unchecked_mut(k0) += 1;
    assert_eq!(*tags.get_unchecked(k0), 2);
    if let Some(v) = tags.get_mut(k0) {
        *v += 1;
    }
    assert_eq!(tags.get(k0), Some(&3));
    tags.reserve(8);
    tags.reserve_exact(8);
    assert!(tags.try_reserve(1).is_ok());
    assert!(tags.try_reserve_exact(1).is_ok());
    assert!(tags.capacity() >= 9);
    tags.shrink_to(2);
    tags.shrink_to_fit();
    assert_eq!(tags.get(k0), Some(&3));
}

#[test]
fn simple_map_keeps_keys() {
    let mut arena: SimpleSurotto<NodeKey, u32> = SimpleSurotto::default();
    let a = arena.insert(3);
    let b = arena.insert(4);
    let mapped: SimpleSurotto<NodeKey, String> = arena.map(|k, v| format!("{}:{}", k.idx(), v * 10));
    assert_eq!(mapped.len(), 2);
    assert_eq!(mapped.get(a), "0:30");
    assert_eq!(mapped.get(b), "1:40");
}

#[test]
fn assoc_default_is_empty() {
    let tags: SimpleAssocSurotto<NodeKey, u32> = SimpleAssocSurotto::default();
    assert!(tags.is_empty());
    assert_eq!(tags.len(), 0);
}
