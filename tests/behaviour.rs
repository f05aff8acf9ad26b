use surotto::{Key, SurottoMap};

fn three() -> (SurottoMap<String>, Key, Key, Key) {
    let mut map = SurottoMap::new();
    let a = map.insert(String::from("Hello"));
    let b = map.insert(String::from("World"));
    let c = map.insert(String::from("Surotto"));
    (map, a, b, c)
}

#[test]
fn round_trip_after_insert() {
    let mut map: SurottoMap<u64> = SurottoMap::new();
    for v in [0u64, 7, u64::MAX] {
        let k = map.insert(v);
        assert_eq!(map.get(k), Some(&v));
        assert!(map.validate_key(k));
    }
}

#[test]
fn removed_key_stays_invalid_across_reuse() {
    let (mut map, _a, b, _c) = three();
    assert_eq!(map.remove(b), Some(String::from("World")));
    for round in 0..5 {
        let d = map.insert(format!("round {}", round));
        assert_eq!(d.index, b.index);
        assert_eq!(map.get(b), None);
        assert_eq!(map.get_mut(b), None);
        assert_eq!(map.remove(b), None);
        assert!(!map.validate_key(b));
        assert_eq!(map.remove(d), Some(format!("round {}", round)));
    }
}

#[test]
fn reused_slot_gets_new_stamp_each_time() {
    let mut map: SurottoMap<u8> = SurottoMap::new();
    let mut seen = Vec::new();
    let mut k = map.insert(0);
    for i in 1..20u8 {
        seen.push(k);
        map.remove(k);
        k = map.insert(i);
        assert_eq!(k.index, 0);
        assert!(seen.iter().all(|old| old.version != k.version));
    }
}

#[test]
fn stamps_count_generations_with_occupied_bit() {
    let mut map: SurottoMap<u8> = SurottoMap::new();
    let k0 = map.insert(1);
    assert_eq!(k0.version, 0x8000_0000);
    map.remove(k0);
    let k1 = map.insert(2);
    assert_eq!(k1.version, 0x8000_0001);
    map.remove(k1);
    let k2 = map.insert(3);
    assert_eq!(k2.version, 0x8000_0002);
}

#[test]
fn scenario_remove_then_reinsert() {
    let (mut map, a, b, c) = three();
    assert_eq!(map.remove(b), Some(String::from("World")));
    assert_eq!(map.get(b), None);
    let d = map.insert(String::from("Second World"));
    assert_eq!(d.index, b.index);
    assert_ne!(d.version, b.version);
    assert_eq!(map.get(d), Some(&String::from("Second World")));
    assert_eq!(map.get(a), Some(&String::from("Hello")));
    assert_eq!(map.get(c), Some(&String::from("Surotto")));
    assert_eq!(map.len(), 3);
    assert_eq!(map.big_len(), 3);
}

#[test]
fn scenario_keyed_iteration_order() {
    let (map, a, b, c) = three();
    let mut it = map.iter();
    let mut seen = Vec::new();
    while let Some((k, v)) = it.next() {
        seen.push((k, v.clone()));
    }
    assert_eq!(
        seen,
        vec![
            (a, String::from("Hello")),
            (b, String::from("World")),
            (c, String::from("Surotto"))
        ]
    );
}

#[test]
fn iteration_skips_free_slots() {
    let (mut map, a, b, c) = three();
    map.remove(b);
    let mut keys = map.keys();
    let mut ks = Vec::new();
    while let Some(k) = keys.next() {
        ks.push(k);
    }
    assert_eq!(ks, vec![a, c]);
    let mut values = map.values();
    let mut vs = Vec::new();
    while let Some(v) = values.next() {
        vs.push(v.clone());
    }
    assert_eq!(vs, vec![String::from("Hello"), String::from("Surotto")]);
}

#[test]
fn mutable_iteration_writes_back() {
    let (mut map, a, b, c) = three();
    map.remove(a);
    {
        let mut it = map.iter_mut();
        let mut ks = Vec::new();
        while let Some((k, v)) = it.next() {
            ks.push(k);
            v.push('!');
        }
        assert_eq!(ks, vec![b, c]);
    }
    {
        let mut vm = map.values_mut();
        while let Some(v) = vm.next() {
            v.insert(0, '>');
        }
    }
    assert_eq!(map.get(b), Some(&String::from(">World!")));
    assert_eq!(map.get(c), Some(&String::from(">Surotto!")));
    assert_eq!(map.len(), 2);
}

#[test]
fn consuming_iteration_skips_free_slots() {
    let (mut map, a, b, c) = three();
    map.remove(b);
    let mut it = map.into_iter();
    let mut out = Vec::new();
    while let Some(entry) = it.next() {
        out.push(entry);
    }
    assert_eq!(out, vec![(a, String::from("Hello")), (c, String::from("Surotto"))]);
}

#[test]
fn disjoint_borrow_of_distinct_keys() {
    let (mut map, a, _b, c) = three();
    let refs = map.get_disjoint([c, a]).unwrap();
    assert_eq!(refs.len(), 2);
    assert_eq!(*refs[0], "Surotto");
    assert_eq!(*refs[1], "Hello");
}

#[test]
fn disjoint_borrow_rejects_repeated_key() {
    let (mut map, a, b, c) = three();
    assert!(map.get_disjoint([a, b, a]).is_none());
    assert!(map.get_disjoint_mut([c, c]).is_none());
    assert_eq!(map.get(a), Some(&String::from("Hello")));
    assert_eq!(map.get(b), Some(&String::from("World")));
    assert_eq!(map.get(c), Some(&String::from("Surotto")));
    assert!(map.validate_key(a) && map.validate_key(b) && map.validate_key(c));
}

#[test]
fn failed_disjoint_borrow_leaves_map_unchanged() {
    let (mut map, a, b, c) = three();
    map.remove(b);
    assert!(map.get_disjoint([a, c, b]).is_none());
    assert!(map.get_disjoint_mut([c, a, b]).is_none());
    assert!(map.validate_key(a) && map.validate_key(c));
    assert_eq!(map.len(), 2);
    let d = map.insert(String::from("again"));
    assert_eq!(d.index, b.index);
    let mut it = map.iter();
    let mut n = 0;
    while it.next().is_some() {
        n += 1;
    }
    assert_eq!(n, 3);
}

#[test]
fn disjoint_mutable_borrow_writes_back() {
    let (mut map, a, b, c) = three();
    {
        let mut refs = map.get_disjoint_mut([b, a, c]).unwrap();
        refs[0].push_str(" 1");
        refs[1].push_str(" 2");
        std::mem::swap(refs[2], &mut String::from("swapped"));
    }
    assert_eq!(map.get(a), Some(&String::from("Hello 2")));
    assert_eq!(map.get(b), Some(&String::from("World 1")));
    assert_eq!(map.get(c), Some(&String::from("swapped")));
}

#[test]
fn disjoint_borrow_of_no_keys() {
    let (mut map, _a, _b, _c) = three();
    assert_eq!(map.get_disjoint::<0>([]).map(|v| v.len()), Some(0));
    assert_eq!(map.get_disjoint_mut::<0>([]).map(|v| v.len()), Some(0));
}

#[test]
fn with_capacity_hands_out_ascending_slots() {
    let mut map: SurottoMap<u32> = SurottoMap::with_capacity(4);
    assert_eq!(map.big_len(), 4);
    assert!(map.capacity() >= 4);
    assert!(map.is_empty());
    let ks: Vec<Key> = (0..6).map(|v| map.insert(v)).collect();
    let idx: Vec<usize> = ks.iter().map(|k| k.index).collect();
    assert_eq!(idx, vec![0, 1, 2, 3, 4, 5]);
    assert!(ks.iter().all(|k| k.version == 0x8000_0000));
    assert_eq!(map.big_len(), 6);
    assert_eq!(map.len(), 6);
}

#[test]
fn with_capacity_zero_is_empty() {
    let mut map: SurottoMap<u32> = SurottoMap::with_capacity(0);
    assert_eq!(map.big_len(), 0);
    assert!(map.is_empty());
    let k = map.insert(9);
    assert_eq!(k.index, 0);
    assert_eq!(map.get(k), Some(&9));
}

#[test]
fn freed_slots_are_reused_most_recent_first() {
    let mut map: SurottoMap<u32> = SurottoMap::new();
    let ks: Vec<Key> = (0..4).map(|v| map.insert(v)).collect();
    map.remove(ks[1]);
    map.remove(ks[3]);
    map.remove(ks[0]);
    assert_eq!(map.insert(10).index, 0);
    assert_eq!(map.insert(11).index, 3);
    assert_eq!(map.insert(12).index, 1);
    assert_eq!(map.insert(13).index, 4);
}

#[test]
fn len_counts_resolving_keys() {
    let mut map: SurottoMap<u32> = SurottoMap::new();
    let ks: Vec<Key> = (0..5).map(|v| map.insert(v)).collect();
    map.remove(ks[2]);
    map.remove(ks[2]);
    map.remove(ks[4]);
    let resolving = ks.iter().filter(|k| map.get(**k).is_some()).count();
    assert_eq!(map.len(), resolving);
    assert_eq!(map.len(), 3);
    assert!(!map.is_empty());
    assert!(map.len() <= map.big_len());
}

#[test]
fn forged_keys_do_not_resolve() {
    let (map, a, _b, _c) = three();
    assert_eq!(map.get(Key { index: a.index, version: 0 }), None);
    assert_eq!(map.get(Key { index: a.index, version: a.version + 1 }), None);
    assert_eq!(map.get(Key { index: 3, version: a.version }), None);
}

#[test]
fn unchecked_access_to_valid_keys() {
    let (mut map, a, b, _c) = three();
    assert_eq!(map.get_unchecked(a), "Hello");
    map.get_unchecked_mut(b).push('?');
    assert_eq!(map.get(b), Some(&String::from("World?")));
}
