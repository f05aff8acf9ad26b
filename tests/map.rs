use surotto::{Key, SurottoMap};

#[test]
fn test_new_insert() {
    let mut map: SurottoMap<String> = SurottoMap::new();

    let pos1 = map.insert(String::from("Hello"));
    let pos2 = map.insert(String::from("World"));

    assert_eq!(map.len(), 2);
    assert_eq!(map.big_len(), 2);
    assert_eq!(map.get(pos1), Some(&String::from("Hello")));
    assert_eq!(map.get(pos2), Some(&String::from("World")));
}

#[test]
fn test_do_insert() {
    let mut map: SurottoMap<String> = SurottoMap::with_capacity(2);

    let pos1 = map.insert(String::from("Hello"));
    let pos2 = map.insert(String::from("World"));

    assert_eq!(map.len(), 2);
    assert_eq!(map.big_len(), 2);
    assert_eq!(map.get(pos1), Some(&String::from("Hello")));
    assert_eq!(map.get(pos2), Some(&String::from("World")));
}

#[test]
fn test_get_mut() {
    let mut map: SurottoMap<String> = SurottoMap::new();

    let pos1 = map.insert(String::from("Hello"));
    let pos2 = map.insert(String::from("World"));

    if let Some(val) = map.get_mut(pos1) {
        *val = String::from("Goodbye");
    }

    assert_eq!(map.len(), 2);
    assert_eq!(map.get(pos1), Some(&String::from("Goodbye")));
    assert_eq!(map.get(pos2), Some(&String::from("World")));
}

#[test]
fn test_get_out_of_bounds() {
    let map: SurottoMap<String> = SurottoMap::new();

    assert_eq!(
        map.get(Key {
            index: 50,
            version: 0
        }),
        None
    );
}

#[test]
fn test_remove() {
    let mut map: SurottoMap<String> = SurottoMap::new();

    let _pos1 = map.insert(String::from("Hello"));
    let pos2 = map.insert(String::from("World"));
    let _pos3 = map.insert(String::from("Surotto"));

    assert_eq!(
        map.remove(Key {
            index: 50,
            version: 0
        }),
        None
    );

    assert_eq!(map.remove(pos2), Some(String::from("World")));
    assert_eq!(map.get(pos2), None);
    assert_eq!(map.len(), 2);
    assert_eq!(map.big_len(), 3);
    assert_eq!(map.remove(pos2), None);

    let repos2 = map.insert(String::from("Second World"));

    assert_eq!(pos2.index, repos2.index);
    assert_ne!(pos2.version, repos2.version);
    assert_eq!(map.get(repos2), Some(&String::from("Second World")));
    assert_eq!(map.len(), 3);
    assert_eq!(map.big_len(), 3);
}

#[test]
fn test_old_versioned_key() {
    let mut map: SurottoMap<String> = SurottoMap::new();

    let _pos1 = map.insert(String::from("Hello"));
    let pos2 = map.insert(String::from("World"));
    let _pos3 = map.insert(String::from("Surotto"));

    assert_eq!(map.get(pos2), Some(&String::from("World")));
    assert_eq!(map.remove(pos2), Some(String::from("World")));
    assert_eq!(map.get(pos2), None);

    let repos2 = map.insert(String::from("World"));
    assert_eq!(pos2.index, repos2.index);
    assert_ne!(pos2.version, repos2.version);

    assert_eq!(map.get(pos2), None);
    assert_eq!(map.get(repos2), Some(&String::from("World")));
}

#[test]
fn test_into_iter() {
    let mut map: SurottoMap<String> = SurottoMap::new();

    let pos1 = map.insert(String::from("Hello"));
    let pos2 = map.insert(String::from("World"));
    let pos3 = map.insert(String::from("Surotto"));

    let mut iter = map.into_iter();
    let mut collected = Vec::new();
    while let Some(entry) = iter.next() {
        collected.push(entry);
    }
    assert_eq!(
        collected.as_slice(),
        &[
            (pos1, String::from("Hello")),
            (pos2, String::from("World")),
            (pos3, String::from("Surotto"))
        ]
    );
}
