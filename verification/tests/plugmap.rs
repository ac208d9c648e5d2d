use keep::PlugMap;

#[test]
fn look_and_feel() {
    let mut map = PlugMap::<usize, &str>::new();

    assert!(
        map.get(&39).is_none(),
        "Empty map did not return None on get(..)"
    );

    map.insert(39, "Briar");

    let guard = map.get(&39);
    assert_eq!(
        Some("Briar"),
        guard.as_ref().map(|v| *v.deref(map.heap())),
        "get(..) did not return the current value"
    );

    let old = map.insert(39, "Miku").unwrap();
    let seen = map.read(&old);
    assert_eq!("Briar", *seen.deref(map.heap()));

    let guard = map.get(&39);
    assert_eq!(
        Some("Miku"),
        guard.as_ref().map(|v| *v.deref(map.heap())),
        "get(..) did not return the current value"
    );
}

#[test]
fn many_entries() {
    let mut map = PlugMap::new();

    for i in 0..100 {
        map.insert(i, i.to_string());
    }

    let guard = map.get(&39);
    assert_eq!(
        Some("39"),
        guard.as_ref().map(|g| g.deref(map.heap()).as_str())
    );
    let guard = map.get(&31);
    assert_eq!(
        Some("31"),
        guard.as_ref().map(|g| g.deref(map.heap()).as_str())
    );
}

fn text_of(map: &mut PlugMap<u32, String>, key: u32) -> Option<String> {
    let guard = map.get(&key)?;
    let text = guard.deref(map.heap()).clone();
    map.release(guard);
    Some(text)
}

#[test]
fn absent_keys_are_not_found() {
    let mut map = PlugMap::<u32, String>::new();
    assert_eq!(None, text_of(&mut map, 1));
    map.insert(1, "one".to_string());
    assert_eq!(None, text_of(&mut map, 2));
    assert_eq!(Some("one".to_string()), text_of(&mut map, 1));
}

#[test]
fn the_latest_insert_wins_and_is_not_counted_twice() {
    let mut map = PlugMap::<u32, String>::new();
    assert!(map.insert(7, "a".to_string()).is_none());
    assert_eq!(1, map.len());

    let old = map.insert(7, "b".to_string()).unwrap();
    assert_eq!(1, map.len());
    let seen = map.read(&old);
    assert_eq!("a", seen.deref(map.heap()));
    map.release(seen);
    map.discard(old);

    let old = map.insert(7, "c".to_string()).unwrap();
    let seen = map.read(&old);
    assert_eq!("b", seen.deref(map.heap()));
    map.release(seen);

    assert_eq!(Some("c".to_string()), text_of(&mut map, 7));
    assert_eq!(1, map.len());
}

#[test]
fn distinct_keys_are_counted_once_each() {
    let mut map = PlugMap::<u32, String>::new();
    for key in 0..50 {
        map.insert(key, key.to_string());
        assert_eq!(key as usize + 1, map.len());
    }
    for key in 0..50 {
        map.insert(key, "again".to_string());
    }
    assert_eq!(50, map.len());
}

#[test]
fn the_table_doubles_past_three_quarters() {
    let mut map = PlugMap::<u32, String>::new();
    assert_eq!(16, map.capacity());

    // twelve of sixteen buckets' worth is not yet more than three quarters
    for key in 0..12 {
        map.insert(key, key.to_string());
        assert!(!map.is_resizing());
    }
    // the thirteenth key puts a resizer in place
    map.insert(12, "12".to_string());
    assert!(map.is_resizing());
    assert_eq!(16, map.capacity());

    // whoever comes next carries the move out
    assert_eq!(Some("3".to_string()), text_of(&mut map, 3));
    assert!(!map.is_resizing());
    assert_eq!(32, map.capacity());
    assert_eq!(13, map.len());

    // a key that is replaced does not count towards the threshold
    let mut map = PlugMap::<u32, String>::new();
    for key in 0..12 {
        map.insert(key, key.to_string());
    }
    map.insert(5, "five".to_string());
    assert!(!map.is_resizing());
}

#[test]
fn resizing_loses_and_doubles_nothing() {
    let mut map = PlugMap::<u32, String>::new();
    for key in 0..1000 {
        map.insert(key, format!("v{}", key));
    }
    assert_eq!(1000, map.len());
    assert!(map.capacity() >= 1024);

    for key in 0..1000 {
        assert_eq!(Some(format!("v{}", key)), text_of(&mut map, key));
    }
    assert_eq!(None, text_of(&mut map, 1000));

    let mut seen = Vec::new();
    let mut iter = map.iter();
    while let Some(guard) = map.next(&mut iter) {
        seen.push(guard.deref(map.heap()).clone());
        map.release(guard);
    }
    seen.sort();
    let mut expected: Vec<String> = (0..1000).map(|key| format!("v{}", key)).collect();
    expected.sort();
    assert_eq!(expected, seen);
}

#[test]
fn interleaved_workers_find_all_their_keys() {
    let mut map = PlugMap::<u32, String>::new();
    // ten workers with ten keys each, one key of each worker in turn
    for round in 0..10 {
        for worker in 0..10 {
            let key = worker * 10 + round;
            assert!(map.insert(key, format!("{}:{}", worker, round)).is_none());
        }
    }
    for worker in 0..10 {
        for round in 0..10 {
            assert_eq!(
                Some(format!("{}:{}", worker, round)),
                text_of(&mut map, worker * 10 + round)
            );
        }
    }
    assert_eq!(100, map.len());
}

#[test]
fn a_guard_outlives_the_replacement_of_its_value() {
    let mut map = PlugMap::<u32, String>::new();
    map.insert(1, "first".to_string());
    let guard = map.get(&1).unwrap();

    let old = map.insert(1, "second".to_string()).unwrap();
    map.discard(old);
    for key in 2..200 {
        map.insert(key, key.to_string());
    }

    assert_eq!("first", guard.deref(map.heap()));
    map.release(guard);
    assert_eq!(Some("second".to_string()), text_of(&mut map, 1));
}

#[test]
fn equal_hashes_share_a_bucket() {
    let mut map = PlugMap::<u32, String>::new();
    for key in 0..5 {
        assert!(map.insert_hashed(key, key.to_string(), 3).is_none());
    }
    assert_eq!(5, map.len());

    for key in 0..5 {
        let guard = map.get_hashed(&key, 3).unwrap();
        assert_eq!(&key.to_string(), guard.deref(map.heap()));
        map.release(guard);
        // the key is looked for in the bucket of the hash alone
        assert!(map.get_hashed(&key, 4).is_none());
    }

    // a bucket is walked from its last node to its first
    let mut seen = Vec::new();
    let mut iter = map.iter();
    while let Some(guard) = map.next(&mut iter) {
        seen.push(guard.deref(map.heap()).clone());
        map.release(guard);
    }
    assert_eq!(vec!["4", "3", "2", "1", "0"], seen);

    let old = map.insert_hashed(2, "two".to_string(), 3).unwrap();
    let guard = map.read(&old);
    assert_eq!("2", guard.deref(map.heap()));
}

#[test]
fn removal_finds_nothing_in_an_empty_map() {
    let map = PlugMap::<u32, String>::new();
    assert!(map.remove(&1).is_none());
}

#[test]
fn sizes_below_four_give_sixteen_buckets() {
    let map = PlugMap::<u32, u32>::new_with_hasher(0, std::hash::RandomState::new());
    assert_eq!(16, map.capacity());
    let map = PlugMap::<u32, u32>::new_with_hasher(6, std::hash::RandomState::new());
    assert_eq!(64, map.capacity());
    let map = PlugMap::<u32, u32>::default();
    assert_eq!(16, map.capacity());
    assert_eq!(0, map.len());
}
