use keep::resizer::Resizer;
use keep::table::{Table, TableIter};
use keep::{Arena, Entry, EntryNode, Guard};

fn read(vals: &mut Arena<&'static str>, guard: Option<Guard<&'static str>>) -> Option<&'static str> {
    guard.map(|guard| {
        let value = *guard.deref(vals);
        guard.release(vals);
        value
    })
}

#[test]
fn a_hash_falls_into_the_bucket_of_its_lowest_bits() {
    let table = Table::<u32, &str>::new(4);
    assert_eq!(16, table.capacity());
    assert_eq!(4, table.size());
    assert_eq!(0, table.index_of(0));
    assert_eq!(4, table.index_of(0x1234));
    assert_eq!(15, table.index_of(u64::MAX));
    assert_eq!(0, table.index_of(16));

    let bigger = table.new_bigger();
    assert_eq!(32, bigger.capacity());
    assert_eq!(20, bigger.index_of(0x1234));
    assert_eq!(16, bigger.index_of(16));

    let small = Table::<u32, &str>::new(1);
    assert_eq!(16, small.capacity());
}

#[test]
fn more_than_three_quarters_is_crowded() {
    let table = Table::<u32, &str>::new(4);
    assert!(!table.resize_needed_up(0));
    assert!(!table.resize_needed_up(12));
    assert!(table.resize_needed_up(13));

    let table = Table::<u32, &str>::new(6);
    assert!(!table.resize_needed_up(48));
    assert!(table.resize_needed_up(49));
}

#[test]
fn nodes_say_what_they_were_made_with() {
    let mut vals = Arena::new();
    let node = EntryNode::new(&mut vals, 9u32, "nine", 77);
    assert_eq!(&9, node.key());
    assert_eq!(77, node.hash());
    assert!(node.next().is_none());
    let guard = node.value().read(&mut vals);
    assert_eq!("nine", *guard.deref(&vals));
    guard.release(&mut vals);

    let twin = node.clone_striped(&mut vals);
    assert_eq!(&9, twin.key());
    assert_eq!(77, twin.hash());
    node.value().write(&mut vals, "neuf");
    let guard = twin.value().read(&mut vals);
    assert_eq!("neuf", *guard.deref(&vals));
}

#[test]
fn a_chain_keeps_the_order_of_insertion() {
    let mut vals = Arena::new();
    let mut head = EntryNode::new(&mut vals, 1u32, "a", 0);
    let second = EntryNode::new(&mut vals, 2u32, "b", 0);
    let third = EntryNode::new(&mut vals, 3u32, "c", 0);
    assert!(head.update(second, &mut vals).is_none());
    assert!(head.update(third, &mut vals).is_none());

    assert_eq!(&2, head.next().unwrap().key());
    assert_eq!(&3, head.next().unwrap().next().unwrap().key());

    let again = EntryNode::new(&mut vals, 2u32, "B", 0);
    let old = head.update(again, &mut vals).unwrap();
    let guard = old.read(&mut vals);
    assert_eq!("b", *guard.deref(&vals));
    guard.release(&mut vals);

    let found = head.search(&2, &mut vals);
    assert_eq!(Some("B"), read(&mut vals, found));
    let found = head.search(&4, &mut vals);
    assert_eq!(None, read(&mut vals, found));

    let mut buffer = Vec::new();
    head.buffered(&mut buffer, &mut vals);
    let seen: Vec<&str> = buffer.iter().map(|guard| *guard.deref(&vals)).collect();
    assert_eq!(vec!["a", "B", "c"], seen);
}

#[test]
fn an_empty_bucket_holds_nothing() {
    let mut vals: Arena<&str> = Arena::new();
    let entry = Entry::<u32, &str>::Empty;
    assert!(entry.search(&1, &mut vals).is_none());
    assert!(entry.buffered(&mut vals).is_empty());
    assert!(entry.remove_from_children(&1).is_none());

    let node = EntryNode::new(&mut vals, 1u32, "x", 5);
    let (entry, previous) = entry.insert(node, &mut vals);
    assert!(previous.is_none());
    let found = entry.search(&1, &mut vals);
    assert_eq!(Some("x"), read(&mut vals, found));
    assert_eq!(1, entry.buffered(&mut vals).len());
}

#[test]
fn a_table_finds_a_key_under_its_hash() {
    let mut vals = Arena::new();
    let mut table = Table::new(4);

    let node = EntryNode::new(&mut vals, 1u32, "one", 17);
    let (previous, crowded) = table.insert(node, &mut vals);
    assert!(previous.is_none());
    assert!(!crowded);
    assert_eq!(1, table.entry_count());

    // 17 and 33 fall into bucket 1 of 16
    let node = EntryNode::new(&mut vals, 2u32, "two", 33);
    table.insert(node, &mut vals);
    assert_eq!(2, table.entry_count());

    let found = table.get(&1, 17, &mut vals);
    assert_eq!(Some("one"), read(&mut vals, found));
    let found = table.get(&2, 1, &mut vals);
    assert_eq!(Some("two"), read(&mut vals, found));
    let found = table.get(&1, 2, &mut vals);
    assert_eq!(None, read(&mut vals, found));

    assert!(table.remove(&1, 2).is_none());
    assert_eq!(16, table.entries().len());
    assert!(matches!(table.entry_at(0), Entry::Empty));
    assert!(matches!(table.entry_at(1), Entry::Head(_)));
    assert!(matches!(table.entry_of(49), Entry::Head(_)));

    let node = EntryNode::new(&mut vals, 1u32, "uno", 17);
    let (previous, crowded) = table.insert(node, &mut vals);
    assert!(!crowded);
    let previous = previous.unwrap();
    let guard = previous.read(&mut vals);
    assert_eq!("one", *guard.deref(&vals));
    assert_eq!(2, table.entry_count());
}

#[test]
fn the_thirteenth_key_crowds_sixteen_buckets() {
    let mut vals = Arena::new();
    let mut table = Table::new(4);
    for key in 0..12u32 {
        let node = EntryNode::new(&mut vals, key, "v", key as u64);
        assert_eq!(false, table.insert(node, &mut vals).1);
    }
    let node = EntryNode::new(&mut vals, 12u32, "v", 12);
    assert_eq!(true, table.insert(node, &mut vals).1);
}

#[test]
fn a_resizer_moves_every_node_once() {
    let mut vals = Arena::new();
    let mut table = Table::new(4);
    let names = ["a", "b", "c", "d", "e", "f", "g", "h", "i", "j"];
    for (key, name) in names.iter().enumerate() {
        // hashes that fall into the buckets 3 and 5 of 16, and into 3 and 21 of 32
        let hash = if key % 2 == 0 { 3 + 16 * key as u64 } else { 5 + 16 * key as u64 };
        let node = EntryNode::new(&mut vals, key as u32, *name, hash);
        table.insert(node, &mut vals);
    }

    let mut resizer = Resizer::new(3, &table);
    resizer.resize(&table, &mut vals);
    // a second helper finds nothing left to do
    resizer.resize(&table, &mut vals);

    resizer.finalize(&mut table);
    assert_eq!(32, table.capacity());
    assert_eq!(10, table.entry_count());
    // the swap takes place once
    resizer.finalize(&mut table);
    assert_eq!(32, table.capacity());
    resizer.dispose(&mut vals);

    for (key, name) in names.iter().enumerate() {
        let hash = if key % 2 == 0 { 3 + 16 * key as u64 } else { 5 + 16 * key as u64 };
        let found = table.get(&(key as u32), hash, &mut vals);
        assert_eq!(Some(*name), read(&mut vals, found));
    }
    assert!(matches!(table.entry_at(3), Entry::Head(_)));
    assert!(matches!(table.entry_at(21), Entry::Head(_)));
    assert!(matches!(table.entry_at(5), Entry::Empty));
    assert!(matches!(table.entry_at(19), Entry::Empty));

    let mut seen = Vec::new();
    let mut iter = TableIter::new();
    while let Some(guard) = iter.next(&table, &mut vals) {
        seen.push(*guard.deref(&vals));
        guard.release(&mut vals);
    }
    seen.sort();
    assert_eq!(names.to_vec(), seen);

    table.dispose(&mut vals);
}
