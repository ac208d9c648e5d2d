use keep::{Arena, ConcurrentBuffer, DynBuffer, Keep};

fn value_of(heap: &mut Arena<i32>, keep: Option<Keep<i32>>) -> Option<i32> {
    keep.map(|k| {
        let guard = k.read(heap);
        let value = *guard.deref(heap);
        guard.release(heap);
        value
    })
}

#[test]
fn concurrent_buffer_insert() {
    let mut heap = Arena::new();
    let mut buf = ConcurrentBuffer::with_capacity(10);

    assert!(buf.insert(&mut heap, 0, 39).is_none());
    assert!(buf.insert(&mut heap, 1, 390).is_none());
    let old = buf.insert(&mut heap, 0, 2);
    assert_eq!(Some(39), value_of(&mut heap, old));
    let old = buf.insert(&mut heap, 0, 10);
    assert_eq!(Some(2), value_of(&mut heap, old));
}

#[test]
fn concurrent_buffer_get() {
    let mut heap = Arena::new();
    let mut buf = ConcurrentBuffer::with_capacity(10);

    assert!(buf.get(&mut heap, 0).is_none());
    buf.insert(&mut heap, 0, 39);
    assert!(buf.get(&mut heap, 1).is_none());
    let guard = buf.get(&mut heap, 0);
    assert_eq!(Some(39), guard.as_ref().map(|g| *g.deref(&heap)));
}

#[test]
fn concurrent_buffer_put() {
    let mut heap = Arena::new();
    let mut buf = ConcurrentBuffer::with_capacity(5);

    for i in 0..5 {
        assert_eq!(Ok(i), buf.put(&mut heap, i));
    }

    let guard = buf.get(&mut heap, 3);
    assert_eq!(Some(3), guard.as_ref().map(|g| *g.deref(&heap)));
    assert!(buf.put(&mut heap, 10).is_err());
}

#[test]
fn dynbuf_st() {
    let mut buffer = DynBuffer::new();
    let og = (0..32).collect::<Vec<_>>();

    for i in &og {
        buffer.push(*i);
    }

    let mut numbers = Vec::new();

    while let Some(num) = buffer.pop() {
        let guard = buffer.read(&num);
        numbers.push(*guard.deref(buffer.heap()));
        buffer.release(guard);
        buffer.discard(num);
    }

    numbers.sort();
    assert_eq!(og, numbers);
}

#[test]
fn a_slot_outside_the_buffer_takes_nothing() {
    let mut heap = Arena::new();
    let mut buf = ConcurrentBuffer::with_capacity(2);
    assert_eq!(2, buf.capacity());

    assert!(buf.insert(&mut heap, 2, 5).is_none());
    assert!(buf.get(&mut heap, 2).is_none());
    assert!(buf.remove(2).is_none());
    assert!(buf.pop().is_none());
}

#[test]
fn remove_empties_a_slot() {
    let mut heap = Arena::new();
    let mut buf = ConcurrentBuffer::with_capacity(3);
    buf.insert(&mut heap, 1, 7);

    assert!(buf.remove(0).is_none());
    let taken = buf.remove(1);
    assert_eq!(Some(7), value_of(&mut heap, taken));
    assert!(buf.remove(1).is_none());
    assert!(buf.get(&mut heap, 1).is_none());
}

#[test]
fn pop_takes_the_first_slot_that_is_taken() {
    let mut heap = Arena::new();
    let mut buf = ConcurrentBuffer::with_capacity(4);
    buf.insert(&mut heap, 3, 30);
    buf.insert(&mut heap, 1, 10);
    buf.insert(&mut heap, 2, 20);

    let popped = buf.pop();
    assert_eq!(Some(10), value_of(&mut heap, popped));
    let popped = buf.pop();
    assert_eq!(Some(20), value_of(&mut heap, popped));
    let popped = buf.pop();
    assert_eq!(Some(30), value_of(&mut heap, popped));
    assert!(buf.pop().is_none());
}

#[test]
fn put_looks_at_the_hint_first() {
    let mut heap = Arena::new();
    let mut buf = ConcurrentBuffer::with_capacity(4);

    buf.set_index_hint(2);
    assert_eq!(Ok(2), buf.put(&mut heap, 1));
    // the hint has moved behind the slot taken
    assert_eq!(Ok(3), buf.put(&mut heap, 2));
    // the hint is past the end: the first empty slot is taken
    assert_eq!(Ok(0), buf.put(&mut heap, 3));
    assert_eq!(Ok(1), buf.put(&mut heap, 4));
    assert_eq!(Err(()), buf.put(&mut heap, 5));

    // a slot that was emptied is found again, wherever the hint points
    buf.remove(2);
    buf.set_index_hint(0);
    assert_eq!(Ok(2), buf.put(&mut heap, 6));
    let guard = buf.get(&mut heap, 2);
    assert_eq!(Some(6), guard.as_ref().map(|g| *g.deref(&heap)));

    buf.dispose(&mut heap);
}

#[test]
fn a_pool_doubles_before_it_runs_full() {
    let mut pool = DynBuffer::new();
    assert_eq!(16, pool.capacity());

    for i in 0..14 {
        pool.push(i);
        assert_eq!(16, pool.capacity());
    }
    // with fourteen values in, fewer than three slots would be left
    pool.push(14);
    assert_eq!(32, pool.capacity());
    assert_eq!(15, pool.len());

    for i in 15..30 {
        pool.push(i);
    }
    assert_eq!(32, pool.capacity());
    pool.push(30);
    assert_eq!(64, pool.capacity());
}

#[test]
fn a_pool_halves_when_it_drains() {
    let mut pool = DynBuffer::with_hint(2);
    assert_eq!(16, pool.capacity());
    for i in 0..40 {
        pool.push(i);
    }
    assert_eq!(64, pool.capacity());

    let mut popped = Vec::new();
    for _ in 0..35 {
        let keep = pool.pop().unwrap();
        let guard = pool.read(&keep);
        popped.push(*guard.deref(pool.heap()));
        pool.release(guard);
        pool.discard(keep);
    }
    // the buffer is halved on the way in, not on the way out
    assert_eq!(64, pool.capacity());
    assert_eq!(5, pool.len());

    pool.push(100);
    assert_eq!(32, pool.capacity());
    pool.push(101);
    assert_eq!(16, pool.capacity());
    pool.push(102);
    assert_eq!(16, pool.capacity());

    while let Some(keep) = pool.pop() {
        let guard = pool.read(&keep);
        popped.push(*guard.deref(pool.heap()));
        pool.release(guard);
    }
    assert!(pool.pop().is_none());
    assert_eq!(0, pool.len());

    popped.sort();
    let mut expected: Vec<i32> = (0..40).collect();
    expected.extend([100, 101, 102]);
    assert_eq!(expected, popped);
}

#[test]
fn two_producers_and_a_consumer_in_turn() {
    let mut pool = DynBuffer::with_hint(6);
    assert_eq!(64, pool.capacity());
    let pushed: Vec<i32> = (0..32).collect();
    let (first, second) = pushed.split_at(15);

    let mut numbers = Vec::new();
    let mut a = first.iter();
    let mut b = second.iter();
    // the producers push in turn; the consumer pops after every third push
    let mut pushes = 0;
    loop {
        let next = if pushes % 2 == 0 { a.next().or_else(|| b.next()) } else { b.next().or_else(|| a.next()) };
        match next {
            Some(value) => pool.push(*value),
            None => break,
        }
        pushes += 1;
        if pushes % 3 == 0 {
            let keep = pool.pop().unwrap();
            let guard = pool.read(&keep);
            numbers.push(*guard.deref(pool.heap()));
            pool.release(guard);
            pool.discard(keep);
        }
    }
    while numbers.len() < 32 {
        let keep = pool.pop().unwrap();
        let guard = pool.read(&keep);
        numbers.push(*guard.deref(pool.heap()));
        pool.release(guard);
        pool.discard(keep);
    }
    assert!(pool.pop().is_none());

    numbers.sort();
    assert_eq!(pushed, numbers);
}
