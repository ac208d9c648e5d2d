use keep::alist::{AccessorList, Node};
use keep::{Arena, Heap, Keep, Mutation, TrackedAtomic};
use std::cell::Cell;
use std::rc::Rc;

/// Counts how often values of it are dropped.
struct Tally {
    name: i32,
    drops: Rc<Cell<usize>>,
}

impl Drop for Tally {
    fn drop(&mut self) {
        self.drops.set(self.drops.get() + 1);
    }
}

fn tally(name: i32) -> (Tally, Rc<Cell<usize>>) {
    let drops = Rc::new(Cell::new(0));
    (
        Tally {
            name,
            drops: drops.clone(),
        },
        drops,
    )
}

#[test]
fn node_clears_only_what_it_holds() {
    let mut node = Node::new(Some(7));
    assert!(!node.clear(8));
    assert_eq!(Some(7), node.load());
    assert!(node.clear(7));
    assert_eq!(None, node.load());
    assert!(!node.clear(7));

    assert!(node.occupy(3));
    assert!(!node.occupy(4));
    assert_eq!(Some(3), node.load());
    node.clear_unchecked();
    assert_eq!(None, node.load());
}

#[test]
fn accessor_list_takes_the_first_free_slot() {
    let mut list = AccessorList::new(None);
    assert_eq!(0, list.insert(10));
    assert_eq!(1, list.insert(11));
    assert_eq!(2, list.insert(12));

    assert!(list.clear(1, 11));
    assert!(!list.clear(1, 11));
    assert!(!list.clear(9, 11));

    // the freed slot is taken before the list grows
    assert_eq!(1, list.insert(13));
    assert_eq!(3, list.insert(14));
    assert!(list.holds_at(1, 13));
    assert!(!list.holds_at(1, 11));
}

#[test]
fn accessor_list_answers_in_three_ways() {
    let mut list = AccessorList::new(None);
    assert_eq!(None, list.contains_or_empty(5));
    assert!(list.is_all_empty());

    list.insert(4);
    assert_eq!(Some(false), list.contains_or_empty(5));
    assert!(!list.contains(5));
    assert!(!list.is_all_empty());

    list.insert(5);
    assert_eq!(Some(true), list.contains_or_empty(5));
    assert!(list.contains(5));

    list.clear(0, 4);
    assert_eq!(Some(true), list.contains_or_empty(5));
    list.clear(1, 5);
    assert_eq!(None, list.contains_or_empty(5));

    list.insert(6);
    list.free_list();
    assert_eq!(None, list.contains_or_empty(6));
}

#[test]
fn heap_is_freed_once() {
    let (value, drops) = tally(1);
    let mut heap = Heap::from_ptr(Box::new(value));
    assert_eq!(1, heap.deref().name);
    assert!(heap.as_ptr().is_some());

    assert!(heap.free());
    assert_eq!(1, drops.get());
    assert!(heap.as_ptr().is_none());

    assert!(!heap.free());
    assert_eq!(1, drops.get());
}

#[test]
fn values_boxes_and_handles_are_heaped_alike() {
    let mut arena: Arena<i32> = Arena::new();
    let bare = Keep::new(&mut arena, 1);
    let boxed = Keep::new(&mut arena, Box::new(2));
    let handle = Keep::new(&mut arena, Heap::from_ptr(Box::new(3)));

    for (keep, expected) in [(bare, 1), (boxed, 2), (handle, 3)] {
        let guard = keep.read(&mut arena);
        assert_eq!(expected, *guard.deref(&arena));
        guard.release(&mut arena);
    }
}

#[test]
fn mutation_sets_its_flag_once() {
    let (value, drops) = tally(4);
    let mut mutation = Mutation::new(value);
    assert_eq!(4, mutation.borrow().name);
    assert!(mutation.inner().is_some());

    assert!(mutation.release());
    assert_eq!(1, drops.get());
    assert!(mutation.inner().is_none());

    // a second freer finds the flag set and frees nothing
    assert!(!mutation.release());
    assert_eq!(1, drops.get());
}

#[test]
fn cell_frees_a_replaced_value_at_once_when_unobserved() {
    let (first, first_drops) = tally(1);
    let (second, second_drops) = tally(2);
    let mut cell = TrackedAtomic::new(first, 0);
    assert_eq!(1, cell.register_accessor());

    cell.store(second);
    assert_eq!(1, first_drops.get());
    assert_eq!(0, second_drops.get());
    assert_eq!(2, cell.current().name);
    assert!(!cell.is_dead());

    assert!(cell.unregister_accessor());
    assert!(cell.is_dead());
    cell.destroy();
    assert_eq!(1, second_drops.get());
    assert_eq!(1, first_drops.get());
}

#[test]
fn cell_counts_its_handles() {
    let mut cell = TrackedAtomic::new(5, 0);
    assert_eq!(0, cell.accessors());
    assert_eq!(1, cell.register_accessor());
    assert_eq!(2, cell.register_accessor());
    assert!(!cell.unregister_accessor());
    assert_eq!(1, cell.accessors());
    assert!(cell.unregister_accessor());
    assert_eq!(0, cell.accessors());
}

#[test]
fn the_policy_frees_once() {
    let (first, first_drops) = tally(1);
    let (second, _second_drops) = tally(2);
    let mut cell = TrackedAtomic::new(first, 0);
    cell.register_accessor();
    let guard = cell.swap(second);

    // the replaced generation is observed: the policy leaves it alone
    cell.try_drop(0);
    assert_eq!(0, first_drops.get());
    assert_eq!(1, cell.borrow(&guard).name);

    cell.release(guard);
    assert_eq!(1, first_drops.get());

    cell.try_drop(0);
    cell.try_drop(0);
    assert_eq!(1, first_drops.get());
}

#[test]
fn guard_outlives_many_writes() {
    let mut arena = Arena::new();
    let keep = Keep::new(&mut arena, 0);
    let guard = keep.read(&mut arena);

    for i in 1..100 {
        keep.write(&mut arena, i);
        assert!(arena.is_held(&guard));
        assert_eq!(0, *guard.deref(&arena));
    }

    let fresh = keep.read(&mut arena);
    assert_eq!(99, *fresh.deref(&arena));
}

#[test]
fn each_value_is_freed_exactly_once() {
    let mut arena = Arena::new();
    let mut counters = Vec::new();

    let (value, drops) = tally(0);
    counters.push(drops);
    let keep = Keep::new(&mut arena, value);

    // writes, with a reader on every third generation
    let mut guards = Vec::new();
    for i in 1..30 {
        if i % 3 == 0 {
            guards.push(keep.read(&mut arena));
        }
        let (value, drops) = tally(i);
        counters.push(drops);
        keep.write(&mut arena, value);
    }

    // generation 29 is published; 2, 5, 8, .. are observed
    for (i, drops) in counters.iter().enumerate() {
        let observed = i % 3 == 2 && i < 29;
        let expected = if observed || i == 29 { 0 } else { 1 };
        assert_eq!(expected, drops.get(), "generation {}", i);
    }

    for guard in guards {
        guard.release(&mut arena);
    }
    for (i, drops) in counters.iter().enumerate() {
        assert_eq!(if i == 29 { 0 } else { 1 }, drops.get(), "generation {}", i);
    }

    keep.destroy(&mut arena);
    for drops in &counters {
        assert_eq!(1, drops.get());
    }
}

#[test]
fn last_guard_tears_the_cell_down() {
    let (first, first_drops) = tally(1);
    let (second, second_drops) = tally(2);
    let mut arena = Arena::new();
    let keep = Keep::new(&mut arena, first);
    let early = keep.read(&mut arena);
    keep.write(&mut arena, second);
    let late = keep.read(&mut arena);

    keep.destroy(&mut arena);
    assert_eq!(0, first_drops.get());
    assert_eq!(0, second_drops.get());

    // the published value goes with its last reader, though another value
    // is still observed
    late.release(&mut arena);
    assert_eq!(1, second_drops.get());
    assert_eq!(0, first_drops.get());
    assert_eq!(1, early.deref(&arena).name);

    early.release(&mut arena);
    assert_eq!(1, first_drops.get());
    assert_eq!(1, second_drops.get());
}

#[test]
fn handles_are_counted() {
    let (value, drops) = tally(1);
    let mut arena = Arena::new();
    let keep = Keep::new(&mut arena, value);
    let twin = keep.clone(&mut arena);
    assert!(arena.is_live(&keep));

    keep.destroy(&mut arena);
    assert_eq!(0, drops.get());
    assert!(arena.is_live(&twin));

    let guard = twin.read(&mut arena);
    assert_eq!(1, guard.deref(&arena).name);
    guard.release(&mut arena);

    let again = twin.clone(&mut arena);
    twin.destroy(&mut arena);
    assert!(arena.is_live(&again));
    again.destroy(&mut arena);
    assert_eq!(1, drops.get());
}

#[test]
fn swap_hands_out_the_replaced_value() {
    let mut arena = Arena::new();
    let keep = Keep::new(&mut arena, "old");
    let guard = keep.swap(&mut arena, "new");
    assert_eq!("old", *guard.deref(&arena));

    let now = keep.read(&mut arena);
    assert_eq!("new", *now.deref(&arena));
}

#[test]
fn exchange_publishes_against_a_current_guard() {
    let mut arena = Arena::new();
    let keep = Keep::new(&mut arena, 1);
    let current = keep.read(&mut arena);

    let replaced = keep.exchange(&mut arena, &current, 2);
    assert!(replaced.is_ok());
    assert_eq!(1, *replaced.unwrap().deref(&arena));

    let now = keep.read(&mut arena);
    assert_eq!(2, *now.deref(&arena));
}

#[test]
fn exchange_fails_against_a_stale_guard() {
    let mut arena = Arena::new();
    let keep = Keep::new(&mut arena, 1);
    let stale = keep.read(&mut arena);
    keep.write(&mut arena, 2);

    let actual = keep.exchange(&mut arena, &stale, 3);
    assert!(actual.is_err());
    assert_eq!(2, *actual.unwrap_err().deref(&arena));

    // nothing was published, and the stale guard still observes its value
    let now = keep.read(&mut arena);
    assert_eq!(2, *now.deref(&arena));
    assert_eq!(1, *stale.deref(&arena));
}

#[test]
fn exchange_tells_cells_apart() {
    let mut arena = Arena::new();
    let one = Keep::new(&mut arena, 1);
    let other = Keep::new(&mut arena, 10);

    // both guards observe the first generation of their cell
    let guard = other.read(&mut arena);
    let result = one.exchange(&mut arena, &guard, 2);
    assert!(result.is_err());
    assert_eq!(1, *result.unwrap_err().deref(&arena));
}

#[test]
fn swap_with_trades_whole_cells() {
    let mut arena = Arena::new();
    let a = Keep::new(&mut arena, "a");
    let a_twin = a.clone(&mut arena);
    let b = Keep::new(&mut arena, "b");
    let guard = a.read(&mut arena);

    a.swap_with(&mut arena, &b);

    for (keep, expected) in [(&a, "b"), (&a_twin, "b"), (&b, "a")] {
        let seen = keep.read(&mut arena);
        assert_eq!(expected, *seen.deref(&arena));
        seen.release(&mut arena);
    }
    // a guard names the cell, not the handle
    assert_eq!("a", *guard.deref(&arena));

    a.write(&mut arena, "c");
    let seen = b.read(&mut arena);
    assert_eq!("a", *seen.deref(&arena));
}

#[test]
fn swap_with_marked_needs_a_fresh_marker() {
    let mut arena = Arena::new();
    let slot = Keep::new(&mut arena, 1);
    let first = Keep::new(&mut arena, 2);
    let second = Keep::new(&mut arena, 3);

    let (guard, marker) = slot.read_marked(&mut arena);
    assert_eq!(1, *guard.deref(&arena));
    let (_, stale) = slot.read_marked(&mut arena);

    assert!(slot.swap_with_marked(&mut arena, marker, &first));
    let seen = slot.read(&mut arena);
    assert_eq!(2, *seen.deref(&arena));

    // the slot names another cell by now
    assert!(!slot.swap_with_marked(&mut arena, stale, &second));
    let seen = slot.read(&mut arena);
    assert_eq!(2, *seen.deref(&arena));
    let seen = second.read(&mut arena);
    assert_eq!(3, *seen.deref(&arena));
}

#[test]
fn clone_from_takes_over_another_cell() {
    let (old_value, old_drops) = tally(1);
    let (new_value, new_drops) = tally(2);
    let mut arena = Arena::new();
    let mut keep = Keep::new(&mut arena, old_value);
    let other = Keep::new(&mut arena, new_value);

    let previous = keep.clone_from(&mut arena, &other);

    let seen = keep.read(&mut arena);
    assert_eq!(2, seen.deref(&arena).name);
    seen.release(&mut arena);
    let seen = previous.read(&mut arena);
    assert_eq!(1, seen.deref(&arena).name);
    seen.release(&mut arena);

    previous.destroy(&mut arena);
    assert_eq!(1, old_drops.get());

    other.destroy(&mut arena);
    assert_eq!(0, new_drops.get());
    keep.destroy(&mut arena);
    assert_eq!(1, new_drops.get());
}

#[test]
fn guards_compare_by_value_and_clone_into_their_own_slot() {
    let mut arena = Arena::new();
    let a = Keep::new(&mut arena, 7);
    let b = Keep::new(&mut arena, 7);
    let c = Keep::new(&mut arena, 8);

    let ga = a.read(&mut arena);
    let gb = b.read(&mut arena);
    let gc = c.read(&mut arena);
    assert!(ga.eq(&gb, &arena));
    assert!(!ga.eq(&gc, &arena));

    let twin = ga.clone(&mut arena);
    a.write(&mut arena, 9);
    ga.release(&mut arena);
    assert!(arena.is_held(&twin));
    assert_eq!(7, *twin.deref(&arena));
    assert_eq!(7, *arena.borrow(&twin));

    let again = arena.observe(&twin);
    arena.release(twin);
    assert_eq!(7, *again.deref(&arena));
}

#[test]
fn released_guards_are_no_longer_held() {
    let mut arena = Arena::new();
    let keep = Keep::new(&mut arena, 1);
    let guard = keep.read(&mut arena);
    let twin = guard.clone(&mut arena);
    assert!(arena.is_held(&guard));
    guard.release(&mut arena);
    assert!(arena.is_held(&twin));

    keep.destroy(&mut arena);
    assert!(!arena.is_live(&Keep::new(&mut Arena::new(), 1)));
}
