use keep::{Arena, DynBuffer, Guard, Keep, PlugMap};
use std::cell::Cell;
use std::collections::HashMap;
use std::rc::Rc;

/// A small generator of numbers that look random and are the same in every
/// run.
struct Dice(u64);

impl Dice {
    fn roll(&mut self, sides: u64) -> u64 {
        self.0 = self
            .0
            .wrapping_mul(6364136223846793005)
            .wrapping_add(1442695040888963407);
        (self.0 >> 33) % sides
    }
}

struct Tally {
    name: u64,
    drops: Rc<Cell<usize>>,
}

impl Drop for Tally {
    fn drop(&mut self) {
        self.drops.set(self.drops.get() + 1);
    }
}

#[test]
fn a_map_agrees_with_a_model() {
    let mut dice = Dice(39);
    let mut map = PlugMap::<u64, u64>::new();
    let mut model: HashMap<u64, u64> = HashMap::new();
    let mut held: Vec<(Guard<u64>, u64)> = Vec::new();

    for step in 0..20_000u64 {
        let key = dice.roll(700);
        match dice.roll(4) {
            0 | 1 => {
                let old = map.insert(key, step);
                let expected = model.insert(key, step);
                assert_eq!(expected.is_some(), old.is_some());
                if let Some(old) = old {
                    let guard = map.read(&old);
                    assert_eq!(expected.unwrap(), *guard.deref(map.heap()));
                    if dice.roll(8) == 0 {
                        held.push((guard, expected.unwrap()));
                    } else {
                        map.release(guard);
                    }
                    map.discard(old);
                }
            }
            2 => {
                let found = map.get(&key);
                assert_eq!(model.get(&key), found.as_ref().map(|g| g.deref(map.heap())));
                if let Some(guard) = found {
                    if dice.roll(8) == 0 {
                        held.push((guard, model[&key]));
                    } else {
                        map.release(guard);
                    }
                }
            }
            _ => {
                if !held.is_empty() {
                    let at = dice.roll(held.len() as u64) as usize;
                    let (guard, expected) = held.swap_remove(at);
                    assert_eq!(expected, *guard.deref(map.heap()));
                    map.release(guard);
                }
            }
        }
        assert_eq!(model.len(), map.len());
    }

    // what a guard observed when it was taken, it observes to the end
    for (guard, expected) in held {
        assert_eq!(expected, *guard.deref(map.heap()));
    }

    let mut seen = Vec::new();
    let mut iter = map.iter();
    while let Some(guard) = map.next(&mut iter) {
        seen.push(*guard.deref(map.heap()));
        map.release(guard);
    }
    seen.sort();
    let mut expected: Vec<u64> = model.values().copied().collect();
    expected.sort();
    assert_eq!(expected, seen);
}

#[test]
fn a_pool_agrees_with_a_model() {
    let mut dice = Dice(42);
    let mut pool = DynBuffer::<u64>::new();
    let mut model: Vec<u64> = Vec::new();

    for step in 0..20_000u64 {
        // fill in waves, so that the pool grows and shrinks
        let filling = (step / 1500) % 2 == 0;
        let push = if filling { dice.roll(4) != 0 } else { dice.roll(4) == 0 };
        if push {
            pool.push(step);
            model.push(step);
        } else {
            match pool.pop() {
                Some(keep) => {
                    let guard = pool.read(&keep);
                    let value = *guard.deref(pool.heap());
                    pool.release(guard);
                    pool.discard(keep);
                    let at = model.iter().position(|held| *held == value);
                    assert!(at.is_some(), "{} was popped and never pushed", value);
                    model.swap_remove(at.unwrap());
                }
                None => assert!(model.is_empty()),
            }
        }
        assert_eq!(model.len(), pool.len());
        assert!(pool.capacity() >= 16);
        assert!(pool.capacity() >= pool.len());
    }

    let mut left = Vec::new();
    while let Some(keep) = pool.pop() {
        let guard = pool.read(&keep);
        left.push(*guard.deref(pool.heap()));
        pool.release(guard);
        pool.discard(keep);
    }
    left.sort();
    model.sort();
    assert_eq!(model, left);
}

#[test]
fn every_value_of_a_cell_is_freed_once_in_any_order() {
    let mut dice = Dice(7);
    let mut arena: Arena<Tally> = Arena::new();
    let mut counters: Vec<Rc<Cell<usize>>> = Vec::new();
    let mut make = |counters: &mut Vec<Rc<Cell<usize>>>| {
        let drops = Rc::new(Cell::new(0));
        counters.push(drops.clone());
        Tally {
            name: counters.len() as u64 - 1,
            drops,
        }
    };

    let first = Keep::new(&mut arena, make(&mut counters));
    let mut keeps: Vec<Keep<Tally>> = vec![first];
    let mut guards: Vec<(Guard<Tally>, u64)> = Vec::new();

    for _ in 0..5_000 {
        match dice.roll(7) {
            0 if !keeps.is_empty() => {
                let keep = &keeps[dice.roll(keeps.len() as u64) as usize];
                keep.write(&mut arena, make(&mut counters));
            }
            1 if !keeps.is_empty() => {
                let keep = &keeps[dice.roll(keeps.len() as u64) as usize];
                let guard = keep.read(&mut arena);
                let name = guard.deref(&arena).name;
                guards.push((guard, name));
            }
            2 if !keeps.is_empty() => {
                let keep = &keeps[dice.roll(keeps.len() as u64) as usize];
                let guard = keep.swap(&mut arena, make(&mut counters));
                let name = guard.deref(&arena).name;
                guards.push((guard, name));
            }
            3 if !keeps.is_empty() && keeps.len() < 8 => {
                let twin = keeps[dice.roll(keeps.len() as u64) as usize].clone(&mut arena);
                keeps.push(twin);
            }
            4 if keeps.len() > 1 => {
                let at = dice.roll(keeps.len() as u64) as usize;
                keeps.swap_remove(at).destroy(&mut arena);
            }
            5 if !guards.is_empty() => {
                let at = dice.roll(guards.len() as u64) as usize;
                let (guard, name) = guards.swap_remove(at);
                assert_eq!(name, guard.deref(&arena).name);
                guard.release(&mut arena);
            }
            6 if !guards.is_empty() => {
                let at = dice.roll(guards.len() as u64) as usize;
                let twin = guards[at].0.clone(&mut arena);
                let name = guards[at].1;
                guards.push((twin, name));
            }
            _ => {}
        }
        // nothing is freed twice, and nothing that a guard observes is freed
        for drops in &counters {
            assert!(drops.get() <= 1);
        }
        for (guard, name) in &guards {
            assert!(arena.is_held(guard));
            assert_eq!(0, counters[*name as usize].get());
            assert_eq!(*name, guard.deref(&arena).name);
        }
    }

    for (guard, _) in guards {
        guard.release(&mut arena);
    }
    for keep in keeps {
        keep.destroy(&mut arena);
    }
    for (name, drops) in counters.iter().enumerate() {
        assert_eq!(1, drops.get(), "value {}", name);
    }
}
