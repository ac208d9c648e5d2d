use keep::{Arena, Keep};

struct Cat(&'static str);

impl Cat {
    fn meow(&self) {
        println!("{}: meow!", self.0);
    }
}

impl Drop for Cat {
    fn drop(&mut self) {
        println!("{}: Zzz...", self.0);
    }
}

#[test]
fn roundtrip() {
    let mut arena = Arena::new();
    let keep = Keep::new(&mut arena, 39);
    let guard = keep.read(&mut arena);

    keep.write(&mut arena, 42);

    let fresh = keep.read(&mut arena);
    assert_eq!(42, *fresh.deref(&arena));
    fresh.release(&mut arena);
    keep.destroy(&mut arena);
    assert_eq!(39, *guard.deref(&arena));
}

#[test]
fn drops() {
    let mut arena = Arena::new();
    let keep = Keep::new(&mut arena, Cat("Fleur"));
    let guard = keep.read(&mut arena);
    guard.deref(&arena).meow();
    guard.release(&mut arena);
    keep.clone(&mut arena).destroy(&mut arena);
    println!("Dropping fleur");
    keep.destroy(&mut arena);

    let keep2 = Keep::new(&mut arena, Cat("Yuumi"));
    keep2.write(&mut arena, Cat("Evil Yuumi"));
    let guard2 = keep2.read(&mut arena);
    keep2.destroy(&mut arena);
    guard2.deref(&arena).meow();
    println!("Dropping Evil Yuumi");
    guard2.release(&mut arena);
}
