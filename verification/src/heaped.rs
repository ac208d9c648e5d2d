//! Heap residence with explicit, single-shot release.
use vstd::prelude::*;

verus! {

/// Owns a value on the heap until it is freed by hand.
///
/// Freeing is explicit and happens at most once: a freed handle is empty and
/// stays empty.
pub struct Heap<T> {
    slot: Option<Box<T>>,
}

impl<T> Heap<T> {
    /// The value behind the handle, `None` once freed.
    pub closed spec fn view(&self) -> Option<T> {
        match self.slot {
            Some(b) => Some(*b),
            None => None,
        }
    }

    /// Takes over a value that already lives on the heap.
    pub fn from_ptr(ptr: Box<T>) -> (h: Self)
        ensures
            h@ == Some(*ptr),
    {
        Heap { slot: Some(ptr) }
    }

    /// Drops the value and leaves the handle empty. Says whether there was
    /// anything left to free.
    pub fn free(&mut self) -> (freed: bool)
        ensures
            final(self)@ is None,
            freed == old(self)@ is Some,
    {
        let was = self.slot.is_some();
        self.slot = None;
        was
    }

    /// The value, or `None` where a pointer would be null.
    pub fn as_ptr(&self) -> (p: Option<&T>)
        ensures
            match p {
                Some(v) => self@ == Some(*v),
                None => self@ is None,
            },
    {
        match &self.slot {
            Some(b) => Some(&**b),
            None => None,
        }
    }

    /// The value of a handle that has not been freed.
    pub fn deref(&self) -> (v: &T)
        requires
            self@ is Some,
        ensures
            Some(*v) == self@,
    {
        match &self.slot {
            Some(b) => &**b,
            None => vstd::pervasive::unreached(),
        }
    }
}

/// The capability to be moved onto the heap: a bare value, a boxed value and
/// an existing handle are handed over in the same way.
pub trait Heaped<T>: Sized {
    /// What the heap will hold, `None` for a handle that was freed before.
    spec fn pointee(self) -> Option<T>;

    /// Moves `self` onto the heap.
    fn heaped(self) -> (h: Heap<T>)
        ensures
            h@ == self.pointee(),
    ;
}

impl<T> Heaped<T> for T {
    open spec fn pointee(self) -> Option<T> {
        Some(self)
    }

    fn heaped(self) -> (h: Heap<T>) {
        Heap::from_ptr(Box::new(self))
    }
}

impl<T> Heaped<T> for Box<T> {
    open spec fn pointee(self) -> Option<T> {
        Some(*self)
    }

    fn heaped(self) -> (h: Heap<T>) {
        Heap::from_ptr(self)
    }
}

impl<T> Heaped<T> for Heap<T> {
    open spec fn pointee(self) -> Option<T> {
        self@
    }

    fn heaped(self) -> (h: Heap<T>) {
        self
    }
}

} // verus!
