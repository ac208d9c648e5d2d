//! The read handle.
use crate::keep::Arena;
use std::marker::PhantomData;
use vstd::prelude::*;
use vstd::std_specs::cmp::PartialEqSpec;

verus! {

/// A read in progress: the generation that it observes, the slot of the
/// accessor list that it occupies, and the cell that both belong to.
///
/// While a guard is held, the generation that it observes is not freed.
#[derive(Debug)]
pub struct Guard<T> {
    ptr: usize,
    node: usize,
    tracked_atomic: usize,
    of: PhantomData<T>,
}

/// Whether two guards stand for the same read: the same slot of the same
/// cell.
pub open spec fn same_read<T>(a: Guard<T>, b: Guard<T>) -> bool {
    a.cell() == b.cell() && a.slot() == b.slot()
}

impl<T> Guard<T> {
    /// The address of the generation observed.
    pub closed spec fn addr(&self) -> usize {
        self.ptr
    }

    /// The position of the slot occupied.
    pub closed spec fn slot(&self) -> usize {
        self.node
    }

    /// The cell that the guard was issued against.
    pub closed spec fn cell(&self) -> usize {
        self.tracked_atomic
    }

    pub(crate) fn new(ptr: usize, node: usize, tracked_atomic: usize) -> (g: Self)
        ensures
            g.addr() == ptr,
            g.slot() == node,
            g.cell() == tracked_atomic,
    {
        Guard { ptr, node, tracked_atomic, of: PhantomData }
    }

    pub(crate) fn generation(&self) -> (ptr: usize)
        ensures
            ptr == self.addr(),
    {
        self.ptr
    }

    pub(crate) fn position(&self) -> (node: usize)
        ensures
            node == self.slot(),
    {
        self.node
    }

    pub(crate) fn owner(&self) -> (tracked_atomic: usize)
        ensures
            tracked_atomic == self.cell(),
    {
        self.tracked_atomic
    }

    /// The value observed.
    pub fn deref<'a>(&self, arena: &'a Arena<T>) -> (v: &'a T)
        requires
            arena.wf(),
            arena.holds(self),
        ensures
            *v == arena.observed(self),
    {
        arena.borrow(self)
    }

    /// One more read of the same generation, in a slot of its own.
    pub fn clone(&self, arena: &mut Arena<T>) -> (again: Self)
        requires
            old(arena).wf(),
            old(arena).holds(self),
        ensures
            final(arena).wf(),
            final(arena)@ == old(arena)@.step_cell(
                self.cell(),
                old(arena)@.cells[self.cell() as int].observe(self.addr()),
            ),
            final(arena).holds(&again),
            final(arena).holds(self),
            again.cell() == self.cell(),
            again.addr() == self.addr(),
            again.slot() != self.slot(),
            final(arena).observed(&again) == old(arena).observed(self),
            old(arena)@.links_kept(final(arena)@),
            old(arena)@.guards_kept(final(arena)@),
            old(arena)@.values_kept(final(arena)@),
    {
        proof {
            old(arena)@.cells[self.cell() as int].lemma_observe_again(self.addr(), self.slot());
        }
        arena.observe(self)
    }

    /// Ends the read: the slot is cleared, and the generation is freed if it
    /// is no longer published and no other reader observes it.
    pub fn release(self, arena: &mut Arena<T>)
        requires
            old(arena).wf(),
            old(arena).holds(&self),
        ensures
            final(arena).wf(),
            final(arena)@ == old(arena)@.step_cell(
                self.cell(),
                old(arena)@.cells[self.cell() as int].release(self.addr(), self.slot()),
            ),
            old(arena)@.links_kept(final(arena)@),
            old(arena)@.values_kept(final(arena)@),
            forall|other: Guard<T>|
                old(arena).holds(&other) && !same_read(other, self) ==> #[trigger] final(arena).holds(
                    &other,
                ) && final(arena).observed(&other) == old(arena).observed(&other),
    {
        arena.release(self)
    }

    /// Whether two guards observe equal values.
    pub fn eq(&self, other: &Self, arena: &Arena<T>) -> (same: bool) where T: PartialEq
        requires
            arena.wf(),
            arena.holds(self),
            arena.holds(other),
        ensures
            T::obeys_eq_spec() ==> same == arena.observed(self).eq_spec(&arena.observed(other)),
    {
        arena.borrow(self) == arena.borrow(other)
    }
}

} // verus!
