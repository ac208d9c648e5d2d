//! The shared handle to a cell, and the arena that the cells live in.
//!
//! A [`Keep`] does not name its cell directly. It names a link, and the link
//! names the cell: handles that were cloned from one another share the link,
//! so two families of handles can trade their cells in one step, and a guard,
//! which names the cell itself, is not disturbed by the trade.
use crate::cell_state::CellState;
use crate::guard::{same_read, Guard};
use crate::heaped::Heaped;
use crate::tracked_atomic::TrackedAtomic;
use std::marker::PhantomData;
use vstd::prelude::*;

verus! {

/// What an arena holds, seen from outside.
pub struct ArenaState<T> {
    /// The cell that each link names.
    pub links: Seq<usize>,
    /// The state of each cell.
    pub cells: Seq<CellState<T>>,
}

impl<T> ArenaState<T> {
    /// Each link names a cell, each cell is in order, and there is one link
    /// for each cell.
    pub open spec fn inv(self) -> bool {
        &&& self.links.len() == self.cells.len()
        &&& self.links.len() <= usize::MAX
        &&& forall|l: int| 0 <= l < self.links.len() ==> (#[trigger] self.links[l]) < self.cells.len()
        &&& forall|c: int| 0 <= c < self.cells.len() ==> (#[trigger] self.cells[c]).inv()
    }

    /// Whether no two links ever traded their cells: each link names the
    /// cell that was made with it.
    pub open spec fn unswapped(self) -> bool {
        forall|l: int| 0 <= l < self.links.len() ==> #[trigger] self.links[l] == l
    }

    /// The state of the cell that `link` names.
    pub open spec fn cell_of(self, link: usize) -> CellState<T> {
        self.cells[self.links[link as int] as int]
    }

    /// Whether `link` exists and names a cell that some handle still counts
    /// on.
    pub open spec fn live(self, link: usize) -> bool {
        link < self.links.len() && self.cell_of(link).accessors > 0
    }

    /// The arena after the cell that `link` names took a step to `next`.
    pub open spec fn step(self, link: usize, next: CellState<T>) -> Self {
        ArenaState { cells: self.cells.update(self.links[link as int] as int, next), ..self }
    }

    /// The arena after the cell `cell` took a step to `next`.
    pub open spec fn step_cell(self, cell: usize, next: CellState<T>) -> Self {
        ArenaState { cells: self.cells.update(cell as int, next), ..self }
    }

    /// The arena with one more cell around `value`, named by one more link
    /// and counted on by one handle.
    pub open spec fn create(self, value: T) -> Self {
        ArenaState {
            links: self.links.push(self.cells.len() as usize),
            cells: self.cells.push(CellState::fresh(value).register()),
        }
    }

    /// The arena after the links `a` and `b` traded their cells.
    pub open spec fn swap_with(self, a: usize, b: usize) -> Self {
        ArenaState {
            links: self.links.update(b as int, self.links[a as int]).update(
                a as int,
                self.links[b as int],
            ),
            ..self
        }
    }

    /// What the end of a handle on `link` does to the cell: one handle less,
    /// and the teardown if nothing is left that names or observes the cell.
    pub open spec fn unlink(self, link: usize) -> Self {
        self.step(link, self.cell_of(link).retire())
    }
}

impl<T> ArenaState<T> {
    /// Whether the slot at `pos` of the cell `cell` is taken by a read.
    pub open spec fn taken(self, cell: usize, pos: usize) -> bool {
        &&& cell < self.cells.len()
        &&& pos < self.cells[cell as int].domain.len()
        &&& self.cells[cell as int].domain[pos as int] is Some
    }

    /// Whether `later` has every link of `self`, naming the same cell.
    pub open spec fn links_kept(self, later: Self) -> bool {
        &&& self.links.len() <= later.links.len()
        &&& self.cells.len() <= later.cells.len()
        &&& forall|l: int| 0 <= l < self.links.len() ==> #[trigger] later.links[l] == self.links[l]
    }

    /// Whether every read in progress in `self` is in progress in `later`, on
    /// the same value.
    pub open spec fn guards_kept(self, later: Self) -> bool {
        &&& self.cells.len() <= later.cells.len()
        &&& forall|c: int, addr: usize, pos: usize|
            0 <= c < self.cells.len() && #[trigger] self.cells[c].held(addr, pos) ==> {
                &&& later.cells[c].held(addr, pos)
                &&& later.cells[c].payloads[addr as int] == self.cells[c].payloads[addr as int]
            }
    }

    /// Whether every cell of `self` that a handle counts on has the same
    /// count and the same published value in `later`.
    pub open spec fn values_kept(self, later: Self) -> bool {
        &&& self.cells.len() <= later.cells.len()
        &&& forall|c: int|
            0 <= c < self.cells.len() && (#[trigger] self.cells[c]).accessors > 0 ==> {
                &&& later.cells[c].accessors == self.cells[c].accessors
                &&& later.cells[c].value() == self.cells[c].value()
            }
    }

    /// A read through `link` disturbs no handle and no other read, and
    /// takes a slot that no read had.
    pub proof fn lemma_read_keeps(self, link: usize)
        requires
            self.inv(),
            self.live(link),
        ensures
            self.step(link, self.cell_of(link).load()).inv(),
            self.links_kept(self.step(link, self.cell_of(link).load())),
            self.guards_kept(self.step(link, self.cell_of(link).load())),
            self.values_kept(self.step(link, self.cell_of(link).load())),
            self.cell_of(link).next_slot() <= usize::MAX ==> !self.taken(
                self.links[link as int],
                self.cell_of(link).next_slot() as usize,
            ),
    {
        self.cell_of(link).lemma_load();
        crate::alist::lemma_first_free(self.cell_of(link).domain);
    }

    /// A slot that is taken stays taken while every read goes on.
    pub proof fn lemma_taken_kept(self, later: Self, cell: usize, pos: usize)
        requires
            self.guards_kept(later),
            self.taken(cell, pos),
        ensures
            later.taken(cell, pos),
    {
        let addr = self.cells[cell as int].domain[pos as int]->0;
        assert(self.cells[cell as int].held(addr, pos));
    }

    /// A new cell disturbs no handle and no read.
    pub proof fn lemma_create_keeps(self, value: T)
        requires
            self.inv(),
            self.cells.len() < usize::MAX,
            self.links.len() < usize::MAX,
        ensures
            self.create(value).inv(),
            self.links_kept(self.create(value)),
            self.guards_kept(self.create(value)),
            self.values_kept(self.create(value)),
            self.create(value).live(self.links.len() as usize),
            self.create(value).cell_of(self.links.len() as usize).value() == value,
            self.create(value).cell_of(self.links.len() as usize).accessors == 1,
            self.create(value).links[self.links.len() as int] == self.cells.len(),
    {
        CellState::lemma_fresh(value);
        CellState::fresh(value).lemma_register();
    }

    /// One more handle through `link` disturbs no read and changes no value.
    pub proof fn lemma_register_keeps(self, link: usize)
        requires
            self.inv(),
            self.live(link),
        ensures
            self.step(link, self.cell_of(link).register()).inv(),
            self.links_kept(self.step(link, self.cell_of(link).register())),
            self.guards_kept(self.step(link, self.cell_of(link).register())),
    {
        self.cell_of(link).lemma_register();
    }

    /// The end of a handle on `link` disturbs no read.
    pub proof fn lemma_unlink_keeps(self, link: usize)
        requires
            self.inv(),
            self.live(link),
        ensures
            self.unlink(link).inv(),
            self.links_kept(self.unlink(link)),
            self.guards_kept(self.unlink(link)),
    {
        let cell = self.cell_of(link);
        cell.law_step(crate::history::Step::Retire);
    }

    /// The end of a read disturbs no handle and no other read.
    pub proof fn lemma_release_keeps(self, cell: usize, addr: usize, pos: usize)
        requires
            self.inv(),
            cell < self.cells.len(),
            self.cells[cell as int].held(addr, pos),
        ensures
            self.step_cell(cell, self.cells[cell as int].release(addr, pos)).inv(),
            self.links_kept(self.step_cell(cell, self.cells[cell as int].release(addr, pos))),
            self.values_kept(self.step_cell(cell, self.cells[cell as int].release(addr, pos))),
            forall|c: int, a: usize, p: usize|
                0 <= c < self.cells.len() && #[trigger] self.cells[c].held(a, p) && !(c == cell
                    && p == pos) ==> {
                    &&& self.step_cell(cell, self.cells[cell as int].release(addr, pos)).cells[c].held(
                        a,
                        p,
                    )
                    &&& self.step_cell(
                        cell,
                        self.cells[cell as int].release(addr, pos),
                    ).cells[c].payloads[a as int] == self.cells[c].payloads[a as int]
                },
    {
        self.cells[cell as int].lemma_release(addr, pos);
        self.cells[cell as int].law_step(crate::history::Step::Release(addr, pos));
    }
}

/// The cells, by index. A cell is never moved and its index is never given
/// to another cell, so a handle cannot come to name a stranger.
pub struct Arena<T> {
    atomics: Vec<TrackedAtomic<T>>,
    links: Vec<usize>,
}

/// A shared handle to a cell. It is cloned through the arena, which counts
/// the handles of each cell.
#[derive(Debug)]
pub struct Keep<T> {
    tracked_atomic: usize,
    of: PhantomData<T>,
}

/// What a handle named at the moment of a read: the token for a later
/// compare-and-swap of the handle's cell.
#[derive(Debug)]
pub struct KeepMarker<T> {
    tracked_atomic: usize,
    of: PhantomData<T>,
}

impl<T> KeepMarker<T> {
    /// The cell that was seen.
    pub closed spec fn cell(&self) -> usize {
        self.tracked_atomic
    }
}

impl<T> Keep<T> {
    /// The link that the handle names.
    pub closed spec fn link(&self) -> usize {
        self.tracked_atomic
    }
}

impl<T> Arena<T> {
    /// The state of the arena.
    pub closed spec fn view(&self) -> ArenaState<T> {
        ArenaState {
            links: self.links@,
            cells: Seq::new(self.atomics@.len(), |i: int| self.atomics@[i]@),
        }
    }

    /// Each cell is in order and issues its guards under its own index.
    pub closed spec fn cells_wf(&self) -> bool {
        forall|i: int|
            0 <= i < self.atomics@.len() ==> (#[trigger] self.atomics@[i]).wf() && self.atomics@[i].id()
                == i
    }

    /// The arena is in order.
    pub open spec fn wf(&self) -> bool {
        self.cells_wf() && self@.inv()
    }

    /// Whether `keep` names a cell that some handle still counts on.
    pub open spec fn live(&self, keep: &Keep<T>) -> bool {
        self@.live(keep.link())
    }

    /// The value published in the cell that `keep` names.
    pub open spec fn value(&self, keep: &Keep<T>) -> T {
        self@.cell_of(keep.link()).value()
    }

    /// Whether `guard` is a read in progress.
    pub open spec fn holds(&self, guard: &Guard<T>) -> bool {
        guard.cell() < self@.cells.len() && self@.cells[guard.cell() as int].held(
            guard.addr(),
            guard.slot(),
        )
    }

    /// The value that `guard` observes.
    pub open spec fn observed(&self, guard: &Guard<T>) -> T {
        self@.cells[guard.cell() as int].payloads[guard.addr() as int]->0
    }

    /// An arena without cells.
    pub fn new() -> (arena: Self)
        ensures
            arena.wf(),
            arena@.links.len() == 0,
            arena@.cells.len() == 0,
    {
        Arena { atomics: Vec::new(), links: Vec::new() }
    }

    /// Whether `keep` names a cell that some handle still counts on.
    pub fn is_live(&self, keep: &Keep<T>) -> (live: bool)
        requires
            self.wf(),
        ensures
            live == self.live(keep),
    {
        if keep.tracked_atomic < self.links.len() {
            let cell = self.links[keep.tracked_atomic];
            assert(self@.cells[cell as int] == self.atomics@[cell as int]@);
            self.atomics[cell].accessors() > 0
        } else {
            false
        }
    }

    /// Whether `guard` is a read in progress.
    pub fn is_held(&self, guard: &Guard<T>) -> (held: bool)
        requires
            self.wf(),
        ensures
            held == self.holds(guard),
    {
        let cell = guard.owner();
        if cell < self.atomics.len() {
            assert(self@.cells[cell as int] == self.atomics@[cell as int]@);
            self.atomics[cell].is_held(guard)
        } else {
            false
        }
    }

    /// Ends the read `guard`.
    pub fn release(&mut self, guard: Guard<T>)
        requires
            old(self).wf(),
            old(self).holds(&guard),
        ensures
            final(self).wf(),
            final(self)@ == old(self)@.step_cell(
                guard.cell(),
                old(self)@.cells[guard.cell() as int].release(guard.addr(), guard.slot()),
            ),
            old(self)@.links_kept(final(self)@),
            old(self)@.values_kept(final(self)@),
            forall|other: Guard<T>|
                old(self).holds(&other) && !same_read(other, guard) ==> #[trigger] final(self).holds(
                    &other,
                ) && final(self).observed(&other) == old(self).observed(&other),
    {
        let cell = guard.owner();
        proof {
            old(self)@.lemma_release_keeps(cell, guard.addr(), guard.slot());
        }
        self.atomics[cell].release(guard);
        proof {
            old(self)@.cells[cell as int].lemma_release(guard.addr(), guard.slot());
            assert(self@.links == old(self)@.links);
            assert(self@.cells =~= old(self)@.cells.update(cell as int, self.atomics@[cell as int]@));
        }
    }

    /// Starts one more read of what `guard` observes.
    pub fn observe(&mut self, guard: &Guard<T>) -> (again: Guard<T>)
        requires
            old(self).wf(),
            old(self).holds(guard),
        ensures
            final(self).wf(),
            final(self)@ == old(self)@.step_cell(
                guard.cell(),
                old(self)@.cells[guard.cell() as int].observe(guard.addr()),
            ),
            final(self).holds(&again),
            final(self).holds(guard),
            again.cell() == guard.cell(),
            again.addr() == guard.addr(),
            again.slot() == old(self)@.cells[guard.cell() as int].next_slot(),
            final(self).observed(&again) == old(self).observed(guard),
            old(self)@.links_kept(final(self)@),
            old(self)@.guards_kept(final(self)@),
            old(self)@.values_kept(final(self)@),
    {
        let cell = guard.owner();
        proof {
            old(self)@.cells[cell as int].lemma_observe_again(guard.addr(), guard.slot());
            old(self)@.cells[cell as int].lemma_observe(guard.addr());
        }
        let again = self.atomics[cell].observe(guard.generation());
        proof {
            assert(self@.links == old(self)@.links);
            assert(self@.cells =~= old(self)@.cells.update(cell as int, self.atomics@[cell as int]@));
        }
        again
    }

    /// The value that `guard` observes.
    pub fn borrow(&self, guard: &Guard<T>) -> (v: &T)
        requires
            self.wf(),
            self.holds(guard),
        ensures
            *v == self.observed(guard),
    {
        self.atomics[guard.owner()].borrow(guard)
    }
}

impl<T> Keep<T> {
    /// A cell around `val` in `arena`, and the first handle to it.
    pub fn new<H: Heaped<T>>(arena: &mut Arena<T>, val: H) -> (keep: Self)
        requires
            old(arena).wf(),
            val.pointee() is Some,
        ensures
            final(arena).wf(),
            final(arena)@ == old(arena)@.create(val.pointee()->0),
            keep.link() == old(arena)@.links.len(),
            final(arena).live(&keep),
            final(arena).value(&keep) == val.pointee()->0,
            old(arena)@.links_kept(final(arena)@),
            old(arena)@.guards_kept(final(arena)@),
            old(arena)@.values_kept(final(arena)@),
    {
        let id = arena.atomics.len();
        let link = arena.links.len();
        let mut cell = TrackedAtomic::new(val, id);
        cell.register_accessor();
        arena.atomics.push(cell);
        arena.links.push(id);
        proof {
            assert(arena.links.len() <= usize::MAX);
            assert(arena@.cells =~= old(arena)@.cells.push(cell@));
            assert(arena@.links =~= old(arena)@.links.push(id));
        }
        Keep { tracked_atomic: link, of: PhantomData }
    }

    /// Starts a read of the published value.
    pub fn read(&self, arena: &mut Arena<T>) -> (guard: Guard<T>)
        requires
            old(arena).wf(),
            old(arena).live(self),
        ensures
            final(arena).wf(),
            final(arena)@ == old(arena)@.step(self.link(), old(arena)@.cell_of(self.link()).load()),
            final(arena).holds(&guard),
            final(arena).observed(&guard) == old(arena).value(self),
            guard.cell() == old(arena)@.links[self.link() as int],
            guard.addr() == old(arena)@.cell_of(self.link()).current,
            guard.slot() == old(arena)@.cell_of(self.link()).next_slot(),
            old(arena)@.links_kept(final(arena)@),
            old(arena)@.guards_kept(final(arena)@),
            old(arena)@.values_kept(final(arena)@),
            !old(arena)@.taken(guard.cell(), guard.slot()),
    {
        let cell = arena.links[self.tracked_atomic];
        proof {
            old(arena)@.cells[cell as int].lemma_load();
            old(arena)@.lemma_read_keeps(self.link());
        }
        let guard = arena.atomics[cell].load();
        proof {
            assert(arena@.cells =~= old(arena)@.cells.update(
                cell as int,
                arena.atomics@[cell as int]@,
            ));
        }
        guard
    }

    /// Starts a read of the published value and notes which cell the handle
    /// named at that moment.
    pub fn read_marked(&self, arena: &mut Arena<T>) -> (marked: (Guard<T>, KeepMarker<T>))
        requires
            old(arena).wf(),
            old(arena).live(self),
        ensures
            final(arena).wf(),
            final(arena)@ == old(arena)@.step(self.link(), old(arena)@.cell_of(self.link()).load()),
            final(arena).holds(&marked.0),
            final(arena).observed(&marked.0) == old(arena).value(self),
            marked.0.cell() == old(arena)@.links[self.link() as int],
            marked.0.addr() == old(arena)@.cell_of(self.link()).current,
            marked.0.slot() == old(arena)@.cell_of(self.link()).next_slot(),
            marked.1.cell() == old(arena)@.links[self.link() as int],
            old(arena)@.links_kept(final(arena)@),
            old(arena)@.guards_kept(final(arena)@),
            old(arena)@.values_kept(final(arena)@),
    {
        let tracked_atomic = arena.links[self.tracked_atomic];
        let marker = KeepMarker { tracked_atomic, of: PhantomData };
        let guard = self.read(arena);
        (guard, marker)
    }

    /// Publishes `val`. The value replaced is freed at once unless a reader
    /// observes it.
    pub fn write<H: Heaped<T>>(&self, arena: &mut Arena<T>, val: H)
        requires
            old(arena).wf(),
            old(arena).live(self),
            val.pointee() is Some,
        ensures
            final(arena).wf(),
            final(arena)@ == old(arena)@.step(
                self.link(),
                old(arena)@.cell_of(self.link()).store(val.pointee()->0),
            ),
            final(arena).live(self),
            final(arena).value(self) == val.pointee()->0,
            old(arena)@.links_kept(final(arena)@),
            old(arena)@.guards_kept(final(arena)@),
    {
        let cell = arena.links[self.tracked_atomic];
        arena.atomics[cell].store(val);
        proof {
            old(arena)@.cells[cell as int].lemma_store(val.pointee()->0);
            assert(arena@.cells =~= old(arena)@.cells.update(
                cell as int,
                arena.atomics@[cell as int]@,
            ));
        }
    }

    /// Publishes `new_value` and starts a read of the value replaced.
    pub fn swap<H: Heaped<T>>(&self, arena: &mut Arena<T>, new_value: H) -> (guard: Guard<T>)
        requires
            old(arena).wf(),
            old(arena).live(self),
            new_value.pointee() is Some,
        ensures
            final(arena).wf(),
            final(arena)@ == old(arena)@.step(
                self.link(),
                old(arena)@.cell_of(self.link()).swap(new_value.pointee()->0),
            ),
            final(arena).live(self),
            final(arena).value(self) == new_value.pointee()->0,
            final(arena).holds(&guard),
            final(arena).observed(&guard) == old(arena).value(self),
            guard.cell() == old(arena)@.links[self.link() as int],
            guard.addr() == old(arena)@.cell_of(self.link()).current,
            guard.slot() == old(arena)@.cell_of(self.link()).next_slot(),
            old(arena)@.links_kept(final(arena)@),
            old(arena)@.guards_kept(final(arena)@),
    {
        let cell = arena.links[self.tracked_atomic];
        let guard = arena.atomics[cell].swap(new_value);
        proof {
            old(arena)@.cells[cell as int].lemma_swap(new_value.pointee()->0);
            assert(arena@.cells =~= old(arena)@.cells.update(
                cell as int,
                arena.atomics@[cell as int]@,
            ));
        }
        guard
    }

    /// Whether `guard` observes the generation that is published in the cell
    /// that the handle names.
    pub open spec fn is_current(&self, arena: &Arena<T>, guard: &Guard<T>) -> bool {
        guard.cell() == arena@.links[self.link() as int] && guard.addr() == arena@.cell_of(
            self.link(),
        ).current
    }

    /// Publishes `new_value` if `current` still observes the published
    /// generation.
    ///
    /// `Ok` holds a read of the value replaced. `Err` means that `current` is
    /// stale and nothing was published; it holds a read of the value that is
    /// published instead.
    pub fn exchange<H: Heaped<T>>(&self, arena: &mut Arena<T>, current: &Guard<T>, new_value: H) -> (result:
        Result<Guard<T>, Guard<T>>)
        requires
            old(arena).wf(),
            old(arena).live(self),
            new_value.pointee() is Some,
        ensures
            final(arena).wf(),
            final(arena)@ == old(arena)@.step(
                self.link(),
                if self.is_current(old(arena), current) {
                    old(arena)@.cell_of(self.link()).swap(new_value.pointee()->0)
                } else {
                    old(arena)@.cell_of(self.link()).load()
                },
            ),
            result is Ok <==> self.is_current(old(arena), current),
            final(arena).live(self),
            match result {
                Ok(guard) | Err(guard) => {
                    &&& final(arena).holds(&guard)
                    &&& final(arena).observed(&guard) == old(arena).value(self)
                    &&& guard.cell() == old(arena)@.links[self.link() as int]
                    &&& guard.addr() == old(arena)@.cell_of(self.link()).current
                    &&& guard.slot() == old(arena)@.cell_of(self.link()).next_slot()
                },
            },
            old(arena)@.links_kept(final(arena)@),
            old(arena)@.guards_kept(final(arena)@),
    {
        let cell = arena.links[self.tracked_atomic];
        proof {
            old(arena)@.cells[cell as int].lemma_load();
        }
        let result = arena.atomics[cell].exchange(current, new_value);
        proof {
            if self.is_current(old(arena), current) {
                old(arena)@.cells[cell as int].lemma_swap(new_value.pointee()->0);
            }
            assert(arena@.cells =~= old(arena)@.cells.update(
                cell as int,
                arena.atomics@[cell as int]@,
            ));
        }
        result
    }

    /// Trades cells with `other`: every handle that shares this handle's
    /// link names from now on what `other` named, and the other way round.
    /// Guards are not touched.
    pub fn swap_with(&self, arena: &mut Arena<T>, other: &Keep<T>)
        requires
            old(arena).wf(),
            self.link() < old(arena)@.links.len(),
            other.link() < old(arena)@.links.len(),
        ensures
            final(arena).wf(),
            final(arena)@ == old(arena)@.swap_with(self.link(), other.link()),
    {
        let a = arena.links[self.tracked_atomic];
        let b = arena.links[other.tracked_atomic];
        arena.links[other.tracked_atomic] = a;
        arena.links[self.tracked_atomic] = b;
        proof {
            assert(arena@.cells =~= old(arena)@.cells);
        }
    }

    /// Trades cells with `other` if this handle still names the cell that
    /// `marker` saw. Says whether the trade took place.
    pub fn swap_with_marked(&self, arena: &mut Arena<T>, marker: KeepMarker<T>, other: &Keep<T>) -> (swapped:
        bool)
        requires
            old(arena).wf(),
            self.link() < old(arena)@.links.len(),
            other.link() < old(arena)@.links.len(),
        ensures
            final(arena).wf(),
            swapped == (old(arena)@.links[self.link() as int] == marker.cell()),
            final(arena)@ == if swapped {
                old(arena)@.swap_with(self.link(), other.link())
            } else {
                old(arena)@
            },
    {
        let other_ta = arena.links[other.tracked_atomic];
        let self_ta = arena.links[self.tracked_atomic];
        if self_ta == marker.tracked_atomic {
            arena.links[self.tracked_atomic] = other_ta;
            arena.links[other.tracked_atomic] = self_ta;
            proof {
                assert(arena@.cells =~= old(arena)@.cells);
                assert(arena@.links =~= old(arena)@.swap_with(self.link(), other.link()).links);
            }
            return true;
        }
        proof {
            assert(arena@.cells =~= old(arena)@.cells);
        }
        false
    }

    /// Makes this handle one more handle to the cell of `other`, and returns
    /// the handle that it was before, for the caller to dispose of.
    pub fn clone_from(&mut self, arena: &mut Arena<T>, other: &Keep<T>) -> (previous: Self)
        requires
            old(arena).wf(),
            old(arena).live(other),
            old(arena)@.cell_of(other.link()).accessors < usize::MAX,
        ensures
            final(arena).wf(),
            final(arena)@ == old(arena)@.step(
                other.link(),
                old(arena)@.cell_of(other.link()).register(),
            ),
            final(self).link() == other.link(),
            previous.link() == old(self).link(),
            old(arena)@.links_kept(final(arena)@),
            old(arena)@.guards_kept(final(arena)@),
    {
        let other_ta = arena.links[other.tracked_atomic];
        arena.atomics[other_ta].register_accessor();
        proof {
            assert(arena@.cells =~= old(arena)@.cells.update(
                other_ta as int,
                arena.atomics@[other_ta as int]@,
            ));
        }
        let before = self.tracked_atomic;
        self.tracked_atomic = other.tracked_atomic;
        Keep { tracked_atomic: before, of: PhantomData }
    }

    /// One more handle to the same cell, through the same link.
    pub fn clone(&self, arena: &mut Arena<T>) -> (twin: Self)
        requires
            old(arena).wf(),
            old(arena).live(self),
            old(arena)@.cell_of(self.link()).accessors < usize::MAX,
        ensures
            final(arena).wf(),
            final(arena)@ == old(arena)@.step(
                self.link(),
                old(arena)@.cell_of(self.link()).register(),
            ),
            twin.link() == self.link(),
            final(arena).live(&twin),
            old(arena)@.links_kept(final(arena)@),
            old(arena)@.guards_kept(final(arena)@),
    {
        let cell = arena.links[self.tracked_atomic];
        arena.atomics[cell].register_accessor();
        proof {
            assert(arena@.cells =~= old(arena)@.cells.update(
                cell as int,
                arena.atomics@[cell as int]@,
            ));
        }
        Keep { tracked_atomic: self.tracked_atomic, of: PhantomData }
    }

    /// Gives the handle up. The cell is torn down with it if this was the
    /// last handle and no reader observes the cell.
    pub fn destroy(self, arena: &mut Arena<T>)
        requires
            old(arena).wf(),
            old(arena).live(&self),
        ensures
            final(arena).wf(),
            final(arena)@ == old(arena)@.unlink(self.link()),
            old(arena)@.links_kept(final(arena)@),
            old(arena)@.guards_kept(final(arena)@),
    {
        let cell = arena.links[self.tracked_atomic];
        let last = arena.atomics[cell].unregister_accessor();
        proof {
            old(arena)@.cells[cell as int].lemma_unregister();
            old(arena)@.lemma_unlink_keeps(self.link());
        }
        if last && arena.atomics[cell].is_dead() {
            arena.atomics[cell].destroy();
        }
        proof {
            assert(arena@.cells =~= old(arena)@.cells.update(
                cell as int,
                arena.atomics@[cell as int]@,
            ));
        }
    }
}

} // verus!
