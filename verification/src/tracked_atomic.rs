//! The reclamation engine: one cell with its generations and its readers.
use crate::alist::AccessorList;
use crate::cell_state::CellState;
use crate::guard::Guard;
use crate::heaped::{Heap, Heaped};
use vstd::prelude::*;

verus! {

/// One generation of a cell's content: the value, and the one-shot flag that
/// says whether the value was freed.
pub struct Mutation<T> {
    ptr: Heap<T>,
    freed: bool,
}

impl<T> Mutation<T> {
    /// The value of the generation, `None` once freed.
    pub closed spec fn view(&self) -> Option<T> {
        self.ptr@
    }

    /// The flag is set exactly when the value is gone.
    pub closed spec fn wf(&self) -> bool {
        self.freed == (self.ptr@ is None)
    }

    /// A generation around a value that is moved onto the heap for it.
    pub fn new<H: Heaped<T>>(ptr: H) -> (m: Self)
        requires
            ptr.pointee() is Some,
        ensures
            m.wf(),
            m@ == ptr.pointee(),
    {
        Mutation { ptr: ptr.heaped(), freed: false }
    }

    /// The value, or `None` where a pointer would be null.
    pub fn inner(&self) -> (p: Option<&T>)
        ensures
            match p {
                Some(v) => self@ == Some(*v),
                None => self@ is None,
            },
    {
        self.ptr.as_ptr()
    }

    /// The value of a generation that was not freed.
    pub fn borrow(&self) -> (v: &T)
        requires
            self@ is Some,
        ensures
            Some(*v) == self@,
    {
        self.ptr.deref()
    }

    /// Sets the flag if it is not set, and only then frees the value. Says
    /// whether this call was the one that set it.
    pub fn release(&mut self) -> (first: bool)
        requires
            old(self).wf(),
        ensures
            final(self).wf(),
            final(self)@ is None,
            first == old(self)@ is Some,
    {
        if !self.freed {
            self.freed = true;
            self.ptr.free();
            true
        } else {
            false
        }
    }
}

/// A cell: the published generation, the count of handles that name the cell,
/// the accessor list of the generations under read, and the log of the
/// generations freed.
pub struct TrackedAtomic<T> {
    handle: usize,
    accessor_count: usize,
    mutation: usize,
    generations: Vec<Mutation<T>>,
    freed: AccessorList,
    domain: AccessorList,
}

impl<T> TrackedAtomic<T> {
    /// The state of the cell.
    pub closed spec fn view(&self) -> CellState<T> {
        CellState {
            accessors: self.accessor_count as nat,
            current: self.mutation,
            payloads: Seq::new(self.generations@.len(), |i: int| self.generations@[i]@),
            domain: self.domain@,
            freed: self.freed@,
        }
    }

    /// The name under which the cell issues its guards.
    pub closed spec fn id(&self) -> usize {
        self.handle
    }

    /// Each generation's flag agrees with its value.
    pub closed spec fn flags_agree(&self) -> bool {
        forall|i: int| 0 <= i < self.generations@.len() ==> (#[trigger] self.generations@[i]).wf()
    }

    /// The cell is in order.
    pub open spec fn wf(&self) -> bool {
        self.flags_agree() && self@.inv()
    }

    /// The cell is in order but for the generation `pending`, to which the
    /// policy has yet to be applied.
    pub open spec fn wf_but(&self, pending: usize) -> bool {
        self.flags_agree() && self@.inv_but(Some(pending))
    }

    /// Whether `guard` is a read in progress on this cell.
    pub open spec fn holds(&self, guard: &Guard<T>) -> bool {
        guard.cell() == self.id() && self@.held(guard.addr(), guard.slot())
    }

    /// Whether `guard` was issued by this cell and observes the generation
    /// that is published now.
    pub open spec fn names_current(&self, guard: &Guard<T>) -> bool {
        guard.cell() == self.id() && guard.addr() == self@.current
    }

    /// A cell around `value`, which issues its guards under the name
    /// `handle`. No handle names it yet.
    pub fn new<H: Heaped<T>>(value: H, handle: usize) -> (cell: Self)
        requires
            value.pointee() is Some,
        ensures
            cell.wf(),
            cell.id() == handle,
            cell@ == CellState::fresh(value.pointee()->0),
    {
        let mutation = Mutation::new(value);
        let mut generations: Vec<Mutation<T>> = Vec::new();
        generations.push(mutation);
        let mut head = AccessorList::new(Some(0));
        head.clear(0, 0);
        let cell = TrackedAtomic {
            handle,
            accessor_count: 0,
            mutation: 0,
            generations,
            freed: AccessorList::new(None),
            domain: head,
        };
        proof {
            CellState::lemma_fresh(value.pointee()->0);
            assert(cell@.payloads =~= seq![value.pointee()]);
            assert(cell@.domain =~= seq![None]);
            assert(cell@ == CellState::fresh(value.pointee()->0));
        }
        cell
    }

    /// Counts one more handle. Returns the new count.
    pub fn register_accessor(&mut self) -> (count: usize)
        requires
            old(self).wf(),
            old(self)@.readable(),
            old(self)@.accessors < usize::MAX,
        ensures
            final(self).wf(),
            final(self).id() == old(self).id(),
            final(self)@ == old(self)@.register(),
            count == final(self)@.accessors,
    {
        proof {
            self@.lemma_register();
        }
        self.accessor_count = self.accessor_count + 1;
        self.accessor_count
    }

    /// Counts one handle less. Returns `true` if it was the last one.
    pub fn unregister_accessor(&mut self) -> (last: bool)
        requires
            old(self).wf(),
            old(self)@.accessors > 0,
        ensures
            final(self).wf(),
            final(self).id() == old(self).id(),
            final(self)@ == old(self)@.unregister(),
            last == (final(self)@.accessors == 0),
    {
        proof {
            self@.lemma_unregister();
        }
        let before = self.accessor_count;
        self.accessor_count = before - 1;
        before == 1
    }

    /// The number of handles that name the cell.
    pub fn accessors(&self) -> (count: usize)
        ensures
            count == self@.accessors,
    {
        self.accessor_count
    }

    /// Whether `guard` is a read in progress on this cell.
    pub fn is_held(&self, guard: &Guard<T>) -> (held: bool)
        ensures
            held == self.holds(guard),
    {
        guard.owner() == self.handle && self.domain.holds_at(guard.position(), guard.generation())
    }

    /// Whether no handle names the cell and no reader observes it.
    pub fn is_dead(&self) -> (dead: bool)
        ensures
            dead == self@.dead(),
    {
        self.accessor_count == 0 && self.domain.is_all_empty()
    }

    /// Sets the free flag of the generation at `addr` and frees its value.
    /// Returns `false`, and changes nothing, if the flag was set before.
    fn drop_mutation(&mut self, addr: usize) -> (first: bool)
        requires
            old(self).flags_agree(),
            addr < old(self)@.payloads.len(),
        ensures
            final(self).flags_agree(),
            final(self).id() == old(self).id(),
            final(self)@ == old(self)@.reclaim(addr),
            first == old(self)@.alive(addr),
    {
        let first = self.generations[addr].release();
        if first {
            self.freed.insert(addr);
            assert(self@.payloads =~= old(self)@.payloads.update(addr as int, None));
            true
        } else {
            assert(self@.payloads =~= old(self)@.payloads);
            false
        }
    }

    /// Frees the published generation and both lists.
    pub fn destroy(&mut self)
        requires
            old(self).wf(),
            !old(self)@.torn_down(),
            old(self)@.dead(),
        ensures
            final(self).wf(),
            final(self).id() == old(self).id(),
            final(self)@ == old(self)@.teardown(),
    {
        proof {
            self@.lemma_teardown();
        }
        self.drop_mutation(self.mutation);
        self.domain.free_list();
        self.freed.free_list();
        assert(self@.domain =~= Seq::empty());
        assert(self@.freed =~= Seq::empty());
    }

    /// Applies the reclamation policy to the generation at `val`.
    pub fn try_drop(&mut self, val: usize)
        requires
            old(self).wf_but(val),
            val < old(self)@.payloads.len(),
        ensures
            final(self).wf(),
            final(self).id() == old(self).id(),
            final(self)@ == old(self)@.try_drop(val),
    {
        proof {
            self@.lemma_try_drop(val);
        }
        let accessors = self.accessor_count;
        if self.mutation == val && accessors != 0 {
            return ;
        }
        if accessors == 0 {
            match self.domain.contains_or_empty(val) {
                Some(false) => {
                    self.drop_mutation(val);
                },
                None => {
                    if self.drop_mutation(val) {
                        self.drop_mutation(self.mutation);
                        self.domain.free_list();
                        self.freed.free_list();
                        assert(self@.domain =~= Seq::empty());
                        assert(self@.freed =~= Seq::empty());
                    }
                },
                _ => (),
            }
        } else if !self.domain.contains(val) {
            self.drop_mutation(val);
        }
    }

    /// Publishes `new_value` and applies the policy to what it replaced.
    pub fn store<H: Heaped<T>>(&mut self, new_value: H)
        requires
            old(self).wf(),
            old(self)@.readable(),
            new_value.pointee() is Some,
        ensures
            final(self).wf(),
            final(self).id() == old(self).id(),
            final(self)@ == old(self)@.store(new_value.pointee()->0),
    {
        let old_value = self.publish(new_value);
        self.try_drop(old_value);
    }

    /// Observes the published generation.
    pub fn load(&mut self) -> (guard: Guard<T>)
        requires
            old(self).wf(),
            old(self)@.readable(),
        ensures
            final(self).wf(),
            final(self).id() == old(self).id(),
            final(self)@ == old(self)@.load(),
            final(self).holds(&guard),
            guard.addr() == old(self)@.current,
            guard.slot() == old(self)@.next_slot(),
    {
        proof {
            self@.lemma_load();
        }
        let ptr = self.mutation;
        let node = self.domain.insert(ptr);
        Guard::new(ptr, node, self.handle)
    }

    /// Publishes `new_value` and observes what it replaced.
    pub fn swap<H: Heaped<T>>(&mut self, new_value: H) -> (guard: Guard<T>)
        requires
            old(self).wf(),
            old(self)@.readable(),
            new_value.pointee() is Some,
        ensures
            final(self).wf(),
            final(self).id() == old(self).id(),
            final(self)@ == old(self)@.swap(new_value.pointee()->0),
            final(self).holds(&guard),
            guard.addr() == old(self)@.current,
            guard.slot() == old(self)@.next_slot(),
    {
        let old_value = self.publish(new_value);
        proof {
            old(self)@.lemma_swap(new_value.pointee()->0);
        }
        let node = self.domain.insert(old_value);
        Guard::new(old_value, node, self.handle)
    }

    /// Publishes `new_value` if the generation that `current` observes is
    /// still the published one, and observes what was published before the
    /// call either way: `Ok` with the generation replaced, `Err` with the
    /// generation that stands in the way.
    pub fn exchange<H: Heaped<T>>(&mut self, current: &Guard<T>, new_value: H) -> (result: Result<
        Guard<T>,
        Guard<T>,
    >)
        requires
            old(self).wf(),
            old(self)@.readable(),
            new_value.pointee() is Some,
        ensures
            final(self).wf(),
            final(self).id() == old(self).id(),
            final(self)@ == if old(self).names_current(current) {
                old(self)@.swap(new_value.pointee()->0)
            } else {
                old(self)@.load()
            },
            result is Ok <==> old(self).names_current(current),
            match result {
                Ok(guard) | Err(guard) => {
                    &&& final(self).holds(&guard)
                    &&& guard.addr() == old(self)@.current
                    &&& guard.slot() == old(self)@.next_slot()
                },
            },
    {
        if current.owner() == self.handle && self.mutation == current.generation() {
            Ok(self.swap(new_value))
        } else {
            Err(self.load())
        }
    }

    /// Observes once more the generation at `ptr`, which a reader observes
    /// already.
    pub fn observe(&mut self, ptr: usize) -> (guard: Guard<T>)
        requires
            old(self).wf(),
            old(self)@.observed(ptr),
        ensures
            final(self).wf(),
            final(self).id() == old(self).id(),
            final(self)@ == old(self)@.observe(ptr),
            final(self).holds(&guard),
            guard.addr() == ptr,
            guard.slot() == old(self)@.next_slot(),
    {
        proof {
            let i = choose|i: int| 0 <= i < self@.domain.len() && self@.domain[i] == Some(ptr);
            assert(self@.alive(self@.domain[i]->0));
            self@.lemma_observe(ptr);
        }
        let node = self.domain.insert(ptr);
        Guard::new(ptr, node, self.handle)
    }

    /// Ends the read `guard`: clears its slot and applies the policy to the
    /// generation that it observed.
    pub fn release(&mut self, guard: Guard<T>)
        requires
            old(self).wf(),
            old(self).holds(&guard),
        ensures
            final(self).wf(),
            final(self).id() == old(self).id(),
            final(self)@ == old(self)@.release(guard.addr(), guard.slot()),
    {
        proof {
            self@.lemma_release_clears(guard.addr(), guard.slot());
        }
        self.domain.clear(guard.position(), guard.generation());
        self.try_drop(guard.generation());
    }

    /// The value that `guard` observes.
    pub fn borrow(&self, guard: &Guard<T>) -> (v: &T)
        requires
            self.wf(),
            self.holds(guard),
        ensures
            Some(*v) == self@.payloads[guard.addr() as int],
    {
        proof {
            assert(self@.alive(self@.domain[guard.slot() as int]->0));
        }
        self.generations[guard.generation()].borrow()
    }

    /// The published value.
    pub fn current(&self) -> (v: &T)
        requires
            self.wf(),
            self@.readable(),
        ensures
            *v == self@.value(),
    {
        self.generations[self.mutation].borrow()
    }

    /// Appends a generation around `new_value` and makes it the published
    /// one. Returns the address of the generation replaced.
    fn publish<H: Heaped<T>>(&mut self, new_value: H) -> (old_value: usize)
        requires
            old(self).wf(),
            old(self)@.readable(),
            new_value.pointee() is Some,
        ensures
            final(self).wf_but(old_value),
            final(self).id() == old(self).id(),
            old_value == old(self)@.current,
            final(self)@ == old(self)@.publish(new_value.pointee()->0),
            old(self)@.payloads.len() < usize::MAX,
    {
        let new_value = Mutation::new(new_value);
        let old_value = self.mutation;
        let addr = self.generations.len();
        self.generations.push(new_value);
        self.mutation = addr;
        proof {
            assert(self.generations.len() <= usize::MAX);
            assert(self@.payloads =~= old(self)@.payloads.push(new_value@));
            old(self)@.lemma_publish(new_value@->0);
        }
        old_value
    }
}

} // verus!
