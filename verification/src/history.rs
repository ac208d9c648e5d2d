//! Histories of one cell: what holds after any sequence of steps.
//!
//! A handle or a guard takes one step at a time, and steps of different
//! owners come in any order. A history is such a sequence. The laws below
//! hold of every history whose steps are each allowed in the state that they
//! meet.
use crate::cell_state::CellState;
use vstd::prelude::*;

verus! {

/// One step of a cell.
pub enum Step<T> {
    /// A handle starts a read.
    Load,
    /// A handle writes a value.
    Store(T),
    /// A handle swaps a value in and starts a read of the value replaced.
    Swap(T),
    /// A guard on the generation at the address is cloned.
    Observe(usize),
    /// The guard on the generation at the address, in the slot at the
    /// position, ends its read.
    Release(usize, usize),
    /// A handle is cloned.
    Register,
    /// A handle is no longer counted.
    Unregister,
    /// A cell that nothing names or observes is torn down.
    Destroy,
    /// A handle is given up: it is no longer counted, and the cell is torn
    /// down if nothing is left that names or observes it.
    Retire,
    /// The reclamation policy is applied to the generation at the address.
    TryDrop(usize),
}

impl<T> CellState<T> {
    /// Whether `step` is allowed in this state.
    pub open spec fn allows(self, step: Step<T>) -> bool {
        match step {
            Step::Load => self.readable(),
            Step::Store(_) => self.readable() && self.payloads.len() < usize::MAX,
            Step::Swap(_) => self.readable() && self.payloads.len() < usize::MAX,
            Step::Observe(addr) => self.observed(addr),
            Step::Release(addr, pos) => self.held(addr, pos),
            Step::Register => self.readable(),
            Step::Unregister => self.accessors > 0,
            Step::Destroy => self.dead() && !self.torn_down(),
            Step::Retire => self.accessors > 0,
            Step::TryDrop(addr) => addr < self.payloads.len(),
        }
    }

    /// The state after `step`.
    pub open spec fn after(self, step: Step<T>) -> Self {
        match step {
            Step::Load => self.load(),
            Step::Store(value) => self.store(value),
            Step::Swap(value) => self.swap(value),
            Step::Observe(addr) => self.observe(addr),
            Step::Release(addr, pos) => self.release(addr, pos),
            Step::Register => self.register(),
            Step::Unregister => self.unregister(),
            Step::Destroy => self.teardown(),
            Step::Retire => self.retire(),
            Step::TryDrop(addr) => self.try_drop(addr),
        }
    }

    /// Whether each step of `steps` is allowed in the state that it meets.
    pub open spec fn allows_all(self, steps: Seq<Step<T>>) -> bool
        decreases steps.len(),
    {
        steps.len() == 0 || (self.allows(steps[0]) && self.after(steps[0]).allows_all(
            steps.subrange(1, steps.len() as int),
        ))
    }

    /// The state after the steps of `steps`, in order.
    pub open spec fn after_all(self, steps: Seq<Step<T>>) -> Self
        decreases steps.len(),
    {
        if steps.len() == 0 {
            self
        } else {
            self.after(steps[0]).after_all(steps.subrange(1, steps.len() as int))
        }
    }

    /// Whether the log of freed addresses holds no address twice.
    pub open spec fn freed_once(self) -> bool {
        forall|p: int, q: int|
            0 <= p < q < self.freed.len() && self.freed[p] is Some ==> #[trigger] self.freed[p]
                != #[trigger] self.freed[q]
    }

    /// Whether every generation that is freed in `self` is still freed in
    /// `later`, and no generation was lost.
    pub open spec fn freed_stay_freed(self, later: Self) -> bool {
        &&& self.payloads.len() <= later.payloads.len()
        &&& forall|a: usize| a < self.payloads.len() && !self.alive(a) ==> !#[trigger] later.alive(a)
    }

    /// One allowed step keeps a cell in order; what was freed stays freed; and
    /// a guard that the step does not release keeps its slot and its value.
    pub proof fn law_step(self, step: Step<T>)
        requires
            self.inv(),
            self.allows(step),
        ensures
            self.after(step).inv(),
            self.freed_stay_freed(self.after(step)),
            forall|addr: usize, pos: usize|
                #[trigger] self.held(addr, pos) && !(step matches Step::Release(_, p) && p == pos)
                    ==> self.after(step).held(addr, pos) && self.after(step).payloads[addr as int]
                    == self.payloads[addr as int],
    {
        let t = self.after(step);
        assert forall|addr: usize, pos: usize| #[trigger] self.held(addr, pos) implies self.alive(
            addr,
        ) by {
            assert(self.alive(self.domain[pos as int]->0));
        }
        match step {
            Step::Load => {
                self.lemma_load();
            },
            Step::Store(value) => {
                self.lemma_store(value);
                self.lemma_publish(value);
                self.publish(value).lemma_try_drop(self.current);
                assert forall|addr: usize, pos: usize| #[trigger]
                    self.held(addr, pos) implies t.held(addr, pos) && t.payloads[addr as int]
                    == self.payloads[addr as int] by {
                    assert(self.observed(addr));
                }
            },
            Step::Swap(value) => {
                self.lemma_swap(value);
            },
            Step::Observe(addr) => {
                let i = choose|i: int| 0 <= i < self.domain.len() && self.domain[i] == Some(addr);
                assert(self.alive(self.domain[i]->0));
                self.lemma_observe(addr);
            },
            Step::Release(addr, pos) => {
                self.lemma_release(addr, pos);
                self.lemma_release_clears(addr, pos);
                self.vacate(addr, pos).lemma_try_drop(addr);
            },
            Step::Register => {
                self.lemma_register();
            },
            Step::Unregister => {
                self.lemma_unregister();
            },
            Step::Destroy => {
                self.lemma_teardown();
                assert forall|addr: usize, pos: usize| #[trigger] self.held(addr, pos) implies false by {
                    assert(self.domain[pos as int] is None);
                }
            },
            Step::Retire => {
                self.lemma_unregister();
                if self.unregister().dead() {
                    self.unregister().lemma_teardown();
                    assert forall|addr: usize, pos: usize| #[trigger]
                        self.held(addr, pos) implies false by {
                        assert(self.unregister().domain[pos as int] is None);
                    }
                }
            },
            Step::TryDrop(addr) => {
                self.lemma_try_drop(addr);
                assert forall|a: usize, pos: usize| #[trigger] self.held(a, pos) implies t.held(
                    a,
                    pos,
                ) && t.payloads[a as int] == self.payloads[a as int] by {
                    assert(self.observed(a));
                }
            },
        }
    }

    /// Any history of allowed steps keeps a cell in order.
    pub proof fn law_history_in_order(self, steps: Seq<Step<T>>)
        requires
            self.inv(),
            self.allows_all(steps),
        ensures
            self.after_all(steps).inv(),
        decreases steps.len(),
    {
        if steps.len() > 0 {
            self.law_step(steps[0]);
            self.after(steps[0]).law_history_in_order(steps.subrange(1, steps.len() as int));
        }
    }

    /// At most one free per generation: after any history, no address stands
    /// twice in the log of freed addresses, and what was freed before the
    /// history is freed after it, so that no free flag is ever set a second
    /// time.
    pub proof fn law_freed_at_most_once(self, steps: Seq<Step<T>>)
        requires
            self.inv(),
            self.allows_all(steps),
        ensures
            self.after_all(steps).freed_once(),
            self.freed_stay_freed(self.after_all(steps)),
        decreases steps.len(),
    {
        if steps.len() > 0 {
            self.law_step(steps[0]);
            let next = self.after(steps[0]);
            let rest = steps.subrange(1, steps.len() as int);
            next.law_freed_at_most_once(rest);
            let last = self.after_all(steps);
            assert forall|a: usize| a < self.payloads.len() && !self.alive(a) implies !#[trigger] last.alive(
                a,
            ) by {
                assert(!next.alive(a));
            }
        }
    }

    /// The generation that a write replaces, and the generation that a read
    /// observed to its end, was not freed before the step: the step that
    /// frees it is the first to set its flag.
    pub proof fn law_first_to_free(self, step: Step<T>)
        requires
            self.inv(),
            self.allows(step),
        ensures
            step is Store || step is Swap ==> self.alive(self.current),
            step matches Step::Release(addr, _) ==> self.alive(addr),
            step matches Step::Observe(addr) ==> self.alive(addr),
    {
        match step {
            Step::Release(addr, pos) => {
                assert(self.alive(self.domain[pos as int]->0));
            },
            Step::Observe(addr) => {
                let i = choose|i: int| 0 <= i < self.domain.len() && self.domain[i] == Some(addr);
                assert(self.alive(self.domain[i]->0));
            },
            _ => {},
        }
    }

    /// Whether no step of `steps` ends the read in the slot at `pos`.
    pub open spec fn keeps_slot(steps: Seq<Step<T>>, pos: usize) -> bool {
        forall|i: int|
            0 <= i < steps.len() ==> !(#[trigger] steps[i] matches Step::Release(_, p) && p == pos)
    }

    /// Reader liveness: a guard that is held stays held, with the value that
    /// it observes, through any history that does not end its own read,
    /// however many writes the history holds.
    pub proof fn law_guard_outlives_history(self, steps: Seq<Step<T>>, addr: usize, pos: usize)
        requires
            self.inv(),
            self.allows_all(steps),
            self.held(addr, pos),
            Self::keeps_slot(steps, pos),
        ensures
            self.payloads[addr as int] is Some,
            self.after_all(steps).held(addr, pos),
            self.after_all(steps).payloads[addr as int] == self.payloads[addr as int],
        decreases steps.len(),
    {
        assert(self.alive(self.domain[pos as int]->0));
        if steps.len() > 0 {
            self.law_step(steps[0]);
            let rest = steps.subrange(1, steps.len() as int);
            assert(steps[0] == steps[0]);
            assert forall|i: int| 0 <= i < rest.len() implies !(#[trigger] rest[i] matches Step::Release(
                _,
                p,
            ) && p == pos) by {
                assert(rest[i] == steps[i + 1]);
            }
            self.after(steps[0]).law_guard_outlives_history(rest, addr, pos);
        }
    }

    /// Round trip: a read observes the published value; after a write, a new
    /// read observes the value written, and the earlier read still observes
    /// the value that it found.
    pub proof fn law_round_trip(self, value: T)
        requires
            self.inv(),
            self.accessors > 0,
            self.payloads.len() < usize::MAX,
            self.domain.len() < usize::MAX,
        ensures
            ({
                let first = self.load();
                let written = first.store(value);
                let second = written.load();
                let early = (self.current, self.next_slot() as usize);
                let late = (written.current, written.next_slot() as usize);
                &&& first.held(early.0, early.1)
                &&& first.payloads[early.0 as int] == Some(self.value())
                &&& second.held(late.0, late.1)
                &&& second.payloads[late.0 as int] == Some(value)
                &&& second.held(early.0, early.1)
                &&& second.payloads[early.0 as int] == Some(self.value())
            }),
    {
        self.lemma_load();
        let first = self.load();
        first.lemma_store(value);
        let written = first.store(value);
        written.lemma_load();
        let early = (self.current, self.next_slot() as usize);
        assert(first.held(early.0, early.1));
        assert(first.observed(early.0));
        assert(written.held(early.0, early.1));
        crate::alist::lemma_first_free(written.domain);
    }

    /// A cell that was just made and has its first handle is read back as the
    /// value that it was made around.
    pub proof fn law_new_reads_back(value: T)
        ensures
            Self::fresh(value).register().inv(),
            Self::fresh(value).register().readable(),
            Self::fresh(value).register().value() == value,
            Self::fresh(value).register().load().payloads[0] == Some(value),
            Self::fresh(value).register().load().held(0, 0),
    {
        Self::lemma_fresh(value);
        Self::fresh(value).lemma_register();
        let s = Self::fresh(value).register();
        s.lemma_load();
        crate::alist::lemma_first_free_is(s.domain, 0);
    }
}

} // verus!
