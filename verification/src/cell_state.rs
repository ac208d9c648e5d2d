//! The life of one cell, as a state machine.
//!
//! A cell publishes a sequence of generations, each with its own address: the
//! position at which it was published. The state below says which generation
//! is current, which ones are still observed by a reader, and which ones were
//! freed. The steps are the ones that the executable cell takes; what holds of
//! every reachable state is `inv`, and each step is shown to keep it.
use crate::alist::{
    all_empty, first_free, holds, lemma_first_free, lemma_with_cleared, lemma_with_inserted,
    with_cleared, with_inserted,
};
use vstd::prelude::*;

verus! {

/// What a cell is made of, seen from outside.
pub struct CellState<T> {
    /// How many handles name the cell.
    pub accessors: nat,
    /// The address of the published generation.
    pub current: usize,
    /// The value of each generation by address, `None` once freed.
    pub payloads: Seq<Option<T>>,
    /// The accessor list: the addresses under active read.
    pub domain: Seq<Option<usize>>,
    /// The addresses whose free flag was set, in the order of freeing.
    pub freed: Seq<Option<usize>>,
}

impl<T> CellState<T> {
    /// A cell that was just made around `value`, not yet named by a handle.
    pub open spec fn fresh(value: T) -> Self {
        CellState {
            accessors: 0,
            current: 0,
            payloads: seq![Some(value)],
            domain: seq![None],
            freed: seq![None],
        }
    }

    /// Whether the generation at `addr` exists and was not freed.
    pub open spec fn alive(self, addr: usize) -> bool {
        addr < self.payloads.len() && self.payloads[addr as int] is Some
    }

    /// Whether some reader observes the generation at `addr`.
    pub open spec fn observed(self, addr: usize) -> bool {
        holds(self.domain, addr)
    }

    /// Whether the reader registered at `pos` observes the generation at
    /// `addr`.
    pub open spec fn held(self, addr: usize, pos: usize) -> bool {
        pos < self.domain.len() && self.domain[pos as int] == Some(addr)
    }

    /// Whether the cell was torn down: its lists are gone.
    pub open spec fn torn_down(self) -> bool {
        self.domain.len() == 0
    }

    /// Whether the cell can be read: its published generation was not freed.
    pub open spec fn readable(self) -> bool {
        self.alive(self.current)
    }

    /// Whether no handle names the cell and no reader observes it.
    pub open spec fn dead(self) -> bool {
        self.accessors == 0 && all_empty(self.domain)
    }

    /// The published value.
    pub open spec fn value(self) -> T {
        self.payloads[self.current as int]->0
    }

    /// What holds of every state that the steps below can reach.
    pub open spec fn inv(self) -> bool {
        self.inv_but(None)
    }

    /// The invariant in the middle of a step: the generation `pending` may be
    /// alive though it is neither published nor observed, because the policy
    /// has yet to be applied to it.
    pub open spec fn inv_but(self, pending: Option<usize>) -> bool {
        &&& self.current < self.payloads.len()
        &&& self.payloads.len() <= usize::MAX
        // a generation under read is never freed
        &&& forall|p: int|
            0 <= p < self.domain.len() && self.domain[p] is Some ==> self.alive(
                #[trigger] self.domain[p]->0,
            )
        // only freed generations are logged, and none twice
        &&& forall|p: int|
            0 <= p < self.freed.len() && self.freed[p] is Some ==> {
                &&& (#[trigger] self.freed[p]->0) < self.payloads.len()
                &&& !self.alive(self.freed[p]->0)
            }
        &&& forall|p: int, q: int|
            0 <= p < q < self.freed.len() && self.freed[p] is Some ==> #[trigger] self.freed[p]
                != #[trigger] self.freed[q]
        // a cell that a handle names can be read
        &&& self.accessors > 0 ==> self.readable()
        &&& if self.torn_down() {
            // after the teardown nothing is left
            &&& self.accessors == 0
            &&& self.freed.len() == 0
            &&& forall|a: usize| !#[trigger] self.alive(a)
        } else {
            // each freed generation is logged
            &&& forall|a: usize|
                a < self.payloads.len() && !#[trigger] self.alive(a) ==> holds(self.freed, a)
            // a replaced generation lives on only while a reader observes it
            &&& forall|a: usize|
                a != self.current && pending != Some(a) && #[trigger] self.alive(a)
                    ==> self.observed(a)
        }
    }

    /// Sets the free flag of the generation at `addr` and frees its value,
    /// unless the flag was set already.
    pub open spec fn reclaim(self, addr: usize) -> Self {
        if self.alive(addr) {
            CellState {
                payloads: self.payloads.update(addr as int, None),
                freed: with_inserted(self.freed, addr),
                ..self
            }
        } else {
            self
        }
    }

    /// Frees the published generation and both lists.
    pub open spec fn teardown(self) -> Self {
        CellState { domain: Seq::empty(), freed: Seq::empty(), ..self.reclaim(self.current) }
    }

    /// The reclamation policy, applied to the generation at `addr`.
    ///
    /// While handles exist, the generation is freed if it is neither published
    /// nor observed. Once no handle is left, it is freed if no reader observes
    /// it, and the cell is torn down with it if no reader observes anything.
    pub open spec fn try_drop(self, addr: usize) -> Self {
        if self.current == addr && self.accessors != 0 {
            self
        } else if self.accessors == 0 {
            if self.observed(addr) {
                self
            } else if all_empty(self.domain) {
                if self.alive(addr) {
                    self.reclaim(addr).teardown()
                } else {
                    self
                }
            } else {
                self.reclaim(addr)
            }
        } else if !self.observed(addr) {
            self.reclaim(addr)
        } else {
            self
        }
    }

    /// Makes `value` the published generation, at a new address.
    pub open spec fn publish(self, value: T) -> Self {
        CellState {
            current: self.payloads.len() as usize,
            payloads: self.payloads.push(Some(value)),
            ..self
        }
    }

    /// A reader starts to observe the generation at `addr`.
    pub open spec fn observe(self, addr: usize) -> Self {
        CellState { domain: with_inserted(self.domain, addr), ..self }
    }

    /// The slot that the next reader will take.
    pub open spec fn next_slot(self) -> int {
        first_free(self.domain)
    }

    /// A write: publish `value`, then apply the policy to what it replaced.
    pub open spec fn store(self, value: T) -> Self {
        self.publish(value).try_drop(self.current)
    }

    /// A read: observe the published generation.
    pub open spec fn load(self) -> Self {
        self.observe(self.current)
    }

    /// A swap: publish `value` and observe what it replaced.
    pub open spec fn swap(self, value: T) -> Self {
        self.publish(value).observe(self.current)
    }

    /// The slot at `pos` is cleared, if it held `addr`.
    pub open spec fn vacate(self, addr: usize, pos: usize) -> Self {
        CellState { domain: with_cleared(self.domain, pos as int, addr), ..self }
    }

    /// The reader at `pos` stops observing the generation at `addr`, and the
    /// policy is applied to that generation.
    pub open spec fn release(self, addr: usize, pos: usize) -> Self {
        self.vacate(addr, pos).try_drop(addr)
    }

    /// One more handle names the cell.
    pub open spec fn register(self) -> Self {
        CellState { accessors: self.accessors + 1, ..self }
    }

    /// One handle less names the cell.
    pub open spec fn unregister(self) -> Self {
        CellState { accessors: (self.accessors - 1) as nat, ..self }
    }

    /// A handle is given up: one handle less, and the teardown if nothing
    /// is left that names or observes the cell.
    pub open spec fn retire(self) -> Self {
        if self.unregister().dead() {
            self.unregister().teardown()
        } else {
            self.unregister()
        }
    }
}

impl<T> CellState<T> {
    /// A fresh cell is in order.
    pub proof fn lemma_fresh(value: T)
        ensures
            Self::fresh(value).inv(),
            Self::fresh(value).readable(),
            !Self::fresh(value).torn_down(),
    {
        let s = Self::fresh(value);
        assert forall|a: usize| a < s.payloads.len() && !#[trigger] s.alive(a) implies holds(
            s.freed,
            a,
        ) by {}
    }

    /// A new reader of a generation that is alive keeps the cell in order.
    pub proof fn lemma_observe(self, addr: usize)
        requires
            self.inv(),
            !self.torn_down(),
            self.alive(addr),
        ensures
            self.observe(addr).inv(),
            !self.observe(addr).torn_down(),
            0 <= self.next_slot() < self.observe(addr).domain.len(),
            self.observe(addr).domain[self.next_slot()] == Some(addr),
            forall|a: usize, p: usize| self.held(a, p) ==> #[trigger] self.observe(addr).held(a, p),
    {
        lemma_with_inserted(self.domain, addr);
        let t = self.observe(addr);
        assert forall|a: usize| a != t.current && #[trigger] t.alive(a) implies t.observed(a) by {
            assert(self.alive(a));
        }
        assert forall|a: usize| a < t.payloads.len() && !#[trigger] t.alive(a) implies holds(
            t.freed,
            a,
        ) by {
            assert(!self.alive(a));
        }
        assert forall|p: int| 0 <= p < t.domain.len() && t.domain[p] is Some implies t.alive(
            #[trigger] t.domain[p]->0,
        ) by {
            if p != first_free(self.domain) {
                assert(self.alive(self.domain[p]->0));
            }
        }
    }

    /// One more reader of a generation that a reader observes keeps the cell
    /// in order, and the first reader keeps what it observes.
    pub proof fn lemma_observe_again(self, addr: usize, pos: usize)
        requires
            self.inv(),
            self.held(addr, pos),
        ensures
            self.observed(addr),
            self.alive(addr),
            !self.torn_down(),
            self.observe(addr).inv(),
            self.observe(addr).held(addr, pos),
            0 <= self.next_slot() < self.observe(addr).domain.len(),
            self.next_slot() != pos,
            self.observe(addr).domain[self.next_slot()] == Some(addr),
    {
        assert(self.alive(self.domain[pos as int]->0));
        self.lemma_observe(addr);
        lemma_first_free(self.domain);
    }

    /// Freeing a generation that no reader observes, and that is not the
    /// published one of a cell with handles, keeps the cell in order.
    pub proof fn lemma_reclaim(self, addr: usize)
        requires
            self.inv_but(Some(addr)),
            !self.torn_down(),
            !self.observed(addr),
            addr != self.current || self.accessors == 0,
        ensures
            self.reclaim(addr).inv(),
            !self.reclaim(addr).torn_down(),
            forall|a: usize| a != addr ==> (#[trigger] self.reclaim(addr).alive(a) <==> self.alive(a)),
            !self.reclaim(addr).alive(addr),
    {
        let t = self.reclaim(addr);
        if self.alive(addr) {
            lemma_with_inserted(self.freed, addr);
            let f = first_free(self.freed);
            assert forall|p: int| 0 <= p < t.domain.len() && t.domain[p] is Some implies t.alive(
                #[trigger] t.domain[p]->0,
            ) by {
                let a = self.domain[p]->0;
                assert(self.alive(a));
                assert(self.domain[p] == Some(a));
                assert(a != addr);
            }
            assert forall|p: int| 0 <= p < t.freed.len() && t.freed[p] is Some implies {
                &&& (#[trigger] t.freed[p]->0) < t.payloads.len()
                &&& !t.alive(t.freed[p]->0)
            } by {
                if p != f {
                    assert(t.freed[p] == self.freed[p]);
                    assert(!self.alive(self.freed[p]->0));
                }
            }
            assert forall|p: int, q: int|
                0 <= p < q < t.freed.len() && t.freed[p] is Some implies #[trigger] t.freed[p]
                != #[trigger] t.freed[q] by {
                if p == f {
                    if t.freed[q] is Some {
                        assert(t.freed[q] == self.freed[q]);
                        assert(!self.alive(self.freed[q]->0));
                    }
                } else if q == f {
                    assert(t.freed[p] == self.freed[p]);
                    assert(!self.alive(self.freed[p]->0));
                } else {
                    assert(t.freed[p] == self.freed[p]);
                    assert(t.freed[q] == self.freed[q]);
                }
            }
            assert forall|a: usize| a < t.payloads.len() && !#[trigger] t.alive(a) implies holds(
                t.freed,
                a,
            ) by {
                if a != addr {
                    assert(!self.alive(a));
                }
            }
            assert forall|a: usize| a != t.current && #[trigger] t.alive(a) implies t.observed(
                a,
            ) by {
                assert(self.alive(a));
            }
        }
    }

    /// The teardown of a dead cell leaves nothing behind.
    pub proof fn lemma_teardown(self)
        requires
            self.inv(),
            !self.torn_down(),
            self.dead(),
        ensures
            self.teardown().inv(),
            self.teardown().torn_down(),
            forall|a: usize| !#[trigger] self.teardown().alive(a),
    {
        let t = self.teardown();
        assert forall|a: usize| !#[trigger] t.alive(a) by {
            if a != self.current && self.alive(a) {
                assert(self.observed(a));
                let i = choose|i: int| 0 <= i < self.domain.len() && self.domain[i] == Some(a);
                assert(self.domain[i] is None);
            }
        }
    }

    /// The reclamation policy keeps the cell in order, and frees nothing that
    /// a reader observes.
    pub proof fn lemma_try_drop(self, addr: usize)
        requires
            self.inv_but(Some(addr)),
            addr < self.payloads.len(),
        ensures
            self.try_drop(addr).inv(),
            forall|a: usize, p: usize| self.held(a, p) ==> #[trigger] self.try_drop(addr).held(a, p),
            forall|a: usize|
                self.observed(a) ==> #[trigger] self.try_drop(addr).payloads[a as int]
                    == self.payloads[a as int],
            self.try_drop(addr).payloads.len() == self.payloads.len(),
            self.accessors > 0 ==> self.try_drop(addr).payloads[self.current as int]
                == self.payloads[self.current as int],
    {
        let t = self.try_drop(addr);
        if self.torn_down() {
            assert(!self.alive(addr));
            assert(!self.observed(addr));
            assert(all_empty(self.domain));
        } else if self.current == addr && self.accessors != 0 {
        } else if self.accessors == 0 {
            if self.observed(addr) {
            } else if all_empty(self.domain) {
                if self.alive(addr) {
                    self.lemma_reclaim(addr);
                    let r = self.reclaim(addr);
                    r.lemma_teardown();
                    assert(t == r.teardown());
                    assert forall|a: usize, p: usize| self.held(a, p) implies #[trigger] t.held(
                        a,
                        p,
                    ) by {
                        assert(self.domain[p as int] is None);
                    }
                    assert forall|a: usize| self.observed(a) implies #[trigger] t.payloads[a as int]
                        == self.payloads[a as int] by {
                        let i = choose|i: int| 0 <= i < self.domain.len() && self.domain[i] == Some(a);
                        assert(self.domain[i] is None);
                    }
                }
            } else {
                self.lemma_reclaim(addr);
            }
        } else if !self.observed(addr) {
            self.lemma_reclaim(addr);
        }
    }

    /// Publishing keeps the cell in order but for the generation replaced, to
    /// which the policy has yet to be applied.
    pub proof fn lemma_publish(self, value: T)
        requires
            self.inv(),
            self.readable(),
            self.payloads.len() < usize::MAX,
        ensures
            self.publish(value).inv_but(Some(self.current)),
            self.publish(value).readable(),
            self.publish(value).value() == value,
            !self.publish(value).torn_down(),
            self.publish(value).alive(self.current),
    {
        let t = self.publish(value);
        assert(self.alive(self.current));
        assert(!self.torn_down());
        assert forall|a: usize| a < t.payloads.len() && !#[trigger] t.alive(a) implies holds(
            t.freed,
            a,
        ) by {
            assert(!self.alive(a));
        }
        assert forall|a: usize|
            a != t.current && Some(self.current) != Some(a) && #[trigger] t.alive(
                a,
            ) implies t.observed(a) by {
            assert(self.alive(a));
        }
        assert forall|p: int| 0 <= p < t.domain.len() && t.domain[p] is Some implies t.alive(
            #[trigger] t.domain[p]->0,
        ) by {
            assert(self.alive(self.domain[p]->0));
        }
        assert forall|p: int| 0 <= p < t.freed.len() && t.freed[p] is Some implies {
            &&& (#[trigger] t.freed[p]->0) < t.payloads.len()
            &&& !t.alive(t.freed[p]->0)
        } by {
            assert(!self.alive(self.freed[p]->0));
        }
    }

    /// A write keeps the cell in order, and every reader keeps what it
    /// observes. While a handle names the cell, the new value is the published
    /// one.
    pub proof fn lemma_store(self, value: T)
        requires
            self.inv(),
            self.readable(),
            self.payloads.len() < usize::MAX,
        ensures
            self.store(value).inv(),
            forall|a: usize, p: usize| self.held(a, p) ==> #[trigger] self.store(value).held(a, p),
            forall|a: usize|
                self.observed(a) ==> #[trigger] self.store(value).payloads[a as int]
                    == self.payloads[a as int],
            self.accessors > 0 ==> self.store(value).readable() && self.store(value).value()
                == value,
            self.store(value).accessors == self.accessors,
    {
        self.lemma_publish(value);
        let t = self.publish(value);
        t.lemma_try_drop(self.current);
        assert forall|a: usize| self.observed(a) implies #[trigger] self.store(
            value,
        ).payloads[a as int] == self.payloads[a as int] by {
            assert(t.observed(a));
            let i = choose|i: int| 0 <= i < self.domain.len() && self.domain[i] == Some(a);
            assert(self.alive(self.domain[i]->0));
        }
        assert forall|a: usize, p: usize| self.held(a, p) implies #[trigger] self.store(
            value,
        ).held(a, p) by {
            assert(t.held(a, p));
        }
    }

    /// A read keeps the cell in order; the new reader observes the published
    /// value, and every other reader keeps what it observes.
    pub proof fn lemma_load(self)
        requires
            self.inv(),
            self.readable(),
        ensures
            self.load().inv(),
            self.load().readable(),
            0 <= self.next_slot() < self.load().domain.len(),
            self.load().domain[self.next_slot()] == Some(self.current),
            forall|a: usize, p: usize| self.held(a, p) ==> #[trigger] self.load().held(a, p),
    {
        assert(!self.torn_down());
        self.lemma_observe(self.current);
    }

    /// A swap keeps the cell in order; the new reader observes the value that
    /// was replaced, and every other reader keeps what it observes.
    pub proof fn lemma_swap(self, value: T)
        requires
            self.inv(),
            self.readable(),
            self.payloads.len() < usize::MAX,
        ensures
            self.swap(value).inv(),
            self.swap(value).readable(),
            self.swap(value).value() == value,
            0 <= self.next_slot() < self.swap(value).domain.len(),
            self.swap(value).domain[self.next_slot()] == Some(self.current),
            self.swap(value).payloads[self.current as int] == self.payloads[self.current as int],
            forall|a: usize, p: usize| self.held(a, p) ==> #[trigger] self.swap(value).held(a, p),
    {
        self.lemma_publish(value);
        let t = self.publish(value);
        lemma_with_inserted(t.domain, self.current);
        let u = self.swap(value);
        assert forall|a: usize| a != u.current && #[trigger] u.alive(a) implies u.observed(a) by {
            assert(t.alive(a));
        }
        assert forall|a: usize| a < u.payloads.len() && !#[trigger] u.alive(a) implies holds(
            u.freed,
            a,
        ) by {
            assert(!t.alive(a));
        }
        assert forall|p: int| 0 <= p < u.domain.len() && u.domain[p] is Some implies u.alive(
            #[trigger] u.domain[p]->0,
        ) by {
            if p != first_free(t.domain) {
                assert(t.alive(t.domain[p]->0));
            }
        }
    }

    /// The end of a read keeps the cell in order, and every other reader
    /// keeps what it observes.
    pub proof fn lemma_release(self, addr: usize, pos: usize)
        requires
            self.inv(),
            self.held(addr, pos),
        ensures
            self.release(addr, pos).inv(),
            forall|a: usize, p: usize|
                p != pos && self.held(a, p) ==> #[trigger] self.release(addr, pos).held(a, p),
            forall|a: usize, p: usize|
                p != pos && #[trigger] self.held(a, p) ==> self.release(addr, pos).alive(a)
                    && self.release(addr, pos).payloads[a as int] == self.payloads[a as int],
            self.accessors > 0 ==> self.release(addr, pos).readable() && self.release(
                addr,
                pos,
            ).value() == self.value(),
    {
        let c = self.vacate(addr, pos);
        lemma_with_cleared(self.domain, pos as int, addr);
        self.lemma_release_clears(addr, pos);
        c.lemma_try_drop(addr);
        let t = self.release(addr, pos);
        assert forall|a: usize, p: usize| p != pos && self.held(a, p) implies #[trigger] t.held(
            a,
            p,
        ) by {
            assert(c.held(a, p));
        }
        assert forall|a: usize, p: usize| p != pos && #[trigger] self.held(a, p) implies t.alive(a)
            && t.payloads[a as int] == self.payloads[a as int] by {
            assert(c.held(a, p));
            assert(c.observed(a));
            assert(t.held(a, p));
            assert(t.alive(t.domain[p as int]->0));
        }
    }

    /// Once the slot of a read is cleared, the cell is in order but for the
    /// generation that the read observed.
    pub proof fn lemma_release_clears(self, addr: usize, pos: usize)
        requires
            self.inv(),
            self.held(addr, pos),
        ensures
            addr < self.payloads.len(),
            self.vacate(addr, pos).inv_but(Some(addr)),
    {
        let c = self.vacate(addr, pos);
        lemma_with_cleared(self.domain, pos as int, addr);
        assert(self.alive(self.domain[pos as int]->0));
        assert forall|a: usize|
            a != c.current && Some(addr) != Some(a) && #[trigger] c.alive(a) implies c.observed(
            a,
        ) by {
            assert(self.alive(a));
        }
        assert forall|a: usize| a < c.payloads.len() && !#[trigger] c.alive(a) implies holds(
            c.freed,
            a,
        ) by {
            assert(!self.alive(a));
        }
        assert forall|p: int| 0 <= p < c.domain.len() && c.domain[p] is Some implies c.alive(
            #[trigger] c.domain[p]->0,
        ) by {
            assert(c.domain[p] == self.domain[p]);
            assert(self.alive(self.domain[p]->0));
        }
    }

    /// Once a read has ended, no read is in progress in its slot.
    pub proof fn lemma_released_is_free(self, addr: usize, pos: usize)
        requires
            self.inv(),
            self.held(addr, pos),
        ensures
            forall|a: usize| !#[trigger] self.release(addr, pos).held(a, pos),
    {
        let c = self.vacate(addr, pos);
        assert(c.domain[pos as int] is None);
        assert(self.alive(self.domain[pos as int]->0));
        self.lemma_release_clears(addr, pos);
        c.lemma_try_drop(addr);
        let t = c.try_drop(addr);
        assert(t.domain.len() == 0 || t.domain == c.domain);
    }

    /// One more handle on a cell that can be read keeps it in order.
    pub proof fn lemma_register(self)
        requires
            self.inv(),
            self.readable(),
        ensures
            self.register().inv(),
            self.register().readable(),
    {
        let t = self.register();
        assert(!self.torn_down());
        assert forall|a: usize| a != t.current && #[trigger] t.alive(a) implies t.observed(a) by {
            assert(self.alive(a));
        }
        assert forall|a: usize| a < t.payloads.len() && !#[trigger] t.alive(a) implies holds(
            t.freed,
            a,
        ) by {
            assert(!self.alive(a));
        }
        assert forall|p: int| 0 <= p < t.domain.len() && t.domain[p] is Some implies t.alive(
            #[trigger] t.domain[p]->0,
        ) by {
            assert(self.alive(self.domain[p]->0));
        }
        assert forall|p: int| 0 <= p < t.freed.len() && t.freed[p] is Some implies {
            &&& (#[trigger] t.freed[p]->0) < t.payloads.len()
            &&& !t.alive(t.freed[p]->0)
        } by {
            assert(!self.alive(self.freed[p]->0));
        }
    }

    /// One handle less keeps the cell in order.
    pub proof fn lemma_unregister(self)
        requires
            self.inv(),
            self.accessors > 0,
        ensures
            self.unregister().inv(),
            self.unregister().readable(),
            !self.unregister().torn_down(),
    {
        let t = self.unregister();
        assert(self.alive(self.current));
        assert(!self.torn_down());
        assert forall|a: usize| a != t.current && #[trigger] t.alive(a) implies t.observed(a) by {
            assert(self.alive(a));
        }
        assert forall|a: usize| a < t.payloads.len() && !#[trigger] t.alive(a) implies holds(
            t.freed,
            a,
        ) by {
            assert(!self.alive(a));
        }
        assert forall|p: int| 0 <= p < t.domain.len() && t.domain[p] is Some implies t.alive(
            #[trigger] t.domain[p]->0,
        ) by {
            assert(self.alive(self.domain[p]->0));
        }
        assert forall|p: int| 0 <= p < t.freed.len() && t.freed[p] is Some implies {
            &&& (#[trigger] t.freed[p]->0) < t.payloads.len()
            &&& !t.alive(t.freed[p]->0)
        } by {
            assert(!self.alive(self.freed[p]->0));
        }
    }
}

} // verus!
