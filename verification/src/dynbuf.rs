//! The slot pool: a buffer of a fixed number of slots, and a pool on top of
//! it that doubles or halves the buffer as it fills and drains.
//!
//! A slot is empty or holds the handle to the cell of one value. The values
//! live in an arena that the caller brings along.
use crate::alist::{first_free, lemma_first_free, lemma_first_free_is};
use crate::guard::Guard;
use crate::heaped::Heaped;
use crate::keep::{Arena, ArenaState, Keep};
use vstd::multiset::Multiset;
use vstd::prelude::*;

verus! {

/// The position of the first slot of `slots` that is taken, or the number of
/// slots where each is empty.
pub open spec fn first_taken(slots: Seq<Option<usize>>) -> int
    decreases slots.len(),
{
    if slots.len() == 0 {
        0
    } else if slots[0] is Some {
        0
    } else {
        1 + first_taken(slots.subrange(1, slots.len() as int))
    }
}

/// The links in the slots of `slots` that are taken, in slot order.
pub open spec fn occupied(slots: Seq<Option<usize>>) -> Seq<usize>
    decreases slots.len(),
{
    if slots.len() == 0 {
        Seq::empty()
    } else {
        match slots.last() {
            Some(link) => occupied(slots.drop_last()).push(link),
            None => occupied(slots.drop_last()),
        }
    }
}

/// `first_taken` is the least position that is taken.
pub proof fn lemma_first_taken(slots: Seq<Option<usize>>)
    ensures
        0 <= first_taken(slots) <= slots.len(),
        first_taken(slots) < slots.len() ==> slots[first_taken(slots)] is Some,
        forall|i: int| 0 <= i < first_taken(slots) ==> slots[i] is None,
    decreases slots.len(),
{
    if slots.len() > 0 && slots[0] is None {
        let rest = slots.subrange(1, slots.len() as int);
        lemma_first_taken(rest);
        assert forall|i: int| 0 <= i < first_taken(slots) implies slots[i] is None by {
            if i > 0 {
                assert(rest[i - 1] == slots[i]);
            }
        }
    }
}

/// A position before which every slot is empty, and which is taken or the
/// end, is `first_taken`.
pub proof fn lemma_first_taken_is(slots: Seq<Option<usize>>, pos: int)
    requires
        0 <= pos <= slots.len(),
        forall|i: int| 0 <= i < pos ==> slots[i] is None,
        pos < slots.len() ==> slots[pos] is Some,
    ensures
        first_taken(slots) == pos,
{
    lemma_first_taken(slots);
}

/// What a buffer holds, seen from outside.
pub struct BufferState {
    /// Where the next `put` looks first.
    pub hint: usize,
    /// The link in each slot, `None` for an empty slot.
    pub slots: Seq<Option<usize>>,
}

impl BufferState {
    /// The slot that a `put` takes: the slot at the hint where that is
    /// empty, the first empty slot otherwise. The number of slots where no
    /// slot is empty.
    pub open spec fn put_index(self) -> int {
        if self.hint < self.slots.len() && self.slots[self.hint as int] is None {
            self.hint as int
        } else {
            first_free(self.slots)
        }
    }

    /// No two slots hold the same link.
    pub open spec fn distinct(self) -> bool {
        forall|i: int, j: int|
            0 <= i < j < self.slots.len() && self.slots[i] is Some ==> #[trigger] self.slots[i]
                != #[trigger] self.slots[j]
    }

    /// Whether some slot from `from` on and before `to` holds `link`.
    pub open spec fn has_within(self, link: usize, from: int, to: int) -> bool {
        exists|i: int| from <= i < to && 0 <= i < self.slots.len() && #[trigger] self.slots[i] == Some(link)
    }

    /// Whether some slot holds `link`.
    pub open spec fn has(self, link: usize) -> bool {
        self.has_within(link, 0, self.slots.len() as int)
    }

    /// The buffer holds its value cells for itself: no link of the arena
    /// ever traded its cell, no two slots hold the same link, and each link
    /// names a cell with at least one handle, and room for one more.
    pub open spec fn tenured<T>(self, heap: ArenaState<T>) -> bool {
        &&& heap.unswapped()
        &&& self.distinct()
        &&& forall|i: int|
            0 <= i < self.slots.len() && self.slots[i] is Some ==> {
                &&& (#[trigger] self.slots[i])->0 < heap.links.len()
                &&& 1 <= heap.cells[self.slots[i]->0 as int].accessors < usize::MAX
            }
    }
}

/// A buffer of a fixed number of slots.
pub struct ConcurrentBuffer<T> {
    last_index: usize,
    capacity: usize,
    buffer: Vec<Option<Keep<T>>>,
}

/// The link of the handle in a slot.
pub open spec fn link_of<T>(slot: Option<Keep<T>>) -> Option<usize> {
    match slot {
        Some(keep) => Some(keep.link()),
        None => None,
    }
}

impl<T> ConcurrentBuffer<T> {
    /// What the buffer holds.
    pub closed spec fn view(&self) -> BufferState {
        BufferState {
            hint: self.last_index,
            slots: Seq::new(self.buffer@.len(), |i: int| link_of(self.buffer@[i])),
        }
    }

    /// The fields agree with each other.
    pub closed spec fn wf(&self) -> bool {
        self.buffer@.len() == self.capacity
    }

    /// A buffer of `capacity` empty slots.
    pub fn with_capacity(capacity: usize) -> (buffer: Self)
        ensures
            buffer.wf(),
            buffer@.hint == 0,
            buffer@.slots == Seq::new(capacity as nat, |i: int| None::<usize>),
    {
        let mut buf: Vec<Option<Keep<T>>> = Vec::new();
        let mut i: usize = 0;
        while i < capacity
            invariant
                i <= capacity,
                buf@.len() == i,
                forall|j: int| 0 <= j < i ==> (#[trigger] buf@[j]) is None,
            decreases capacity - i,
        {
            buf.push(None);
            i += 1;
        }
        let buffer = ConcurrentBuffer { capacity, last_index: 0, buffer: buf };
        proof {
            assert(buffer@.slots =~= Seq::new(capacity as nat, |i: int| None::<usize>));
        }
        buffer
    }

    /// The number of slots.
    pub fn capacity(&self) -> (capacity: usize)
        requires
            self.wf(),
        ensures
            capacity == self@.slots.len(),
    {
        self.capacity
    }

    /// Puts a cell around `e` into the slot at `index`, and returns the
    /// handle that the slot held.
    ///
    /// Where `index` is no slot, the cell is given up again and `None` is
    /// returned.
    pub fn insert<H: Heaped<T>>(&mut self, heap: &mut Arena<T>, index: usize, e: H) -> (previous: Option<
        Keep<T>,
    >)
        requires
            old(self).wf(),
            old(heap).wf(),
            e.pointee() is Some,
        ensures
            final(self).wf(),
            final(heap).wf(),
            final(self)@.hint == old(self)@.hint,
            index < old(self)@.slots.len() ==> {
                &&& final(heap)@ == old(heap)@.create(e.pointee()->0)
                &&& final(self)@.slots == old(self)@.slots.update(
                    index as int,
                    Some(old(heap)@.links.len() as usize),
                )
                &&& link_of(previous) == old(self)@.slots[index as int]
            },
            index >= old(self)@.slots.len() ==> {
                &&& final(heap)@ == old(heap)@.create(e.pointee()->0).unlink(
                    old(heap)@.links.len() as usize,
                )
                &&& final(self)@ == old(self)@
                &&& previous is None
            },
    {
        let keep = Keep::new(heap, e);
        if index < self.buffer.len() {
            let mut slot = Some(keep);
            std::mem::swap(&mut self.buffer[index], &mut slot);
            proof {
                assert(self@.slots =~= old(self)@.slots.update(
                    index as int,
                    Some(old(heap)@.links.len() as usize),
                ));
            }
            slot
        } else {
            keep.destroy(heap);
            proof {
                assert(self@.slots =~= old(self)@.slots);
            }
            None
        }
    }

    /// Empties the slot at `index` and returns the handle that it held.
    pub fn remove(&mut self, index: usize) -> (removed: Option<Keep<T>>)
        requires
            old(self).wf(),
        ensures
            final(self).wf(),
            final(self)@.hint == old(self)@.hint,
            index < old(self)@.slots.len() ==> {
                &&& final(self)@.slots == old(self)@.slots.update(index as int, None)
                &&& link_of(removed) == old(self)@.slots[index as int]
            },
            index >= old(self)@.slots.len() ==> final(self)@ == old(self)@ && removed is None,
    {
        if index < self.buffer.len() {
            let mut slot = None;
            std::mem::swap(&mut self.buffer[index], &mut slot);
            proof {
                assert(self@.slots =~= old(self)@.slots.update(index as int, None));
            }
            slot
        } else {
            proof {
                assert(self@.slots =~= old(self)@.slots);
            }
            None
        }
    }

    /// Starts a read of the value in the slot at `index`.
    pub fn get(&self, heap: &mut Arena<T>, index: usize) -> (found: Option<Guard<T>>)
        requires
            self.wf(),
            old(heap).wf(),
            self@.tenured(old(heap)@),
        ensures
            final(heap).wf(),
            found is Some <==> index < self@.slots.len() && self@.slots[index as int] is Some,
            match found {
                Some(guard) => {
                    let link = self@.slots[index as int]->0;
                    &&& final(heap)@ == old(heap)@.step(link, old(heap)@.cell_of(link).load())
                    &&& final(heap).holds(&guard)
                    &&& final(heap).observed(&guard) == old(heap)@.cell_of(link).value()
                },
                None => final(heap)@ == old(heap)@,
            },
    {
        if index < self.buffer.len() {
            proof {
                assert(self@.slots[index as int] == link_of(self.buffer@[index as int]));
            }
            match &self.buffer[index] {
                Some(element) => Some(element.read(heap)),
                None => None,
            }
        } else {
            None
        }
    }

    /// The position of the first slot that is taken, if there is one.
    fn taken_slot(&self) -> (found: Option<usize>)
        ensures
            match found {
                Some(at) => at == first_taken(self@.slots) && at < self@.slots.len(),
                None => first_taken(self@.slots) == self@.slots.len(),
            },
    {
        let mut i: usize = 0;
        while i < self.buffer.len()
            invariant
                i <= self.buffer.len(),
                forall|j: int| 0 <= j < i ==> self@.slots[j] is None,
            decreases self.buffer.len() - i,
        {
            proof {
                assert(self@.slots[i as int] == link_of(self.buffer@[i as int]));
            }
            if self.buffer[i].is_some() {
                proof {
                    lemma_first_taken_is(self@.slots, i as int);
                }
                return Some(i);
            }
            i += 1;
        }
        proof {
            lemma_first_taken_is(self@.slots, i as int);
        }
        None
    }

    /// The position of the slot that a `put` takes, if a slot is empty.
    fn free_slot(&self) -> (found: Option<usize>)
        ensures
            match found {
                Some(at) => at == self@.put_index() && at < self@.slots.len(),
                None => self@.put_index() == self@.slots.len(),
            },
    {
        proof {
            lemma_first_free(self@.slots);
        }
        // the slot at the hint, if it is empty
        if self.last_index < self.buffer.len() {
            proof {
                assert(self@.slots[self.last_index as int] == link_of(
                    self.buffer@[self.last_index as int],
                ));
            }
            if self.buffer[self.last_index].is_none() {
                return Some(self.last_index);
            }
        }
        // the first empty slot

        let mut i: usize = 0;
        while i < self.buffer.len()
            invariant
                i <= self.buffer.len(),
                !(self@.hint < self@.slots.len() && self@.slots[self@.hint as int] is None),
                forall|j: int| 0 <= j < i ==> self@.slots[j] is Some,
            decreases self.buffer.len() - i,
        {
            proof {
                assert(self@.slots[i as int] == link_of(self.buffer@[i as int]));
            }
            if self.buffer[i].is_none() {
                proof {
                    lemma_first_free_is(self@.slots, i as int);
                }
                return Some(i);
            }
            i += 1;
        }
        proof {
            lemma_first_free_is(self@.slots, i as int);
        }
        None
    }

    /// Empties the first slot that is taken and returns the handle that it
    /// held. `None` means that every slot is empty.
    pub fn pop(&mut self) -> (popped: Option<Keep<T>>)
        requires
            old(self).wf(),
        ensures
            final(self).wf(),
            final(self)@.hint == old(self)@.hint,
            popped is Some <==> first_taken(old(self)@.slots) < old(self)@.slots.len(),
            popped matches Some(keep) ==> {
                &&& Some(keep.link()) == old(self)@.slots[first_taken(old(self)@.slots)]
                &&& final(self)@.slots == old(self)@.slots.update(first_taken(old(self)@.slots), None)
            },
            popped is None ==> final(self)@ == old(self)@,
    {
        proof {
            lemma_first_taken(self@.slots);
        }
        match self.taken_slot() {
            Some(at) => {
                proof {
                    assert(self@.slots[at as int] == link_of(self.buffer@[at as int]));
                }
                let mut slot = None;
                std::mem::swap(&mut self.buffer[at], &mut slot);
                proof {
                    assert(self@.slots =~= old(self)@.slots.update(at as int, None));
                }
                slot
            },
            None => None,
        }
    }

    /// Puts a cell around `e` into an empty slot: the slot at the hint where
    /// that is empty, the first empty slot otherwise. Returns the position
    /// of the slot taken; the hint moves behind it.
    ///
    /// `Err` means that no slot is empty: the cell is given up again, and
    /// the hint moves on by one.
    pub fn put<H: Heaped<T>>(&mut self, heap: &mut Arena<T>, e: H) -> (index: Result<usize, ()>)
        requires
            old(self).wf(),
            old(heap).wf(),
            e.pointee() is Some,
        ensures
            final(self).wf(),
            final(heap).wf(),
            index is Ok <==> old(self)@.put_index() < old(self)@.slots.len(),
            match index {
                Ok(at) => {
                    &&& at == old(self)@.put_index()
                    &&& final(heap)@ == old(heap)@.create(e.pointee()->0)
                    &&& final(self)@.slots == old(self)@.slots.update(
                        at as int,
                        Some(old(heap)@.links.len() as usize),
                    )
                    &&& final(self)@.hint == at + 1
                },
                Err(_) => {
                    &&& final(heap)@ == old(heap)@.create(e.pointee()->0).unlink(
                        old(heap)@.links.len() as usize,
                    )
                    &&& final(self)@.slots == old(self)@.slots
                    &&& final(self)@.hint == usize::wrapping_add(old(self)@.hint, 1)
                },
            },
    {
        let keep = Keep::new(heap, e);
        match self.free_slot() {
            Some(at) => {
                self.buffer[at] = Some(keep);
                self.last_index = at + 1;
                proof {
                    assert(self@.slots =~= old(self)@.slots.update(
                        at as int,
                        Some(old(heap)@.links.len() as usize),
                    ));
                }
                Ok(at)
            },
            None => {
                self.last_index = self.last_index.wrapping_add(1);
                keep.destroy(heap);
                proof {
                    assert(self@.slots =~= old(self)@.slots);
                }
                Err(())
            },
        }
    }

    /// Says where the next `put` shall look first.
    pub fn set_index_hint(&mut self, next_free: usize)
        ensures
            final(self).wf() == old(self).wf(),
            final(self)@.slots == old(self)@.slots,
            final(self)@.hint == next_free,
    {
        self.last_index = next_free;
        proof {
            assert(self@.slots =~= old(self)@.slots);
        }
    }
}

/// The slots of a buffer of `capacity` slots that holds `links` in its first
/// slots and nothing behind them.
pub open spec fn packed(links: Seq<usize>, capacity: nat) -> Seq<Option<usize>> {
    Seq::new(
        capacity,
        |i: int|
            if i < links.len() {
                Some(links[i])
            } else {
                None
            },
    )
}

/// The links of the first slots are the first links of all slots.
pub proof fn lemma_occupied_take(slots: Seq<Option<usize>>, n: int)
    requires
        0 <= n <= slots.len(),
    ensures
        occupied(slots.take(n)).len() <= occupied(slots).len(),
        occupied(slots.take(n)) == occupied(slots).take(occupied(slots.take(n)).len() as int),
        occupied(slots).len() <= slots.len(),
    decreases slots.len() - n,
{
    if n == slots.len() {
        assert(slots.take(n) =~= slots);
        assert(occupied(slots).take(occupied(slots).len() as int) =~= occupied(slots));
        lemma_occupied_len(slots);
    } else {
        lemma_occupied_take(slots, n + 1);
        let longer = slots.take(n + 1);
        assert(longer.drop_last() =~= slots.take(n));
        let all = occupied(slots);
        let more = occupied(longer);
        let less = occupied(slots.take(n));
        assert(less =~= all.take(less.len() as int)) by {
            assert(more == all.take(more.len() as int));
            if longer.last() is Some {
                assert(less == more.drop_last());
            }
        }
    }
}

/// No more links than slots.
pub proof fn lemma_occupied_len(slots: Seq<Option<usize>>)
    ensures
        occupied(slots).len() <= slots.len(),
    decreases slots.len(),
{
    if slots.len() > 0 {
        lemma_occupied_len(slots.drop_last());
    }
}

/// Each link of the slots that are taken is in a slot, and each slot that is
/// taken has its link among them.
pub proof fn lemma_occupied_has(slots: Seq<Option<usize>>)
    ensures
        forall|k: int|
            0 <= k < occupied(slots).len() ==> slots.contains(Some(#[trigger] occupied(slots)[k])),
        forall|i: int|
            0 <= i < slots.len() && slots[i] is Some ==> occupied(slots).contains(
                (#[trigger] slots[i])->0,
            ),
        (forall|i: int, j: int|
            0 <= i < j < slots.len() && slots[i] is Some ==> #[trigger] slots[i] != #[trigger] slots[j])
            ==> occupied(slots).no_duplicates(),
    decreases slots.len(),
{
    if slots.len() > 0 {
        let front = slots.drop_last();
        lemma_occupied_has(front);
        let all = occupied(slots);
        let before = occupied(front);
        assert forall|k: int| 0 <= k < all.len() implies slots.contains(Some(#[trigger] all[k])) by {
            if k < before.len() {
                assert(front.contains(Some(before[k])));
                let i = choose|i: int| 0 <= i < front.len() && front[i] == Some(before[k]);
                assert(slots[i] == Some(all[k]));
            } else {
                assert(slots[slots.len() - 1] == Some(all[k]));
            }
        }
        assert forall|i: int| 0 <= i < slots.len() && slots[i] is Some implies all.contains(
            (#[trigger] slots[i])->0,
        ) by {
            if i < front.len() {
                assert(front[i] == slots[i]);
                assert(before.contains(front[i]->0));
                let k = choose|k: int| 0 <= k < before.len() && before[k] == front[i]->0;
                assert(all[k] == slots[i]->0);
            } else {
                assert(all[all.len() - 1] == slots[i]->0);
            }
        }
        if forall|i: int, j: int|
            0 <= i < j < slots.len() && slots[i] is Some ==> #[trigger] slots[i] != #[trigger] slots[j] {
            assert forall|i: int, j: int|
                0 <= i < j < front.len() && front[i] is Some implies #[trigger] front[i]
                != #[trigger] front[j] by {
                assert(slots[i] != slots[j]);
            }
            assert forall|a: int, b: int| 0 <= a < all.len() && 0 <= b < all.len() && a != b implies all[a]
                != all[b] by {
                if a < before.len() && b < before.len() {
                } else {
                    let low = if a < b {
                        a
                    } else {
                        b
                    };
                    assert(front.contains(Some(before[low])));
                    let i = choose|i: int| 0 <= i < front.len() && front[i] == Some(before[low]);
                    assert(slots[i] != slots[slots.len() - 1]);
                }
            }
        }
    }
}

impl BufferState {
    /// One more slot holds `link` only if that slot does.
    pub proof fn lemma_has_within_step(self, link: usize, from: int, to: int)
        requires
            0 <= to < self.slots.len(),
        ensures
            self.has_within(link, from, to + 1) <==> self.has_within(link, from, to) || (from <= to
                && self.slots[to] == Some(link)),
    {
        if self.has_within(link, from, to + 1) {
            let i = choose|i: int|
                from <= i < to + 1 && 0 <= i < self.slots.len() && #[trigger] self.slots[i] == Some(link);
            if i < to {
                assert(self.has_within(link, from, to));
            }
        }
        if self.has_within(link, from, to) {
            let i = choose|i: int|
                from <= i < to && 0 <= i < self.slots.len() && #[trigger] self.slots[i] == Some(link);
            assert(self.has_within(link, from, to + 1));
        }
        if from <= to && self.slots[to] == Some(link) {
            assert(self.has_within(link, from, to + 1));
        }
    }

    /// The buffer of `capacity` slots that a move of this buffer fills: the
    /// links of the slots that are taken, in order, in its first slots.
    pub open spec fn resized(self, capacity: nat) -> Self {
        BufferState { hint: 0, slots: packed(occupied(self.slots), capacity) }
    }

    /// What a pool with `count` values and at least `2^min_size` slots makes
    /// of its buffer before it takes one more value: a buffer of twice the
    /// size where fewer than three slots would be left, a buffer of half the
    /// size where less than half of the slots is taken, the buffer as it is
    /// otherwise.
    pub open spec fn considered(self, count: nat, min_capacity: nat) -> Self {
        let capacity = self.slots.len();
        if capacity <= count + 2 {
            self.resized(2 * capacity)
        } else if capacity / 2 > count && capacity > min_capacity {
            self.resized(capacity / 2)
        } else {
            self
        }
    }

    /// The buffer after `link` was put into it.
    pub open spec fn put(self, link: usize) -> Self {
        if self.put_index() < self.slots.len() {
            BufferState {
                hint: (self.put_index() + 1) as usize,
                slots: self.slots.update(self.put_index(), Some(link)),
            }
        } else {
            BufferState { hint: usize::wrapping_add(self.hint, 1), ..self }
        }
    }

    /// The buffer after its first taken slot was emptied.
    pub open spec fn popped(self) -> Self {
        if first_taken(self.slots) < self.slots.len() {
            BufferState { slots: self.slots.update(first_taken(self.slots), None), ..self }
        } else {
            self
        }
    }
}

impl<T> ConcurrentBuffer<T> {
    /// Gives up the handle in each slot.
    pub fn dispose(self, heap: &mut Arena<T>)
        requires
            self.wf(),
            self@.tenured(old(heap)@),
            old(heap).wf(),
        ensures
            final(heap).wf(),
            final(heap)@.links == old(heap)@.links,
            final(heap)@.cells.len() == old(heap)@.cells.len(),
            forall|c: usize|
                c < old(heap)@.cells.len() ==> #[trigger] final(heap)@.cells[c as int] == if self@.has(
                    c,
                ) {
                    old(heap)@.cells[c as int].retire()
                } else {
                    old(heap)@.cells[c as int]
                },
    {
        self.dispose_all(heap)
    }

    /// Gives up the handle in each slot, last slot first.
    fn dispose_all(self, heap: &mut Arena<T>)
        requires
            self.wf(),
            old(heap).wf(),
            old(heap)@.unswapped(),
            self@.distinct(),
            forall|i: int|
                0 <= i < self@.slots.len() && self@.slots[i] is Some ==> {
                    &&& (#[trigger] self@.slots[i])->0 < old(heap)@.links.len()
                    &&& 1 <= old(heap)@.cells[self@.slots[i]->0 as int].accessors
                },
        ensures
            final(heap).wf(),
            final(heap)@.links == old(heap)@.links,
            final(heap)@.cells.len() == old(heap)@.cells.len(),
            forall|c: usize|
                c < old(heap)@.cells.len() ==> #[trigger] final(heap)@.cells[c as int] == if self@.has(
                    c,
                ) {
                    old(heap)@.cells[c as int].retire()
                } else {
                    old(heap)@.cells[c as int]
                },
    {
        let ghost state = self@;
        let ConcurrentBuffer { last_index, capacity, buffer } = self;
        let mut buffer = buffer;
        let ghost full = state.slots.len() as int;
        while buffer.len() > 0
            invariant
                heap.wf(),
                old(heap)@.unswapped(),
                state.distinct(),
                forall|i: int|
                    0 <= i < state.slots.len() && state.slots[i] is Some ==> {
                        &&& (#[trigger] state.slots[i])->0 < old(heap)@.links.len()
                        &&& 1 <= old(heap)@.cells[state.slots[i]->0 as int].accessors
                    },
                full == state.slots.len(),
                buffer@.len() <= full,
                forall|i: int| 0 <= i < buffer@.len() ==> link_of(#[trigger] buffer@[i]) == state.slots[i],
                heap@.links == old(heap)@.links,
                heap@.cells.len() == old(heap)@.cells.len(),
                forall|c: usize|
                    c < old(heap)@.cells.len() ==> #[trigger] heap@.cells[c as int] == if state.has_within(
                        c,
                        buffer@.len() as int,
                        full,
                    ) {
                        old(heap)@.cells[c as int].retire()
                    } else {
                        old(heap)@.cells[c as int]
                    },
            decreases buffer.len(),
        {
            let ghost n = buffer@.len() as int;
            let ghost before = heap@;
            let slot = buffer.pop().unwrap();
            proof {
                assert(link_of(slot) == state.slots[n - 1]);
            }
            match slot {
                Some(keep) => {
                    let ghost link = keep.link();
                    proof {
                        assert(state.slots[n - 1] == Some(link));
                        if state.has_within(link, n, full) {
                            let i = choose|i: int|
                                n <= i < full && 0 <= i < state.slots.len() && #[trigger] state.slots[i]
                                    == Some(link);
                            assert(state.slots[n - 1] != state.slots[i]);
                        }
                        assert(before.cells[link as int] == old(heap)@.cells[link as int]);
                        before.lemma_unlink_keeps(link);
                    }
                    keep.destroy(heap);
                    proof {
                        assert forall|c: usize| c < old(heap)@.cells.len() implies #[trigger] heap@.cells[c as int]
                            == if state.has_within(c, n - 1, full) {
                            old(heap)@.cells[c as int].retire()
                        } else {
                            old(heap)@.cells[c as int]
                        } by {
                            if c == link {
                                assert(state.has_within(c, n - 1, full));
                            } else {
                                if state.has_within(c, n - 1, full) {
                                    let i = choose|i: int|
                                        n - 1 <= i < full && 0 <= i < state.slots.len()
                                            && #[trigger] state.slots[i] == Some(c);
                                    assert(i != n - 1);
                                    assert(state.has_within(c, n, full));
                                }
                                if state.has_within(c, n, full) {
                                    let i = choose|i: int|
                                        n <= i < full && 0 <= i < state.slots.len()
                                            && #[trigger] state.slots[i] == Some(c);
                                    assert(state.has_within(c, n - 1, full));
                                }
                            }
                        }
                    }
                },
                None => {
                    proof {
                        assert forall|c: usize| c < old(heap)@.cells.len() implies #[trigger] heap@.cells[c as int]
                            == if state.has_within(c, n - 1, full) {
                            old(heap)@.cells[c as int].retire()
                        } else {
                            old(heap)@.cells[c as int]
                        } by {
                            if state.has_within(c, n - 1, full) {
                                let i = choose|i: int|
                                    n - 1 <= i < full && 0 <= i < state.slots.len()
                                        && #[trigger] state.slots[i] == Some(c);
                                assert(i != n - 1);
                                assert(state.has_within(c, n, full));
                            }
                            if state.has_within(c, n, full) {
                                let i = choose|i: int|
                                    n <= i < full && 0 <= i < state.slots.len() && #[trigger] state.slots[i]
                                        == Some(c);
                                assert(state.has_within(c, n - 1, full));
                            }
                        }
                    }
                },
            }
        }
    }
}

/// The greatest number of slots of a pool.
pub const MAX_CAPACITY: usize = 0x4000_0000;

/// The least size of a pool: 16 slots.
pub const MIN_SIZE: usize = 4;

/// How many slots a call that helps with a move claims at a time.
pub const STRIDE: usize = 8;

/// The state of one move of a pool into a buffer of another size.
struct Resizer<T> {
    new: ConcurrentBuffer<T>,
    length: usize,
    current_index: usize,
    new_index: usize,
    stride: usize,
    workers: usize,
    swapped: bool,
}

impl<T> Resizer<T> {
    /// The resizer is in order for the move out of a buffer in the state
    /// `current`: no helper is at work, and the new buffer holds, in its
    /// first slots, the links of the slots that were claimed.
    spec fn wf(&self, current: BufferState) -> bool {
        &&& self.new.wf()
        &&& self.new@.hint == 0
        &&& 0 < self.stride <= STRIDE
        &&& current.slots.len() <= MAX_CAPACITY
        &&& self.new@.slots.len() <= MAX_CAPACITY
        &&& self.length <= current.slots.len()
        &&& self.length <= self.new@.slots.len()
        &&& occupied(current.slots).len() <= self.length
        &&& self.current_index <= current.slots.len() + self.stride
        &&& self.workers == 0
        &&& self.new@.slots == packed(occupied(current.slots.take(self.done(current))), self.new@.slots.len())
        &&& self.new_index == occupied(current.slots.take(self.done(current))).len()
    }

    /// How many slots of the old buffer were moved.
    spec fn done(&self, current: BufferState) -> int {
        if self.current_index < current.slots.len() {
            self.current_index as int
        } else {
            current.slots.len() as int
        }
    }

    /// A resizer for the move out of `current` into `new`, by `stride` slots
    /// at a time.
    fn new(stride: usize, current: &ConcurrentBuffer<T>, new: ConcurrentBuffer<T>) -> (resizer: Self)
        requires
            current.wf(),
            new.wf(),
            0 < stride <= STRIDE,
            current@.slots.len() <= MAX_CAPACITY,
            new@.slots.len() <= MAX_CAPACITY,
            occupied(current@.slots).len() <= new@.slots.len(),
            new@.slots == packed(Seq::empty(), new@.slots.len()),
            new@.hint == 0,
        ensures
            resizer.wf(current@),
            !resizer.swapped,
            resizer.current_index == 0,
            resizer.new@.slots.len() == new@.slots.len(),
    {
        // the smaller of the two sizes bounds what can be moved
        let length = if current.capacity() < new.capacity() {
            current.capacity()
        } else {
            new.capacity()
        };
        proof {
            lemma_occupied_len(current@.slots);
            assert(current@.slots.take(0) =~= Seq::empty());
        }
        Resizer {
            new,
            length,
            stride,
            workers: 0,
            current_index: 0,
            new_index: 0,
            swapped: false,
        }
    }

    /// Returns `true` once, and `false` ever after: the call that gets
    /// `true` is the one that swaps the buffers.
    fn do_swap(&mut self) -> (first: bool)
        ensures
            first == !old(self).swapped,
            final(self).swapped,
            final(self).new == old(self).new,
            final(self).length == old(self).length,
            final(self).current_index == old(self).current_index,
            final(self).new_index == old(self).new_index,
            final(self).stride == old(self).stride,
            final(self).workers == old(self).workers,
    {
        let first = !self.swapped;
        self.swapped = true;
        first
    }

    /// Helps with the move until no slot of `current` is left to claim: the
    /// handle of each slot that is taken is cloned into the next slot of the
    /// new buffer.
    fn resize(&mut self, current: &ConcurrentBuffer<T>, heap: &mut Arena<T>)
        requires
            old(self).wf(current@),
            current.wf(),
            current@.tenured(old(heap)@),
            old(heap).wf(),
        ensures
            final(self).wf(current@),
            final(self).swapped == old(self).swapped,
            final(self).new@ == current@.resized(old(self).new@.slots.len()),
            final(heap).wf(),
            final(heap)@.links == old(heap)@.links,
            final(heap)@.cells.len() == old(heap)@.cells.len(),
            forall|c: usize|
                c < old(heap)@.cells.len() ==> #[trigger] final(heap)@.cells[c as int]
                    == if current@.has_within(
                    c,
                    old(self).done(current@),
                    current@.slots.len() as int,
                ) {
                    old(heap)@.cells[c as int].register()
                } else {
                    old(heap)@.cells[c as int]
                },
    {
        let ghost source = current@;
        let ghost from = self.done(source);
        let ghost full = source.slots.len() as int;
        let ghost width = self.new@.slots.len();

        // one more helper
        self.workers = self.workers + 1;

        // the first stretch
        let mut start = self.current_index;
        if start < current.capacity() {
            self.current_index = start + self.stride;
        }
        let mut end = if start + self.stride < current.capacity() {
            start + self.stride
        } else {
            current.capacity()
        };

        while start < end && self.new_index < self.length
            invariant
                source == current@,
                current.wf(),
                source.tenured(old(heap)@),
                full == source.slots.len(),
                full <= MAX_CAPACITY,
                width == self.new@.slots.len(),
                width <= MAX_CAPACITY,
                self.new.wf(),
                self.new@.hint == 0,
                0 < self.stride <= STRIDE,
                self.stride == old(self).stride,
                self.swapped == old(self).swapped,
                self.length == old(self).length,
                self.length <= full,
                self.length <= width,
                occupied(source.slots).len() <= self.length,
                self.workers == 1,
                0 <= from <= start,
                start <= full + self.stride,
                end <= full,
                start < full ==> end == self.done(source) && self.current_index == start + self.stride,
                start >= full ==> self.current_index == start,
                self.new@.slots == packed(
                    occupied(source.slots.take(if start < full { start as int } else { full })),
                    width,
                ),
                self.new_index == occupied(
                    source.slots.take(if start < full { start as int } else { full }),
                ).len(),
                heap.wf(),
                heap@.links == old(heap)@.links,
                heap@.cells.len() == old(heap)@.cells.len(),
                forall|c: usize|
                    c < old(heap)@.cells.len() ==> #[trigger] heap@.cells[c as int]
                        == if source.has_within(
                        c,
                        from,
                        if start < full {
                            start as int
                        } else {
                            full
                        },
                    ) {
                        old(heap)@.cells[c as int].register()
                    } else {
                        old(heap)@.cells[c as int]
                    },
            decreases full + STRIDE - start,
        {
            let mut i = start;
            while i < end
                invariant
                    source == current@,
                    current.wf(),
                    source.tenured(old(heap)@),
                    full == source.slots.len(),
                    width == self.new@.slots.len(),
                    self.new.wf(),
                    self.new@.hint == 0,
                    self.stride == old(self).stride,
                    self.swapped == old(self).swapped,
                    self.length == old(self).length,
                    self.length <= width,
                    occupied(source.slots).len() <= self.length,
                    self.workers == 1,
                    0 <= from <= start <= i <= end <= full,
                    self.current_index == start + self.stride,
                    self.new@.slots == packed(occupied(source.slots.take(i as int)), width),
                    self.new_index == occupied(source.slots.take(i as int)).len(),
                    heap.wf(),
                    heap@.links == old(heap)@.links,
                    heap@.cells.len() == old(heap)@.cells.len(),
                    forall|c: usize|
                        c < old(heap)@.cells.len() ==> #[trigger] heap@.cells[c as int]
                            == if source.has_within(c, from, i as int) {
                            old(heap)@.cells[c as int].register()
                        } else {
                            old(heap)@.cells[c as int]
                        },
                decreases end - i,
            {
                let ghost before = heap@;
                let ghost filled = self.new@.slots;
                proof {
                    assert(source.slots.take(i + 1).drop_last() =~= source.slots.take(i as int));
                    assert(source.slots.take(i + 1).last() == source.slots[i as int]);
                    assert(source.slots[i as int] == link_of(current.buffer@[i as int]));
                    lemma_occupied_take(source.slots, i + 1);
                }
                match &current.buffer[i] {
                    Some(old_entry) => {
                        let ghost link = old_entry.link();
                        proof {
                            if source.has_within(link, from, i as int) {
                                let j = choose|j: int|
                                    from <= j < i && 0 <= j < source.slots.len() && #[trigger] source.slots[j]
                                        == Some(link);
                                assert(source.slots[j] != source.slots[i as int]);
                            }
                            assert(before.cells[link as int] == old(heap)@.cells[link as int]);
                            before.lemma_register_keeps(link);
                        }
                        if self.new_index < self.length {
                            let new_index = self.new_index;
                            self.new_index = new_index + 1;
                            let entry = Some(old_entry.clone(heap));
                            self.new.buffer[new_index] = entry;
                            proof {
                                let longer = occupied(source.slots.take(i + 1));
                                assert(longer == occupied(source.slots.take(i as int)).push(link));
                                assert(self.new@.slots =~= filled.update(new_index as int, Some(link)));
                                assert(self.new@.slots =~= packed(longer, width));
                            }
                        }
                        proof {
                            assert forall|c: usize| c < old(heap)@.cells.len() implies #[trigger] heap@.cells[c as int]
                                == if source.has_within(c, from, i + 1) {
                                old(heap)@.cells[c as int].register()
                            } else {
                                old(heap)@.cells[c as int]
                            } by {
                                if c == link {
                                    assert(source.slots[i as int] == Some(c));
                                    assert(source.has_within(c, from, i + 1));
                                } else {
                                    source.lemma_has_within_step(c, from, i as int);
                                }
                            }
                        }
                    },
                    None => {
                        proof {
                            assert forall|c: usize| c < old(heap)@.cells.len() implies #[trigger] heap@.cells[c as int]
                                == if source.has_within(c, from, i + 1) {
                                old(heap)@.cells[c as int].register()
                            } else {
                                old(heap)@.cells[c as int]
                            } by {
                                source.lemma_has_within_step(c, from, i as int);
                            }
                        }
                    },
                }
                i += 1;
            }

            // the next stretch
            start = self.current_index;
            if start < current.capacity() {
                self.current_index = start + self.stride;
            }
            end = if start + self.stride < current.capacity() {
                start + self.stride
            } else {
                current.capacity()
            };
        }
        proof {
            // what was not claimed holds nothing that is left to move
            let reached = if start < full {
                start as int
            } else {
                full
            };
            lemma_occupied_take(source.slots, reached);
            assert(source.slots.take(full) =~= source.slots);
            if reached < full {
                assert(self.new_index == self.length);
                assert(occupied(source.slots.take(reached)) =~= occupied(source.slots));
                lemma_no_more(source.slots, reached);
                assert forall|c: usize| #[trigger]
                    source.has_within(c, from, reached) == source.has_within(c, from, full) by {
                    if source.has_within(c, from, full) {
                        let i = choose|i: int|
                            from <= i < full && 0 <= i < source.slots.len() && #[trigger] source.slots[i]
                                == Some(c);
                        assert(i < reached);
                        assert(source.has_within(c, from, reached));
                    }
                    if source.has_within(c, from, reached) {
                        let i = choose|i: int|
                            from <= i < reached && 0 <= i < source.slots.len() && #[trigger] source.slots[i]
                                == Some(c);
                        assert(source.has_within(c, from, full));
                    }
                }
            }
        }

        // this helper is done
        self.workers = self.workers - 1;
        let mut workers = self.workers;

        // wait until every helper is done
        while workers != 0
            invariant
                workers == self.workers,
                self.workers == 0,
            decreases workers,
        {
            workers = self.workers;
        }
        proof {
            // the slots behind those that were moved are empty
            let reached = if start < full {
                start as int
            } else {
                full
            };
            let done = self.done(source);
            assert(reached <= done <= full);
            lemma_occupied_take(source.slots, done);
            lemma_occupied_take(source.slots.take(done), reached);
            assert(source.slots.take(done).take(reached) =~= source.slots.take(reached));
            assert(occupied(source.slots.take(done)) =~= occupied(source.slots));
        }
    }
}

/// Where the first slots hold every link of a buffer, the other slots are
/// empty.
pub proof fn lemma_no_more(slots: Seq<Option<usize>>, n: int)
    requires
        0 <= n <= slots.len(),
        occupied(slots.take(n)).len() == occupied(slots).len(),
    ensures
        forall|i: int| n <= i < slots.len() ==> (#[trigger] slots[i]) is None,
    decreases slots.len() - n,
{
    if n < slots.len() {
        lemma_occupied_take(slots, n + 1);
        assert(slots.take(n + 1).drop_last() =~= slots.take(n));
        assert(slots.take(n + 1).last() == slots[n]);
        lemma_no_more(slots, n + 1);
    }
}

/// A pool of values that doubles its buffer before it runs full, and halves
/// it when less than half of it is taken.
pub struct DynBuffer<T> {
    min_size: usize,
    buffer: ConcurrentBuffer<T>,
    resizer: Option<Resizer<T>>,
    count: usize,
    readers: usize,
    heap: Arena<T>,
}

/// `2^size`, for a size that a pool can have.
fn pow2_capacity(size: usize) -> (power: usize)
    requires
        size <= 30,
    ensures
        power == vstd::arithmetic::power2::pow2(size as nat),
        power <= MAX_CAPACITY,
{
    proof {
        vstd::bits::lemma_u64_pow2_no_overflow(size as nat);
        vstd::arithmetic::power2::lemma2_to64();
        if size < 30 {
            vstd::arithmetic::power2::lemma_pow2_strictly_increases(size as nat, 30);
        }
        vstd::bits::lemma_u64_shl_is_mul(1, size as u64);
    }
    let power: u64 = 1u64 << (size as u64);
    power as usize
}

impl<T> DynBuffer<T> {
    /// The buffer of the pool.
    pub closed spec fn view(&self) -> BufferState {
        self.buffer@
    }

    /// The arena of the values.
    pub closed spec fn vals(&self) -> Arena<T> {
        self.heap
    }

    /// The number of values in the pool.
    pub closed spec fn count(&self) -> nat {
        self.count as nat
    }

    /// The values in the pool.
    pub closed spec fn values(&self) -> Multiset<T> {
        contents(self.buffer@.slots, self.heap@).to_multiset()
    }

    /// The least number of slots of the pool.
    pub closed spec fn min_capacity(&self) -> nat {
        vstd::arithmetic::power2::pow2(self.min_size as nat)
    }

    /// The pool is in order: no move is under way, the count is the number
    /// of slots that are taken, and the buffer holds its value cells for
    /// itself.
    pub closed spec fn wf(&self) -> bool {
        &&& self.buffer.wf()
        &&& self.heap.wf()
        &&& self.buffer@.tenured(self.heap@)
        &&& self.resizer is None
        &&& self.readers == 0
        &&& MIN_SIZE <= self.min_size <= 30
        &&& self.count == occupied(self.buffer@.slots).len()
        &&& 0 < self.buffer@.slots.len() <= MAX_CAPACITY
    }

    /// The arena of the values, to look through a guard with.
    pub fn heap(&self) -> (heap: &Arena<T>)
        requires
            self.wf(),
        ensures
            *heap == self.vals(),
            heap.wf(),
    {
        &self.heap
    }

    /// The number of values in the pool.
    pub fn len(&self) -> (count: usize)
        ensures
            count == self.count(),
    {
        self.count
    }

    /// The number of slots of the pool.
    pub fn capacity(&self) -> (capacity: usize)
        requires
            self.wf(),
        ensures
            capacity == self@.slots.len(),
    {
        self.buffer.capacity()
    }

    /// A pool of 16 slots.
    pub fn new() -> (pool: Self)
        ensures
            pool.wf(),
            pool.count() == 0,
            pool@ == (BufferState { hint: 0, slots: packed(Seq::empty(), 16) }),
            pool.min_capacity() == 16,
            pool.vals()@.links.len() == 0,
            pool.values() == Multiset::<T>::empty(),
    {
        proof {
            vstd::arithmetic::power2::lemma2_to64();
        }
        Self::with_hint(MIN_SIZE)
    }

    /// A pool of `2^hint` slots, and of 16 where `hint` is less than 4.
    pub fn with_hint(hint: usize) -> (pool: Self)
        requires
            hint <= 30,
        ensures
            pool.wf(),
            pool.count() == 0,
            pool.min_capacity() == vstd::arithmetic::power2::pow2(
                if hint < MIN_SIZE {
                    MIN_SIZE as nat
                } else {
                    hint as nat
                },
            ),
            pool@ == (BufferState { hint: 0, slots: packed(Seq::empty(), pool.min_capacity()) }),
            pool.vals()@.links.len() == 0,
            pool.values() == Multiset::<T>::empty(),
    {
        let min_size = if hint < MIN_SIZE {
            MIN_SIZE
        } else {
            hint
        };
        let capacity = pow2_capacity(min_size);
        let pool = DynBuffer {
            min_size,
            buffer: ConcurrentBuffer::with_capacity(capacity),
            resizer: None,
            count: 0,
            readers: 0,
            heap: Arena::new(),
        };
        proof {
            vstd::arithmetic::power2::lemma_pow2_pos(min_size as nat);
            assert(pool.buffer@.slots =~= packed(Seq::empty(), capacity as nat));
            lemma_all_empty(pool.buffer@.slots);
            let served = contents(pool.buffer@.slots, pool.heap@);
            assert(served =~= Seq::empty());
            served.to_multiset_ensures();
            assert(served.to_multiset() =~= Multiset::<T>::empty());
        }
        pool
    }

    /// Puts a cell around `val` into the pool. The buffer is doubled first
    /// where fewer than three slots would be left, and halved where less
    /// than half of it is taken.
    pub fn push<H: Heaped<T>>(&mut self, val: H)
        requires
            old(self).wf(),
            old(self).count() + 2 < MAX_CAPACITY / 2,
            val.pointee() is Some,
        ensures
            final(self).wf(),
            final(self).count() == old(self).count() + 1,
            final(self).min_capacity() == old(self).min_capacity(),
            final(self).values() == old(self).values().insert(val.pointee()->0),
            final(self).vals()@ == old(self).vals()@.create(val.pointee()->0),
            final(self)@ == old(self)@.considered(old(self).count(), old(self).min_capacity()).put(
                old(self).vals()@.links.len() as usize,
            ),
            old(self)@.considered(old(self).count(), old(self).min_capacity()).put_index() < old(
                self,
            )@.considered(old(self).count(), old(self).min_capacity()).slots.len(),
    {
        // help with a move that is under way
        self.maybe_resize();

        let count = self.count;
        self.count = count + 1;

        self.consider_resize(count);
        self.maybe_resize();

        let ghost settled = self.buffer@;
        let ghost origin = self.heap@;
        proof {
            lemma_occupied_len(old(self)@.slots);
            lemma_room(settled.slots);
            lemma_first_free(settled.slots);
        }
        let put = self.buffer.put(&mut self.heap, val);
        proof {
            origin.lemma_create_keeps(val.pointee()->0);
            let at = settled.put_index();
            let link = origin.links.len() as usize;
            lemma_occupied_update(settled.slots, at, link);
            let later = self.heap@;
            // the values that were there, and the new one among them
            lemma_occupied_insert(settled.slots, at, link);
            lemma_occupied_has(settled.slots);
            let occ = occupied(settled.slots);
            let k = occupied(settled.slots.take(at)).len() as int;
            let before = contents(settled.slots, origin);
            let after = contents(self.buffer@.slots, later);
            assert(contents(old(self).buffer@.slots, origin) =~= before);
            assert forall|i: int| 0 <= i < occ.len() implies later.cell_of(occ[i]).value()
                == origin.cell_of(occ[i]).value() by {
                assert(settled.slots.contains(Some(occ[i])));
                let j = choose|j: int| 0 <= j < settled.slots.len() && settled.slots[j] == Some(occ[i]);
                assert(settled.slots[j]->0 < origin.links.len());
                assert(origin.cells[occ[i] as int].accessors > 0);
            }
            assert(after =~= before.insert(k, val.pointee()->0));
            vstd::seq_lib::to_multiset_insert(before, k, val.pointee()->0);
            assert forall|i: int|
                0 <= i < self.buffer@.slots.len() && self.buffer@.slots[i] is Some implies {
                &&& (#[trigger] self.buffer@.slots[i])->0 < later.links.len()
                &&& 1 <= later.cells[self.buffer@.slots[i]->0 as int].accessors < usize::MAX
            } by {
                if i != at {
                    assert(settled.slots[i] == self.buffer@.slots[i]);
                    assert(origin.cells[settled.slots[i]->0 as int].accessors > 0);
                }
            }
            assert forall|i: int, j: int|
                0 <= i < j < self.buffer@.slots.len() && self.buffer@.slots[i] is Some implies #[trigger] self.buffer@.slots[i]
                != #[trigger] self.buffer@.slots[j] by {
                if i != at && j != at {
                    assert(settled.slots[i] != settled.slots[j]);
                } else if i == at {
                    if settled.slots[j] is Some {
                        assert(settled.slots[j]->0 < origin.links.len());
                    }
                } else {
                    assert(settled.slots[i]->0 < origin.links.len());
                }
            }
        }
    }

    /// Takes a value out of the pool: the handle in the first slot that is
    /// taken. `None` means that the pool is empty.
    pub fn pop(&mut self) -> (popped: Option<Keep<T>>)
        requires
            old(self).wf(),
        ensures
            final(self).wf(),
            final(self).min_capacity() == old(self).min_capacity(),
            final(self).vals()@ == old(self).vals()@,
            final(self)@ == old(self)@.popped(),
            popped is Some <==> old(self).count() > 0,
            popped matches Some(keep) ==> {
                &&& Some(keep.link()) == old(self)@.slots[first_taken(old(self)@.slots)]
                &&& final(self).count() == old(self).count() - 1
                &&& final(self).vals().live(&keep)
                &&& !final(self)@.has(keep.link())
                &&& old(self).values().count(final(self).vals().value(&keep)) > 0
                &&& final(self).values() == old(self).values().remove(final(self).vals().value(&keep))
            },
            popped is None ==> final(self).count() == 0 && final(self).values() == old(self).values()
                && old(self).values().len() == 0,
    {
        proof {
            lemma_first_taken(self.buffer@.slots);
            lemma_all_empty(self.buffer@.slots);
        }
        if self.count == 0 {
            proof {
                let served = contents(self.buffer@.slots, self.heap@);
                assert(served =~= Seq::empty());
                served.to_multiset_ensures();
            }
            return None;
        }
        // help with a move that is under way

        self.maybe_resize();

        self.readers = self.readers + 1;

        let ret = self.buffer.pop();

        // one value less
        if ret.is_some() {
            self.count = self.count - 1;
        }
        self.readers = self.readers - 1;

        proof {
            let at = first_taken(old(self)@.slots);
            lemma_occupied_clear(old(self)@.slots, at);
            let link = old(self)@.slots[at]->0;
            // the values that were there, but the one that was taken
            lemma_occupied_remove(old(self)@.slots, at);
            let k = occupied(old(self)@.slots.take(at)).len() as int;
            let before = contents(old(self)@.slots, self.heap@);
            let after = contents(self.buffer@.slots, self.heap@);
            assert(after =~= before.remove(k));
            vstd::seq_lib::to_multiset_remove(before, k);
            assert(before.contains(before[k]));
            vstd::seq_lib::to_multiset_contains(before, before[k]);
            if self.buffer@.has(link) {
                let i = choose|i: int|
                    0 <= i < self.buffer@.slots.len() && 0 <= i < self.buffer@.slots.len()
                        && #[trigger] self.buffer@.slots[i] == Some(link);
                assert(old(self)@.slots[i] == Some(link));
                if i < at {
                    assert(old(self)@.slots[i] != old(self)@.slots[at]);
                } else {
                    assert(old(self)@.slots[at] != old(self)@.slots[i]);
                }
            }
            assert forall|i: int, j: int|
                0 <= i < j < self.buffer@.slots.len() && self.buffer@.slots[i] is Some implies #[trigger] self.buffer@.slots[i]
                != #[trigger] self.buffer@.slots[j] by {
                if j != at {
                    assert(old(self)@.slots[i] != old(self)@.slots[j]);
                }
            }
        }
        ret
    }

    /// Starts a read of the value in the cell that `keep` names.
    pub fn read(&mut self, keep: &Keep<T>) -> (guard: Guard<T>)
        requires
            old(self).wf(),
            old(self).vals().live(keep),
        ensures
            final(self).wf(),
            final(self)@ == old(self)@,
            final(self).count() == old(self).count(),
            final(self).min_capacity() == old(self).min_capacity(),
            final(self).values() == old(self).values(),
            final(self).vals()@ == old(self).vals()@.step(
                keep.link(),
                old(self).vals()@.cell_of(keep.link()).load(),
            ),
            final(self).vals().holds(&guard),
            final(self).vals().observed(&guard) == old(self).vals().value(keep),
    {
        let ghost origin = self.heap@;
        let guard = keep.read(&mut self.heap);
        proof {
            origin.lemma_read_keeps(keep.link());
            let later = self.heap@;
            assert forall|i: int|
                0 <= i < self.buffer@.slots.len() && self.buffer@.slots[i] is Some implies {
                &&& (#[trigger] self.buffer@.slots[i])->0 < later.links.len()
                &&& 1 <= later.cells[self.buffer@.slots[i]->0 as int].accessors < usize::MAX
            } by {
                assert(origin.cells[self.buffer@.slots[i]->0 as int].accessors > 0);
            }
            assert forall|i: int|
                0 <= i < self.buffer@.slots.len() && self.buffer@.slots[i] is Some implies later.cell_of(
                (#[trigger] self.buffer@.slots[i])->0,
            ).value() == origin.cell_of(self.buffer@.slots[i]->0).value() by {
                assert(origin.cells[self.buffer@.slots[i]->0 as int].accessors > 0);
            }
            lemma_contents_kept(self.buffer@.slots, origin, later);
        }
        guard
    }

    /// Ends the read `guard`.
    pub fn release(&mut self, guard: Guard<T>)
        requires
            old(self).wf(),
            old(self).vals().holds(&guard),
        ensures
            final(self).wf(),
            final(self)@ == old(self)@,
            final(self).count() == old(self).count(),
            final(self).min_capacity() == old(self).min_capacity(),
            final(self).values() == old(self).values(),
            final(self).vals()@ == old(self).vals()@.step_cell(
                guard.cell(),
                old(self).vals()@.cells[guard.cell() as int].release(guard.addr(), guard.slot()),
            ),
    {
        let ghost origin = self.heap@;
        proof {
            origin.lemma_release_keeps(guard.cell(), guard.addr(), guard.slot());
        }
        guard.release(&mut self.heap);
        proof {
            let later = self.heap@;
            assert forall|i: int|
                0 <= i < self.buffer@.slots.len() && self.buffer@.slots[i] is Some implies {
                &&& (#[trigger] self.buffer@.slots[i])->0 < later.links.len()
                &&& 1 <= later.cells[self.buffer@.slots[i]->0 as int].accessors < usize::MAX
            } by {
                assert(origin.cells[self.buffer@.slots[i]->0 as int].accessors > 0);
            }
            assert forall|i: int|
                0 <= i < self.buffer@.slots.len() && self.buffer@.slots[i] is Some implies later.cell_of(
                (#[trigger] self.buffer@.slots[i])->0,
            ).value() == origin.cell_of(self.buffer@.slots[i]->0).value() by {
                assert(origin.cells[self.buffer@.slots[i]->0 as int].accessors > 0);
            }
            lemma_contents_kept(self.buffer@.slots, origin, later);
        }
    }

    /// Gives up `keep`, a handle that the pool handed out.
    pub fn discard(&mut self, keep: Keep<T>)
        requires
            old(self).wf(),
            old(self).vals().live(&keep),
            !old(self)@.has(keep.link()),
        ensures
            final(self).wf(),
            final(self)@ == old(self)@,
            final(self).count() == old(self).count(),
            final(self).min_capacity() == old(self).min_capacity(),
            final(self).values() == old(self).values(),
            final(self).vals()@ == old(self).vals()@.unlink(keep.link()),
    {
        let ghost origin = self.heap@;
        proof {
            origin.lemma_unlink_keeps(keep.link());
        }
        keep.destroy(&mut self.heap);
        proof {
            let later = self.heap@;
            assert forall|i: int|
                0 <= i < self.buffer@.slots.len() && self.buffer@.slots[i] is Some implies {
                &&& (#[trigger] self.buffer@.slots[i])->0 < later.links.len()
                &&& 1 <= later.cells[self.buffer@.slots[i]->0 as int].accessors < usize::MAX
            } by {
                let l = self.buffer@.slots[i]->0;
                assert(self.buffer@.has_within(l, 0, self.buffer@.slots.len() as int));
                assert(l != keep.link());
            }
            assert forall|i: int|
                0 <= i < self.buffer@.slots.len() && self.buffer@.slots[i] is Some implies later.cell_of(
                (#[trigger] self.buffer@.slots[i])->0,
            ).value() == origin.cell_of(self.buffer@.slots[i]->0).value() by {
                let l = self.buffer@.slots[i]->0;
                assert(self.buffer@.has_within(l, 0, self.buffer@.slots.len() as int));
                assert(l != keep.link());
            }
            lemma_contents_kept(self.buffer@.slots, origin, later);
        }
    }

    /// Puts a resizer in place where the buffer shall be doubled or halved
    /// before the value number `index` comes in. Says whether a resizer is
    /// in place.
    fn consider_resize(&mut self, index: usize) -> (resizing: bool)
        requires
            old(self).settled(),
            index == occupied(old(self).buffer@.slots).len(),
            index + 2 < MAX_CAPACITY / 2,
        ensures
            final(self).buffer == old(self).buffer,
            final(self).heap == old(self).heap,
            final(self).min_size == old(self).min_size,
            final(self).count == old(self).count,
            final(self).readers == old(self).readers,
            resizing == final(self).resizer is Some,
            match final(self).resizer {
                Some(resizer) => {
                    &&& resizer.wf(final(self).buffer@)
                    &&& resizer.current_index == 0
                    &&& !resizer.swapped
                    &&& final(self).buffer@.resized(resizer.new@.slots.len()) == old(
                        self,
                    ).buffer@.considered(index as nat, old(self).min_capacity())
                    &&& resizer.new@.slots.len() > index + 2 || resizer.new@.slots.len() > index
                    &&& 0 < resizer.new@.slots.len()
                },
                None => {
                    &&& old(self).buffer@.considered(index as nat, old(self).min_capacity()) == old(
                        self,
                    ).buffer@
                    &&& old(self).buffer@.slots.len() > index + 2
                },
            },
    {
        let capacity = self.buffer.capacity();
        let mut buf: Option<ConcurrentBuffer<T>> = None;
        proof {
            lemma_occupied_len(self.buffer@.slots);
        }
        let floor = pow2_capacity(self.min_size);
        if self.resizer.is_none() {
            if capacity <= index + 2 {
                // almost full: twice the size
                buf = Some(ConcurrentBuffer::with_capacity(capacity << 1));
                proof {
                    assert(capacity << 1 == 2 * capacity) by (bit_vector)
                        requires
                            capacity <= 0x4000_0000,
                    ;
                }
            } else if (capacity >> 1) > index && capacity > floor {
                // less than half full: half the size
                buf = Some(ConcurrentBuffer::with_capacity(capacity >> 1));
                proof {
                    assert(capacity >> 1 == capacity / 2) by (bit_vector);
                }
            } else {
                proof {
                    assert(capacity >> 1 == capacity / 2) by (bit_vector);
                }
            }
            if let Some(new) = buf {
                proof {
                    assert(new@.slots =~= packed(Seq::empty(), new@.slots.len()));
                }
                let resizer = Resizer::new(STRIDE, &self.buffer, new);
                self.resizer = Some(resizer);
                return true;
            }
        }
        self.resizer.is_some()
    }

    /// Carries out the move that a resizer in place stands for, swaps the
    /// buffers and gives up the old one.
    fn maybe_resize(&mut self)
        requires
            old(self).buffer.wf(),
            old(self).heap.wf(),
            old(self).buffer@.tenured(old(self).heap@),
            old(self).readers == 0,
            match old(self).resizer {
                Some(resizer) => {
                    &&& resizer.wf(old(self).buffer@)
                    &&& resizer.current_index == 0
                    &&& !resizer.swapped
                },
                None => true,
            },
        ensures
            final(self).buffer.wf(),
            final(self).heap.wf(),
            final(self).buffer@.tenured(final(self).heap@),
            final(self).resizer is None,
            final(self).readers == 0,
            final(self).min_size == old(self).min_size,
            final(self).count == old(self).count,
            final(self).heap@ == old(self).heap@,
            final(self).buffer@ == match old(self).resizer {
                Some(resizer) => old(self).buffer@.resized(resizer.new@.slots.len()),
                None => old(self).buffer@,
            },
            occupied(final(self).buffer@.slots) == occupied(old(self).buffer@.slots),
    {
        let ghost source = self.buffer@;
        let ghost origin = self.heap@;
        match self.resizer.take() {
            None => {},
            Some(mut resizer) => {
                // wait until no value is being taken out
                while self.readers != 0
                    invariant
                        self.readers == 0,
                    decreases self.readers,
                {
                }
                // help with the move

                resizer.resize(&self.buffer, &mut self.heap);
                let ghost grown = self.heap@;

                // the one call that swaps
                if resizer.do_swap() {
                    std::mem::swap(&mut self.buffer, &mut resizer.new);
                }
                let Resizer { new, length, current_index, new_index, stride, workers, swapped } = resizer;
                proof {
                    assert(new@ == source);
                    lemma_occupied_has(source.slots);
                    assert forall|i: int| 0 <= i < source.slots.len() && source.slots[i] is Some implies {
                        &&& (#[trigger] source.slots[i])->0 < grown.links.len()
                        &&& 1 <= grown.cells[source.slots[i]->0 as int].accessors
                    } by {
                        let l = source.slots[i]->0;
                        assert(source.has_within(l, 0, source.slots.len() as int));
                    }
                }
                new.dispose_shared(&mut self.heap);
                proof {
                    let later = self.heap@;
                    assert forall|c: int| 0 <= c < origin.cells.len() implies #[trigger] later.cells[c]
                        == origin.cells[c] by {
                        let link = c as usize;
                        assert(later.cells[link as int] == if source.has(link) {
                            grown.cells[link as int].retire()
                        } else {
                            grown.cells[link as int]
                        });
                        if source.has(link) {
                            let i = choose|i: int|
                                0 <= i < source.slots.len() && 0 <= i < source.slots.len()
                                    && #[trigger] source.slots[i] == Some(link);
                            let cell = origin.cells[c];
                            assert(origin.cells[source.slots[i]->0 as int].accessors >= 1);
                            assert(cell.register().unregister() == cell);
                        }
                    }
                    assert(later.cells =~= origin.cells);
                    let packed_slots = self.buffer@.slots;
                    let links = occupied(source.slots);
                    lemma_occupied_packed(links, packed_slots.len());
                    assert forall|i: int| 0 <= i < packed_slots.len() && packed_slots[i] is Some implies {
                        &&& (#[trigger] packed_slots[i])->0 < origin.links.len()
                        &&& 1 <= origin.cells[packed_slots[i]->0 as int].accessors < usize::MAX
                    } by {
                        assert(source.slots.contains(Some(links[i])));
                        let j = choose|j: int| 0 <= j < source.slots.len() && source.slots[j] == Some(links[i]);
                        assert(source.slots[j]->0 < origin.links.len());
                    }
                    assert forall|i: int, j: int|
                        0 <= i < j < packed_slots.len() && packed_slots[i] is Some implies #[trigger] packed_slots[i]
                        != #[trigger] packed_slots[j] by {
                        if packed_slots[j] is Some {
                            assert(links[i] != links[j]);
                        }
                    }
                }
            },
        }
    }

    /// The pool between two steps of a call: in order but for the count,
    /// which may run ahead by the value that is coming in.
    spec fn settled(&self) -> bool {
        &&& self.buffer.wf()
        &&& self.heap.wf()
        &&& self.buffer@.tenured(self.heap@)
        &&& self.resizer is None
        &&& self.readers == 0
        &&& MIN_SIZE <= self.min_size <= 30
        &&& 0 < self.buffer@.slots.len() <= MAX_CAPACITY
    }
}

impl<T> ConcurrentBuffer<T> {
    /// Gives up the handle in each slot of a buffer whose value cells are
    /// shared: each link names a cell with at least one handle.
    fn dispose_shared(self, heap: &mut Arena<T>)
        requires
            self.wf(),
            old(heap).wf(),
            old(heap)@.unswapped(),
            self@.distinct(),
            forall|i: int|
                0 <= i < self@.slots.len() && self@.slots[i] is Some ==> {
                    &&& (#[trigger] self@.slots[i])->0 < old(heap)@.links.len()
                    &&& 1 <= old(heap)@.cells[self@.slots[i]->0 as int].accessors
                },
        ensures
            final(heap).wf(),
            final(heap)@.links == old(heap)@.links,
            final(heap)@.cells.len() == old(heap)@.cells.len(),
            forall|c: usize|
                c < old(heap)@.cells.len() ==> #[trigger] final(heap)@.cells[c as int] == if self@.has(
                    c,
                ) {
                    old(heap)@.cells[c as int].retire()
                } else {
                    old(heap)@.cells[c as int]
                },
    {
        self.dispose_all(heap)
    }
}

/// A buffer that was filled from the front holds the links it was filled
/// with.
pub proof fn lemma_occupied_packed(links: Seq<usize>, capacity: nat)
    requires
        links.len() <= capacity,
    ensures
        occupied(packed(links, capacity)) == links,
    decreases capacity,
{
    let slots = packed(links, capacity);
    if capacity == 0 {
        assert(links =~= Seq::empty());
    } else if links.len() == capacity {
        assert(slots.drop_last() =~= packed(links.drop_last(), (capacity - 1) as nat));
        lemma_occupied_packed(links.drop_last(), (capacity - 1) as nat);
        assert(links.drop_last().push(links.last()) =~= links);
    } else {
        assert(slots.drop_last() =~= packed(links, (capacity - 1) as nat));
        lemma_occupied_packed(links, (capacity - 1) as nat);
    }
}

/// Slots that are all empty hold no link.
pub proof fn lemma_all_empty(slots: Seq<Option<usize>>)
    ensures
        (forall|i: int| 0 <= i < slots.len() ==> (#[trigger] slots[i]) is None) <==> occupied(slots).len()
            == 0,
        occupied(slots).len() == 0 <==> first_taken(slots) == slots.len(),
    decreases slots.len(),
{
    lemma_first_taken(slots);
    if slots.len() > 0 {
        let front = slots.drop_last();
        lemma_all_empty(front);
        lemma_first_taken(front);
        if occupied(slots).len() == 0 {
            assert forall|i: int| 0 <= i < slots.len() implies (#[trigger] slots[i]) is None by {
                if i < front.len() {
                    assert(front[i] == slots[i]);
                }
            }
        }
        if forall|i: int| 0 <= i < slots.len() ==> (#[trigger] slots[i]) is None {
            assert forall|i: int| 0 <= i < front.len() implies (#[trigger] front[i]) is None by {
                assert(slots[i] is None);
            }
        }
        if first_taken(slots) == slots.len() {
            assert forall|i: int| 0 <= i < slots.len() implies (#[trigger] slots[i]) is None by {}
        }
    }
}

/// Slots that hold fewer links than there are slots have an empty slot.
pub proof fn lemma_room(slots: Seq<Option<usize>>)
    ensures
        occupied(slots).len() < slots.len() ==> first_free(slots) < slots.len(),
    decreases slots.len(),
{
    lemma_first_free(slots);
    lemma_occupied_len(slots);
    if slots.len() > 0 && occupied(slots).len() < slots.len() {
        let front = slots.drop_last();
        lemma_room(front);
        lemma_first_free(front);
        lemma_occupied_len(front);
        if first_free(slots) >= slots.len() {
            assert forall|i: int| 0 <= i < front.len() implies front[i] is Some by {
                assert(slots[i] is Some);
            }
            assert(slots[slots.len() - 1] is Some);
        }
    }
}

/// A link put into an empty slot is one link more.
pub proof fn lemma_occupied_update(slots: Seq<Option<usize>>, at: int, link: usize)
    requires
        0 <= at < slots.len(),
        slots[at] is None,
    ensures
        occupied(slots.update(at, Some(link))).len() == occupied(slots).len() + 1,
    decreases slots.len(),
{
    let after = slots.update(at, Some(link));
    if at == slots.len() - 1 {
        assert(after.drop_last() =~= slots.drop_last());
    } else {
        lemma_occupied_update(slots.drop_last(), at, link);
        assert(after.drop_last() =~= slots.drop_last().update(at, Some(link)));
    }
}

/// A slot that is emptied is one link less.
pub proof fn lemma_occupied_clear(slots: Seq<Option<usize>>, at: int)
    requires
        0 <= at < slots.len(),
        slots[at] is Some,
    ensures
        occupied(slots.update(at, None)).len() == occupied(slots).len() - 1,
    decreases slots.len(),
{
    let after = slots.update(at, None);
    if at == slots.len() - 1 {
        assert(after.drop_last() =~= slots.drop_last());
    } else {
        lemma_occupied_clear(slots.drop_last(), at);
        assert(after.drop_last() =~= slots.drop_last().update(at, None));
    }
}

/// A link that is put into an empty slot comes in among the links behind
/// those of the slots before it.
pub proof fn lemma_occupied_insert(slots: Seq<Option<usize>>, at: int, link: usize)
    requires
        0 <= at < slots.len(),
        slots[at] is None,
    ensures
        0 <= occupied(slots.take(at)).len() <= occupied(slots).len(),
        occupied(slots.update(at, Some(link))) == occupied(slots).insert(
            occupied(slots.take(at)).len() as int,
            link,
        ),
    decreases slots.len(),
{
    let after = slots.update(at, Some(link));
    lemma_occupied_take(slots, at);
    if at == slots.len() - 1 {
        assert(after.drop_last() =~= slots.drop_last());
        assert(slots.take(at) =~= slots.drop_last());
        let occ = occupied(slots.drop_last());
        assert(occ.push(link) =~= occ.insert(occ.len() as int, link));
    } else {
        let front = slots.drop_last();
        lemma_occupied_insert(front, at, link);
        assert(after.drop_last() =~= front.update(at, Some(link)));
        assert(front.take(at) =~= slots.take(at));
        let k = occupied(slots.take(at)).len() as int;
        let occ = occupied(front);
        lemma_occupied_take(front, at);
        if slots.last() is Some {
            assert(occ.insert(k, link).push(slots.last()->0) =~= occ.push(slots.last()->0).insert(k, link));
        }
    }
}

/// A slot that is emptied takes its link out from among the links.
pub proof fn lemma_occupied_remove(slots: Seq<Option<usize>>, at: int)
    requires
        0 <= at < slots.len(),
        slots[at] is Some,
    ensures
        0 <= occupied(slots.take(at)).len() < occupied(slots).len(),
        occupied(slots)[occupied(slots.take(at)).len() as int] == slots[at]->0,
        occupied(slots.update(at, None)) == occupied(slots).remove(
            occupied(slots.take(at)).len() as int,
        ),
    decreases slots.len(),
{
    let after = slots.update(at, None);
    lemma_occupied_take(slots, at);
    lemma_occupied_take(slots, at + 1);
    assert(slots.take(at + 1).drop_last() =~= slots.take(at));
    assert(slots.take(at + 1).last() == slots[at]);
    if at == slots.len() - 1 {
        assert(after.drop_last() =~= slots.drop_last());
        assert(slots.take(at) =~= slots.drop_last());
        let occ = occupied(slots.drop_last());
        assert(occ.push(slots[at]->0).remove(occ.len() as int) =~= occ);
    } else {
        let front = slots.drop_last();
        lemma_occupied_remove(front, at);
        assert(after.drop_last() =~= front.update(at, None));
        assert(front.take(at) =~= slots.take(at));
        let k = occupied(slots.take(at)).len() as int;
        let occ = occupied(front);
        if slots.last() is Some {
            assert(occ.remove(k).push(slots.last()->0) =~= occ.push(slots.last()->0).remove(k));
        }
    }
}

/// The values in the slots that are taken, in slot order.
pub open spec fn contents<T>(slots: Seq<Option<usize>>, heap: ArenaState<T>) -> Seq<T> {
    Seq::new(occupied(slots).len(), |i: int| heap.cell_of(occupied(slots)[i]).value())
}

/// Where each slot that is taken names the same value in two arenas, the
/// contents are the same.
pub proof fn lemma_contents_kept<T>(slots: Seq<Option<usize>>, heap: ArenaState<T>, later: ArenaState<T>)
    requires
        forall|i: int|
            0 <= i < slots.len() && slots[i] is Some ==> later.cell_of((#[trigger] slots[i])->0).value()
                == heap.cell_of(slots[i]->0).value(),
    ensures
        contents(slots, later) == contents(slots, heap),
{
    lemma_occupied_has(slots);
    let occ = occupied(slots);
    assert forall|k: int| 0 <= k < occ.len() implies later.cell_of(occ[k]).value() == heap.cell_of(
        occ[k],
    ).value() by {
        assert(slots.contains(Some(occ[k])));
        let i = choose|i: int| 0 <= i < slots.len() && slots[i] == Some(occ[k]);
        assert(slots[i]->0 == occ[k]);
    }
    assert(contents(slots, later) =~= contents(slots, heap));
}

/// A link stands as often among the links of the slots that are taken as it
/// stands in the slots.
pub proof fn lemma_occupied_times(slots: Seq<Option<usize>>, link: usize)
    ensures
        occupied(slots).to_multiset().count(link) == slots.to_multiset().count(Some(link)),
    decreases slots.len(),
{
    broadcast use vstd::multiset::group_multiset_axioms;

    if slots.len() == 0 {
        assert(slots.to_multiset() =~= vstd::multiset::Multiset::<Option<usize>>::empty()) by {
            slots.to_multiset_ensures();
        }
        assert(occupied(slots).to_multiset() =~= vstd::multiset::Multiset::<usize>::empty()) by {
            occupied(slots).to_multiset_ensures();
        }
    } else {
        let front = slots.drop_last();
        lemma_occupied_times(front, link);
        assert(front.push(slots.last()) =~= slots);
        vstd::seq_lib::to_multiset_build(front, slots.last());
        if slots.last() is Some {
            vstd::seq_lib::to_multiset_build(occupied(front), slots.last()->0);
        }
    }
}

/// A link stands as often in a buffer that was filled from the front as it
/// stands among the links that the buffer was filled with.
pub proof fn lemma_packed_times(links: Seq<usize>, capacity: nat, link: usize)
    requires
        links.len() <= capacity,
    ensures
        packed(links, capacity).to_multiset().count(Some(link)) == links.to_multiset().count(link),
{
    lemma_occupied_packed(links, capacity);
    lemma_occupied_times(packed(links, capacity), link);
}

impl BufferState {
    /// How many slots hold `link`.
    pub open spec fn times(self, link: usize) -> nat {
        self.slots.to_multiset().count(Some(link))
    }

    /// A value that is put into a buffer with an empty slot is in the buffer
    /// once more than before, and every other value as often as before.
    pub proof fn law_put_adds_one(self, link: usize)
        requires
            self.put_index() < self.slots.len(),
        ensures
            forall|other: usize|
                #[trigger] self.put(link).times(other) == self.times(other) + if other == link {
                    1nat
                } else {
                    0nat
                },
    {
        broadcast use vstd::multiset::group_multiset_axioms;

        lemma_first_free(self.slots);
        let at = self.put_index();
        vstd::seq_lib::to_multiset_update(self.slots, at, Some(link));
        assert(self.slots.contains(None)) by {
            assert(self.slots[at] == None::<usize>);
        }
        vstd::seq_lib::to_multiset_contains(self.slots, None);
    }

    /// The value that is popped was in the buffer, and is in it once less
    /// than before; every other value is in it as often as before.
    pub proof fn law_pop_takes_one(self)
        requires
            first_taken(self.slots) < self.slots.len(),
        ensures
            self.times(self.slots[first_taken(self.slots)]->0) > 0,
            forall|other: usize|
                #[trigger] self.popped().times(other) == self.times(other) - if other
                    == self.slots[first_taken(self.slots)]->0 {
                    1nat
                } else {
                    0nat
                },
    {
        broadcast use vstd::multiset::group_multiset_axioms;

        lemma_first_taken(self.slots);
        let at = first_taken(self.slots);
        let taken = self.slots[at];
        vstd::seq_lib::to_multiset_update(self.slots, at, None);
        assert(self.slots.contains(taken));
        vstd::seq_lib::to_multiset_contains(self.slots, taken);
    }

    /// A move into a buffer with room for every value loses and doubles no
    /// value.
    pub proof fn law_resize_keeps_all(self, capacity: nat)
        requires
            occupied(self.slots).len() <= capacity,
        ensures
            forall|link: usize| #[trigger] self.resized(capacity).times(link) == self.times(link),
    {
        assert forall|link: usize| #[trigger] self.resized(capacity).times(link) == self.times(
            link,
        ) by {
            lemma_packed_times(occupied(self.slots), capacity, link);
            lemma_occupied_times(self.slots, link);
        }
    }

    /// What a pool makes of its buffer before it takes one more value loses
    /// and doubles no value.
    pub proof fn law_considered_keeps_all(self, count: nat, min_capacity: nat)
        requires
            count == occupied(self.slots).len(),
        ensures
            forall|link: usize|
                #[trigger] self.considered(count, min_capacity).times(link) == self.times(link),
    {
        lemma_occupied_len(self.slots);
        let capacity = self.slots.len();
        if capacity <= count + 2 {
            self.law_resize_keeps_all(2 * capacity);
        } else if capacity / 2 > count && capacity > min_capacity {
            self.law_resize_keeps_all(capacity / 2);
        }
    }
}

impl<T> Default for DynBuffer<T> {
    /// A pool of 16 slots.
    fn default() -> (pool: Self)
        ensures
            pool.wf(),
            pool.count() == 0,
            pool@ == (BufferState { hint: 0, slots: packed(Seq::empty(), 16) }),
            pool.min_capacity() == 16,
            pool.vals()@.links.len() == 0,
            pool.values() == Multiset::<T>::empty(),
    {
        Self::new()
    }
}

} // verus!
