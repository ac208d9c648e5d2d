//! The move of a map into a table of twice the size.
//!
//! Whoever finds a resizer in place helps: it claims a stretch of buckets of
//! the old table, copies each node of those buckets into the new table, with
//! the same key, hash and value cell, and claims again until no bucket is
//! left. One call, and only one, then puts the new table in the place of the
//! old one.
use crate::entry::{all_live, distinct_keys, has_link, key_model, position, with_slot, Entry, EntryNode, Slot};
use crate::keep::{Arena, ArenaState};
use crate::table::{lemma_total_update, total, Table, TableState, MAX_SIZE};
use vstd::arithmetic::div_mod::lemma_mod_mod;
use vstd::arithmetic::power2::{lemma_pow2_pos, lemma_pow2_unfold, pow2};
use vstd::prelude::*;

verus! {

/// The nodes of `chain` whose hash falls into the bucket `bucket` of a table
/// of the size `size`, in chain order.
pub open spec fn share<Key>(chain: Seq<Slot<Key>>, size: nat, bucket: int) -> Seq<Slot<Key>>
    decreases chain.len(),
{
    if chain.len() == 0 {
        chain
    } else {
        let before = share(chain.drop_last(), size, bucket);
        if (chain.last().hash as int) % (pow2(size) as int) == bucket {
            before.push(chain.last())
        } else {
            before
        }
    }
}

/// Each node of a share is a node of the chain and falls into the bucket;
/// each node of the chain that falls into the bucket is in the share.
pub proof fn lemma_share<Key>(chain: Seq<Slot<Key>>, size: nat, bucket: int)
    ensures
        share(chain, size, bucket).len() <= chain.len(),
        forall|q: int|
            0 <= q < share(chain, size, bucket).len() ==> {
                &&& chain.contains(#[trigger] share(chain, size, bucket)[q])
                &&& (share(chain, size, bucket)[q].hash as int) % (pow2(size) as int) == bucket
            },
        forall|p: int|
            0 <= p < chain.len() && ((#[trigger] chain[p]).hash as int) % (pow2(size) as int)
                == bucket ==> share(chain, size, bucket).contains(chain[p]),
        distinct_keys(chain) ==> distinct_keys(share(chain, size, bucket)),
    decreases chain.len(),
{
    if chain.len() > 0 {
        let front = chain.drop_last();
        let before = share(front, size, bucket);
        let all = share(chain, size, bucket);
        lemma_share(front, size, bucket);
        assert forall|q: int| 0 <= q < all.len() implies {
            &&& chain.contains(#[trigger] all[q])
            &&& (all[q].hash as int) % (pow2(size) as int) == bucket
        } by {
            if q < before.len() {
                assert(front.contains(before[q]));
                let p = choose|p: int| 0 <= p < front.len() && front[p] == before[q];
                assert(chain[p] == all[q]);
            } else {
                assert(chain[chain.len() - 1] == all[q]);
            }
        }
        assert forall|p: int|
            0 <= p < chain.len() && ((#[trigger] chain[p]).hash as int) % (pow2(size) as int)
                == bucket implies all.contains(chain[p]) by {
            if p < front.len() {
                assert(front[p] == chain[p]);
                assert(before.contains(front[p]));
                let q = choose|q: int| 0 <= q < before.len() && before[q] == front[p];
                assert(all[q] == chain[p]);
            } else {
                assert(all[all.len() - 1] == chain[p]);
            }
        }
        if distinct_keys(chain) {
            assert(distinct_keys(front)) by {
                assert forall|i: int, j: int| 0 <= i < j < front.len() implies (#[trigger] front[i]).key
                    != (#[trigger] front[j]).key by {
                    assert(chain[i].key != chain[j].key);
                }
            }
            assert forall|i: int, j: int| 0 <= i < j < all.len() implies (#[trigger] all[i]).key != (
            #[trigger] all[j]).key by {
                if j < before.len() {
                    assert(before[i].key != before[j].key);
                } else {
                    assert(front.contains(before[i]));
                    let p = choose|p: int| 0 <= p < front.len() && front[p] == before[i];
                    assert(chain[p].key != chain[chain.len() - 1].key);
                }
            }
        }
    }
}

impl<Key> TableState<Key> {
    /// The part of the bucket `b` that was moved already, when the buckets
    /// below `done` were moved whole and the first `part` nodes of the
    /// bucket `done`.
    pub open spec fn moved(self, b: int, done: int, part: int) -> Seq<Slot<Key>> {
        if b < done {
            self.buckets[b]
        } else if b == done {
            self.buckets[b].take(part)
        } else {
            Seq::empty()
        }
    }

    /// The table of twice the size in the middle of the move: it holds the
    /// buckets below `done` and the first `part` nodes of the bucket `done`.
    pub open spec fn migrated_upto(self, done: int, part: int) -> Self {
        TableState {
            size: self.size + 1,
            buckets: Seq::new(
                pow2(self.size + 1),
                |b: int| share(self.moved(b % (pow2(self.size) as int), done, part), self.size + 1, b),
            ),
            count: (total(self.buckets.take(done)) + part) as nat,
        }
    }

    /// The table of twice the size that holds every node of this one.
    pub open spec fn migrated(self) -> Self {
        self.migrated_upto(self.buckets.len() as int, 0)
    }

    /// The new table holds as many nodes as the old one.
    pub proof fn lemma_migrated_count(self)
        requires
            self.wf(),
        ensures
            self.migrated().count == self.count,
            self.migrated().size == self.size + 1,
    {
        assert(self.buckets.take(self.buckets.len() as int) =~= self.buckets);
    }

    /// Nothing was moved at the start.
    pub proof fn lemma_migrated_none(self)
        requires
            self.wf(),
        ensures
            self.migrated_upto(0, 0) == Self::empty(self.size + 1),
    {
        lemma_pow2_pos(self.size);
        let start = self.migrated_upto(0, 0);
        assert forall|b: int| 0 <= b < start.buckets.len() implies #[trigger] start.buckets[b]
            == Seq::<Slot<Key>>::empty() by {
            let from = b % (pow2(self.size) as int);
            assert(self.moved(from, 0, 0) =~= Seq::empty());
        }
        assert(start.buckets =~= Self::empty(self.size + 1).buckets);
        assert(self.buckets.take(0) =~= Seq::empty());
    }

    /// A bucket that was moved to its last node was moved whole.
    pub proof fn lemma_migrated_bucket(self, done: int)
        requires
            self.wf(),
            0 <= done < self.buckets.len(),
        ensures
            self.migrated_upto(done, self.buckets[done].len() as int) == self.migrated_upto(
                done + 1,
                0,
            ),
    {
        let full = self.buckets[done].len() as int;
        let a = self.migrated_upto(done, full);
        let b = self.migrated_upto(done + 1, 0);
        assert(self.buckets[done].take(full) =~= self.buckets[done]);
        assert(self.buckets.take(done + 1).drop_last() =~= self.buckets.take(done));
        assert(self.buckets.take(done + 1).last() == self.buckets[done]);
        assert forall|c: int| 0 <= c < a.buckets.len() implies #[trigger] a.buckets[c] == b.buckets[c] by {
            let from = c % (pow2(self.size) as int);
            assert(self.moved(from, done, full) =~= self.moved(from, done + 1, 0));
        }
        assert(a.buckets =~= b.buckets);
    }

    /// The node that is moved next falls into one bucket of the new table,
    /// which does not hold its key yet; moving it is an insertion.
    pub proof fn lemma_migrated_step(self, done: int, part: int)
        requires
            self.wf(),
            0 <= done < self.buckets.len(),
            0 <= part < self.buckets[done].len(),
        ensures
            !self.migrated_upto(done, part).has(
                self.buckets[done][part].key,
                self.buckets[done][part].hash,
            ),
            self.migrated_upto(done, part).inserted(self.buckets[done][part]) == self.migrated_upto(
                done,
                part + 1,
            ),
            self.migrated_upto(done, part).count < self.count,
    {
        let slot = self.buckets[done][part];
        let small = pow2(self.size) as int;
        let big = pow2(self.size + 1) as int;
        lemma_pow2_pos(self.size);
        lemma_pow2_unfold(self.size + 1);
        assert(big == 2 * small);
        lemma_mod_mod(slot.hash as int, small, 2);
        let now = self.migrated_upto(done, part);
        let next = self.migrated_upto(done, part + 1);
        let target = now.index_of(slot.hash);
        assert(self.index_of(slot.hash) == done);
        assert(target % small == done);
        let chain = self.buckets[done];
        let front = chain.take(part);
        let grown = chain.take(part + 1);
        assert(grown.drop_last() =~= front);
        assert(grown.last() == slot);
        assert(self.moved(done, done, part) == front);
        assert(self.moved(done, done, part + 1) == grown);
        lemma_share(front, self.size + 1, target);
        let held = share(front, self.size + 1, target);
        assert(now.chain_of(slot.hash) == held);
        crate::entry::lemma_position(held, slot.key);
        if position(held, slot.key) < held.len() {
            let q = position(held, slot.key);
            assert(front.contains(held[q]));
            let p = choose|p: int| 0 <= p < front.len() && front[p] == held[q];
            assert(chain[p].key != chain[part].key);
        }
        assert(with_slot(held, slot) == held.push(slot));
        let after = now.inserted(slot);
        assert forall|c: int| 0 <= c < after.buckets.len() implies #[trigger] after.buckets[c]
            == next.buckets[c] by {
            let from = c % small;
            if from != done {
                assert(self.moved(from, done, part) =~= self.moved(from, done, part + 1));
            } else if c != target {
                assert(share(grown, self.size + 1, c) == share(front, self.size + 1, c));
            }
        }
        assert(after.buckets =~= next.buckets);
        crate::table::lemma_total_take(self.buckets, done);
    }
}

impl<Key> TableState<Key> {
    /// The table in the middle of the move is in order.
    pub proof fn lemma_migrated_upto_wf(self, done: int, part: int)
        requires
            self.wf(),
            self.size < MAX_SIZE,
            0 <= done <= self.buckets.len(),
            done < self.buckets.len() ==> 0 <= part <= self.buckets[done].len(),
            done == self.buckets.len() ==> part == 0,
        ensures
            self.migrated_upto(done, part).wf(),
        decreases done, part,
    {
        if part > 0 {
            self.lemma_migrated_upto_wf(done, part - 1);
            self.lemma_migrated_step(done, part - 1);
            self.migrated_upto(done, part - 1).lemma_inserted(self.buckets[done][part - 1]);
        } else if done > 0 {
            self.lemma_migrated_upto_wf(done - 1, self.buckets[done - 1].len() as int);
            self.lemma_migrated_bucket(done - 1);
        } else {
            self.lemma_migrated_none();
            let start = Self::empty(self.size + 1);
            crate::table::lemma_total_empty(start.buckets);
            assert forall|b: int, i: int| !start.at(b, i) by {}
        }
    }

    /// The table of twice the size is in order.
    pub proof fn lemma_migrated_wf(self)
        requires
            self.wf(),
            self.size < MAX_SIZE,
        ensures
            self.migrated().wf(),
    {
        self.lemma_migrated_upto_wf(self.buckets.len() as int, 0);
    }

    /// Each node of the new table is a node of the old one, in the bucket
    /// that the new bucket was split off from.
    pub proof fn lemma_migrated_from(self, c: int, q: int)
        requires
            self.wf(),
            self.migrated().at(c, q),
        ensures
            0 <= c % (pow2(self.size) as int) < self.buckets.len(),
            self.buckets[c % (pow2(self.size) as int)].contains(self.migrated().buckets[c][q]),
            (self.migrated().buckets[c][q].hash as int) % (pow2(self.size + 1) as int) == c,
            distinct_keys(self.migrated().buckets[c]),
    {
        lemma_pow2_pos(self.size);
        let from = c % (pow2(self.size) as int);
        assert(self.moved(from, self.buckets.len() as int, 0) == self.buckets[from]);
        lemma_share(self.buckets[from], self.size + 1, c);
    }

    /// Each node of the old table is a node of the new one.
    pub proof fn lemma_migrated_to(self, b: int, p: int)
        requires
            self.wf(),
            self.at(b, p),
        ensures
            0 <= self.migrated().index_of(self.buckets[b][p].hash) < self.migrated().buckets.len(),
            self.migrated().chain_of(self.buckets[b][p].hash).contains(self.buckets[b][p]),
    {
        let slot = self.buckets[b][p];
        let small = pow2(self.size) as int;
        lemma_pow2_pos(self.size);
        lemma_pow2_pos(self.size + 1);
        lemma_pow2_unfold(self.size + 1);
        lemma_mod_mod(slot.hash as int, small, 2);
        let c = self.migrated().index_of(slot.hash);
        assert(self.index_of(slot.hash) == b);
        assert(c % small == b);
        assert(self.moved(b, self.buckets.len() as int, 0) == self.buckets[b]);
        lemma_share(self.buckets[b], self.size + 1, c);
    }

    /// A node of the old table is found in the new one under its own hash.
    pub proof fn lemma_migrated_finds(self, b: int, p: int)
        requires
            self.wf(),
            self.at(b, p),
        ensures
            self.migrated().lookup(self.buckets[b][p].key, self.buckets[b][p].hash) == Some(
                self.buckets[b][p].link,
            ),
    {
        let slot = self.buckets[b][p];
        let new = self.migrated();
        self.lemma_migrated_to(b, p);
        let c = new.index_of(slot.hash);
        let chain = new.buckets[c];
        let q = choose|q: int| 0 <= q < chain.len() && chain[q] == slot;
        assert(new.at(c, q));
        self.lemma_migrated_from(c, q);
        crate::entry::lemma_position(chain, slot.key);
        let first = position(chain, slot.key);
        if first < q {
            assert(chain[first].key != chain[q].key);
        }
    }

    /// The new table holds the links of the old one, each once.
    pub proof fn lemma_migrated_links(self)
        requires
            self.wf(),
            self.distinct_links(),
        ensures
            self.migrated().distinct_links(),
            forall|link: usize| #[trigger] self.migrated().owns(link) <==> self.owns(link),
    {
        let new = self.migrated();
        let small = pow2(self.size) as int;
        assert forall|b: int, i: int, c: int, j: int|
            new.at(b, i) && new.at(c, j) && (b != c || i != j) implies (#[trigger] new.buckets[b][i]).link
            != (#[trigger] new.buckets[c][j]).link by {
            self.lemma_migrated_from(b, i);
            self.lemma_migrated_from(c, j);
            let x = new.buckets[b][i];
            let y = new.buckets[c][j];
            let left = self.buckets[b % small];
            let right = self.buckets[c % small];
            let p = choose|p: int| 0 <= p < left.len() && left[p] == x;
            let q = choose|q: int| 0 <= q < right.len() && right[q] == y;
            assert(self.at(b % small, p) && self.at(c % small, q));
            assert(self.buckets[b % small][p] == x && self.buckets[c % small][q] == y);
            if b % small == c % small && p == q {
                assert(x == y);
                assert(b == c);
                assert(new.buckets[b][i].key != new.buckets[b][j].key);
            }
        }
        assert forall|link: usize| #[trigger] new.owns(link) <==> self.owns(link) by {
            if new.owns(link) {
                let (c, j) = choose|c: int, j: int|
                    new.at(c, j) && 0 <= c && (c < new.buckets.len() || (c == new.buckets.len() && j
                        < 0)) && (#[trigger] new.buckets[c][j]).link == link;
                self.lemma_migrated_from(c, j);
                let right = self.buckets[c % small];
                let q = choose|q: int| 0 <= q < right.len() && right[q] == new.buckets[c][j];
                assert(self.at(c % small, q) && self.buckets[c % small][q].link == link);
            }
            if self.owns(link) {
                let (b, p) = choose|b: int, p: int|
                    self.at(b, p) && 0 <= b && (b < self.buckets.len() || (b == self.buckets.len() && p
                        < 0)) && (#[trigger] self.buckets[b][p]).link == link;
                self.lemma_migrated_to(b, p);
                let c = new.index_of(self.buckets[b][p].hash);
                let chain = new.buckets[c];
                let j = choose|j: int| 0 <= j < chain.len() && chain[j] == self.buckets[b][p];
                assert(new.at(c, j) && new.buckets[c][j].link == link);
            }
        }
    }
}

/// The greatest stride that a resizer can claim buckets by.
pub const MAX_STRIDE: usize = 0x4000_0000;

/// The state of one move.
pub struct Resizer<Key, Val> {
    new_table: Table<Key, Val>,
    stride: usize,
    old_capacity: usize,
    index: usize,
    workers: usize,
    finished: bool,
}

impl<Key, Val> Resizer<Key, Val> {
    /// The table that the resizer holds: the new table until the swap, the
    /// old table after it.
    pub closed spec fn table(&self) -> Table<Key, Val> {
        self.new_table
    }

    /// The first bucket of the old table that nobody has claimed yet.
    pub closed spec fn claimed(&self) -> nat {
        self.index as nat
    }

    /// How many buckets a helper claims at a time.
    pub closed spec fn stride(&self) -> nat {
        self.stride as nat
    }

    /// How many helpers are at work.
    pub closed spec fn workers(&self) -> nat {
        self.workers as nat
    }

    /// Whether the swap has taken place.
    pub closed spec fn finished(&self) -> bool {
        self.finished
    }

    /// The number of buckets of the old table, as the resizer noted it.
    pub closed spec fn old_capacity(&self) -> nat {
        self.old_capacity as nat
    }

    /// How many buckets of the old table were moved.
    pub open spec fn done(&self) -> int {
        if self.claimed() < self.old_capacity() {
            self.claimed() as int
        } else {
            self.old_capacity() as int
        }
    }

    /// The resizer is in order for the move out of a table in the state
    /// `old`: no helper is at work, the swap is still to come, and the new
    /// table holds what was moved so far.
    pub open spec fn wf(&self, old: TableState<Key>) -> bool {
        &&& self.table().wf()
        &&& 0 < self.stride() <= MAX_STRIDE
        &&& self.old_capacity() == old.capacity()
        &&& self.old_capacity() <= MAX_STRIDE
        &&& self.claimed() <= self.old_capacity() + self.stride()
        &&& self.workers() == 0
        &&& !self.finished()
        &&& self.table()@ == old.migrated_upto(self.done(), 0)
    }
}

impl<Key: PartialEq, Val> Resizer<Key, Val> {
    /// A resizer for the move out of `old_table` into an empty table of
    /// twice the size, by `stride` buckets at a time.
    pub fn new(stride: usize, old_table: &Table<Key, Val>) -> (resizer: Self)
        requires
            old_table.wf(),
            old_table@.size < MAX_SIZE,
            0 < stride <= MAX_STRIDE,
        ensures
            resizer.wf(old_table@),
            resizer.claimed() == 0,
            resizer.stride() == stride,
            resizer.table()@ == TableState::<Key>::empty(old_table@.size + 1),
    {
        proof {
            old_table@.lemma_migrated_none();
            vstd::arithmetic::power2::lemma_pow2_strictly_increases(old_table@.size, 31);
            vstd::arithmetic::power2::lemma2_to64();
            assert(pow2(31) == 2 * pow2(30)) by {
                lemma_pow2_unfold(31);
            }
            vstd::arithmetic::power2::lemma_pow2_strictly_increases(old_table@.size, 30 + 1);
            if old_table@.size < 30 {
                vstd::arithmetic::power2::lemma_pow2_strictly_increases(old_table@.size, 30);
            }
        }
        Resizer {
            new_table: old_table.new_bigger(),
            stride,
            old_capacity: old_table.capacity(),
            index: 0,
            workers: 0,
            finished: false,
        }
    }

    /// Helps with the move until no bucket of `old_table` is left to claim.
    ///
    /// Each node of the buckets that were still to move is copied into the
    /// new table, and its value cell counts one handle more.
    pub fn resize(&mut self, old_table: &Table<Key, Val>, vals: &mut Arena<Val>)
        requires
            key_model::<Key>(),
            old(self).wf(old_table@),
            old_table.wf(),
            old_table@.size < MAX_SIZE,
            old_table@.distinct_links(),
            old_table@.tenured(old(vals)@),
            old(vals).wf(),
        ensures
            final(self).wf(old_table@),
            final(self).stride() == old(self).stride(),
            final(self).claimed() > old_table@.capacity(),
            final(self).table()@ == old_table@.migrated(),
            final(vals).wf(),
            final(vals)@.links == old(vals)@.links,
            final(vals)@.cells.len() == old(vals)@.cells.len(),
            forall|c: usize|
                c < old(vals)@.cells.len() ==> #[trigger] final(vals)@.cells[c as int]
                    == if old_table@.owns_within(
                    c,
                    old(self).done(),
                    old_table@.buckets.len() as int,
                    0,
                ) {
                    old(vals)@.cells[c as int].register()
                } else {
                    old(vals)@.cells[c as int]
                },
    {
        // this helper is about to work on the move
        self.workers = self.workers + 1;

        self.do_resize(old_table, vals);

        // this helper is done
        self.workers = self.workers - 1;
        let mut workers = self.workers;

        // wait until every helper is done
        while workers != 0
            invariant
                workers == self.workers,
                self.workers == 0,
            decreases workers,
        {
            workers = self.workers;
        }
    }

    /// Puts the new table in the place of `old_table`, unless that was done
    /// before. The resizer holds the old table from then on.
    pub fn finalize(&mut self, old_table: &mut Table<Key, Val>)
        ensures
            final(self).finished(),
            final(self).stride() == old(self).stride(),
            final(self).claimed() == old(self).claimed(),
            final(self).workers() == old(self).workers(),
            final(self).old_capacity() == old(self).old_capacity(),
            !old(self).finished() ==> *final(old_table) == old(self).table() && final(self).table()
                == *old(old_table),
            old(self).finished() ==> *final(old_table) == *old(old_table) && final(self).table()
                == old(self).table(),
    {
        if !self.finished {
            self.finished = true;
            std::mem::swap(old_table, &mut self.new_table);
        }
    }

    /// Gives the resizer up, with the table that it holds.
    pub fn dispose(self, vals: &mut Arena<Val>)
        requires
            self.table().wf(),
            self.table()@.distinct_links(),
            self.table()@.links_live(old(vals)@),
            old(vals)@.unswapped(),
            old(vals).wf(),
        ensures
            final(vals).wf(),
            final(vals)@.links == old(vals)@.links,
            final(vals)@.cells.len() == old(vals)@.cells.len(),
            forall|c: usize|
                c < old(vals)@.cells.len() ==> #[trigger] final(vals)@.cells[c as int]
                    == if self.table()@.owns(c) {
                    old(vals)@.cells[c as int].retire()
                } else {
                    old(vals)@.cells[c as int]
                },
    {
        let Resizer { new_table, stride, old_capacity, index, workers, finished } = self;
        new_table.dispose(vals);
    }

    /// Claims stretches of buckets and moves them, until a claim starts
    /// behind the last bucket.
    fn do_resize(&mut self, old_table: &Table<Key, Val>, vals: &mut Arena<Val>)
        requires
            key_model::<Key>(),
            old(self).busy(old_table@),
            old_table.wf(),
            old_table@.size < MAX_SIZE,
            old_table@.distinct_links(),
            old_table@.tenured(old(vals)@),
            old(vals).wf(),
        ensures
            final(self).busy(old_table@),
            final(self).stride() == old(self).stride(),
            final(self).claimed() > old_table@.capacity(),
            final(self).table()@ == old_table@.migrated(),
            final(vals).wf(),
            final(vals)@.links == old(vals)@.links,
            final(vals)@.cells.len() == old(vals)@.cells.len(),
            forall|c: usize|
                c < old(vals)@.cells.len() ==> #[trigger] final(vals)@.cells[c as int]
                    == if old_table@.owns_within(
                    c,
                    old(self).done(),
                    old_table@.buckets.len() as int,
                    0,
                ) {
                    old(vals)@.cells[c as int].register()
                } else {
                    old(vals)@.cells[c as int]
                },
    {
        let ghost from = self.done();
        let ghost source = old_table@;
        let ghost full = old_table@.buckets.len() as int;
        proof {
            lemma_pow2_pos(source.size);
            assert forall|c: usize| !source.owns_within(c, from, from, 0) by {}
        }
        loop
            invariant
                key_model::<Key>(),
                self.busy(source),
                self.stride() == old(self).stride(),
                source == old_table@,
                old_table.wf(),
                source.size < MAX_SIZE,
                source.distinct_links(),
                source.tenured(old(vals)@),
                full == source.buckets.len(),
                0 <= from <= self.done() <= full,
                vals.wf(),
                vals@.links == old(vals)@.links,
                vals@.cells.len() == old(vals)@.cells.len(),
                forall|c: usize|
                    c < old(vals)@.cells.len() ==> #[trigger] vals@.cells[c as int]
                        == if source.owns_within(c, from, self.done(), 0) {
                        old(vals)@.cells[c as int].register()
                    } else {
                        old(vals)@.cells[c as int]
                    },
            ensures
                self.busy(source),
                self.stride() == old(self).stride(),
                self.claimed() > full,
                vals.wf(),
                vals@.links == old(vals)@.links,
                vals@.cells.len() == old(vals)@.cells.len(),
                forall|c: usize|
                    c < old(vals)@.cells.len() ==> #[trigger] vals@.cells[c as int]
                        == if source.owns_within(c, from, full, 0) {
                        old(vals)@.cells[c as int].register()
                    } else {
                        old(vals)@.cells[c as int]
                    },
            decreases self.old_capacity + 2 * self.stride - self.index,
        {
            let start_index = self.index;
            let end_index = if start_index + self.stride < self.old_capacity {
                start_index + self.stride
            } else {
                self.old_capacity
            };
            if start_index > end_index {
                break ;
            }
            self.index = start_index + self.stride;

            let mut b = start_index;
            while b < end_index
                invariant
                    key_model::<Key>(),
                    start_index <= b <= end_index <= full,
                    end_index == self.done(),
                    self.index == start_index + self.stride,
                    self.new_table.wf(),
                    self.new_table@ == source.migrated_upto(b as int, 0),
                    0 < self.stride() <= MAX_STRIDE,
                    self.stride() == old(self).stride(),
                    self.old_capacity() == source.capacity(),
                    self.old_capacity() <= MAX_STRIDE,
                    self.claimed() <= self.old_capacity() + self.stride(),
                    self.workers() == 1,
                    !self.finished(),
                    source == old_table@,
                    old_table.wf(),
                    source.size < MAX_SIZE,
                    source.distinct_links(),
                    source.tenured(old(vals)@),
                    full == source.buckets.len(),
                    0 <= from <= b,
                    vals.wf(),
                    vals@.links == old(vals)@.links,
                    vals@.cells.len() == old(vals)@.cells.len(),
                    forall|c: usize|
                        c < old(vals)@.cells.len() ==> #[trigger] vals@.cells[c as int]
                            == if source.owns_within(c, from, b as int, 0) {
                            old(vals)@.cells[c as int].register()
                        } else {
                            old(vals)@.cells[c as int]
                        },
                decreases end_index - b,
            {
                let entry = old_table.entry_at(b);
                Self::migrate(&mut self.new_table, entry, old_table, b, Ghost(from), Ghost(old(vals)@), vals);
                b += 1;
            }
        }
    }

    /// Copies each node of the bucket `entry`, which is the bucket `b` of
    /// `old_table`, into `new_table`.
    fn migrate(
        new_table: &mut Table<Key, Val>,
        entry: &Entry<Key, Val>,
        old_table: &Table<Key, Val>,
        b: usize,
        Ghost(from): Ghost<int>,
        Ghost(origin): Ghost<ArenaState<Val>>,
        vals: &mut Arena<Val>,
    )
        requires
            key_model::<Key>(),
            old_table.wf(),
            old_table@.size < MAX_SIZE,
            old_table@.distinct_links(),
            old_table@.tenured(origin),
            0 <= from <= b < old_table@.buckets.len(),
            entry@ == old_table@.buckets[b as int],
            old(new_table).wf(),
            old(new_table)@ == old_table@.migrated_upto(b as int, 0),
            old(vals).wf(),
            old(vals)@.links == origin.links,
            old(vals)@.cells.len() == origin.cells.len(),
            forall|c: usize|
                c < origin.cells.len() ==> #[trigger] old(vals)@.cells[c as int]
                    == if old_table@.owns_within(c, from, b as int, 0) {
                    origin.cells[c as int].register()
                } else {
                    origin.cells[c as int]
                },
        ensures
            final(new_table).wf(),
            final(new_table)@ == old_table@.migrated_upto(b + 1, 0),
            final(vals).wf(),
            final(vals)@.links == origin.links,
            final(vals)@.cells.len() == origin.cells.len(),
            forall|c: usize|
                c < origin.cells.len() ==> #[trigger] final(vals)@.cells[c as int]
                    == if old_table@.owns_within(c, from, b + 1, 0) {
                    origin.cells[c as int].register()
                } else {
                    origin.cells[c as int]
                },
    {
        let ghost source = old_table@;
        let ghost chain = source.buckets[b as int];
        let mut current: Option<&EntryNode<Key, Val>> = match entry {
            Entry::Head(head) => Some(head),
            Entry::Empty => None,
        };
        let ghost mut i: int = 0;
        proof {
            entry.lemma_view();
            if let Entry::Head(head) = entry {
                assert(chain.subrange(0, chain.len() as int) =~= chain);
            }
            assert forall|c: usize|
                source.owns_within(c, from, b as int, 0) == source.owns_within(
                    c,
                    from,
                    b as int,
                    0,
                ) by {}
        }
        while current.is_some()
            invariant
                key_model::<Key>(),
                source == old_table@,
                old_table.wf(),
                source.size < MAX_SIZE,
                source.distinct_links(),
                source.tenured(origin),
                0 <= from <= b < source.buckets.len(),
                chain == source.buckets[b as int],
                0 <= i <= chain.len(),
                match current {
                    Some(node) => i < chain.len() && node@ == chain.subrange(i, chain.len() as int),
                    None => i == chain.len(),
                },
                new_table.wf(),
                new_table@ == source.migrated_upto(b as int, i),
                vals.wf(),
                vals@.links == origin.links,
                vals@.cells.len() == origin.cells.len(),
                forall|c: usize|
                    c < origin.cells.len() ==> #[trigger] vals@.cells[c as int]
                        == if source.owns_within(c, from, b as int, i) {
                        origin.cells[c as int].register()
                    } else {
                        origin.cells[c as int]
                    },
            decreases chain.len() - i,
        {
            let node = current.unwrap();
            let ghost slot = chain[i];
            let ghost before = vals@;
            proof {
                node.lemma_view();
                assert(node@[0] == slot);
                assert(source.at(b as int, i));
                let link = slot.link;
                if source.owns_within(link, from, b as int, i) {
                    let (c, j) = choose|c: int, j: int|
                        source.at(c, j) && from <= c && (c < b || (c == b && j < i)) && (
                        #[trigger] source.buckets[c][j]).link == link;
                    assert(source.buckets[c][j].link != source.buckets[b as int][i].link);
                }
                assert(before.cells[link as int] == origin.cells[link as int]);
                source.lemma_migrated_step(b as int, i);
                old_table.lemma_count_fits();
                before.lemma_register_keeps(link);
            }
            let twin = node.clone_striped(vals);
            proof {
                assert(vals@.live(slot.link));
            }
            new_table.insert(twin, vals);
            current = node.next();
            proof {
                if let Some(follower) = current {
                    follower.lemma_view();
                }
                assert(chain.subrange(i, chain.len() as int).subrange(
                    1,
                    chain.len() - i,
                ) =~= chain.subrange(i + 1, chain.len() as int));
                assert forall|c: usize| c < origin.cells.len() implies #[trigger] vals@.cells[c as int]
                    == if source.owns_within(c, from, b as int, i + 1) {
                    origin.cells[c as int].register()
                } else {
                    origin.cells[c as int]
                } by {
                    if c == slot.link {
                        assert(source.owns_within(c, from, b as int, i + 1));
                    } else {
                        if source.owns_within(c, from, b as int, i + 1) {
                            let (d, j) = choose|d: int, j: int|
                                source.at(d, j) && from <= d && (d < b || (d == b && j < i + 1)) && (
                                #[trigger] source.buckets[d][j]).link == c;
                            assert(source.owns_within(c, from, b as int, i));
                        }
                        if source.owns_within(c, from, b as int, i) {
                            let (d, j) = choose|d: int, j: int|
                                source.at(d, j) && from <= d && (d < b || (d == b && j < i)) && (
                                #[trigger] source.buckets[d][j]).link == c;
                            assert(source.owns_within(c, from, b as int, i + 1));
                        }
                    }
                }
                i = i + 1;
            }
        }
        proof {
            source.lemma_migrated_bucket(b as int);
            assert forall|c: usize| c < origin.cells.len() implies #[trigger] vals@.cells[c as int]
                == if source.owns_within(c, from, b + 1, 0) {
                origin.cells[c as int].register()
            } else {
                origin.cells[c as int]
            } by {
                if source.owns_within(c, from, b + 1, 0) {
                    let (d, j) = choose|d: int, j: int|
                        source.at(d, j) && from <= d && (d < b + 1 || (d == b + 1 && j < 0)) && (
                        #[trigger] source.buckets[d][j]).link == c;
                    assert(source.owns_within(c, from, b as int, chain.len() as int));
                }
                if source.owns_within(c, from, b as int, chain.len() as int) {
                    let (d, j) = choose|d: int, j: int|
                        source.at(d, j) && from <= d && (d < b || (d == b && j < chain.len())) && (
                        #[trigger] source.buckets[d][j]).link == c;
                    assert(source.owns_within(c, from, b + 1, 0));
                }
            }
        }
    }
}

impl<Key, Val> Resizer<Key, Val> {
    /// The resizer in the middle of a call that helps: as `wf`, but with
    /// this one helper at work.
    pub open spec fn busy(&self, old: TableState<Key>) -> bool {
        &&& self.table().wf()
        &&& 0 < self.stride() <= MAX_STRIDE
        &&& self.old_capacity() == old.capacity()
        &&& self.old_capacity() <= MAX_STRIDE
        &&& self.claimed() <= self.old_capacity() + self.stride()
        &&& self.workers() == 1
        &&& !self.finished()
        &&& self.table()@ == old.migrated_upto(self.done(), 0)
    }
}

} // verus!
