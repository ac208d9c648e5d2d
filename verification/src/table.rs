//! The bucket array of the map.
//!
//! A table has a power of two of buckets and is never resized in place: a
//! map that outgrows its table builds a table of twice the size beside it
//! and then puts the new table in the place of the old one.
use crate::entry::{all_live, has_link, key_model, position, with_slot, Entry, EntryNode, Slot};
use crate::guard::{same_read, Guard};
use crate::keep::{Arena, ArenaState, Keep};
use vstd::arithmetic::power2::{lemma_pow2_pos, lemma_pow2_strictly_increases, lemma_pow2_unfold, pow2};
use vstd::bits::{lemma_u64_low_bits_mask_is_mod, lemma_u64_pow2_no_overflow, lemma_u64_shl_is_mul, low_bits_mask};
use vstd::prelude::*;

verus! {

/// The least size of a table: 16 buckets.
pub const DEFAULT_SIZE: usize = 4;

/// The greatest size of a table: as many buckets as every machine can
/// index.
pub const MAX_SIZE: usize = 31;

/// How many nodes the chains of `buckets` hold together.
pub open spec fn total<Key>(buckets: Seq<Seq<Slot<Key>>>) -> nat
    decreases buckets.len(),
{
    if buckets.len() == 0 {
        0
    } else {
        total(buckets.drop_last()) + buckets.last().len()
    }
}

/// What a table holds, seen from outside.
pub struct TableState<Key> {
    /// The binary logarithm of the number of buckets.
    pub size: nat,
    /// The chain of each bucket.
    pub buckets: Seq<Seq<Slot<Key>>>,
    /// The number of nodes, as the table counts them.
    pub count: nat,
}

impl<Key> TableState<Key> {
    /// A table of `2^size` empty buckets.
    pub open spec fn empty(size: nat) -> Self {
        TableState { size, buckets: Seq::new(pow2(size), |b: int| Seq::empty()), count: 0 }
    }

    /// The number of buckets.
    pub open spec fn capacity(self) -> nat {
        pow2(self.size)
    }

    /// The bucket that a key with the hash `hash` belongs to.
    pub open spec fn index_of(self, hash: u64) -> int {
        (hash as int) % (pow2(self.size) as int)
    }

    /// The chain that a key with the hash `hash` belongs to.
    pub open spec fn chain_of(self, hash: u64) -> Seq<Slot<Key>> {
        self.buckets[self.index_of(hash)]
    }

    /// The table is in order: a power of two of buckets, each node in the
    /// bucket of its hash, no key twice in a chain, and the count right.
    pub open spec fn wf(self) -> bool {
        &&& DEFAULT_SIZE <= self.size <= MAX_SIZE
        &&& self.buckets.len() == pow2(self.size)
        &&& self.count == total(self.buckets)
        &&& forall|b: int|
            0 <= b < self.buckets.len() ==> crate::entry::distinct_keys(#[trigger] self.buckets[b])
        &&& forall|b: int, i: int|
            0 <= b < self.buckets.len() && 0 <= i < self.buckets[b].len() ==> self.index_of(
                (#[trigger] self.buckets[b][i]).hash,
            ) == b
    }

    /// The link under which the value of `key` is found, for a search that
    /// comes with the hash `hash`.
    pub open spec fn lookup(self, key: Key, hash: u64) -> Option<usize> {
        let chain = self.chain_of(hash);
        if position(chain, key) < chain.len() {
            Some(chain[position(chain, key)].link)
        } else {
            None
        }
    }

    /// Whether a search for `key` with the hash `hash` finds a node.
    pub open spec fn has(self, key: Key, hash: u64) -> bool {
        position(self.chain_of(hash), key) < self.chain_of(hash).len()
    }

    /// The table after `slot` was inserted into the chain of its hash.
    pub open spec fn inserted(self, slot: Slot<Key>) -> Self {
        TableState {
            buckets: self.buckets.update(
                self.index_of(slot.hash),
                with_slot(self.chain_of(slot.hash), slot),
            ),
            count: if self.has(slot.key, slot.hash) {
                self.count
            } else {
                self.count + 1
            },
            ..self
        }
    }

    /// Whether the table has grown past three quarters of its buckets.
    pub open spec fn crowded(self) -> bool {
        self.count > self.capacity() / 2 + self.capacity() / 4
    }

    /// Every link of the table names a cell that some handle counts on.
    pub open spec fn links_live<Val>(self, vals: ArenaState<Val>) -> bool {
        forall|b: int| 0 <= b < self.buckets.len() ==> all_live(#[trigger] self.buckets[b], vals)
    }

    /// Whether `b` and `i` are the bucket and the position of a node.
    pub open spec fn at(self, b: int, i: int) -> bool {
        0 <= b < self.buckets.len() && 0 <= i < self.buckets[b].len()
    }

    /// Whether a node of the buckets from `from` on names its value cell
    /// through `link`, among the nodes of the buckets below `done` and the
    /// first `part` nodes of the bucket `done`.
    pub open spec fn owns_within(self, link: usize, from: int, done: int, part: int) -> bool {
        exists|b: int, i: int|
            self.at(b, i) && from <= b && (b < done || (b == done && i < part)) && (
            #[trigger] self.buckets[b][i]).link == link
    }

    /// Whether a node of the table names its value cell through `link`.
    pub open spec fn owns(self, link: usize) -> bool {
        self.owns_within(link, 0, self.buckets.len() as int, 0)
    }

    /// No two nodes of the table share a link.
    pub open spec fn distinct_links(self) -> bool {
        forall|b: int, i: int, c: int, j: int|
            self.at(b, i) && self.at(c, j) && (b != c || i != j) ==> (#[trigger] self.buckets[b][i]).link
                != (#[trigger] self.buckets[c][j]).link
    }

    /// The table holds its value cells for itself: no link of the arena
    /// ever traded its cell, and each link of the table names a cell with
    /// at least one handle, and room for one more.
    pub open spec fn tenured<Val>(self, vals: ArenaState<Val>) -> bool {
        &&& vals.unswapped()
        &&& forall|b: int, i: int|
            self.at(b, i) ==> {
                &&& (#[trigger] self.buckets[b][i]).link < vals.links.len()
                &&& 1 <= vals.cells[self.buckets[b][i].link as int].accessors < usize::MAX
            }
    }
}

/// Replacing one chain changes the total by the difference in length.
pub proof fn lemma_total_update<Key>(buckets: Seq<Seq<Slot<Key>>>, b: int, chain: Seq<Slot<Key>>)
    requires
        0 <= b < buckets.len(),
    ensures
        total(buckets.update(b, chain)) == total(buckets) - buckets[b].len() + chain.len(),
    decreases buckets.len(),
{
    let after = buckets.update(b, chain);
    if b == buckets.len() - 1 {
        assert(after.drop_last() =~= buckets.drop_last());
    } else {
        lemma_total_update(buckets.drop_last(), b, chain);
        assert(after.drop_last() =~= buckets.drop_last().update(b, chain));
    }
}

/// The first buckets and one more bucket hold no more than all of them.
pub proof fn lemma_total_take<Key>(buckets: Seq<Seq<Slot<Key>>>, b: int)
    requires
        0 <= b < buckets.len(),
    ensures
        total(buckets.take(b)) + buckets[b].len() <= total(buckets),
    decreases buckets.len(),
{
    if b == buckets.len() - 1 {
        assert(buckets.take(b) =~= buckets.drop_last());
    } else {
        lemma_total_take(buckets.drop_last(), b);
        assert(buckets.drop_last().take(b) =~= buckets.take(b));
    }
}

/// Empty buckets hold nothing.
pub proof fn lemma_total_empty<Key>(buckets: Seq<Seq<Slot<Key>>>)
    requires
        forall|b: int| 0 <= b < buckets.len() ==> (#[trigger] buckets[b]).len() == 0,
    ensures
        total(buckets) == 0,
    decreases buckets.len(),
{
    if buckets.len() > 0 {
        lemma_total_empty(buckets.drop_last());
    }
}

impl<Key> TableState<Key> {
    /// An insertion keeps a table in order.
    pub proof fn lemma_inserted(self, slot: Slot<Key>)
        requires
            self.wf(),
        ensures
            self.inserted(slot).wf(),
            0 <= self.index_of(slot.hash) < self.buckets.len(),
            self.inserted(slot).lookup(slot.key, slot.hash) == Some(slot.link),
    {
        lemma_pow2_pos(self.size);
        let b = self.index_of(slot.hash);
        let chain = self.chain_of(slot.hash);
        crate::entry::lemma_with_slot(chain, slot);
        crate::entry::lemma_position(chain, slot.key);
        lemma_total_update(self.buckets, b, with_slot(chain, slot));
        let after = self.inserted(slot);
        assert forall|c: int, i: int|
            0 <= c < after.buckets.len() && 0 <= i < after.buckets[c].len() implies after.index_of(
            (#[trigger] after.buckets[c][i]).hash,
        ) == c by {
            if c == b {
                if i < chain.len() {
                    assert(after.buckets[c][i].hash == chain[i].hash);
                    assert(self.index_of(self.buckets[b][i].hash) == b);
                }
            } else {
                assert(self.index_of(self.buckets[c][i].hash) == c);
            }
        }
        assert forall|c: int| 0 <= c < after.buckets.len() implies crate::entry::distinct_keys(
            #[trigger] after.buckets[c],
        ) by {
            if c != b {
                assert(crate::entry::distinct_keys(self.buckets[c]));
            }
        }
    }
}

/// A table of buckets.
pub struct Table<Key, Val> {
    size: usize,
    capacity: usize,
    entry_count: usize,
    entries: Vec<Entry<Key, Val>>,
}

impl<Key, Val> Table<Key, Val> {
    /// What the table holds.
    pub closed spec fn view(&self) -> TableState<Key> {
        TableState {
            size: self.size as nat,
            buckets: Seq::new(self.entries@.len(), |b: int| self.entries@[b]@),
            count: self.entry_count as nat,
        }
    }

    /// The fields agree with each other.
    pub closed spec fn fields_agree(&self) -> bool {
        &&& self.capacity == pow2(self.size as nat)
        &&& self.entries@.len() == self.capacity
    }

    /// The table is in order.
    pub open spec fn wf(&self) -> bool {
        self.fields_agree() && self@.wf()
    }

    /// The count of a table fits in a machine word.
    pub proof fn lemma_count_fits(&self)
        ensures
            self@.count <= usize::MAX,
    {
    }
}

impl<Key: PartialEq, Val> Table<Key, Val> {
    /// A table of `2^size` empty buckets, and of 16 where `size` is less
    /// than 4.
    pub fn new(size: usize) -> (table: Self)
        requires
            size <= MAX_SIZE,
        ensures
            table.wf(),
            table@ == TableState::<Key>::empty(
                if size < DEFAULT_SIZE {
                    DEFAULT_SIZE as nat
                } else {
                    size as nat
                },
            ),
    {
        let size = if size < DEFAULT_SIZE {
            DEFAULT_SIZE
        } else {
            size
        };
        let capacity = pow2_usize(size);
        let mut entries: Vec<Entry<Key, Val>> = Vec::new();
        let mut i: usize = 0;
        while i < capacity
            invariant
                i <= capacity,
                entries@.len() == i,
                forall|b: int| 0 <= b < i ==> (#[trigger] entries@[b])@.len() == 0,
            decreases capacity - i,
        {
            let entry = Entry::Empty;
            proof {
                entry.lemma_view();
            }
            entries.push(entry);
            i += 1;
        }
        let table = Table { size, capacity, entry_count: 0, entries };
        proof {
            assert forall|b: int| 0 <= b < table@.buckets.len() implies #[trigger] table@.buckets[b]
                == Seq::<Slot<Key>>::empty() by {
                assert(table.entries@[b]@ =~= Seq::empty());
            }
            assert(table@.buckets =~= TableState::<Key>::empty(size as nat).buckets);
            lemma_total_empty(table@.buckets);
        }
        table
    }

    /// An empty table of twice the number of buckets.
    #[inline]
    pub fn new_bigger(&self) -> (table: Self)
        requires
            self.wf(),
            self@.size < MAX_SIZE,
        ensures
            table.wf(),
            table@ == TableState::<Key>::empty(self@.size + 1),
    {
        Self::new(self.size + 1)
    }

    /// The number of buckets.
    #[inline]
    pub fn capacity(&self) -> (capacity: usize)
        requires
            self.wf(),
        ensures
            capacity == self@.capacity(),
    {
        self.capacity
    }

    /// The binary logarithm of the number of buckets.
    #[inline]
    pub fn size(&self) -> (size: usize)
        ensures
            size == self@.size,
    {
        self.size
    }

    /// The number of nodes.
    #[inline]
    pub fn entry_count(&self) -> (count: usize)
        ensures
            count == self@.count,
    {
        self.entry_count
    }

    /// Whether `entry_count` is more than three quarters of the number of
    /// buckets.
    #[inline]
    pub fn resize_needed_up(&self, entry_count: usize) -> (needed: bool)
        requires
            self.wf(),
        ensures
            needed == (entry_count > self@.capacity() / 2 + self@.capacity() / 4),
    {
        let half = self.capacity >> 1;
        let quarter = self.capacity >> 2;
        proof {
            let c = self.capacity;
            assert(c >> 1 == c / 2) by (bit_vector);
            assert(c >> 2 == c / 4) by (bit_vector);
        }
        entry_count > half + quarter
    }

    /// The bucket of `hash`: its lowest bits, as many as the size says.
    #[inline]
    pub fn index_of(&self, hash: u64) -> (index: usize)
        requires
            self.wf(),
        ensures
            index == self@.index_of(hash),
            index < self@.buckets.len(),
    {
        proof {
            let n = self.size as nat;
            lemma_u64_pow2_no_overflow(n);
            lemma_pow2_strictly_increases(n, 32);
            vstd::arithmetic::power2::lemma2_to64();
            lemma_u64_shl_is_mul(1, self.size as u64);
            lemma_u64_low_bits_mask_is_mod(hash, n);
            lemma_pow2_pos(n);
        }
        let mask: u64 = (1u64 << (self.size as u64)) - 1;
        (hash & mask) as usize
    }

    /// The bucket at `index`.
    #[inline]
    pub fn entry_at(&self, index: usize) -> (entry: &Entry<Key, Val>)
        requires
            self.wf(),
            index < self@.buckets.len(),
        ensures
            entry@ == self@.buckets[index as int],
    {
        &self.entries[index]
    }

    /// The bucket of `hash`.
    #[inline]
    pub fn entry_of(&self, hash: u64) -> (entry: &Entry<Key, Val>)
        requires
            self.wf(),
        ensures
            entry@ == self@.chain_of(hash),
    {
        &self.entries[self.index_of(hash)]
    }

    /// The buckets.
    #[inline]
    pub fn entries(&self) -> (entries: &[Entry<Key, Val>])
        ensures
            entries@.len() == self@.buckets.len(),
            forall|b: int| 0 <= b < entries@.len() ==> (#[trigger] entries@[b])@ == self@.buckets[b],
    {
        self.entries.as_slice()
    }

    /// Removes `key` from the table.
    ///
    /// Removal is defined where the bucket of `hash` is empty, and finds
    /// nothing there.
    pub fn remove(&self, key: &Key, hash: u64) -> (removed: Option<Keep<Val>>)
        requires
            self.wf(),
            self@.chain_of(hash).len() == 0,
        ensures
            removed is None,
    {
        let entry = self.entry_of(hash);
        proof {
            entry.lemma_view();
        }
        entry.remove_from_children(key)
    }

    /// Looks for `key` in the bucket of `hash` and starts a read of its
    /// value.
    pub fn get(&self, key: &Key, hash: u64, vals: &mut Arena<Val>) -> (found: Option<Guard<Val>>)
        requires
            key_model::<Key>(),
            self.wf(),
            old(vals).wf(),
            self@.links_live(old(vals)@),
        ensures
            final(vals).wf(),
            found is Some <==> self@.has(*key, hash),
            match found {
                Some(guard) => {
                    let link = self@.lookup(*key, hash)->0;
                    &&& final(vals)@ == old(vals)@.step(link, old(vals)@.cell_of(link).load())
                    &&& final(vals).holds(&guard)
                    &&& final(vals).observed(&guard) == old(vals)@.cell_of(link).value()
                    &&& guard.cell() == old(vals)@.links[link as int]
                    &&& guard.addr() == old(vals)@.cell_of(link).current
                    &&& guard.slot() == old(vals)@.cell_of(link).next_slot()
                },
                None => final(vals)@ == old(vals)@,
            },
    {
        let entry = self.entry_of(hash);
        proof {
            lemma_pow2_pos(self@.size);
            assert(all_live(self@.buckets[self@.index_of(hash)], old(vals)@));
        }
        entry.search(key, vals)
    }

    /// Inserts `entry_node` into the bucket of its hash.
    ///
    /// Where the chain has a node with the same key, that node takes over
    /// the value cell, the handle that it held is returned, and the count
    /// stays. Otherwise the node is appended and counted. The flag says
    /// whether the table has grown past three quarters of its buckets by
    /// this insertion.
    pub fn insert(&mut self, entry_node: EntryNode<Key, Val>, vals: &mut Arena<Val>) -> (result: (
        Option<Keep<Val>>,
        bool,
    ))
        requires
            key_model::<Key>(),
            old(self).wf(),
            old(self)@.count < usize::MAX,
            old(vals).wf(),
            entry_node@.len() == 1,
            old(vals)@.live(entry_node@[0].link),
            old(self)@.has(entry_node@[0].key, entry_node@[0].hash) ==> old(vals)@.cell_of(
                entry_node@[0].link,
            ).accessors < usize::MAX,
        ensures
            final(self).wf(),
            final(vals).wf(),
            final(vals)@ == old(vals)@,
            final(self)@ == old(self)@.inserted(entry_node@[0]),
            result.0 is Some <==> old(self)@.has(entry_node@[0].key, entry_node@[0].hash),
            result.0 matches Some(keep) ==> Some(keep.link()) == old(self)@.lookup(
                entry_node@[0].key,
                entry_node@[0].hash,
            ),
            result.1 == (result.0 is None && final(self)@.crowded()),
    {
        proof {
            entry_node.lemma_view();
            old(self)@.lemma_inserted(entry_node@[0]);
        }
        let index = self.index_of(entry_node.hash());
        let mut entry = Entry::Empty;
        std::mem::swap(&mut self.entries[index], &mut entry);
        let (entry, previous) = entry.insert(entry_node, vals);
        self.entries[index] = entry;
        proof {
            assert(self@.buckets =~= old(self)@.inserted(entry_node@[0]).buckets);
        }
        match previous {
            Some(keep) => (Some(keep), false),
            None => {
                self.entry_count = self.entry_count + 1;
                let entry_count = self.entry_count;
                (None, self.resize_needed_up(entry_count))
            },
        }
    }
}

impl<Key> TableState<Key> {
    /// A table that holds its value cells for itself has only live links.
    pub proof fn lemma_tenured_live<Val>(self, vals: ArenaState<Val>)
        requires
            self.tenured(vals),
            vals.inv(),
        ensures
            self.links_live(vals),
    {
        assert forall|b: int| 0 <= b < self.buckets.len() implies all_live(
            #[trigger] self.buckets[b],
            vals,
        ) by {
            assert forall|i: int| 0 <= i < self.buckets[b].len() implies vals.live(
                (#[trigger] self.buckets[b][i]).link,
            ) by {
                assert(self.at(b, i));
            }
        }
    }

    /// A link that a search finds is a link of the table.
    pub proof fn lemma_found_is_owned(self, key: Key, hash: u64)
        requires
            self.wf(),
            self.has(key, hash),
        ensures
            self.owns(self.lookup(key, hash)->0),
    {
        lemma_pow2_pos(self.size);
        let b = self.index_of(hash);
        let chain = self.buckets[b];
        crate::entry::lemma_position(chain, key);
        let i = position(chain, key);
        assert(self.at(b, i) && self.buckets[b][i].link == self.lookup(key, hash)->0);
    }

    /// A link of a table that holds its cells for itself names its own
    /// cell, which a handle counts on.
    pub proof fn lemma_owned_is_tenured<Val>(self, vals: ArenaState<Val>, link: usize)
        requires
            self.tenured(vals),
            self.owns(link),
        ensures
            link < vals.links.len(),
            vals.links[link as int] == link,
            vals.cells[link as int].accessors >= 1,
    {
        let (b, i) = choose|b: int, i: int|
            self.at(b, i) && 0 <= b && (b < self.buckets.len() || (b == self.buckets.len() && i < 0))
                && (#[trigger] self.buckets[b][i]).link == link;
        assert(self.buckets[b][i].link < vals.links.len());
    }

    /// An insertion with a link that the table does not hold yet keeps the
    /// links distinct, and the table keeps its cells for itself. After it,
    /// the table holds the new link, and every link that it held before but
    /// the one that the new link took the place of.
    pub proof fn lemma_inserted_links<Val>(self, slot: Slot<Key>, vals: ArenaState<Val>)
        requires
            self.wf(),
            self.distinct_links(),
            self.tenured(vals),
            !self.owns(slot.link),
            slot.link < vals.links.len(),
            1 <= vals.cells[slot.link as int].accessors < usize::MAX,
        ensures
            self.inserted(slot).distinct_links(),
            self.inserted(slot).tenured(vals),
            self.inserted(slot).owns(slot.link),
            forall|link: usize|
                #[trigger] self.inserted(slot).owns(link) ==> link == slot.link || self.owns(link),
            forall|link: usize|
                self.owns(link) && Some(link) != self.lookup(slot.key, slot.hash)
                    ==> #[trigger] self.inserted(slot).owns(link),
            self.has(slot.key, slot.hash) ==> self.owns(self.lookup(slot.key, slot.hash)->0)
                && !self.inserted(slot).owns(self.lookup(slot.key, slot.hash)->0),
    {
        lemma_pow2_pos(self.size);
        let target = self.index_of(slot.hash);
        let chain = self.chain_of(slot.hash);
        let spot = position(chain, slot.key);
        crate::entry::lemma_position(chain, slot.key);
        let after = self.inserted(slot);
        assert forall|b: int, i: int| after.at(b, i) implies (after.buckets[b][i].link == slot.link
            && b == target && i == spot) || (self.at(b, i) && #[trigger] after.buckets[b][i].link
            == self.buckets[b][i].link) by {}
        assert forall|b: int, i: int, c: int, j: int|
            after.at(b, i) && after.at(c, j) && (b != c || i != j) implies (
        #[trigger] after.buckets[b][i]).link != (#[trigger] after.buckets[c][j]).link by {
            if b == target && i == spot {
                assert(self.at(c, j));
                assert(self.buckets[c][j].link == after.buckets[c][j].link);
            } else if c == target && j == spot {
                assert(self.at(b, i));
                assert(self.buckets[b][i].link == after.buckets[b][i].link);
            } else {
                assert(self.buckets[b][i].link != self.buckets[c][j].link);
            }
        }
        assert forall|b: int, i: int| after.at(b, i) implies {
            &&& (#[trigger] after.buckets[b][i]).link < vals.links.len()
            &&& 1 <= vals.cells[after.buckets[b][i].link as int].accessors < usize::MAX
        } by {
            if !(b == target && i == spot) {
                assert(self.buckets[b][i].link == after.buckets[b][i].link);
            }
        }
        assert(after.at(target, spot) && after.buckets[target][spot].link == slot.link);
        assert forall|link: usize| #[trigger] after.owns(link) implies link == slot.link
            || self.owns(link) by {
            let (b, i) = choose|b: int, i: int|
                after.at(b, i) && 0 <= b && (b < after.buckets.len() || (b == after.buckets.len()
                    && i < 0)) && (#[trigger] after.buckets[b][i]).link == link;
            if !(b == target && i == spot) {
                assert(self.buckets[b][i].link == link);
            }
        }
        if self.has(slot.key, slot.hash) {
            let held = self.lookup(slot.key, slot.hash)->0;
            assert(self.at(target, spot) && self.buckets[target][spot].link == held);
            assert(self.owns(held));
            if after.owns(held) {
                let (b, i) = choose|b: int, i: int|
                    after.at(b, i) && 0 <= b && (b < after.buckets.len() || (b == after.buckets.len()
                        && i < 0)) && (#[trigger] after.buckets[b][i]).link == held;
                if !(b == target && i == spot) {
                    assert(self.buckets[b][i].link == held);
                    assert(self.buckets[b][i].link != self.buckets[target][spot].link);
                }
            }
        }
        assert forall|link: usize|
            self.owns(link) && Some(link) != self.lookup(slot.key, slot.hash) implies #[trigger] after.owns(
            link,
        ) by {
            let (b, i) = choose|b: int, i: int|
                self.at(b, i) && 0 <= b && (b < self.buckets.len() || (b == self.buckets.len() && i
                    < 0)) && (#[trigger] self.buckets[b][i]).link == link;
            assert(after.at(b, i));
            assert(after.buckets[b][i].link == link);
        }
    }
}

impl<Key: PartialEq, Val> Table<Key, Val> {
    /// Gives up the value handle of every node of the table.
    pub fn dispose(self, vals: &mut Arena<Val>)
        requires
            self.wf(),
            self@.distinct_links(),
            self@.links_live(old(vals)@),
            old(vals)@.unswapped(),
            old(vals).wf(),
        ensures
            final(vals).wf(),
            final(vals)@.links == old(vals)@.links,
            final(vals)@.cells.len() == old(vals)@.cells.len(),
            forall|c: usize|
                c < old(vals)@.cells.len() ==> #[trigger] final(vals)@.cells[c as int] == if self@.owns(
                    c,
                ) {
                    old(vals)@.cells[c as int].retire()
                } else {
                    old(vals)@.cells[c as int]
                },
    {
        let ghost state = self@;
        let ghost full = self@.buckets.len() as int;
        let Table { size, capacity, entry_count, entries } = self;
        let mut entries = entries;
        proof {
            assert forall|c: usize| !state.owns_within(c, full, full, 0) by {}
        }
        while entries.len() > 0
            invariant
                vals.wf(),
                state.distinct_links(),
                state.links_live(old(vals)@),
                old(vals)@.unswapped(),
                state.buckets.len() == full,
                entries@.len() <= full,
                forall|b: int| 0 <= b < entries@.len() ==> (#[trigger] entries@[b])@ == state.buckets[b],
                vals@.links == old(vals)@.links,
                vals@.cells.len() == old(vals)@.cells.len(),
                forall|c: usize|
                    c < old(vals)@.cells.len() ==> #[trigger] vals@.cells[c as int] == if state.owns_within(
                        c,
                        entries@.len() as int,
                        full,
                        0,
                    ) {
                        old(vals)@.cells[c as int].retire()
                    } else {
                        old(vals)@.cells[c as int]
                    },
            decreases entries.len(),
        {
            let ghost before = vals@;
            let ghost n = entries@.len() as int;
            let entry = entries.pop().unwrap();
            let ghost chain = state.buckets[n - 1];
            proof {
                assert(entry@ == chain);
                assert forall|i: int, j: int| 0 <= i < j < chain.len() implies (#[trigger] chain[i]).link
                    != (#[trigger] chain[j]).link by {
                    assert(state.at(n - 1, i) && state.at(n - 1, j));
                }
                assert(all_live(state.buckets[n - 1], old(vals)@));
                assert forall|i: int| 0 <= i < chain.len() implies before.live(
                    (#[trigger] chain[i]).link,
                ) by {
                    assert(state.at(n - 1, i));
                    assert(old(vals)@.live(chain[i].link));
                    let link = chain[i].link;
                    if state.owns_within(link, n, full, 0) {
                        let (b, j) = choose|b: int, j: int|
                            state.at(b, j) && n <= b && (b < full || (b == full && j < 0)) && (
                            #[trigger] state.buckets[b][j]).link == link;
                        assert(state.buckets[b][j].link != state.buckets[n - 1][i].link);
                    }
                }
            }
            entry.dispose(vals);
            proof {
                assert forall|c: usize| c < old(vals)@.cells.len() implies #[trigger] vals@.cells[c as int]
                    == if state.owns_within(c, n - 1, full, 0) {
                    old(vals)@.cells[c as int].retire()
                } else {
                    old(vals)@.cells[c as int]
                } by {
                    if has_link(chain, c) {
                        let i = choose|i: int| 0 <= i < chain.len() && (#[trigger] chain[i]).link == c;
                        assert(state.at(n - 1, i));
                        assert(state.owns_within(c, n - 1, full, 0));
                        if state.owns_within(c, n, full, 0) {
                            let (b, j) = choose|b: int, j: int|
                                state.at(b, j) && n <= b && (b < full || (b == full && j < 0)) && (
                                #[trigger] state.buckets[b][j]).link == c;
                            assert(state.buckets[b][j].link != state.buckets[n - 1][i].link);
                        }
                    } else {
                        if state.owns_within(c, n - 1, full, 0) {
                            let (b, j) = choose|b: int, j: int|
                                state.at(b, j) && n - 1 <= b && (b < full || (b == full && j < 0))
                                    && (#[trigger] state.buckets[b][j]).link == c;
                            if b == n - 1 {
                                assert(chain[j].link == c);
                            }
                            assert(state.owns_within(c, n, full, 0));
                        }
                        if state.owns_within(c, n, full, 0) {
                            let (b, j) = choose|b: int, j: int|
                                state.at(b, j) && n <= b && (b < full || (b == full && j < 0)) && (
                                #[trigger] state.buckets[b][j]).link == c;
                            assert(state.owns_within(c, n - 1, full, 0));
                        }
                    }
                }
            }
        }
    }
}

impl<Key> TableState<Key> {
    /// The first bucket from `from` on that is not empty, or the number of
    /// buckets where every bucket from `from` on is empty.
    pub open spec fn next_busy(self, from: int) -> int
        decreases self.buckets.len() - from,
    {
        if from < 0 || from >= self.buckets.len() {
            self.buckets.len() as int
        } else if self.buckets[from].len() > 0 {
            from
        } else {
            self.next_busy(from + 1)
        }
    }
}

/// A walk over the values of a table: bucket by bucket, and within a bucket
/// from the last node of the chain to the first.
pub struct TableIter<Val> {
    index: usize,
    bin_buffer: Vec<Guard<Val>>,
}

impl<Val> TableIter<Val> {
    /// The first bucket that the walk has not looked into yet.
    pub closed spec fn position(&self) -> nat {
        self.index as nat
    }

    /// The reads of the bucket at hand that the walk has started and not
    /// handed out yet.
    pub closed spec fn pending(&self) -> Seq<Guard<Val>> {
        self.bin_buffer@
    }

    /// Whether each read that is pending is a read in progress in `vals`,
    /// and no two of them are the same read.
    pub open spec fn held_in(&self, vals: &Arena<Val>) -> bool {
        &&& forall|j: int| 0 <= j < self.pending().len() ==> vals.holds(#[trigger] &self.pending()[j])
        &&& forall|i: int, j: int|
            0 <= i < j < self.pending().len() ==> !same_read(
                #[trigger] self.pending()[i],
                #[trigger] self.pending()[j],
            )
    }

    /// A walk that has not started.
    pub fn new() -> (iter: Self)
        ensures
            iter.position() == 0,
            iter.pending().len() == 0,
    {
        TableIter { index: 0, bin_buffer: Vec::new() }
    }

    /// The next value of `table`: a read of it, which the caller ends.
    ///
    /// While reads of the bucket at hand are pending, the last of them is
    /// handed out. Otherwise the walk goes on to the next bucket that is not
    /// empty, starts a read of each of its values, hands out the read of the
    /// last node and keeps the others. `None` means that no bucket is left.
    pub fn next<Key: PartialEq>(&mut self, table: &Table<Key, Val>, vals: &mut Arena<Val>) -> (item:
        Option<Guard<Val>>)
        requires
            table.wf(),
            table@.links_live(old(vals)@),
            old(vals).wf(),
            old(self).held_in(old(vals)),
            old(self).position() <= table@.buckets.len(),
        ensures
            final(vals).wf(),
            old(vals)@.links_kept(final(vals)@),
            old(vals)@.guards_kept(final(vals)@),
            old(vals)@.values_kept(final(vals)@),
            final(vals)@.links.len() == old(vals)@.links.len(),
            final(self).held_in(final(vals)),
            final(self).position() <= table@.buckets.len(),
            item matches Some(guard) ==> forall|j: int|
                0 <= j < final(self).pending().len() ==> !same_read(
                    guard,
                    #[trigger] final(self).pending()[j],
                ),
            old(self).pending().len() > 0 ==> {
                &&& item == Some(old(self).pending().last())
                &&& final(self).pending() == old(self).pending().drop_last()
                &&& final(self).position() == old(self).position()
                &&& final(vals)@ == old(vals)@
            },
            old(self).pending().len() == 0 ==> {
                let b = table@.next_busy(old(self).position() as int);
                let chain = table@.buckets[b];
                &&& item is Some <==> b < table@.buckets.len()
                &&& item is None ==> {
                    &&& final(self).position() == table@.buckets.len()
                    &&& final(self).pending().len() == 0
                    &&& final(vals)@ == old(vals)@
                }
                &&& item matches Some(guard) ==> {
                    &&& final(self).position() == b + 1
                    &&& final(vals).holds(&guard)
                    &&& final(vals).observed(&guard) == old(vals)@.cell_of(chain.last().link).value()
                    &&& final(self).pending().len() == chain.len() - 1
                    &&& forall|i: int|
                        0 <= i < chain.len() - 1 ==> final(vals).observed(
                            #[trigger] &final(self).pending()[i],
                        ) == old(vals)@.cell_of(chain[i].link).value()
                }
            },
    {
        if let Some(item) = self.bin_buffer.pop() {
            proof {
                let last = old(self).pending().len() - 1;
                assert(item == old(self).pending()[last]);
                assert forall|j: int| 0 <= j < self.pending().len() implies !same_read(
                    item,
                    #[trigger] self.pending()[j],
                ) by {
                    assert(self.pending()[j] == old(self).pending()[j]);
                }
            }
            return Some(item);
        }
        loop
            invariant
                table.wf(),
                table@.links_live(old(vals)@),
                vals@ == old(vals)@,
                vals.wf(),
                self.bin_buffer@.len() == 0,
                old(self).pending().len() == 0,
                old(self).position() <= self.index <= table@.buckets.len(),
                table@.next_busy(self.index as int) == table@.next_busy(old(self).position() as int),
            decreases table@.buckets.len() - self.index,
        {
            if self.index >= table.capacity() {
                proof {
                    vstd::arithmetic::power2::lemma_pow2_pos(table@.size);
                }
                return None;
            }
            let ghost b = self.index as int;
            let ghost chain = table@.buckets[b];
            proof {
                assert(all_live(table@.buckets[b], old(vals)@));
            }
            self.bin_buffer = table.entry_at(self.index).buffered(vals);
            self.index += 1;
            if let Some(item) = self.bin_buffer.pop() {
                proof {
                    let filled = self.bin_buffer@.push(item);
                    assert(filled[chain.len() - 1] == item);
                    assert forall|i: int| 0 <= i < chain.len() - 1 implies vals.observed(
                        #[trigger] &self.bin_buffer@[i],
                    ) == old(vals)@.cell_of(chain[i].link).value() && vals.holds(
                        &self.bin_buffer@[i],
                    ) && !same_read(item, self.bin_buffer@[i]) by {
                        assert(self.bin_buffer@[i] == filled[i]);
                    }
                    assert forall|i: int, j: int| 0 <= i < j < self.bin_buffer@.len() implies !same_read(
                        #[trigger] self.bin_buffer@[i],
                        #[trigger] self.bin_buffer@[j],
                    ) by {
                        assert(self.bin_buffer@[i] == filled[i]);
                        assert(self.bin_buffer@[j] == filled[j]);
                    }
                }
                return Some(item);
            }
            proof {
                assert(chain.len() == 0);
            }
        }
    }
}

/// `2^size`, for a size that a table can have.
fn pow2_usize(size: usize) -> (power: usize)
    requires
        size <= MAX_SIZE,
    ensures
        power == pow2(size as nat),
{
    proof {
        lemma_u64_pow2_no_overflow(size as nat);
        lemma_pow2_strictly_increases(size as nat, 32);
        vstd::arithmetic::power2::lemma2_to64();
        lemma_u64_shl_is_mul(1, size as u64);
    }
    let power: u64 = 1u64 << (size as u64);
    power as usize
}

} // verus!
