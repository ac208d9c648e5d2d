//! The map.
//!
//! A map owns its table and the arena of its value cells. Each value has a
//! cell of its own, so a reader of a value holds a guard on it, and a value
//! that was replaced lives on for as long as a guard or a handle names it.
//!
//! The hash of a key comes from the hasher that the map was made with. The
//! map takes the hash as it comes: what it does with a key and a hash is
//! stated by the functions that take both.
use crate::entry::{key_model, EntryNode, Slot};
use crate::guard::Guard;
use crate::heaped::Heaped;
use crate::keep::{Arena, Keep};
use crate::resizer::Resizer;
use crate::table::{Table, TableIter, TableState, DEFAULT_SIZE, MAX_SIZE};
use std::hash::{BuildHasher, Hash, RandomState};
use vstd::prelude::*;

verus! {

/// How many buckets a call that helps with a move claims at a time.
pub const STRIDE: usize = 8;

/// Calls `BuildHasher::hash_one`, which hashes `key` with a hasher that
/// `hasher` builds. Nothing is claimed of the result: it depends on the
/// keys that the hasher was seeded with.
#[verifier::external_body]
fn hash_one<Key: Hash, S: BuildHasher>(hasher: &S, key: &Key) -> (hash: u64) {
    hasher.hash_one(key)
}

/// Calls `RandomState::new`, which gives a hasher with random keys of its
/// own. Nothing is claimed of the result.
#[verifier::external_body]
fn random_state() -> (hasher: RandomState) {
    RandomState::new()
}

/// A hash map with a value cell for each key.
pub struct PlugMap<Key, Val, S = RandomState> {
    table: Table<Key, Val>,
    resizer: Option<Resizer<Key, Val>>,
    hasher: S,
    vals: Arena<Val>,
}

impl<Key, Val, S> PlugMap<Key, Val, S> {
    /// The table as it stands.
    pub closed spec fn view(&self) -> TableState<Key> {
        self.table@
    }

    /// The arena of the value cells.
    pub closed spec fn vals(&self) -> Arena<Val> {
        self.vals
    }

    /// Whether a resizer is in place, for the next call to find.
    pub closed spec fn resizing(&self) -> bool {
        self.resizer is Some
    }

    /// The map is in order: the table is, it holds its value cells for
    /// itself, and a resizer that is in place has not started.
    pub closed spec fn wf(&self) -> bool {
        &&& self.table.wf()
        &&& self.table@.distinct_links()
        &&& self.table@.tenured(self.vals@)
        &&& self.vals.wf()
        &&& match self.resizer {
            Some(resizer) => {
                &&& resizer.wf(self.table@)
                &&& resizer.claimed() == 0
                &&& self.table@.size < MAX_SIZE
            },
            None => true,
        }
    }

    /// The table that the next call will work on: the table of twice the
    /// size where a resizer is in place, the table as it stands otherwise.
    pub open spec fn settled(&self) -> TableState<Key> {
        if self.resizing() {
            self@.migrated()
        } else {
            self@
        }
    }

    /// The value that a search for `key` with the hash `hash` finds.
    pub open spec fn value_of(&self, key: Key, hash: u64) -> Option<Val> {
        match self.settled().lookup(key, hash) {
            Some(link) => Some(self.vals()@.cell_of(link).value()),
            None => None,
        }
    }

    /// What an insertion of `key` with the hash `hash` and the value `val`
    /// makes of the map `before`: the map `after` and the handle `previous`.
    pub open spec fn inserts(
        before: &Self,
        after: &Self,
        key: Key,
        val: Val,
        hash: u64,
        previous: Option<Keep<Val>>,
    ) -> bool {
        &&& after@ == before.settled().inserted(
            Slot { key, hash, link: before.vals()@.links.len() as usize },
        )
        &&& after.vals()@ == before.vals()@.create(val)
        &&& after.value_of(key, hash) == Some(val)
        &&& previous is Some <==> before.settled().has(key, hash)
        &&& previous matches Some(keep) ==> {
            &&& Some(keep.link()) == before.settled().lookup(key, hash)
            &&& after.vals().live(&keep)
            &&& after.vals().value(&keep) == before.value_of(key, hash)->0
            &&& !after@.owns(keep.link())
        }
        &&& after.resizing() == (previous is None && after@.crowded() && after@.size < MAX_SIZE)
    }

    /// What a search for `key` with the hash `hash` makes of the map
    /// `before`: the map `after` and the guard `found`.
    pub open spec fn finds(before: &Self, after: &Self, key: Key, hash: u64, found: Option<Guard<Val>>) -> bool {
        &&& after@ == before.settled()
        &&& !after.resizing()
        &&& found is Some <==> before.settled().has(key, hash)
        &&& match found {
            Some(guard) => {
                let link = before.settled().lookup(key, hash)->0;
                &&& after.vals()@ == before.vals()@.step(link, before.vals()@.cell_of(link).load())
                &&& after.vals().holds(&guard)
                &&& Some(after.vals().observed(&guard)) == before.value_of(key, hash)
                &&& guard.cell() == link
                &&& guard.addr() == before.vals()@.cell_of(link).current
                &&& guard.slot() == before.vals()@.cell_of(link).next_slot()
            },
            None => after.vals()@ == before.vals()@,
        }
    }

    /// What a map in order is made of.
    pub proof fn lemma_wf(&self)
        requires
            self.wf(),
        ensures
            self@.wf(),
            self@.distinct_links(),
            self@.tenured(self.vals()@),
            self.vals().wf(),
            self.resizing() ==> self@.size < MAX_SIZE,
            self@.count <= usize::MAX,
    {
        self.table.lemma_count_fits();
    }
}

impl<Key: Hash + Eq, Val, S: BuildHasher> PlugMap<Key, Val, S> {
    /// An empty map with `2^size` buckets, and with 16 where `size` is less
    /// than 4, which takes its hashes from `hasher`.
    pub fn new_with_hasher(size: usize, hasher: S) -> (map: Self)
        requires
            size <= MAX_SIZE,
        ensures
            map.wf(),
            !map.resizing(),
            map@ == TableState::<Key>::empty(
                if size < DEFAULT_SIZE {
                    DEFAULT_SIZE as nat
                } else {
                    size as nat
                },
            ),
            map.vals()@.links.len() == 0,
    {
        let map = PlugMap { table: Table::new(size), resizer: None, hasher, vals: Arena::new() };
        proof {
            assert forall|b: int, i: int| !map.table@.at(b, i) by {}
        }
        map
    }

    /// The hash of `key` under the hasher of the map.
    #[inline]
    fn hash(&self, key: &Key) -> (hash: u64) {
        hash_one(&self.hasher, key)
    }

    /// The arena of the value cells, to look through a guard with.
    #[inline]
    pub fn heap(&self) -> (heap: &Arena<Val>)
        requires
            self.wf(),
        ensures
            *heap == self.vals(),
            heap.wf(),
    {
        &self.vals
    }

    /// The number of buckets of the table as it stands.
    #[inline]
    pub fn capacity(&self) -> (capacity: usize)
        requires
            self.wf(),
        ensures
            capacity == self@.capacity(),
    {
        self.table.capacity()
    }

    /// Whether a resizer is in place, for the next call to find.
    #[inline]
    pub fn is_resizing(&self) -> (resizing: bool)
        ensures
            resizing == self.resizing(),
    {
        self.resizer.is_some()
    }

    /// The number of keys.
    #[inline]
    pub fn len(&self) -> (count: usize)
        ensures
            count == self@.count,
    {
        self.table.entry_count()
    }

    /// Starts a read of the value in the cell that `keep` names.
    pub fn read(&mut self, keep: &Keep<Val>) -> (guard: Guard<Val>)
        requires
            old(self).wf(),
            old(self).vals().live(keep),
        ensures
            final(self).wf(),
            final(self)@ == old(self)@,
            final(self).resizing() == old(self).resizing(),
            final(self).vals()@ == old(self).vals()@.step(
                keep.link(),
                old(self).vals()@.cell_of(keep.link()).load(),
            ),
            final(self).vals().holds(&guard),
            final(self).vals().observed(&guard) == old(self).vals().value(keep),
    {
        let ghost origin = self.vals@;
        let guard = keep.read(&mut self.vals);
        proof {
            origin.lemma_read_keeps(keep.link());
            let later = self.vals@;
            assert forall|b: int, i: int| self.table@.at(b, i) implies {
                &&& (#[trigger] self.table@.buckets[b][i]).link < later.links.len()
                &&& 1 <= later.cells[self.table@.buckets[b][i].link as int].accessors < usize::MAX
            } by {
                let l = self.table@.buckets[b][i].link;
                assert(origin.cells[l as int].accessors > 0);
            }
        }
        guard
    }

    /// Ends the read `guard`.
    pub fn release(&mut self, guard: Guard<Val>)
        requires
            old(self).wf(),
            old(self).vals().holds(&guard),
        ensures
            final(self).wf(),
            final(self)@ == old(self)@,
            final(self).resizing() == old(self).resizing(),
            final(self).vals()@ == old(self).vals()@.step_cell(
                guard.cell(),
                old(self).vals()@.cells[guard.cell() as int].release(guard.addr(), guard.slot()),
            ),
    {
        let ghost origin = self.vals@;
        proof {
            origin.lemma_release_keeps(guard.cell(), guard.addr(), guard.slot());
        }
        guard.release(&mut self.vals);
        proof {
            let later = self.vals@;
            assert forall|b: int, i: int| self.table@.at(b, i) implies {
                &&& (#[trigger] self.table@.buckets[b][i]).link < later.links.len()
                &&& 1 <= later.cells[self.table@.buckets[b][i].link as int].accessors < usize::MAX
            } by {
                let l = self.table@.buckets[b][i].link;
                assert(origin.cells[l as int].accessors > 0);
            }
        }
    }

    /// Gives up `keep`, a handle that the map returned for a value that it
    /// replaced.
    pub fn discard(&mut self, keep: Keep<Val>)
        requires
            old(self).wf(),
            old(self).vals().live(&keep),
            !old(self)@.owns(keep.link()),
        ensures
            final(self).wf(),
            final(self)@ == old(self)@,
            final(self).resizing() == old(self).resizing(),
            final(self).vals()@ == old(self).vals()@.unlink(keep.link()),
    {
        let ghost origin = self.vals@;
        proof {
            origin.lemma_unlink_keeps(keep.link());
        }
        keep.destroy(&mut self.vals);
        proof {
            let later = self.vals@;
            assert forall|b: int, i: int| self.table@.at(b, i) implies {
                &&& (#[trigger] self.table@.buckets[b][i]).link < later.links.len()
                &&& 1 <= later.cells[self.table@.buckets[b][i].link as int].accessors < usize::MAX
            } by {
                let l = self.table@.buckets[b][i].link;
                assert(self.table@.owns(l));
                assert(l != keep.link());
            }
        }
    }

    /// A walk over the values of the map, from its first bucket.
    pub fn iter(&self) -> (iter: TableIter<Val>)
        ensures
            iter.position() == 0,
            iter.pending().len() == 0,
    {
        TableIter::new()
    }

    /// The next value of the walk `iter` over the table as it stands: a
    /// read of it, which the caller ends. `None` means that the walk is
    /// over.
    pub fn next(&mut self, iter: &mut TableIter<Val>) -> (item: Option<Guard<Val>>)
        requires
            old(self).wf(),
            old(iter).held_in(&old(self).vals()),
            old(iter).position() <= old(self)@.buckets.len(),
        ensures
            final(self).wf(),
            final(self)@ == old(self)@,
            final(self).resizing() == old(self).resizing(),
            old(self).vals()@.links_kept(final(self).vals()@),
            old(self).vals()@.guards_kept(final(self).vals()@),
            old(self).vals()@.values_kept(final(self).vals()@),
            final(iter).held_in(&final(self).vals()),
            final(iter).position() <= final(self)@.buckets.len(),
            item matches Some(guard) ==> forall|j: int|
                0 <= j < final(iter).pending().len() ==> !crate::guard::same_read(
                    guard,
                    #[trigger] final(iter).pending()[j],
                ),
            old(iter).pending().len() > 0 ==> {
                &&& item == Some(old(iter).pending().last())
                &&& final(iter).pending() == old(iter).pending().drop_last()
                &&& final(iter).position() == old(iter).position()
                &&& final(self).vals()@ == old(self).vals()@
            },
            old(iter).pending().len() == 0 ==> {
                let b = old(self)@.next_busy(old(iter).position() as int);
                let chain = old(self)@.buckets[b];
                &&& item is Some <==> b < old(self)@.buckets.len()
                &&& item is None ==> {
                    &&& final(iter).position() == old(self)@.buckets.len()
                    &&& final(iter).pending().len() == 0
                    &&& final(self).vals()@ == old(self).vals()@
                }
                &&& item matches Some(guard) ==> {
                    &&& final(iter).position() == b + 1
                    &&& final(self).vals().holds(&guard)
                    &&& final(self).vals().observed(&guard) == old(self).vals()@.cell_of(
                        chain.last().link,
                    ).value()
                    &&& final(iter).pending().len() == chain.len() - 1
                    &&& forall|i: int|
                        0 <= i < chain.len() - 1 ==> final(self).vals().observed(
                            #[trigger] &final(iter).pending()[i],
                        ) == old(self).vals()@.cell_of(chain[i].link).value()
                }
            },
    {
        let ghost origin = self.vals@;
        proof {
            self.table@.lemma_tenured_live(origin);
        }
        let item = iter.next(&self.table, &mut self.vals);
        proof {
            let later = self.vals@;
            assert forall|b: int, i: int| self.table@.at(b, i) implies {
                &&& (#[trigger] self.table@.buckets[b][i]).link < later.links.len()
                &&& 1 <= later.cells[self.table@.buckets[b][i].link as int].accessors < usize::MAX
            } by {
                let l = self.table@.buckets[b][i].link;
                assert(origin.cells[l as int].accessors > 0);
            }
            assert(later.unswapped()) by {
                assert forall|l: int| 0 <= l < later.links.len() implies #[trigger] later.links[l]
                    == l by {
                    assert(origin.links[l] == l);
                }
            }
        }
        item
    }

    /// Carries out the move that a resizer in place stands for: every node
    /// goes over into the table of twice the size, the new table takes the
    /// place of the old one, and the old one is given up. The value cells
    /// are as before.
    pub fn help_resize(&mut self)
        requires
            key_model::<Key>(),
            old(self).wf(),
        ensures
            final(self).wf(),
            !final(self).resizing(),
            final(self)@ == old(self).settled(),
            final(self).vals()@ == old(self).vals()@,
    {
        let ghost source = self.table@;
        let ghost origin = self.vals@;
        match self.resizer.take() {
            None => {},
            Some(mut resizer) => {
                proof {
                    source.lemma_tenured_live(origin);
                }
                resizer.resize(&self.table, &mut self.vals);
                let ghost grown = self.vals@;
                resizer.finalize(&mut self.table);
                proof {
                    source.lemma_migrated_links();
                    assert forall|b: int, i: int| source.at(b, i) implies grown.live(
                        (#[trigger] source.buckets[b][i]).link,
                    ) by {
                        let link = source.buckets[b][i].link;
                        assert(source.owns_within(link, 0, source.buckets.len() as int, 0));
                        assert(grown.cells[link as int] == origin.cells[link as int].register());
                    }
                    assert(source.links_live(grown)) by {
                        assert forall|b: int| 0 <= b < source.buckets.len() implies crate::entry::all_live(
                            #[trigger] source.buckets[b],
                            grown,
                        ) by {
                            assert forall|i: int| 0 <= i < source.buckets[b].len() implies grown.live(
                                (#[trigger] source.buckets[b][i]).link,
                            ) by {
                                assert(source.at(b, i));
                            }
                        }
                    }
                }
                resizer.dispose(&mut self.vals);
                proof {
                    assert forall|c: int| 0 <= c < origin.cells.len() implies #[trigger] self.vals@.cells[c]
                        == origin.cells[c] by {
                        let link = c as usize;
                        assert(self.vals@.cells[link as int] == if source.owns(link) {
                            grown.cells[link as int].retire()
                        } else {
                            grown.cells[link as int]
                        });
                        if source.owns(link) {
                            let (b, i) = choose|b: int, i: int|
                                source.at(b, i) && 0 <= b && (b < source.buckets.len() || (b
                                    == source.buckets.len() && i < 0)) && (
                                #[trigger] source.buckets[b][i]).link == link;
                            let cell = origin.cells[c];
                            assert(origin.cells[source.buckets[b][i].link as int].accessors >= 1);
                            assert(cell.accessors >= 1);
                            assert(cell.register().unregister() == cell);
                        }
                    }
                    assert(self.vals@.cells =~= origin.cells);
                    let new = self.table@;
                    assert forall|b: int, i: int| new.at(b, i) implies {
                        &&& (#[trigger] new.buckets[b][i]).link < origin.links.len()
                        &&& 1 <= origin.cells[new.buckets[b][i].link as int].accessors < usize::MAX
                    } by {
                        let link = new.buckets[b][i].link;
                        assert(new.owns(link));
                        assert(source.owns(link));
                        let (c, j) = choose|c: int, j: int|
                            source.at(c, j) && 0 <= c && (c < source.buckets.len() || (c
                                == source.buckets.len() && j < 0)) && (
                            #[trigger] source.buckets[c][j]).link == link;
                    }
                }
            },
        }
    }

    /// Inserts `key` with the hash `hash` and a value cell of its own around
    /// `val`.
    ///
    /// A resizer that is in place is helped to its end first. Where the key
    /// is found, its node takes over the new cell, and the handle to the
    /// cell that it held is returned: the map keeps no claim on that cell.
    /// Where the key is new, a node is appended for it, and a resizer is put
    /// in place if the table has grown past three quarters of its buckets
    /// and can still be doubled.
    pub fn insert_hashed<H: Heaped<Val>>(&mut self, key: Key, val: H, hash: u64) -> (previous: Option<
        Keep<Val>,
    >)
        requires
            key_model::<Key>(),
            old(self).wf(),
            old(self)@.count < usize::MAX,
            val.pointee() is Some,
        ensures
            final(self).wf(),
            Self::inserts(old(self), final(self), key, val.pointee()->0, hash, previous),
    {
        proof {
            if self.resizing() {
                self@.lemma_migrated_count();
            }
        }
        self.help_resize();
        let ghost before = self.table@;
        let ghost origin = self.vals@;
        let ghost slot = Slot { key, hash, link: origin.links.len() as usize };
        let entry_node = EntryNode::new(&mut self.vals, key, val, hash);
        proof {
            origin.lemma_create_keeps(val.pointee()->0);
            assert forall|b: int, i: int| before.at(b, i) implies {
                &&& (#[trigger] before.buckets[b][i]).link < self.vals@.links.len()
                &&& 1 <= self.vals@.cells[before.buckets[b][i].link as int].accessors < usize::MAX
            } by {
                let link = before.buckets[b][i].link;
                assert(origin.cells[link as int].accessors > 0);
            }
            assert(self.vals@.unswapped());
            if before.owns(slot.link) {
                let (b, i) = choose|b: int, i: int|
                    before.at(b, i) && 0 <= b && (b < before.buckets.len() || (b
                        == before.buckets.len() && i < 0)) && (#[trigger] before.buckets[b][i]).link
                        == slot.link;
            }
            before.lemma_inserted_links(slot, self.vals@);
        }
        let (previous, needed) = self.table.insert(entry_node, &mut self.vals);
        if needed && self.table.size() < MAX_SIZE {
            self.resizer = Some(Resizer::new(STRIDE, &self.table));
        }
        proof {
            before.lemma_inserted(slot);
            let after = self.table@;
            if self.resizer is Some {
                // the node that was appended carries the hash that it came with
                vstd::arithmetic::power2::lemma_pow2_pos(before.size);
                let b = before.index_of(hash);
                let chain = before.buckets[b];
                crate::entry::lemma_position(chain, key);
                assert(after.at(b, chain.len() as int));
                assert(after.buckets[b][chain.len() as int] == slot);
                after.lemma_migrated_finds(b, chain.len() as int);
            }
        }
        previous
    }

    /// Looks for `key` with the hash `hash` and starts a read of its value.
    /// A resizer that is in place is helped to its end first.
    pub fn get_hashed(&mut self, key: &Key, hash: u64) -> (found: Option<Guard<Val>>)
        requires
            key_model::<Key>(),
            old(self).wf(),
        ensures
            final(self).wf(),
            Self::finds(old(self), final(self), *key, hash, found),
    {
        self.help_resize();
        let ghost origin = self.vals@;
        proof {
            self.table@.lemma_tenured_live(origin);
        }
        let found = self.table.get(key, hash, &mut self.vals);
        proof {
            if found is Some {
                let link = self.table@.lookup(*key, hash)->0;
                assert(origin.live(link)) by {
                    vstd::arithmetic::power2::lemma_pow2_pos(self.table@.size);
                    let b = self.table@.index_of(hash);
                    assert(crate::entry::all_live(self.table@.buckets[b], origin));
                    crate::entry::lemma_position(self.table@.buckets[b], *key);
                }
                origin.lemma_read_keeps(link);
                let later = self.vals@;
                assert forall|b: int, i: int| self.table@.at(b, i) implies {
                    &&& (#[trigger] self.table@.buckets[b][i]).link < later.links.len()
                    &&& 1 <= later.cells[self.table@.buckets[b][i].link as int].accessors
                        < usize::MAX
                } by {
                    let l = self.table@.buckets[b][i].link;
                    assert(origin.cells[l as int].accessors > 0);
                }
            }
        }
        found
    }

    /// Inserts `key` with a value cell of its own around `val`, under the
    /// hash that the hasher of the map gives the key.
    pub fn insert<H: Heaped<Val>>(&mut self, key: Key, val: H) -> (previous: Option<Keep<Val>>)
        requires
            key_model::<Key>(),
            old(self).wf(),
            old(self)@.count < usize::MAX,
            val.pointee() is Some,
        ensures
            final(self).wf(),
            exists|hash: u64|
                #[trigger] Self::inserts(old(self), final(self), key, val.pointee()->0, hash, previous),
    {
        let hash = self.hash(&key);
        self.insert_hashed(key, val, hash)
    }

    /// Looks for `key`, under the hash that the hasher of the map gives it,
    /// and starts a read of its value.
    pub fn get(&mut self, key: &Key) -> (found: Option<Guard<Val>>)
        requires
            key_model::<Key>(),
            old(self).wf(),
        ensures
            final(self).wf(),
            exists|hash: u64| #[trigger] Self::finds(old(self), final(self), *key, hash, found),
    {
        let hash = self.hash(key);
        self.get_hashed(key, hash)
    }

    /// Removes `key` from the map.
    ///
    /// Removal is defined for the map without keys, and finds nothing there.
    pub fn remove(&self, key: &Key) -> (removed: Option<Keep<Val>>)
        requires
            self.wf(),
            forall|b: int| 0 <= b < self@.buckets.len() ==> (#[trigger] self@.buckets[b]).len() == 0,
        ensures
            removed is None,
    {
        let hash = self.hash(key);
        proof {
            vstd::arithmetic::power2::lemma_pow2_pos(self.table@.size);
            let b = self.table@.index_of(hash);
            assert(0 <= b < self.table@.buckets.len());
            assert(self@.buckets[b].len() == 0);
        }
        self.table.remove(key, hash)
    }
}

impl<Key: Hash + Eq, Val> PlugMap<Key, Val, RandomState> {
    /// An empty map of 16 buckets with a hasher of its own.
    pub fn new() -> (map: Self)
        ensures
            map.wf(),
            !map.resizing(),
            map@ == TableState::<Key>::empty(DEFAULT_SIZE as nat),
            map.vals()@.links.len() == 0,
    {
        Self::new_with_hasher(DEFAULT_SIZE, random_state())
    }
}

impl<Key: Hash + Eq, Val> Default for PlugMap<Key, Val, RandomState> {
    /// An empty map of 16 buckets with a hasher of its own.
    fn default() -> (map: Self)
        ensures
            map.wf(),
            !map.resizing(),
            map@ == TableState::<Key>::empty(DEFAULT_SIZE as nat),
            map.vals()@.links.len() == 0,
    {
        Self::new()
    }
}

} // verus!
