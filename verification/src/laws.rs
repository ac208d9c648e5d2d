//! What holds of a map whose hashes are those of one hash function.
//!
//! A map takes each hash as it is given. Where every hash that it was ever
//! given for a key is the value of one function at that key, the table is
//! a finite map from keys to value cells: a key is found under the cell of
//! its latest insertion, and the move into a table of twice the size loses
//! nothing and doubles nothing.
use crate::entry::{lemma_position, lemma_with_slot, position, with_slot, Slot};
use crate::guard::Guard;
use crate::keep::Keep;
use crate::map::PlugMap;
use crate::resizer::lemma_share;
use crate::table::TableState;
use vstd::arithmetic::div_mod::lemma_mod_mod;
use vstd::arithmetic::power2::{lemma_pow2_pos, lemma_pow2_unfold, pow2};
use vstd::prelude::*;

verus! {

/// One insertion: a key and the link of the value cell made for it.
pub struct Insertion<Key> {
    pub key: Key,
    pub link: usize,
}

impl<Key> TableState<Key> {
    /// Every node carries the hash that `hasher` gives its key.
    pub open spec fn hashed_by(self, hasher: spec_fn(Key) -> u64) -> bool {
        forall|b: int, i: int| self.at(b, i) ==> (#[trigger] self.buckets[b][i]).hash == hasher(
            self.buckets[b][i].key,
        )
    }

    /// The link under which `key` is found.
    pub open spec fn find(self, hasher: spec_fn(Key) -> u64, key: Key) -> Option<usize> {
        self.lookup(key, hasher(key))
    }

    /// The table after the insertions of `steps`, in order, each with the
    /// hash that `hasher` gives its key.
    pub open spec fn inserted_all(self, hasher: spec_fn(Key) -> u64, steps: Seq<Insertion<Key>>) -> Self
        decreases steps.len(),
    {
        if steps.len() == 0 {
            self
        } else {
            self.inserted_all(hasher, steps.drop_last()).inserted(
                Slot { key: steps.last().key, hash: hasher(steps.last().key), link: steps.last().link },
            )
        }
    }

    /// An insertion is found again, leaves every other key as it was, and
    /// counts one key more exactly if the key was not there.
    pub proof fn law_insert(self, hasher: spec_fn(Key) -> u64, key: Key, link: usize)
        requires
            self.wf(),
            self.hashed_by(hasher),
        ensures
            ({
                let after = self.inserted(Slot { key, hash: hasher(key), link });
                &&& after.wf()
                &&& after.hashed_by(hasher)
                &&& after.find(hasher, key) == Some(link)
                &&& forall|other: Key| other != key ==> #[trigger] after.find(hasher, other) == self.find(
                    hasher,
                    other,
                )
                &&& after.count == if self.find(hasher, key) is Some {
                    self.count
                } else {
                    self.count + 1
                }
            }),
    {
        let slot = Slot { key, hash: hasher(key), link };
        let after = self.inserted(slot);
        let target = self.index_of(slot.hash);
        let chain = self.chain_of(slot.hash);
        lemma_pow2_pos(self.size);
        self.lemma_inserted(slot);
        lemma_with_slot(chain, slot);
        lemma_position(chain, key);
        assert forall|b: int, i: int| after.at(b, i) implies (#[trigger] after.buckets[b][i]).hash
            == hasher(after.buckets[b][i].key) by {
            if b == target {
                if i < chain.len() {
                    assert(self.at(b, i));
                    assert(after.buckets[b][i].key == self.buckets[b][i].key);
                    assert(after.buckets[b][i].hash == self.buckets[b][i].hash);
                }
            } else {
                assert(self.at(b, i));
            }
        }
        assert forall|other: Key| other != key implies #[trigger] after.find(hasher, other)
            == self.find(hasher, other) by {
            let there = self.index_of(hasher(other));
            if there == target {
                lemma_position(chain, other);
                lemma_position(with_slot(chain, slot), other);
                let p = position(chain, other);
                if p < chain.len() {
                    assert(p != position(chain, key));
                }
            }
        }
    }

    /// Map correctness: after any sequence of insertions, a key is found
    /// under the link of its latest insertion, and a key that was never
    /// inserted is not found.
    pub proof fn law_latest_insert_wins(self, hasher: spec_fn(Key) -> u64, steps: Seq<Insertion<Key>>, key: Key)
        requires
            self.wf(),
            self.hashed_by(hasher),
        ensures
            self.inserted_all(hasher, steps).wf(),
            self.inserted_all(hasher, steps).hashed_by(hasher),
            self.inserted_all(hasher, steps).find(hasher, key) == latest(
                steps,
                key,
                self.find(hasher, key),
            ),
        decreases steps.len(),
    {
        if steps.len() > 0 {
            let before = self.inserted_all(hasher, steps.drop_last());
            self.law_latest_insert_wins(hasher, steps.drop_last(), key);
            before.law_insert(hasher, steps.last().key, steps.last().link);
        }
    }

    /// Counting: a table that starts empty counts as many keys as were
    /// inserted, where no key was inserted twice.
    pub proof fn law_count_of_distinct(size: nat, hasher: spec_fn(Key) -> u64, steps: Seq<Insertion<Key>>)
        requires
            Self::empty(size).wf(),
            forall|i: int, j: int| 0 <= i < j < steps.len() ==> (#[trigger] steps[i]).key != (
            #[trigger] steps[j]).key,
        ensures
            Self::empty(size).inserted_all(hasher, steps).count == steps.len(),
        decreases steps.len(),
    {
        let start = Self::empty(size);
        assert forall|b: int, i: int| !start.at(b, i) by {}
        if steps.len() > 0 {
            let front = steps.drop_last();
            Self::law_count_of_distinct(size, hasher, front);
            let before = start.inserted_all(hasher, front);
            start.law_latest_insert_wins(hasher, front, steps.last().key);
            lemma_latest_absent(front, steps.last().key, start.find(hasher, steps.last().key));
            lemma_pow2_pos(size);
            before.law_insert(hasher, steps.last().key, steps.last().link);
        }
    }

    /// Resize transparency: the table of twice the size finds each key
    /// under the link that the old table found it under, finds no key that
    /// the old table did not find, and counts the same number of keys.
    pub proof fn law_resize_transparent(self, hasher: spec_fn(Key) -> u64, key: Key)
        requires
            self.wf(),
            self.hashed_by(hasher),
        ensures
            self.migrated().find(hasher, key) == self.find(hasher, key),
            self.migrated().count == self.count,
            self.migrated().hashed_by(hasher),
    {
        let new = self.migrated();
        let small = pow2(self.size) as int;
        lemma_pow2_pos(self.size);
        lemma_pow2_pos(self.size + 1);
        lemma_pow2_unfold(self.size + 1);
        self.lemma_migrated_count();
        let hash = hasher(key);
        lemma_mod_mod(hash as int, small, 2);
        let there = new.index_of(hash);
        let here = self.index_of(hash);
        assert(there % small == here);
        let chain = self.buckets[here];
        assert(self.moved(here, self.buckets.len() as int, 0) == chain);
        let part = new.buckets[there];
        lemma_share(chain, self.size + 1, there);
        lemma_position(chain, key);
        lemma_position(part, key);
        let p = position(chain, key);
        let q = position(part, key);
        if q < part.len() {
            assert(chain.contains(part[q]));
            let at = choose|at: int| 0 <= at < chain.len() && chain[at] == part[q];
            if at != p {
                assert(chain[p].key == key && chain[at].key == key);
                if at < p {
                    assert(chain[at].key != key);
                } else {
                    assert(chain[p].key != chain[at].key);
                }
            }
        }
        if p < chain.len() {
            assert(self.at(here, p));
            assert(chain[p].hash == hash);
            assert(part.contains(chain[p]));
            let at = choose|at: int| 0 <= at < part.len() && part[at] == chain[p];
            if q > at {
                assert(part[at].key != key);
            }
        }
        assert forall|b: int, i: int| new.at(b, i) implies (#[trigger] new.buckets[b][i]).hash
            == hasher(new.buckets[b][i].key) by {
            self.lemma_migrated_from(b, i);
            let from = self.buckets[b % small];
            let at = choose|at: int| 0 <= at < from.len() && from[at] == new.buckets[b][i];
            assert(self.at(b % small, at));
        }
    }
}

/// The link of the latest insertion of `key` in `steps`, or `otherwise`
/// where the key is not inserted.
pub open spec fn latest<Key>(steps: Seq<Insertion<Key>>, key: Key, otherwise: Option<usize>) -> Option<
    usize,
>
    decreases steps.len(),
{
    if steps.len() == 0 {
        otherwise
    } else if steps.last().key == key {
        Some(steps.last().link)
    } else {
        latest(steps.drop_last(), key, otherwise)
    }
}

/// A key that no step inserts is where it was.
pub proof fn lemma_latest_absent<Key>(steps: Seq<Insertion<Key>>, key: Key, otherwise: Option<usize>)
    requires
        forall|i: int| 0 <= i < steps.len() ==> (#[trigger] steps[i]).key != key,
    ensures
        latest(steps, key, otherwise) == otherwise,
    decreases steps.len(),
{
    if steps.len() > 0 {
        assert(steps[steps.len() - 1].key != key);
        lemma_latest_absent(steps.drop_last(), key, otherwise);
    }
}

impl<Key, Val, S> PlugMap<Key, Val, S> {
    /// The value that the map holds for `key`, for searches that come with
    /// the hash that `hasher` gives the key.
    pub open spec fn held_for(&self, hasher: spec_fn(Key) -> u64, key: Key) -> Option<Val> {
        self.value_of(key, hasher(key))
    }

    /// An insertion is read back: a search for the key finds the value that
    /// was inserted, whether or not the table was doubled in between; a
    /// search for another key finds what it found before; and the handle
    /// that the insertion returns names the value that the key had.
    pub proof fn law_insert_then_get(
        before: &Self,
        mid: &Self,
        after: &Self,
        hasher: spec_fn(Key) -> u64,
        key: Key,
        val: Val,
        previous: Option<Keep<Val>>,
        found: Option<Guard<Val>>,
    )
        requires
            before.wf(),
            before@.hashed_by(hasher),
            Self::inserts(before, mid, key, val, hasher(key), previous),
            mid.wf(),
            Self::finds(mid, after, key, hasher(key), found),
        ensures
            found is Some,
            after.vals().observed(&found->0) == val,
            mid.held_for(hasher, key) == Some(val),
            forall|other: Key| other != key ==> #[trigger] mid.held_for(hasher, other) == before.held_for(
                hasher,
                other,
            ),
            previous is Some <==> before.held_for(hasher, key) is Some,
            previous matches Some(keep) ==> Some(mid.vals().value(&keep)) == before.held_for(
                hasher,
                key,
            ),
            mid@.hashed_by(hasher),
            after@.hashed_by(hasher),
    {
        before.lemma_wf();
        mid.lemma_wf();
        let table = before.settled();
        let heap = before.vals()@;
        let link = heap.links.len() as usize;
        if before.resizing() {
            before@.law_resize_transparent(hasher, key);
            before@.lemma_migrated_links();
            assert(table.wf()) by {
                before@.lemma_migrated_wf();
            }
        }
        table.law_insert(hasher, key, link);
        heap.lemma_create_keeps(val);
        assert(mid@.find(hasher, key) == Some(link));
        if mid.resizing() {
            mid@.law_resize_transparent(hasher, key);
        }
        assert forall|other: Key| other != key implies #[trigger] mid.held_for(hasher, other)
            == before.held_for(hasher, other) by {
            if mid.resizing() {
                mid@.law_resize_transparent(hasher, other);
            }
            if before.resizing() {
                before@.law_resize_transparent(hasher, other);
            }
            let there = table.find(hasher, other);
            assert(mid.settled().find(hasher, other) == there);
            if there is Some {
                table.lemma_found_is_owned(other, hasher(other));
                if before.resizing() {
                    assert(before@.owns(there->0));
                }
                before@.lemma_owned_is_tenured(heap, there->0);
            }
        }
        if previous is Some {
            let held = table.lookup(key, hasher(key))->0;
            table.lemma_found_is_owned(key, hasher(key));
            if before.resizing() {
                assert(before@.owns(held));
            }
            before@.lemma_owned_is_tenured(heap, held);
        }
    }
}

} // verus!
