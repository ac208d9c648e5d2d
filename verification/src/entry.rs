//! Bucket chains of the map.
//!
//! A bucket is empty or holds a chain of nodes in the order of insertion.
//! A node has a key that never changes, the hash that the key came with, and
//! a handle to the cell that holds the value. A key stands at most once in a
//! chain: inserting it again puts another value cell under the node that is
//! there, and hands the handle that the node held back to the caller.
use crate::guard::{same_read, Guard};
use crate::heaped::Heaped;
use crate::keep::{Arena, ArenaState, Keep};
use std::sync::Arc;
use vstd::prelude::*;
use vstd::std_specs::cmp::PartialEqSpec;

verus! {

/// What a node says of itself: its key, its hash, and the link through which
/// it names its value cell.
pub struct Slot<Key> {
    pub key: Key,
    pub hash: u64,
    pub link: usize,
}

/// Keys are compared with `==`, and `==` on keys is equality.
pub open spec fn key_model<Key: PartialEq>() -> bool {
    &&& Key::obeys_eq_spec()
    &&& forall|a: Key, b: Key| #[trigger] a.eq_spec(&b) <==> a == b
}

/// The position of the first node of `chain` with the key `key`, or the
/// length of the chain where no node has it.
pub open spec fn position<Key>(chain: Seq<Slot<Key>>, key: Key) -> int
    decreases chain.len(),
{
    if chain.len() == 0 {
        0
    } else if chain[0].key == key {
        0
    } else {
        1 + position(chain.subrange(1, chain.len() as int), key)
    }
}

/// No key stands twice in `chain`.
pub open spec fn distinct_keys<Key>(chain: Seq<Slot<Key>>) -> bool {
    forall|i: int, j: int|
        0 <= i < j < chain.len() ==> (#[trigger] chain[i]).key != (#[trigger] chain[j]).key
}

/// The chain after `slot` was inserted: under the node with the same key
/// where there is one, which keeps its key and its hash; at the end
/// otherwise.
pub open spec fn with_slot<Key>(chain: Seq<Slot<Key>>, slot: Slot<Key>) -> Seq<Slot<Key>> {
    let at = position(chain, slot.key);
    if at < chain.len() {
        chain.update(at, Slot { link: slot.link, ..chain[at] })
    } else {
        chain.push(slot)
    }
}

/// `position` is the least position with the key.
pub proof fn lemma_position<Key>(chain: Seq<Slot<Key>>, key: Key)
    ensures
        0 <= position(chain, key) <= chain.len(),
        position(chain, key) < chain.len() ==> chain[position(chain, key)].key == key,
        forall|i: int| 0 <= i < position(chain, key) ==> (#[trigger] chain[i]).key != key,
    decreases chain.len(),
{
    if chain.len() > 0 && chain[0].key != key {
        let rest = chain.subrange(1, chain.len() as int);
        lemma_position(rest, key);
        assert forall|i: int| 0 <= i < position(chain, key) implies (#[trigger] chain[i]).key
            != key by {
            if i > 0 {
                assert(rest[i - 1] == chain[i]);
            }
        }
    }
}

/// Inserting keeps the keys of a chain distinct, and leaves every node but
/// the one with the key as it was.
pub proof fn lemma_with_slot<Key>(chain: Seq<Slot<Key>>, slot: Slot<Key>)
    requires
        distinct_keys(chain),
    ensures
        distinct_keys(with_slot(chain, slot)),
        position(with_slot(chain, slot), slot.key) == position(chain, slot.key),
        position(chain, slot.key) < with_slot(chain, slot).len(),
        with_slot(chain, slot)[position(chain, slot.key)].link == slot.link,
        with_slot(chain, slot)[position(chain, slot.key)].key == slot.key,
        forall|key: Key|
            key != slot.key ==> #[trigger] position(with_slot(chain, slot), key) == (if position(
                chain,
                key,
            ) < chain.len() {
                position(chain, key)
            } else {
                with_slot(chain, slot).len() as int
            }),
        forall|i: int|
            0 <= i < chain.len() && i != position(chain, slot.key) ==> #[trigger] with_slot(
                chain,
                slot,
            )[i] == chain[i],
{
    let at = position(chain, slot.key);
    let after = with_slot(chain, slot);
    lemma_position(chain, slot.key);
    assert forall|i: int, j: int| 0 <= i < j < after.len() implies (#[trigger] after[i]).key != (
    #[trigger] after[j]).key by {
        if j < chain.len() {
            assert(chain[i].key != chain[j].key);
        } else {
            assert(chain[i].key != slot.key);
        }
    }
    lemma_position(after, slot.key);
    let back = position(after, slot.key);
    if back < at {
        assert(after[back].key == chain[back].key);
    }
    if back > at {
        assert(after[at].key == slot.key);
    }
    assert forall|key: Key| key != slot.key implies #[trigger] position(after, key) == (if position(
        chain,
        key,
    ) < chain.len() {
        position(chain, key)
    } else {
        after.len() as int
    }) by {
        lemma_position(chain, key);
        lemma_position(after, key);
        let p = position(chain, key);
        let q = position(after, key);
        if q < after.len() {
            if q < chain.len() {
                assert(after[q].key == chain[q].key);
                if p > q {
                    assert(chain[q].key != key);
                }
            }
        }
        if p < chain.len() {
            assert(after[p].key == chain[p].key);
            if q > p {
                assert(after[p].key != key);
            }
        }
    }
}

/// How `position` and `with_slot` go on behind a first node with another key.
pub proof fn lemma_chain_step<Key>(chain: Seq<Slot<Key>>, slot: Slot<Key>)
    requires
        chain.len() > 0,
        chain[0].key != slot.key,
    ensures
        position(chain, slot.key) == 1 + position(chain.subrange(1, chain.len() as int), slot.key),
        with_slot(chain, slot) == seq![chain[0]] + with_slot(
            chain.subrange(1, chain.len() as int),
            slot,
        ),
{
    let rest = chain.subrange(1, chain.len() as int);
    lemma_position(rest, slot.key);
    assert(with_slot(chain, slot) =~= seq![chain[0]] + with_slot(rest, slot));
}

/// One node of a bucket chain, with the nodes that follow it.
pub struct EntryNode<Key, Val> {
    val: Keep<Val>,
    key: Arc<Key>,
    hash: u64,
    next: Option<Box<EntryNode<Key, Val>>>,
}

/// A bucket: empty, or the first node of its chain.
pub enum Entry<Key, Val> {
    Empty,
    Head(EntryNode<Key, Val>),
}

impl<Key, Val> EntryNode<Key, Val> {
    /// What this node says of itself.
    pub closed spec fn slot(&self) -> Slot<Key> {
        Slot { key: *self.key, hash: self.hash, link: self.val.link() }
    }

    /// The chain from this node on.
    pub closed spec fn view(&self) -> Seq<Slot<Key>>
        decreases self,
    {
        match self.next {
            Some(next) => seq![self.slot()] + next.view(),
            None => seq![self.slot()],
        }
    }

    /// A chain has at least one node, and it starts with this one.
    pub proof fn lemma_view(&self)
        ensures
            self@.len() >= 1,
            self@[0] == self.slot(),
    {
    }
}

/// Whether some node of `chain` names its value cell through `link`.
pub open spec fn has_link<Key>(chain: Seq<Slot<Key>>, link: usize) -> bool {
    exists|i: int| 0 <= i < chain.len() && (#[trigger] chain[i]).link == link
}

/// No link stands twice in `chain`.
pub open spec fn distinct_links<Key>(chain: Seq<Slot<Key>>) -> bool {
    forall|i: int, j: int|
        0 <= i < j < chain.len() ==> (#[trigger] chain[i]).link != (#[trigger] chain[j]).link
}

/// Every link of `chain` names a cell that some handle counts on.
pub open spec fn all_live<Key, Val>(chain: Seq<Slot<Key>>, vals: ArenaState<Val>) -> bool {
    forall|i: int| 0 <= i < chain.len() ==> vals.live((#[trigger] chain[i]).link)
}

impl<Key: PartialEq, Val> EntryNode<Key, Val> {
    /// The handle to the value cell.
    #[inline]
    pub fn value(&self) -> (val: &Keep<Val>)
        ensures
            val.link() == self@[0].link,
    {
        &self.val
    }

    /// The node that follows, if there is one.
    #[inline]
    pub fn next(&self) -> (next: Option<&EntryNode<Key, Val>>)
        ensures
            match next {
                Some(node) => node@ == self@.subrange(1, self@.len() as int),
                None => self@.len() == 1,
            },
    {
        match &self.next {
            Some(node) => {
                proof {
                    node.lemma_view();
                    assert((seq![self.slot()] + node@).subrange(1, self@.len() as int) =~= node@);
                }
                Some(&**node)
            },
            None => None,
        }
    }

    /// The hash that the key came with.
    #[inline]
    pub fn hash(&self) -> (hash: u64)
        ensures
            hash == self@[0].hash,
    {
        self.hash
    }

    /// The key.
    #[inline]
    pub fn key(&self) -> (key: &Key)
        ensures
            *key == self@[0].key,
    {
        &*self.key
    }

    /// A node of its own with the same key, hash and value cell, and nothing
    /// after it. The value cell counts one handle more.
    pub fn clone_striped(&self, vals: &mut Arena<Val>) -> (twin: Self)
        requires
            old(vals).wf(),
            old(vals)@.live(self@[0].link),
            old(vals)@.cell_of(self@[0].link).accessors < usize::MAX,
        ensures
            final(vals).wf(),
            final(vals)@ == old(vals)@.step(
                self@[0].link,
                old(vals)@.cell_of(self@[0].link).register(),
            ),
            twin@ == seq![self@[0]],
    {
        EntryNode { val: self.val.clone(vals), key: self.key.clone(), hash: self.hash, next: None }
    }

    /// A node for `key` with a value cell of its own around `val`.
    pub fn new<H: Heaped<Val>>(vals: &mut Arena<Val>, key: Key, val: H, hash: u64) -> (node: Self)
        requires
            old(vals).wf(),
            val.pointee() is Some,
        ensures
            final(vals).wf(),
            final(vals)@ == old(vals)@.create(val.pointee()->0),
            node@ == seq![Slot { key, hash, link: old(vals)@.links.len() as usize }],
    {
        EntryNode { val: Keep::new(vals, val), key: Arc::new(key), hash, next: None }
    }

    /// Inserts `node` into the chain.
    ///
    /// Where a node of the chain has the same key, that node takes over the
    /// value cell of `node`, and the handle that it held before is returned.
    /// Otherwise `node` becomes the last node and `None` is returned. The
    /// arena is left as it was either way.
    pub fn update(&mut self, node: EntryNode<Key, Val>, vals: &mut Arena<Val>) -> (previous: Option<
        Keep<Val>,
    >)
        requires
            key_model::<Key>(),
            old(vals).wf(),
            node@.len() == 1,
            old(vals)@.live(node@[0].link),
            position(old(self)@, node@[0].key) < old(self)@.len() ==> old(vals)@.cell_of(
                node@[0].link,
            ).accessors < usize::MAX,
        ensures
            final(vals).wf(),
            final(vals)@ == old(vals)@,
            final(self)@ == with_slot(old(self)@, node@[0]),
            match previous {
                Some(keep) => {
                    &&& position(old(self)@, node@[0].key) < old(self)@.len()
                    &&& keep.link() == old(self)@[position(old(self)@, node@[0].key)].link
                },
                None => position(old(self)@, node@[0].key) == old(self)@.len(),
            },
        decreases *old(self),
    {
        proof {
            node.lemma_view();
            self.lemma_view();
        }
        if *self.key == *node.key {
            let held = self.val.clone_from(vals, &node.val);
            node.val.destroy(vals);
            proof {
                let link = node@[0].link;
                let cell = old(vals)@.cell_of(link);
                assert(cell.register().unregister() == cell);
                assert(vals@.cells =~= old(vals)@.cells);
                assert(self@ =~= with_slot(old(self)@, node@[0]));
            }
            return Some(held);
        }
        let ghost rest = old(self)@.subrange(1, old(self)@.len() as int);
        match self.next.take() {
            None => {
                proof {
                    assert(rest =~= Seq::empty());
                }
                self.next = Some(Box::new(node));
                proof {
                    lemma_chain_step(old(self)@, node@[0]);
                    assert(with_slot(rest, node@[0]) =~= node@);
                    assert(self@ =~= with_slot(old(self)@, node@[0]));
                }
                None
            },
            Some(mut boxed) => {
                proof {
                    boxed.lemma_view();
                    assert(rest =~= boxed@);
                    lemma_chain_step(old(self)@, node@[0]);
                }
                let previous = (&mut *boxed).update(node, vals);
                self.next = Some(boxed);
                proof {
                    lemma_position(rest, node@[0].key);
                    lemma_chain_step(old(self)@, node@[0]);
                    assert(self@ == seq![old(self)@[0]] + with_slot(rest, node@[0]));
                    if previous is Some {
                        let at = position(rest, node@[0].key);
                        assert(old(self)@[at + 1] == rest[at]);
                    }
                }
                previous
            },
        }
    }

    /// Looks for `key` in the chain and starts a read of its value.
    pub fn search(&self, key: &Key, vals: &mut Arena<Val>) -> (found: Option<Guard<Val>>)
        requires
            key_model::<Key>(),
            old(vals).wf(),
            all_live(self@, old(vals)@),
        ensures
            final(vals).wf(),
            match found {
                Some(guard) => {
                    let link = self@[position(self@, *key)].link;
                    &&& position(self@, *key) < self@.len()
                    &&& final(vals)@ == old(vals)@.step(link, old(vals)@.cell_of(link).load())
                    &&& final(vals).holds(&guard)
                    &&& final(vals).observed(&guard) == old(vals)@.cell_of(link).value()
                    &&& guard.cell() == old(vals)@.links[link as int]
                    &&& guard.addr() == old(vals)@.cell_of(link).current
                    &&& guard.slot() == old(vals)@.cell_of(link).next_slot()
                },
                None => position(self@, *key) == self@.len() && final(vals)@ == old(vals)@,
            },
        decreases self,
    {
        proof {
            self.lemma_view();
        }
        if *self.key == *key {
            assert(old(vals)@.live(self@[0].link));
            return Some(self.val.read(vals));
        }
        let ghost probe = Slot { key: *key, hash: 0, link: 0 };
        match &self.next {
            Some(next) => {
                proof {
                    next.lemma_view();
                    assert(self@.subrange(1, self@.len() as int) =~= next@);
                    assert forall|i: int| 0 <= i < next@.len() implies old(vals)@.live(
                        (#[trigger] next@[i]).link,
                    ) by {
                        assert(next@[i] == self@[i + 1]);
                    }
                    lemma_chain_step(self@, probe);
                    lemma_position(next@, *key);
                }
                let found = next.search(key, vals);
                proof {
                    if found is Some {
                        assert(self@[position(next@, *key) + 1] == next@[position(next@, *key)]);
                    }
                }
                found
            },
            None => {
                proof {
                    lemma_chain_step(self@, probe);
                    assert(self@.subrange(1, self@.len() as int) =~= Seq::empty());
                }
                None
            },
        }
    }
}

impl<Key: PartialEq, Val> EntryNode<Key, Val> {
    /// Starts a read of the value of each node of the chain, in chain
    /// order, and appends the guards to `buffer`.
    pub fn buffered(&self, buffer: &mut Vec<Guard<Val>>, vals: &mut Arena<Val>)
        requires
            old(vals).wf(),
            all_live(self@, old(vals)@),
        ensures
            final(vals).wf(),
            old(vals)@.links_kept(final(vals)@),
            old(vals)@.guards_kept(final(vals)@),
            old(vals)@.values_kept(final(vals)@),
            final(vals)@.links.len() == old(vals)@.links.len(),
            final(buffer)@.len() == old(buffer)@.len() + self@.len(),
            forall|j: int| 0 <= j < old(buffer)@.len() ==> final(buffer)@[j] == old(buffer)@[j],
            forall|i: int|
                0 <= i < self@.len() ==> {
                    let guard = #[trigger] final(buffer)@[old(buffer)@.len() + i];
                    &&& final(vals).holds(&guard)
                    &&& final(vals).observed(&guard) == old(vals)@.cell_of(self@[i].link).value()
                    &&& !old(vals)@.taken(guard.cell(), guard.slot())
                },
            forall|i: int, j: int|
                0 <= i < j < self@.len() ==> !same_read(
                    #[trigger] final(buffer)@[old(buffer)@.len() + i],
                    #[trigger] final(buffer)@[old(buffer)@.len() + j],
                ),
        decreases self,
    {
        proof {
            self.lemma_view();
            old(vals)@.lemma_read_keeps(self@[0].link);
        }
        let guard = self.val.read(vals);
        proof {
            assert(!old(vals)@.taken(guard.cell(), guard.slot()));
        }
        buffer.push(guard);
        let ghost mid = vals@;
        let ghost filled = buffer@;
        match &self.next {
            Some(next) => {
                proof {
                    next.lemma_view();
                    assert(self@.subrange(1, self@.len() as int) =~= next@);
                    assert forall|i: int| 0 <= i < next@.len() implies mid.live(
                        (#[trigger] next@[i]).link,
                    ) by {
                        assert(next@[i] == self@[i + 1]);
                        assert(old(vals)@.live(self@[i + 1].link));
                    }
                }
                next.buffered(buffer, vals);
                proof {
                    assert forall|i: int| 0 <= i < self@.len() implies {
                        let guard = #[trigger] buffer@[old(buffer)@.len() + i];
                        &&& vals.holds(&guard)
                        &&& vals.observed(&guard) == old(vals)@.cell_of(self@[i].link).value()
                        &&& !old(vals)@.taken(guard.cell(), guard.slot())
                    } by {
                        if i == 0 {
                            assert(buffer@[old(buffer)@.len() as int] == filled[old(
                                buffer,
                            )@.len() as int]);
                            assert(mid.cells[guard.cell() as int].held(guard.addr(), guard.slot()));
                        } else {
                            let later = buffer@[old(buffer)@.len() + i];
                            assert(later == buffer@[filled.len() + (i - 1)]);
                            assert(next@[i - 1] == self@[i]);
                            assert(old(vals)@.live(self@[i].link));
                            if old(vals)@.taken(later.cell(), later.slot()) {
                                old(vals)@.lemma_taken_kept(mid, later.cell(), later.slot());
                            }
                        }
                    }
                    assert forall|i: int, j: int| 0 <= i < j < self@.len() implies !same_read(
                        #[trigger] buffer@[old(buffer)@.len() + i],
                        #[trigger] buffer@[old(buffer)@.len() + j],
                    ) by {
                        let later = buffer@[old(buffer)@.len() + j];
                        assert(later == buffer@[filled.len() + (j - 1)]);
                        if i == 0 {
                            assert(buffer@[old(buffer)@.len() as int] == filled[old(
                                buffer,
                            )@.len() as int]);
                            assert(mid.taken(guard.cell(), guard.slot()));
                        } else {
                            assert(buffer@[old(buffer)@.len() + i] == buffer@[filled.len() + (i - 1)]);
                        }
                    }
                }
            },
            None => {},
        }
    }

    /// Gives up the value handle of each node of the chain.
    pub fn dispose(self, vals: &mut Arena<Val>)
        requires
            old(vals).wf(),
            old(vals)@.unswapped(),
            distinct_links(self@),
            all_live(self@, old(vals)@),
        ensures
            final(vals).wf(),
            final(vals)@.links == old(vals)@.links,
            final(vals)@.cells.len() == old(vals)@.cells.len(),
            forall|c: usize|
                c < old(vals)@.cells.len() ==> #[trigger] final(vals)@.cells[c as int] == if has_link(
                    self@,
                    c,
                ) {
                    old(vals)@.cells[c as int].retire()
                } else {
                    old(vals)@.cells[c as int]
                },
        decreases self,
    {
        proof {
            self.lemma_view();
            old(vals)@.lemma_unlink_keeps(self@[0].link);
        }
        let EntryNode { val, key, hash, next } = self;
        val.destroy(vals);
        let ghost mid = vals@;
        match next {
            Some(next) => {
                proof {
                    next.lemma_view();
                    assert(self@.subrange(1, self@.len() as int) =~= next@);
                    assert forall|i: int, j: int| 0 <= i < j < next@.len() implies (
                    #[trigger] next@[i]).link != (#[trigger] next@[j]).link by {
                        assert(next@[i] == self@[i + 1]);
                        assert(next@[j] == self@[j + 1]);
                    }
                    assert forall|i: int| 0 <= i < next@.len() implies mid.live(
                        (#[trigger] next@[i]).link,
                    ) by {
                        assert(next@[i] == self@[i + 1]);
                        assert(old(vals)@.live(self@[i + 1].link));
                        assert(self@[0].link != self@[i + 1].link);
                    }
                }
                (*next).dispose(vals);
                proof {
                    assert forall|c: usize| c < old(vals)@.cells.len() implies #[trigger] vals@.cells[c as int]
                        == if has_link(self@, c) {
                        old(vals)@.cells[c as int].retire()
                    } else {
                        old(vals)@.cells[c as int]
                    } by {
                        if c == self@[0].link {
                            assert(has_link(self@, c));
                            if has_link(next@, c) {
                                let i = choose|i: int|
                                    0 <= i < next@.len() && (#[trigger] next@[i]).link == c;
                                assert(next@[i] == self@[i + 1]);
                                assert(self@[0].link != self@[i + 1].link);
                            }
                        } else if has_link(next@, c) {
                            let i = choose|i: int|
                                0 <= i < next@.len() && (#[trigger] next@[i]).link == c;
                            assert(next@[i] == self@[i + 1]);
                            assert(has_link(self@, c));
                        } else {
                            if has_link(self@, c) {
                                let i = choose|i: int|
                                    0 <= i < self@.len() && (#[trigger] self@[i]).link == c;
                                assert(i > 0);
                                assert(next@[i - 1] == self@[i]);
                            }
                        }
                    }
                }
            },
            None => {
                proof {
                    assert forall|c: usize| c < old(vals)@.cells.len() implies #[trigger] vals@.cells[c as int]
                        == if has_link(self@, c) {
                        old(vals)@.cells[c as int].retire()
                    } else {
                        old(vals)@.cells[c as int]
                    } by {
                        if c == self@[0].link {
                            assert(has_link(self@, c));
                        } else if has_link(self@, c) {
                            let i = choose|i: int|
                                0 <= i < self@.len() && (#[trigger] self@[i]).link == c;
                            assert(i == 0);
                        }
                    }
                }
            },
        }
    }
}

impl<Key, Val> Entry<Key, Val> {
    /// The chain of the bucket, empty where the bucket is.
    pub closed spec fn view(&self) -> Seq<Slot<Key>> {
        match self {
            Entry::Empty => Seq::empty(),
            Entry::Head(head) => head@,
        }
    }

    /// A bucket with a head is not empty.
    pub proof fn lemma_view(&self)
        ensures
            self is Empty <==> self@.len() == 0,
            self matches Entry::Head(head) ==> self@ == head@,
    {
        if let Entry::Head(head) = self {
            head.lemma_view();
        }
    }
}

impl<Key: PartialEq, Val> Entry<Key, Val> {
    /// Looks for `key` in the bucket and starts a read of its value.
    pub fn search(&self, key: &Key, vals: &mut Arena<Val>) -> (found: Option<Guard<Val>>)
        requires
            key_model::<Key>(),
            old(vals).wf(),
            all_live(self@, old(vals)@),
        ensures
            final(vals).wf(),
            match found {
                Some(guard) => {
                    let link = self@[position(self@, *key)].link;
                    &&& position(self@, *key) < self@.len()
                    &&& final(vals)@ == old(vals)@.step(link, old(vals)@.cell_of(link).load())
                    &&& final(vals).holds(&guard)
                    &&& final(vals).observed(&guard) == old(vals)@.cell_of(link).value()
                    &&& guard.cell() == old(vals)@.links[link as int]
                    &&& guard.addr() == old(vals)@.cell_of(link).current
                    &&& guard.slot() == old(vals)@.cell_of(link).next_slot()
                },
                None => position(self@, *key) == self@.len() && final(vals)@ == old(vals)@,
            },
    {
        match self {
            Entry::Empty => None,
            Entry::Head(head) => head.search(key, vals),
        }
    }

    /// Takes the node with the key `key` out of the chain behind the head.
    ///
    /// Removal is defined for the empty bucket alone, where there is nothing
    /// to take out.
    pub fn remove_from_children(&self, key: &Key) -> (removed: Option<Keep<Val>>)
        requires
            self is Empty,
        ensures
            removed is None,
    {
        None
    }

    /// Inserts `node` into the bucket: as its head where the bucket is
    /// empty, into its chain otherwise.
    pub fn insert(self, node: EntryNode<Key, Val>, vals: &mut Arena<Val>) -> (result: (
        Self,
        Option<Keep<Val>>,
    ))
        requires
            key_model::<Key>(),
            old(vals).wf(),
            node@.len() == 1,
            old(vals)@.live(node@[0].link),
            position(self@, node@[0].key) < self@.len() ==> old(vals)@.cell_of(
                node@[0].link,
            ).accessors < usize::MAX,
        ensures
            final(vals).wf(),
            final(vals)@ == old(vals)@,
            result.0@ == with_slot(self@, node@[0]),
            match result.1 {
                Some(keep) => {
                    &&& position(self@, node@[0].key) < self@.len()
                    &&& keep.link() == self@[position(self@, node@[0].key)].link
                },
                None => position(self@, node@[0].key) == self@.len(),
            },
    {
        match self {
            Entry::Empty => {
                proof {
                    assert(with_slot(self@, node@[0]) =~= node@);
                }
                (Entry::Head(node), None)
            },
            Entry::Head(mut head) => {
                proof {
                    self.lemma_view();
                }
                let previous = head.update(node, vals);
                (Entry::Head(head), previous)
            },
        }
    }

    /// Starts a read of the value of each node of the bucket, in chain
    /// order.
    pub fn buffered(&self, vals: &mut Arena<Val>) -> (guards: Vec<Guard<Val>>)
        requires
            old(vals).wf(),
            all_live(self@, old(vals)@),
        ensures
            final(vals).wf(),
            old(vals)@.links_kept(final(vals)@),
            old(vals)@.guards_kept(final(vals)@),
            old(vals)@.values_kept(final(vals)@),
            final(vals)@.links.len() == old(vals)@.links.len(),
            self@.len() == 0 ==> final(vals)@ == old(vals)@,
            guards@.len() == self@.len(),
            forall|i: int|
                0 <= i < self@.len() ==> {
                    let guard = #[trigger] guards@[i];
                    &&& final(vals).holds(&guard)
                    &&& final(vals).observed(&guard) == old(vals)@.cell_of(self@[i].link).value()
                    &&& !old(vals)@.taken(guard.cell(), guard.slot())
                },
            forall|i: int, j: int|
                0 <= i < j < self@.len() ==> !same_read(#[trigger] guards@[i], #[trigger] guards@[j]),
    {
        let mut ret: Vec<Guard<Val>> = Vec::new();
        proof {
            self.lemma_view();
        }
        if let Entry::Head(head) = self {
            head.buffered(&mut ret, vals);
            proof {
                assert forall|i: int| 0 <= i < self@.len() implies {
                    let guard = #[trigger] ret@[i];
                    &&& vals.holds(&guard)
                    &&& vals.observed(&guard) == old(vals)@.cell_of(self@[i].link).value()
                    &&& !old(vals)@.taken(guard.cell(), guard.slot())
                } by {
                    assert(ret@[i] == ret@[0 + i]);
                }
                assert forall|i: int, j: int| 0 <= i < j < self@.len() implies !same_read(
                    #[trigger] ret@[i],
                    #[trigger] ret@[j],
                ) by {
                    assert(ret@[i] == ret@[0 + i]);
                    assert(ret@[j] == ret@[0 + j]);
                }
            }
        }
        ret
    }

    /// Gives up the value handle of each node of the bucket.
    pub fn dispose(self, vals: &mut Arena<Val>)
        requires
            old(vals).wf(),
            old(vals)@.unswapped(),
            distinct_links(self@),
            all_live(self@, old(vals)@),
        ensures
            final(vals).wf(),
            final(vals)@.links == old(vals)@.links,
            final(vals)@.cells.len() == old(vals)@.cells.len(),
            forall|c: usize|
                c < old(vals)@.cells.len() ==> #[trigger] final(vals)@.cells[c as int] == if has_link(
                    self@,
                    c,
                ) {
                    old(vals)@.cells[c as int].retire()
                } else {
                    old(vals)@.cells[c as int]
                },
    {
        match self {
            Entry::Empty => {},
            Entry::Head(head) => {
                head.dispose(vals);
            },
        }
    }
}

} // verus!
