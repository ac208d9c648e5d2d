//! The registry of layers, one for each type.
use crate::dispatch::LayerDispatch;
use crate::entry::{key_model, Slot};
use crate::guard::Guard;
use crate::map::PlugMap;
use crate::table::{lemma_total_take, total, TableIter, TableState};
use std::any::TypeId;
use vstd::prelude::*;
use vstd::std_specs::cmp::PartialEqSpecImpl;

verus! {

/// `std::any::TypeId`, the identifier of a type: a value that is carried
/// along and compared, and of which nothing else is known here.
#[verifier::external_type_specification]
#[verifier::external_body]
pub struct ExTypeId(TypeId);

/// Calls `TypeId::of`, which gives the identifier of the type `T`. Nothing
/// is claimed of the result.
#[verifier::external_body]
fn type_id_of<T: 'static>() -> (id: TypeId) {
    TypeId::of::<T>()
}

/// Calls `==` of `TypeId`. The claim is that two identifiers compare equal
/// exactly if they are the same value.
#[verifier::external_body]
fn same_type(a: &TypeId, b: &TypeId) -> (same: bool)
    ensures
        same == (*a == *b),
{
    a == b
}

/// The identifier of a type, as the key of a layer.
#[derive(Clone, Copy, Hash)]
pub struct TypeKey {
    id: TypeId,
}

impl PartialEq for TypeKey {
    fn eq(&self, other: &Self) -> (same: bool) {
        same_type(&self.id, &other.id)
    }
}

impl PartialEqSpecImpl for TypeKey {
    open spec fn obeys_eq_spec() -> bool {
        true
    }

    open spec fn eq_spec(&self, other: &Self) -> bool {
        *self == *other
    }
}

impl Eq for TypeKey {

}

impl TypeKey {
    /// The key of the type `T`.
    pub fn of<T: 'static>() -> (key: Self) {
        TypeKey { id: type_id_of::<T>() }
    }
}

/// A layer of any type, boxed.
#[verifier::reject_recursive_types(E)]
#[verifier::reject_recursive_types(Fault)]
#[verifier::reject_recursive_types(Res)]
pub struct Boxed<E, Fault, Res> {
    pub layer: Box<dyn LayerDispatch<E, Fault, Res>>,
}

impl<E, Fault, Res> Boxed<E, Fault, Res> {
    /// Hands `event` to the layer.
    pub fn dispatch(&self, event: &E) -> Result<Res, Fault> {
        (*self.layer).layer_dispatch(event)
    }
}

/// A read of a layer in the registry.
pub type Layer<E, Fault, Res> = Guard<Boxed<E, Fault, Res>>;

/// The layers of a program, each under the key of its type.
#[verifier::reject_recursive_types(E)]
#[verifier::reject_recursive_types(Fault)]
#[verifier::reject_recursive_types(Res)]
pub struct Registry<E, Fault, Res> {
    map: PlugMap<TypeKey, Boxed<E, Fault, Res>>,
}

/// The buckets between `from` and the next bucket that is not empty hold
/// nothing.
pub proof fn lemma_next_busy<Key>(table: TableState<Key>, from: int)
    requires
        0 <= from <= table.buckets.len(),
    ensures
        from <= table.next_busy(from) <= table.buckets.len(),
        total(table.buckets.take(table.next_busy(from))) == total(table.buckets.take(from)),
        table.next_busy(from) < table.buckets.len() ==> table.buckets[table.next_busy(from)].len() > 0,
    decreases table.buckets.len() - from,
{
    if from < table.buckets.len() && table.buckets[from].len() == 0 {
        lemma_next_busy(table, from + 1);
        assert(table.buckets.take(from + 1).drop_last() =~= table.buckets.take(from));
    }
}

impl<E, Fault, Res> Registry<E, Fault, Res> {
    /// The map of the layers.
    pub closed spec fn map(&self) -> PlugMap<TypeKey, Boxed<E, Fault, Res>> {
        self.map
    }

    /// The registry is in order.
    pub open spec fn wf(&self) -> bool {
        self.map().wf()
    }

    /// The number of layers.
    pub open spec fn count(&self) -> nat {
        self.map()@.count
    }

    /// What putting a layer under `key`, with the hash `hash`, makes of the
    /// registry `before`: the layer stands under the key, in a cell of its
    /// own, and the cell of the layer that stood there has one handle less.
    pub open spec fn puts(before: &Self, after: &Self, key: TypeKey, hash: u64) -> bool {
        let table = before.map().settled();
        let heap = before.map().vals()@;
        &&& after.map()@ == table.inserted(Slot { key, hash, link: heap.links.len() as usize })
        &&& after.map().vals()@.links == heap.links.push(heap.cells.len() as usize)
        &&& after.map().vals()@.cells.len() == heap.cells.len() + 1
        &&& forall|c: int|
            0 <= c < heap.cells.len() ==> #[trigger] after.map().vals()@.cells[c] == if table.lookup(
                key,
                hash,
            ) == Some(c as usize) {
                heap.cells[c].retire()
            } else {
                heap.cells[c]
            }
        &&& after.map().resizing() == (!table.has(key, hash) && after.map()@.crowded()
            && after.map()@.size < crate::table::MAX_SIZE)
    }


    /// A registry without layers.
    pub fn new() -> (registry: Self)
        ensures
            registry.wf(),
            registry.count() == 0,
            !registry.map().resizing(),
    {
        Registry { map: PlugMap::new() }
    }

    /// The number of layers.
    pub fn len(&self) -> (count: usize)
        ensures
            count == self.count(),
    {
        self.map.len()
    }

    /// Puts `layer` under the key `type_id`, in the place of the layer that
    /// was there.
    pub fn insert_by(&mut self, layer: Box<dyn LayerDispatch<E, Fault, Res>>, type_id: TypeKey)
        requires
            old(self).wf(),
            old(self).count() < usize::MAX,
        ensures
            final(self).wf(),
            exists|hash: u64| #[trigger] Self::puts(old(self), final(self), type_id, hash),
            old(self).count() <= final(self).count() <= old(self).count() + 1,
    {
        proof {
            self.map.lemma_wf();
            if self.map.resizing() {
                self.map@.lemma_migrated_count();
            }
        }
        let ghost before = self.map;
        let boxed = Boxed { layer };
        let previous = self.map.insert(type_id, boxed);
        let ghost mid = self.map;
        let ghost hash = choose|hash: u64| #[trigger]
            PlugMap::<TypeKey, Boxed<E, Fault, Res>>::inserts(
                &before,
                &mid,
                type_id,
                boxed,
                hash,
                previous,
            );
        proof {
            mid.lemma_wf();
            assert(mid.vals()@ == before.vals()@.create(boxed));
            assert(mid.vals()@.cells.len() == before.vals()@.cells.len() + 1);
            before.vals()@.lemma_create_keeps(boxed);
            if previous is Some {
                mid.vals()@.lemma_unlink_keeps(previous->0.link());
            }
        }
        match previous {
            Some(keep) => {
                self.map.discard(keep);
            },
            None => {},
        }
        proof {
            let then = *old(self);
            let now = *self;
            assert(Self::puts(&then, &now, type_id, hash));
        }
    }

    /// Puts `layer` under the key of its type.
    pub fn insert<T: LayerDispatch<E, Fault, Res> + 'static>(&mut self, layer: T)
        requires
            old(self).wf(),
            old(self).count() < usize::MAX,
        ensures
            final(self).wf(),
            exists|key: TypeKey, hash: u64| #[trigger] Self::puts(old(self), final(self), key, hash),
            old(self).count() <= final(self).count() <= old(self).count() + 1,
    {
        let boxed: Box<dyn LayerDispatch<E, Fault, Res>> = Box::new(layer);
        self.insert_by(boxed, TypeKey::of::<T>());
    }

    /// Looks for the layer under the key `type_id` and starts a read of it.
    pub fn get_by(&mut self, type_id: &TypeKey) -> (found: Option<Layer<E, Fault, Res>>)
        requires
            old(self).wf(),
        ensures
            final(self).wf(),
            exists|hash: u64| #[trigger]
                PlugMap::<TypeKey, Boxed<E, Fault, Res>>::finds(
                    &old(self).map(),
                    &final(self).map(),
                    *type_id,
                    hash,
                    found,
                ),
    {
        let ghost before = self.map;
        let found = self.map.get(type_id);
        let ghost after = self.map;
        proof {
            let hash = choose|hash: u64| #[trigger]
                PlugMap::<TypeKey, Boxed<E, Fault, Res>>::finds(
                    &before,
                    &after,
                    *type_id,
                    hash,
                    found,
                );
            assert(PlugMap::<TypeKey, Boxed<E, Fault, Res>>::finds(
                &old(self).map(),
                &self.map(),
                *type_id,
                hash,
                found,
            ));
        }
        found
    }

    /// Looks for the layer of the type `T` and starts a read of it.
    pub fn get<T: 'static>(&mut self) -> (found: Option<Layer<E, Fault, Res>>)
        requires
            old(self).wf(),
        ensures
            final(self).wf(),
            exists|key: TypeKey, hash: u64| #[trigger]
                PlugMap::<TypeKey, Boxed<E, Fault, Res>>::finds(
                    &old(self).map(),
                    &final(self).map(),
                    key,
                    hash,
                    found,
                ),
    {
        let key = TypeKey::of::<T>();
        self.get_by(&key)
    }

    /// The layer that `guard` observes.
    pub fn layer<'a>(&'a self, guard: &Layer<E, Fault, Res>) -> (layer: &'a Boxed<E, Fault, Res>)
        requires
            self.wf(),
            self.map().vals().holds(guard),
        ensures
            *layer == self.map().vals().observed(guard),
    {
        proof {
            self.map.lemma_wf();
        }
        guard.deref(self.map.heap())
    }

    /// Ends the read `guard`: its slot is cleared, and the layer that it
    /// observed is freed if no layer stands in its place any more and no
    /// other read observes it.
    pub fn release(&mut self, guard: Layer<E, Fault, Res>)
        requires
            old(self).wf(),
            old(self).map().vals().holds(&guard),
        ensures
            final(self).wf(),
            final(self).map()@ == old(self).map()@,
            final(self).map().resizing() == old(self).map().resizing(),
            final(self).map().vals()@ == old(self).map().vals()@.step_cell(
                guard.cell(),
                old(self).map().vals()@.cells[guard.cell() as int].release(guard.addr(), guard.slot()),
            ),
            !final(self).map().vals().holds(&guard),
    {
        proof {
            self.map.lemma_wf();
            let cell = self.map.vals()@.cells[guard.cell() as int];
            cell.lemma_released_is_free(guard.addr(), guard.slot());
        }
        self.map.release(guard);
    }

    /// Hands `event` to every layer, bucket by bucket, and collects the
    /// answers: one for each layer.
    pub fn dispatch(&mut self, event: &E) -> (results: Vec<Result<Res, Fault>>)
        requires
            old(self).wf(),
        ensures
            final(self).wf(),
            final(self).map()@ == old(self).map()@,
            final(self).map().resizing() == old(self).map().resizing(),
            results@.len() == old(self).count(),
    {
        let mut results: Vec<Result<Res, Fault>> = Vec::new();
        let mut iter = self.map.iter();
        let ghost table = self.map@;
        proof {
            self.map.lemma_wf();
            assert(table.buckets.take(0) =~= Seq::empty());
        }
        loop
            invariant
                self.wf(),
                self.map()@ == table,
                table == old(self).map()@,
                table.wf(),
                self.map().resizing() == old(self).map().resizing(),
                iter.held_in(&self.map().vals()),
                iter.position() <= table.buckets.len(),
                results@.len() + iter.pending().len() == total(
                    table.buckets.take(iter.position() as int),
                ),
            ensures
                self.wf(),
                self.map()@ == table,
                self.map().resizing() == old(self).map().resizing(),
                results@.len() == table.count,
            decreases table.buckets.len() - iter.position(), iter.pending().len(),
        {
            let ghost before = iter;
            let ghost heap = self.map.vals();
            proof {
                lemma_next_busy(table, iter.position() as int);
            }
            match self.map.next(&mut iter) {
                None => {
                    proof {
                        assert(table.buckets.take(table.buckets.len() as int) =~= table.buckets);
                    }
                    break ;
                },
                Some(layer) => {
                    proof {
                        self.map.lemma_wf();
                        if before.pending().len() == 0 {
                            let b = table.next_busy(before.position() as int);
                            assert(table.buckets.take(b + 1).drop_last() =~= table.buckets.take(b));
                        } else {
                            assert(self.map.vals().holds(&layer));
                        }
                    }
                    let boxed = layer.deref(self.map.heap());
                    results.push(boxed.dispatch(event));
                    let ghost kept = self.map.vals()@;
                    proof {
                        kept.lemma_release_keeps(layer.cell(), layer.addr(), layer.slot());
                    }
                    self.map.release(layer);
                    proof {
                        assert forall|j: int| 0 <= j < iter.pending().len() implies self.map().vals().holds(
                            #[trigger] &iter.pending()[j],
                        ) by {
                            let other = iter.pending()[j];
                            assert(!crate::guard::same_read(layer, other));
                            assert(kept.cells[other.cell() as int].held(other.addr(), other.slot()));
                        }
                    }
                },
            }
        }
        results
    }
}

impl<E, Fault, Res> Default for Registry<E, Fault, Res> {
    /// A registry without layers.
    fn default() -> (registry: Self)
        ensures
            registry.wf(),
            registry.count() == 0,
            !registry.map().resizing(),
    {
        Self::new()
    }
}

} // verus!
