//! How a layer comes into a registry.
use crate::dispatch::LayerDispatch;
use crate::registry::{Boxed, Registry, TypeKey};
use std::marker::PhantomData;
use vstd::prelude::*;

verus! {

/// A layer that can be made from the layers that a registry holds.
pub trait LayerConstruct<E, Fault, Res>: Sized {
    /// Makes the layer. It may read the registry and holds it no longer
    /// than the call; it leaves the number of layers as it is.
    fn construct(registry: &mut Registry<E, Fault, Res>) -> (layer: Self)
        requires
            old(registry).wf(),
        ensures
            final(registry).wf(),
            final(registry).count() == old(registry).count(),
    ;
}

/// What makes a layer and hands it over boxed, whatever its type.
pub trait LayerConstructor<E, Fault, Res> {
    /// Makes the layer.
    fn build(&self, registry: &mut Registry<E, Fault, Res>) -> (layer: Boxed<E, Fault, Res>)
        requires
            old(registry).wf(),
        ensures
            final(registry).wf(),
            final(registry).count() == old(registry).count(),
    ;
}

/// The constructor of the layers of the type `T`.
pub struct Construct<T> {
    of: PhantomData<T>,
}

impl<E, Fault, Res, T> LayerConstructor<E, Fault, Res> for Construct<T> where
    T: LayerConstruct<E, Fault, Res> + LayerDispatch<E, Fault, Res> + 'static,
 {
    fn build(&self, registry: &mut Registry<E, Fault, Res>) -> (layer: Boxed<E, Fault, Res>) {
        Boxed { layer: Box::new(T::construct(registry)) }
    }
}

/// What a resolver has to know of a layer: its key, the keys of the layers
/// that it is made from, and how it is made.
#[verifier::reject_recursive_types(E)]
#[verifier::reject_recursive_types(Fault)]
#[verifier::reject_recursive_types(Res)]
pub struct LayerContext<E, Fault, Res> {
    type_id: TypeKey,
    deps: Vec<TypeKey>,
    constructor: Box<dyn LayerConstructor<E, Fault, Res>>,
}

impl<E, Fault, Res> LayerContext<E, Fault, Res> {
    /// The key of the layer.
    pub closed spec fn key(&self) -> TypeKey {
        self.type_id
    }

    /// The keys of the layers that the layer is made from.
    pub closed spec fn needs(&self) -> Seq<TypeKey> {
        self.deps@
    }

    /// The context of the layers of the type `C`, which are made from the
    /// layers with the keys `deps`.
    pub fn new<C>(deps: Vec<TypeKey>) -> (context: Self) where
        C: LayerConstruct<E, Fault, Res> + LayerDispatch<E, Fault, Res> + 'static,

        ensures
            context.needs() == deps@,
    {
        let constructor: Box<dyn LayerConstructor<E, Fault, Res>> = Box::new(
            Construct::<C> { of: PhantomData },
        );
        LayerContext { type_id: TypeKey::of::<C>(), deps, constructor }
    }

    /// What making a layer and putting it under `key`, with the hash
    /// `hash`, makes of the registry `before`: the constructor leaves the
    /// registry `made`, in order and with as many layers as before, and the
    /// layer is put into that.
    pub open spec fn inserts(
        before: &Registry<E, Fault, Res>,
        made: &Registry<E, Fault, Res>,
        after: &Registry<E, Fault, Res>,
        key: TypeKey,
        hash: u64,
    ) -> bool {
        &&& made.wf()
        &&& made.count() == before.count()
        &&& Registry::puts(made, after, key, hash)
    }

    /// Makes the layer and puts it into `reg` under its key, in the place of
    /// the layer that stood there.
    pub fn insert_into_reg(&self, reg: &mut Registry<E, Fault, Res>)
        requires
            old(reg).wf(),
            old(reg).count() < usize::MAX,
        ensures
            final(reg).wf(),
            exists|made: Registry<E, Fault, Res>, hash: u64| #[trigger]
                Self::inserts(old(reg), &made, final(reg), self.key(), hash),
            exists|hash: u64| #[trigger] final(reg).map()@.has(self.key(), hash),
            old(reg).count() <= final(reg).count() <= old(reg).count() + 1,
    {
        let boxed = self.constructor.build(reg);
        let ghost made = *reg;
        reg.insert_by(boxed.layer, self.type_id);
        proof {
            let after = *reg;
            let hash = choose|hash: u64| #[trigger] Registry::puts(&made, &after, self.type_id, hash);
            assert(Self::inserts(old(reg), &made, &after, self.key(), hash));
            // the layer stands under its key
            made.map().lemma_wf();
            let table = made.map().settled();
            if made.map().resizing() {
                made.map()@.lemma_migrated_wf();
            }
            table.lemma_inserted(
                crate::entry::Slot {
                    key: self.type_id,
                    hash,
                    link: made.map().vals()@.links.len() as usize,
                },
            );
            assert(after.map()@.has(self.key(), hash));
        }
    }

    /// The keys of the layers that the layer is made from.
    pub fn deps(&self) -> (deps: Vec<TypeKey>)
        ensures
            deps@ == self.needs(),
    {
        let mut deps: Vec<TypeKey> = Vec::new();
        let mut i: usize = 0;
        while i < self.deps.len()
            invariant
                i <= self.deps.len(),
                deps@ == self.deps@.take(i as int),
            decreases self.deps.len() - i,
        {
            deps.push(self.deps[i]);
            proof {
                assert(self.deps@.take(i + 1) =~= self.deps@.take(i as int).push(self.deps@[i as int]));
            }
            i += 1;
        }
        proof {
            assert(self.deps@.take(self.deps@.len() as int) =~= self.deps@);
        }
        deps
    }

    /// The key of the layer.
    pub fn id(&self) -> (id: TypeKey)
        ensures
            id == self.key(),
    {
        self.type_id
    }
}

} // verus!
