//! The order in which layers are made.
//!
//! A layer can be made once every layer that it is made from is there. The
//! resolver makes the first layer that can be made, strikes its key from the
//! needs of the others, and goes on until no layer is left, or until none of
//! those that are left can be made.
use crate::layer_context::LayerContext;
use crate::registry::{Registry, TypeKey};
use vstd::prelude::*;

verus! {

/// A layer that waits to be made: its key, and the keys that it still
/// waits for.
pub struct Need {
    pub id: TypeKey,
    pub deps: Seq<TypeKey>,
}

/// The keys of `deps` but `id`, in order.
pub open spec fn without(deps: Seq<TypeKey>, id: TypeKey) -> Seq<TypeKey>
    decreases deps.len(),
{
    if deps.len() == 0 {
        deps
    } else if deps.last() == id {
        without(deps.drop_last(), id)
    } else {
        without(deps.drop_last(), id).push(deps.last())
    }
}

/// The position of the first layer of `pending` that waits for nothing, or
/// the length of `pending` where each layer waits for some key.
pub open spec fn first_ready(pending: Seq<Need>) -> int
    decreases pending.len(),
{
    if pending.len() == 0 {
        0
    } else if pending[0].deps.len() == 0 {
        0
    } else {
        1 + first_ready(pending.subrange(1, pending.len() as int))
    }
}

/// `first_ready` is the least position that waits for nothing.
pub proof fn lemma_first_ready(pending: Seq<Need>)
    ensures
        0 <= first_ready(pending) <= pending.len(),
        first_ready(pending) < pending.len() ==> pending[first_ready(pending)].deps.len() == 0,
        forall|i: int| 0 <= i < first_ready(pending) ==> (#[trigger] pending[i]).deps.len() > 0,
    decreases pending.len(),
{
    if pending.len() > 0 && pending[0].deps.len() > 0 {
        let rest = pending.subrange(1, pending.len() as int);
        lemma_first_ready(rest);
        assert forall|i: int| 0 <= i < first_ready(pending) implies (#[trigger] pending[i]).deps.len()
            > 0 by {
            if i > 0 {
                assert(rest[i - 1] == pending[i]);
            }
        }
    }
}

/// The layers that still wait once the layer at `index` was made: the
/// others, none of which waits for its key any more.
pub open spec fn after_making(pending: Seq<Need>, index: int) -> Seq<Need> {
    let rest = pending.remove(index);
    Seq::new(
        rest.len(),
        |i: int| Need { id: rest[i].id, deps: without(rest[i].deps, pending[index].id) },
    )
}

/// Whether every layer of `pending` can be made, one after the other.
pub open spec fn resolvable(pending: Seq<Need>) -> bool
    decreases pending.len(),
{
    if pending.len() == 0 {
        true
    } else if first_ready(pending) < pending.len() {
        proof {
            lemma_first_ready(pending);
        }
        resolvable(after_making(pending, first_ready(pending)))
    } else {
        false
    }
}

/// A layer that waits, with its context.
#[verifier::reject_recursive_types(E)]
#[verifier::reject_recursive_types(Fault)]
#[verifier::reject_recursive_types(Res)]
struct Ctx<'a, E, Fault, Res> {
    layer: &'a LayerContext<E, Fault, Res>,
    deps: Vec<TypeKey>,
}

/// The layers that wait to be made, in the order in which they were added.
#[verifier::reject_recursive_types(E)]
#[verifier::reject_recursive_types(Fault)]
#[verifier::reject_recursive_types(Res)]
pub struct Resolver<'a, E, Fault, Res> {
    layers: Vec<Ctx<'a, E, Fault, Res>>,
}

/// Strikes `dep` from `deps`.
fn strike(deps: &mut Vec<TypeKey>, dep: TypeKey)
    ensures
        final(deps)@ == without(old(deps)@, dep),
{
    let mut kept: Vec<TypeKey> = Vec::new();
    let mut i: usize = 0;
    while i < deps.len()
        invariant
            i <= deps.len(),
            deps@ == old(deps)@,
            kept@ == without(deps@.take(i as int), dep),
        decreases deps.len() - i,
    {
        proof {
            assert(deps@.take(i + 1).drop_last() =~= deps@.take(i as int));
            assert(deps@.take(i + 1).last() == deps@[i as int]);
        }
        if deps[i] != dep {
            kept.push(deps[i]);
        }
        i += 1;
    }
    proof {
        assert(deps@.take(deps@.len() as int) =~= deps@);
    }
    *deps = kept;
}

impl<'a, E, Fault, Res> Resolver<'a, E, Fault, Res> {
    /// The layers that wait.
    pub closed spec fn view(&self) -> Seq<Need> {
        Seq::new(
            self.layers@.len(),
            |i: int| Need { id: self.layers@[i].layer.key(), deps: self.layers@[i].deps@ },
        )
    }

    /// A resolver without layers.
    pub fn new() -> (resolver: Self)
        ensures
            resolver@.len() == 0,
    {
        Resolver { layers: Vec::new() }
    }

    /// Adds the layer of `layer` to those that wait.
    pub fn add_ctx(self, layer: &'a LayerContext<E, Fault, Res>) -> (resolver: Self)
        ensures
            resolver@ == self@.push(Need { id: layer.key(), deps: layer.needs() }),
    {
        let mut resolver = self;
        resolver.layers.push(Ctx { layer, deps: layer.deps() });
        proof {
            assert(resolver@ =~= self@.push(Need { id: layer.key(), deps: layer.needs() }));
        }
        resolver
    }

    /// Makes the layers in order, each into the registry under its key, and
    /// returns the registry if every layer could be made.
    pub fn build_reg(self) -> (registry: Option<Registry<E, Fault, Res>>)
        ensures
            registry is Some <==> resolvable(self@),
            registry matches Some(reg) ==> reg.wf() && reg.count() <= self@.len(),
    {
        let mut reg = Registry::new();
        let mut this = self;
        let ghost start = self@;
        let total = this.layers.len();
        loop
            invariant
                reg.wf(),
                start == self@,
                start.len() == total,
                reg.count() + this@.len() <= start.len(),
                resolvable(this@) == resolvable(start),
            decreases this@.len(),
        {
            // the first layer that waits for nothing
            let mut i: usize = 0;
            while i < this.layers.len() && this.layers[i].deps.len() != 0
                invariant
                    i <= this.layers.len(),
                    forall|j: int| 0 <= j < i ==> (#[trigger] this@[j]).deps.len() > 0,
                decreases this.layers.len() - i,
            {
                proof {
                    assert(this@[i as int].deps.len() > 0);
                }
                i += 1;
            }
            proof {
                lemma_first_ready(this@);
                let at = first_ready(this@);
                if at < i {
                    assert(this@[at].deps.len() > 0);
                }
                if i < this@.len() && at > i {
                    assert(this@[i as int].deps.len() == 0);
                }
            }
            let resolved = if i < this.layers.len() {
                Some(i)
            } else {
                None
            };
            match resolved {
                Some(index) => {
                    let ghost before = this@;
                    // the layer leaves those that wait
                    let resolved_layer = this.layers.remove(index).layer;
                    let dep = resolved_layer.id();

                    // the others no longer wait for it
                    let mut k: usize = 0;
                    while k < this.layers.len()
                        invariant
                            k <= this.layers.len(),
                            this@.len() == before.len() - 1,
                            forall|j: int|
                                0 <= j < this@.len() ==> (#[trigger] this@[j]).id == before.remove(
                                    index as int,
                                )[j].id,
                            forall|j: int|
                                0 <= j < k ==> (#[trigger] this@[j]).deps == without(
                                    before.remove(index as int)[j].deps,
                                    dep,
                                ),
                            forall|j: int|
                                k <= j < this@.len() ==> (#[trigger] this@[j]).deps == before.remove(
                                    index as int,
                                )[j].deps,
                        decreases this.layers.len() - k,
                    {
                        let ghost held = this@;
                        strike(&mut this.layers[k].deps, dep);
                        proof {
                            assert forall|j: int| 0 <= j < this@.len() implies (#[trigger] this@[j]).id
                                == held[j].id && (j != k ==> this@[j].deps == held[j].deps) by {}
                        }
                        k += 1;
                    }
                    proof {
                        assert(dep == before[index as int].id);
                        assert(this@ =~= after_making(before, index as int));
                    }

                    // the layer is made
                    resolved_layer.insert_into_reg(&mut reg);
                },
                None => {
                    if this.layers.len() == 0 {
                        return Some(reg);
                    }
                    return None;
                },
            }
        }
    }
}

impl<'a, E, Fault, Res> Default for Resolver<'a, E, Fault, Res> {
    /// A resolver without layers.
    fn default() -> (resolver: Self)
        ensures
            resolver@.len() == 0,
    {
        Self::new()
    }
}

} // verus!
