//! What a layer does with an event.
use vstd::prelude::*;

verus! {

/// What no code outside this module can make a value of.
pub struct Unmade {
    never: (),
}

/// The event type of a registry that dispatches nothing: no value of it can
/// be made.
pub enum NoDispatch {
    Never(Unmade),
}

/// A layer that answers events of the type `E`.
pub trait LayerDispatch<E, Fault, Res> {
    /// Handles `event`.
    fn layer_dispatch(&self, event: &E) -> Result<Res, Fault>;
}

/// A layer that takes note of events of the type `E` and answers nothing.
pub trait SimpleDispatch<E> {
    /// Takes note of `event`. A layer that does not say otherwise ignores
    /// it.
    fn simple_dispatch(&self, _event: &E) {
    }
}

impl<T> SimpleDispatch<NoDispatch> for T {
    fn simple_dispatch(&self, _event: &NoDispatch) {
    }
}

impl<E, T: SimpleDispatch<E>> LayerDispatch<E, (), ()> for T {
    fn layer_dispatch(&self, event: &E) -> (result: Result<(), ()>)
        ensures
            result is Ok,
    {
        self.simple_dispatch(event);
        Ok(())
    }
}

} // verus!
