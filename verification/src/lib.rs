//! A reclamation kernel for shared cells, and the containers built on it.
//!
//! A cell publishes one value at a time. Readers take a [`Guard`] on the value
//! that is current when they look; writers replace the value; a replaced value
//! is freed once no guard observes it any more, and never twice.
//!
//! Every cell lives in an [`Arena`] and is named by index, so a handle never
//! dangles into reused memory. Each operation is one step against the arena:
//! a history of steps in any order is an interleaving, and the contracts hold
//! of every one of them.
//!
//! * The kernel: [`heaped`], [`alist`], [`tracked_atomic`], [`guard`] and
//!   [`keep`], with the state machine of one cell in [`cell_state`] and what
//!   holds of its histories in [`history`].
//! * The map: [`entry`], [`table`], [`resizer`] and [`map`], with what holds
//!   of a map under one hash function in [`laws`].
//! * The slot pool: [`dynbuf`].
//! * The layers of a program: [`dispatch`], [`registry`], [`layer_context`],
//!   [`resolver`] and [`layer_struct`].
pub mod alist;
pub mod cell_state;
pub mod dispatch;
pub mod dynbuf;
pub mod entry;
pub mod guard;
pub mod heaped;
pub mod history;
pub mod keep;
pub mod laws;
pub mod layer_context;
pub mod layer_struct;
pub mod map;
pub mod registry;
pub mod resolver;
pub mod resizer;
pub mod table;
pub mod tracked_atomic;

pub use alist::{AccessorList, Node};
pub use guard::Guard;
pub use heaped::{Heap, Heaped};
pub use keep::{Arena, Keep, KeepMarker};
pub use dispatch::{LayerDispatch, NoDispatch, SimpleDispatch};
pub use dynbuf::{ConcurrentBuffer, DynBuffer};
pub use entry::{Entry, EntryNode};
pub use layer_context::{LayerConstruct, LayerConstructor, LayerContext};
pub use map::PlugMap;
pub use registry::{Layer, Registry, TypeKey};
pub use resizer::Resizer;
pub use resolver::Resolver;
pub use table::{Table, TableIter};
pub use tracked_atomic::{Mutation, TrackedAtomic};
