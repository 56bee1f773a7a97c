//! Generic dirty-tracking and invalidation primitives.
pub mod channel;
pub mod drain;
pub mod drain_builder;
pub mod graph;
pub mod hashed;
pub mod intern;
pub mod interner;
pub mod key;
pub mod policy;
pub mod scratch;
pub mod set;
pub mod trace;
pub mod tracker;

pub use channel::{Channel, ChannelSet, MAX_CHANNELS};
pub use drain::{
    drain_affected_sorted, drain_affected_sorted_deterministic, drain_affected_sorted_with_trace, drain_sorted,
    drain_sorted_deterministic, DrainCompletion, DrainSorted, DrainSortedDeterministic,
};
pub use drain_builder::{AnyOrder, DeterministicOrder, DrainBuilder, DrainMode, NoTrace, Within};
pub use intern::InternId;
pub use interner::Interner;
pub use graph::{CycleError, CycleHandling, DirtyGraph};
pub use key::{DenseKey, Key};
pub use policy::{EagerPolicy, LazyPolicy, PropagationPolicy};
pub use scratch::TraversalScratch;
pub use set::DirtySet;
pub use trace::{call_key, DirtyCause, DirtyTrace, OneParentRecorder, TraceCall};
pub use tracker::DirtyTracker;
