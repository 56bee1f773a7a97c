use vstd::prelude::*;

use super::invalidation::{GraphInvalidationCause, InvalidationTarget};

verus! {

/// A phase of deriving view state from a graph document.
#[derive(Copy, Clone, Debug, PartialEq, Eq, Structural, Hash)]
pub enum DerivePhase {
    /// Node bounds.
    NodeBounds,
    /// Port anchor points.
    PortAnchors,
    /// Edge routes.
    EdgeRouting,
    /// Visibility sets.
    Visibility,
}

/// How much work a derive phase did.
#[derive(Copy, Clone, Debug, Default, PartialEq, Eq, Structural)]
pub struct DeriveMetrics {
    /// Nodes visited.
    pub nodes: usize,
    /// Ports visited.
    pub ports: usize,
    /// Edges visited.
    pub edges: usize,
}

/// Receives notifications about invalidation and derive work; the derive
/// phase methods do nothing unless overridden.
pub trait GraphDeriveObserver {
    /// Whether this observer keeps `notices` as the log of the invalidations
    /// reported to it. Observers that do set it to `true`; for the others
    /// nothing is claimed of what they are told.
    open spec fn obeys_notice_log_spec(&self) -> bool {
        false
    }

    /// The `(cause, target)` invalidations reported so far, oldest first.
    open spec fn notices(&self) -> Seq<(GraphInvalidationCause, InvalidationTarget)> {
        Seq::empty()
    }

    /// `target` was invalidated by `cause`.
    fn invalidated(&mut self, cause: GraphInvalidationCause, target: InvalidationTarget)
        ensures
            old(self).obeys_notice_log_spec() ==> final(self).obeys_notice_log_spec()
                && final(self).notices() == old(self).notices().push((cause, target)),
    ;

    /// A derive phase starts.
    fn derive_begin(&mut self, phase: DerivePhase) {
    }

    /// A derive phase ended, having done `metrics` worth of work.
    fn derive_end(&mut self, phase: DerivePhase, metrics: DeriveMetrics) {
    }
}

/// An observer that ignores every notification.
#[derive(Copy, Clone, Debug, Default)]
pub struct NoopGraphDeriveObserver;

impl GraphDeriveObserver for NoopGraphDeriveObserver {
    fn invalidated(&mut self, cause: GraphInvalidationCause, target: InvalidationTarget) {
    }
}

} // verus!
