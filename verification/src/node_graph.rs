//! Graph documents: nodes, typed ports and edges with stable generational ids,
//! plus their invalidation bookkeeping.
pub mod arena;
pub mod compatibility;
pub mod element;
pub mod graph;
pub mod ids;
pub mod invalidation;
pub mod observe;
pub mod projection;
pub mod rebuild;
pub mod revision;

pub use compatibility::{
    AllowAllPortConnections, ConnectionContext, PortCompatibility, RejectDuplicateConnections, SingleInputConnections,
};
pub use element::HitTarget;
pub use graph::{ConnectError, EdgeData, GraphDoc, NodeData, PortData, PortDirection};
pub use ids::{EdgeId, GraphElementId, NodeId, PortId};
pub use invalidation::{GraphInvalidation, GraphInvalidationCause, InvalidationTarget};
pub use observe::{DeriveMetrics, DerivePhase, GraphDeriveObserver, NoopGraphDeriveObserver};
pub use projection::{EdgeView, GraphProjection, StraightEdgeRouter, ViewMap};
pub use rebuild::{
    collect_targeted_geometry, notify_invalidated, preview_snap_target, DeriveState, GeometryRebuild, RebuildPlan, TargetedGeometry,
};
pub use revision::Revision;
