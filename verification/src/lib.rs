//! Verified dirty tracking, node-graph documents and related UI-model primitives.
use vstd::prelude::*;

pub mod box_tree;
pub mod dirty;
pub mod display;
pub mod graph_view;
pub mod inspector;
pub mod motion;
pub mod node_graph;
pub mod presentation;
pub mod property;
pub mod property_binding;

verus! {
}
