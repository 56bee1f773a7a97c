//! Typed property endpoints, binding ids, errors and drain reports.
pub mod endpoint;
pub mod error;
pub mod host;
pub mod report;
pub mod set;
pub mod value_source;

pub use endpoint::{BindingId, EndpointKey, PropertyEndpoint};
pub use error::{BindingDrainError, BindingError};
pub use host::BindingHost;
pub use report::{BindingReport, BindingStats, BindingWrite};
pub use set::{BindingSet, EvalOutcome};
pub use value_source::{
    value_source_property, value_source_property_id, ExternalSource, ExternalSourceId, ValueSource, ValueSourceId,
    ValueSourceStore,
};
