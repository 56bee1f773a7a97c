//! Property identifiers, typed handles, local value sources and per-object
//! layered property storage.
pub mod entries;
pub mod id;
pub mod metadata;
pub mod store;

pub use id::{Property, PropertyId};
pub use metadata::{PropertyMetadata, PropertyMetadataBuilder};
pub use store::{ErasedTypeMismatch, LocalValueSource, PropertyStore};
