//! Presentation primitives that carry no geometry: text content and the
//! enumerations that configure image, path and text painting.
pub mod store;
pub mod text;

pub use store::{PresentationNode, PresentationStore, Primitive, PrimitiveKind};
pub use text::{ImageFit, PathPaintOrder, SliceMode, TextAlign, TextContent, TextOverflow};
