//! QuestScribe: a positional event-sourced state-reconstruction engine.
//!
//! Entities (characters or objects in a story document) evolve through
//! markers: typed change events anchored to document offsets.  Replaying
//! the markers for one entity up to a target position, in position order,
//! yields the entity's nested attribute state as of that point.

pub mod duplicate;
pub mod model;
pub mod replay;
pub mod rtf;
pub mod sheet;
pub mod store;
pub mod tree;
pub mod value;

pub use model::ChangeType;
pub use model::Document;
pub use model::Entity;
pub use model::ErrorKind;
pub use model::FieldChange;
pub use model::FieldMetadata;
pub use model::Marker;
pub use model::MarkerVisual;
pub use store::AppState;
pub use tree::Node;
pub use value::Value;
