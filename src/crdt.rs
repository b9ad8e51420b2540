//! The replicated document core.

pub mod document;
pub mod operation;
pub mod position;
pub mod timestamp;

pub use document::Document;
pub use operation::Operation;
pub use position::{Position, PositionBounds};
pub use timestamp::Timestamp;
