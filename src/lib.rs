//! A priority-ordered overlay of several source trees onto one output tree.
//!
//! The library decides; the caller performs. [`index::PriorityIndex`] records which
//! sources hold which relative paths, and [`engine::Overlay`] turns change events and
//! startup listings into link and unlink actions on the output tree, proved to keep
//! the output equal to the winner of every path.
pub mod adapter;
pub mod index;
pub mod engine;
pub mod laws;

pub use adapter::{normalize, relative_path, RawEvent};
pub use engine::{Action, Event, EventType, Input, Overlay};
pub use index::PriorityIndex;
