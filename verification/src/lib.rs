//! Text with attributes attached to ranges of it, kept apart from the
//! text itself.
//!
//! An attributed text owns a text and the spans that attributes have been
//! applied to, in the order in which they were applied. It answers which
//! attributes apply at an index or to a range. Two kinds are offered:
//! [`attributed_text`] takes half-open ranges and can delete from the text,
//! rebasing every span; [`bounded_text`] takes ranges by their bounds.

pub mod attributed_text;
pub mod bounded_text;
pub mod edit_behavior;
pub mod selection;
pub mod text_storage;

pub use edit_behavior::{EditBehavior, SpanEditAction};
pub use text_storage::{EditableTextStorage, TextStorage};
