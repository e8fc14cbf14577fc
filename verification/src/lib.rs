//! The logic of an outline note editor.
//!
//! A note is an outline of rows. This crate holds what the editor computes on
//! them: text editing in UTF-16 offsets, inline rendering, line layout, the order
//! and shape of the outline, the editing session, and the drafts that keep local
//! changes until the server has them.

pub mod decimal;
pub mod drafts;
pub mod editor;
pub mod models;
pub mod strset;
pub mod text;
