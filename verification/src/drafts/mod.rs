//! Local changes that the server does not have yet, and the outline as it was last seen.

pub mod due;
pub mod index;
pub mod note;
pub mod overlay;
pub mod queue;
pub mod snapshot;
pub mod store;
