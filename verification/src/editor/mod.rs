//! The outline editor.

pub mod autocomplete;
pub mod caret;
pub mod dom;
pub mod edit;
pub mod focus;
pub mod forest;
pub mod keys;
pub mod layout;
pub mod lines;
pub mod links;
pub mod load;
pub mod moves;
pub mod offset_map;
pub mod ordering;
pub mod placement;
pub mod removal;
pub mod render;
pub mod rows;
pub mod selection;
pub mod session;
pub mod shape;
pub mod shown;
pub mod siblings;
pub mod standing;
pub mod steps;
pub mod tree;
pub mod typing;
pub mod view;
pub mod visible;
pub mod wiki;
