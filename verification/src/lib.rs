//! Core of a terminal text editor: a versioned text buffer built on an
//! immutable, structurally shared rope, and a pane/layout tree that maps
//! editor views onto buffers.

pub mod buffer;
pub mod layout;
pub mod rope;
pub mod shell;
