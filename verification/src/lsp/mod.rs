//! The language server's logic: positions, edits, and what the editor is told.
pub mod actions;
pub mod completion;
pub mod ambiguity;
pub mod analysis;
pub mod convert;
pub mod diff;
pub mod folding;
pub mod features;
pub mod hover;
pub mod imports;
pub mod indentation;
pub mod index;
pub mod line_index;
pub mod navigation;
pub mod organize;
pub mod preview;
pub mod refactor;
pub mod server;
pub mod tokens;
pub mod unused;
