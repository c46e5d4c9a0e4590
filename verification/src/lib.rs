use vstd::prelude::*;

pub mod text;
pub mod emit;
pub mod path;
pub mod order;
pub mod grammar;
pub mod docs;
pub mod fmt;
pub mod lsp;

verus! {
} // verus!
