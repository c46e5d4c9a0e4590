//! What an occurrence of a name in the source does.
use vstd::prelude::*;

verus! {

/// Whether an occurrence declares the thing or merely mentions it.
#[derive(Debug, Clone, Copy, PartialEq, Eq, Structural)]
pub enum Role {
    Definition,
    Reference,
}

} // verus!
