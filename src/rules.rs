//! Lint rules and the traversal events they react to.
use vstd::prelude::*;

pub mod shellcheck;

verus! {

/// Why a node is being visited: on entry to it, or on exit from it.
#[derive(Copy, Clone, Debug, PartialEq, Eq, Structural)]
pub enum VisitReason {
    Enter,
    Exit,
}

} // verus!
