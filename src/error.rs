use vstd::prelude::*;

verus! {

/// The ways a store operation can fail.
#[derive(Debug, Clone, Copy, PartialEq, Eq, Structural)]
pub enum StoreError {
    /// A referenced root, entity or property does not exist where expected.
    NotFound,
    /// A mirror references partition data that is missing.
    ConsistencyFault,
    /// The operation cannot be carried out on these arguments (for example a
    /// discriminant outside the declared variants).
    InvalidOperation,
}

} // verus!
