//! The error kinds a scan can raise.

use vstd::prelude::*;

verus! {

/// What went wrong while setting up or running a scan.
#[derive(PartialEq, Eq, Structural, Clone, Copy, Debug)]
pub enum ScanError {
    /// A caller-supplied end block is less than the confirmation margin
    /// behind the current chain height.
    InvalidRange,
    /// A block the scan needs is not available from the node.
    BlockNotFound,
    /// The node failed to answer a query.
    ChainClientError,
    /// A reward-type trace action was met mid-block, which the
    /// reconciliation does not support.
    UnsupportedTraceAction,
    /// The conservation equation did not balance for a block.
    ReconciliationMismatch,
    /// The persistent store refused an operation.
    PersistenceError,
}

} // verus!
