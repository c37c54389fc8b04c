//! A checkpointed blockchain scan-and-reconcile engine.
//!
//! The library scans a chain for all balance-affecting activity touching one
//! address, reconciles every balance change against transaction traces,
//! withdrawals and block rewards, and records the result as an append-only
//! ledger keyed by address and block number.
//!
//! The pieces, leaf first: [`chain`] models what a node serves, as plain
//! values; [`balance`] memoizes balance queries; [`records`] and [`store`]
//! are the persisted rows and the keyed tables they live in; [`inspect`]
//! reconciles one block and builds its rows; [`driver`] runs the
//! checkpointed loop with its skip-ahead heuristic; [`laws`] proves the
//! engine-wide guarantees, idempotent re-inspection and conservation.

pub mod balance;
pub mod chain;
pub mod driver;
pub mod error;
pub mod inspect;
pub mod laws;
pub mod records;
pub mod store;
