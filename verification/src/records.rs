//! The persisted record types: the resumable scan checkpoint and the
//! per-block ledger rows, all scoped to one scanned address.
//!
//! Timestamps are unix seconds; block numbers and indexes are kept as
//! signed 64-bit integers, as the store keeps them.

use vstd::prelude::*;

use crate::chain::Address;
use crate::chain::TxHash;

verus! {

/// The persisted cursor of one address's scan. `next_block_number` is the
/// next block not yet processed: the resumption point after a restart.
#[derive(PartialEq, Eq, Structural, Clone, Copy, Debug)]
pub struct ScanDbObj {
    pub address: Address,
    pub first_block_number: i64,
    pub first_block_timestamp: i64,
    pub next_block_number: i64,
    pub next_block_timestamp: i64,
}

/// One ledger row per (address, block) where the net balance changed.
#[derive(PartialEq, Eq, Structural, Clone, Copy, Debug)]
pub struct BlockDbObj {
    pub address: Address,
    pub block_number: i64,
    pub timestamp: i64,
    pub balance: u128,
    pub balance_diff: i128,
    pub block_miner: Address,
    pub consensus_reward: i128,
    pub mev_reward: i128,
    pub block_reward: u128,
    pub amount_incoming: u128,
    pub amount_outgoing: u128,
}

/// One row per transaction of a qualifying block that touches the scanned
/// address in any of its call frames.
#[derive(PartialEq, Eq, Structural, Clone, Copy, Debug)]
pub struct TxDbObj {
    pub address: Address,
    pub tx_hash: TxHash,
    pub block_number: i64,
    pub block_index: i64,
    pub gas_used: u128,
}

/// One row per internal call frame of a persisted transaction, kept whether
/// or not that frame itself touches the address.
#[derive(PartialEq, Eq, Structural, Clone, Copy, Debug)]
pub struct TxTraceDbObj {
    pub address: Address,
    pub tx_hash: TxHash,
    pub block_number: i64,
    pub block_index: i64,
    pub trace_index: i64,
    pub from_addr: Address,
    pub to_addr: Address,
    pub value: u128,
    pub gas_used: u128,
}

/// A checkpoint row's own invariant: it starts at a block the engine can
/// reconcile (a predecessor exists), and the resumption point never sits
/// before the first scanned block.
pub open spec fn scan_row_wf(s: ScanDbObj) -> bool {
    &&& 1 <= s.first_block_number
    &&& s.first_block_number <= s.next_block_number
}

/// The conservation law every persisted ledger row must satisfy: incoming
/// minus outgoing transfers, plus withdrawals and the miner reward, equals
/// the observed balance delta.
pub open spec fn block_record_conserves(b: BlockDbObj) -> bool {
    b.amount_incoming - b.amount_outgoing + b.consensus_reward + b.mev_reward == b.balance_diff
}

} // verus!
