use chain_scan::balance::BalanceCache;
use chain_scan::chain::{Address, BalancePoint, BlockData, ChainData, ChainTx, TraceAction, TraceSet, TxHash};
use chain_scan::driver::{scan_address, scan_command, scan_step, DriverCursor, ScanCommand, StepOutcome};
use chain_scan::error::ScanError;
use chain_scan::records::ScanDbObj;
use chain_scan::store::RecordStore;
use chain_scan::inspect::inspect_block;

fn addr(n: u64) -> Address {
    Address { hi: 0, mid: 0, lo: n }
}

fn hash(n: u128) -> TxHash {
    TxHash { hi: 0, lo: n }
}

fn call(from: Address, to: Address, value: u128, gas: u128) -> TraceAction {
    TraceAction::Call { from, to, value, gas }
}

fn empty_block(number: u64) -> BlockData {
    BlockData {
        number,
        timestamp: 1_700_000_000 + number,
        author: addr(99),
        withdrawals: Vec::new(),
        transactions: Vec::new(),
    }
}

/// A chain where the address holds a constant balance everywhere.
fn dormant_chain(a: Address, height: u64, max_block: u64) -> ChainData {
    let mut blocks = Vec::new();
    let mut n: u64 = 0;
    while n <= max_block {
        blocks.push(empty_block(n));
        n += 1;
    }
    ChainData {
        height,
        blocks,
        balance_points: vec![BalancePoint { address: a, block_number: 0, balance: 500 }],
        traces: Vec::new(),
        balance_calls: 0,
    }
}

#[test]
fn end_to_end_scenario() {
    // Address A, start block 100, chain height 10100 (implicit end 10000),
    // balance 1000 at block 100 and 1500 from block 101 on, one
    // transaction in block 101 paying A 500 in a single call frame.
    let a = addr(0xA);
    let x = addr(0xB);
    let mut block_101 = empty_block(101);
    block_101.transactions.push(ChainTx { tx_hash: hash(0x51), gas: 21000 });
    let mut chain = ChainData {
        height: 10100,
        blocks: vec![empty_block(100), block_101, empty_block(102)],
        balance_points: vec![
            BalancePoint { address: a, block_number: 0, balance: 1000 },
            BalancePoint { address: a, block_number: 101, balance: 1500 },
        ],
        traces: vec![TraceSet { tx_hash: hash(0x51), frames: vec![call(x, a, 500, 100)] }],
        balance_calls: 0,
    };
    let mut cache = BalanceCache::new();
    let mut store = RecordStore::new();

    let r = scan_address(&mut chain, &mut cache, &mut store, a, 100, None);
    assert!(r.is_ok());

    assert_eq!(store.blocks.len(), 1);
    let b = &store.blocks[0];
    assert_eq!(b.address, a);
    assert_eq!(b.block_number, 101);
    assert_eq!(b.balance_diff, 500);
    assert_eq!(b.amount_incoming, 500);
    assert_eq!(b.amount_outgoing, 0);
    assert_eq!(b.consensus_reward, 0);
    assert_eq!(b.mev_reward, 0);

    assert_eq!(store.txs.len(), 1);
    assert_eq!(store.txs[0].tx_hash, hash(0x51));
    assert_eq!(store.tx_traces.len(), 1);
    assert_eq!(store.tx_traces[0].from_addr, x);
    assert_eq!(store.tx_traces[0].value, 500);

    let scan = store.get_scan(a).expect("checkpoint should exist");
    assert_eq!(scan.first_block_number, 100);
    assert_eq!(scan.next_block_number, 102);
}

#[test]
fn skip_ahead_jumps_without_touching_the_store() {
    // Balance constant over the probe window: one step must jump the
    // cursor by exactly 49 and leave the store as it was.
    let a = addr(1);
    let mut chain = dormant_chain(a, 1000, 260);
    let mut cache = BalanceCache::new();
    let mut store = RecordStore::new();
    let scan_row = ScanDbObj {
        address: a,
        first_block_number: 50,
        first_block_timestamp: 0,
        next_block_number: 51,
        next_block_timestamp: 0,
    };
    store.insert_scan(&scan_row).expect("fresh insert");
    let mut cur = DriverCursor {
        address: a,
        block_num: 51,
        prev_checked: Some(50),
        block_end: 200,
        scan: scan_row,
    };
    let r = scan_step(&mut chain, &mut cache, &mut store, &mut cur);
    assert!(matches!(r, Ok(StepOutcome::Skipped)));
    assert_eq!(cur.block_num, 100);
    assert_eq!(cur.prev_checked, Some(100));
    assert_eq!(store.blocks.len(), 0);
    assert_eq!(store.get_scan(a).unwrap().next_block_number, 51);
}

#[test]
fn dormant_address_scan_costs_few_balance_queries() {
    // Scanning 150 dormant blocks must probe rather than inspect: the
    // query count stays far below one per block, no ledger row appears,
    // and the persisted checkpoint advanced only for the one inspected
    // block.
    let a = addr(1);
    let mut chain = dormant_chain(a, 300, 260);
    let mut cache = BalanceCache::new();
    let mut store = RecordStore::new();
    let r = scan_address(&mut chain, &mut cache, &mut store, a, 50, None);
    assert!(r.is_ok());
    assert_eq!(store.blocks.len(), 0);
    assert_eq!(store.txs.len(), 0);
    assert_eq!(store.get_scan(a).unwrap().next_block_number, 51);
    // inspect(50): balances at 49 and 50; then one new probe balance per
    // skip hop at 101, 100, 150, 149, 199, 198, 248.
    assert_eq!(chain.balance_calls, 9);
}

#[test]
fn checkpoint_advances_one_block_per_inspected_step() {
    // Balances change every block, so no skip fires: after N steps from
    // start S the persisted resumption point is S + N, and it never
    // decreased along the way.
    let a = addr(1);
    let mut blocks = Vec::new();
    let mut points = Vec::new();
    let mut n: u64 = 0;
    while n <= 30 {
        blocks.push(empty_block(n));
        points.push(BalancePoint { address: a, block_number: n, balance: 1000 + n as u128 });
        n += 1;
    }
    let mut chain = ChainData {
        height: 1000,
        blocks,
        balance_points: points,
        traces: Vec::new(),
        balance_calls: 0,
    };
    let mut cache = BalanceCache::new();
    let mut store = RecordStore::new();
    let scan_row = ScanDbObj {
        address: a,
        first_block_number: 10,
        first_block_timestamp: 0,
        next_block_number: 10,
        next_block_timestamp: 0,
    };
    store.insert_scan(&scan_row).expect("fresh insert");
    let mut cur = DriverCursor {
        address: a,
        block_num: 10,
        prev_checked: None,
        block_end: 900,
        scan: scan_row,
    };
    let mut last_next: i64 = 10;
    let mut step: u64 = 0;
    while step < 5 {
        let r = scan_step(&mut chain, &mut cache, &mut store, &mut cur);
        assert!(matches!(r, Ok(StepOutcome::Inspected)));
        let next = store.get_scan(a).unwrap().next_block_number;
        assert!(next >= last_next);
        last_next = next;
        step += 1;
    }
    assert_eq!(last_next, 15);
    assert_eq!(cur.block_num, 15);
    // The balance moved but no trace accounts for it: every block was
    // rejected by reconciliation and swallowed, so no row was persisted.
    assert_eq!(store.blocks.len(), 0);
}

#[test]
fn explicit_end_too_close_to_head_is_invalid() {
    let a = addr(1);
    let mut chain = dormant_chain(a, 1000, 10);
    let mut cache = BalanceCache::new();
    let mut store = RecordStore::new();
    let r = scan_address(&mut chain, &mut cache, &mut store, a, 5, Some(901));
    assert!(matches!(r, Err(ScanError::InvalidRange)));
    assert!(store.get_scan(a).is_none());
    let ok = scan_address(&mut chain, &mut cache, &mut store, a, 5, Some(9));
    assert!(ok.is_ok());
}

#[test]
fn missing_start_block_fails_scan_setup() {
    let a = addr(1);
    // The chain has no block 40, so a first scan from 40 cannot seed its
    // checkpoint timestamp.
    let mut chain = dormant_chain(a, 1000, 10);
    let mut cache = BalanceCache::new();
    let mut store = RecordStore::new();
    let r = scan_address(&mut chain, &mut cache, &mut store, a, 40, Some(800));
    assert!(matches!(r, Err(ScanError::BlockNotFound)));
    assert!(store.get_scan(a).is_none());
}

#[test]
fn reset_discards_checkpoint_and_records() {
    let a = addr(1);
    let mut chain = dormant_chain(a, 300, 260);
    let mut cache = BalanceCache::new();
    let mut store = RecordStore::new();
    // Seed a stale checkpoint and a stale ledger row for the address.
    let stale = ScanDbObj {
        address: a,
        first_block_number: 3,
        first_block_timestamp: 0,
        next_block_number: 220,
        next_block_timestamp: 0,
    };
    store.insert_scan(&stale).expect("fresh insert");
    store.insert_block(&chain_scan::records::BlockDbObj {
        address: a,
        block_number: 4,
        timestamp: 0,
        balance: 1,
        balance_diff: 1,
        block_miner: addr(9),
        consensus_reward: 0,
        mev_reward: 1,
        block_reward: 0,
        amount_incoming: 0,
        amount_outgoing: 0,
    });
    let cmd = ScanCommand { address: a, block_start: 50, block_end: None, remove_prev_scan: true };
    let r = scan_command(&mut chain, &mut cache, &mut store, cmd);
    assert!(r.is_ok());
    assert_eq!(store.blocks.len(), 0);
    let scan = store.get_scan(a).unwrap();
    assert_eq!(scan.first_block_number, 50);
    assert!(scan.next_block_number >= 50);
}

#[test]
fn resume_continues_from_persisted_checkpoint() {
    // With a checkpoint at or past the target end, a scan invocation does
    // nothing at all.
    let a = addr(1);
    let mut chain = dormant_chain(a, 300, 260);
    let mut cache = BalanceCache::new();
    let mut store = RecordStore::new();
    let row = ScanDbObj {
        address: a,
        first_block_number: 10,
        first_block_timestamp: 7,
        next_block_number: 250,
        next_block_timestamp: 8,
    };
    store.insert_scan(&row).expect("fresh insert");
    let r = scan_address(&mut chain, &mut cache, &mut store, a, 10, None);
    assert!(r.is_ok());
    assert_eq!(chain.balance_calls, 0);
    assert_eq!(store.get_scan(a).unwrap(), row);
}

#[test]
fn zero_diff_block_produces_no_records() {
    // Block 10 holds a transaction touching the address, but the balance
    // before and after the block is the same: nothing is persisted.
    let a = addr(1);
    let x = addr(2);
    let mut block = empty_block(10);
    block.transactions.push(ChainTx { tx_hash: hash(5), gas: 1 });
    let mut chain = ChainData {
        height: 300,
        blocks: vec![block, empty_block(11)],
        balance_points: vec![BalancePoint { address: a, block_number: 0, balance: 500 }],
        traces: vec![TraceSet { tx_hash: hash(5), frames: vec![call(x, a, 200, 1)] }],
        balance_calls: 0,
    };
    let mut cache = BalanceCache::new();
    let mut store = RecordStore::new();
    let r = inspect_block(&mut chain, &mut cache, &mut store, a, 10);
    assert!(r.is_ok());
    assert_eq!(store.blocks.len(), 0);
    assert_eq!(store.txs.len(), 0);
    assert_eq!(store.tx_traces.len(), 0);
}

#[test]
fn reinspection_is_idempotent() {
    let a = addr(1);
    let x = addr(2);
    let mut block = empty_block(20);
    block.transactions.push(ChainTx { tx_hash: hash(6), gas: 9 });
    let mut chain = ChainData {
        height: 300,
        blocks: vec![block],
        balance_points: vec![
            BalancePoint { address: a, block_number: 0, balance: 100 },
            BalancePoint { address: a, block_number: 20, balance: 400 },
        ],
        traces: vec![TraceSet { tx_hash: hash(6), frames: vec![call(x, a, 300, 1)] }],
        balance_calls: 0,
    };
    let mut cache = BalanceCache::new();
    let mut store = RecordStore::new();
    assert!(inspect_block(&mut chain, &mut cache, &mut store, a, 20).is_ok());
    let blocks_once = store.blocks.clone();
    let txs_once = store.txs.clone();
    let traces_once = store.tx_traces.clone();
    assert_eq!(blocks_once.len(), 1);
    assert_eq!(txs_once.len(), 1);
    assert_eq!(traces_once.len(), 1);
    assert!(inspect_block(&mut chain, &mut cache, &mut store, a, 20).is_ok());
    assert_eq!(store.blocks, blocks_once);
    assert_eq!(store.txs, txs_once);
    assert_eq!(store.tx_traces, traces_once);
}

#[test]
fn failing_block_does_not_halt_the_scan() {
    // Block 11 cannot be reconciled (no trace explains the change), but
    // the scan still reaches and records block 12.
    let a = addr(1);
    let x = addr(2);
    let mut block_12 = empty_block(12);
    block_12.transactions.push(ChainTx { tx_hash: hash(8), gas: 2 });
    let mut chain = ChainData {
        height: 300,
        blocks: vec![empty_block(10), empty_block(11), block_12, empty_block(13), empty_block(14)],
        balance_points: vec![
            BalancePoint { address: a, block_number: 0, balance: 100 },
            BalancePoint { address: a, block_number: 11, balance: 170 },
            BalancePoint { address: a, block_number: 12, balance: 270 },
        ],
        traces: vec![TraceSet { tx_hash: hash(8), frames: vec![call(x, a, 100, 1)] }],
        balance_calls: 0,
    };
    let mut cache = BalanceCache::new();
    let mut store = RecordStore::new();
    let r = scan_address(&mut chain, &mut cache, &mut store, a, 10, Some(14));
    assert!(r.is_ok());
    assert_eq!(store.blocks.len(), 1);
    assert_eq!(store.blocks[0].block_number, 12);
    assert!(store.get_scan(a).unwrap().next_block_number >= 13);
}

#[test]
fn failed_reinspection_sheds_stale_rows() {
    // A block that once reconciled leaves its rows; when the chain's
    // traces no longer explain its delta, re-inspection deletes the stale
    // rows before failing and persists nothing in their place.
    let a = addr(1);
    let x = addr(2);
    let mut block = empty_block(20);
    block.transactions.push(ChainTx { tx_hash: hash(6), gas: 9 });
    let mut chain = ChainData {
        height: 300,
        blocks: vec![block],
        balance_points: vec![
            BalancePoint { address: a, block_number: 0, balance: 100 },
            BalancePoint { address: a, block_number: 20, balance: 400 },
        ],
        traces: vec![TraceSet { tx_hash: hash(6), frames: vec![call(x, a, 300, 1)] }],
        balance_calls: 0,
    };
    let mut cache = BalanceCache::new();
    let mut store = RecordStore::new();
    assert!(inspect_block(&mut chain, &mut cache, &mut store, a, 20).is_ok());
    assert_eq!(store.blocks.len(), 1);
    assert_eq!(store.txs.len(), 1);
    assert_eq!(store.tx_traces.len(), 1);
    // The trace now accounts for only part of the delta.
    chain.traces[0].frames[0] = call(x, a, 100, 1);
    let r = inspect_block(&mut chain, &mut cache, &mut store, a, 20);
    assert!(matches!(r, Err(ScanError::ReconciliationMismatch)));
    assert_eq!(store.blocks.len(), 0);
    assert_eq!(store.txs.len(), 0);
    assert_eq!(store.tx_traces.len(), 0);
}

#[test]
fn zero_diff_short_circuit_spares_prior_rows() {
    // The zero-delta short circuit returns before the delete step, so a
    // key's existing rows survive a no-change re-visit.
    let a = addr(1);
    let mut chain = dormant_chain(a, 300, 30);
    let mut cache = BalanceCache::new();
    let mut store = RecordStore::new();
    store.insert_block(&chain_scan::records::BlockDbObj {
        address: a,
        block_number: 10,
        timestamp: 0,
        balance: 500,
        balance_diff: 1,
        block_miner: addr(9),
        consensus_reward: 0,
        mev_reward: 1,
        block_reward: 0,
        amount_incoming: 0,
        amount_outgoing: 0,
    });
    assert!(inspect_block(&mut chain, &mut cache, &mut store, a, 10).is_ok());
    assert_eq!(store.blocks.len(), 1);
}
