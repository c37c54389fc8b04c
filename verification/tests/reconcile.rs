use chain_scan::chain::{Address, BalancePoint, BlockData, ChainData, ChainTx, TraceAction, TraceSet, TxHash};
use chain_scan::error::ScanError;
use chain_scan::inspect::{reconcile_block, InspectOutcome};
use chain_scan::chain::Withdrawal;

fn addr(n: u64) -> Address {
    Address { hi: 0, mid: 0, lo: n }
}

fn hash(n: u128) -> TxHash {
    TxHash { hi: 0, lo: n }
}

fn call(from: Address, to: Address, value: u128, gas: u128) -> TraceAction {
    TraceAction::Call { from, to, value, gas }
}

fn empty_block(number: u64, author: Address) -> BlockData {
    BlockData { number, timestamp: 1_700_000_000 + number, author, withdrawals: Vec::new(), transactions: Vec::new() }
}

#[test]
fn zero_delta_short_circuits() {
    let a = addr(1);
    let x = addr(2);
    let mut block = empty_block(10, addr(9));
    block.transactions.push(ChainTx { tx_hash: hash(1), gas: 21000 });
    let traces = vec![vec![call(x, a, 500, 100)]];
    // Balance before equals balance after: no report, even though the block
    // holds a transaction touching the address.
    let r = reconcile_block(a, 10, 700, 700, &block, &traces);
    assert!(matches!(r, Ok(InspectOutcome::NoChange)));
}

#[test]
fn single_incoming_transfer_reconciles() {
    let a = addr(1);
    let x = addr(2);
    let m = addr(9);
    let mut block = empty_block(101, m);
    block.transactions.push(ChainTx { tx_hash: hash(7), gas: 21000 });
    let traces = vec![vec![call(x, a, 500, 100)]];
    let r = reconcile_block(a, 101, 1000, 1500, &block, &traces);
    match r {
        Ok(InspectOutcome::Report(rep)) => {
            assert_eq!(rep.block.address, a);
            assert_eq!(rep.block.block_number, 101);
            assert_eq!(rep.block.balance, 1500);
            assert_eq!(rep.block.balance_diff, 500);
            assert_eq!(rep.block.amount_incoming, 500);
            assert_eq!(rep.block.amount_outgoing, 0);
            assert_eq!(rep.block.consensus_reward, 0);
            assert_eq!(rep.block.mev_reward, 0);
            assert_eq!(rep.block.block_miner, m);
            assert_eq!(rep.txs.len(), 1);
            assert_eq!(rep.txs[0].tx_hash, hash(7));
            assert_eq!(rep.txs[0].block_index, 0);
            assert_eq!(rep.txs[0].gas_used, 21000);
            assert_eq!(rep.traces.len(), 1);
            assert_eq!(rep.traces[0].from_addr, x);
            assert_eq!(rep.traces[0].to_addr, a);
            assert_eq!(rep.traces[0].value, 500);
        }
        other => panic!("expected a report, got {:?}", other),
    }
}

#[test]
fn conservation_mismatch_rejects_block() {
    let a = addr(1);
    let x = addr(2);
    let mut block = empty_block(101, addr(9));
    block.transactions.push(ChainTx { tx_hash: hash(7), gas: 21000 });
    // Trace accounts for 300 but the balance moved by 500.
    let traces = vec![vec![call(x, a, 300, 100)]];
    let r = reconcile_block(a, 101, 1000, 1500, &block, &traces);
    assert!(matches!(r, Err(ScanError::ReconciliationMismatch)));
}

#[test]
fn reward_action_is_unsupported() {
    let a = addr(1);
    let mut block = empty_block(101, addr(9));
    block.transactions.push(ChainTx { tx_hash: hash(7), gas: 21000 });
    let traces = vec![vec![TraceAction::Reward]];
    let r = reconcile_block(a, 101, 1000, 1500, &block, &traces);
    assert!(matches!(r, Err(ScanError::UnsupportedTraceAction)));
}

#[test]
fn other_actions_are_skipped_but_keep_their_index() {
    let a = addr(1);
    let x = addr(2);
    let y = addr(3);
    let mut block = empty_block(50, addr(9));
    block.transactions.push(ChainTx { tx_hash: hash(4), gas: 30000 });
    // Call frames sit at positions 1 and 3 of the action list.
    let traces = vec![vec![
        TraceAction::Other,
        call(x, a, 5, 10),
        TraceAction::Other,
        call(a, y, 3, 11),
    ]];
    let r = reconcile_block(a, 50, 100, 102, &block, &traces);
    match r {
        Ok(InspectOutcome::Report(rep)) => {
            assert_eq!(rep.block.balance_diff, 2);
            assert_eq!(rep.block.amount_incoming, 5);
            assert_eq!(rep.block.amount_outgoing, 3);
            assert_eq!(rep.traces.len(), 2);
            assert_eq!(rep.traces[0].trace_index, 1);
            assert_eq!(rep.traces[0].value, 5);
            assert_eq!(rep.traces[1].trace_index, 3);
            assert_eq!(rep.traces[1].value, 3);
        }
        other => panic!("expected a report, got {:?}", other),
    }
}

#[test]
fn uninteresting_transactions_are_dropped_but_context_frames_kept() {
    let a = addr(1);
    let x = addr(2);
    let w = addr(5);
    let z = addr(6);
    let mut block = empty_block(60, addr(9));
    block.transactions.push(ChainTx { tx_hash: hash(11), gas: 1 });
    block.transactions.push(ChainTx { tx_hash: hash(12), gas: 2 });
    // The first transaction touches the address and also holds an
    // unrelated inner call, which is still recorded for context. The
    // second touches only strangers and produces no rows.
    let traces = vec![
        vec![call(x, a, 40, 10), call(w, z, 999, 10)],
        vec![call(w, z, 123, 10)],
    ];
    let r = reconcile_block(a, 60, 0, 40, &block, &traces);
    match r {
        Ok(InspectOutcome::Report(rep)) => {
            assert_eq!(rep.txs.len(), 1);
            assert_eq!(rep.txs[0].tx_hash, hash(11));
            assert_eq!(rep.traces.len(), 2);
            assert_eq!(rep.traces[0].value, 40);
            assert_eq!(rep.traces[1].value, 999);
            assert_eq!(rep.traces[1].to_addr, z);
        }
        other => panic!("expected a report, got {:?}", other),
    }
}

#[test]
fn miner_reward_frame_is_classified_separately() {
    let a = addr(1);
    let m = addr(9);
    let mut block = empty_block(70, m);
    block.transactions.push(ChainTx { tx_hash: hash(21), gas: 5 });
    // The author pays the scanned address: counted as miner reward, not as
    // an ordinary incoming transfer.
    let traces = vec![vec![call(m, a, 250, 10)]];
    let r = reconcile_block(a, 70, 1000, 1250, &block, &traces);
    match r {
        Ok(InspectOutcome::Report(rep)) => {
            assert_eq!(rep.block.mev_reward, 250);
            assert_eq!(rep.block.amount_incoming, 0);
            assert_eq!(rep.block.balance_diff, 250);
        }
        other => panic!("expected a report, got {:?}", other),
    }
}

#[test]
fn withdrawal_amounts_are_scaled_to_balance_units() {
    let a = addr(1);
    let other = addr(4);
    let mut block = empty_block(80, addr(9));
    block.withdrawals.push(Withdrawal { address: other, amount: 7 });
    block.withdrawals.push(Withdrawal { address: a, amount: 2 });
    let traces: Vec<Vec<TraceAction>> = Vec::new();
    let r = reconcile_block(a, 80, 1_000, 2_000_001_000, &block, &traces);
    match r {
        Ok(InspectOutcome::Report(rep)) => {
            assert_eq!(rep.block.consensus_reward, 2_000_000_000);
            assert_eq!(rep.block.balance_diff, 2_000_000_000);
            assert_eq!(rep.block.amount_incoming, 0);
        }
        other => panic!("expected a report, got {:?}", other),
    }
}

#[test]
fn persisted_report_satisfies_conservation_law() {
    let a = addr(1);
    let x = addr(2);
    let y = addr(3);
    let m = addr(9);
    let mut block = empty_block(90, m);
    block.withdrawals.push(Withdrawal { address: a, amount: 1 });
    block.transactions.push(ChainTx { tx_hash: hash(31), gas: 5 });
    block.transactions.push(ChainTx { tx_hash: hash(32), gas: 6 });
    let traces = vec![
        vec![call(x, a, 600, 10), call(a, y, 100, 10)],
        vec![call(m, a, 50, 10)],
    ];
    // 600 - 100 + 1e9 + 50 == delta
    let prev: u128 = 10_000;
    let curr: u128 = prev + 600 - 100 + 1_000_000_000 + 50;
    let r = reconcile_block(a, 90, prev, curr, &block, &traces);
    match r {
        Ok(InspectOutcome::Report(rep)) => {
            let b = &rep.block;
            let lhs = b.amount_incoming as i128 - b.amount_outgoing as i128
                + b.consensus_reward + b.mev_reward;
            assert_eq!(lhs, b.balance_diff);
            assert_eq!(b.amount_incoming, 600);
            assert_eq!(b.amount_outgoing, 100);
            assert_eq!(b.consensus_reward, 1_000_000_000);
            assert_eq!(b.mev_reward, 50);
        }
        other => panic!("expected a report, got {:?}", other),
    }
}

#[test]
fn chain_snapshot_lookups_answer_like_a_node() {
    let a = addr(1);
    let chain = ChainData {
        height: 500,
        blocks: vec![empty_block(10, addr(9))],
        balance_points: vec![
            BalancePoint { address: a, block_number: 0, balance: 100 },
            BalancePoint { address: a, block_number: 10, balance: 250 },
        ],
        traces: vec![TraceSet { tx_hash: hash(1), frames: vec![TraceAction::Other] }],
        balance_calls: 0,
    };
    assert_eq!(chain.get_current_height(), 500);
    assert!(chain.get_block(10).is_some());
    assert!(chain.get_block(11).is_none());
    assert!(chain.get_transaction_traces(hash(1)).is_some());
    assert!(chain.get_transaction_traces(hash(2)).is_none());
    let mut chain = chain;
    assert_eq!(chain.get_balance(a, 5), 100);
    assert_eq!(chain.get_balance(a, 10), 250);
    assert_eq!(chain.get_balance(a, 400), 250);
    assert_eq!(chain.get_balance(addr(8), 400), 0);
    assert_eq!(chain.balance_calls, 4);
}
