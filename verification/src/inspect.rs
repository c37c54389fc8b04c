//! Per-block reconciliation: classify every internal call frame of a block,
//! sum incoming and outgoing transfers, withdrawals and the miner reward,
//! check the conservation equation against the observed balance delta, and
//! build the ledger rows for the block.

use vstd::prelude::*;

use crate::chain::Address;
use crate::chain::BlockData;
use crate::chain::ChainData;
use crate::chain::ChainTx;
use crate::chain::TraceAction;
use crate::chain::TxHash;
use crate::chain::Withdrawal;
use crate::balance::BalanceCache;
use crate::balance::cache_consistent;
use crate::balance::cached_get_balance;
use crate::chain::balance_of;
use crate::chain::balance_point_lookup;
use crate::chain::find_block;
use crate::chain::find_traces;
use crate::chain::lemma_balance_point_member;
use crate::chain::lemma_find_block_is_member;
use crate::chain::same_chain_data;
use crate::error::ScanError;
use crate::records::BlockDbObj;
use crate::records::TxDbObj;
use crate::records::TxTraceDbObj;
use crate::store::RecordStore;
use crate::store::keep_blocks_not_of;
use crate::store::keep_other_blocks;
use crate::store::keep_other_traces;
use crate::store::keep_other_txs;
use crate::store::keep_traces_not_of;
use crate::store::keep_txs_not_of;
use crate::store::lemma_retain_absorb;
use crate::store::lemma_retain_idempotent;
use crate::store::lemma_retain_concat;
use crate::store::lemma_retain_none_kept;
use crate::store::lemma_retain_subset;
use crate::store::seq_retain;
use crate::store::store_conserves;
use crate::store::store_views_eq;
use crate::store::store_wf;

verus! {

/// Withdrawal amounts are expressed in a unit this much coarser than
/// balances and must be scaled before they enter the reconciliation.
pub const WITHDRAWAL_SCALE: u128 = 1000000000;

/// What a block's inspection produced: nothing, because the net balance did
/// not change, or the ledger rows to persist.
#[derive(Debug)]
pub enum InspectOutcome {
    NoChange,
    Report(BlockReport),
}

/// The ledger rows one qualifying block produces: exactly one block row,
/// the interesting transactions, and their call frames.
#[derive(Debug)]
pub struct BlockReport {
    pub block: BlockDbObj,
    pub txs: Vec<TxDbObj>,
    pub traces: Vec<TxTraceDbObj>,
}

/// The value a call frame transfers; zero for any other action kind.
pub open spec fn call_value(f: TraceAction) -> int {
    match f {
        TraceAction::Call { value, .. } => value as int,
        _ => 0,
    }
}

/// A call frame from the block's reward recipient to the scanned address:
/// counted as miner (MEV-style) reward.
pub open spec fn is_miner_frame(f: TraceAction, addr: Address, author: Address) -> bool {
    match f {
        TraceAction::Call { from, to, .. } => from == author && to == addr,
        _ => false,
    }
}

/// A call frame paying the scanned address from anyone but the reward
/// recipient: counted as an incoming transfer.
pub open spec fn is_incoming_frame(f: TraceAction, addr: Address, author: Address) -> bool {
    match f {
        TraceAction::Call { from, to, .. } => to == addr && from != author,
        _ => false,
    }
}

/// A call frame spending from the scanned address to someone else: counted
/// as an outgoing transfer.
pub open spec fn is_outgoing_frame(f: TraceAction, addr: Address) -> bool {
    match f {
        TraceAction::Call { from, to, .. } => from == addr && to != addr,
        _ => false,
    }
}

/// A call frame with the scanned address as sender or receiver; such a
/// frame makes its whole transaction interesting.
pub open spec fn frame_touches(f: TraceAction, addr: Address) -> bool {
    match f {
        TraceAction::Call { from, to, .. } => from == addr || to == addr,
        _ => false,
    }
}

/// A reward-type action, which the reconciliation does not support.
pub open spec fn is_reward_frame(f: TraceAction) -> bool {
    f is Reward
}

/// Total value of miner-reward frames in one transaction's frame list.
pub open spec fn sum_miner(fs: Seq<TraceAction>, addr: Address, author: Address) -> int
    decreases fs.len(),
{
    if fs.len() == 0 {
        0
    } else {
        sum_miner(fs.drop_last(), addr, author)
            + if is_miner_frame(fs.last(), addr, author) { call_value(fs.last()) } else { 0 }
    }
}

/// Total value of incoming frames in one transaction's frame list.
pub open spec fn sum_incoming(fs: Seq<TraceAction>, addr: Address, author: Address) -> int
    decreases fs.len(),
{
    if fs.len() == 0 {
        0
    } else {
        sum_incoming(fs.drop_last(), addr, author)
            + if is_incoming_frame(fs.last(), addr, author) { call_value(fs.last()) } else { 0 }
    }
}

/// Total value of outgoing frames in one transaction's frame list.
pub open spec fn sum_outgoing(fs: Seq<TraceAction>, addr: Address) -> int
    decreases fs.len(),
{
    if fs.len() == 0 {
        0
    } else {
        sum_outgoing(fs.drop_last(), addr)
            + if is_outgoing_frame(fs.last(), addr) { call_value(fs.last()) } else { 0 }
    }
}

/// Total value of all call frames in one transaction's frame list.
pub open spec fn sum_calls(fs: Seq<TraceAction>) -> int
    decreases fs.len(),
{
    if fs.len() == 0 {
        0
    } else {
        sum_calls(fs.drop_last()) + call_value(fs.last())
    }
}

/// Whether a frame list holds a reward-type action.
pub open spec fn has_reward(fs: Seq<TraceAction>) -> bool
    decreases fs.len(),
{
    if fs.len() == 0 {
        false
    } else {
        has_reward(fs.drop_last()) || is_reward_frame(fs.last())
    }
}

/// Whether any frame of a transaction touches the scanned address.
pub open spec fn tx_touches(fs: Seq<TraceAction>, addr: Address) -> bool
    decreases fs.len(),
{
    if fs.len() == 0 {
        false
    } else {
        tx_touches(fs.drop_last(), addr) || frame_touches(fs.last(), addr)
    }
}

/// Total miner reward over a block's transactions' frame lists.
pub open spec fn total_miner(tss: Seq<Seq<TraceAction>>, addr: Address, author: Address) -> int
    decreases tss.len(),
{
    if tss.len() == 0 {
        0
    } else {
        total_miner(tss.drop_last(), addr, author) + sum_miner(tss.last(), addr, author)
    }
}

/// Total incoming transfers over a block's transactions' frame lists.
pub open spec fn total_incoming(tss: Seq<Seq<TraceAction>>, addr: Address, author: Address) -> int
    decreases tss.len(),
{
    if tss.len() == 0 {
        0
    } else {
        total_incoming(tss.drop_last(), addr, author) + sum_incoming(tss.last(), addr, author)
    }
}

/// Total outgoing transfers over a block's transactions' frame lists.
pub open spec fn total_outgoing(tss: Seq<Seq<TraceAction>>, addr: Address) -> int
    decreases tss.len(),
{
    if tss.len() == 0 {
        0
    } else {
        total_outgoing(tss.drop_last(), addr) + sum_outgoing(tss.last(), addr)
    }
}

/// Total value of all call frames over a block's transactions.
pub open spec fn total_calls(tss: Seq<Seq<TraceAction>>) -> int
    decreases tss.len(),
{
    if tss.len() == 0 {
        0
    } else {
        total_calls(tss.drop_last()) + sum_calls(tss.last())
    }
}

/// Whether any transaction of the block holds a reward-type action.
pub open spec fn any_reward(tss: Seq<Seq<TraceAction>>) -> bool
    decreases tss.len(),
{
    if tss.len() == 0 {
        false
    } else {
        any_reward(tss.drop_last()) || has_reward(tss.last())
    }
}

/// The scaled value a withdrawal adds for the scanned address.
pub open spec fn withdrawal_value(w: Withdrawal, addr: Address) -> int {
    if w.address == addr { w.amount * WITHDRAWAL_SCALE } else { 0 }
}

/// Total scaled withdrawal value credited to the scanned address.
pub open spec fn sum_withdrawals(ws: Seq<Withdrawal>, addr: Address) -> int
    decreases ws.len(),
{
    if ws.len() == 0 {
        0
    } else {
        sum_withdrawals(ws.drop_last(), addr) + withdrawal_value(ws.last(), addr)
    }
}

/// Total scaled withdrawal value of the whole list, to any recipient.
pub open spec fn sum_withdrawals_all(ws: Seq<Withdrawal>) -> int
    decreases ws.len(),
{
    if ws.len() == 0 {
        0
    } else {
        sum_withdrawals_all(ws.drop_last()) + ws.last().amount * WITHDRAWAL_SCALE
    }
}

/// The frame lists of a vector of traced transactions, as plain sequences.
pub open spec fn frame_seqs(traces: Seq<Vec<TraceAction>>) -> Seq<Seq<TraceAction>> {
    Seq::new(traces.len(), |i: int| traces[i]@)
}

/// The trace rows one transaction's frame list produces: one row per call
/// frame, indexed by the frame's position among all its actions.
pub open spec fn spec_trace_records(
    addr: Address,
    h: TxHash,
    bn: i64,
    bix: i64,
    fs: Seq<TraceAction>,
) -> Seq<TxTraceDbObj>
    decreases fs.len(),
{
    if fs.len() == 0 {
        Seq::empty()
    } else {
        let prefix = spec_trace_records(addr, h, bn, bix, fs.drop_last());
        match fs.last() {
            TraceAction::Call { from, to, value, gas } => prefix.push(TxTraceDbObj {
                address: addr,
                tx_hash: h,
                block_number: bn,
                block_index: bix,
                trace_index: (fs.len() - 1) as i64,
                from_addr: from,
                to_addr: to,
                value: value,
                gas_used: gas,
            }),
            _ => prefix,
        }
    }
}

/// The transaction row an interesting transaction produces.
pub open spec fn spec_tx_record(addr: Address, bn: i64, bix: i64, tx: ChainTx) -> TxDbObj {
    TxDbObj {
        address: addr,
        tx_hash: tx.tx_hash,
        block_number: bn,
        block_index: bix,
        gas_used: tx.gas,
    }
}

/// The transaction rows of a block: one per transaction whose frames touch
/// the scanned address, in block order.
pub open spec fn spec_interesting_txs(
    addr: Address,
    bn: i64,
    txs: Seq<ChainTx>,
    tss: Seq<Seq<TraceAction>>,
) -> Seq<TxDbObj>
    decreases txs.len(),
{
    if txs.len() == 0 || tss.len() == 0 {
        Seq::empty()
    } else {
        let prefix = spec_interesting_txs(addr, bn, txs.drop_last(), tss.drop_last());
        if tx_touches(tss.last(), addr) {
            prefix.push(spec_tx_record(addr, bn, (txs.len() - 1) as i64, txs.last()))
        } else {
            prefix
        }
    }
}

/// The trace rows of a block: every call frame of every interesting
/// transaction, grouped in block order.
pub open spec fn spec_interesting_traces(
    addr: Address,
    bn: i64,
    txs: Seq<ChainTx>,
    tss: Seq<Seq<TraceAction>>,
) -> Seq<TxTraceDbObj>
    decreases txs.len(),
{
    if txs.len() == 0 || tss.len() == 0 {
        Seq::empty()
    } else {
        let prefix = spec_interesting_traces(addr, bn, txs.drop_last(), tss.drop_last());
        if tx_touches(tss.last(), addr) {
            prefix + spec_trace_records(addr, txs.last().tx_hash, bn, (txs.len() - 1) as i64, tss.last())
        } else {
            prefix
        }
    }
}

/// The block row a qualifying block produces.
pub open spec fn spec_block_record(
    addr: Address,
    block_num: u64,
    balance_prev: u128,
    balance_curr: u128,
    block: BlockData,
    tss: Seq<Seq<TraceAction>>,
) -> BlockDbObj {
    BlockDbObj {
        address: addr,
        block_number: block_num as i64,
        timestamp: block.timestamp as i64,
        balance: balance_curr,
        balance_diff: (balance_curr - balance_prev) as i128,
        block_miner: block.author,
        consensus_reward: sum_withdrawals(block.withdrawals@, addr) as i128,
        mev_reward: total_miner(tss, addr, block.author) as i128,
        block_reward: 0,
        amount_incoming: total_incoming(tss, addr, block.author) as u128,
        amount_outgoing: total_outgoing(tss, addr) as u128,
    }
}

/// Every row of a report carries the report's own address and block number.
pub open spec fn report_wf(rep: BlockReport) -> bool {
    &&& forall|i: int| 0 <= i < rep.txs@.len() ==> (#[trigger] rep.txs@[i]).address == rep.block.address
        && rep.txs@[i].block_number == rep.block.block_number
    &&& forall|i: int| 0 <= i < rep.traces@.len() ==> (#[trigger] rep.traces@[i]).address == rep.block.address
        && rep.traces@[i].block_number == rep.block.block_number
}

/// What `reconcile_block` promises: the no-change short circuit, the two
/// failure modes, and, when the conservation equation balances, exactly the
/// ledger rows the specification functions describe.
pub open spec fn reconcile_post(
    addr: Address,
    block_num: u64,
    balance_prev: u128,
    balance_curr: u128,
    block: BlockData,
    tss: Seq<Seq<TraceAction>>,
    r: Result<InspectOutcome, ScanError>,
) -> bool {
    let diff = balance_curr - balance_prev;
    let wd = sum_withdrawals(block.withdrawals@, addr);
    let inc = total_incoming(tss, addr, block.author);
    let out = total_outgoing(tss, addr);
    let mr = total_miner(tss, addr, block.author);
    &&& (r == Ok::<InspectOutcome, ScanError>(InspectOutcome::NoChange) <==> balance_curr == balance_prev)
    &&& (balance_curr != balance_prev && any_reward(tss)
        ==> r == Err::<InspectOutcome, ScanError>(ScanError::UnsupportedTraceAction))
    &&& (balance_curr != balance_prev && !any_reward(tss) && inc - out + wd + mr != diff
        ==> r == Err::<InspectOutcome, ScanError>(ScanError::ReconciliationMismatch))
    &&& (balance_curr != balance_prev && !any_reward(tss) && inc - out + wd + mr == diff
        ==> (r matches Ok(InspectOutcome::Report(rep))
            && rep.block == spec_block_record(addr, block_num, balance_prev, balance_curr, block, tss)
            && rep.txs@ == spec_interesting_txs(addr, block_num as i64, block.transactions@, tss)
            && rep.traces@ == spec_interesting_traces(addr, block_num as i64, block.transactions@, tss)
            && report_wf(rep)
            && crate::records::block_record_conserves(rep.block)))
}

/// Reconcile one block from already-fetched data: balances before and at
/// the block, the block body, and one frame list per transaction.
///
/// A zero balance delta short-circuits to `NoChange`. A reward-type action
/// fails the block; so does a conservation mismatch, rather than reporting
/// inconsistent figures. Otherwise the returned report holds the block row,
/// the interesting transactions, and all their call frames, exactly as the
/// specification functions state.
#[verifier::loop_isolation(false)]
pub fn reconcile_block(
    address: Address,
    block_num: u64,
    balance_prev: u128,
    balance_curr: u128,
    block: &BlockData,
    traces: &Vec<Vec<TraceAction>>,
) -> (r: Result<InspectOutcome, ScanError>)
    requires
        traces@.len() == block.transactions@.len(),
        block_num <= i64::MAX,
        block.timestamp <= i64::MAX,
        balance_prev <= i128::MAX as u128,
        balance_curr <= i128::MAX as u128,
        block.transactions@.len() <= i64::MAX,
        forall|i: int| 0 <= i < traces@.len() ==> (#[trigger] traces@[i])@.len() <= i64::MAX,
        total_calls(frame_seqs(traces@)) + sum_withdrawals_all(block.withdrawals@) <= i128::MAX,
    ensures
        reconcile_post(address, block_num, balance_prev, balance_curr, *block, frame_seqs(traces@), r),
{
    let ghost tss = frame_seqs(traces@);
    if balance_curr == balance_prev {
        return Ok(InspectOutcome::NoChange);
    }
    let diff: i128 = balance_curr as i128 - balance_prev as i128;

    proof {
        lemma_total_calls_nonneg(tss);
        lemma_sum_withdrawals_all_nonneg(block.withdrawals@);
    }

    let mut amount_withdrawn: i128 = 0;
    let mut wi: usize = 0;
    while wi < block.withdrawals.len()
        invariant
            wi <= block.withdrawals@.len(),
            amount_withdrawn == sum_withdrawals(block.withdrawals@.take(wi as int), address),
            0 <= amount_withdrawn,
            amount_withdrawn <= sum_withdrawals_all(block.withdrawals@.take(wi as int)),
        decreases block.withdrawals@.len() - wi,
    {
        proof {
            assert(block.withdrawals@.take(wi as int + 1).drop_last() =~= block.withdrawals@.take(wi as int));
            assert(block.withdrawals@.take(wi as int + 1).last() == block.withdrawals@[wi as int]);
            lemma_sum_withdrawals_all_take_le(block.withdrawals@, wi as int + 1);
            lemma_sum_withdrawals_bounds(block.withdrawals@.take(wi as int + 1), address);
        }
        let w = block.withdrawals[wi];
        if w.address == address {
            let scaled: u128 = (w.amount as u128) * WITHDRAWAL_SCALE;
            amount_withdrawn = amount_withdrawn + (scaled as i128);
        }
        wi = wi + 1;
    }
    proof {
        assert(block.withdrawals@.take(block.withdrawals@.len() as int) =~= block.withdrawals@);
    }

    let bn_i64: i64 = block_num as i64;
    let mut inc_total: i128 = 0;
    let mut out_total: i128 = 0;
    let mut miner_reward: i128 = 0;
    let mut interesting_txs: Vec<TxDbObj> = Vec::new();
    let mut interesting_traces: Vec<TxTraceDbObj> = Vec::new();
    let mut bi: usize = 0;
    while bi < block.transactions.len()
        invariant
            bi <= block.transactions@.len(),
            !any_reward(tss.take(bi as int)),
            miner_reward == total_miner(tss.take(bi as int), address, block.author),
            inc_total == total_incoming(tss.take(bi as int), address, block.author),
            out_total == total_outgoing(tss.take(bi as int), address),
            interesting_txs@ == spec_interesting_txs(
                address, bn_i64, block.transactions@.take(bi as int), tss.take(bi as int)),
            interesting_traces@ == spec_interesting_traces(
                address, bn_i64, block.transactions@.take(bi as int), tss.take(bi as int)),
            miner_reward + inc_total + out_total <= total_calls(tss.take(bi as int)),
            0 <= miner_reward,
            0 <= inc_total,
            0 <= out_total,
        decreases block.transactions@.len() - bi,
    {
        let tx = block.transactions[bi];
        let frames: &Vec<TraceAction> = &traces[bi];
        proof {
            assert(frames@ == tss[bi as int]);
            assert(frames@.len() <= i64::MAX);
        }
        let ghost outer_miner = miner_reward as int;
        let ghost outer_inc = inc_total as int;
        let ghost outer_out = out_total as int;
        let mut tx_touch = false;
        let mut tx_traces: Vec<TxTraceDbObj> = Vec::new();
        let mut ti: usize = 0;
        while ti < frames.len()
            invariant
                ti <= frames@.len(),
                !has_reward(frames@.take(ti as int)),
                tx_touch == tx_touches(frames@.take(ti as int), address),
                tx_traces@ == spec_trace_records(
                    address, tx.tx_hash, bn_i64, bi as i64, frames@.take(ti as int)),
                miner_reward == outer_miner + sum_miner(frames@.take(ti as int), address, block.author),
                inc_total == outer_inc + sum_incoming(frames@.take(ti as int), address, block.author),
                out_total == outer_out + sum_outgoing(frames@.take(ti as int), address),
                miner_reward + inc_total + out_total
                    <= total_calls(tss.take(bi as int)) + sum_calls(frames@.take(ti as int)),
                0 <= miner_reward,
                0 <= inc_total,
                0 <= out_total,
            decreases frames@.len() - ti,
        {
            proof {
                assert(frames@.take(ti as int + 1).drop_last() =~= frames@.take(ti as int));
                assert(frames@.take(ti as int + 1).last() == frames@[ti as int]);
                lemma_sum_calls_take_le(frames@, ti as int + 1);
                assert(tss.take(bi as int + 1).drop_last() =~= tss.take(bi as int));
                assert(tss.take(bi as int + 1).last() == tss[bi as int]);
                lemma_total_calls_take_le(tss, bi as int + 1);
            }
            match frames[ti] {
                TraceAction::Call { from, to, value, gas } => {
                    let rec = TxTraceDbObj {
                        address: address,
                        tx_hash: tx.tx_hash,
                        block_number: bn_i64,
                        block_index: bi as i64,
                        trace_index: ti as i64,
                        from_addr: from,
                        to_addr: to,
                        value: value,
                        gas_used: gas,
                    };
                    tx_traces.push(rec);
                    if from == address || to == address {
                        tx_touch = true;
                    }
                    proof {
                        assert(call_value(frames@[ti as int]) == value as int);
                        assert(miner_reward + inc_total + out_total + value
                            <= total_calls(tss.take(bi as int)) + sum_calls(frames@.take(ti as int + 1)));
                        assert(total_calls(tss.take(bi as int)) + sum_calls(frames@.take(ti as int + 1))
                            <= total_calls(tss.take(bi as int)) + sum_calls(frames@));
                        assert(total_calls(tss.take(bi as int)) + sum_calls(tss[bi as int])
                            == total_calls(tss.take(bi as int + 1)));
                        assert(value <= i128::MAX);
                    }
                    if from == block.author && to == address {
                        miner_reward = miner_reward + (value as i128);
                    } else if to == address {
                        inc_total = inc_total + (value as i128);
                    } else if from == address {
                        out_total = out_total + (value as i128);
                    }
                }
                TraceAction::Reward => {
                    proof {
                        assert(has_reward(frames@.take(ti as int + 1)));
                        lemma_has_reward_take(frames@, ti as int + 1);
                        lemma_any_reward_member(tss, bi as int);
                    }
                    return Err(ScanError::UnsupportedTraceAction);
                }
                TraceAction::Other => {}
            }
            ti = ti + 1;
        }
        proof {
            assert(frames@.take(frames@.len() as int) =~= frames@);
            assert(block.transactions@.take(bi as int + 1).drop_last() =~= block.transactions@.take(bi as int));
            assert(block.transactions@.take(bi as int + 1).last() == block.transactions@[bi as int]);
            assert(tss.take(bi as int + 1).drop_last() =~= tss.take(bi as int));
            assert(tss.take(bi as int + 1).last() == tss[bi as int]);
        }
        if tx_touch {
            let txrec = TxDbObj {
                address: address,
                tx_hash: tx.tx_hash,
                block_number: bn_i64,
                block_index: bi as i64,
                gas_used: tx.gas,
            };
            interesting_txs.push(txrec);
            let ghost pre = interesting_traces@;
            let mut k: usize = 0;
            while k < tx_traces.len()
                invariant
                    k <= tx_traces@.len(),
                    interesting_traces@ == pre + tx_traces@.take(k as int),
                decreases tx_traces@.len() - k,
            {
                interesting_traces.push(tx_traces[k]);
                proof {
                    assert(pre + tx_traces@.take(k as int + 1)
                        =~= (pre + tx_traces@.take(k as int)).push(tx_traces@[k as int]));
                }
                k = k + 1;
            }
            proof {
                assert(tx_traces@.take(tx_traces@.len() as int) =~= tx_traces@);
            }
        }
        bi = bi + 1;
    }
    proof {
        assert(tss.take(tss.len() as int) =~= tss);
        assert(block.transactions@.take(block.transactions@.len() as int) =~= block.transactions@);
    }

    let sum_diff: i128 = inc_total - out_total;
    if sum_diff + amount_withdrawn + miner_reward != diff {
        return Err(ScanError::ReconciliationMismatch);
    }

    let block_rec = BlockDbObj {
        address: address,
        block_number: bn_i64,
        timestamp: block.timestamp as i64,
        balance: balance_curr,
        balance_diff: diff,
        block_miner: block.author,
        consensus_reward: amount_withdrawn,
        mev_reward: miner_reward,
        block_reward: 0,
        amount_incoming: inc_total as u128,
        amount_outgoing: out_total as u128,
    };
    proof {
        assert(block_rec == spec_block_record(address, block_num, balance_prev, balance_curr, *block, tss));
        lemma_interesting_txs_keyed(address, bn_i64, block.transactions@, tss);
        lemma_interesting_traces_keyed(address, bn_i64, block.transactions@, tss);
    }
    Ok(InspectOutcome::Report(BlockReport {
        block: block_rec,
        txs: interesting_txs,
        traces: interesting_traces,
    }))
}

/// The frame list the chain has recorded for each of the block's
/// transactions, in block order; an untraced transaction reads as empty.
pub open spec fn block_trace_seqs(c: ChainData, b: BlockData) -> Seq<Seq<TraceAction>> {
    Seq::new(b.transactions@.len(), |i: int| match find_traces(c.traces@, b.transactions@[i].tx_hash) {
        Some(ts) => ts.frames@,
        None => Seq::empty(),
    })
}

/// The chain has a trace for every transaction of the block.
pub open spec fn all_traces_present(c: ChainData, b: BlockData) -> bool {
    forall|i: int| 0 <= i < b.transactions@.len()
        ==> find_traces(c.traces@, (#[trigger] b.transactions@[i]).tx_hash) is Some
}

/// The machine limits a block must respect so its figures fit the record
/// fields and the reconciliation arithmetic cannot overflow.
pub open spec fn block_wf(c: ChainData, b: BlockData) -> bool {
    &&& b.number <= i64::MAX
    &&& b.timestamp <= i64::MAX
    &&& b.transactions@.len() <= i64::MAX
    &&& (forall|i: int| 0 <= i < b.transactions@.len()
        ==> (#[trigger] block_trace_seqs(c, b)[i]).len() <= i64::MAX)
    &&& total_calls(block_trace_seqs(c, b)) + sum_withdrawals_all(b.withdrawals@) <= i128::MAX
}

/// The machine limits a whole snapshot must respect.
pub open spec fn chain_wf(c: ChainData) -> bool {
    &&& c.height <= i64::MAX
    &&& (forall|i: int| 0 <= i < c.blocks@.len() ==> block_wf(c, #[trigger] c.blocks@[i]))
    &&& (forall|i: int| 0 <= i < c.balance_points@.len()
        ==> (#[trigger] c.balance_points@[i]).balance <= i128::MAX as u128)
}

/// On a well-formed chain every balance fits the signed arithmetic.
pub proof fn lemma_balance_of_bounded(c: ChainData, addr: Address, n: u64)
    requires
        chain_wf(c),
    ensures
        balance_of(c, addr, n) <= i128::MAX as u128,
{
    if balance_point_lookup(c.balance_points@, addr, n) is Some {
        lemma_balance_point_member(c.balance_points@, addr, n);
    }
}

/// Well-formedness does not read the snapshot's query counter.
pub proof fn lemma_chain_wf_calls_irrelevant(c1: ChainData, c2: ChainData)
    requires
        chain_wf(c1),
        same_chain_data(c1, c2),
    ensures
        chain_wf(c2),
{
    assert forall|i: int| 0 <= i < c2.blocks@.len() implies block_wf(c2, #[trigger] c2.blocks@[i]) by {
        let b = c1.blocks@[i];
        assert(block_wf(c1, b));
        assert(block_trace_seqs(c2, b) =~= block_trace_seqs(c1, b));
        assert forall|j: int| 0 <= j < b.transactions@.len()
            implies (#[trigger] block_trace_seqs(c2, b)[j]).len() <= i64::MAX by {
            assert(block_trace_seqs(c2, b)[j] == block_trace_seqs(c1, b)[j]);
        }
    }
}

/// The result inspecting one block must produce, as a function of the
/// chain alone: success on a zero delta, the block's absence, a missing
/// trace, a reward-type action, a conservation mismatch, or a balanced
/// reconciliation, in that order of precedence.
pub open spec fn inspect_result(chain: ChainData, address: Address, block_num: u64) -> Result<(), ScanError> {
    let prev = balance_of(chain, address, (block_num - 1) as u64);
    let curr = balance_of(chain, address, block_num);
    if prev == curr {
        Ok(())
    } else {
        match find_block(chain.blocks@, block_num) {
            None => Err(ScanError::BlockNotFound),
            Some(b) => {
                let tss = block_trace_seqs(chain, b);
                if !all_traces_present(chain, b) {
                    Err(ScanError::ChainClientError)
                } else if any_reward(tss) {
                    Err(ScanError::UnsupportedTraceAction)
                } else if total_incoming(tss, address, b.author) - total_outgoing(tss, address)
                    + sum_withdrawals(b.withdrawals@, address) + total_miner(tss, address, b.author)
                    != curr - prev {
                    Err(ScanError::ReconciliationMismatch)
                } else {
                    Ok(())
                }
            }
        }
    }
}

/// Every row the table holds for the given address is the correct
/// reconciliation of its own block. This holds vacuously of a table with no
/// rows for the address, and the engine preserves it.
pub open spec fn rows_correct_for(chain: ChainData, blocks: Seq<BlockDbObj>, address: Address) -> bool {
    forall|k: int| 0 <= k < blocks.len()
        ==> ((#[trigger] blocks[k]).address == address
            ==> correct_block_row(chain, address, blocks[k]))
}

/// A ledger row that is the correct reconciliation of its own block against
/// the chain: the block exists, its delta is nonzero, and the row is
/// exactly what the specification functions build for it.
pub open spec fn correct_block_row(chain: ChainData, address: Address, row: BlockDbObj) -> bool {
    &&& 1 <= row.block_number
    &&& match find_block(chain.blocks@, row.block_number as u64) {
        Some(b) => {
            let n = row.block_number as u64;
            let prev = balance_of(chain, address, (n - 1) as u64);
            let curr = balance_of(chain, address, n);
            &&& prev != curr
            &&& row == spec_block_record(address, n, prev, curr, b, block_trace_seqs(chain, b))
        }
        None => false,
    }
}

/// Row correctness does not read the snapshot's query counter.
pub proof fn lemma_correct_row_same_chain(c1: ChainData, c2: ChainData, address: Address, row: BlockDbObj)
    requires
        same_chain_data(c1, c2),
    ensures
        correct_block_row(c1, address, row) == correct_block_row(c2, address, row),
{
    let n = row.block_number as u64;
    assert(find_block(c1.blocks@, n) == find_block(c2.blocks@, n));
    match find_block(c1.blocks@, n) {
        Some(b) => {
            assert(balance_of(c1, address, (n - 1) as u64) == balance_of(c2, address, (n - 1) as u64));
            assert(balance_of(c1, address, n) == balance_of(c2, address, n));
            assert(block_trace_seqs(c1, b) =~= block_trace_seqs(c2, b));
        }
        None => {}
    }
}

/// Neither does table-wide row correctness.
pub proof fn lemma_rows_correct_same_chain(
    c1: ChainData,
    c2: ChainData,
    blocks: Seq<BlockDbObj>,
    address: Address,
)
    requires
        same_chain_data(c1, c2),
        rows_correct_for(c1, blocks, address),
    ensures
        rows_correct_for(c2, blocks, address),
{
    assert forall|k: int| 0 <= k < blocks.len()
        implies ((#[trigger] blocks[k]).address == address
            ==> correct_block_row(c2, address, blocks[k])) by {
        if blocks[k].address == address {
            lemma_correct_row_same_chain(c1, c2, address, blocks[k]);
        }
    }
}

/// Neither the inspection verdict nor its store effect reads the snapshot's
/// query counter.
pub proof fn lemma_inspect_same_chain(
    c1: ChainData,
    c2: ChainData,
    s0: RecordStore,
    s1: RecordStore,
    address: Address,
    block_num: u64,
    r: Result<(), ScanError>,
)
    requires
        same_chain_data(c1, c2),
    ensures
        inspect_result(c1, address, block_num) == inspect_result(c2, address, block_num),
        inspect_post(c1, s0, s1, address, block_num, r) ==> inspect_post(c2, s0, s1, address, block_num, r),
{
    assert(balance_of(c1, address, (block_num - 1) as u64) == balance_of(c2, address, (block_num - 1) as u64));
    assert(balance_of(c1, address, block_num) == balance_of(c2, address, block_num));
    assert(find_block(c1.blocks@, block_num) == find_block(c2.blocks@, block_num));
    match find_block(c1.blocks@, block_num) {
        Some(b) => {
            assert(block_trace_seqs(c1, b) =~= block_trace_seqs(c2, b));
            if all_traces_present(c1, b) {
                assert forall|i: int| 0 <= i < b.transactions@.len()
                    implies find_traces(c2.traces@, (#[trigger] b.transactions@[i]).tx_hash) is Some by {
                    assert(find_traces(c1.traces@, b.transactions@[i].tx_hash) is Some);
                }
            }
            if all_traces_present(c2, b) {
                assert forall|i: int| 0 <= i < b.transactions@.len()
                    implies find_traces(c1.traces@, (#[trigger] b.transactions@[i]).tx_hash) is Some by {
                    assert(find_traces(c2.traces@, b.transactions@[i].tx_hash) is Some);
                }
            }
        }
        None => {}
    }
}

/// What `inspect_block` promises of the store: untouched on the zero-delta
/// short circuit and when the block body is missing; once the body is
/// found, the key's prior rows are deleted first, so a failure past that
/// point leaves the key with no rows at all, and success leaves exactly the
/// block's fresh ledger rows.
pub open spec fn inspect_post(
    chain: ChainData,
    old_store: RecordStore,
    new_store: RecordStore,
    address: Address,
    block_num: u64,
    r: Result<(), ScanError>,
) -> bool {
    let prev = balance_of(chain, address, (block_num - 1) as u64);
    let curr = balance_of(chain, address, block_num);
    let wiped_blocks = seq_retain(old_store.blocks@, keep_other_blocks(address, block_num as i64));
    let wiped_txs = seq_retain(old_store.txs@, keep_other_txs(address, block_num as i64));
    let wiped_traces = seq_retain(old_store.tx_traces@, keep_other_traces(address, block_num as i64));
    &&& new_store.scans@ == old_store.scans@
    &&& (prev == curr ==> r == Ok::<(), ScanError>(()) && store_views_eq(new_store, old_store))
    &&& (prev != curr ==> match find_block(chain.blocks@, block_num) {
        None => r == Err::<(), ScanError>(ScanError::BlockNotFound)
            && store_views_eq(new_store, old_store),
        Some(b) => {
            let tss = block_trace_seqs(chain, b);
            let wd = sum_withdrawals(b.withdrawals@, address);
            let inc = total_incoming(tss, address, b.author);
            let out = total_outgoing(tss, address);
            let mr = total_miner(tss, address, b.author);
            if !all_traces_present(chain, b) {
                r == Err::<(), ScanError>(ScanError::ChainClientError)
                    && new_store.blocks@ == wiped_blocks
                    && new_store.txs@ == wiped_txs
                    && new_store.tx_traces@ == wiped_traces
            } else if any_reward(tss) {
                r == Err::<(), ScanError>(ScanError::UnsupportedTraceAction)
                    && new_store.blocks@ == wiped_blocks
                    && new_store.txs@ == wiped_txs
                    && new_store.tx_traces@ == wiped_traces
            } else if inc - out + wd + mr != curr - prev {
                r == Err::<(), ScanError>(ScanError::ReconciliationMismatch)
                    && new_store.blocks@ == wiped_blocks
                    && new_store.txs@ == wiped_txs
                    && new_store.tx_traces@ == wiped_traces
            } else {
                &&& r == Ok::<(), ScanError>(())
                &&& new_store.blocks@ == seq_retain(old_store.blocks@,
                        keep_other_blocks(address, block_num as i64))
                    .push(spec_block_record(address, block_num, prev, curr, b, tss))
                &&& new_store.txs@ == seq_retain(old_store.txs@,
                        keep_other_txs(address, block_num as i64))
                    + spec_interesting_txs(address, block_num as i64, b.transactions@, tss)
                &&& new_store.tx_traces@ == seq_retain(old_store.tx_traces@,
                        keep_other_traces(address, block_num as i64))
                    + spec_interesting_traces(address, block_num as i64, b.transactions@, tss)
            }
        }
    })
}

/// Copy one frame list out of the snapshot's trace set.
fn copy_frames(src: &Vec<TraceAction>) -> (r: Vec<TraceAction>)
    ensures
        r@ == src@,
{
    let mut out: Vec<TraceAction> = Vec::new();
    let mut i: usize = 0;
    while i < src.len()
        invariant
            i <= src@.len(),
            out@ == src@.take(i as int),
        decreases src@.len() - i,
    {
        out.push(src[i]);
        proof {
            assert(src@.take(i as int + 1) =~= src@.take(i as int).push(src@[i as int]));
        }
        i = i + 1;
    }
    proof {
        assert(src@.take(src@.len() as int) =~= src@);
    }
    out
}

/// Inspect one block against the chain: fetch the balances before and at
/// the block through the cache, short-circuit when the delta is zero, fetch
/// the block body, delete any prior rows for the same key (so re-inspection
/// is idempotent and a stale row never outlives a block that now fails),
/// fetch every transaction's trace, reconcile, and persist the resulting
/// rows.
///
/// A failing block is never persisted with inconsistent figures: a failure
/// after the body was found leaves the key with no rows at all, and the
/// missing ledger row is itself the audit signal.
#[verifier::loop_isolation(false)]
pub fn inspect_block(
    chain: &mut ChainData,
    cache: &mut BalanceCache,
    store: &mut RecordStore,
    address: Address,
    block_num: u64,
) -> (r: Result<(), ScanError>)
    requires
        chain_wf(*old(chain)),
        cache_consistent(*old(cache), *old(chain)),
        1 <= block_num,
        block_num <= i64::MAX,
    ensures
        same_chain_data(*final(chain), *old(chain)),
        chain_wf(*final(chain)),
        cache_consistent(*final(cache), *final(chain)),
        r == inspect_result(*old(chain), address, block_num),
        inspect_post(*old(chain), *old(store), *final(store), address, block_num, r),
        store_conserves(*old(store)) ==> store_conserves(*final(store)),
        store_wf(*old(store)) ==> store_wf(*final(store)),
        rows_correct_for(*old(chain), old(store).blocks@, address)
            ==> rows_correct_for(*old(chain), final(store).blocks@, address),
        seq_retain(final(store).blocks@, keep_blocks_not_of(address))
            == seq_retain(old(store).blocks@, keep_blocks_not_of(address)),
        seq_retain(final(store).txs@, keep_txs_not_of(address))
            == seq_retain(old(store).txs@, keep_txs_not_of(address)),
        seq_retain(final(store).tx_traces@, keep_traces_not_of(address))
            == seq_retain(old(store).tx_traces@, keep_traces_not_of(address)),
{
    let balance_prev = cached_get_balance(chain, cache, address, block_num - 1);
    let balance_curr = cached_get_balance(chain, cache, address, block_num);
    proof {
        lemma_chain_wf_calls_irrelevant(*old(chain), *chain);
        lemma_balance_of_bounded(*old(chain), address, (block_num - 1) as u64);
        lemma_balance_of_bounded(*old(chain), address, block_num);
    }
    if balance_prev == balance_curr {
        proof {
            if rows_correct_for(*old(chain), old(store).blocks@, address) {
                assert forall|k: int| #![trigger store.blocks@[k]] 0 <= k < store.blocks@.len()
                    implies (store.blocks@[k].address == address
                        ==> correct_block_row(*old(chain), address, store.blocks@[k])) by {
                    assert(store.blocks@[k] == old(store).blocks@[k]);
                }
            }
        }
        return Ok(());
    }
    let block = match chain.get_block(block_num) {
        Some(b) => b,
        None => {
            proof {
                if rows_correct_for(*old(chain), old(store).blocks@, address) {
                    assert forall|k: int| #![trigger store.blocks@[k]] 0 <= k < store.blocks@.len()
                        implies (store.blocks@[k].address == address
                            ==> correct_block_row(*old(chain), address, store.blocks@[k])) by {
                        assert(store.blocks@[k] == old(store).blocks@[k]);
                    }
                }
            }
            return Err(ScanError::BlockNotFound);
        }
    };
    proof {
        lemma_find_block_is_member(chain.blocks@, block_num);
        assert(block_wf(*chain, *block));
        assert(block_trace_seqs(*chain, *block) =~= block_trace_seqs(*old(chain), *block));
        assert forall|j: int| 0 <= j < block.transactions@.len()
            implies (#[trigger] block_trace_seqs(*old(chain), *block)[j]).len() <= i64::MAX by {
            assert(block_trace_seqs(*old(chain), *block)[j] == block_trace_seqs(*chain, *block)[j]);
        }
    }
    let ghost bts = block_trace_seqs(*old(chain), *block);

    // The body was found: clear any prior rows for this key, so that a
    // block that no longer reconciles sheds its stale rows.
    store.delete_block_tx(address, block_num as i64);
    proof {
        let bn_i64 = block_num as i64;
        let not_of_b = keep_blocks_not_of(address);
        let not_of_t = keep_txs_not_of(address);
        let not_of_r = keep_traces_not_of(address);
        lemma_retain_absorb(old(store).blocks@, keep_other_blocks(address, bn_i64), not_of_b);
        lemma_retain_absorb(old(store).txs@, keep_other_txs(address, bn_i64), not_of_t);
        lemma_retain_absorb(old(store).tx_traces@, keep_other_traces(address, bn_i64), not_of_r);
        lemma_retain_subset(old(store).blocks@, keep_other_blocks(address, bn_i64));
        if rows_correct_for(*old(chain), old(store).blocks@, address) {
            assert forall|k: int| #![trigger store.blocks@[k]] 0 <= k < store.blocks@.len()
                implies (store.blocks@[k].address == address
                    ==> correct_block_row(*old(chain), address, store.blocks@[k])) by {
                assert(store.blocks@[k]
                    == seq_retain(old(store).blocks@, keep_other_blocks(address, bn_i64))[k]);
                let m = choose|m: int| 0 <= m < old(store).blocks@.len()
                    && old(store).blocks@[m]
                        == seq_retain(old(store).blocks@, keep_other_blocks(address, bn_i64))[k];
                assert(old(store).blocks@[m] == store.blocks@[k]);
            }
        }
        if store_conserves(*old(store)) {
            assert forall|k: int| 0 <= k < store.blocks@.len()
                implies crate::records::block_record_conserves(#[trigger] store.blocks@[k]) by {
                let m = choose|m: int| 0 <= m < old(store).blocks@.len()
                    && old(store).blocks@[m] == store.blocks@[k];
                assert(crate::records::block_record_conserves(old(store).blocks@[m]));
            }
        }
    }

    let mut traces: Vec<Vec<TraceAction>> = Vec::new();
    let mut i: usize = 0;
    while i < block.transactions.len()
        invariant
            i <= block.transactions@.len(),
            traces@.len() == i,
            forall|j: int| 0 <= j < i ==> (#[trigger] traces@[j])@ == bts[j],
            forall|j: int| 0 <= j < i
                ==> find_traces(chain.traces@, (#[trigger] block.transactions@[j]).tx_hash) is Some,
        decreases block.transactions@.len() - i,
    {
        match chain.get_transaction_traces(block.transactions[i].tx_hash) {
            Some(ts) => {
                let frames = copy_frames(&ts.frames);
                traces.push(frames);
            }
            None => {
                proof {
                    assert(!all_traces_present(*old(chain), *block));
                }
                return Err(ScanError::ChainClientError);
            }
        }
        i = i + 1;
    }
    proof {
        assert(all_traces_present(*old(chain), *block));
        assert(frame_seqs(traces@) =~= bts);
    }

    match reconcile_block(address, block_num, balance_prev, balance_curr, block, &traces) {
        Ok(InspectOutcome::NoChange) => {
            proof {
                assert(false);
            }
            Ok(())
        }
        Ok(InspectOutcome::Report(rep)) => {
            proof {
                assert(rep.block.address == address);
                assert(rep.block.block_number == block_num as i64);
            }
            store.persist_report(&rep);
            proof {
                let bn_i64 = block_num as i64;
                let not_of_b = keep_blocks_not_of(address);
                let not_of_t = keep_txs_not_of(address);
                let not_of_r = keep_traces_not_of(address);
                lemma_retain_idempotent(old(store).blocks@, keep_other_blocks(address, bn_i64));
                lemma_retain_idempotent(old(store).txs@, keep_other_txs(address, bn_i64));
                lemma_retain_idempotent(old(store).tx_traces@, keep_other_traces(address, bn_i64));
                lemma_retain_absorb(old(store).blocks@, keep_other_blocks(address, bn_i64), not_of_b);
                lemma_retain_absorb(old(store).txs@, keep_other_txs(address, bn_i64), not_of_t);
                lemma_retain_absorb(old(store).tx_traces@, keep_other_traces(address, bn_i64), not_of_r);
                let kept_b = seq_retain(old(store).blocks@, keep_other_blocks(address, bn_i64));
                let kept_t = seq_retain(old(store).txs@, keep_other_txs(address, bn_i64));
                let kept_r = seq_retain(old(store).tx_traces@, keep_other_traces(address, bn_i64));
                assert(kept_b.push(rep.block).drop_last() =~= kept_b);
                assert(!not_of_b(rep.block));
                lemma_retain_concat(kept_t, rep.txs@, not_of_t);
                lemma_retain_concat(kept_r, rep.traces@, not_of_r);
                assert forall|k: int| 0 <= k < rep.txs@.len()
                    implies !not_of_t(#[trigger] rep.txs@[k]) by {
                }
                assert forall|k: int| 0 <= k < rep.traces@.len()
                    implies !not_of_r(#[trigger] rep.traces@[k]) by {
                }
                lemma_retain_none_kept(rep.txs@, not_of_t);
                lemma_retain_none_kept(rep.traces@, not_of_r);
                assert(seq_retain(kept_t, not_of_t) + Seq::<TxDbObj>::empty()
                    =~= seq_retain(kept_t, not_of_t));
                assert(seq_retain(kept_r, not_of_r) + Seq::<TxTraceDbObj>::empty()
                    =~= seq_retain(kept_r, not_of_r));
                lemma_retain_subset(old(store).blocks@,
                    keep_other_blocks(address, block_num as i64));
                let retained = seq_retain(old(store).blocks@,
                    keep_other_blocks(address, block_num as i64));
                if store_conserves(*old(store)) {
                    assert forall|k: int| 0 <= k < store.blocks@.len()
                        implies crate::records::block_record_conserves(#[trigger] store.blocks@[k]) by {
                        if k < retained.len() {
                            assert(store.blocks@[k] == retained[k]);
                            let m = choose|m: int| 0 <= m < old(store).blocks@.len()
                                && old(store).blocks@[m] == retained[k];
                            assert(crate::records::block_record_conserves(old(store).blocks@[m]));
                        } else {
                            assert(store.blocks@[k] == rep.block);
                        }
                    }
                }
                assert(correct_block_row(*old(chain), address, rep.block));
                if rows_correct_for(*old(chain), old(store).blocks@, address) {
                    assert forall|k: int| #![trigger store.blocks@[k]] 0 <= k < store.blocks@.len()
                        implies (store.blocks@[k].address == address
                            ==> correct_block_row(*old(chain), address, store.blocks@[k])) by {
                        if k < retained.len() {
                            assert(store.blocks@[k] == retained[k]);
                            let m = choose|m: int| 0 <= m < old(store).blocks@.len()
                                && old(store).blocks@[m] == retained[k];
                            assert(old(store).blocks@[m] == store.blocks@[k]);
                        } else {
                            assert(store.blocks@[k] == rep.block);
                        }
                    }
                }
            }
            Ok(())
        }
        Err(e) => Err(e),
    }
}

pub proof fn lemma_sum_calls_nonneg(fs: Seq<TraceAction>)
    ensures
        sum_calls(fs) >= 0,
    decreases fs.len(),
{
    if fs.len() > 0 {
        lemma_sum_calls_nonneg(fs.drop_last());
    }
}

/// The three frame classes are disjoint, so their sums are each
/// non-negative and together bounded by the total call value.
pub proof fn lemma_class_sums(fs: Seq<TraceAction>, addr: Address, author: Address)
    ensures
        0 <= sum_miner(fs, addr, author),
        0 <= sum_incoming(fs, addr, author),
        0 <= sum_outgoing(fs, addr),
        sum_miner(fs, addr, author) + sum_incoming(fs, addr, author) + sum_outgoing(fs, addr)
            <= sum_calls(fs),
    decreases fs.len(),
{
    if fs.len() > 0 {
        lemma_class_sums(fs.drop_last(), addr, author);
    }
}

pub proof fn lemma_sum_calls_take_le(fs: Seq<TraceAction>, i: int)
    requires
        0 <= i <= fs.len(),
    ensures
        sum_calls(fs.take(i)) <= sum_calls(fs),
    decreases fs.len(),
{
    if i == fs.len() {
        assert(fs.take(i) =~= fs);
    } else {
        assert(fs.drop_last().take(i) =~= fs.take(i));
        lemma_sum_calls_take_le(fs.drop_last(), i);
    }
}

pub proof fn lemma_total_calls_nonneg(tss: Seq<Seq<TraceAction>>)
    ensures
        total_calls(tss) >= 0,
    decreases tss.len(),
{
    if tss.len() > 0 {
        lemma_total_calls_nonneg(tss.drop_last());
        lemma_sum_calls_nonneg(tss.last());
    }
}

pub proof fn lemma_total_calls_take_le(tss: Seq<Seq<TraceAction>>, i: int)
    requires
        0 <= i <= tss.len(),
    ensures
        total_calls(tss.take(i)) <= total_calls(tss),
    decreases tss.len(),
{
    if i == tss.len() {
        assert(tss.take(i) =~= tss);
    } else {
        assert(tss.drop_last().take(i) =~= tss.take(i));
        lemma_total_calls_take_le(tss.drop_last(), i);
        lemma_sum_calls_nonneg(tss.last());
    }
}

pub proof fn lemma_sum_withdrawals_all_nonneg(ws: Seq<Withdrawal>)
    ensures
        sum_withdrawals_all(ws) >= 0,
    decreases ws.len(),
{
    if ws.len() > 0 {
        lemma_sum_withdrawals_all_nonneg(ws.drop_last());
    }
}

/// The credited withdrawal sum sits between zero and the whole list's sum.
pub proof fn lemma_sum_withdrawals_bounds(ws: Seq<Withdrawal>, addr: Address)
    ensures
        0 <= sum_withdrawals(ws, addr),
        sum_withdrawals(ws, addr) <= sum_withdrawals_all(ws),
    decreases ws.len(),
{
    if ws.len() > 0 {
        lemma_sum_withdrawals_bounds(ws.drop_last(), addr);
    }
}

pub proof fn lemma_sum_withdrawals_all_take_le(ws: Seq<Withdrawal>, i: int)
    requires
        0 <= i <= ws.len(),
    ensures
        sum_withdrawals_all(ws.take(i)) <= sum_withdrawals_all(ws),
    decreases ws.len(),
{
    if i == ws.len() {
        assert(ws.take(i) =~= ws);
    } else {
        assert(ws.drop_last().take(i) =~= ws.take(i));
        lemma_sum_withdrawals_all_take_le(ws.drop_last(), i);
    }
}

/// A reward seen in a prefix of a frame list is in the whole list.
pub proof fn lemma_has_reward_take(fs: Seq<TraceAction>, i: int)
    requires
        0 <= i <= fs.len(),
        has_reward(fs.take(i)),
    ensures
        has_reward(fs),
    decreases fs.len(),
{
    if i == fs.len() {
        assert(fs.take(i) =~= fs);
    } else {
        assert(fs.drop_last().take(i) =~= fs.take(i));
        lemma_has_reward_take(fs.drop_last(), i);
    }
}

/// A reward in any member frame list shows up at the block level.
pub proof fn lemma_any_reward_member(tss: Seq<Seq<TraceAction>>, i: int)
    requires
        0 <= i < tss.len(),
        has_reward(tss[i]),
    ensures
        any_reward(tss),
    decreases tss.len(),
{
    if i < tss.len() - 1 {
        assert(tss.drop_last()[i] == tss[i]);
        lemma_any_reward_member(tss.drop_last(), i);
    }
}

pub proof fn lemma_trace_records_keyed(addr: Address, h: TxHash, bn: i64, bix: i64, fs: Seq<TraceAction>)
    ensures
        forall|k: int| 0 <= k < spec_trace_records(addr, h, bn, bix, fs).len()
            ==> (#[trigger] spec_trace_records(addr, h, bn, bix, fs)[k]).address == addr
                && spec_trace_records(addr, h, bn, bix, fs)[k].block_number == bn,
    decreases fs.len(),
{
    if fs.len() > 0 {
        lemma_trace_records_keyed(addr, h, bn, bix, fs.drop_last());
        let prefix = spec_trace_records(addr, h, bn, bix, fs.drop_last());
        let whole = spec_trace_records(addr, h, bn, bix, fs);
        assert forall|k: int| 0 <= k < whole.len() implies whole[k].address == addr
            && whole[k].block_number == bn by {
            if k < prefix.len() {
                assert(whole[k] == prefix[k]);
            }
        }
    }
}

pub proof fn lemma_interesting_txs_keyed(addr: Address, bn: i64, txs: Seq<ChainTx>, tss: Seq<Seq<TraceAction>>)
    ensures
        forall|k: int| 0 <= k < spec_interesting_txs(addr, bn, txs, tss).len()
            ==> (#[trigger] spec_interesting_txs(addr, bn, txs, tss)[k]).address == addr
                && spec_interesting_txs(addr, bn, txs, tss)[k].block_number == bn,
    decreases txs.len(),
{
    if txs.len() > 0 && tss.len() > 0 {
        lemma_interesting_txs_keyed(addr, bn, txs.drop_last(), tss.drop_last());
        let prefix = spec_interesting_txs(addr, bn, txs.drop_last(), tss.drop_last());
        let whole = spec_interesting_txs(addr, bn, txs, tss);
        assert forall|k: int| 0 <= k < whole.len() implies whole[k].address == addr
            && whole[k].block_number == bn by {
            if k < prefix.len() {
                assert(whole[k] == prefix[k]);
            }
        }
    }
}

pub proof fn lemma_interesting_traces_keyed(addr: Address, bn: i64, txs: Seq<ChainTx>, tss: Seq<Seq<TraceAction>>)
    ensures
        forall|k: int| 0 <= k < spec_interesting_traces(addr, bn, txs, tss).len()
            ==> (#[trigger] spec_interesting_traces(addr, bn, txs, tss)[k]).address == addr
                && spec_interesting_traces(addr, bn, txs, tss)[k].block_number == bn,
    decreases txs.len(),
{
    if txs.len() > 0 && tss.len() > 0 {
        lemma_interesting_traces_keyed(addr, bn, txs.drop_last(), tss.drop_last());
        lemma_trace_records_keyed(addr, txs.last().tx_hash, bn, (txs.len() - 1) as i64, tss.last());
        let prefix = spec_interesting_traces(addr, bn, txs.drop_last(), tss.drop_last());
        let recs = spec_trace_records(addr, txs.last().tx_hash, bn, (txs.len() - 1) as i64, tss.last());
        let whole = spec_interesting_traces(addr, bn, txs, tss);
        assert forall|k: int| 0 <= k < whole.len() implies whole[k].address == addr
            && whole[k].block_number == bn by {
            if tx_touches(tss.last(), addr) {
                if k < prefix.len() {
                    assert(whole[k] == prefix[k]);
                } else {
                    assert(whole[k] == recs[k - prefix.len()]);
                }
            } else {
                assert(whole[k] == prefix[k]);
            }
        }
    }
}

} // verus!
