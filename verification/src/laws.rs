//! The engine's cross-function guarantees, stated over the store's
//! specification functions and proved once and for all.

use vstd::prelude::*;

use crate::inspect::BlockReport;
use crate::inspect::report_wf;
use crate::records::BlockDbObj;
use crate::records::TxDbObj;
use crate::records::TxTraceDbObj;
use crate::records::block_record_conserves;
use crate::store::blocks_after_report;
use crate::store::keep_other_blocks;
use crate::store::keep_other_traces;
use crate::store::keep_other_txs;
use crate::store::lemma_retain_concat;
use crate::store::lemma_retain_idempotent;
use crate::store::lemma_retain_none_kept;
use crate::store::lemma_retain_subset;
use crate::store::seq_retain;
use crate::store::traces_after_report;
use crate::store::txs_after_report;

verus! {

/// Re-inspection is idempotent: persisting the same block report twice
/// leaves every table exactly as persisting it once does, because the
/// delete-then-reinsert step removes precisely the rows the report itself
/// carries.
pub proof fn lemma_reinspection_idempotent(
    blocks: Seq<BlockDbObj>,
    txs: Seq<TxDbObj>,
    trs: Seq<TxTraceDbObj>,
    rep: BlockReport,
)
    requires
        report_wf(rep),
    ensures
        blocks_after_report(blocks_after_report(blocks, rep), rep) == blocks_after_report(blocks, rep),
        txs_after_report(txs_after_report(txs, rep), rep) == txs_after_report(txs, rep),
        traces_after_report(traces_after_report(trs, rep), rep) == traces_after_report(trs, rep),
{
    let a = rep.block.address;
    let n = rep.block.block_number;
    let kb = keep_other_blocks(a, n);
    let kt = keep_other_txs(a, n);
    let kr = keep_other_traces(a, n);

    let rb = seq_retain(blocks, kb);
    assert(rb.push(rep.block).drop_last() =~= rb);
    assert(!kb(rep.block));
    lemma_retain_idempotent(blocks, kb);

    let rt = seq_retain(txs, kt);
    lemma_retain_concat(rt, rep.txs@, kt);
    lemma_retain_idempotent(txs, kt);
    assert forall|k: int| 0 <= k < rep.txs@.len() implies !kt(#[trigger] rep.txs@[k]) by {
    }
    lemma_retain_none_kept(rep.txs@, kt);
    assert(seq_retain(rt, kt) + Seq::<TxDbObj>::empty() =~= seq_retain(rt, kt));

    let rr = seq_retain(trs, kr);
    lemma_retain_concat(rr, rep.traces@, kr);
    lemma_retain_idempotent(trs, kr);
    assert forall|k: int| 0 <= k < rep.traces@.len() implies !kr(#[trigger] rep.traces@[k]) by {
    }
    lemma_retain_none_kept(rep.traces@, kr);
    assert(seq_retain(rr, kr) + Seq::<TxTraceDbObj>::empty() =~= seq_retain(rr, kr));
}

/// Conservation is an invariant of the block table: when every persisted
/// row satisfies the conservation law and a report whose row satisfies it
/// is persisted, every row of the resulting table still satisfies it.
pub proof fn lemma_persist_preserves_conservation(blocks: Seq<BlockDbObj>, rep: BlockReport)
    requires
        forall|i: int| 0 <= i < blocks.len() ==> block_record_conserves(#[trigger] blocks[i]),
        block_record_conserves(rep.block),
    ensures
        forall|i: int| 0 <= i < blocks_after_report(blocks, rep).len()
            ==> block_record_conserves(#[trigger] blocks_after_report(blocks, rep)[i]),
{
    let kb = keep_other_blocks(rep.block.address, rep.block.block_number);
    let kept = seq_retain(blocks, kb);
    lemma_retain_subset(blocks, kb);
    assert forall|i: int| 0 <= i < blocks_after_report(blocks, rep).len()
        implies block_record_conserves(#[trigger] blocks_after_report(blocks, rep)[i]) by {
        if i < kept.len() {
            assert(blocks_after_report(blocks, rep)[i] == kept[i]);
            let m = choose|m: int| 0 <= m < blocks.len() && blocks[m] == kept[i];
            assert(block_record_conserves(blocks[m]));
        } else {
            assert(blocks_after_report(blocks, rep)[i] == rep.block);
        }
    }
}

} // verus!
