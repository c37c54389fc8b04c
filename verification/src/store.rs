//! The persistence model the engine writes through: scan checkpoints and
//! the three ledger tables, all keyed by address (and block number where it
//! applies). The store is a plain in-memory value with exact contracts, so
//! every driver-level guarantee about what ends up persisted is checked
//! against it.

use vstd::prelude::*;

use crate::chain::Address;
use crate::error::ScanError;
use crate::inspect::BlockReport;
use crate::records::BlockDbObj;
use crate::records::ScanDbObj;
use crate::records::TxDbObj;
use crate::records::TxTraceDbObj;

verus! {

/// The persisted state: one checkpoint row per scanned address, and the
/// block, transaction, and trace tables.
#[derive(Debug)]
#[verifier::ext_equal]
pub struct RecordStore {
    pub scans: Vec<ScanDbObj>,
    pub blocks: Vec<BlockDbObj>,
    pub txs: Vec<TxDbObj>,
    pub tx_traces: Vec<TxTraceDbObj>,
}

/// The elements of `s` that satisfy `keep`, in their original order.
pub open spec fn seq_retain<T>(s: Seq<T>, keep: spec_fn(T) -> bool) -> Seq<T>
    decreases s.len(),
{
    if s.len() == 0 {
        Seq::empty()
    } else {
        let prefix = seq_retain(s.drop_last(), keep);
        if keep(s.last()) {
            prefix.push(s.last())
        } else {
            prefix
        }
    }
}

/// Keep the checkpoint rows of every address but `addr`.
pub open spec fn keep_other_scans(addr: Address) -> spec_fn(ScanDbObj) -> bool {
    |q: ScanDbObj| q.address != addr
}

/// Keep the block rows outside the key `(addr, bn)`.
pub open spec fn keep_other_blocks(addr: Address, bn: i64) -> spec_fn(BlockDbObj) -> bool {
    |b: BlockDbObj| !(b.address == addr && b.block_number == bn)
}

/// Keep the transaction rows outside the key `(addr, bn)`.
pub open spec fn keep_other_txs(addr: Address, bn: i64) -> spec_fn(TxDbObj) -> bool {
    |t: TxDbObj| !(t.address == addr && t.block_number == bn)
}

/// Keep the trace rows outside the key `(addr, bn)`.
pub open spec fn keep_other_traces(addr: Address, bn: i64) -> spec_fn(TxTraceDbObj) -> bool {
    |t: TxTraceDbObj| !(t.address == addr && t.block_number == bn)
}

/// Keep the block rows of every address but `addr`.
pub open spec fn keep_blocks_not_of(addr: Address) -> spec_fn(BlockDbObj) -> bool {
    |b: BlockDbObj| b.address != addr
}

/// Keep the transaction rows of every address but `addr`.
pub open spec fn keep_txs_not_of(addr: Address) -> spec_fn(TxDbObj) -> bool {
    |t: TxDbObj| t.address != addr
}

/// Keep the trace rows of every address but `addr`.
pub open spec fn keep_traces_not_of(addr: Address) -> spec_fn(TxTraceDbObj) -> bool {
    |t: TxTraceDbObj| t.address != addr
}

/// The block rows belonging to `addr`.
pub open spec fn keep_blocks_of(addr: Address) -> spec_fn(BlockDbObj) -> bool {
    |b: BlockDbObj| b.address == addr
}

/// The first checkpoint row for `addr`.
pub open spec fn find_scan(ss: Seq<ScanDbObj>, addr: Address) -> Option<ScanDbObj>
    decreases ss.len(),
{
    if ss.len() == 0 {
        None
    } else if ss[0].address == addr {
        Some(ss[0])
    } else {
        find_scan(ss.drop_first(), addr)
    }
}

/// Every checkpoint row of `rec.address` replaced by `rec`, all others kept.
pub open spec fn scans_with_updated(ss: Seq<ScanDbObj>, rec: ScanDbObj) -> Seq<ScanDbObj> {
    Seq::new(ss.len(), |i: int| if ss[i].address == rec.address { rec } else { ss[i] })
}

/// At most one checkpoint row per address.
pub open spec fn store_wf(s: RecordStore) -> bool {
    forall|i: int, j: int| 0 <= i < j < s.scans@.len()
        ==> (#[trigger] s.scans@[i]).address != (#[trigger] s.scans@[j]).address
}

/// Every checkpoint row satisfies its own invariant.
pub open spec fn store_rows_wf(s: RecordStore) -> bool {
    forall|i: int| 0 <= i < s.scans@.len()
        ==> crate::records::scan_row_wf(#[trigger] s.scans@[i])
}

/// The conservation law holds of every persisted block row.
pub open spec fn store_conserves(s: RecordStore) -> bool {
    forall|i: int| 0 <= i < s.blocks@.len()
        ==> crate::records::block_record_conserves(#[trigger] s.blocks@[i])
}

/// The block table after one report is persisted: the key's old rows are
/// deleted and the report's single row appended.
pub open spec fn blocks_after_report(blocks: Seq<BlockDbObj>, rep: BlockReport) -> Seq<BlockDbObj> {
    seq_retain(blocks, keep_other_blocks(rep.block.address, rep.block.block_number)).push(rep.block)
}

/// The transaction table after one report is persisted.
pub open spec fn txs_after_report(txs: Seq<TxDbObj>, rep: BlockReport) -> Seq<TxDbObj> {
    seq_retain(txs, keep_other_txs(rep.block.address, rep.block.block_number)) + rep.txs@
}

/// The trace table after one report is persisted.
pub open spec fn traces_after_report(trs: Seq<TxTraceDbObj>, rep: BlockReport) -> Seq<TxTraceDbObj> {
    seq_retain(trs, keep_other_traces(rep.block.address, rep.block.block_number)) + rep.traces@
}

/// When no checkpoint row for `addr` is found, none exists.
pub proof fn lemma_find_scan_absent(ss: Seq<ScanDbObj>, addr: Address)
    requires
        find_scan(ss, addr) is None,
    ensures
        forall|i: int| 0 <= i < ss.len() ==> (#[trigger] ss[i]).address != addr,
    decreases ss.len(),
{
    if ss.len() > 0 {
        lemma_find_scan_absent(ss.drop_first(), addr);
        assert forall|i: int| 0 <= i < ss.len() implies (#[trigger] ss[i]).address != addr by {
            if i > 0 {
                assert(ss[i] == ss.drop_first()[i - 1]);
            }
        }
    }
}

/// A found checkpoint row carries the address it was looked up by, and is
/// a member of the table.
pub proof fn lemma_find_scan_found(ss: Seq<ScanDbObj>, addr: Address)
    requires
        find_scan(ss, addr) is Some,
    ensures
        find_scan(ss, addr)->Some_0.address == addr,
        exists|i: int| 0 <= i < ss.len() && ss[i] == find_scan(ss, addr)->Some_0,
    decreases ss.len(),
{
    if ss.len() > 0 && ss[0].address != addr {
        lemma_find_scan_found(ss.drop_first(), addr);
        let j = choose|j: int| 0 <= j < ss.drop_first().len()
            && ss.drop_first()[j] == find_scan(ss.drop_first(), addr)->Some_0;
        assert(ss[j + 1] == find_scan(ss, addr)->Some_0);
    }
}

/// Retaining keeps exactly the elements that satisfy `keep`.
pub proof fn lemma_retain_elements<T>(s: Seq<T>, keep: spec_fn(T) -> bool)
    ensures
        forall|k: int| 0 <= k < seq_retain(s, keep).len() ==> keep(#[trigger] seq_retain(s, keep)[k]),
    decreases s.len(),
{
    if s.len() > 0 {
        lemma_retain_elements(s.drop_last(), keep);
        let prefix = seq_retain(s.drop_last(), keep);
        let whole = seq_retain(s, keep);
        assert forall|k: int| 0 <= k < whole.len() implies keep(whole[k]) by {
            if k < prefix.len() {
                assert(whole[k] == prefix[k]);
            }
        }
    }
}

/// Retaining a sequence whose elements all satisfy `keep` changes nothing.
pub proof fn lemma_retain_all_kept<T>(s: Seq<T>, keep: spec_fn(T) -> bool)
    requires
        forall|k: int| 0 <= k < s.len() ==> keep(#[trigger] s[k]),
    ensures
        seq_retain(s, keep) == s,
    decreases s.len(),
{
    if s.len() == 0 {
        assert(seq_retain(s, keep) =~= s);
    } else {
        lemma_retain_all_kept(s.drop_last(), keep);
        assert(seq_retain(s, keep) =~= s);
    }
}

/// Retaining twice is the same as retaining once.
pub proof fn lemma_retain_idempotent<T>(s: Seq<T>, keep: spec_fn(T) -> bool)
    ensures
        seq_retain(seq_retain(s, keep), keep) == seq_retain(s, keep),
{
    lemma_retain_elements(s, keep);
    lemma_retain_all_kept(seq_retain(s, keep), keep);
}

/// Retaining distributes over concatenation.
pub proof fn lemma_retain_concat<T>(a: Seq<T>, b: Seq<T>, keep: spec_fn(T) -> bool)
    ensures
        seq_retain(a + b, keep) == seq_retain(a, keep) + seq_retain(b, keep),
    decreases b.len(),
{
    if b.len() == 0 {
        assert(a + b =~= a);
        assert(seq_retain(a, keep) + seq_retain(b, keep) =~= seq_retain(a, keep));
    } else {
        lemma_retain_concat(a, b.drop_last(), keep);
        assert((a + b).drop_last() =~= a + b.drop_last());
        assert((a + b).last() == b.last());
        if keep(b.last()) {
            assert(seq_retain(a, keep) + seq_retain(b, keep)
                =~= (seq_retain(a, keep) + seq_retain(b.drop_last(), keep)).push(b.last()));
        }
    }
}

/// Retaining a sequence none of whose elements satisfy `keep` empties it.
pub proof fn lemma_retain_none_kept<T>(s: Seq<T>, keep: spec_fn(T) -> bool)
    requires
        forall|k: int| 0 <= k < s.len() ==> !keep(#[trigger] s[k]),
    ensures
        seq_retain(s, keep) == Seq::<T>::empty(),
    decreases s.len(),
{
    if s.len() > 0 {
        lemma_retain_none_kept(s.drop_last(), keep);
    }
}

impl RecordStore {
    /// An empty store.
    pub fn new() -> (r: RecordStore)
        ensures
            r.scans@.len() == 0,
            r.blocks@.len() == 0,
            r.txs@.len() == 0,
            r.tx_traces@.len() == 0,
            store_wf(r),
            store_conserves(r),
    {
        RecordStore {
            scans: Vec::new(),
            blocks: Vec::new(),
            txs: Vec::new(),
            tx_traces: Vec::new(),
        }
    }

    /// The checkpoint row of `address`, if one exists.
    pub fn get_scan(&self, address: Address) -> (r: Option<ScanDbObj>)
        ensures
            r == find_scan(self.scans@, address),
    {
        let mut i: usize = 0;
        proof {
            assert(self.scans@.skip(0) =~= self.scans@);
        }
        while i < self.scans.len()
            invariant
                i <= self.scans@.len(),
                find_scan(self.scans@, address) == find_scan(self.scans@.skip(i as int), address),
            decreases self.scans@.len() - i,
        {
            proof {
                assert(self.scans@.skip(i as int).drop_first() =~= self.scans@.skip(i as int + 1));
                assert(self.scans@.skip(i as int)[0] == self.scans@[i as int]);
            }
            if self.scans[i].address == address {
                return Some(self.scans[i]);
            }
            i = i + 1;
        }
        None
    }

    /// All checkpoint rows, in storage order.
    #[verifier::loop_isolation(false)]
    pub fn get_all_scans(&self) -> (r: Vec<ScanDbObj>)
        ensures
            r@ == self.scans@,
    {
        let mut out: Vec<ScanDbObj> = Vec::new();
        let mut i: usize = 0;
        while i < self.scans.len()
            invariant
                i <= self.scans@.len(),
                out@ == self.scans@.take(i as int),
            decreases self.scans@.len() - i,
        {
            out.push(self.scans[i]);
            proof {
                assert(self.scans@.take(i as int + 1) =~= self.scans@.take(i as int).push(self.scans@[i as int]));
            }
            i = i + 1;
        }
        proof {
            assert(self.scans@.take(self.scans@.len() as int) =~= self.scans@);
        }
        out
    }

    /// Insert a fresh checkpoint row. Refused when the address already has
    /// one, as the store keys checkpoints by address.
    #[verifier::loop_isolation(false)]
    pub fn insert_scan(&mut self, scan: &ScanDbObj) -> (r: Result<ScanDbObj, ScanError>)
        ensures
            find_scan(old(self).scans@, scan.address) is Some ==> (
                r == Err::<ScanDbObj, ScanError>(ScanError::PersistenceError)
                && final(self).scans@ == old(self).scans@
            ),
            find_scan(old(self).scans@, scan.address) is None ==> (
                r == Ok::<ScanDbObj, ScanError>(*scan)
                && final(self).scans@ == old(self).scans@.push(*scan)
            ),
            final(self).blocks@ == old(self).blocks@,
            final(self).txs@ == old(self).txs@,
            final(self).tx_traces@ == old(self).tx_traces@,
            store_wf(*old(self)) ==> store_wf(*final(self)),
    {
        match self.get_scan(scan.address) {
            Some(_) => Err(ScanError::PersistenceError),
            None => {
                proof {
                    lemma_find_scan_absent(self.scans@, scan.address);
                }
                self.scans.push(*scan);
                Ok(*scan)
            }
        }
    }

    /// Replace the checkpoint row of `scan.address` with `scan`. Refused
    /// when no row for that address exists.
    #[verifier::loop_isolation(false)]
    pub fn update_scan(&mut self, scan: &ScanDbObj) -> (r: Result<ScanDbObj, ScanError>)
        ensures
            final(self).scans@ == scans_with_updated(old(self).scans@, *scan),
            find_scan(old(self).scans@, scan.address) is Some
                ==> r == Ok::<ScanDbObj, ScanError>(*scan),
            find_scan(old(self).scans@, scan.address) is None ==> (
                r == Err::<ScanDbObj, ScanError>(ScanError::PersistenceError)
                && final(self).scans@ == old(self).scans@
            ),
            final(self).blocks@ == old(self).blocks@,
            final(self).txs@ == old(self).txs@,
            final(self).tx_traces@ == old(self).tx_traces@,
            store_wf(*old(self)) ==> store_wf(*final(self)),
    {
        let found = match self.get_scan(scan.address) {
            Some(_) => true,
            None => false,
        };
        let mut out: Vec<ScanDbObj> = Vec::new();
        let mut i: usize = 0;
        while i < self.scans.len()
            invariant
                i <= self.scans@.len(),
                out@ == scans_with_updated(self.scans@, *scan).take(i as int),
            decreases self.scans@.len() - i,
        {
            let row = self.scans[i];
            proof {
                assert(scans_with_updated(self.scans@, *scan).take(i as int + 1)
                    =~= scans_with_updated(self.scans@, *scan).take(i as int)
                        .push(scans_with_updated(self.scans@, *scan)[i as int]));
            }
            if row.address == scan.address {
                out.push(*scan);
            } else {
                out.push(row);
            }
            i = i + 1;
        }
        proof {
            assert(scans_with_updated(self.scans@, *scan).take(self.scans@.len() as int)
                =~= scans_with_updated(self.scans@, *scan));
        }
        self.scans = out;
        proof {
            if find_scan(old(self).scans@, scan.address) is None {
                lemma_find_scan_absent(old(self).scans@, scan.address);
                assert(final(self).scans@ =~= old(self).scans@);
            }
        }
        if found {
            Ok(*scan)
        } else {
            Err(ScanError::PersistenceError)
        }
    }

    /// Delete the checkpoint row of `address`, if any.
    #[verifier::loop_isolation(false)]
    pub fn delete_scan(&mut self, address: Address)
        ensures
            final(self).scans@ == seq_retain(old(self).scans@, keep_other_scans(address)),
            final(self).blocks@ == old(self).blocks@,
            final(self).txs@ == old(self).txs@,
            final(self).tx_traces@ == old(self).tx_traces@,
            store_wf(*old(self)) ==> store_wf(*final(self)),
    {
        let mut kept: Vec<ScanDbObj> = Vec::new();
        let mut i: usize = 0;
        while i < self.scans.len()
            invariant
                i <= self.scans@.len(),
                kept@ == seq_retain(self.scans@.take(i as int), keep_other_scans(address)),
            decreases self.scans@.len() - i,
        {
            proof {
                assert(self.scans@.take(i as int + 1).drop_last() =~= self.scans@.take(i as int));
                assert(self.scans@.take(i as int + 1).last() == self.scans@[i as int]);
            }
            let row = self.scans[i];
            if row.address != address {
                kept.push(row);
            }
            i = i + 1;
        }
        proof {
            assert(self.scans@.take(self.scans@.len() as int) =~= self.scans@);
        }
        self.scans = kept;
        proof {
            lemma_retain_elements(old(self).scans@, keep_other_scans(address));
            let r = seq_retain(old(self).scans@, keep_other_scans(address));
            if store_wf(*old(self)) {
                lemma_retain_is_subsequence_scans(old(self).scans@, keep_other_scans(address));
            }
        }
    }

    /// Delete every ledger row of `(address, block_number)` from the block,
    /// transaction, and trace tables, so a block can be re-inspected
    /// idempotently.
    #[verifier::loop_isolation(false)]
    pub fn delete_block_tx(&mut self, address: Address, block_number: i64)
        ensures
            final(self).scans@ == old(self).scans@,
            final(self).blocks@ == seq_retain(old(self).blocks@, keep_other_blocks(address, block_number)),
            final(self).txs@ == seq_retain(old(self).txs@, keep_other_txs(address, block_number)),
            final(self).tx_traces@ == seq_retain(old(self).tx_traces@, keep_other_traces(address, block_number)),
    {
        let mut kept_blocks: Vec<BlockDbObj> = Vec::new();
        let mut i: usize = 0;
        while i < self.blocks.len()
            invariant
                i <= self.blocks@.len(),
                kept_blocks@ == seq_retain(self.blocks@.take(i as int), keep_other_blocks(address, block_number)),
            decreases self.blocks@.len() - i,
        {
            proof {
                assert(self.blocks@.take(i as int + 1).drop_last() =~= self.blocks@.take(i as int));
                assert(self.blocks@.take(i as int + 1).last() == self.blocks@[i as int]);
            }
            let row = self.blocks[i];
            if !(row.address == address && row.block_number == block_number) {
                kept_blocks.push(row);
            }
            i = i + 1;
        }
        proof {
            assert(self.blocks@.take(self.blocks@.len() as int) =~= self.blocks@);
        }
        self.blocks = kept_blocks;

        let mut kept_txs: Vec<TxDbObj> = Vec::new();
        let mut j: usize = 0;
        while j < self.txs.len()
            invariant
                j <= self.txs@.len(),
                kept_txs@ == seq_retain(self.txs@.take(j as int), keep_other_txs(address, block_number)),
            decreases self.txs@.len() - j,
        {
            proof {
                assert(self.txs@.take(j as int + 1).drop_last() =~= self.txs@.take(j as int));
                assert(self.txs@.take(j as int + 1).last() == self.txs@[j as int]);
            }
            let row = self.txs[j];
            if !(row.address == address && row.block_number == block_number) {
                kept_txs.push(row);
            }
            j = j + 1;
        }
        proof {
            assert(self.txs@.take(self.txs@.len() as int) =~= self.txs@);
        }
        self.txs = kept_txs;

        let mut kept_traces: Vec<TxTraceDbObj> = Vec::new();
        let mut k: usize = 0;
        while k < self.tx_traces.len()
            invariant
                k <= self.tx_traces@.len(),
                kept_traces@ == seq_retain(self.tx_traces@.take(k as int), keep_other_traces(address, block_number)),
            decreases self.tx_traces@.len() - k,
        {
            proof {
                assert(self.tx_traces@.take(k as int + 1).drop_last() =~= self.tx_traces@.take(k as int));
                assert(self.tx_traces@.take(k as int + 1).last() == self.tx_traces@[k as int]);
            }
            let row = self.tx_traces[k];
            if !(row.address == address && row.block_number == block_number) {
                kept_traces.push(row);
            }
            k = k + 1;
        }
        proof {
            assert(self.tx_traces@.take(self.tx_traces@.len() as int) =~= self.tx_traces@);
        }
        self.tx_traces = kept_traces;
    }

    /// Delete every ledger row of `address`, whatever its block: the
    /// operator-reset path that discards an address's records wholesale.
    #[verifier::loop_isolation(false)]
    pub fn delete_address_records(&mut self, address: Address)
        ensures
            final(self).scans@ == old(self).scans@,
            final(self).blocks@ == seq_retain(old(self).blocks@, keep_blocks_not_of(address)),
            final(self).txs@ == seq_retain(old(self).txs@, keep_txs_not_of(address)),
            final(self).tx_traces@ == seq_retain(old(self).tx_traces@, keep_traces_not_of(address)),
    {
        let mut kept_blocks: Vec<BlockDbObj> = Vec::new();
        let mut i: usize = 0;
        while i < self.blocks.len()
            invariant
                i <= self.blocks@.len(),
                kept_blocks@ == seq_retain(self.blocks@.take(i as int), keep_blocks_not_of(address)),
            decreases self.blocks@.len() - i,
        {
            proof {
                assert(self.blocks@.take(i as int + 1).drop_last() =~= self.blocks@.take(i as int));
                assert(self.blocks@.take(i as int + 1).last() == self.blocks@[i as int]);
            }
            let row = self.blocks[i];
            if row.address != address {
                kept_blocks.push(row);
            }
            i = i + 1;
        }
        proof {
            assert(self.blocks@.take(self.blocks@.len() as int) =~= self.blocks@);
        }
        self.blocks = kept_blocks;

        let mut kept_txs: Vec<TxDbObj> = Vec::new();
        let mut j: usize = 0;
        while j < self.txs.len()
            invariant
                j <= self.txs@.len(),
                kept_txs@ == seq_retain(self.txs@.take(j as int), keep_txs_not_of(address)),
            decreases self.txs@.len() - j,
        {
            proof {
                assert(self.txs@.take(j as int + 1).drop_last() =~= self.txs@.take(j as int));
                assert(self.txs@.take(j as int + 1).last() == self.txs@[j as int]);
            }
            let row = self.txs[j];
            if row.address != address {
                kept_txs.push(row);
            }
            j = j + 1;
        }
        proof {
            assert(self.txs@.take(self.txs@.len() as int) =~= self.txs@);
        }
        self.txs = kept_txs;

        let mut kept_traces: Vec<TxTraceDbObj> = Vec::new();
        let mut k: usize = 0;
        while k < self.tx_traces.len()
            invariant
                k <= self.tx_traces@.len(),
                kept_traces@ == seq_retain(self.tx_traces@.take(k as int), keep_traces_not_of(address)),
            decreases self.tx_traces@.len() - k,
        {
            proof {
                assert(self.tx_traces@.take(k as int + 1).drop_last() =~= self.tx_traces@.take(k as int));
                assert(self.tx_traces@.take(k as int + 1).last() == self.tx_traces@[k as int]);
            }
            let row = self.tx_traces[k];
            if row.address != address {
                kept_traces.push(row);
            }
            k = k + 1;
        }
        proof {
            assert(self.tx_traces@.take(self.tx_traces@.len() as int) =~= self.tx_traces@);
        }
        self.tx_traces = kept_traces;
    }

    /// The block rows of `address`, in storage order: the read surface the
    /// layers above the engine query.
    #[verifier::loop_isolation(false)]
    pub fn get_blocks(&self, address: Address) -> (r: Vec<BlockDbObj>)
        ensures
            r@ == seq_retain(self.blocks@, keep_blocks_of(address)),
    {
        let mut out: Vec<BlockDbObj> = Vec::new();
        let mut i: usize = 0;
        while i < self.blocks.len()
            invariant
                i <= self.blocks@.len(),
                out@ == seq_retain(self.blocks@.take(i as int), keep_blocks_of(address)),
            decreases self.blocks@.len() - i,
        {
            proof {
                assert(self.blocks@.take(i as int + 1).drop_last() =~= self.blocks@.take(i as int));
                assert(self.blocks@.take(i as int + 1).last() == self.blocks@[i as int]);
            }
            let row = self.blocks[i];
            if row.address == address {
                out.push(row);
            }
            i = i + 1;
        }
        proof {
            assert(self.blocks@.take(self.blocks@.len() as int) =~= self.blocks@);
        }
        out
    }

    /// Append one block row.
    pub fn insert_block(&mut self, block: &BlockDbObj) -> (r: BlockDbObj)
        ensures
            final(self).blocks@ == old(self).blocks@.push(*block),
            final(self).scans@ == old(self).scans@,
            final(self).txs@ == old(self).txs@,
            final(self).tx_traces@ == old(self).tx_traces@,
            r == *block,
    {
        self.blocks.push(*block);
        *block
    }

    /// Append one transaction row.
    pub fn insert_tx(&mut self, tx: &TxDbObj) -> (r: TxDbObj)
        ensures
            final(self).txs@ == old(self).txs@.push(*tx),
            final(self).scans@ == old(self).scans@,
            final(self).blocks@ == old(self).blocks@,
            final(self).tx_traces@ == old(self).tx_traces@,
            r == *tx,
    {
        self.txs.push(*tx);
        *tx
    }

    /// Append one trace row.
    pub fn insert_tx_trace(&mut self, trace: &TxTraceDbObj) -> (r: TxTraceDbObj)
        ensures
            final(self).tx_traces@ == old(self).tx_traces@.push(*trace),
            final(self).scans@ == old(self).scans@,
            final(self).blocks@ == old(self).blocks@,
            final(self).txs@ == old(self).txs@,
            r == *trace,
    {
        self.tx_traces.push(*trace);
        *trace
    }

    /// Persist one block's report: delete the key's prior rows, then append
    /// the block row, the transaction rows, and the trace rows, parent
    /// before child.
    #[verifier::loop_isolation(false)]
    pub fn persist_report(&mut self, rep: &BlockReport)
        ensures
            final(self).scans@ == old(self).scans@,
            final(self).blocks@ == blocks_after_report(old(self).blocks@, *rep),
            final(self).txs@ == txs_after_report(old(self).txs@, *rep),
            final(self).tx_traces@ == traces_after_report(old(self).tx_traces@, *rep),
    {
        self.delete_block_tx(rep.block.address, rep.block.block_number);
        self.insert_block(&rep.block);
        let ghost txs_base = self.txs@;
        proof {
            assert(txs_base + rep.txs@.take(0) =~= txs_base);
        }
        let mut i: usize = 0;
        while i < rep.txs.len()
            invariant
                i <= rep.txs@.len(),
                self.scans@ == old(self).scans@,
                self.blocks@ == blocks_after_report(old(self).blocks@, *rep),
                self.tx_traces@ == seq_retain(old(self).tx_traces@, keep_other_traces(rep.block.address, rep.block.block_number)),
                txs_base == seq_retain(old(self).txs@, keep_other_txs(rep.block.address, rep.block.block_number)),
                self.txs@ == txs_base + rep.txs@.take(i as int),
            decreases rep.txs@.len() - i,
        {
            self.insert_tx(&rep.txs[i]);
            proof {
                assert(txs_base + rep.txs@.take(i as int + 1)
                    =~= (txs_base + rep.txs@.take(i as int)).push(rep.txs@[i as int]));
            }
            i = i + 1;
        }
        proof {
            assert(rep.txs@.take(rep.txs@.len() as int) =~= rep.txs@);
        }
        let ghost traces_base = self.tx_traces@;
        proof {
            assert(traces_base + rep.traces@.take(0) =~= traces_base);
        }
        let mut j: usize = 0;
        while j < rep.traces.len()
            invariant
                j <= rep.traces@.len(),
                self.scans@ == old(self).scans@,
                self.blocks@ == blocks_after_report(old(self).blocks@, *rep),
                self.txs@ == txs_after_report(old(self).txs@, *rep),
                traces_base == seq_retain(old(self).tx_traces@, keep_other_traces(rep.block.address, rep.block.block_number)),
                self.tx_traces@ == traces_base + rep.traces@.take(j as int),
            decreases rep.traces@.len() - j,
        {
            self.insert_tx_trace(&rep.traces[j]);
            proof {
                assert(traces_base + rep.traces@.take(j as int + 1)
                    =~= (traces_base + rep.traces@.take(j as int)).push(rep.traces@[j as int]));
            }
            j = j + 1;
        }
        proof {
            assert(rep.traces@.take(rep.traces@.len() as int) =~= rep.traces@);
        }
    }
}

/// A retained scan table stays duplicate-free: retaining picks a
/// subsequence, so any two distinct retained rows come from two distinct
/// original rows.
pub proof fn lemma_retain_is_subsequence_scans(s: Seq<ScanDbObj>, keep: spec_fn(ScanDbObj) -> bool)
    requires
        forall|i: int, j: int| 0 <= i < j < s.len()
            ==> (#[trigger] s[i]).address != (#[trigger] s[j]).address,
    ensures
        forall|i: int, j: int| 0 <= i < j < seq_retain(s, keep).len()
            ==> (#[trigger] seq_retain(s, keep)[i]).address != (#[trigger] seq_retain(s, keep)[j]).address,
    decreases s.len(),
{
    if s.len() > 0 {
        lemma_retain_is_subsequence_scans(s.drop_last(), keep);
        let prefix = seq_retain(s.drop_last(), keep);
        let whole = seq_retain(s, keep);
        lemma_retain_addr_member(s.drop_last(), keep);
        assert forall|i: int, j: int| 0 <= i < j < whole.len()
            implies whole[i].address != whole[j].address by {
            if j < prefix.len() {
                assert(whole[i] == prefix[i]);
                assert(whole[j] == prefix[j]);
            } else {
                assert(whole[i] == prefix[i]);
                assert(whole[j] == s.last());
                let m = choose|m: int| 0 <= m < s.drop_last().len() && s.drop_last()[m].address == prefix[i].address;
                assert(s[m].address == prefix[i].address);
            }
        }
    }
}

/// Every retained element is one of the original sequence's elements.
pub proof fn lemma_retain_subset<T>(s: Seq<T>, keep: spec_fn(T) -> bool)
    ensures
        forall|k: int| 0 <= k < seq_retain(s, keep).len()
            ==> exists|m: int| 0 <= m < s.len() && s[m] == #[trigger] seq_retain(s, keep)[k],
    decreases s.len(),
{
    if s.len() > 0 {
        lemma_retain_subset(s.drop_last(), keep);
        let prefix = seq_retain(s.drop_last(), keep);
        let whole = seq_retain(s, keep);
        assert forall|k: int| 0 <= k < whole.len()
            implies exists|m: int| 0 <= m < s.len() && s[m] == #[trigger] whole[k] by {
            if k < prefix.len() {
                assert(whole[k] == prefix[k]);
                let m = choose|m: int| 0 <= m < s.drop_last().len() && s.drop_last()[m] == prefix[k];
                assert(s[m] == whole[k]);
            } else {
                assert(whole[k] == s.last());
                assert(s[s.len() - 1] == whole[k]);
            }
        }
    }
}

/// When every element `k2` keeps is also kept by `k1`, filtering by `k1`
/// first changes nothing about filtering by `k2`.
pub proof fn lemma_retain_absorb<T>(s: Seq<T>, k1: spec_fn(T) -> bool, k2: spec_fn(T) -> bool)
    requires
        forall|x: T| #[trigger] k2(x) ==> k1(x),
    ensures
        seq_retain(seq_retain(s, k1), k2) == seq_retain(s, k2),
    decreases s.len(),
{
    if s.len() == 0 {
        assert(seq_retain(seq_retain(s, k1), k2) =~= seq_retain(s, k2));
    } else {
        lemma_retain_absorb(s.drop_last(), k1, k2);
        let p1 = seq_retain(s.drop_last(), k1);
        if k1(s.last()) {
            assert(seq_retain(s, k1) == p1.push(s.last()));
            assert(p1.push(s.last()).drop_last() =~= p1);
            assert(p1.push(s.last()).last() == s.last());
        } else {
            assert(!k2(s.last()));
        }
    }
}

/// Replacing the row of one address leaves the rows of the others as they
/// were.
pub proof fn lemma_retain_other_updated(ss: Seq<ScanDbObj>, rec: ScanDbObj)
    ensures
        seq_retain(scans_with_updated(ss, rec), keep_other_scans(rec.address))
            == seq_retain(ss, keep_other_scans(rec.address)),
    decreases ss.len(),
{
    if ss.len() == 0 {
        assert(scans_with_updated(ss, rec) =~= ss);
    } else {
        lemma_retain_other_updated(ss.drop_last(), rec);
        let upd = scans_with_updated(ss, rec);
        assert(upd.drop_last() =~= scans_with_updated(ss.drop_last(), rec));
        assert(upd.last() == (if ss.last().address == rec.address { rec } else { ss.last() }));
    }
}

/// How lookup reads through a row replacement.
pub proof fn lemma_find_scan_updated(ss: Seq<ScanDbObj>, rec: ScanDbObj)
    ensures
        find_scan(ss, rec.address) is Some
            ==> find_scan(scans_with_updated(ss, rec), rec.address) == Some(rec),
        find_scan(ss, rec.address) is None
            ==> find_scan(scans_with_updated(ss, rec), rec.address) is None,
    decreases ss.len(),
{
    if ss.len() > 0 {
        let upd = scans_with_updated(ss, rec);
        assert(upd.drop_first() =~= scans_with_updated(ss.drop_first(), rec));
        lemma_find_scan_updated(ss.drop_first(), rec);
        assert(upd[0] == (if ss[0].address == rec.address { rec } else { ss[0] }));
    }
}

/// An appended row for an absent address is what lookup then finds.
pub proof fn lemma_find_scan_push_self(ss: Seq<ScanDbObj>, rec: ScanDbObj)
    requires
        find_scan(ss, rec.address) is None,
    ensures
        find_scan(ss.push(rec), rec.address) == Some(rec),
    decreases ss.len(),
{
    if ss.len() == 0 {
        assert(ss.push(rec)[0] == rec);
    } else {
        assert(ss.push(rec)[0] == ss[0]);
        assert(ss.push(rec).drop_first() =~= ss.drop_first().push(rec));
        lemma_find_scan_push_self(ss.drop_first(), rec);
    }
}

/// A table holding no row for an address answers its lookup with nothing.
pub proof fn lemma_find_scan_none(ss: Seq<ScanDbObj>, addr: Address)
    requires
        forall|i: int| 0 <= i < ss.len() ==> (#[trigger] ss[i]).address != addr,
    ensures
        find_scan(ss, addr) is None,
    decreases ss.len(),
{
    if ss.len() > 0 {
        assert forall|i: int| 0 <= i < ss.drop_first().len()
            implies (#[trigger] ss.drop_first()[i]).address != addr by {
            assert(ss.drop_first()[i] == ss[i + 1]);
        }
        lemma_find_scan_none(ss.drop_first(), addr);
    }
}

/// Two stores whose four tables read the same.
pub open spec fn store_views_eq(a: RecordStore, b: RecordStore) -> bool {
    &&& a.scans@ == b.scans@
    &&& a.blocks@ == b.blocks@
    &&& a.txs@ == b.txs@
    &&& a.tx_traces@ == b.tx_traces@
}

/// Every retained row's address occurs in the original table.
pub proof fn lemma_retain_addr_member(s: Seq<ScanDbObj>, keep: spec_fn(ScanDbObj) -> bool)
    ensures
        forall|k: int| 0 <= k < seq_retain(s, keep).len()
            ==> exists|m: int| 0 <= m < s.len()
                && s[m].address == (#[trigger] seq_retain(s, keep)[k]).address,
    decreases s.len(),
{
    if s.len() > 0 {
        lemma_retain_addr_member(s.drop_last(), keep);
        let prefix = seq_retain(s.drop_last(), keep);
        let whole = seq_retain(s, keep);
        assert forall|k: int| 0 <= k < whole.len()
            implies exists|m: int| 0 <= m < s.len() && s[m].address == (#[trigger] whole[k]).address by {
            if k < prefix.len() {
                assert(whole[k] == prefix[k]);
                let m = choose|m: int| 0 <= m < s.drop_last().len()
                    && s.drop_last()[m].address == prefix[k].address;
                assert(s[m].address == whole[k].address);
            } else {
                assert(whole[k] == s.last());
                assert(s[s.len() - 1].address == whole[k].address);
            }
        }
    }
}

} // verus!
