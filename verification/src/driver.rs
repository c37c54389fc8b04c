//! The scan driver: establish the scan window, load or create the
//! checkpoint, iterate blocks applying the skip-ahead heuristic, inspect
//! each remaining block (swallowing per-block failures), and advance the
//! persisted checkpoint after every step.

use vstd::prelude::*;

use crate::balance::BalanceCache;
use crate::balance::cache_consistent;
use crate::balance::cached_get_balance;
use crate::chain::Address;
use crate::chain::ChainData;
use crate::chain::balance_of;
use crate::chain::find_block;
use crate::chain::lemma_find_block_is_member;
use crate::chain::same_chain_data;
use crate::error::ScanError;
use crate::inspect::block_wf;
use crate::inspect::chain_wf;
use crate::inspect::inspect_block;
use crate::inspect::inspect_post;
use crate::inspect::inspect_result;
use crate::inspect::lemma_chain_wf_calls_irrelevant;
use crate::inspect::lemma_inspect_same_chain;
use crate::inspect::lemma_rows_correct_same_chain;
use crate::inspect::rows_correct_for;
use crate::records::ScanDbObj;
use crate::records::scan_row_wf;
use crate::store::RecordStore;
use crate::store::find_scan;
use crate::store::keep_blocks_not_of;
use crate::store::keep_other_scans;
use crate::store::keep_traces_not_of;
use crate::store::keep_txs_not_of;
use crate::store::lemma_find_scan_found;
use crate::store::lemma_find_scan_none;
use crate::store::lemma_find_scan_push_self;
use crate::store::lemma_find_scan_updated;
use crate::store::lemma_retain_elements;
use crate::store::lemma_retain_idempotent;
use crate::store::lemma_retain_other_updated;
use crate::store::lemma_retain_subset;
use crate::store::scans_with_updated;
use crate::store::seq_retain;
use crate::store::store_conserves;
use crate::store::store_rows_wf;
use crate::store::store_views_eq;
use crate::store::store_wf;

verus! {

/// Blocks this far behind the current head are treated as final and
/// eligible for scanning.
pub const CONFIRMATION_MARGIN: u64 = 100;

/// How far ahead of the current block the skip-ahead heuristic probes.
pub const SKIP_PROBE_DISTANCE: u64 = 50;

/// How far the cursor jumps when the probe shows no balance change.
pub const SKIP_ADVANCE: u64 = 49;

/// The target end of a scan: an explicit end block, refused when it sits
/// less than the confirmation margin behind the head, or else the head
/// minus the margin.
pub fn compute_scan_window(current_height: u64, block_end: Option<u64>) -> (r: Result<u64, ScanError>)
    requires
        current_height >= CONFIRMATION_MARGIN,
    ensures
        match r {
            Ok(end) => match block_end {
                Some(e) => end == e && e <= current_height - CONFIRMATION_MARGIN,
                None => end == current_height - CONFIRMATION_MARGIN,
            },
            Err(e) => e == ScanError::InvalidRange
                && (block_end matches Some(x) && x > current_height - CONFIRMATION_MARGIN),
        },
{
    match block_end {
        Some(e) => {
            if e > current_height - CONFIRMATION_MARGIN {
                Err(ScanError::InvalidRange)
            } else {
                Ok(e)
            }
        }
        None => Ok(current_height - CONFIRMATION_MARGIN),
    }
}

/// The skip-ahead rule: when the balance at the probe block equals the
/// balance at the previously checked block, the window netted to zero and
/// the cursor may jump by the skip advance; otherwise the block must be
/// inspected.
///
/// Known audit gap, accepted for the saved queries: activity inside the
/// window whose balance excursion returns exactly to the starting value is
/// invisible to this probe and is never reconciled.
pub fn skip_decision(prev_balance: u128, ahead_balance: u128, block_num: u64) -> (r: Option<u64>)
    requires
        block_num <= u64::MAX - SKIP_ADVANCE,
    ensures
        prev_balance == ahead_balance ==> r == Some((block_num + SKIP_ADVANCE) as u64),
        prev_balance != ahead_balance ==> r is None,
{
    if prev_balance == ahead_balance {
        Some(block_num + SKIP_ADVANCE)
    } else {
        None
    }
}

/// The in-memory cursor of one running scan.
pub struct DriverCursor {
    pub address: Address,
    pub block_num: u64,
    pub prev_checked: Option<u64>,
    pub block_end: u64,
    pub scan: ScanDbObj,
}

/// The cursor's invariant: it carries its own address's checkpoint row, and
/// the persisted resumption point never runs ahead of the block after the
/// one being worked.
pub open spec fn cursor_wf(cur: DriverCursor) -> bool {
    &&& cur.scan.address == cur.address
    &&& scan_row_wf(cur.scan)
    &&& cur.scan.next_block_number <= cur.block_num + 1
}

/// Whether the skip-ahead probe fires for this cursor position: a
/// previously checked block is on record and the balance at the probe
/// distance equals the balance there.
pub open spec fn step_skips(chain: ChainData, cur: DriverCursor) -> bool {
    match cur.prev_checked {
        Some(pb) => balance_of(chain, cur.address, pb)
            == balance_of(chain, cur.address, (cur.block_num + SKIP_PROBE_DISTANCE) as u64),
        None => false,
    }
}

/// What one step did: jumped over a dormant window, or inspected one block
/// and advanced the checkpoint past it.
#[derive(PartialEq, Eq, Structural, Clone, Copy, Debug)]
pub enum StepOutcome {
    Skipped,
    Inspected,
}

/// One step of the scan loop.
///
/// With a previously checked block on record, the step first probes the
/// balance at the probe distance: an unchanged balance proves the window
/// dormant, and the cursor jumps by the skip advance without touching the
/// store. Otherwise the block is inspected — a failing block is logged by
/// its absence and never halts the scan — and the checkpoint is advanced
/// past it and persisted, with the next block's timestamp.
#[verifier::loop_isolation(false)]
pub fn scan_step(
    chain: &mut ChainData,
    cache: &mut BalanceCache,
    store: &mut RecordStore,
    cur: &mut DriverCursor,
) -> (r: Result<StepOutcome, ScanError>)
    requires
        chain_wf(*old(chain)),
        cache_consistent(*old(cache), *old(chain)),
        cursor_wf(*old(cur)),
        1 <= old(cur).block_num,
        old(cur).block_num < old(cur).block_end,
        old(cur).block_end <= i64::MAX,
        find_scan(old(store).scans@, old(cur).address) is Some,
    ensures
        same_chain_data(*final(chain), *old(chain)),
        chain_wf(*final(chain)),
        cache_consistent(*final(cache), *final(chain)),
        cursor_wf(*final(cur)),
        final(cur).address == old(cur).address,
        final(cur).block_end == old(cur).block_end,
        final(cur).scan.first_block_number == old(cur).scan.first_block_number,
        final(cur).scan.first_block_timestamp == old(cur).scan.first_block_timestamp,
        final(cur).scan.next_block_number >= old(cur).scan.next_block_number,
        final(cur).block_num >= old(cur).block_num,
        r is Ok ==> final(cur).block_num > old(cur).block_num,
        (r == Ok::<StepOutcome, ScanError>(StepOutcome::Skipped)
            <==> step_skips(*old(chain), *old(cur))),
        (r == Ok::<StepOutcome, ScanError>(StepOutcome::Inspected)
            <==> (!step_skips(*old(chain), *old(cur))
                && find_block(old(chain).blocks@, (old(cur).block_num + 1) as u64) is Some)),
        r matches Ok(StepOutcome::Inspected) ==> inspect_post(
            *old(chain),
            *old(store),
            (RecordStore {
                scans: old(store).scans,
                blocks: final(store).blocks,
                txs: final(store).txs,
                tx_traces: final(store).tx_traces,
            }),
            old(cur).address,
            old(cur).block_num,
            inspect_result(*old(chain), old(cur).address, old(cur).block_num),
        ),
        rows_correct_for(*old(chain), old(store).blocks@, old(cur).address)
            ==> rows_correct_for(*old(chain), final(store).blocks@, old(cur).address),
        r matches Ok(StepOutcome::Skipped) ==> (
            final(cur).block_num == old(cur).block_num + SKIP_ADVANCE
            && final(cur).prev_checked == Some(final(cur).block_num)
            && final(cur).scan == old(cur).scan
            && store_views_eq(*final(store), *old(store))
        ),
        r matches Ok(StepOutcome::Inspected) ==> (
            final(cur).block_num == old(cur).block_num + 1
            && final(cur).prev_checked == Some(old(cur).block_num)
            && final(cur).scan.next_block_number == old(cur).block_num + 1
            && final(store).scans@ == scans_with_updated(old(store).scans@, final(cur).scan)
            && find_scan(final(store).scans@, old(cur).address) == Some(final(cur).scan)
        ),
        r is Err ==> (
            r == Err::<StepOutcome, ScanError>(ScanError::BlockNotFound)
            && final(store).scans@ == old(store).scans@
            && final(cur).scan == old(cur).scan
        ),
        r is Ok ==> find_scan(final(store).scans@, old(cur).address) is Some,
        r is Err ==> find_scan(final(store).scans@, old(cur).address) is Some,
        store_wf(*old(store)) ==> store_wf(*final(store)),
        store_rows_wf(*old(store)) ==> store_rows_wf(*final(store)),
        store_conserves(*old(store)) ==> store_conserves(*final(store)),
        seq_retain(final(store).scans@, keep_other_scans(old(cur).address))
            == seq_retain(old(store).scans@, keep_other_scans(old(cur).address)),
        seq_retain(final(store).blocks@, keep_blocks_not_of(old(cur).address))
            == seq_retain(old(store).blocks@, keep_blocks_not_of(old(cur).address)),
        seq_retain(final(store).txs@, keep_txs_not_of(old(cur).address))
            == seq_retain(old(store).txs@, keep_txs_not_of(old(cur).address)),
        seq_retain(final(store).tx_traces@, keep_traces_not_of(old(cur).address))
            == seq_retain(old(store).tx_traces@, keep_traces_not_of(old(cur).address)),
{
    let probe = match cur.prev_checked {
        Some(pb) => {
            let prev_balance = cached_get_balance(chain, cache, cur.address, pb);
            let ghost mid = *chain;
            let ahead_balance = cached_get_balance(chain, cache, cur.address, cur.block_num + SKIP_PROBE_DISTANCE);
            proof {
                lemma_chain_wf_calls_irrelevant(*old(chain), *chain);
                assert(prev_balance == balance_of(*old(chain), cur.address, pb));
                assert(balance_of(mid, cur.address, (cur.block_num + SKIP_PROBE_DISTANCE) as u64)
                    == balance_of(*old(chain), cur.address, (cur.block_num + SKIP_PROBE_DISTANCE) as u64));
            }
            skip_decision(prev_balance, ahead_balance, cur.block_num)
        }
        None => None,
    };
    proof {
        lemma_chain_wf_calls_irrelevant(*old(chain), *chain);
        assert(probe is Some <==> step_skips(*old(chain), *old(cur)));
    }
    match probe {
        Some(jump) => {
            cur.block_num = jump;
            cur.prev_checked = Some(jump);
            return Ok(StepOutcome::Skipped);
        }
        None => {}
    }

    let ghost chain_before_inspect = *chain;
    let inspected = inspect_block(chain, cache, store, cur.address, cur.block_num);
    match inspected {
        Ok(()) => {}
        Err(_) => {}
    }
    proof {
        assert(same_chain_data(chain_before_inspect, *old(chain)));
        lemma_inspect_same_chain(chain_before_inspect, *old(chain), *old(store), *store,
            cur.address, cur.block_num, inspected);
        if rows_correct_for(*old(chain), old(store).blocks@, cur.address) {
            lemma_rows_correct_same_chain(*old(chain), chain_before_inspect,
                old(store).blocks@, cur.address);
            lemma_rows_correct_same_chain(chain_before_inspect, *old(chain),
                store.blocks@, cur.address);
        }
    }
    let ghost store_after_inspect = *store;

    cur.prev_checked = Some(cur.block_num);
    let next_block = cur.block_num + 1;
    let ts: u64 = match chain.get_block(next_block) {
        Some(b) => b.timestamp,
        None => {
            proof {
                assert(find_block(old(chain).blocks@, next_block) is None);
            }
            return Err(ScanError::BlockNotFound);
        }
    };
    proof {
        lemma_find_block_is_member(chain.blocks@, next_block);
        assert(ts <= i64::MAX);
        assert(find_block(old(chain).blocks@, next_block) is Some);
    }
    cur.block_num = next_block;
    cur.scan.next_block_number = next_block as i64;
    cur.scan.next_block_timestamp = ts as i64;
    let ghost scans_before_update = store.scans@;
    match store.update_scan(&cur.scan) {
        Ok(_) => {}
        Err(_) => {
            proof {
                assert(false);
            }
        }
    }
    proof {
        lemma_find_scan_updated(scans_before_update, cur.scan);
        lemma_retain_other_updated(scans_before_update, cur.scan);
        if store_rows_wf(*old(store)) {
            assert forall|i: int| 0 <= i < store.scans@.len()
                implies scan_row_wf(#[trigger] store.scans@[i]) by {
                assert(store.scans@[i] == (if scans_before_update[i].address == cur.scan.address {
                    cur.scan
                } else {
                    scans_before_update[i]
                }));
            }
        }
        if store_wf(*old(store)) {
            assert forall|i: int, j: int| 0 <= i < j < store.scans@.len()
                implies (#[trigger] store.scans@[i]).address != (#[trigger] store.scans@[j]).address by {
                assert(store.scans@[i].address == scans_before_update[i].address);
                assert(store.scans@[j].address == scans_before_update[j].address);
            }
        }
    }
    Ok(StepOutcome::Inspected)
}

/// The rejection condition for an explicit end block: it sits less than
/// the confirmation margin behind the head.
pub open spec fn window_invalid(height: u64, block_end: Option<u64>) -> bool {
    block_end matches Some(e) && e > height - CONFIRMATION_MARGIN
}

/// The target end block of a scan.
pub open spec fn scan_window(height: u64, block_end: Option<u64>) -> u64 {
    match block_end {
        Some(e) => e,
        None => (height - CONFIRMATION_MARGIN) as u64,
    }
}

/// Where the scan's cursor starts: the stored resumption point, or the
/// requested start block on a first scan.
pub open spec fn scan_start(scans: Seq<ScanDbObj>, address: Address, block_start: u64) -> u64 {
    match find_scan(scans, address) {
        Some(s0) => s0.next_block_number as u64,
        None => block_start,
    }
}

/// Every block a checkpoint advance between `lo` (exclusive) and `hi`
/// (inclusive) must read is available from the chain.
pub open spec fn checkpoint_blocks_available(chain: ChainData, lo: u64, hi: u64) -> bool {
    forall|n: u64| lo < n <= hi ==> (#[trigger] find_block(chain.blocks@, n)) is Some
}

/// Scan one address from its checkpoint (or from `block_start` on the
/// first run) up to the target end block.
///
/// Window and checkpoint-setup failures are fatal and surface to the
/// caller; a failure inside a single block is swallowed by the step, and
/// the block's missing ledger row is the audit signal. The persisted
/// `next_block_number` never decreases, and records of other addresses are
/// untouched.
///
/// Only an inspected step moves the persisted cursor (to its block plus
/// one); a skip moves the in-memory cursor alone, so a scan whose tail is
/// all skips resumes from just past its last inspected block.
#[verifier::loop_isolation(false)]
pub fn scan_address(
    chain: &mut ChainData,
    cache: &mut BalanceCache,
    store: &mut RecordStore,
    address: Address,
    block_start: u64,
    block_end: Option<u64>,
) -> (r: Result<(), ScanError>)
    requires
        chain_wf(*old(chain)),
        old(chain).height >= CONFIRMATION_MARGIN,
        cache_consistent(*old(cache), *old(chain)),
        store_wf(*old(store)),
        store_rows_wf(*old(store)),
        1 <= block_start,
        block_start <= i64::MAX,
    ensures
        same_chain_data(*final(chain), *old(chain)),
        chain_wf(*final(chain)),
        cache_consistent(*final(cache), *final(chain)),
        store_wf(*final(store)),
        store_rows_wf(*final(store)),
        store_conserves(*old(store)) ==> store_conserves(*final(store)),
        (r == Err::<(), ScanError>(ScanError::InvalidRange)
            <==> (block_end matches Some(e) && e > old(chain).height - CONFIRMATION_MARGIN)),
        r is Err ==> (r == Err::<(), ScanError>(ScanError::InvalidRange)
            || r == Err::<(), ScanError>(ScanError::BlockNotFound)),
        (match find_scan(old(store).scans@, address) {
            Some(s0) => (find_scan(final(store).scans@, address) matches Some(s1)
                && s1.address == address
                && s1.first_block_number == s0.first_block_number
                && s1.next_block_number >= s0.next_block_number),
            None => (find_scan(final(store).scans@, address) matches Some(s1) ==> (
                s1.address == address
                && s1.first_block_number == block_start as i64
                && s1.next_block_number >= s1.first_block_number)),
        }),
        find_scan(old(store).scans@, address) is None && r is Ok
            ==> find_scan(final(store).scans@, address) is Some,
        r == Err::<(), ScanError>(ScanError::InvalidRange)
            ==> store_views_eq(*final(store), *old(store)),
        (!window_invalid(old(chain).height, block_end)
            && (find_scan(old(store).scans@, address) matches Some(s0)
                && s0.next_block_number >= scan_window(old(chain).height, block_end)))
            ==> (r == Ok::<(), ScanError>(()) && store_views_eq(*final(store), *old(store))),
        r == Err::<(), ScanError>(ScanError::BlockNotFound) ==> (
            (find_scan(old(store).scans@, address) is None
                && find_block(old(chain).blocks@, block_start) is None)
            || !checkpoint_blocks_available(*old(chain),
                scan_start(old(store).scans@, address, block_start),
                scan_window(old(chain).height, block_end))),
        (!window_invalid(old(chain).height, block_end)
            && (find_scan(old(store).scans@, address) is Some
                || find_block(old(chain).blocks@, block_start) is Some)
            && checkpoint_blocks_available(*old(chain),
                scan_start(old(store).scans@, address, block_start),
                scan_window(old(chain).height, block_end)))
            ==> r == Ok::<(), ScanError>(()),
        find_scan(final(store).scans@, address) matches Some(s1) ==> s1.next_block_number <= ({
            let init = scan_start(old(store).scans@, address, block_start) as int;
            let w = scan_window(old(chain).height, block_end) as int;
            if init >= w { init } else { w }
        }),
        find_scan(old(store).scans@, address) is None
            ==> (find_scan(final(store).scans@, address) matches Some(s1)
                ==> (find_block(old(chain).blocks@, block_start) matches Some(b)
                    && s1.first_block_timestamp == b.timestamp as i64)),
        find_scan(old(store).scans@, address) matches Some(s0)
            ==> (find_scan(final(store).scans@, address) matches Some(s1)
                ==> s1.first_block_timestamp == s0.first_block_timestamp),
        rows_correct_for(*old(chain), old(store).blocks@, address)
            ==> rows_correct_for(*old(chain), final(store).blocks@, address),
        seq_retain(final(store).scans@, keep_other_scans(address))
            == seq_retain(old(store).scans@, keep_other_scans(address)),
        seq_retain(final(store).blocks@, keep_blocks_not_of(address))
            == seq_retain(old(store).blocks@, keep_blocks_not_of(address)),
        seq_retain(final(store).txs@, keep_txs_not_of(address))
            == seq_retain(old(store).txs@, keep_txs_not_of(address)),
        seq_retain(final(store).tx_traces@, keep_traces_not_of(address))
            == seq_retain(old(store).tx_traces@, keep_traces_not_of(address)),
{
    proof {
        if find_scan(store.scans@, address) is Some {
            lemma_find_scan_found(store.scans@, address);
        }
    }
    let current = chain.get_current_height();
    let end = match compute_scan_window(current, block_end) {
        Ok(e) => e,
        Err(e) => {
            return Err(e);
        }
    };
    proof {
        assert(end == scan_window(old(chain).height, block_end));
    }
    let scan = match store.get_scan(address) {
        Some(s) => {
            proof {
                let i = choose|i: int| 0 <= i < store.scans@.len() && store.scans@[i] == s;
                assert(scan_row_wf(store.scans@[i]));
            }
            s
        }
        None => {
            let ts: u64 = match chain.get_block(block_start) {
                Some(b) => b.timestamp,
                None => {
                    return Err(ScanError::BlockNotFound);
                }
            };
            proof {
                lemma_find_block_is_member(chain.blocks@, block_start);
                let i = choose|i: int| 0 <= i < chain.blocks@.len()
                    && chain.blocks@[i] == find_block(chain.blocks@, block_start)->Some_0;
                assert(block_wf(*chain, chain.blocks@[i]));
                assert(find_block(old(chain).blocks@, block_start) == find_block(chain.blocks@, block_start));
            }
            let new_scan = ScanDbObj {
                address,
                first_block_number: block_start as i64,
                first_block_timestamp: ts as i64,
                next_block_number: block_start as i64,
                next_block_timestamp: ts as i64,
            };
            let ghost scans_before = store.scans@;
            match store.insert_scan(&new_scan) {
                Ok(s) => {
                    proof {
                        lemma_find_scan_push_self(scans_before, new_scan);
                        assert forall|i: int| 0 <= i < store.scans@.len()
                            implies scan_row_wf(#[trigger] store.scans@[i]) by {
                            if i < scans_before.len() {
                                assert(store.scans@[i] == scans_before[i]);
                            }
                        }
                        assert(seq_retain(scans_before.push(new_scan), keep_other_scans(address))
                            == seq_retain(scans_before, keep_other_scans(address))) by {
                            assert(scans_before.push(new_scan).drop_last() =~= scans_before);
                        }
                    }
                    s
                }
                Err(_) => {
                    proof {
                        assert(false);
                    }
                    return Err(ScanError::PersistenceError);
                }
            }
        }
    };
    let start_bn = scan.next_block_number as u64;
    proof {
        assert(scan_start(old(store).scans@, address, block_start) == start_bn);
    }
    if start_bn >= end {
        return Ok(());
    }
    let ghost s0_first = scan.first_block_number;
    let ghost s0_first_ts = scan.first_block_timestamp;
    let ghost init_next = scan.next_block_number;
    let mut cur = DriverCursor {
        address,
        block_num: start_bn,
        prev_checked: None,
        block_end: end,
        scan,
    };
    while cur.block_num < cur.block_end
        invariant
            chain_wf(*chain),
            same_chain_data(*chain, *old(chain)),
            cache_consistent(*cache, *chain),
            cursor_wf(cur),
            cur.address == address,
            cur.block_end == end,
            1 <= cur.block_num,
            store_wf(*store),
            store_rows_wf(*store),
            store_conserves(*old(store)) ==> store_conserves(*store),
            find_scan(store.scans@, address) == Some(cur.scan),
            cur.scan.first_block_number == s0_first,
            cur.scan.first_block_timestamp == s0_first_ts,
            cur.scan.next_block_number >= init_next,
            cur.scan.next_block_number <= (if init_next >= end as int { init_next as int } else { end as int }),
            start_bn <= cur.block_num,
            rows_correct_for(*old(chain), old(store).blocks@, address)
                ==> rows_correct_for(*old(chain), store.blocks@, address),
            seq_retain(store.scans@, keep_other_scans(address))
                == seq_retain(old(store).scans@, keep_other_scans(address)),
            seq_retain(store.blocks@, keep_blocks_not_of(address))
                == seq_retain(old(store).blocks@, keep_blocks_not_of(address)),
            seq_retain(store.txs@, keep_txs_not_of(address))
                == seq_retain(old(store).txs@, keep_txs_not_of(address)),
            seq_retain(store.tx_traces@, keep_traces_not_of(address))
                == seq_retain(old(store).tx_traces@, keep_traces_not_of(address)),
        decreases (if cur.block_num < cur.block_end { cur.block_end - cur.block_num } else { 0int }),
    {
        let ghost chain_at_step = *chain;
        let ghost store_at_step = *store;
        let ghost bn_before = cur.block_num;
        match scan_step(chain, cache, store, &mut cur) {
            Ok(_) => {
                proof {
                    if rows_correct_for(*old(chain), old(store).blocks@, address) {
                        lemma_rows_correct_same_chain(*old(chain), chain_at_step,
                            store_at_step.blocks@, address);
                        lemma_rows_correct_same_chain(chain_at_step, *old(chain),
                            store.blocks@, address);
                    }
                }
            }
            Err(e) => {
                proof {
                    if rows_correct_for(*old(chain), old(store).blocks@, address) {
                        lemma_rows_correct_same_chain(*old(chain), chain_at_step,
                            store_at_step.blocks@, address);
                        lemma_rows_correct_same_chain(chain_at_step, *old(chain),
                            store.blocks@, address);
                    }
                    assert(find_block(chain_at_step.blocks@, (bn_before + 1) as u64) is None);
                    assert(find_block(old(chain).blocks@, (bn_before + 1) as u64) is None);
                    assert(!checkpoint_blocks_available(*old(chain), start_bn, end)) by {
                        if checkpoint_blocks_available(*old(chain), start_bn, end) {
                            assert(find_block(old(chain).blocks@, (bn_before + 1) as u64) is Some);
                        }
                    }
                }
                return Err(e);
            }
        }
    }
    Ok(())
}

/// The scan entry point handed upward: optionally discard the address's
/// previous checkpoint and every record derived from it, then start or
/// resume the scan.
#[derive(PartialEq, Eq, Structural, Clone, Copy, Debug)]
pub struct ScanCommand {
    pub address: Address,
    pub block_start: u64,
    pub block_end: Option<u64>,
    pub remove_prev_scan: bool,
}

/// Run one scan command against the chain and the store.
#[verifier::loop_isolation(false)]
pub fn scan_command(
    chain: &mut ChainData,
    cache: &mut BalanceCache,
    store: &mut RecordStore,
    cmd: ScanCommand,
) -> (r: Result<(), ScanError>)
    requires
        chain_wf(*old(chain)),
        old(chain).height >= CONFIRMATION_MARGIN,
        cache_consistent(*old(cache), *old(chain)),
        store_wf(*old(store)),
        store_rows_wf(*old(store)),
        1 <= cmd.block_start,
        cmd.block_start <= i64::MAX,
    ensures
        same_chain_data(*final(chain), *old(chain)),
        chain_wf(*final(chain)),
        cache_consistent(*final(cache), *final(chain)),
        store_wf(*final(store)),
        store_rows_wf(*final(store)),
        store_conserves(*old(store)) ==> store_conserves(*final(store)),
        (r == Err::<(), ScanError>(ScanError::InvalidRange)
            <==> (cmd.block_end matches Some(e) && e > old(chain).height - CONFIRMATION_MARGIN)),
        r is Err ==> (r == Err::<(), ScanError>(ScanError::InvalidRange)
            || r == Err::<(), ScanError>(ScanError::BlockNotFound)),
        cmd.remove_prev_scan ==> (find_scan(final(store).scans@, cmd.address) matches Some(s1) ==> (
            s1.address == cmd.address
            && s1.first_block_number == cmd.block_start as i64
            && s1.next_block_number >= s1.first_block_number)),
        cmd.remove_prev_scan ==> rows_correct_for(*old(chain), final(store).blocks@, cmd.address),
        cmd.remove_prev_scan ==> ((!window_invalid(old(chain).height, cmd.block_end)
            && find_block(old(chain).blocks@, cmd.block_start) is Some
            && checkpoint_blocks_available(*old(chain), cmd.block_start,
                scan_window(old(chain).height, cmd.block_end)))
            ==> r == Ok::<(), ScanError>(())),
        !cmd.remove_prev_scan ==> (match find_scan(old(store).scans@, cmd.address) {
            Some(s0) => (find_scan(final(store).scans@, cmd.address) matches Some(s1)
                && s1.address == cmd.address
                && s1.first_block_number == s0.first_block_number
                && s1.next_block_number >= s0.next_block_number),
            None => (find_scan(final(store).scans@, cmd.address) matches Some(s1) ==> (
                s1.address == cmd.address
                && s1.first_block_number == cmd.block_start as i64
                && s1.next_block_number >= s1.first_block_number)),
        }),
        !cmd.remove_prev_scan && r == Err::<(), ScanError>(ScanError::InvalidRange)
            ==> store_views_eq(*final(store), *old(store)),
        rows_correct_for(*old(chain), old(store).blocks@, cmd.address)
            ==> rows_correct_for(*old(chain), final(store).blocks@, cmd.address),
        seq_retain(final(store).scans@, keep_other_scans(cmd.address))
            == seq_retain(old(store).scans@, keep_other_scans(cmd.address)),
        seq_retain(final(store).blocks@, keep_blocks_not_of(cmd.address))
            == seq_retain(old(store).blocks@, keep_blocks_not_of(cmd.address)),
        seq_retain(final(store).txs@, keep_txs_not_of(cmd.address))
            == seq_retain(old(store).txs@, keep_txs_not_of(cmd.address)),
        seq_retain(final(store).tx_traces@, keep_traces_not_of(cmd.address))
            == seq_retain(old(store).tx_traces@, keep_traces_not_of(cmd.address)),
{
    if cmd.remove_prev_scan {
        store.delete_scan(cmd.address);
        store.delete_address_records(cmd.address);
        proof {
            lemma_retain_elements(old(store).scans@, keep_other_scans(cmd.address));
            lemma_find_scan_none(store.scans@, cmd.address);
            lemma_retain_subset(old(store).scans@, keep_other_scans(cmd.address));
            assert forall|i: int| 0 <= i < store.scans@.len()
                implies scan_row_wf(#[trigger] store.scans@[i]) by {
                let m = choose|m: int| 0 <= m < old(store).scans@.len()
                    && old(store).scans@[m] == store.scans@[i];
                assert(scan_row_wf(old(store).scans@[m]));
            }
            lemma_retain_subset(old(store).blocks@, keep_blocks_not_of(cmd.address));
            if store_conserves(*old(store)) {
                assert forall|i: int| 0 <= i < store.blocks@.len()
                    implies crate::records::block_record_conserves(#[trigger] store.blocks@[i]) by {
                    let m = choose|m: int| 0 <= m < old(store).blocks@.len()
                        && old(store).blocks@[m] == store.blocks@[i];
                    assert(crate::records::block_record_conserves(old(store).blocks@[m]));
                }
            }
            lemma_retain_elements(old(store).blocks@, keep_blocks_not_of(cmd.address));
            assert forall|k: int| #![trigger store.blocks@[k]] 0 <= k < store.blocks@.len()
                implies (store.blocks@[k].address == cmd.address
                    ==> crate::inspect::correct_block_row(*old(chain), cmd.address, store.blocks@[k])) by {
                assert(store.blocks@[k]
                    == seq_retain(old(store).blocks@, keep_blocks_not_of(cmd.address))[k]);
            }
            lemma_retain_idempotent(old(store).scans@, keep_other_scans(cmd.address));
            lemma_retain_idempotent(old(store).blocks@, keep_blocks_not_of(cmd.address));
            lemma_retain_idempotent(old(store).txs@, keep_txs_not_of(cmd.address));
            lemma_retain_idempotent(old(store).tx_traces@, keep_traces_not_of(cmd.address));
        }
    }
    scan_address(chain, cache, store, cmd.address, cmd.block_start, cmd.block_end)
}

} // verus!
