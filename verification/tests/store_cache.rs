use chain_scan::balance::{cached_get_balance, BalanceCache};
use chain_scan::chain::{Address, BalancePoint, ChainData};
use chain_scan::records::{BlockDbObj, ScanDbObj, TxDbObj};
use chain_scan::store::RecordStore;

fn addr(n: u64) -> Address {
    Address { hi: 0, mid: 0, lo: n }
}

fn bare_chain(a: Address, balance: u128) -> ChainData {
    ChainData {
        height: 1000,
        blocks: Vec::new(),
        balance_points: vec![BalancePoint { address: a, block_number: 0, balance }],
        traces: Vec::new(),
        balance_calls: 0,
    }
}

fn block_row(a: Address, n: i64) -> BlockDbObj {
    BlockDbObj {
        address: a,
        block_number: n,
        timestamp: 0,
        balance: 10,
        balance_diff: 1,
        block_miner: addr(9),
        consensus_reward: 0,
        mev_reward: 1,
        block_reward: 0,
        amount_incoming: 0,
        amount_outgoing: 0,
    }
}

#[test]
fn second_lookup_for_same_key_issues_no_chain_call() {
    let a = addr(1);
    let mut chain = bare_chain(a, 77);
    let mut cache = BalanceCache::new();
    let first = cached_get_balance(&mut chain, &mut cache, a, 5);
    let second = cached_get_balance(&mut chain, &mut cache, a, 5);
    assert_eq!(first, 77);
    assert_eq!(second, 77);
    // Two sequential calls for the same (address, block) issued exactly
    // one underlying chain query.
    assert_eq!(chain.balance_calls, 1);
    // A different block number is a different key.
    let third = cached_get_balance(&mut chain, &mut cache, a, 6);
    assert_eq!(third, 77);
    assert_eq!(chain.balance_calls, 2);
}

#[test]
fn cache_misses_for_unknown_address_return_zero() {
    let a = addr(1);
    let stranger = addr(2);
    let mut chain = bare_chain(a, 77);
    let mut cache = BalanceCache::new();
    assert_eq!(cached_get_balance(&mut chain, &mut cache, stranger, 5), 0);
    assert_eq!(cached_get_balance(&mut chain, &mut cache, stranger, 5), 0);
    assert_eq!(chain.balance_calls, 1);
}

#[test]
fn scan_rows_are_keyed_by_address() {
    let a = addr(1);
    let b = addr(2);
    let mut store = RecordStore::new();
    let row_a = ScanDbObj {
        address: a,
        first_block_number: 5,
        first_block_timestamp: 50,
        next_block_number: 7,
        next_block_timestamp: 70,
    };
    let row_b = ScanDbObj { address: b, ..row_a };
    assert!(store.insert_scan(&row_a).is_ok());
    assert!(store.insert_scan(&row_b).is_ok());
    // A second insert for the same address is refused.
    assert!(store.insert_scan(&row_a).is_err());
    assert_eq!(store.get_scan(a), Some(row_a));
    assert_eq!(store.get_all_scans().len(), 2);

    let moved = ScanDbObj { next_block_number: 9, ..row_a };
    assert!(store.update_scan(&moved).is_ok());
    assert_eq!(store.get_scan(a), Some(moved));
    assert_eq!(store.get_scan(b), Some(row_b));

    // Updating an absent address is refused and changes nothing.
    let ghost_row = ScanDbObj { address: addr(3), ..row_a };
    assert!(store.update_scan(&ghost_row).is_err());
    assert!(store.get_scan(addr(3)).is_none());

    store.delete_scan(a);
    assert!(store.get_scan(a).is_none());
    assert_eq!(store.get_scan(b), Some(row_b));
}

#[test]
fn deleting_a_block_key_spares_other_rows() {
    let a = addr(1);
    let b = addr(2);
    let mut store = RecordStore::new();
    store.insert_block(&block_row(a, 5));
    store.insert_block(&block_row(a, 6));
    store.insert_block(&block_row(b, 5));
    store.insert_tx(&TxDbObj {
        address: a,
        tx_hash: chain_scan::chain::TxHash { hi: 0, lo: 1 },
        block_number: 5,
        block_index: 0,
        gas_used: 1,
    });
    store.delete_block_tx(a, 5);
    assert_eq!(store.blocks.len(), 2);
    assert!(store.blocks.iter().all(|r| !(r.address == a && r.block_number == 5)));
    assert_eq!(store.txs.len(), 0);
    assert_eq!(store.get_blocks(a).len(), 1);
    assert_eq!(store.get_blocks(b).len(), 1);
}
