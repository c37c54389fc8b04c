//! The memoizing balance cache: "balance of address A as of block N" keyed
//! by the pair. Balances at a fixed historical block never change, so
//! entries are never invalidated or evicted (unbounded growth is an
//! accepted tradeoff); a hit answers with no chain query at all.

use vstd::prelude::*;

use crate::chain::Address;
use crate::chain::ChainData;
use crate::chain::balance_of;
use crate::chain::bump;

verus! {

/// One memoized balance: of `address` as of exactly `block_number`.
#[derive(PartialEq, Eq, Structural, Clone, Copy, Debug)]
pub struct CacheEntry {
    pub address: Address,
    pub block_number: u64,
    pub balance: u128,
}

/// The process-wide memo table, threaded through the scan's call graph.
#[derive(Debug)]
pub struct BalanceCache {
    pub entries: Vec<CacheEntry>,
}

/// The first memoized balance for `(addr, n)`.
pub open spec fn find_cached(es: Seq<CacheEntry>, addr: Address, n: u64) -> Option<u128>
    decreases es.len(),
{
    if es.len() == 0 {
        None
    } else if es[0].address == addr && es[0].block_number == n {
        Some(es[0].balance)
    } else {
        find_cached(es.drop_first(), addr, n)
    }
}

/// Every memoized balance agrees with what the chain answers for its key.
pub open spec fn cache_consistent(c: BalanceCache, chain: ChainData) -> bool {
    forall|i: int| 0 <= i < c.entries@.len()
        ==> (#[trigger] c.entries@[i]).balance
            == balance_of(chain, c.entries@[i].address, c.entries@[i].block_number)
}

/// A found cache value is some entry's, with the key looked up.
pub proof fn lemma_find_cached_member(es: Seq<CacheEntry>, addr: Address, n: u64)
    requires
        find_cached(es, addr, n) is Some,
    ensures
        exists|k: int| 0 <= k < es.len() && es[k].address == addr && es[k].block_number == n
            && es[k].balance == find_cached(es, addr, n)->Some_0,
    decreases es.len(),
{
    if es.len() > 0 && !(es[0].address == addr && es[0].block_number == n) {
        lemma_find_cached_member(es.drop_first(), addr, n);
        let k = choose|k: int| 0 <= k < es.drop_first().len()
            && es.drop_first()[k].address == addr && es.drop_first()[k].block_number == n
            && es.drop_first()[k].balance == find_cached(es.drop_first(), addr, n)->Some_0;
        assert(es[k + 1] == es.drop_first()[k]);
    }
}

/// Appending an entry for a key that was absent makes that key found, with
/// the appended value.
pub proof fn lemma_find_cached_push(es: Seq<CacheEntry>, e: CacheEntry, addr: Address, n: u64)
    requires
        find_cached(es, addr, n) is None,
        e.address == addr,
        e.block_number == n,
    ensures
        find_cached(es.push(e), addr, n) == Some(e.balance),
    decreases es.len(),
{
    if es.len() == 0 {
        assert(es.push(e)[0] == e);
    } else {
        assert(es.push(e)[0] == es[0]);
        assert(es.push(e).drop_first() =~= es.drop_first().push(e));
        lemma_find_cached_push(es.drop_first(), e, addr, n);
    }
}

impl BalanceCache {
    /// An empty cache, consistent with any chain.
    pub fn new() -> (r: BalanceCache)
        ensures
            r.entries@.len() == 0,
    {
        BalanceCache { entries: Vec::new() }
    }

    /// The memoized balance for `(address, block_number)`, if any.
    pub fn lookup(&self, address: Address, block_number: u64) -> (r: Option<u128>)
        ensures
            r == find_cached(self.entries@, address, block_number),
    {
        let mut i: usize = 0;
        proof {
            assert(self.entries@.skip(0) =~= self.entries@);
        }
        while i < self.entries.len()
            invariant
                i <= self.entries@.len(),
                find_cached(self.entries@, address, block_number)
                    == find_cached(self.entries@.skip(i as int), address, block_number),
            decreases self.entries@.len() - i,
        {
            proof {
                assert(self.entries@.skip(i as int).drop_first() =~= self.entries@.skip(i as int + 1));
                assert(self.entries@.skip(i as int)[0] == self.entries@[i as int]);
            }
            let e = self.entries[i];
            if e.address == address && e.block_number == block_number {
                return Some(e.balance);
            }
            i = i + 1;
        }
        None
    }
}

/// The balance of `address` at `block_number`, answered from the cache when
/// it can be. A hit issues no chain query; a miss issues exactly one and
/// memoizes the answer, so a second call for the same key is a hit.
pub fn cached_get_balance(
    chain: &mut ChainData,
    cache: &mut BalanceCache,
    address: Address,
    block_number: u64,
) -> (r: u128)
    requires
        cache_consistent(*old(cache), *old(chain)),
    ensures
        r == balance_of(*old(chain), address, block_number),
        cache_consistent(*final(cache), *final(chain)),
        find_cached(final(cache).entries@, address, block_number) == Some(r),
        find_cached(old(cache).entries@, address, block_number) is Some ==> (
            *final(chain) == *old(chain)
            && final(cache).entries@ == old(cache).entries@
        ),
        find_cached(old(cache).entries@, address, block_number) is None ==> (
            *final(chain) == (ChainData { balance_calls: bump(old(chain).balance_calls), ..*old(chain) })
            && final(cache).entries@ == old(cache).entries@.push(
                CacheEntry { address, block_number, balance: r })
        ),
{
    match cache.lookup(address, block_number) {
        Some(balance) => {
            proof {
                lemma_find_cached_member(cache.entries@, address, block_number);
            }
            balance
        }
        None => {
            let balance = chain.get_balance(address, block_number);
            let entry = CacheEntry { address, block_number, balance };
            proof {
                lemma_find_cached_push(cache.entries@, entry, address, block_number);
            }
            cache.entries.push(entry);
            proof {
                assert forall|i: int| 0 <= i < cache.entries@.len()
                    implies (#[trigger] cache.entries@[i]).balance
                        == balance_of(*chain, cache.entries@[i].address, cache.entries@[i].block_number) by {
                    if i < cache.entries@.len() - 1 {
                        assert(cache.entries@[i] == old(cache).entries@[i]);
                    }
                }
            }
            balance
        }
    }
}

} // verus!
