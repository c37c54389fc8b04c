//! The chain-side data model: addresses, transaction hashes, trace frames,
//! blocks, and a queryable chain snapshot that stands for the node the engine
//! scans.
//!
//! Balances are native-currency amounts in the smallest unit; a balance entry
//! in the snapshot is a change point, and the balance of an address at block
//! `n` is the value of its change point with the largest block number not
//! above `n` (or zero when there is none). The snapshot also counts how many
//! balance queries were made, so that callers can observe how much work the
//! memoizing cache saves.

use vstd::prelude::*;

verus! {

/// A 160-bit account address, held as three plain integers.
#[derive(PartialEq, Eq, Structural, Clone, Copy, Debug)]
pub struct Address {
    pub hi: u32,
    pub mid: u64,
    pub lo: u64,
}

/// A 256-bit transaction hash, held as two plain integers.
#[derive(PartialEq, Eq, Structural, Clone, Copy, Debug)]
pub struct TxHash {
    pub hi: u128,
    pub lo: u128,
}

/// One internal call frame recorded by the node while executing a
/// transaction. Only call frames carry transfer data; reward frames are
/// unsupported by the reconciliation and everything else is ignored.
#[derive(PartialEq, Eq, Structural, Clone, Copy, Debug)]
pub enum TraceAction {
    Call { from: Address, to: Address, value: u128, gas: u128 },
    Reward,
    Other,
}

/// A consensus-layer withdrawal listed in a block. The amount is expressed
/// in a unit one billion times coarser than balances.
#[derive(PartialEq, Eq, Structural, Clone, Copy, Debug)]
pub struct Withdrawal {
    pub address: Address,
    pub amount: u64,
}

/// A transaction as listed in a block body.
#[derive(PartialEq, Eq, Structural, Clone, Copy, Debug)]
pub struct ChainTx {
    pub tx_hash: TxHash,
    pub gas: u128,
}

/// A block body: header fields plus the withdrawal and transaction lists.
#[derive(Clone, Debug)]
pub struct BlockData {
    pub number: u64,
    pub timestamp: u64,
    pub author: Address,
    pub withdrawals: Vec<Withdrawal>,
    pub transactions: Vec<ChainTx>,
}

/// A balance change point: `address` holds `balance` from `block_number` on,
/// until a later change point overrides it.
#[derive(PartialEq, Eq, Structural, Clone, Copy, Debug)]
pub struct BalancePoint {
    pub address: Address,
    pub block_number: u64,
    pub balance: u128,
}

/// The internal call frames recorded for one transaction.
#[derive(Clone, Debug)]
pub struct TraceSet {
    pub tx_hash: TxHash,
    pub frames: Vec<TraceAction>,
}

/// A chain snapshot: the data a node would serve, as plain values, plus a
/// counter of balance queries answered.
#[derive(Clone, Debug)]
pub struct ChainData {
    pub height: u64,
    pub blocks: Vec<BlockData>,
    pub balance_points: Vec<BalancePoint>,
    pub traces: Vec<TraceSet>,
    pub balance_calls: u64,
}

/// The change point that governs `addr`'s balance at block `n`: among the
/// entries for `addr` with block number at most `n`, the one with the
/// largest block number (the earliest such entry on a tie).
pub open spec fn balance_point_lookup(ps: Seq<BalancePoint>, addr: Address, n: u64) -> Option<BalancePoint>
    decreases ps.len(),
{
    if ps.len() == 0 {
        None
    } else {
        let prev = balance_point_lookup(ps.drop_last(), addr, n);
        let p = ps.last();
        if p.address == addr && p.block_number <= n && (match prev {
            Some(q) => q.block_number < p.block_number,
            None => true,
        }) {
            Some(p)
        } else {
            prev
        }
    }
}

/// The balance of `addr` at block `n` in chain `c`: the governing change
/// point's value, or zero when the address has no change point yet.
pub open spec fn balance_of(c: ChainData, addr: Address, n: u64) -> u128 {
    match balance_point_lookup(c.balance_points@, addr, n) {
        Some(p) => p.balance,
        None => 0,
    }
}

/// The first block in `bs` numbered `n`.
pub open spec fn find_block(bs: Seq<BlockData>, n: u64) -> Option<BlockData>
    decreases bs.len(),
{
    if bs.len() == 0 {
        None
    } else if bs[0].number == n {
        Some(bs[0])
    } else {
        find_block(bs.drop_first(), n)
    }
}

/// The first trace set in `ts` recorded for transaction hash `h`.
pub open spec fn find_traces(ts: Seq<TraceSet>, h: TxHash) -> Option<TraceSet>
    decreases ts.len(),
{
    if ts.len() == 0 {
        None
    } else if ts[0].tx_hash == h {
        Some(ts[0])
    } else {
        find_traces(ts.drop_first(), h)
    }
}

/// A counter bumped once per query, saturating instead of wrapping.
pub open spec fn bump(n: u64) -> u64 {
    if n < u64::MAX { (n + 1) as u64 } else { n }
}

/// Two snapshots that answer every query alike, whatever their counters say.
pub open spec fn same_chain_data(a: ChainData, b: ChainData) -> bool {
    &&& a.height == b.height
    &&& a.blocks@ == b.blocks@
    &&& a.balance_points@ == b.balance_points@
    &&& a.traces@ == b.traces@
}

/// A governing change point is one of the chain's entries.
pub proof fn lemma_balance_point_member(ps: Seq<BalancePoint>, addr: Address, n: u64)
    requires
        balance_point_lookup(ps, addr, n) is Some,
    ensures
        exists|i: int| 0 <= i < ps.len() && ps[i] == balance_point_lookup(ps, addr, n)->Some_0,
    decreases ps.len(),
{
    if ps.len() > 0 {
        let prev = balance_point_lookup(ps.drop_last(), addr, n);
        let p = ps.last();
        let takes = p.address == addr && p.block_number <= n && (match prev {
            Some(q) => q.block_number < p.block_number,
            None => true,
        });
        if takes {
            assert(ps[ps.len() - 1] == p);
        } else {
            lemma_balance_point_member(ps.drop_last(), addr, n);
            let i = choose|i: int| 0 <= i < ps.drop_last().len()
                && ps.drop_last()[i] == balance_point_lookup(ps.drop_last(), addr, n)->Some_0;
            assert(ps[i] == balance_point_lookup(ps, addr, n)->Some_0);
        }
    }
}

/// A block found by number is one of the chain's blocks.
pub proof fn lemma_find_block_is_member(bs: Seq<BlockData>, n: u64)
    requires
        find_block(bs, n) is Some,
    ensures
        exists|i: int| 0 <= i < bs.len() && bs[i] == find_block(bs, n)->Some_0,
    decreases bs.len(),
{
    if bs.len() > 0 && bs[0].number != n {
        lemma_find_block_is_member(bs.drop_first(), n);
        let j = choose|j: int| 0 <= j < bs.drop_first().len()
            && bs.drop_first()[j] == find_block(bs.drop_first(), n)->Some_0;
        assert(bs[j + 1] == find_block(bs, n)->Some_0);
    }
}

impl ChainData {
    /// The number of the newest block the node knows.
    pub fn get_current_height(&self) -> (r: u64)
        ensures
            r == self.height,
    {
        self.height
    }

    /// The balance of `address` at block `block_number`. Each call counts as
    /// one query against the node.
    pub fn get_balance(&mut self, address: Address, block_number: u64) -> (r: u128)
        ensures
            r == balance_of(*old(self), address, block_number),
            *final(self) == (ChainData { balance_calls: bump(old(self).balance_calls), ..*old(self) }),
    {
        if self.balance_calls < u64::MAX {
            self.balance_calls = self.balance_calls + 1;
        }
        let mut best: Option<BalancePoint> = None;
        let mut i: usize = 0;
        let points = &self.balance_points;
        while i < points.len()
            invariant
                i <= points.len(),
                best == balance_point_lookup(points@.take(i as int), address, block_number),
            decreases points.len() - i,
        {
            let p = points[i];
            proof {
                assert(points@.take(i as int + 1).drop_last() =~= points@.take(i as int));
                assert(points@.take(i as int + 1).last() == points@[i as int]);
            }
            let replace = p.address == address && p.block_number <= block_number && (match best {
                Some(q) => q.block_number < p.block_number,
                None => true,
            });
            if replace {
                best = Some(p);
            }
            i = i + 1;
        }
        proof {
            assert(points@.take(points@.len() as int) =~= points@);
        }
        match best {
            Some(p) => p.balance,
            None => 0,
        }
    }

    /// The block numbered `number`, if the node has it.
    pub fn get_block(&self, number: u64) -> (r: Option<&BlockData>)
        ensures
            match r {
                Some(b) => find_block(self.blocks@, number) == Some(*b),
                None => find_block(self.blocks@, number) is None,
            },
    {
        let mut i: usize = 0;
        proof {
            assert(self.blocks@.skip(0) =~= self.blocks@);
        }
        while i < self.blocks.len()
            invariant
                i <= self.blocks.len(),
                find_block(self.blocks@, number) == find_block(self.blocks@.skip(i as int), number),
            decreases self.blocks.len() - i,
        {
            proof {
                assert(self.blocks@.skip(i as int).drop_first() =~= self.blocks@.skip(i as int + 1));
                assert(self.blocks@.skip(i as int)[0] == self.blocks@[i as int]);
            }
            if self.blocks[i].number == number {
                return Some(&self.blocks[i]);
            }
            i = i + 1;
        }
        None
    }

    /// The internal call frames recorded for the transaction with hash
    /// `tx_hash`, if the node has traced it.
    pub fn get_transaction_traces(&self, tx_hash: TxHash) -> (r: Option<&TraceSet>)
        ensures
            match r {
                Some(t) => find_traces(self.traces@, tx_hash) == Some(*t),
                None => find_traces(self.traces@, tx_hash) is None,
            },
    {
        let mut i: usize = 0;
        proof {
            assert(self.traces@.skip(0) =~= self.traces@);
        }
        while i < self.traces.len()
            invariant
                i <= self.traces.len(),
                find_traces(self.traces@, tx_hash) == find_traces(self.traces@.skip(i as int), tx_hash),
            decreases self.traces.len() - i,
        {
            proof {
                assert(self.traces@.skip(i as int).drop_first() =~= self.traces@.skip(i as int + 1));
                assert(self.traces@.skip(i as int)[0] == self.traces@[i as int]);
            }
            if self.traces[i].tx_hash == tx_hash {
                return Some(&self.traces[i]);
            }
            i = i + 1;
        }
        None
    }
}

} // verus!
