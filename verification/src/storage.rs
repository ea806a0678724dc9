//! The store of the chain, held in memory, and its mathematical model.
//!
//! Blocks live in an arena in the order in which they were admitted, so every
//! block comes after its parents. The total order is a sequence of digests:
//! the topoheight of a block is its place in it. Balances and nonces are logs
//! of versions in ascending topoheight.

use vstd::prelude::*;
use std::sync::Arc;
use crate::block::Block;
use crate::config::{MAX_SUPPLY, TIPS_LIMIT};
use crate::error::BlockchainError;
use crate::hash;
use crate::hash::PublicKey;
use crate::transaction::Transaction;

verus! {

/// A block as stored: header, transactions and the difficulties fixed at admission.
pub struct StoredBlock {
    pub hash: hash::Hash,
    pub block: Block,
    pub txs: Vec<Arc<Transaction>>,
    pub difficulty: u64,
    pub cumulative_difficulty: u64,
}

/// One place of the total order: the block at this topoheight, the reward it
/// earned there and the supply emitted up to and including it.
#[derive(Clone, Copy, Debug, PartialEq, Eq, Structural)]
pub struct TopoEntry {
    pub hash: hash::Hash,
    pub reward: u64,
    pub supply: u64,
}

/// One version of the balance of an account in an asset.
#[derive(Clone, Copy, Debug, PartialEq, Eq, Structural)]
pub struct BalanceEntry {
    pub key: PublicKey,
    pub asset: hash::Hash,
    pub topoheight: u64,
    /// The balance after everything the block at `topoheight` did.
    pub balance: u64,
    /// The balance after the spending alone, where the account also received.
    pub output_balance: Option<u64>,
}

/// One version of the nonce of an account.
#[derive(Clone, Copy, Debug, PartialEq, Eq, Structural)]
pub struct NonceEntry {
    pub key: PublicKey,
    pub topoheight: u64,
    pub nonce: u64,
}

/// The logs of balance and nonce versions, each in ascending topoheight.
pub struct Ledger {
    pub balances: Vec<BalanceEntry>,
    pub nonces: Vec<NonceEntry>,
}

/// The store.
pub struct Storage {
    pub blocks: Vec<StoredBlock>,
    pub order: Vec<TopoEntry>,
    pub tips: Vec<hash::Hash>,
    pub ledger: Ledger,
    pub assets: Vec<hash::Hash>,
    pub top_height: u64,
}

/// The chain as a mathematical value: what a [`Storage`] holds.
pub struct Chain {
    pub blocks: Seq<StoredBlock>,
    pub order: Seq<TopoEntry>,
    pub tips: Seq<hash::Hash>,
    pub balances: Seq<BalanceEntry>,
    pub nonces: Seq<NonceEntry>,
    pub assets: Seq<hash::Hash>,
    pub top_height: u64,
}

impl View for Storage {
    type V = Chain;

    open spec fn view(&self) -> Chain {
        Chain {
            blocks: self.blocks@,
            order: self.order@,
            tips: self.tips@,
            balances: self.ledger.balances@,
            nonces: self.ledger.nonces@,
            assets: self.assets@,
            top_height: self.top_height,
        }
    }
}

/// The last place of `h` in `s`, or -1 where `s` does not hold it.
pub open spec fn position(s: Seq<hash::Hash>, h: hash::Hash) -> int
    decreases s.len(),
{
    if s.len() == 0 {
        -1
    } else if s.last() == h {
        s.len() - 1
    } else {
        position(s.drop_last(), h)
    }
}

/// What [`position`] finds: a place that holds `h` with no later one, or -1
/// where no place holds it.
pub proof fn lemma_position(s: Seq<hash::Hash>, h: hash::Hash)
    ensures
        -1 <= position(s, h) < s.len(),
        position(s, h) >= 0 ==> s[position(s, h)] == h,
        forall|j: int| position(s, h) < j < s.len() ==> s[j] != h,
        position(s, h) >= 0 <==> s.contains(h),
    decreases s.len(),
{
    if s.len() == 0 {
    } else if s.last() == h {
        assert(s[s.len() - 1] == h);
    } else {
        lemma_position(s.drop_last(), h);
        let p = position(s.drop_last(), h);
        if p >= 0 {
            assert(s[p] == s.drop_last()[p]);
        } else {
            if s.contains(h) {
                let j = choose|j: int| 0 <= j < s.len() && s[j] == h;
                assert(s.drop_last()[j] == h);
            }
        }
        assert forall|j: int| position(s, h) < j < s.len() implies s[j] != h by {
            if j < s.len() - 1 {
                assert(s.drop_last()[j] == s[j]);
            }
        }
    }
}

/// In a sequence without repetition, the place of an element is where it stands.
pub proof fn lemma_position_unique(s: Seq<hash::Hash>, i: int)
    requires
        0 <= i < s.len(),
        s.no_duplicates(),
    ensures
        position(s, s[i]) == i,
{
    lemma_position(s, s[i]);
    let p = position(s, s[i]);
    assert(s.contains(s[i]));
    if p != i {
        assert(s[p] == s[i]);
    }
}

/// Appending changes no place already found, and gives the new element the last place.
pub proof fn lemma_position_push(s: Seq<hash::Hash>, x: hash::Hash, h: hash::Hash)
    ensures
        h == x ==> position(s.push(x), h) == s.len(),
        h != x ==> position(s.push(x), h) == position(s, h),
{
    assert(s.push(x).drop_last() =~= s);
}

/// Marks of the places up to `i`, with the place `i` alone marked.
pub fn single_mark(i: usize) -> (marks: Vec<bool>)
    requires
        i < usize::MAX,
    ensures
        marks@.len() == i + 1,
        marks@[i as int],
        forall|x: int| 0 <= x < i ==> !(#[trigger] marks@[x]),
{
    let mut marks: Vec<bool> = Vec::new();
    let mut f: usize = 0;
    while f < i
        invariant
            f <= i,
            marks@.len() == f,
            forall|x: int| 0 <= x < f ==> !(#[trigger] marks@[x]),
        decreases i - f,
    {
        marks.push(false);
        f = f + 1;
    }
    marks.push(true);
    marks
}

/// Finds the last place of `h` in `v`.
pub fn find_hash(v: &Vec<hash::Hash>, h: &hash::Hash) -> (found: Option<usize>)
    ensures
        match found {
            Some(i) => i as int == position(v@, *h),
            None => position(v@, *h) == -1,
        },
{
    let mut i: usize = v.len();
    proof {
        lemma_position(v@, *h);
    }
    while i > 0
        invariant
            i <= v.len(),
            forall|j: int| i <= j < v.len() ==> v@[j] != *h,
        decreases i,
    {
        i = i - 1;
        if v[i] == *h {
            proof {
                lemma_position(v@, *h);
                let p = position(v@, *h);
                assert(v@.contains(*h));
                if p < i {
                }
            }
            return Some(i);
        }
    }
    proof {
        lemma_position(v@, *h);
        let p = position(v@, *h);
        if p >= 0 {
            assert(v@[p] == *h);
        }
    }
    None
}

/// Whether `set` holds `h`.
pub fn contains_hash(set: &Vec<hash::Hash>, h: &hash::Hash) -> (r: bool)
    ensures
        r == set@.contains(*h),
{
    proof {
        lemma_position(set@, *h);
    }
    find_hash(set, h).is_some()
}

/// The largest height among the blocks at the given places of the arena.
pub open spec fn max_height(blocks: Seq<StoredBlock>, places: Seq<int>) -> int
    decreases places.len(),
{
    if places.len() == 0 {
        0
    } else {
        let rest = max_height(blocks, places.drop_last());
        let h = blocks[places.last()].block.height as int;
        if h >= rest {
            h
        } else {
            rest
        }
    }
}

impl Chain {
    /// The digests of the stored blocks, in arena order.
    pub open spec fn hashes(self) -> Seq<hash::Hash> {
        Seq::new(self.blocks.len(), |i: int| self.blocks[i].hash)
    }

    /// The digests of the total order.
    pub open spec fn order_hashes(self) -> Seq<hash::Hash> {
        Seq::new(self.order.len(), |i: int| self.order[i].hash)
    }

    /// The place of `h` in the arena, or -1.
    pub open spec fn index_of(self, h: hash::Hash) -> int {
        position(self.hashes(), h)
    }

    pub open spec fn has_block(self, h: hash::Hash) -> bool {
        self.index_of(h) >= 0
    }

    /// The stored block with digest `h`.
    pub open spec fn block(self, h: hash::Hash) -> StoredBlock {
        self.blocks[self.index_of(h)]
    }

    /// The tips of the block at place `i`.
    pub open spec fn tips_at(self, i: int) -> Seq<hash::Hash> {
        self.blocks[i].block.tips@
    }

    /// The place in the arena of tip `k` of the block at place `i`.
    pub open spec fn parent(self, i: int, k: int) -> int {
        self.index_of(self.tips_at(i)[k])
    }

    /// The places in the arena of the given digests.
    pub open spec fn places(self, hashes: Seq<hash::Hash>) -> Seq<int> {
        Seq::new(hashes.len(), |k: int| self.index_of(hashes[k]))
    }

    /// The height a block with the given tips has: one more than the highest
    /// tip, and zero without tips.
    pub open spec fn height_at_tips(self, tips: Seq<hash::Hash>) -> int {
        if tips.len() == 0 {
            0
        } else {
            max_height(self.blocks, self.places(tips)) + 1
        }
    }

    /// The topoheight of `h`, or -1 where `h` is not ordered.
    pub open spec fn topo_of(self, h: hash::Hash) -> int {
        position(self.order_hashes(), h)
    }

    pub open spec fn is_ordered(self, h: hash::Hash) -> bool {
        self.topo_of(h) >= 0
    }

    /// Whether the arena is sound: no digest twice, every block but the
    /// first with a tip, every tip stored before the block that names it,
    /// heights and timestamps in line with the tips.
    pub open spec fn wf_blocks(self) -> bool {
        &&& self.hashes().no_duplicates()
        &&& forall|i: int| 0 < i < self.blocks.len() ==> (#[trigger] self.tips_at(i)).len() >= 1
        &&& forall|i: int|
            0 <= i < self.blocks.len() ==> (#[trigger] self.tips_at(i)).len() <= TIPS_LIMIT
        &&& forall|i: int, k: int|
            0 <= i < self.blocks.len() && 0 <= k < self.tips_at(i).len() ==> 0 <= (
            #[trigger] self.parent(i, k)) < i
        &&& forall|i: int|
            0 <= i < self.blocks.len() ==> (#[trigger] self.blocks[i]).block.height as int
                == self.height_at_tips(self.tips_at(i))
        &&& forall|i: int, k: int|
            0 <= i < self.blocks.len() && 0 <= k < self.tips_at(i).len()
                ==> self.blocks[#[trigger] self.parent(i, k)].block.timestamp
                <= self.blocks[i].block.timestamp
    }

    /// Whether the total order is sound: no block twice, every block stored,
    /// every parent of an ordered block ordered before it, and the supply the
    /// running sum of the rewards, never above the maximum.
    pub open spec fn wf_order(self) -> bool {
        &&& self.order_hashes().no_duplicates()
        &&& self.order_stored()
        &&& forall|t: int, k: int|
            #![trigger self.parent(self.index_of(self.order[t].hash), k)]
            0 <= t < self.order.len() && 0 <= k < self.tips_at(
                self.index_of(self.order[t].hash),
            ).len() ==> 0 <= self.topo_of(
                self.tips_at(self.index_of(self.order[t].hash))[k],
            ) < t
        &&& forall|t: int|
            0 <= t < self.order.len() ==> (#[trigger] self.order[t]).supply as int
                == self.supply_before(t) + self.order[t].reward
        &&& forall|t: int|
            0 <= t < self.order.len() ==> (#[trigger] self.order[t]).supply <= MAX_SUPPLY
    }

    /// Whether every block of the total order is stored.
    pub open spec fn order_stored(self) -> bool {
        forall|t: int| 0 <= t < self.order.len() ==> self.has_block((#[trigger] self.order[t]).hash)
    }

    /// Whether every tip of the tip set is stored.
    pub open spec fn tips_stored(self) -> bool {
        forall|k: int| 0 <= k < self.tips.len() ==> self.has_block(#[trigger] self.tips[k])
    }

    /// The supply emitted before topoheight `t`.
    pub open spec fn supply_before(self, t: int) -> int {
        if t <= 0 {
            0
        } else {
            self.order[t - 1].supply as int
        }
    }

    /// Whether the tip set is sound: no tip twice, every tip stored.
    pub open spec fn wf_tips(self) -> bool {
        &&& self.tips.no_duplicates()
        &&& self.tips_stored()
    }

    /// Whether the logs of versions are sound: ascending in topoheight, none
    /// beyond the top of the order.
    pub open spec fn wf_ledger(self) -> bool {
        &&& forall|i: int, j: int|
            0 <= i <= j < self.balances.len() ==> (#[trigger] self.balances[i]).topoheight <= (
            #[trigger] self.balances[j]).topoheight
        &&& forall|i: int, j: int|
            0 <= i <= j < self.nonces.len() ==> (#[trigger] self.nonces[i]).topoheight <= (
            #[trigger] self.nonces[j]).topoheight
        &&& forall|i: int|
            0 <= i < self.balances.len() ==> (#[trigger] self.balances[i]).topoheight
                < self.order.len()
        &&& forall|i: int|
            0 <= i < self.nonces.len() ==> (#[trigger] self.nonces[i]).topoheight
                < self.order.len()
    }

    /// Whether one of the first `n` blocks of the arena names `h` as a tip.
    pub open spec fn named_before(self, h: hash::Hash, n: int) -> bool
        decreases n,
    {
        n > 0 && (self.tips_at(n - 1).contains(h) || self.named_before(h, n - 1))
    }

    /// The blocks among the first `n` of the arena that no block names as a tip.
    pub open spec fn childless(self, n: int) -> Seq<hash::Hash>
        decreases n,
    {
        if n <= 0 {
            Seq::empty()
        } else {
            let before = self.childless(n - 1);
            if self.named_before(self.blocks[n - 1].hash, self.blocks.len() as int) {
                before
            } else {
                before.push(self.blocks[n - 1].hash)
            }
        }
    }

    /// The greatest height of the first `n` blocks of the arena.
    pub open spec fn highest_stored(self, n: int) -> u64
        decreases n,
    {
        if n <= 0 {
            0
        } else {
            let before = self.highest_stored(n - 1);
            let height = self.blocks[n - 1].block.height;
            if height > before {
                height
            } else {
                before
            }
        }
    }

    /// Whether the chain is sound: the arena, the order, the tip set and the
    /// logs are, a block is ordered as soon as one is stored, the tip set is
    /// the stored blocks that no block names, in the order in which they
    /// were stored, and the top height is the greatest height stored.
    pub open spec fn wf(self) -> bool {
        &&& self.wf_blocks()
        &&& self.wf_order()
        &&& self.wf_tips()
        &&& self.wf_ledger()
        &&& (self.order.len() == 0 ==> self.blocks.len() == 0)
        &&& self.tips == self.childless(self.blocks.len() as int)
        &&& self.top_height == self.highest_stored(self.blocks.len() as int)
    }
}


/// The height of a block is at most its place in the arena.
pub proof fn lemma_height_bound(c: Chain, i: int)
    requires
        c.wf_blocks(),
        0 <= i < c.blocks.len(),
    ensures
        c.blocks[i].block.height <= i,
    decreases i,
{
    let tips = c.tips_at(i);
    if tips.len() > 0 {
        lemma_max_height_bound(c, i, tips.len() as int);
        assert(c.places(tips).take(tips.len() as int) =~= c.places(tips));
    }
}

proof fn lemma_max_height_bound(c: Chain, i: int, n: int)
    requires
        c.wf_blocks(),
        0 <= i < c.blocks.len(),
        0 <= n <= c.tips_at(i).len(),
    ensures
        max_height(c.blocks, c.places(c.tips_at(i)).take(n)) <= i - 1 || n == 0,
        max_height(c.blocks, c.places(c.tips_at(i)).take(n)) >= 0,
    decreases i, n,
{
    let places = c.places(c.tips_at(i));
    if n > 0 {
        lemma_max_height_bound(c, i, n - 1);
        assert(places.take(n).drop_last() =~= places.take(n - 1));
        let p = places.take(n).last();
        assert(p == c.parent(i, n - 1));
        lemma_height_bound(c, p);
    }
}

impl Storage {
    /// An empty store.
    pub fn new() -> (s: Storage)
        ensures
            s@.blocks.len() == 0,
            s@.order.len() == 0,
            s@.tips.len() == 0,
            s@.balances.len() == 0,
            s@.nonces.len() == 0,
            s@.assets.len() == 0,
            s@.top_height == 0,
            s@.wf(),
            s@.sound(),
    {
        Storage {
            blocks: Vec::new(),
            order: Vec::new(),
            tips: Vec::new(),
            ledger: Ledger { balances: Vec::new(), nonces: Vec::new() },
            assets: Vec::new(),
            top_height: 0,
        }
    }

    /// The place of the block `h` in the arena.
    pub fn find_block(&self, h: &hash::Hash) -> (found: Option<usize>)
        ensures
            match found {
                Some(i) => i as int == self@.index_of(*h) && i < self.blocks.len(),
                None => self@.index_of(*h) == -1,
            },
    {
        let mut i: usize = self.blocks.len();
        let ghost hs = self@.hashes();
        while i > 0
            invariant
                i <= self.blocks.len(),
                hs == self@.hashes(),
                forall|j: int| i <= j < self.blocks.len() ==> hs[j] != *h,
            decreases i,
        {
            i = i - 1;
            if self.blocks[i].hash == *h {
                proof {
                    lemma_position(hs, *h);
                    assert(hs[i as int] == *h);
                    assert(hs.contains(*h));
                }
                return Some(i);
            }
        }
        proof {
            lemma_position(hs, *h);
            let p = position(hs, *h);
            if p >= 0 {
                assert(hs[p] == *h);
            }
        }
        None
    }

    /// The topoheight of the block `h`.
    pub fn find_topoheight(&self, h: &hash::Hash) -> (found: Option<usize>)
        ensures
            match found {
                Some(t) => t as int == self@.topo_of(*h) && t < self.order.len(),
                None => self@.topo_of(*h) == -1,
            },
    {
        let mut i: usize = self.order.len();
        let ghost hs = self@.order_hashes();
        while i > 0
            invariant
                i <= self.order.len(),
                hs == self@.order_hashes(),
                forall|j: int| i <= j < self.order.len() ==> hs[j] != *h,
            decreases i,
        {
            i = i - 1;
            if self.order[i].hash == *h {
                proof {
                    lemma_position(hs, *h);
                    assert(hs[i as int] == *h);
                    assert(hs.contains(*h));
                }
                return Some(i);
            }
        }
        proof {
            lemma_position(hs, *h);
            let p = position(hs, *h);
            if p >= 0 {
                assert(hs[p] == *h);
            }
        }
        None
    }

    /// Whether any block is stored.
    pub fn has_blocks(&self) -> (r: bool)
        ensures
            r == (self@.blocks.len() > 0),
    {
        self.blocks.len() > 0
    }

    /// Whether the block `h` is stored.
    pub fn has_block(&self, h: &hash::Hash) -> (r: bool)
        ensures
            r == self@.has_block(*h),
    {
        self.find_block(h).is_some()
    }

    /// The stored block `h`.
    pub fn get_block_by_hash(&self, h: &hash::Hash) -> (r: Result<&StoredBlock, BlockchainError>)
        ensures
            match r {
                Ok(b) => self@.has_block(*h) && *b == self@.block(*h),
                Err(e) => !self@.has_block(*h) && e == BlockchainError::BlockNotFound(*h),
            },
    {
        match self.find_block(h) {
            Some(i) => Ok(&self.blocks[i]),
            None => Err(BlockchainError::BlockNotFound(*h)),
        }
    }

    /// The tips of the block `h`.
    pub fn get_past_blocks_of(&self, h: &hash::Hash) -> (r: Result<&Vec<hash::Hash>, BlockchainError>)
        ensures
            match r {
                Ok(tips) => self@.has_block(*h) && *tips == self@.block(*h).block.tips,
                Err(e) => !self@.has_block(*h) && e == BlockchainError::BlockNotFound(*h),
            },
    {
        match self.find_block(h) {
            Some(i) => Ok(&self.blocks[i].block.tips),
            None => Err(BlockchainError::BlockNotFound(*h)),
        }
    }

    /// The height of the block `h`.
    pub fn get_height_for_block(&self, h: &hash::Hash) -> (r: Result<u64, BlockchainError>)
        ensures
            match r {
                Ok(height) => self@.has_block(*h) && height == self@.block(*h).block.height,
                Err(e) => !self@.has_block(*h) && e == BlockchainError::BlockNotFound(*h),
            },
    {
        match self.find_block(h) {
            Some(i) => Ok(self.blocks[i].block.height),
            None => Err(BlockchainError::BlockNotFound(*h)),
        }
    }

    /// The timestamp of the block `h`.
    pub fn get_timestamp_for_block(&self, h: &hash::Hash) -> (r: Result<u128, BlockchainError>)
        ensures
            match r {
                Ok(timestamp) => self@.has_block(*h) && timestamp == self@.block(
                    *h,
                ).block.timestamp,
                Err(e) => !self@.has_block(*h) && e == BlockchainError::BlockNotFound(*h),
            },
    {
        match self.find_block(h) {
            Some(i) => Ok(self.blocks[i].block.timestamp),
            None => Err(BlockchainError::BlockNotFound(*h)),
        }
    }

    /// The difficulty of the block `h`.
    pub fn get_difficulty_for_block(&self, h: &hash::Hash) -> (r: Result<u64, BlockchainError>)
        ensures
            match r {
                Ok(difficulty) => self@.has_block(*h) && difficulty == self@.block(*h).difficulty,
                Err(e) => !self@.has_block(*h) && e == BlockchainError::BlockNotFound(*h),
            },
    {
        match self.find_block(h) {
            Some(i) => Ok(self.blocks[i].difficulty),
            None => Err(BlockchainError::BlockNotFound(*h)),
        }
    }

    /// The cumulative difficulty of the block `h`.
    pub fn get_cumulative_difficulty_for_block(&self, h: &hash::Hash) -> (r: Result<
        u64,
        BlockchainError,
    >)
        ensures
            match r {
                Ok(cumulative) => self@.has_block(*h) && cumulative == self@.block(
                    *h,
                ).cumulative_difficulty,
                Err(e) => !self@.has_block(*h) && e == BlockchainError::BlockNotFound(*h),
            },
    {
        match self.find_block(h) {
            Some(i) => Ok(self.blocks[i].cumulative_difficulty),
            None => Err(BlockchainError::BlockNotFound(*h)),
        }
    }

    /// Whether the block `h` has a place in the total order.
    pub fn is_block_topological_ordered(&self, h: &hash::Hash) -> (r: bool)
        ensures
            r == self@.is_ordered(*h),
    {
        self.find_topoheight(h).is_some()
    }

    /// The topoheight of the block `h`.
    pub fn get_topo_height_for_hash(&self, h: &hash::Hash) -> (r: Result<u64, BlockchainError>)
        ensures
            match r {
                Ok(t) => self@.is_ordered(*h) && t as int == self@.topo_of(*h),
                Err(e) => !self@.is_ordered(*h) && e == BlockchainError::BlockNotOrdered(*h),
            },
    {
        match self.find_topoheight(h) {
            Some(t) => Ok(t as u64),
            None => Err(BlockchainError::BlockNotOrdered(*h)),
        }
    }

    /// The block at topoheight `t`.
    pub fn get_hash_at_topo_height(&self, t: u64) -> (r: Result<hash::Hash, BlockchainError>)
        ensures
            match r {
                Ok(h) => t < self@.order.len() && h == self@.order[t as int].hash,
                Err(e) => t >= self@.order.len() && e == BlockchainError::NoBlockAtTopoheight(t),
            },
    {
        if t < self.order.len() as u64 {
            Ok(self.order[t as usize].hash)
        } else {
            Err(BlockchainError::NoBlockAtTopoheight(t))
        }
    }

    /// The supply emitted up to and including topoheight `t`.
    pub fn get_supply_at_topo_height(&self, t: u64) -> (r: Result<u64, BlockchainError>)
        ensures
            match r {
                Ok(supply) => t < self@.order.len() && supply == self@.order[t as int].supply,
                Err(e) => t >= self@.order.len() && e == BlockchainError::NoBlockAtTopoheight(t),
            },
    {
        if t < self.order.len() as u64 {
            Ok(self.order[t as usize].supply)
        } else {
            Err(BlockchainError::NoBlockAtTopoheight(t))
        }
    }

    /// The reward the block `h` earned at its place in the total order.
    pub fn get_block_reward(&self, h: &hash::Hash) -> (r: Result<u64, BlockchainError>)
        ensures
            match r {
                Ok(reward) => self@.is_ordered(*h) && reward == self@.order[self@.topo_of(
                    *h,
                )].reward,
                Err(e) => !self@.is_ordered(*h) && e == BlockchainError::BlockNotOrdered(*h),
            },
    {
        match self.find_topoheight(h) {
            Some(t) => Ok(self.order[t].reward),
            None => Err(BlockchainError::BlockNotOrdered(*h)),
        }
    }

    /// The supply emitted up to and including the block `h`.
    pub fn get_supply_for_block(&self, h: &hash::Hash) -> (r: Result<u64, BlockchainError>)
        ensures
            match r {
                Ok(supply) => self@.is_ordered(*h) && supply == self@.order[self@.topo_of(
                    *h,
                )].supply,
                Err(e) => !self@.is_ordered(*h) && e == BlockchainError::BlockNotOrdered(*h),
            },
    {
        match self.find_topoheight(h) {
            Some(t) => Ok(self.order[t].supply),
            None => Err(BlockchainError::BlockNotOrdered(*h)),
        }
    }

    /// The tip set.
    pub fn get_tips(&self) -> (tips: &Vec<hash::Hash>)
        ensures
            tips@ == self@.tips,
    {
        &self.tips
    }

    /// The greatest height of a stored block.
    pub fn get_top_height(&self) -> (height: u64)
        ensures
            height == self@.top_height,
    {
        self.top_height
    }

    /// The greatest topoheight, zero in an empty store.
    pub fn get_top_topoheight(&self) -> (t: u64)
        ensures
            t as int == if self@.order.len() == 0 {
                0
            } else {
                self@.order.len() - 1
            },
    {
        if self.order.len() == 0 {
            0
        } else {
            (self.order.len() - 1) as u64
        }
    }
}

} // verus!
