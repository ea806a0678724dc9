//! What admitting a block does to the chain: the block is stored, the tip
//! set moves, the total order is rebuilt past the common base and the blocks
//! that moved are executed again.

use vstd::prelude::*;
use crate::block::CompleteBlock;
use crate::blockchain::{emission, side_emission, Blockchain};
use crate::config::TIPS_LIMIT;
use crate::error::BlockchainError;
use crate::executor::{block_executed, nonces_after};
use crate::hash;
use crate::hash::PublicKey;
use crate::ledger::{balances_below, nonces_below};
use crate::order::side_at;
use crate::storage::{
    lemma_position,
    lemma_position_push,
    max_height,
    BalanceEntry,
    Chain,
    NonceEntry,
    StoredBlock,
    TopoEntry,
};
use crate::tx_verify::ExpectedNonce;

verus! {

/// The block as it is stored.
pub open spec fn record(block: CompleteBlock, difficulty: u64, cumulative: u64) -> StoredBlock {
    StoredBlock {
        hash: block.hash,
        block: block.block,
        txs: block.transactions,
        difficulty,
        cumulative_difficulty: cumulative,
    }
}

/// Those of the first `n` of `tips` that `parents` does not name.
pub open spec fn tips_without(tips: Seq<hash::Hash>, parents: Seq<hash::Hash>, n: int) -> Seq<
    hash::Hash,
>
    decreases n,
{
    if n <= 0 {
        Seq::empty()
    } else {
        let before = tips_without(tips, parents, n - 1);
        if parents.contains(tips[n - 1]) {
            before
        } else {
            before.push(tips[n - 1])
        }
    }
}

/// The place in the order to write after `order`, with the reward and the
/// supply of `h` there: nothing for the first block of the order, and the
/// reward of a side block where `h` is one there.
pub open spec fn next_entry(c: Chain, order: Seq<TopoEntry>, h: hash::Hash) -> TopoEntry {
    let past = if order.len() == 0 {
        0
    } else {
        order.last().supply
    };
    let reward = if order.len() == 0 {
        0
    } else if side_at(
        c,
        order.push(TopoEntry { hash: h, reward: 0, supply: 0 }),
        order.len() as int,
    ) {
        side_emission(past)
    } else {
        emission(past)
    };
    TopoEntry { hash: h, reward, supply: (past + reward) as u64 }
}

/// The order, the logs and the moved nonces after a run of blocks is ordered
/// and executed.
pub struct Reordered {
    pub order: Seq<TopoEntry>,
    pub balances: Seq<BalanceEntry>,
    pub nonces: Seq<NonceEntry>,
    pub moved: Seq<ExpectedNonce>,
}

/// What ordering and executing one more block gives.
pub open spec fn ordered_next(c: Chain, dev_key: PublicKey, so_far: Reordered, h: hash::Hash) -> Result<
    Reordered,
    BlockchainError,
> {
    let entry = next_entry(c, so_far.order, h);
    match block_executed(
        so_far.balances,
        so_far.nonces,
        c.block(h),
        so_far.order.len() as u64,
        entry.reward,
        dev_key,
    ) {
        Err(e) => Err(e),
        Ok((balances, nonces)) => Ok(
            Reordered {
                order: so_far.order.push(entry),
                balances,
                nonces,
                moved: nonces_after(so_far.moved, c.block(h).txs@, c.block(h).txs@.len() as int),
            },
        ),
    }
}


/// What is worked out for an admitted block before the chain takes it in.
pub struct Prepared {
    /// The chain with the block stored.
    pub chain: Chain,
    /// The tip set with the block.
    pub tips: Seq<hash::Hash>,
    /// The best tip of that tip set.
    pub best: hash::Hash,
    /// The topoheight of the common base of that tip set.
    pub base_topo: int,
    /// The order from the base to the best tip.
    pub full: Seq<hash::Hash>,
    /// The order and the logs rebuilt past the base.
    pub after: Reordered,
}

impl Prepared {
    /// The chain with the rebuilt order and logs in place.
    pub open spec fn installed(self) -> Chain {
        Chain {
            order: self.after.order,
            balances: self.after.balances,
            nonces: self.after.nonces,
            ..self.chain
        }
    }
}

impl Chain {
    /// The chain with the block stored.
    pub open spec fn stored(self, block: CompleteBlock, difficulty: u64, cumulative: u64) -> Chain {
        Chain { blocks: self.blocks.push(record(block, difficulty, cumulative)), ..self }
    }

    /// The tip set after the block joins: the tips it does not name, then the block.
    pub open spec fn next_tips(self, block: CompleteBlock) -> Seq<hash::Hash> {
        tips_without(self.tips, block.block.tips@, self.tips.len() as int).push(block.hash)
    }

    /// The cumulative difficulty of a block that has just been stored: its
    /// difficulty where it has no tips, else the work behind it over the
    /// common base of its tips.
    #[verifier::opaque]
    pub open spec fn cumulative_for(self, block: CompleteBlock, difficulty: u64) -> Result<
        u64,
        BlockchainError,
    > {
        if block.block.tips@.len() == 0 {
            Ok(difficulty)
        } else {
            self.work_score(block.hash, self.common_base(block.block.tips@).0)
        }
    }

    /// Number of blocks of `full`, from `k` on, that already stand at their
    /// place of the order, which starts `base_topo` places in.
    pub open spec fn kept(self, full: Seq<hash::Hash>, base_topo: int, k: int) -> int
        decreases full.len() - k,
    {
        if 0 <= k < full.len() && 0 <= base_topo + k < self.order.len() && self.order[base_topo
            + k].hash == full[k] {
            self.kept(full, base_topo, k + 1)
        } else {
            k
        }
    }

    /// What ordering and executing the blocks of `full` from `k` on gives,
    /// each at the place after those before it.
    pub open spec fn reordered(
        self,
        dev_key: PublicKey,
        full: Seq<hash::Hash>,
        k: int,
        so_far: Reordered,
    ) -> Result<Reordered, BlockchainError>
        decreases full.len() - k,
    {
        if k < 0 || k >= full.len() {
            Ok(so_far)
        } else {
            match ordered_next(self, dev_key, so_far, full[k]) {
                Err(e) => Err(e),
                Ok(next) => self.reordered(dev_key, full, k + 1, next),
            }
        }
    }

    /// The best tip of `tips`, the topoheight of their common base and the
    /// order from the base to the best tip, or why they cannot be given.
    /// While nothing is ordered, the block that joined last is ordered first.
    #[verifier::opaque]
    pub open spec fn planned(self, tips: Seq<hash::Hash>) -> Result<
        (hash::Hash, int, Seq<hash::Hash>),
        BlockchainError,
    > {
        let base = self.common_base(tips);
        if self.order.len() == 0 {
            Ok((tips.last(), 0, seq![tips.last()]))
        } else {
            match self.best_tip(tips, base.0) {
                Err(e) => Err(e),
                Ok(best) => if !self.is_ordered(base.0) {
                    Err(BlockchainError::BlockNotOrdered(base.0))
                } else if !self.has_block(best) {
                    Err(BlockchainError::BlockNotFound(best))
                } else if self.is_ordered(best) && self.topo_of(best) < self.topo_of(base.0) {
                    Err(BlockchainError::BestTipUnderBase(best))
                } else {
                    Ok(
                        (
                            best,
                            self.topo_of(base.0),
                            self.full_order(best, base.0, self.topo_of(base.0)),
                        ),
                    )
                },
            }
        }
    }

    /// The order and the logs after the blocks of `full` that do not stand
    /// at their place yet are ordered and executed: the places before the
    /// first such block stay, and so do the versions under it.
    #[verifier::opaque]
    pub open spec fn rebuilt(self, dev_key: PublicKey, full: Seq<hash::Hash>, base_topo: int) -> Result<
        Reordered,
        BlockchainError,
    > {
        let kept = self.kept(full, base_topo, 0);
        let d = base_topo + kept;
        self.reordered(
            dev_key,
            full,
            kept,
            Reordered {
                order: self.order.take(d),
                balances: self.balances.take(balances_below(self.balances, d)),
                nonces: self.nonces.take(nonces_below(self.nonces, d)),
                moved: Seq::empty(),
            },
        )
    }

    /// The difficulty and the stable height at the tip set `tips`, or why
    /// they cannot be given.
    #[verifier::opaque]
    pub open spec fn settled(self, tips: Seq<hash::Hash>) -> Result<(u64, u64), BlockchainError> {
        if tips.len() == 0 {
            Err(BlockchainError::ExpectedTips)
        } else {
            match self.difficulty_at_tips(tips) {
                Err(e) => Err(e),
                Ok(difficulty) => Ok((difficulty, self.common_base(tips).1)),
            }
        }
    }

    /// The chain with the admitted block stored, the tip set it joins, and
    /// the order rebuilt for it past the common base, or why they cannot be given.
    #[verifier::opaque]
    pub open spec fn prepared(self, dev_key: PublicKey, block: CompleteBlock, difficulty: u64) -> Result<
        Prepared,
        BlockchainError,
    > {
        match self.stored(block, difficulty, 0).cumulative_for(block, difficulty) {
            Err(e) => Err(e),
            Ok(cumulative) => {
                let c1 = self.stored(block, difficulty, cumulative);
                let tips1 = self.next_tips(block);
                match c1.planned(tips1) {
                    Err(e) => Err(e),
                    Ok((best, base_topo, full)) => match c1.rebuilt(dev_key, full, base_topo) {
                        Err(e) => Err(e),
                        Ok(after) => Ok(
                            Prepared { chain: c1, tips: tips1, best, base_topo, full, after },
                        ),
                    },
                }
            },
        }
    }

    /// The chain and the coordinator after the admitted block is taken in,
    /// with the nonces that moved, or why it cannot be.
    #[verifier::opaque]
    pub open spec fn integrated(self, node: Blockchain, block: CompleteBlock, difficulty: u64) -> Result<
        (Chain, Blockchain, Seq<ExpectedNonce>),
        BlockchainError,
    > {
        match self.prepared(node.dev_key, block, difficulty) {
            Err(e) => Err(e),
            Ok(ready) => {
                let c2 = ready.installed();
                match c2.settled(ready.tips) {
                    Err(e) => Err(e),
                    Ok((next_difficulty, stable_height)) => {
                        let top = if block.block.height > self.top_height {
                            block.block.height
                        } else {
                            self.top_height
                        };
                        Ok(
                            (
                                Chain { tips: ready.tips, top_height: top, ..c2 },
                                Blockchain {
                                    height: top,
                                    topoheight: (ready.after.order.len() - 1) as u64,
                                    stable_height,
                                    difficulty: next_difficulty,
                                    ..node
                                },
                                ready.after.moved,
                            ),
                        )
                    },
                }
            },
        }
    }

    /// Whether the chain can be worked on: its parts are sound, the tip set
    /// is the stored blocks that no block names, in the order in which they
    /// were stored, and the top height is the greatest height stored.
    pub open spec fn sound(self) -> bool {
        &&& self.parts_sound()
        &&& self.tips == self.childless(self.blocks.len() as int)
        &&& self.top_height == self.highest_stored(self.blocks.len() as int)
    }

    /// Whether the parts of the chain are sound, as they are also while a
    /// block is taken in: the arena is sound, the blocks of the order and of
    /// the tip set are stored, and the logs ascend.
    pub open spec fn parts_sound(self) -> bool {
        &&& self.wf_blocks()
        &&& self.order_stored()
        &&& self.tips_stored()
        &&& crate::ledger::balances_ascend(self.balances)
        &&& crate::ledger::nonces_ascend(self.nonces)
    }

    /// Whether a block can join the arena: it is new, it has a tip unless
    /// the arena is empty, its tips are stored and no more than the limit,
    /// its height is the height at its tips, and no tip is later than it.
    pub open spec fn fits(self, block: StoredBlock) -> bool {
        &&& !self.has_block(block.hash)
        &&& (self.blocks.len() > 0 ==> block.block.tips@.len() >= 1)
        &&& block.block.tips@.len() <= TIPS_LIMIT
        &&& self.all_stored(block.block.tips@)
        &&& block.block.height as int == self.height_at_tips(block.block.tips@)
        &&& forall|k: int|
            0 <= k < block.block.tips@.len() ==> self.block(
                #[trigger] block.block.tips@[k],
            ).block.timestamp <= block.block.timestamp
    }

    /// The chain with one more block at the end of the arena.
    pub open spec fn pushed(self, block: StoredBlock) -> Chain {
        Chain { blocks: self.blocks.push(block), ..self }
    }
}

/// The greatest height among stored places is the same once a block is pushed.
pub proof fn lemma_max_height_pushed(blocks: Seq<StoredBlock>, block: StoredBlock, places: Seq<int>)
    requires
        forall|k: int| 0 <= k < places.len() ==> 0 <= #[trigger] places[k] < blocks.len(),
    ensures
        max_height(blocks.push(block), places) == max_height(blocks, places),
    decreases places.len(),
{
    if places.len() > 0 {
        let d = places.drop_last();
        assert forall|k: int| 0 <= k < d.len() implies 0 <= #[trigger] d[k] < blocks.len() by {
            assert(d[k] == places[k]);
        }
        lemma_max_height_pushed(blocks, block, d);
        assert(0 <= places[places.len() - 1] < blocks.len());
    }
}

/// Pushing a block that fits keeps every stored block where it was, stores
/// the new block at the end, and keeps the arena and the order sound.
pub proof fn lemma_pushed(c: Chain, block: StoredBlock)
    requires
        c.wf_blocks(),
        c.fits(block),
    ensures
        c.pushed(block).wf_blocks(),
        c.pushed(block).index_of(block.hash) == c.blocks.len(),
        forall|h: hash::Hash| h != block.hash ==> c.pushed(block).index_of(h) == c.index_of(h),
        forall|h: hash::Hash| c.has_block(h) ==> #[trigger] c.pushed(block).has_block(h),
        forall|tips: Seq<hash::Hash>|
            c.all_stored(tips) ==> #[trigger] c.pushed(block).height_at_tips(tips)
                == c.height_at_tips(tips),
        c.order_stored() ==> c.pushed(block).order_stored(),
        c.tips_stored() ==> c.pushed(block).tips_stored(),
{
    let c1 = c.pushed(block);
    let n = c.blocks.len() as int;
    assert(c1.hashes() =~= c.hashes().push(block.hash));
    assert forall|h: hash::Hash| true implies (if h == block.hash {
        c1.index_of(h) == n
    } else {
        c1.index_of(h) == c.index_of(h)
    }) by {
        lemma_position_push(c.hashes(), block.hash, h);
    }
    assert forall|h: hash::Hash| c.has_block(h) implies #[trigger] c1.has_block(h) by {
        lemma_position(c.hashes(), block.hash);
    }
    assert forall|tips: Seq<hash::Hash>| c.all_stored(tips) implies #[trigger] c1.height_at_tips(
        tips,
    ) == c.height_at_tips(tips) by {
        lemma_places_pushed(c, block, tips);
    }
    assert(c1.hashes().no_duplicates()) by {
        lemma_position(c.hashes(), block.hash);
        assert forall|i: int, j: int|
            0 <= i < c1.hashes().len() && 0 <= j < c1.hashes().len() && i != j implies c1.hashes()[i]
            != c1.hashes()[j] by {
            if i < n && j < n {
                assert(c.hashes()[i] != c.hashes()[j]);
            } else if i < n {
                assert(c.hashes()[i] != block.hash);
            } else if j < n {
                assert(c.hashes()[j] != block.hash);
            }
        }
    }
    assert forall|i: int| 0 <= i < c1.blocks.len() implies (#[trigger] c1.tips_at(i)).len()
        <= TIPS_LIMIT by {
        if i < n {
            assert(c1.tips_at(i) == c.tips_at(i));
        }
    }
    assert forall|i: int, k: int|
        0 <= i < c1.blocks.len() && 0 <= k < c1.tips_at(i).len() implies 0 <= (#[trigger] c1.parent(
            i,
            k,
        )) < i && c1.blocks[c1.parent(i, k)].block.timestamp <= c1.blocks[i].block.timestamp by {
        if i < n {
            assert(c1.tips_at(i) == c.tips_at(i));
            assert(0 <= c.parent(i, k) < i);
            lemma_position(c.hashes(), c.tips_at(i)[k]);
            assert(c.tips_at(i)[k] != block.hash);
        } else {
            let tip = block.block.tips@[k];
            assert(c.has_block(tip));
            lemma_position(c.hashes(), tip);
        }
    }
    assert forall|i: int| 0 <= i < c1.blocks.len() implies (#[trigger] c1.blocks[i]).block.height as int
        == c1.height_at_tips(c1.tips_at(i)) by {
        if i < n {
            assert(c1.tips_at(i) == c.tips_at(i));
            assert(c.blocks[i].block.height as int == c.height_at_tips(c.tips_at(i)));
            assert(c.all_stored(c.tips_at(i))) by {
                assert forall|k: int| 0 <= k < c.tips_at(i).len() implies c.has_block(
                    #[trigger] c.tips_at(i)[k],
                ) by {
                    assert(0 <= c.parent(i, k));
                }
            }
        }
    }
    if c.order_stored() {
        assert forall|t: int| 0 <= t < c1.order.len() implies c1.has_block(
            (#[trigger] c1.order[t]).hash,
        ) by {
            assert(c.has_block(c.order[t].hash));
        }
    }
    if c.tips_stored() {
        assert forall|k: int| 0 <= k < c1.tips.len() implies c1.has_block(#[trigger] c1.tips[k]) by {
            assert(c.has_block(c.tips[k]));
        }
    }
}

/// The places and the height at tips that are all stored are the same once a
/// block is pushed.
pub proof fn lemma_places_pushed(c: Chain, block: StoredBlock, tips: Seq<hash::Hash>)
    requires
        c.all_stored(tips),
        !c.has_block(block.hash),
    ensures
        c.pushed(block).places(tips) == c.places(tips),
        c.pushed(block).height_at_tips(tips) == c.height_at_tips(tips),
        c.pushed(block).all_stored(tips),
{
    let c1 = c.pushed(block);
    assert(c1.hashes() =~= c.hashes().push(block.hash));
    assert forall|k: int| 0 <= k < tips.len() implies c1.index_of(tips[k]) == c.index_of(tips[k])
        && 0 <= c.index_of(tips[k]) < c.blocks.len() by {
        assert(c.has_block(tips[k]));
        lemma_position(c.hashes(), tips[k]);
        lemma_position_push(c.hashes(), block.hash, tips[k]);
    }
    assert(c1.places(tips) =~= c.places(tips));
    assert forall|k: int| 0 <= k < c.places(tips).len() implies 0 <= #[trigger] c.places(tips)[k]
        < c.blocks.len() by {
        assert(c.places(tips)[k] == c.index_of(tips[k]));
    }
    lemma_max_height_pushed(c.blocks, block, c.places(tips));
    assert forall|k: int| 0 <= k < tips.len() implies c1.has_block(#[trigger] tips[k]) by {
        assert(c1.index_of(tips[k]) == c.index_of(tips[k]));
    }
}


/// Every tip that [`tips_without`] keeps is one of the tips.
pub proof fn lemma_tips_without(tips: Seq<hash::Hash>, parents: Seq<hash::Hash>, n: int)
    requires
        0 <= n <= tips.len(),
    ensures
        forall|x: int|
            0 <= x < tips_without(tips, parents, n).len() ==> tips.contains(
                #[trigger] tips_without(tips, parents, n)[x],
            ),
    decreases n,
{
    if n > 0 {
        lemma_tips_without(tips, parents, n - 1);
        let before = tips_without(tips, parents, n - 1);
        let now = tips_without(tips, parents, n);
        assert forall|x: int| 0 <= x < now.len() implies tips.contains(#[trigger] now[x]) by {
            if x < before.len() {
                assert(now[x] == before[x]);
            } else {
                assert(tips[n - 1] == now[x]);
            }
        }
    }
}

/// Where no tip is refused, no tip is later than the block.
pub proof fn lemma_tips_in_time(c: Chain, tips: Seq<hash::Hash>, k: int, timestamp: u128, height: u64)
    requires
        0 <= k <= tips.len(),
        c.tips_refused(tips, k, timestamp, height) is None,
    ensures
        forall|x: int| k <= x < tips.len() ==> c.block(#[trigger] tips[x]).block.timestamp <= timestamp,
    decreases tips.len() - k,
{
    if k < tips.len() {
        lemma_tips_in_time(c, tips, k + 1, timestamp, height);
    }
}

/// A block that is admitted fits the arena.
pub proof fn lemma_admitted(c: Chain, node: Blockchain, block: CompleteBlock, now: u128)
    requires
        c.admission(node, block, now) is Ok,
    ensures
        forall|difficulty: u64, cumulative: u64|
            c.fits(#[trigger] record(block, difficulty, cumulative)),
{
    reveal(Chain::admission);
    let tips = block.block.tips@;
    lemma_tips_in_time(c, tips, 0, block.block.timestamp, node.height);
}

/// The blocks of the order of a stored block are stored.
pub proof fn lemma_full_order_stored(c: Chain, i: int, base: hash::Hash, base_topo: int)
    requires
        c.wf_blocks(),
        0 <= i < c.blocks.len(),
    ensures
        c.all_stored(c.full_order_at(i, base, base_topo)),
    decreases i, 1int, 0int,
{
    crate::sync::lemma_index_of(c, i);
    if c.tips_at(i).len() == 0 || c.blocks[i].hash == base {
        assert(c.full_order_at(i, base, base_topo) == seq![c.blocks[i].hash]);
    } else {
        let scoped = c.scoped_parents(i, base_topo, c.tips_at(i).len() as int);
        let parents = crate::blockdag::sort_desc(scoped);
        crate::order::lemma_scoped_parents(c, i, base_topo, c.tips_at(i).len() as int);
        crate::order::lemma_sorted_parents(c, i, scoped);
        assert(c.all_stored(Seq::<hash::Hash>::empty()));
        lemma_full_order_merge_stored(c, i, parents, 0, Seq::empty(), base, base_topo);
        let merged = c.full_order_merge(i, parents, 0, Seq::empty(), base, base_topo);
        assert(c.full_order_at(i, base, base_topo) == merged.push(c.blocks[i].hash));
        lemma_push_stored(c, merged, c.blocks[i].hash);
    }
}

/// Stored blocks followed by a stored block are stored blocks.
pub proof fn lemma_push_stored(c: Chain, s: Seq<hash::Hash>, h: hash::Hash)
    requires
        c.all_stored(s),
        c.has_block(h),
    ensures
        c.all_stored(s.push(h)),
{
    let t = s.push(h);
    assert forall|x: int| 0 <= x < t.len() implies c.has_block(#[trigger] t[x]) by {
        if x < s.len() {
            assert(t[x] == s[x]);
        }
    }
}

/// Merging the orders of parents keeps every block of the order stored.
pub proof fn lemma_full_order_merge_stored(
    c: Chain,
    i: int,
    parents: Seq<(hash::Hash, u64)>,
    k: int,
    acc: Seq<hash::Hash>,
    base: hash::Hash,
    base_topo: int,
)
    requires
        c.wf_blocks(),
        0 <= i < c.blocks.len(),
        0 <= k <= parents.len(),
        c.all_parents_of(i, parents),
        c.all_stored(acc),
    ensures
        c.all_stored(c.full_order_merge(i, parents, k, acc, base, base_topo)),
    decreases i, 0int, parents.len() - k,
{
    if k < parents.len() {
        let p = c.index_of(parents[k].0);
        assert(0 <= p < i);
        lemma_full_order_stored(c, p, base, base_topo);
        let sub = c.full_order_at(p, base, base_topo);
        lemma_append_new_stored(c, acc, sub, sub.len() as int);
        let next = crate::order::append_new(acc, sub, sub.len() as int);
        lemma_full_order_merge_stored(c, i, parents, k + 1, next, base, base_topo);
        assert(c.full_order_merge(i, parents, k, acc, base, base_topo) == c.full_order_merge(
            i,
            parents,
            k + 1,
            next,
            base,
            base_topo,
        ));
    } else {
        assert(c.full_order_merge(i, parents, k, acc, base, base_topo) == acc);
    }
}

/// Appending stored blocks to stored blocks gives stored blocks.
pub proof fn lemma_append_new_stored(c: Chain, acc: Seq<hash::Hash>, more: Seq<hash::Hash>, n: int)
    requires
        0 <= n <= more.len(),
        c.all_stored(acc),
        c.all_stored(more),
    ensures
        c.all_stored(crate::order::append_new(acc, more, n)),
    decreases n,
{
    if n > 0 {
        lemma_append_new_stored(c, acc, more, n - 1);
        let before = crate::order::append_new(acc, more, n - 1);
        assert(c.has_block(more[n - 1]));
        if !before.contains(more[n - 1]) {
            lemma_push_stored(c, before, more[n - 1]);
        }
    }
}

} // verus!
