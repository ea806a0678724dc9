//! Block templates for miners, and the admission of transactions to the pool.

use vstd::prelude::*;
use std::sync::Arc;
use crate::block::{header_size, Block, CompleteBlock};
use crate::blockchain::Blockchain;
use crate::blockdag::{calculate_height_at_tips, lemma_sort_desc, sort_desc, sort_tips};
use crate::config::{MAX_BLOCK_SIZE, STABLE_HEIGHT_LIMIT, TIPS_LIMIT};
use crate::reachability::distance_at;
use crate::difficulty::{check_difficulty, meets_difficulty};
use crate::error::BlockchainError;
use crate::events::ChainEvent;
use crate::globals::get_current_timestamp;
use crate::hash;
use crate::hash::PublicKey;
use crate::mempool::{tx_position, Mempool};
use crate::storage::{Chain, Storage};
use crate::transaction::Transaction;
use crate::tx_verify::{
    expect_next,
    find_expected,
    verify_transaction,
    ExpectedNonce,
    Spending,
};

verus! {

/// Thirty-two random bytes from the thread-local generator (`rand::thread_rng`
/// with `Rng::gen`). Nothing is claimed of the bytes.
#[verifier::external_body]
fn random_extra_nonce() -> (bytes: [u8; 32]) {
    rand::Rng::gen::<[u8; 32]>(&mut rand::thread_rng())
}

/// The transactions picked for a template so far.
pub struct Picked {
    /// The digests of the transactions picked, in order.
    pub hashes: Seq<hash::Hash>,
    /// The total size of the transactions picked.
    pub size: nat,
    /// The nonce expected next of each sender met.
    pub nonces: Seq<ExpectedNonce>,
    /// Whether a transaction did not fit any more.
    pub full: bool,
}

/// Number of the first `n` transactions of the pool that `owner` sent.
pub open spec fn pending_count(pool: Seq<Arc<Transaction>>, owner: PublicKey, n: int) -> nat
    decreases n,
{
    if n <= 0 {
        0
    } else {
        pending_count(pool, owner, n - 1) + if pool[n - 1].owner == owner {
            1nat
        } else {
            0nat
        }
    }
}

impl Chain {
    /// Whether a block on a chain of height `height` may name `tip` beside
    /// the heaviest tip `best`: it is that tip, or it has not drifted the
    /// stable limit or more under the chain and is heavy enough beside it.
    pub open spec fn tip_fits(self, best: hash::Hash, tip: hash::Hash, height: u64) -> bool {
        tip == best || (!(self.distance_from_mainchain(tip) <= height && height
            - self.distance_from_mainchain(tip) >= STABLE_HEIGHT_LIMIT) && self.tip_heavy_enough(
            best,
            tip,
        ))
    }

    /// Those of the first `n` of `sorted` that a block may name beside the
    /// first of them.
    pub open spec fn fit_tips(self, sorted: Seq<hash::Hash>, height: u64, n: int) -> Seq<hash::Hash>
        decreases n,
    {
        if n <= 0 {
            Seq::empty()
        } else {
            let before = self.fit_tips(sorted, height, n - 1);
            if self.tip_fits(sorted[0], sorted[n - 1], height) {
                before.push(sorted[n - 1])
            } else {
                before
            }
        }
    }

    /// The tips a template names on a chain of height `height`: of the tips
    /// by descending cumulative difficulty, those that a block may name
    /// beside the heaviest, at most as many as a block may have.
    pub open spec fn template_tips(self, height: u64) -> Seq<hash::Hash> {
        let sorted = if self.tips.len() == 1 {
            self.tips
        } else {
            self.sorted_tips(self.tips)
        };
        let fit = self.fit_tips(sorted, height, sorted.len() as int);
        if fit.len() > TIPS_LIMIT {
            fit.take(TIPS_LIMIT as int)
        } else {
            fit
        }
    }

    /// What is picked of the first `n` transactions for a template with
    /// `tips` tips: a transaction is picked where it still fits with the header
    /// and its nonce is the one expected of its sender; picking stops at the
    /// first transaction that does not fit.
    pub open spec fn picked(self, tips: nat, sorted: Seq<Arc<Transaction>>, n: int) -> Picked
        decreases n,
    {
        if n <= 0 {
            Picked { hashes: Seq::empty(), size: 0, nonces: Seq::empty(), full: false }
        } else {
            let before = self.picked(tips, sorted, n - 1);
            let tx = sorted[n - 1];
            if before.full {
                before
            } else if header_size(tips, before.hashes.len()) + before.size + tx.size
                > MAX_BLOCK_SIZE {
                Picked { full: true, ..before }
            } else if self.expected_nonce(before.nonces, tx.owner) != tx.nonce || tx.nonce
                == u64::MAX {
                before
            } else {
                Picked {
                    hashes: before.hashes.push(tx.hash),
                    size: before.size + tx.size as nat,
                    nonces: expect_next(before.nonces, tx.owner, (tx.nonce + 1) as u64),
                    full: false,
                }
            }
        }
    }

    /// Why a transaction is not admitted to the pool, if it is not: the pool
    /// holds it already, or it does not verify against the committed state
    /// with the nonce that follows those of the pending transactions of its owner.
    pub open spec fn pool_refusal(self, pool: Seq<Arc<Transaction>>, tx: Transaction) -> Option<
        BlockchainError,
    > {
        if tx_position(pool, tx.hash) >= 0 {
            Some(BlockchainError::TxAlreadyInMempool(tx.hash))
        } else if self.nonce_of(tx.owner) + pending_count(pool, tx.owner, pool.len() as int)
            > u64::MAX {
            Some(BlockchainError::Overflow)
        } else {
            match self.verify_in_batch(
                tx,
                Seq::empty(),
                seq![
                    ExpectedNonce {
                        key: tx.owner,
                        nonce: (self.nonce_of(tx.owner) + pending_count(
                            pool,
                            tx.owner,
                            pool.len() as int,
                        )) as u64,
                    },
                ],
            ) {
                Err(e) => Some(e),
                Ok(_) => None,
            }
        }
    }
}

/// The transactions of the pool with the first `n` of the digests, in order,
/// or the first digest that the pool does not hold.
pub open spec fn collected(pool: Seq<Arc<Transaction>>, hashes: Seq<hash::Hash>, n: int) -> Result<
    Seq<Arc<Transaction>>,
    BlockchainError,
>
    decreases n,
{
    if n <= 0 {
        Ok(Seq::empty())
    } else {
        match collected(pool, hashes, n - 1) {
            Err(e) => Err(e),
            Ok(before) => if tx_position(pool, hashes[n - 1]) < 0 {
                Err(BlockchainError::TxNotFound(hashes[n - 1]))
            } else {
                Ok(before.push(pool[tx_position(pool, hashes[n - 1])]))
            },
        }
    }
}

/// Once one digest is not found, no longer run of digests is collected, for
/// the same reason.
pub proof fn lemma_collected_fail(pool: Seq<Arc<Transaction>>, hashes: Seq<hash::Hash>, n: int, m: int)
    requires
        0 < n <= m,
        collected(pool, hashes, n) is Err,
    ensures
        collected(pool, hashes, m) == collected(pool, hashes, n),
    decreases m - n,
{
    if n < m {
        lemma_collected_fail(pool, hashes, n, m - 1);
    }
}

/// What a miner does next with a template.
#[derive(Clone, Copy, Debug, PartialEq, Eq, Structural)]
pub enum MiningStep {
    /// The digest meets the difficulty: the block is complete.
    Found,
    /// The chain has moved on: a new template is due.
    NewTemplate,
    /// Try the next nonce.
    NextNonce,
}

impl Blockchain {
    /// A template for a block on the current tips, mined by `address`, with
    /// random extra nonce and the present time of the system clock, and the
    /// transactions of the pool that fit. See [`Self::build_block_template`].
    pub fn get_block_template_for_storage(&self, storage: &Storage, mempool: &Mempool, address: PublicKey) -> (r:
        Result<Block, BlockchainError>)
        requires
            storage@.sound(),
        ensures
            match r {
                Ok(block) => storage@.tips.len() > 0 && block.tips@ == storage@.template_tips(self.height)
                    && block.height as int == storage@.height_at_tips(block.tips@) && block.miner
                    == address && block.nonce == 0 && block.txs_hashes@ == storage@.picked(
                    block.tips@.len(),
                    crate::mempool::sort_txs(mempool@),
                    crate::mempool::sort_txs(mempool@).len() as int,
                ).hashes,
                Err(e) => storage@.tips.len() == 0 && e == BlockchainError::ExpectedTips,
            },
    {
        let extra_nonce = random_extra_nonce();
        let now = get_current_timestamp();
        self.build_block_template(storage, mempool, address, extra_nonce, now)
    }

    /// A template for a block on the current tips: the three heaviest of
    /// the tips that a block may name beside the heaviest, the height at
    /// them, and the transactions of the pool, largest fee first, that fit
    /// the block and continue the nonces of their senders.
    pub fn build_block_template(
        &self,
        storage: &Storage,
        mempool: &Mempool,
        address: PublicKey,
        extra_nonce: [u8; 32],
        now: u128,
    ) -> (r: Result<Block, BlockchainError>)
        requires
            storage@.sound(),
        ensures
            match r {
                Ok(block) => storage@.tips.len() > 0 && block.tips@ == storage@.template_tips(self.height)
                    && block.height as int == storage@.height_at_tips(block.tips@)
                    && block.timestamp == now && block.extra_nonce == extra_nonce && block.miner
                    == address && block.nonce == 0 && block.txs_hashes@ == storage@.picked(
                    block.tips@.len(),
                    crate::mempool::sort_txs(mempool@),
                    crate::mempool::sort_txs(mempool@).len() as int,
                ).hashes,
                Err(e) => storage@.tips.len() == 0 && e == BlockchainError::ExpectedTips,
            },
    {
        let ghost c = storage@;
        let mut sorted_tips = match sort_tips(storage, &storage.tips) {
            Ok(sorted) => sorted,
            Err(e) => {
                proof {
                    if c.tips.len() > 1 {
                        let k = choose|k: int|
                            0 <= k < c.tips.len() && !c.has_block(#[trigger] c.tips[k])
                                && c.all_stored(c.tips.take(k)) && e
                                == BlockchainError::BlockNotFound(c.tips[k]);
                        assert(false);
                    }
                }
                return Err(e);
            },
        };
        proof {
            if c.tips.len() > 1 {
                lemma_sort_desc(c.scored(c.tips));
                let sorted = sort_desc(c.scored(c.tips));
                assert forall|k: int| 0 <= k < sorted_tips@.len() implies c.has_block(
                    #[trigger] sorted_tips@[k],
                ) by {
                    assert(sorted.contains(sorted[k]));
                    assert(c.scored(c.tips).contains(sorted[k]));
                    let y = choose|y: int|
                        0 <= y < c.scored(c.tips).len() && c.scored(c.tips)[y] == sorted[k];
                    assert(c.has_block(c.tips[y]));
                }
            } else {
                assert(c.has_block(c.tips[0]));
            }
        }
        let ghost by_weight = sorted_tips@;
        let all = sorted_tips.len();
        let best = sorted_tips[0];
        let mut fit: Vec<hash::Hash> = Vec::new();
        let mut t: usize = 0;
        while t < all
            invariant
                t <= all,
                all == sorted_tips.len(),
                all > 0,
                c == storage@,
                c.wf_blocks(),
                by_weight == sorted_tips@,
                best == by_weight[0],
                c.all_stored(by_weight),
                c.all_stored(fit@),
                fit@ == c.fit_tips(by_weight, self.height, t as int),
                t > 0 ==> fit@.len() > 0,
            decreases all - t,
        {
            let tip = sorted_tips[t];
            assert(c.has_block(by_weight[t as int]));
            assert(c.has_block(by_weight[0]));
            let mut fits = tip == best;
            if !fits {
                match storage.find_block(&tip) {
                    None => {
                        assert(false);
                    },
                    Some(place) => {
                        let distance = distance_at(storage, place);
                        let drifted = distance <= self.height && self.height - distance
                            >= STABLE_HEIGHT_LIMIT;
                        if !drifted {
                            match self.validate_tips(storage, &best, &tip) {
                                Ok(heavy) => {
                                    fits = heavy;
                                },
                                Err(_) => {
                                    assert(false);
                                },
                            }
                        }
                    },
                }
            }
            if fits {
                let ghost before = fit@;
                fit.push(tip);
                assert forall|k: int| 0 <= k < fit@.len() implies c.has_block(#[trigger] fit@[k]) by {
                    if k < before.len() {
                        assert(c.has_block(before[k]));
                    }
                }
            }
            t = t + 1;
        }
        let mut sorted_tips = fit;
        if sorted_tips.len() > TIPS_LIMIT {
            sorted_tips.truncate(TIPS_LIMIT);
        }
        proof {
            assert(sorted_tips@ =~= c.template_tips(self.height));
            assert forall|k: int| 0 <= k < sorted_tips@.len() implies c.has_block(
                #[trigger] sorted_tips@[k],
            ) by {
                assert(c.has_block(c.fit_tips(by_weight, self.height, all as int)[k]));
            }
        }
        let height = match calculate_height_at_tips(storage, &sorted_tips) {
            Ok(height) => height,
            Err(e) => {
                proof {
                    let k = choose|k: int|
                        0 <= k < sorted_tips@.len() && !c.has_block(#[trigger] sorted_tips@[k])
                            && c.all_stored(sorted_tips@.take(k)) && e
                            == BlockchainError::BlockNotFound(sorted_tips@[k]);
                    assert(false);
                }
                return Err(e);
            },
        };
        let tips_count = sorted_tips.len();
        let txs = mempool.get_sorted_txs();
        let n = txs.len();
        let mut hashes: Vec<hash::Hash> = Vec::new();
        let mut nonces: Vec<ExpectedNonce> = Vec::new();
        let mut size: usize = 0;
        let mut full = false;
        let mut i: usize = 0;
        while i < n
            invariant
                i <= n,
                n == txs.len(),
                c == storage@,
                tips_count <= TIPS_LIMIT,
                size <= MAX_BLOCK_SIZE,
                c.picked(tips_count as nat, txs@, i as int) == (Picked {
                    hashes: hashes@,
                    size: size as nat,
                    nonces: nonces@,
                    full,
                }),
            decreases n - i,
        {
            let tx = &txs[i];
            if !full {
                let total: u128 = crate::block::HEADER_BASE_SIZE as u128 + (
                crate::block::HASH_SIZE as u128) * (tips_count as u128 + hashes.len() as u128)
                    + size as u128 + tx.size as u128;
                if total > MAX_BLOCK_SIZE as u128 {
                    full = true;
                } else {
                    let place = find_expected(&nonces, &tx.owner);
                    let expected = match place {
                        Some(p) => nonces[p].nonce,
                        None => storage.get_nonce(&tx.owner),
                    };
                    if expected == tx.nonce && tx.nonce != u64::MAX {
                        hashes.push(tx.hash);
                        size = size + tx.size;
                        let next = ExpectedNonce { key: tx.owner, nonce: tx.nonce + 1 };
                        match place {
                            Some(p) => {
                                nonces.set(p, next);
                            },
                            None => {
                                nonces.push(next);
                            },
                        }
                    }
                }
            }
            i = i + 1;
        }
        Ok(Block::new(height, now, sorted_tips, extra_nonce, address, hashes))
    }

    /// The block of a template that was mined, with the transactions of the
    /// pool that it names.
    pub fn build_complete_block_from_block(&self, mempool: &Mempool, block: Block, h: hash::Hash) -> (r:
        Result<CompleteBlock, BlockchainError>)
        ensures
            match r {
                Ok(complete) => complete.hash == h && complete.block == block && collected(
                    mempool@,
                    block.txs_hashes@,
                    block.txs_hashes@.len() as int,
                ) == Ok::<Seq<Arc<Transaction>>, BlockchainError>(complete.transactions@),
                Err(e) => collected(mempool@, block.txs_hashes@, block.txs_hashes@.len() as int)
                    == Err::<Seq<Arc<Transaction>>, BlockchainError>(e),
            },
    {
        let mut transactions: Vec<Arc<Transaction>> = Vec::new();
        let n = block.txs_hashes.len();
        let mut i: usize = 0;
        while i < n
            invariant
                i <= n,
                n == block.txs_hashes@.len(),
                collected(mempool@, block.txs_hashes@, i as int) == Ok::<
                    Seq<Arc<Transaction>>,
                    BlockchainError,
                >(transactions@),
            decreases n - i,
        {
            match mempool.get_tx(&block.txs_hashes[i]) {
                Ok(tx) => {
                    transactions.push(tx);
                },
                Err(e) => {
                    proof {
                        lemma_collected_fail(mempool@, block.txs_hashes@, i + 1, n as int);
                    }
                    return Err(e);
                },
            }
            i = i + 1;
        }
        Ok(CompleteBlock::new(h, block, transactions))
    }

    /// What a miner does next with a template of digest `h` made at height
    /// `template_height`: it is done where the digest meets the difficulty or
    /// the simulator is on, takes a new template where the chain has moved
    /// on, and else tries the next nonce.
    pub fn mining_step(&self, h: &hash::Hash, difficulty: u64, template_height: u64) -> (step:
        MiningStep)
        ensures
            step == if self.simulator || meets_difficulty(*h, difficulty) {
                MiningStep::Found
            } else if self.height != template_height {
                MiningStep::NewTemplate
            } else {
                MiningStep::NextNonce
            },
    {
        if self.simulator || check_difficulty(h, difficulty) {
            MiningStep::Found
        } else if self.height != template_height {
            MiningStep::NewTemplate
        } else {
            MiningStep::NextNonce
        }
    }

    /// Admits a transaction to the pool: it must be new to the pool and
    /// verify against the committed state, with the nonce that follows those
    /// of the pending transactions of its owner.
    pub fn add_tx_for_mempool(&self, storage: &Storage, mempool: &mut Mempool, tx: Arc<Transaction>) -> (r:
        Result<ChainEvent, BlockchainError>)
        ensures
            match r {
                Ok(event) => storage@.pool_refusal(old(mempool)@, *tx) is None && final(mempool)@
                    == old(mempool)@.push(tx) && event == (ChainEvent::TransactionAddedInMempool {
                    tx_hash: tx.hash,
                }),
                Err(e) => storage@.pool_refusal(old(mempool)@, *tx) == Some(e) && final(mempool)@
                    == old(mempool)@,
            },
    {
        let h = tx.hash;
        if mempool.contains_tx(&h) {
            return Err(BlockchainError::TxAlreadyInMempool(h));
        }
        let n = mempool.txs.len();
        let mut pending: usize = 0;
        let mut i: usize = 0;
        while i < n
            invariant
                i <= n,
                n == mempool.txs.len(),
                mempool@ == old(mempool)@,
                pending <= i,
                pending as nat == pending_count(mempool@, tx.owner, i as int),
            decreases n - i,
        {
            if mempool.txs[i].owner == tx.owner {
                pending = pending + 1;
            }
            i = i + 1;
        }
        let committed = storage.get_nonce(&tx.owner);
        let expected: u128 = committed as u128 + pending as u128;
        if expected > u64::MAX as u128 {
            return Err(BlockchainError::Overflow);
        }
        let mut balances: Vec<Spending> = Vec::new();
        let mut nonces: Vec<ExpectedNonce> = Vec::new();
        nonces.push(ExpectedNonce { key: tx.owner, nonce: expected as u64 });
        proof {
            assert(nonces@ =~= seq![ExpectedNonce { key: tx.owner, nonce: expected as u64 }]);
        }
        match verify_transaction(storage, &tx, &mut balances, &mut nonces) {
            Ok(()) => {},
            Err(e) => {
                return Err(e);
            },
        }
        match mempool.add_tx(h, tx) {
            Ok(()) => Ok(ChainEvent::TransactionAddedInMempool { tx_hash: h }),
            Err(e) => {
                assert(false);
                Err(e)
            },
        }
    }
}

} // verus!
