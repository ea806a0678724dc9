//! The checks a block must pass before it is stored.

use vstd::prelude::*;
use std::sync::Arc;
use crate::block::{total_tx_size, CompleteBlock};
use crate::blockchain::Blockchain;
use crate::blockdag::{calculate_height_at_tips, find_best_tip_by_cumulative_difficulty};
use crate::config::{MAX_BLOCK_SIZE, STABLE_HEIGHT_LIMIT, TIMESTAMP_IN_FUTURE_LIMIT, TIPS_LIMIT};
use crate::error::BlockchainError;
use crate::hash;
use crate::reachability::distance_at;
use crate::storage::{Chain, Storage};
use crate::transaction::Transaction;
use crate::tx_verify::{capped, verify_transaction, ExpectedNonce, Spending};

verus! {

/// A size beyond every machine word, at which the size of a block is no
/// longer counted.
pub const SIZE_CAP: u128 = 1267650600228229401496703205376;

/// Whether one of the first `k` transactions has the digest `h`.
pub open spec fn seen_before(txs: Seq<Arc<Transaction>>, k: int, h: hash::Hash) -> bool {
    exists|j: int| 0 <= j < k && (#[trigger] txs[j]).hash == h
}

impl Chain {
    /// Why the tips from `k` on are refused for a block at `timestamp` on a
    /// chain of height `height`: the first tip that is later than the block,
    /// or that has drifted the stable limit or more under the chain.
    pub open spec fn tips_refused(
        self,
        tips: Seq<hash::Hash>,
        k: int,
        timestamp: u128,
        height: u64,
    ) -> Option<BlockchainError>
        decreases tips.len() - k,
    {
        if k < 0 || k >= tips.len() {
            None
        } else if self.block(tips[k]).block.timestamp > timestamp {
            Some(BlockchainError::TimestampIsLessThanParent(timestamp))
        } else if self.distance_from_mainchain(tips[k]) <= height && height
            - self.distance_from_mainchain(tips[k]) >= STABLE_HEIGHT_LIMIT {
            Some(BlockchainError::BlockDeviation)
        } else {
            self.tips_refused(tips, k + 1, timestamp, height)
        }
    }

    /// Whether one of the tips from `k` on, other than `best`, is too light beside it.
    pub open spec fn light_tip(self, tips: Seq<hash::Hash>, best: hash::Hash, k: int) -> bool
        decreases tips.len() - k,
    {
        0 <= k < tips.len() && ((tips[k] != best && !self.tip_heavy_enough(best, tips[k]))
            || self.light_tip(tips, best, k + 1))
    }

    /// What verifying the first `k` transactions of a block leaves, or why
    /// one is refused: it is not the transaction the header declares at its
    /// place, it occurs earlier in the block, or it does not verify after
    /// those before it.
    pub open spec fn txs_verified(self, block: CompleteBlock, k: int) -> Result<
        (Seq<Spending>, Seq<ExpectedNonce>),
        BlockchainError,
    >
        decreases k,
    {
        if k <= 0 {
            Ok((Seq::empty(), Seq::empty()))
        } else {
            match self.txs_verified(block, k - 1) {
                Err(e) => Err(e),
                Ok((spent, nonces)) => {
                    let tx = block.transactions@[k - 1];
                    if tx.hash != block.block.txs_hashes@[k - 1] {
                        Err(BlockchainError::InvalidTxInBlock(tx.hash))
                    } else if seen_before(block.transactions@, k - 1, tx.hash) {
                        Err(BlockchainError::TxAlreadyInBlock(tx.hash))
                    } else {
                        self.verify_in_batch(*tx, spent, nonces)
                    }
                },
            }
        }
    }

    /// The size of a block: its header and its transactions.
    pub open spec fn block_size(block: CompleteBlock) -> nat {
        block.block.spec_size() + total_tx_size(block.transactions@)
    }

    /// The difficulty of a block that is admitted, or why it is refused.
    /// The checks come in this order: the block is new; its timestamp is not
    /// beyond the clock by more than the limit; it has no more tips than the
    /// limit, and at least one unless the store is empty; its tips are
    /// stored; its height is the height at its tips, and not under the stable
    /// height; no tip reaches another; no tip is later than the block or has
    /// drifted; no tip is too light beside the best; the digest meets the
    /// difficulty at the tips; the transactions are those the header
    /// declares, each once, and verify in order; the block is not too large.
    #[verifier::opaque]
    pub open spec fn admission(self, node: Blockchain, block: CompleteBlock, now: u128) -> Result<
        u64,
        BlockchainError,
    > {
        let tips = block.block.tips@;
        if self.has_block(block.hash) {
            Err(BlockchainError::AlreadyInChain)
        } else if block.block.timestamp > now + TIMESTAMP_IN_FUTURE_LIMIT {
            Err(BlockchainError::TimestampIsInFuture(now, block.block.timestamp))
        } else if tips.len() > TIPS_LIMIT {
            Err(BlockchainError::InvalidTips)
        } else if tips.len() == 0 && self.blocks.len() > 0 {
            Err(BlockchainError::ExpectedTips)
        } else if !self.all_stored(tips) {
            Err(BlockchainError::InvalidTips)
        } else if self.height_at_tips(tips) != block.block.height {
            Err(
                BlockchainError::InvalidBlockHeight(
                    self.height_at_tips(tips) as u64,
                    block.block.height,
                ),
            )
        } else if tips.len() > 0 && self.height_at_tips(tips) < node.stable_height {
            Err(BlockchainError::InvalidBlockHeightStableHeight)
        } else if !self.non_reachable(tips) {
            Err(BlockchainError::InvalidReachability)
        } else if self.tips_refused(tips, 0, block.block.timestamp, node.height) is Some {
            Err(self.tips_refused(tips, 0, block.block.timestamp, node.height).unwrap())
        } else if tips.len() > 1 && self.light_tip(
            tips,
            self.best_tip_by_cumulative_difficulty(tips),
            0,
        ) {
            Err(BlockchainError::InvalidTips)
        } else {
            match self.proof_of_work(block.hash, tips, node.simulator) {
                Err(e) => Err(e),
                Ok(difficulty) => if block.block.txs_hashes@.len() != block.transactions@.len() {
                    Err(
                        BlockchainError::InvalidBlockTxs(
                            block.block.txs_hashes@.len() as usize,
                            block.transactions@.len() as usize,
                        ),
                    )
                } else {
                    match self.txs_verified(block, block.transactions@.len() as int) {
                        Err(e) => Err(e),
                        Ok(_) => if Self::block_size(block) > MAX_BLOCK_SIZE {
                            Err(
                                BlockchainError::InvalidBlockSize(
                                    MAX_BLOCK_SIZE,
                                    capped(Self::block_size(block)),
                                ),
                            )
                        } else {
                            Ok(difficulty)
                        },
                    }
                },
            }
        }
    }
}

/// Once one transaction of a block is refused, no longer run of its
/// transactions verifies, for the same reason.
pub proof fn lemma_txs_verified_fail(c: Chain, block: CompleteBlock, n: int, m: int)
    requires
        0 < n <= m,
        c.txs_verified(block, n) is Err,
    ensures
        c.txs_verified(block, m) == c.txs_verified(block, n),
    decreases m - n,
{
    if n < m {
        lemma_txs_verified_fail(c, block, n, m - 1);
    }
}

impl Blockchain {
    /// Checks a block for admission at the time `now` and gives the
    /// difficulty it was checked against.
    #[verifier::loop_isolation(false)]
    pub fn check_block(&self, storage: &Storage, block: &CompleteBlock, now: u128) -> (r: Result<
        u64,
        BlockchainError,
    >)
        requires
            storage@.wf_blocks(),
        ensures
            r == storage@.admission(*self, *block, now),
    {
        reveal(Chain::admission);
        let ghost c = storage@;
        let tips = &block.block.tips;
        let timestamp = block.block.timestamp;
        if storage.has_block(&block.hash) {
            return Err(BlockchainError::AlreadyInChain);
        }
        if timestamp > TIMESTAMP_IN_FUTURE_LIMIT && timestamp - TIMESTAMP_IN_FUTURE_LIMIT > now {
            return Err(BlockchainError::TimestampIsInFuture(now, timestamp));
        }
        let tips_count = tips.len();
        if tips_count > TIPS_LIMIT {
            return Err(BlockchainError::InvalidTips);
        }
        let current_height = self.height;
        if tips_count == 0 && storage.has_blocks() {
            return Err(BlockchainError::ExpectedTips);
        }
        let block_height_by_tips = match calculate_height_at_tips(storage, tips) {
            Ok(height) => height,
            Err(_) => {
                return Err(BlockchainError::InvalidTips);
            },
        };
        if block_height_by_tips != block.block.height {
            return Err(
                BlockchainError::InvalidBlockHeight(block_height_by_tips, block.block.height),
            );
        }
        if tips_count > 0 && block_height_by_tips < self.stable_height {
            return Err(BlockchainError::InvalidBlockHeightStableHeight);
        }
        match self.verify_non_reachability(storage, &block.block) {
            Ok(true) => {},
            Ok(false) => {
                return Err(BlockchainError::InvalidReachability);
            },
            Err(_) => {
                assert(false);
                return Err(BlockchainError::InvalidTips);
            },
        }
        let mut k: usize = 0;
        while k < tips_count
            invariant
                k <= tips_count,
                c.tips_refused(tips@, 0, timestamp, current_height) == c.tips_refused(
                    tips@,
                    k as int,
                    timestamp,
                    current_height,
                ),
            decreases tips_count - k,
        {
            assert(c.has_block(tips@[k as int]));
            match storage.find_block(&tips[k]) {
                None => {
                    assert(false);
                },
                Some(place) => {
                    if storage.blocks[place].block.timestamp > timestamp {
                        return Err(BlockchainError::TimestampIsLessThanParent(timestamp));
                    }
                    let distance = distance_at(storage, place);
                    if distance <= current_height && current_height - distance
                        >= STABLE_HEIGHT_LIMIT {
                        return Err(BlockchainError::BlockDeviation);
                    }
                },
            }
            k = k + 1;
        }
        if tips_count > 1 {
            let best_tip = match find_best_tip_by_cumulative_difficulty(storage, tips) {
                Ok(best) => best,
                Err(_) => {
                    assert(false);
                    return Err(BlockchainError::InvalidTips);
                },
            };
            let mut j: usize = 0;
            while j < tips_count
                invariant
                    j <= tips_count,
                    c.light_tip(tips@, best_tip, 0) == c.light_tip(tips@, best_tip, j as int),
                decreases tips_count - j,
            {
                if tips[j] != best_tip {
                    assert(c.has_block(tips@[j as int]));
                    match self.validate_tips(storage, &best_tip, &tips[j]) {
                        Ok(true) => {},
                        Ok(false) => {
                            return Err(BlockchainError::InvalidTips);
                        },
                        Err(_) => {
                            proof {
                                let x = choose|x: int| 0 <= x < tips@.len() && tips@[x] == best_tip;
                                assert(c.has_block(tips@[x]));
                            }
                            assert(false);
                        },
                    }
                }
                j = j + 1;
            }
        }
        let difficulty = self.verify_proof_of_work(storage, &block.hash, tips)?;
        let hashes_len = block.block.txs_hashes.len();
        let txs_len = block.transactions.len();
        if hashes_len != txs_len {
            return Err(BlockchainError::InvalidBlockTxs(hashes_len, txs_len));
        }
        let mut spent: Vec<Spending> = Vec::new();
        let mut nonces: Vec<ExpectedNonce> = Vec::new();
        let mut total: u128 = 0;
        let mut i: usize = 0;
        while i < txs_len
            invariant
                i <= txs_len,
                c.txs_verified(*block, i as int) == Ok::<
                    (Seq<Spending>, Seq<ExpectedNonce>),
                    BlockchainError,
                >((spent@, nonces@)),
                total as nat == total_tx_size(block.transactions@.take(i as int)) || (total
                    == SIZE_CAP && total_tx_size(
                    block.transactions@.take(i as int),
                ) >= SIZE_CAP),
                total <= SIZE_CAP,
            decreases txs_len - i,
        {
            let tx = &block.transactions[i];
            if tx.hash != block.block.txs_hashes[i] {
                proof {
                    lemma_txs_verified_fail(c, *block, i + 1, txs_len as int);
                }
                return Err(BlockchainError::InvalidTxInBlock(tx.hash));
            }
            let mut x: usize = 0;
            while x < i
                invariant
                    x <= i,
                    !seen_before(block.transactions@, x as int, tx.hash),
                decreases i - x,
            {
                if block.transactions[x].hash == tx.hash {
                    proof {
                        assert(seen_before(block.transactions@, i as int, tx.hash));
                        lemma_txs_verified_fail(c, *block, i + 1, txs_len as int);
                    }
                    return Err(BlockchainError::TxAlreadyInBlock(tx.hash));
                }
                x = x + 1;
            }
            match verify_transaction(storage, tx, &mut spent, &mut nonces) {
                Ok(()) => {},
                Err(e) => {
                    proof {
                        lemma_txs_verified_fail(c, *block, i + 1, txs_len as int);
                    }
                    return Err(e);
                },
            }
            proof {
                assert(block.transactions@.take(i + 1).drop_last() =~= block.transactions@.take(
                    i as int,
                ));
            }
            total = total + tx.size as u128;
            if total > SIZE_CAP {
                total = SIZE_CAP;
            }
            i = i + 1;
        }
        proof {
            assert(block.transactions@.take(txs_len as int) =~= block.transactions@);
        }
        let count: u128 = tips_count as u128 + hashes_len as u128;
        let size: u128 = crate::block::HEADER_BASE_SIZE as u128 + (crate::block::HASH_SIZE as u128)
            * count + total;
        if size > MAX_BLOCK_SIZE as u128 {
            let reported: usize = if size > usize::MAX as u128 {
                usize::MAX
            } else {
                size as usize
            };
            return Err(BlockchainError::InvalidBlockSize(MAX_BLOCK_SIZE, reported));
        }
        Ok(difficulty)
    }
}

} // verus!
