//! Blocks received while a chain is fetched from a peer, checked as they come.

use vstd::prelude::*;
use std::sync::Arc;
use crate::block::CompleteBlock;
use crate::difficulty::{check_difficulty, meets_difficulty};
use crate::error::BlockchainError;
use crate::hash;
use crate::ledger::{last_index, lemma_last_index_is};

verus! {

/// A block received from a peer, with the difficulty the peer gives for it.
pub struct SyncedBlock {
    pub hash: hash::Hash,
    pub block: Arc<CompleteBlock>,
    pub difficulty: u64,
}

/// The blocks received so far, each digest once.
pub struct ChainSync {
    pub blocks: Vec<SyncedBlock>,
}

impl View for ChainSync {
    type V = Seq<SyncedBlock>;

    open spec fn view(&self) -> Seq<SyncedBlock> {
        self.blocks@
    }
}

/// The entries with digest `h`.
pub open spec fn synced_wanted(h: hash::Hash) -> spec_fn(SyncedBlock) -> bool {
    |e: SyncedBlock| e.hash == h
}

/// The place in `blocks` of the block with digest `h`, or -1.
pub open spec fn synced_at(blocks: Seq<SyncedBlock>, h: hash::Hash) -> int {
    last_index(blocks, synced_wanted(h))
}

/// `blocks` with `entry` in the place of the block of the same digest, or
/// at the end where there is none.
pub open spec fn with_synced(blocks: Seq<SyncedBlock>, entry: SyncedBlock) -> Seq<SyncedBlock> {
    let i = synced_at(blocks, entry.hash);
    if i >= 0 {
        blocks.update(i, entry)
    } else {
        blocks.push(entry)
    }
}

/// The first of the tips from `k` on that was not received, if there is one.
pub open spec fn unknown_tip(blocks: Seq<SyncedBlock>, tips: Seq<hash::Hash>, k: int) -> Option<
    hash::Hash,
>
    decreases tips.len() - k,
{
    if k < 0 || k >= tips.len() {
        None
    } else if synced_at(blocks, tips[k]) < 0 {
        Some(tips[k])
    } else {
        unknown_tip(blocks, tips, k + 1)
    }
}

/// Why a block is not taken in, if it is not: it is new, and one of its tips
/// was not received or its digest does not meet its difficulty.
pub open spec fn sync_refusal(blocks: Seq<SyncedBlock>, entry: SyncedBlock) -> Option<
    BlockchainError,
> {
    if synced_at(blocks, entry.hash) >= 0 {
        None
    } else if unknown_tip(blocks, entry.block.block.tips@, 0) is Some {
        Some(BlockchainError::BlockNotFound(unknown_tip(blocks, entry.block.block.tips@, 0).unwrap()))
    } else if !meets_difficulty(entry.hash, entry.difficulty) {
        Some(BlockchainError::InvalidDifficulty)
    } else {
        None
    }
}

impl ChainSync {
    pub fn new() -> (sync: ChainSync)
        ensures
            sync@.len() == 0,
    {
        ChainSync { blocks: Vec::new() }
    }

    fn find(&self, h: &hash::Hash) -> (found: Option<usize>)
        ensures
            match found {
                Some(i) => i as int == synced_at(self@, *h) && i < self.blocks.len(),
                None => synced_at(self@, *h) == -1,
            },
    {
        let ghost wanted = synced_wanted(*h);
        let mut i: usize = self.blocks.len();
        while i > 0
            invariant
                i <= self.blocks.len(),
                wanted == synced_wanted(*h),
                forall|j: int| i <= j < self.blocks.len() ==> !wanted(#[trigger] self.blocks@[j]),
            decreases i,
        {
            i = i - 1;
            if self.blocks[i].hash == *h {
                proof {
                    lemma_last_index_is(self.blocks@, wanted, i as int);
                }
                return Some(i);
            }
        }
        proof {
            lemma_last_index_is(self.blocks@, wanted, -1);
        }
        None
    }

    /// Whether the block with digest `h` was received.
    pub fn block_exist(&self, h: &hash::Hash) -> (r: bool)
        ensures
            r == (synced_at(self@, *h) >= 0),
    {
        self.find(h).is_some()
    }

    /// The block with digest `h`.
    pub fn get_block(&self, h: &hash::Hash) -> (r: Result<&CompleteBlock, BlockchainError>)
        ensures
            match r {
                Ok(block) => synced_at(self@, *h) >= 0 && *block == *self@[synced_at(
                    self@,
                    *h,
                )].block,
                Err(e) => synced_at(self@, *h) < 0 && e == BlockchainError::BlockNotFound(*h),
            },
    {
        match self.find(h) {
            Some(i) => Ok(&self.blocks[i].block),
            None => Err(BlockchainError::BlockNotFound(*h)),
        }
    }

    /// Takes the block in without any check; a block of the same digest is replaced.
    pub fn insert_block_no_check(&mut self, h: hash::Hash, block: Arc<CompleteBlock>, difficulty: u64)
        ensures
            final(self)@ == with_synced(old(self)@, SyncedBlock { hash: h, block, difficulty }),
    {
        let entry = SyncedBlock { hash: h, block, difficulty };
        match self.find(&h) {
            Some(i) => {
                self.blocks.set(i, entry);
            },
            None => {
                self.blocks.push(entry);
            },
        }
    }

    /// Takes the block in. A block that is new must come after its tips and
    /// its digest must meet its difficulty; a block received before is taken
    /// in again as it is.
    #[verifier::loop_isolation(false)]
    pub fn insert_block(&mut self, block: Arc<CompleteBlock>, difficulty: u64) -> (r: Result<
        (),
        BlockchainError,
    >)
        ensures
            match r {
                Ok(()) => sync_refusal(
                    old(self)@,
                    SyncedBlock { hash: block.hash, block, difficulty },
                ) is None && final(self)@ == with_synced(
                    old(self)@,
                    SyncedBlock { hash: block.hash, block, difficulty },
                ),
                Err(e) => sync_refusal(
                    old(self)@,
                    SyncedBlock { hash: block.hash, block, difficulty },
                ) == Some(e) && final(self)@ == old(self)@,
            },
    {
        let block_hash = block.hash;
        if !self.block_exist(&block_hash) {
            let n = block.block.tips.len();
            let mut k: usize = 0;
            while k < n
                invariant
                    k <= n,
                    n == block.block.tips@.len(),
                    self@ == old(self)@,
                    unknown_tip(self@, block.block.tips@, 0) == unknown_tip(
                        self@,
                        block.block.tips@,
                        k as int,
                    ),
                decreases n - k,
            {
                if !self.block_exist(&block.block.tips[k]) {
                    return Err(BlockchainError::BlockNotFound(block.block.tips[k]));
                }
                k = k + 1;
            }
            if !check_difficulty(&block_hash, difficulty) {
                return Err(BlockchainError::InvalidDifficulty);
            }
        }
        self.insert_block_no_check(block_hash, block, difficulty);
        Ok(())
    }

    /// Number of blocks received.
    pub fn size(&self) -> (n: usize)
        ensures
            n == self@.len(),
    {
        self.blocks.len()
    }
}

} // verus!
