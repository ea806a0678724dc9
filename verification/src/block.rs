//! Block headers and complete blocks.

use vstd::prelude::*;
use std::sync::Arc;
use crate::hash;
use crate::hash::PublicKey;
use crate::transaction::Transaction;

verus! {

/// Size in bytes of a digest on the wire.
pub const HASH_SIZE: usize = 32;

/// Size in bytes of the wire form of a header without tips and transactions:
/// height, timestamp, nonce, extra nonce, miner key and the two counts.
pub const HEADER_BASE_SIZE: usize = 99;

/// A block header.
pub struct Block {
    pub height: u64,
    pub timestamp: u128,
    pub nonce: u64,
    pub extra_nonce: [u8; 32],
    pub miner: PublicKey,
    pub tips: Vec<hash::Hash>,
    pub txs_hashes: Vec<hash::Hash>,
}

/// A header with its digest and its transactions.
pub struct CompleteBlock {
    pub hash: hash::Hash,
    pub block: Block,
    pub transactions: Vec<Arc<Transaction>>,
}

/// Size in bytes of the wire form of a header with `tips` tips and `txs`
/// transaction digests.
pub open spec fn header_size(tips: nat, txs: nat) -> nat {
    HEADER_BASE_SIZE as nat + (HASH_SIZE as nat) * (tips + txs)
}

/// Total size in bytes of the wire forms of `txs`.
pub open spec fn total_tx_size(txs: Seq<Arc<Transaction>>) -> nat
    decreases txs.len(),
{
    if txs.len() == 0 {
        0
    } else {
        total_tx_size(txs.drop_last()) + txs.last().size as nat
    }
}

impl Block {
    pub fn new(
        height: u64,
        timestamp: u128,
        tips: Vec<hash::Hash>,
        extra_nonce: [u8; 32],
        miner: PublicKey,
        txs_hashes: Vec<hash::Hash>,
    ) -> (block: Block)
        ensures
            block.height == height,
            block.timestamp == timestamp,
            block.nonce == 0,
            block.extra_nonce == extra_nonce,
            block.miner == miner,
            block.tips == tips,
            block.txs_hashes == txs_hashes,
    {
        Block { height, timestamp, nonce: 0, extra_nonce, miner, tips, txs_hashes }
    }

    /// Size in bytes of the wire form of the header.
    pub open spec fn spec_size(&self) -> nat {
        header_size(self.tips@.len(), self.txs_hashes@.len())
    }

    /// Size in bytes of the wire form of the header, or `None` where it does
    /// not fit the machine word.
    pub fn size(&self) -> (size: Option<usize>)
        ensures
            match size {
                Some(n) => n as nat == self.spec_size(),
                None => self.spec_size() > usize::MAX,
            },
    {
        let count: u128 = self.tips.len() as u128 + self.txs_hashes.len() as u128;
        let total: u128 = HEADER_BASE_SIZE as u128 + (HASH_SIZE as u128) * count;
        if total > usize::MAX as u128 {
            None
        } else {
            Some(total as usize)
        }
    }

    pub fn get_height(&self) -> (height: u64)
        ensures
            height == self.height,
    {
        self.height
    }

    pub fn get_timestamp(&self) -> (timestamp: u128)
        ensures
            timestamp == self.timestamp,
    {
        self.timestamp
    }

    pub fn get_tips(&self) -> (tips: &Vec<hash::Hash>)
        ensures
            *tips == self.tips,
    {
        &self.tips
    }

    pub fn get_miner(&self) -> (miner: &PublicKey)
        ensures
            *miner == self.miner,
    {
        &self.miner
    }

    pub fn get_txs_hashes(&self) -> (hashes: &Vec<hash::Hash>)
        ensures
            *hashes == self.txs_hashes,
    {
        &self.txs_hashes
    }

    pub fn get_txs_count(&self) -> (count: usize)
        ensures
            count == self.txs_hashes@.len(),
    {
        self.txs_hashes.len()
    }
}

impl CompleteBlock {
    pub fn new(hash: hash::Hash, block: Block, transactions: Vec<Arc<Transaction>>) -> (complete:
        CompleteBlock)
        ensures
            complete.hash == hash,
            complete.block == block,
            complete.transactions == transactions,
    {
        CompleteBlock { hash, block, transactions }
    }

    pub fn get_hash(&self) -> (h: hash::Hash)
        ensures
            h == self.hash,
    {
        self.hash
    }

    pub fn get_header(&self) -> (block: &Block)
        ensures
            *block == self.block,
    {
        &self.block
    }

    pub fn get_transactions(&self) -> (txs: &Vec<Arc<Transaction>>)
        ensures
            *txs == self.transactions,
    {
        &self.transactions
    }
}

} // verus!
