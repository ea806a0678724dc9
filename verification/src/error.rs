//! Errors of the consensus core.

use vstd::prelude::*;
use crate::hash;
use crate::hash::PublicKey;

verus! {

/// Why an operation of the core was refused.
#[derive(Clone, Copy, Debug, PartialEq, Eq, Structural)]
pub enum BlockchainError {
    /// The block is already stored.
    AlreadyInChain,
    /// Too many tips, an unknown tip, or a tip too light beside the best one.
    InvalidTips,
    /// A block without tips where one is required, or an empty tip set.
    ExpectedTips,
    /// The declared height is not the height at the tips: (expected, got).
    InvalidBlockHeight(u64, u64),
    /// The block lies under the stable height.
    InvalidBlockHeightStableHeight,
    /// A tip of the block lies in the past of another of its tips.
    InvalidReachability,
    /// A tip has drifted too far from the main chain.
    BlockDeviation,
    /// The timestamp is too far ahead of the clock: (now, timestamp).
    TimestampIsInFuture(u128, u128),
    /// The timestamp is earlier than that of a tip.
    TimestampIsLessThanParent(u128),
    /// The block is larger than allowed: (limit, size).
    InvalidBlockSize(usize, usize),
    /// The transactions do not match the header: (declared, found).
    InvalidBlockTxs(usize, usize),
    /// The digest of the block does not meet its difficulty.
    InvalidDifficulty,
    /// The nonce of the transaction is not the expected one.
    InvalidTxNonce,
    /// The fee is under the floor for the size: (floor, fee).
    InvalidTxFee(u64, u64),
    /// The sender cannot pay: (sender, asset, needed, held).
    NotEnoughFunds(PublicKey, hash::Hash, u64, u64),
    /// The transaction already waits in the mempool.
    TxAlreadyInMempool(hash::Hash),
    /// The transaction occurs twice in the block.
    TxAlreadyInBlock(hash::Hash),
    /// The transaction is not the one the header declares at its place.
    InvalidTxInBlock(hash::Hash),
    /// A transfer without outputs.
    TxEmpty(hash::Hash),
    /// A transfer back to its sender.
    InvalidTransactionToSender(hash::Hash),
    /// The extra data of a transfer is too large: (limit, size).
    InvalidTransactionExtraDataTooBig(usize, usize),
    /// An amount left the 64-bit range.
    Overflow,
    /// Smart contracts are reserved.
    SmartContractTodo,
    /// No block with this digest is stored.
    BlockNotFound(hash::Hash),
    /// The block has no place in the total order.
    BlockNotOrdered(hash::Hash),
    /// The total order has no block at this topoheight.
    NoBlockAtTopoheight(u64),
    /// The best tip is ordered under the common base of the tips.
    BestTipUnderBase(hash::Hash),
    /// Rewinding would take the first block out of the order.
    RewindBelowGenesis,
    /// No transaction with this digest is known.
    TxNotFound(hash::Hash),
    /// The account has no record.
    AccountNotFound(PublicKey),
    /// The sender of a transaction was not staged.
    NoTxSender(PublicKey),
    /// A sender that also received has no recorded spending.
    NoSenderOutput,
    /// The simulator is allowed on the development network only.
    InvalidNetwork,
    /// The genesis block was not mined by the development key.
    GenesisBlockMiner,
    /// The genesis block does not have the expected digest.
    InvalidGenesisHash,
}

} // verus!
