//! What the chain reports after a block is admitted.

use vstd::prelude::*;
use crate::blockchain::Blockchain;
use crate::hash;
use crate::storage::{Chain, Storage};

verus! {

/// The standing of a block in the chain.
#[derive(Clone, Copy, Debug, PartialEq, Eq, Structural)]
pub enum BlockType {
    /// An ordered block under which the chain has narrowed.
    Sync,
    /// An ordered block that earns a reduced reward.
    Side,
    /// A stored block without a place in the total order.
    Orphaned,
    /// Any other ordered block.
    Normal,
}

/// An event of the chain.
#[derive(Clone, Copy, Debug, PartialEq, Eq, Structural)]
pub enum ChainEvent {
    /// A block was admitted.
    NewBlock { hash: hash::Hash },
    /// A block was given a place in the total order.
    BlockOrdered { hash: hash::Hash, topoheight: u64, block_type: BlockType },
    /// A transaction of an ordered block was executed.
    TransactionExecuted { tx_hash: hash::Hash, block_hash: hash::Hash, topoheight: u64 },
    /// A transaction was admitted to the mempool.
    TransactionAddedInMempool { tx_hash: hash::Hash },
}

impl Chain {
    /// The standing of the block `h` for a chain of the given height.
    pub open spec fn block_type(self, h: hash::Hash, height: u64) -> BlockType {
        if !self.is_ordered(h) {
            BlockType::Orphaned
        } else if self.is_sync(h, height) {
            BlockType::Sync
        } else if self.is_side_block(h) {
            BlockType::Side
        } else {
            BlockType::Normal
        }
    }

    /// `events` followed by the execution of the first `n` transactions of
    /// the block at topoheight `t`.
    pub open spec fn executed_events(self, events: Seq<ChainEvent>, t: int, n: int) -> Seq<
        ChainEvent,
    >
        decreases n,
    {
        if n <= 0 {
            events
        } else {
            self.executed_events(events, t, n - 1).push(
                ChainEvent::TransactionExecuted {
                    tx_hash: self.block(self.order[t].hash).txs@[n - 1].hash,
                    block_hash: self.order[t].hash,
                    topoheight: t as u64,
                },
            )
        }
    }

    /// The events of the blocks ordered at the topoheights from `first` up to
    /// `t`: for each block the execution of its transactions, then its place.
    pub open spec fn ordered_events(self, first: int, t: int, height: u64) -> Seq<ChainEvent>
        decreases t - first,
    {
        if t <= first {
            Seq::empty()
        } else {
            self.executed_events(
                self.ordered_events(first, t - 1, height),
                t - 1,
                self.block(self.order[t - 1].hash).txs@.len() as int,
            ).push(
                ChainEvent::BlockOrdered {
                    hash: self.order[t - 1].hash,
                    topoheight: (t - 1) as u64,
                    block_type: self.block_type(self.order[t - 1].hash, height),
                },
            )
        }
    }
}

impl Blockchain {
    /// The standing of the block `h`; a block that is not stored counts as orphaned.
    pub fn get_block_type_for_block(&self, storage: &Storage, h: &hash::Hash) -> (block_type:
        BlockType)
        requires
            storage@.order_stored(),
        ensures
            block_type == storage@.block_type(*h, self.height),
    {
        let t = match storage.find_topoheight(h) {
            None => {
                return BlockType::Orphaned;
            },
            Some(t) => t,
        };
        assert(storage@.has_block(storage@.order[t as int].hash));
        assert(storage@.order_hashes()[t as int] == *h) by {
            crate::storage::lemma_position(storage@.order_hashes(), *h);
        }
        match storage.find_block(h) {
            None => {
                assert(false);
                BlockType::Orphaned
            },
            Some(place) => {
                if crate::sync::sync_at(storage, place, self.height) {
                    BlockType::Sync
                } else if crate::order::side_at_place(storage, &storage.order, t) {
                    BlockType::Side
                } else {
                    BlockType::Normal
                }
            },
        }
    }

    /// The events of the blocks ordered from topoheight `first` on, followed
    /// by the admission of the block `h`.
    pub fn block_events(&self, storage: &Storage, first: usize, h: hash::Hash) -> (events: Vec<
        ChainEvent,
    >)
        requires
            storage@.order_stored(),
            first <= storage@.order.len(),
        ensures
            events@ == storage@.ordered_events(
                first as int,
                storage@.order.len() as int,
                self.height,
            ).push(ChainEvent::NewBlock { hash: h }),
    {
        let mut events: Vec<ChainEvent> = Vec::new();
        let n = storage.order.len();
        let mut t: usize = first;
        while t < n
            invariant
                first <= t <= n,
                n == storage@.order.len(),
                storage@.order_stored(),
                events@ == storage@.ordered_events(first as int, t as int, self.height),
            decreases n - t,
        {
            let block_hash = storage.order[t].hash;
            assert(storage@.has_block(storage@.order[t as int].hash));
            match storage.find_block(&block_hash) {
                None => {
                    assert(false);
                },
                Some(place) => {
                    let block = &storage.blocks[place];
                    let m = block.txs.len();
                    let ghost start = events@;
                    let mut x: usize = 0;
                    while x < m
                        invariant
                            x <= m,
                            t < n,
                            n == storage@.order.len(),
                            m == block.txs@.len(),
                            *block == storage@.block(storage@.order[t as int].hash),
                            block_hash == storage@.order[t as int].hash,
                            events@ == storage@.executed_events(start, t as int, x as int),
                        decreases m - x,
                    {
                        events.push(
                            ChainEvent::TransactionExecuted {
                                tx_hash: block.txs[x].hash,
                                block_hash,
                                topoheight: t as u64,
                            },
                        );
                        x = x + 1;
                    }
                },
            }
            let block_type = self.get_block_type_for_block(storage, &block_hash);
            events.push(ChainEvent::BlockOrdered { hash: block_hash, topoheight: t as u64, block_type });
            t = t + 1;
        }
        events.push(ChainEvent::NewBlock { hash: h });
        events
    }
}

} // verus!
