//! Starting a node on a store, and the first block of a chain.

use vstd::prelude::*;
use crate::block::CompleteBlock;
use crate::blockchain::{Blockchain, Config, Network};
use crate::error::BlockchainError;
use crate::events::ChainEvent;
use crate::hash;
use crate::hash::PublicKey;
use crate::mempool::Mempool;
use crate::chain_state::{ReceiverBalance, Staging};
use crate::config::MINIMUM_DIFFICULTY;
use crate::executor::{block_executed, dev_share};
use crate::integrate::{next_entry, ordered_next, record, Prepared, Reordered};
use crate::ledger::{balances_below, lemma_last_index, nonces_below};
use crate::storage::{
    find_hash,
    lemma_position,
    max_height,
    BalanceEntry,
    Chain,
    NonceEntry,
    Storage,
    StoredBlock,
    TopoEntry,
};
use crate::transaction::{Transaction, TransactionType, Transfer};
use crate::tx_verify::{
    native_asset,
    spend,
    spend_outputs,
    spend_tx,
    spending_wanted,
    xelis_asset,
    ExpectedNonce,
    Spending,
};

verus! {

impl Storage {
    /// Whether the asset is registered.
    pub fn has_asset(&self, asset: &hash::Hash) -> (r: bool)
        ensures
            r == self@.assets.contains(*asset),
    {
        proof {
            lemma_position(self.assets@, *asset);
        }
        find_hash(&self.assets, asset).is_some()
    }

    /// Registers an asset; an asset that is registered stays as it is.
    pub fn add_asset(&mut self, asset: &hash::Hash)
        ensures
            final(self)@ == (Chain {
                assets: if old(self)@.assets.contains(*asset) {
                    old(self)@.assets
                } else {
                    old(self)@.assets.push(*asset)
                },
                ..old(self)@
            }),
    {
        if !self.has_asset(asset) {
            self.assets.push(*asset);
        }
    }

    /// The registered assets.
    pub fn get_assets(&self) -> (assets: &Vec<hash::Hash>)
        ensures
            assets@ == self@.assets,
    {
        &self.assets
    }
}

impl Chain {
    /// The coordinator of a node that starts on this chain: the simulator is
    /// for the development network only; the heights are those of the chain,
    /// the difficulty and the stable height those at its tips.
    pub open spec fn boot(self, simulator: bool, network: Network, dev_key: PublicKey) -> Result<
        Blockchain,
        BlockchainError,
    > {
        if simulator && network != Network::Dev {
            Err(BlockchainError::InvalidNetwork)
        } else {
            match self.difficulty_at_tips(self.tips) {
                Err(e) => Err(e),
                Ok(difficulty) => Ok(
                    Blockchain {
                        height: self.top_height,
                        topoheight: if self.order.len() == 0 {
                            0
                        } else {
                            (self.order.len() - 1) as u64
                        },
                        stable_height: if self.tips.len() == 0 {
                            0
                        } else {
                            self.common_base(self.tips).1
                        },
                        difficulty,
                        simulator,
                        network,
                        dev_key,
                    },
                ),
            }
        }
    }
}

impl Blockchain {
    /// The coordinator of a node that starts on `storage`.
    pub fn new(config: &Config, network: Network, dev_key: PublicKey, storage: &Storage) -> (r:
        Result<Blockchain, BlockchainError>)
        requires
            storage@.sound(),
        ensures
            r == storage@.boot(config.simulator, network, dev_key),
    {
        if config.simulator && network != Network::Dev {
            return Err(BlockchainError::InvalidNetwork);
        }
        let difficulty = crate::work::difficulty_at_tips(storage, &storage.tips)?;
        let stable_height = if storage.tips.len() == 0 {
            0
        } else {
            match crate::sync::common_base(storage, &storage.tips) {
                Ok(base) => base.1,
                Err(_) => {
                    assert(false);
                    0
                },
            }
        };
        Ok(
            Blockchain {
                height: storage.get_top_height(),
                topoheight: storage.get_top_topoheight(),
                stable_height,
                difficulty,
                simulator: config.simulator,
                network,
                dev_key,
            },
        )
    }

    /// Admits the first block of a chain at the time `now`. The block must
    /// have been mined by the development key and, where a digest is
    /// expected, have that digest; it is not asked for proof of work. Once it
    /// is admitted the native asset is registered. Where it is refused
    /// nothing changes.
    pub fn create_genesis_block(
        &mut self,
        storage: &mut Storage,
        mempool: &mut Mempool,
        genesis: CompleteBlock,
        expected: Option<hash::Hash>,
        now: u128,
    ) -> (r: Result<Vec<ChainEvent>, BlockchainError>)
        requires
            old(storage)@.sound(),
        ensures
            final(storage)@.sound(),
            old(storage)@.wf() ==> final(storage)@.wf(),
            final(self).simulator == old(self).simulator,
            match r {
                Ok(_) => genesis.block.miner == old(self).dev_key && (expected matches Some(h)
                    ==> h == genesis.hash) && match old(storage)@.admission(
                    Blockchain { simulator: true, ..*old(self) },
                    genesis,
                    now,
                ) {
                    Ok(difficulty) => match old(storage)@.integrated(
                        Blockchain { simulator: true, ..*old(self) },
                        genesis,
                        difficulty,
                    ) {
                        Ok((chain, node, _)) => final(storage)@ == (Chain {
                            assets: if chain.assets.contains(native_asset()) {
                                chain.assets
                            } else {
                                chain.assets.push(native_asset())
                            },
                            ..chain
                        }) && *final(self) == (Blockchain {
                            simulator: old(self).simulator,
                            ..node
                        }),
                        Err(_) => false,
                    },
                    Err(_) => false,
                },
                Err(e) => final(storage)@ == old(storage)@ && *final(self) == *old(self)
                    && final(mempool)@ == old(mempool)@ && if genesis.block.miner != old(
                    self,
                ).dev_key {
                    e == BlockchainError::GenesisBlockMiner
                } else if expected is Some && expected != Some(genesis.hash) {
                    e == BlockchainError::InvalidGenesisHash
                } else {
                    match old(storage)@.admission(
                        Blockchain { simulator: true, ..*old(self) },
                        genesis,
                        now,
                    ) {
                        Ok(difficulty) => old(storage)@.integrated(
                            Blockchain { simulator: true, ..*old(self) },
                            genesis,
                            difficulty,
                        ) == Err::<(Chain, Blockchain, Seq<ExpectedNonce>), BlockchainError>(e),
                        Err(refusal) => refusal == e,
                    }
                },
            },
    {
        if genesis.block.miner != self.dev_key {
            return Err(BlockchainError::GenesisBlockMiner);
        }
        match expected {
            Some(h) => {
                if h != genesis.hash {
                    return Err(BlockchainError::InvalidGenesisHash);
                }
            },
            None => {},
        }
        let simulator = self.simulator;
        self.simulator = true;
        let r = self.add_new_block_at(storage, mempool, genesis, now);
        self.simulator = simulator;
        match r {
            Ok(events) => {
                let asset = xelis_asset();
                let ghost before = storage@;
                storage.add_asset(&asset);
                proof {
                    crate::coordinator::lemma_same_blocks(before, storage@);
                    crate::rewind::lemma_same_childless(before, storage@, before.blocks.len() as int);
                    crate::rewind::lemma_same_highest(before, storage@, before.blocks.len() as int);
                    if before.wf() {
                        crate::invariants::lemma_wf_order_same(before, storage@);
                    }
                    assert(storage@.order_stored()) by {
                        assert forall|t: int| 0 <= t < storage@.order.len() implies storage@.has_block(
                            (#[trigger] storage@.order[t]).hash,
                        ) by {
                            assert(before.has_block(before.order[t].hash));
                        }
                    }
                    assert(storage@.tips_stored()) by {
                        assert forall|k: int| 0 <= k < storage@.tips.len() implies storage@.has_block(
                            #[trigger] storage@.tips[k],
                        ) by {
                            assert(before.has_block(before.tips[k]));
                        }
                    }
                }
                Ok(events)
            },
            Err(e) => Err(e),
        }
    }
}

/// Asking an owner to pay keeps the first entry an entry of that owner.
pub proof fn lemma_spend_first(spent: Seq<Spending>, owner: PublicKey, asset: hash::Hash, amount: u64)
    requires
        spent.len() > 0,
        spent[0].key == owner,
        spend(spent, owner, asset, amount) is Ok,
    ensures
        spend(spent, owner, asset, amount).unwrap().len() > 0,
        spend(spent, owner, asset, amount).unwrap()[0].key == owner,
{
    lemma_last_index(spent, spending_wanted(owner, asset));
}

/// Asking an owner to pay outputs keeps the first entry an entry of that owner.
pub proof fn lemma_spend_outputs_first(
    spent: Seq<Spending>,
    owner: PublicKey,
    outputs: Seq<Transfer>,
    n: int,
)
    requires
        spent.len() > 0,
        spent[0].key == owner,
        spend_outputs(spent, owner, outputs, n) is Ok,
    ensures
        spend_outputs(spent, owner, outputs, n).unwrap().len() > 0,
        spend_outputs(spent, owner, outputs, n).unwrap()[0].key == owner,
    decreases n,
{
    if n > 0 {
        lemma_spend_outputs_first(spent, owner, outputs, n - 1);
        lemma_spend_first(
            spend_outputs(spent, owner, outputs, n - 1).unwrap(),
            owner,
            outputs[n - 1].asset,
            outputs[n - 1].amount,
        );
    }
}

/// No transaction verifies against a chain that has no balance on record:
/// its owner cannot pay its fee.
pub proof fn lemma_nothing_to_spend(c: Chain, tx: Transaction)
    requires
        c.balances.len() == 0,
    ensures
        c.verify_in_batch(tx, Seq::empty(), Seq::empty()) is Err,
{
    let none: Seq<Spending> = Seq::empty();
    if spend_tx(none, tx) is Ok {
        lemma_last_index(none, spending_wanted(tx.owner, native_asset()));
        let with_fee = spend(none, tx.owner, native_asset(), tx.fee).unwrap();
        assert(with_fee[0].key == tx.owner);
        match tx.data {
            TransactionType::Transfer(outputs) => {
                lemma_spend_outputs_first(with_fee, tx.owner, outputs@, outputs@.len() as int);
            },
            TransactionType::Burn(asset, amount) => {
                lemma_spend_first(with_fee, tx.owner, asset, amount);
            },
            TransactionType::SmartContract => {},
        }
        let after = spend_tx(none, tx).unwrap();
        assert(after[0].key == tx.owner);
        assert(!c.has_balance(tx.owner, after[0].asset));
        assert(c.funds_error(after, tx.owner, 0) is Some);
    }
}

/// A block without transactions executes for no reward, whatever the logs hold.
pub proof fn lemma_empty_block_executes(
    balances: Seq<BalanceEntry>,
    nonces: Seq<NonceEntry>,
    block: StoredBlock,
    topoheight: u64,
    dev_key: PublicKey,
)
    requires
        block.txs@.len() == 0,
    ensures
        block_executed(balances, nonces, block, topoheight, 0, dev_key) is Ok,
{
    reveal(block_executed);
    let start = Staging::empty(topoheight, 0);
    assert(start.all_executed(balances, nonces, block.txs@, 0) == Ok::<Staging, BlockchainError>(
        start,
    ));
    assert(dev_share(0) == 0);
    let shared = start.credited(balances, dev_key, native_asset(), 0).unwrap();
    assert(shared.fees_collected == 0);
    assert(shared.assets.len() == 0);
    let rewarded = shared.rewarded(balances, block.block.miner, 0).unwrap();
    assert(rewarded.assets.len() == 0);
    assert(rewarded.merged(0) == Ok::<Seq<ReceiverBalance>, BlockchainError>(rewarded.receivers));
}

/// The first block of a chain is taken in: a block that is admitted to an
/// empty chain has no tips, no transactions and height zero; it is stored
/// alone, ordered at topoheight zero for no reward, and is the tip set; the
/// heights are zero and the difficulty is the minimum.
pub proof fn lemma_first_block_taken_in(c: Chain, node: Blockchain, block: CompleteBlock, now: u128)
    requires
        c.blocks.len() == 0,
        c.order.len() == 0,
        c.tips.len() == 0,
        c.balances.len() == 0,
        c.nonces.len() == 0,
        c.top_height == 0,
        c.admission(node, block, now) is Ok,
    ensures
        block.block.tips@.len() == 0,
        block.block.height == 0,
        block.transactions@.len() == 0,
        c.integrated(node, block, c.admission(node, block, now).unwrap()) is Ok,
        ({
            let done = c.integrated(node, block, c.admission(node, block, now).unwrap()).unwrap();
            &&& done.0.blocks.len() == 1
            &&& done.0.blocks[0].hash == block.hash
            &&& done.0.blocks[0].block == block.block
            &&& done.0.order == seq![TopoEntry { hash: block.hash, reward: 0, supply: 0 }]
            &&& done.0.tips == seq![block.hash]
            &&& done.0.top_height == 0
            &&& done.1.height == 0
            &&& done.1.topoheight == 0
            &&& done.1.stable_height == 0
            &&& done.1.difficulty == MINIMUM_DIFFICULTY
        }),
{
    reveal(Chain::integrated);
    reveal(Chain::prepared);
    reveal(Chain::cumulative_for);
    let difficulty = c.admission(node, block, now).unwrap();
    lemma_first_block_admitted(c, node, block, now);
    let stored = record(block, difficulty, difficulty);
    let c1 = c.stored(block, difficulty, difficulty);
    let h = block.hash;
    assert(c1.blocks =~= seq![stored]);
    assert(c1.hashes() =~= seq![h]);
    lemma_position(c1.hashes(), h);
    assert(c1.index_of(h) == 0);
    assert(c1.block(h) == stored);
    let tips1 = c.next_tips(block);
    assert(tips1 =~= seq![h]);
    lemma_first_block_ordered(c1, node.dev_key, h);
    let after = c1.rebuilt(node.dev_key, seq![h], 0).unwrap();
    let ready = Prepared { chain: c1, tips: tips1, best: h, base_topo: 0, full: seq![h], after };
    assert(c.prepared(node.dev_key, block, difficulty) == Ok::<Prepared, BlockchainError>(ready));
    let c2 = ready.installed();
    lemma_first_block_settled(c2, h);
}

/// What admission asks of the first block of a chain.
pub proof fn lemma_first_block_admitted(c: Chain, node: Blockchain, block: CompleteBlock, now: u128)
    requires
        c.blocks.len() == 0,
        c.balances.len() == 0,
        c.admission(node, block, now) is Ok,
    ensures
        block.block.tips@.len() == 0,
        block.block.height == 0,
        block.transactions@.len() == 0,
{
    reveal(Chain::admission);
    let tips = block.block.tips@;
    if tips.len() > 0 {
        assert(c.has_block(tips[0]));
        lemma_position(c.hashes(), tips[0]);
    }
    assert(c.places(tips) =~= Seq::<int>::empty());
    let n = block.transactions@.len() as int;
    if n > 0 {
        crate::restore::lemma_verified_before(c, block, 1, n);
        assert(c.txs_verified(block, 0) == Ok::<
            (Seq<Spending>, Seq<ExpectedNonce>),
            BlockchainError,
        >((Seq::empty(), Seq::empty())));
        let tx = *block.transactions@[0];
        lemma_nothing_to_spend(c, tx);
    }
}

/// The order rebuilt for the first block of a chain.
pub proof fn lemma_first_block_ordered(c1: Chain, dev_key: PublicKey, h: hash::Hash)
    requires
        c1.order.len() == 0,
        c1.block(h).txs@.len() == 0,
    ensures
        c1.planned(seq![h]) == Ok::<(hash::Hash, int, Seq<hash::Hash>), BlockchainError>(
            (h, 0, seq![h]),
        ),
        c1.rebuilt(dev_key, seq![h], 0) is Ok,
        c1.rebuilt(dev_key, seq![h], 0).unwrap().order == seq![
            TopoEntry { hash: h, reward: 0, supply: 0 },
        ],
{
    reveal(Chain::planned);
    reveal(Chain::rebuilt);
    let full = seq![h];
    assert(full.last() == h);
    assert(c1.kept(full, 0, 0) == 0);
    let start = Reordered {
        order: c1.order.take(0),
        balances: c1.balances.take(balances_below(c1.balances, 0)),
        nonces: c1.nonces.take(nonces_below(c1.nonces, 0)),
        moved: Seq::empty(),
    };
    assert(start.order =~= Seq::<TopoEntry>::empty());
    let entry = next_entry(c1, start.order, h);
    assert(entry == TopoEntry { hash: h, reward: 0, supply: 0 });
    lemma_empty_block_executes(start.balances, start.nonces, c1.block(h), 0, dev_key);
    let next = ordered_next(c1, dev_key, start, h).unwrap();
    assert(c1.reordered(dev_key, full, 1, next) == Ok::<Reordered, BlockchainError>(next));
    assert(c1.reordered(dev_key, full, 0, start) == Ok::<Reordered, BlockchainError>(next));
    assert(next.order =~= seq![entry]);
}

/// The difficulty and the stable height at the first block of a chain.
pub proof fn lemma_first_block_settled(c2: Chain, h: hash::Hash)
    requires
        c2.blocks.len() == 1,
        c2.blocks[0].hash == h,
        c2.blocks[0].block.tips@.len() == 0,
        c2.blocks[0].block.height == 0,
    ensures
        c2.settled(seq![h]) == Ok::<(u64, u64), BlockchainError>((MINIMUM_DIFFICULTY, 0)),
{
    reveal(Chain::settled);
    let tips = seq![h];
    assert(c2.hashes() =~= seq![h]);
    lemma_position(c2.hashes(), h);
    assert(c2.index_of(h) == 0);
    assert(c2.all_stored(tips));
    let places = c2.places(tips);
    assert(places =~= seq![0int]);
    assert(places.drop_last() =~= Seq::<int>::empty());
    assert(max_height(c2.blocks, places.drop_last()) == 0);
    assert(places.last() == 0);
    assert(max_height(c2.blocks, places) == 0);
    assert(c2.height_at_tips(tips) == 1);
    let base = c2.tip_base(h, 0);
    assert(base == (h, 0u64));
    assert(c2.common_base_scan(tips, 1, Some(base), 0) == Some(base));
    assert(c2.common_base_scan(tips, 0, None, 0) == Some(base));
}

} // verus!
