//! Admission of a block into the chain, step by step: the block is stored
//! and joins the tip set, the order past the common base is rebuilt and
//! executed on a copy of the logs, and only then is the result installed.

use vstd::prelude::*;
use crate::block::CompleteBlock;
use crate::blockchain::{get_block_reward, get_side_block_reward, Blockchain};
use crate::error::BlockchainError;
use crate::executor::block_executed;
use crate::hash;
use crate::integrate::{
    lemma_admitted,
    lemma_full_order_stored,
    lemma_pushed,
    lemma_tips_without,
    next_entry,
    ordered_next,
    record,
    tips_without,
    Reordered,
};
use crate::ledger::{
    balances_ascend,
    cut_balances,
    cut_nonces,
    lemma_balances_below,
    lemma_nonces_below,
    nonces_ascend,
};
use crate::order::{full_order_at, side_at_place};
use crate::storage::{BalanceEntry, Chain, Ledger, NonceEntry, Storage, StoredBlock, TopoEntry};
use crate::sync::lemma_found;
use crate::chain_state::{ReceiverBalance, Staging};
use crate::hash::PublicKey;
use crate::transaction::{Transaction, Transfer};
use crate::events::ChainEvent;
use crate::globals::get_current_timestamp;
use crate::mempool::{cleaned, without_txs, Mempool};
use crate::tx_verify::ExpectedNonce;
use std::sync::Arc;

verus! {

/// What holds of a planned order: while nothing is ordered it is the block
/// that joined last; else it is an orderly order from the best tip back to
/// the common base of the tips, which stands at the base topoheight.
pub open spec fn planned_orderly(
    c: Chain,
    tips: Seq<hash::Hash>,
    best: hash::Hash,
    base_topo: int,
    full: Seq<hash::Hash>,
) -> bool {
    if c.order.len() == 0 {
        base_topo == 0 && full == seq![tips.last()]
    } else {
        c.orderly(full, c.index_of(best), c.common_base(tips).0, base_topo) && c.topo_of(
            c.common_base(tips).0,
        ) == base_topo
    }
}

/// Whether `order` keeps the first `base_topo` places of `old` and then
/// takes the blocks of `full`.
pub open spec fn takes_order(order: Seq<TopoEntry>, old: Seq<TopoEntry>, full: Seq<hash::Hash>, base_topo: int, k: int) -> bool {
    &&& order.len() == base_topo + k
    &&& forall|t: int| 0 <= t < base_topo && t < old.len() ==> (#[trigger] order[t]) == old[t]
    &&& forall|j: int| 0 <= j < k && j < full.len() ==> (#[trigger] order[base_topo + j]).hash == full[j]
}

/// Whether `order` has the first `d` places of `old`.
pub open spec fn keeps_places(order: Seq<TopoEntry>, old: Seq<TopoEntry>, d: int) -> bool {
    forall|t: int| 0 <= t < d && t < old.len() && t < order.len() ==> (#[trigger] order[t]) == old[t]
}

/// Whether a log of balances ascends and holds only versions under topoheight `t`.
pub open spec fn balances_under(log: Seq<BalanceEntry>, t: int) -> bool {
    &&& balances_ascend(log)
    &&& forall|i: int| 0 <= i < log.len() ==> (#[trigger] log[i]).topoheight < t
}

/// Whether a log of nonces ascends and holds only versions under topoheight `t`.
pub open spec fn nonces_under(log: Seq<NonceEntry>, t: int) -> bool {
    &&& nonces_ascend(log)
    &&& forall|i: int| 0 <= i < log.len() ==> (#[trigger] log[i]).topoheight < t
}

fn copy_order(order: &Vec<TopoEntry>, n: usize) -> (copy: Vec<TopoEntry>)
    requires
        n <= order.len(),
    ensures
        copy@ == order@.take(n as int),
{
    let mut copy: Vec<TopoEntry> = Vec::new();
    let mut i: usize = 0;
    while i < n
        invariant
            i <= n,
            n <= order.len(),
            copy@ == order@.take(i as int),
        decreases n - i,
    {
        copy.push(order[i]);
        proof {
            assert(copy@ =~= order@.take(i + 1));
        }
        i = i + 1;
    }
    copy
}

fn copy_ledger(ledger: &Ledger) -> (copy: Ledger)
    ensures
        copy.balances@ == ledger.balances@,
        copy.nonces@ == ledger.nonces@,
{
    let mut balances: Vec<BalanceEntry> = Vec::new();
    let n = ledger.balances.len();
    let mut i: usize = 0;
    while i < n
        invariant
            i <= n,
            n == ledger.balances.len(),
            balances@ == ledger.balances@.take(i as int),
        decreases n - i,
    {
        balances.push(ledger.balances[i]);
        proof {
            assert(balances@ =~= ledger.balances@.take(i + 1));
        }
        i = i + 1;
    }
    let mut nonces: Vec<NonceEntry> = Vec::new();
    let m = ledger.nonces.len();
    let mut j: usize = 0;
    while j < m
        invariant
            j <= m,
            m == ledger.nonces.len(),
            nonces@ == ledger.nonces@.take(j as int),
        decreases m - j,
    {
        nonces.push(ledger.nonces[j]);
        proof {
            assert(nonces@ =~= ledger.nonces@.take(j + 1));
        }
        j = j + 1;
    }
    proof {
        assert(ledger.balances@.take(n as int) =~= ledger.balances@);
        assert(ledger.nonces@.take(m as int) =~= ledger.nonces@);
    }
    Ledger { balances, nonces }
}

impl Blockchain {
    /// Stores an admitted block with its cumulative difficulty. Where that
    /// cannot be given the store stays as it was.
    pub fn store_block(&self, storage: &mut Storage, block: CompleteBlock, difficulty: u64) -> (r:
        Result<(), BlockchainError>)
        requires
            old(storage)@.parts_sound(),
            old(storage)@.fits(record(block, difficulty, 0)),
        ensures
            match r {
                Ok(()) => match old(storage)@.stored(block, difficulty, 0).cumulative_for(
                    block,
                    difficulty,
                ) {
                    Ok(cumulative) => final(storage)@ == old(storage)@.stored(
                        block,
                        difficulty,
                        cumulative,
                    ) && final(storage)@.parts_sound(),
                    Err(_) => false,
                },
                Err(e) => old(storage)@.stored(block, difficulty, 0).cumulative_for(
                    block,
                    difficulty,
                ) == Err::<u64, BlockchainError>(e) && final(storage)@ == old(storage)@,
            },
    {
        reveal(Chain::cumulative_for);
        let ghost c = storage@;
        let h = block.hash;
        let ghost plain = record(block, difficulty, 0);
        proof {
            lemma_pushed(c, plain);
        }
        storage.blocks.push(
            StoredBlock {
                hash: block.hash,
                block: block.block,
                txs: block.transactions,
                difficulty,
                cumulative_difficulty: 0,
            },
        );
        assert(storage@ == c.stored(block, difficulty, 0));
        let last = storage.blocks.len() - 1;
        let cumulative: Result<u64, BlockchainError> = if storage.blocks[last].block.tips.len()
            == 0 {
            Ok(difficulty)
        } else {
            proof {
                crate::integrate::lemma_places_pushed(c, plain, plain.block.tips@);
            }
            match self.find_common_base(storage, &storage.blocks[last].block.tips) {
                Ok(base) => self.find_tip_work_score(storage, &h, &base.0, base.1),
                Err(e) => {
                    assert(false);
                    Err(e)
                },
            }
        };
        match cumulative {
            Err(e) => {
                storage.blocks.pop();
                proof {
                    assert(storage.blocks@ =~= c.blocks);
                }
                Err(e)
            },
            Ok(cumulative) => {
                match storage.blocks.pop() {
                    Some(stored) => {
                        let mut stored = stored;
                        stored.cumulative_difficulty = cumulative;
                        proof {
                            assert(storage.blocks@ =~= c.blocks);
                            assert(stored == record(block, difficulty, cumulative));
                            lemma_pushed(c, stored);
                        }
                        storage.blocks.push(stored);
                    },
                    None => {
                        assert(false);
                    },
                }
                Ok(())
            },
        }
    }

    /// The tip set after a block joins: the tips it does not name, then the block.
    pub fn join_tips(&self, tips: &Vec<hash::Hash>, parents: &Vec<hash::Hash>, h: hash::Hash) -> (joined:
        Vec<hash::Hash>)
        ensures
            joined@ == tips_without(tips@, parents@, tips@.len() as int).push(h),
    {
        let mut joined: Vec<hash::Hash> = Vec::new();
        let n = tips.len();
        let mut i: usize = 0;
        while i < n
            invariant
                i <= n,
                n == tips.len(),
                joined@ == tips_without(tips@, parents@, i as int),
            decreases n - i,
        {
            if !crate::storage::contains_hash(parents, &tips[i]) {
                joined.push(tips[i]);
            }
            i = i + 1;
        }
        joined.push(h);
        joined
    }

    /// The best tip of `tips`, the topoheight of their common base and the
    /// order from the base to the best tip.
    pub fn plan_order(&self, storage: &Storage, tips: &Vec<hash::Hash>) -> (r: Result<
        (hash::Hash, usize, Vec<hash::Hash>),
        BlockchainError,
    >)
        requires
            storage@.parts_sound(),
            tips@.len() > 0,
            storage@.all_stored(tips@),
        ensures
            match r {
                Ok((best, base_topo, full)) => storage@.planned(tips@) == Ok::<
                    (hash::Hash, int, Seq<hash::Hash>),
                    BlockchainError,
                >((best, base_topo as int, full@)) && storage@.has_block(best) && base_topo
                    <= storage@.order.len() && storage@.all_stored(full@) && full@.len() > 0
                    && planned_orderly(storage@, tips@, best, base_topo as int, full@),
                Err(e) => storage@.planned(tips@) == Err::<
                    (hash::Hash, int, Seq<hash::Hash>),
                    BlockchainError,
                >(e),
            },
    {
        reveal(Chain::planned);
        if storage.order.len() == 0 {
            let last = tips[tips.len() - 1];
            let mut full: Vec<hash::Hash> = Vec::new();
            full.push(last);
            proof {
                assert(full@ =~= seq![tips@.last()]);
                assert(storage@.has_block(tips@[tips@.len() - 1]));
            }
            return Ok((last, 0, full));
        }
        let base = match self.find_common_base(storage, tips) {
            Ok(base) => base,
            Err(e) => {
                assert(false);
                return Err(e);
            },
        };
        let best = self.find_best_tip(storage, tips, &base.0, base.1)?;
        let base_topo = match storage.find_topoheight(&base.0) {
            Some(t) => t,
            None => {
                return Err(BlockchainError::BlockNotOrdered(base.0));
            },
        };
        let place = match storage.find_block(&best) {
            Some(place) => place,
            None => {
                return Err(BlockchainError::BlockNotFound(best));
            },
        };
        match storage.find_topoheight(&best) {
            Some(t) => {
                if t < base_topo {
                    return Err(BlockchainError::BestTipUnderBase(best));
                }
            },
            None => {},
        }
        proof {
            lemma_full_order_stored(storage@, place as int, base.0, base_topo as int);
            lemma_found(storage@, best);
            crate::invariants::lemma_full_order(storage@, place as int, base.0, base_topo as int);
        }
        let full = full_order_at(storage, place, &base.0, base_topo as u64);
        Ok((best, base_topo, full))
    }
}


/// Paying outputs leaves the topoheight of the staging state as it was.
pub proof fn lemma_transferred_topoheight(
    state: Staging,
    balances: Seq<BalanceEntry>,
    nonces: Seq<NonceEntry>,
    owner: PublicKey,
    outputs: Seq<Transfer>,
    n: int,
)
    ensures
        state.transferred(balances, nonces, owner, outputs, n) matches Ok(after)
            ==> after.topoheight == state.topoheight,
    decreases n,
{
    if n > 0 {
        lemma_transferred_topoheight(state, balances, nonces, owner, outputs, n - 1);
    }
}

/// Executing a transaction leaves the topoheight of the staging state as it was.
pub proof fn lemma_executed_topoheight(
    state: Staging,
    balances: Seq<BalanceEntry>,
    nonces: Seq<NonceEntry>,
    tx: Arc<Transaction>,
)
    ensures
        state.executed(balances, nonces, *tx) matches Ok(after) ==> after.topoheight
            == state.topoheight,
{
    match state.with_account(nonces, tx.owner) {
        Ok(staged) => {
            lemma_transferred_topoheight(
                staged,
                balances,
                nonces,
                tx.owner,
                tx.outputs(),
                tx.outputs().len() as int,
            );
        },
        Err(_) => {},
    }
}

/// Executing transactions leaves the topoheight of the staging state as it was.
pub proof fn lemma_all_executed_topoheight(
    state: Staging,
    balances: Seq<BalanceEntry>,
    nonces: Seq<NonceEntry>,
    txs: Seq<Arc<Transaction>>,
    n: int,
)
    ensures
        state.all_executed(balances, nonces, txs, n) matches Ok(after) ==> after.topoheight
            == state.topoheight,
    decreases n,
{
    if n > 0 {
        lemma_all_executed_topoheight(state, balances, nonces, txs, n - 1);
        match state.all_executed(balances, nonces, txs, n - 1) {
            Ok(before) => {
                lemma_executed_topoheight(before, balances, nonces, txs[n - 1]);
            },
            Err(_) => {},
        }
    }
}

/// Saving balances at a topoheight keeps the log ascending.
pub proof fn lemma_balances_saved_under(
    state: Staging,
    balances: Seq<BalanceEntry>,
    list: Seq<ReceiverBalance>,
    k: int,
)
    requires
        balances_under(balances, state.topoheight as int),
    ensures
        balances_ascend(state.balances_saved(balances, list, k)),
        forall|i: int|
            0 <= i < state.balances_saved(balances, list, k).len() ==> (
            #[trigger] state.balances_saved(balances, list, k)[i]).topoheight <= state.topoheight,
    decreases k,
{
    if k > 0 {
        lemma_balances_saved_under(state, balances, list, k - 1);
        let before = state.balances_saved(balances, list, k - 1);
        let now = state.balances_saved(balances, list, k);
        assert forall|i: int, j: int| 0 <= i <= j < now.len() implies (#[trigger] now[i]).topoheight
            <= (#[trigger] now[j]).topoheight by {
            if j < before.len() {
                assert(now[i] == before[i] && now[j] == before[j]);
            } else if i < before.len() {
                assert(now[i] == before[i]);
            }
        }
        assert forall|i: int| 0 <= i < now.len() implies (#[trigger] now[i]).topoheight
            <= state.topoheight by {
            if i < before.len() {
                assert(now[i] == before[i]);
            }
        }
    }
}

/// Saving nonces at a topoheight keeps the log ascending.
pub proof fn lemma_nonces_saved_under(state: Staging, nonces: Seq<NonceEntry>, k: int)
    requires
        nonces_under(nonces, state.topoheight as int),
    ensures
        nonces_ascend(state.nonces_saved(nonces, k)),
        forall|i: int|
            0 <= i < state.nonces_saved(nonces, k).len() ==> (#[trigger] state.nonces_saved(
                nonces,
                k,
            )[i]).topoheight <= state.topoheight,
    decreases k,
{
    if k > 0 {
        lemma_nonces_saved_under(state, nonces, k - 1);
        let before = state.nonces_saved(nonces, k - 1);
        let now = state.nonces_saved(nonces, k);
        assert forall|i: int, j: int| 0 <= i <= j < now.len() implies (#[trigger] now[i]).topoheight
            <= (#[trigger] now[j]).topoheight by {
            if j < before.len() {
                assert(now[i] == before[i] && now[j] == before[j]);
            } else if i < before.len() {
                assert(now[i] == before[i]);
            }
        }
        assert forall|i: int| 0 <= i < now.len() implies (#[trigger] now[i]).topoheight
            <= state.topoheight by {
            if i < before.len() {
                assert(now[i] == before[i]);
            }
        }
    }
}

/// Opening nonces at a topoheight keeps the log ascending.
pub proof fn lemma_nonces_opened_under(
    state: Staging,
    nonces: Seq<NonceEntry>,
    list: Seq<ReceiverBalance>,
    k: int,
)
    requires
        nonces_ascend(nonces),
        forall|i: int| 0 <= i < nonces.len() ==> (#[trigger] nonces[i]).topoheight <= state.topoheight,
    ensures
        nonces_ascend(state.nonces_opened(nonces, list, k)),
        forall|i: int|
            0 <= i < state.nonces_opened(nonces, list, k).len() ==> (#[trigger] state.nonces_opened(
                nonces,
                list,
                k,
            )[i]).topoheight <= state.topoheight,
    decreases k,
{
    if k > 0 {
        lemma_nonces_opened_under(state, nonces, list, k - 1);
        let before = state.nonces_opened(nonces, list, k - 1);
        let now = state.nonces_opened(nonces, list, k);
        assert forall|i: int, j: int| 0 <= i <= j < now.len() implies (#[trigger] now[i]).topoheight
            <= (#[trigger] now[j]).topoheight by {
            if j < before.len() {
                assert(now[i] == before[i] && now[j] == before[j]);
            } else if i < before.len() {
                assert(now[i] == before[i]);
            }
        }
        assert forall|i: int| 0 <= i < now.len() implies (#[trigger] now[i]).topoheight
            <= state.topoheight by {
            if i < before.len() {
                assert(now[i] == before[i]);
            }
        }
    }
}

/// Executing a block at a topoheight above every version of the logs leaves
/// logs that ascend, with no version above that topoheight.
pub proof fn lemma_block_executed_under(
    balances: Seq<BalanceEntry>,
    nonces: Seq<NonceEntry>,
    block: StoredBlock,
    topoheight: u64,
    reward: u64,
    dev_key: PublicKey,
)
    requires
        balances_under(balances, topoheight as int),
        nonces_under(nonces, topoheight as int),
        block_executed(balances, nonces, block, topoheight, reward, dev_key) is Ok,
    ensures
        balances_under(
            block_executed(balances, nonces, block, topoheight, reward, dev_key).unwrap().0,
            topoheight + 1,
        ),
        nonces_under(
            block_executed(balances, nonces, block, topoheight, reward, dev_key).unwrap().1,
            topoheight + 1,
        ),
{
    reveal(block_executed);
    let start = Staging::empty(topoheight, 0);
    lemma_all_executed_topoheight(start, balances, nonces, block.txs@, block.txs@.len() as int);
    let executed = start.all_executed(balances, nonces, block.txs@, block.txs@.len() as int).unwrap();
    let rewarded = executed.miner_rewarded(balances, block.block.miner, dev_key, reward).unwrap();
    assert(rewarded.topoheight == topoheight);
    let list = rewarded.merged(rewarded.assets.len() as int).unwrap();
    lemma_balances_saved_under(rewarded, balances, list, list.len() as int);
    lemma_nonces_saved_under(rewarded, nonces, rewarded.accounts.len() as int);
    lemma_nonces_opened_under(
        rewarded,
        rewarded.nonces_saved(nonces, rewarded.accounts.len() as int),
        list,
        list.len() as int,
    );
}

/// Whether every block of `order` is stored.
pub open spec fn entries_stored(c: Chain, order: Seq<TopoEntry>) -> bool {
    forall|x: int| 0 <= x < order.len() ==> c.has_block((#[trigger] order[x]).hash)
}

impl Blockchain {
    /// Orders the block `h` after `order` and executes it on the logs.
    /// Where it cannot be executed, the order, the logs and the moved nonces
    /// stay as they were.
    pub fn order_block(
        &self,
        storage: &Storage,
        order: &mut Vec<TopoEntry>,
        working: &mut Ledger,
        moved: &mut Vec<ExpectedNonce>,
        h: hash::Hash,
    ) -> (r: Result<(), BlockchainError>)
        requires
            storage@.has_block(h),
            entries_stored(storage@, old(order)@),
            balances_under(old(working).balances@, old(order)@.len() as int),
            nonces_under(old(working).nonces@, old(order)@.len() as int),
        ensures
            match r {
                Ok(()) => ordered_next(
                    storage@,
                    self.dev_key,
                    Reordered {
                        order: old(order)@,
                        balances: old(working).balances@,
                        nonces: old(working).nonces@,
                        moved: old(moved)@,
                    },
                    h,
                ) == Ok::<Reordered, BlockchainError>(
                    Reordered {
                        order: final(order)@,
                        balances: final(working).balances@,
                        nonces: final(working).nonces@,
                        moved: final(moved)@,
                    },
                ) && final(order)@ == old(order)@.push(next_entry(storage@, old(order)@, h))
                    && entries_stored(storage@, final(order)@) && balances_under(
                    final(working).balances@,
                    final(order)@.len() as int,
                ) && nonces_under(final(working).nonces@, final(order)@.len() as int),
                Err(e) => ordered_next(
                    storage@,
                    self.dev_key,
                    Reordered {
                        order: old(order)@,
                        balances: old(working).balances@,
                        nonces: old(working).nonces@,
                        moved: old(moved)@,
                    },
                    h,
                ) == Err::<Reordered, BlockchainError>(e),
            },
    {
        let ghost c = storage@;
        let place = match storage.find_block(&h) {
            Some(place) => place,
            None => {
                assert(false);
                0
            },
        };
        let t = order.len();
        let past: u64 = if t == 0 {
            0
        } else {
            order[t - 1].supply
        };
        let ghost before = order@;
        order.push(TopoEntry { hash: h, reward: 0, supply: 0 });
        proof {
            assert forall|x: int| 0 <= x <= t implies c.has_block((#[trigger] order@[x]).hash) by {
                if x < t {
                    assert(order@[x] == before[x]);
                }
            }
        }
        let side = side_at_place(storage, order, t);
        order.pop();
        proof {
            assert(order@ =~= before);
        }
        let reward = if t == 0 {
            0
        } else if side {
            get_side_block_reward(past)
        } else {
            get_block_reward(past)
        };
        let entry = TopoEntry { hash: h, reward, supply: past + reward };
        assert(entry == next_entry(c, before, h));
        proof {
            lemma_found(c, h);
        }
        let ghost balances0 = working.balances@;
        let ghost nonces0 = working.nonces@;
        match self.execute_block(working, &storage.blocks[place], t as u64, reward, moved) {
            Ok(()) => {},
            Err(e) => {
                return Err(e);
            },
        }
        proof {
            lemma_block_executed_under(
                balances0,
                nonces0,
                storage.blocks@[place as int],
                t as u64,
                reward,
                self.dev_key,
            );
        }
        order.push(entry);
        proof {
            assert forall|x: int| 0 <= x < order@.len() implies c.has_block(
                (#[trigger] order@[x]).hash,
            ) by {
                if x < t {
                    assert(order@[x] == before[x]);
                }
            }
        }
        Ok(())
    }
}

impl Blockchain {
    /// Orders and executes the blocks of `full` that do not stand at their
    /// place yet, on copies of the order and of the logs.
    pub fn reorder(&self, storage: &Storage, full: &Vec<hash::Hash>, base_topo: usize) -> (r:
        Result<(Vec<TopoEntry>, Ledger, Vec<ExpectedNonce>), BlockchainError>)
        requires
            storage@.parts_sound(),
            storage@.all_stored(full@),
            base_topo <= storage@.order.len(),
        ensures
            match r {
                Ok((order, ledger, moved)) => storage@.rebuilt(
                    self.dev_key,
                    full@,
                    base_topo as int,
                ) == Ok::<Reordered, BlockchainError>(
                    Reordered {
                        order: order@,
                        balances: ledger.balances@,
                        nonces: ledger.nonces@,
                        moved: moved@,
                    },
                ) && balances_under(ledger.balances@, order@.len() as int) && nonces_under(
                    ledger.nonces@,
                    order@.len() as int,
                ) && order@.len() == base_topo + full@.len() && entries_stored(storage@, order@)
                    && takes_order(
                    order@,
                    storage@.order,
                    full@,
                    base_topo as int,
                    full@.len() as int,
                ) && keeps_places(
                    order@,
                    storage@.order,
                    base_topo + storage@.kept(full@, base_topo as int, 0),
                ) && (crate::invariants::supply_chained(storage@.order)
                    ==> crate::invariants::supply_chained(order@)),
                Err(e) => storage@.rebuilt(self.dev_key, full@, base_topo as int) == Err::<
                    Reordered,
                    BlockchainError,
                >(e),
            },
    {
        reveal(Chain::rebuilt);
        let ghost c = storage@;
        let ghost bt = base_topo as int;
        let n = full.len();
        let mut kept: usize = 0;
        while kept < n && base_topo + kept < storage.order.len() && storage.order[base_topo
            + kept].hash == full[kept]
            invariant
                kept <= n,
                n == full.len(),
                base_topo + kept <= storage.order.len(),
                c == storage@,
                bt == base_topo as int,
                c.kept(full@, bt, 0) == c.kept(full@, bt, kept as int),
                forall|j: int| 0 <= j < kept ==> (#[trigger] c.order[bt + j]).hash == full@[j],
            decreases n - kept,
        {
            kept = kept + 1;
        }
        let d: usize = base_topo + kept;
        let mut order = copy_order(&storage.order, d);
        proof {
            assert(takes_order(order@, c.order, full@, bt, kept as int)) by {
                assert forall|j: int| 0 <= j < kept && j < full@.len() implies (#[trigger] order@[bt
                    + j]).hash == full@[j] by {
                    assert(c.order[bt + j].hash == full@[j]);
                }
            }
            if crate::invariants::supply_chained(c.order) {
                assert forall|t: int| 0 <= t < order@.len() implies (#[trigger] order@[t]).supply as int
                    == (if t == 0 {
                    0
                } else {
                    order@[t - 1].supply as int
                }) + order@[t].reward && order@[t].supply <= crate::config::MAX_SUPPLY by {
                    assert(order@[t] == c.order[t]);
                    if t > 0 {
                        assert(order@[t - 1] == c.order[t - 1]);
                    }
                }
            }
        }
        let mut working = copy_ledger(&storage.ledger);
        cut_balances(&mut working.balances, d as u64);
        cut_nonces(&mut working.nonces, d as u64);
        let mut moved: Vec<ExpectedNonce> = Vec::new();
        proof {
            lemma_balances_below(c.balances, d as int);
            lemma_nonces_below(c.nonces, d as int);
            assert forall|x: int| 0 <= x < order@.len() implies c.has_block(
                (#[trigger] order@[x]).hash,
            ) by {
                assert(c.has_block(c.order[x].hash));
            }
        }
        let mut k: usize = kept;
        while k < n
            invariant
                kept <= k <= n,
                n == full.len(),
                c == storage@,
                c.parts_sound(),
                c.all_stored(full@),
                order@.len() == base_topo + k,
                bt == base_topo as int,
                c.rebuilt(self.dev_key, full@, bt) == c.reordered(
                    self.dev_key,
                    full@,
                    k as int,
                    Reordered {
                        order: order@,
                        balances: working.balances@,
                        nonces: working.nonces@,
                        moved: moved@,
                    },
                ),
                balances_under(working.balances@, order@.len() as int),
                nonces_under(working.nonces@, order@.len() as int),
                entries_stored(c, order@),
                takes_order(order@, c.order, full@, bt, k as int),
                keeps_places(order@, c.order, bt + c.kept(full@, bt, 0)),
                bt + c.kept(full@, bt, 0) <= order@.len(),
                crate::invariants::supply_chained(c.order) ==> crate::invariants::supply_chained(
                    order@,
                ),
            decreases n - k,
        {
            assert(c.has_block(full@[k as int]));
            proof {
                let so_far = Reordered {
                    order: order@,
                    balances: working.balances@,
                    nonces: working.nonces@,
                    moved: moved@,
                };
                assert(c.reordered(self.dev_key, full@, k as int, so_far) == match ordered_next(
                    c,
                    self.dev_key,
                    so_far,
                    full@[k as int],
                ) {
                    Err(e) => Err::<Reordered, BlockchainError>(e),
                    Ok(next) => c.reordered(self.dev_key, full@, k + 1, next),
                });
            }
            let ghost before = order@;
            match self.order_block(storage, &mut order, &mut working, &mut moved, full[k]) {
                Ok(()) => {},
                Err(e) => {
                    return Err(e);
                },
            }
            proof {
                crate::invariants::lemma_takes_next(c, before, c.order, full@, bt, k as int);
            }
            k = k + 1;
        }
        Ok((order, working, moved))
    }
}


impl Blockchain {
    /// The difficulty and the stable height at a tip set.
    pub fn settle_tips(&self, storage: &Storage, tips: &Vec<hash::Hash>) -> (r: Result<
        (u64, u64),
        BlockchainError,
    >)
        requires
            storage@.wf_blocks(),
            storage@.all_stored(tips@),
        ensures
            r == storage@.settled(tips@),
    {
        reveal(Chain::settled);
        if tips.len() == 0 {
            return Err(BlockchainError::ExpectedTips);
        }
        let difficulty = self.get_difficulty_at_tips(storage, tips)?;
        match self.find_common_base(storage, tips) {
            Ok(base) => Ok((difficulty, base.1)),
            Err(e) => {
                assert(false);
                Err(e)
            },
        }
    }
}


/// Two chains with the same blocks find every block at the same place, and
/// are sound in their arenas together.
pub proof fn lemma_same_blocks(a: Chain, b: Chain)
    requires
        a.blocks == b.blocks,
    ensures
        a.hashes() == b.hashes(),
        forall|h: hash::Hash| #[trigger] a.index_of(h) == b.index_of(h),
        forall|h: hash::Hash| #[trigger] a.has_block(h) == b.has_block(h),
        forall|tips: Seq<hash::Hash>| #[trigger] a.all_stored(tips) == b.all_stored(tips),
        a.wf_blocks() == b.wf_blocks(),
{
    assert(a.hashes() =~= b.hashes());
    if a.wf_blocks() {
        lemma_same_blocks_wf(a, b);
    }
    if b.wf_blocks() {
        lemma_same_blocks_wf(b, a);
    }
    assert forall|tips: Seq<hash::Hash>| #[trigger] a.all_stored(tips) == b.all_stored(tips) by {
        if a.all_stored(tips) {
            assert forall|k: int| 0 <= k < tips.len() implies b.has_block(#[trigger] tips[k]) by {
                assert(a.has_block(tips[k]));
            }
        }
        if b.all_stored(tips) {
            assert forall|k: int| 0 <= k < tips.len() implies a.has_block(#[trigger] tips[k]) by {
                assert(b.has_block(tips[k]));
            }
        }
    }
}

proof fn lemma_same_blocks_wf(a: Chain, b: Chain)
    requires
        a.blocks == b.blocks,
        a.wf_blocks(),
    ensures
        b.wf_blocks(),
{
    assert(a.hashes() =~= b.hashes());
    assert forall|i: int| 0 <= i < b.blocks.len() implies (#[trigger] b.tips_at(i)).len()
        <= crate::config::TIPS_LIMIT by {
        assert(b.tips_at(i) == a.tips_at(i));
    }
    assert forall|i: int, k: int|
        0 <= i < b.blocks.len() && 0 <= k < b.tips_at(i).len() implies 0 <= (#[trigger] b.parent(
            i,
            k,
        )) < i && b.blocks[b.parent(i, k)].block.timestamp <= b.blocks[i].block.timestamp by {
        assert(b.tips_at(i) == a.tips_at(i));
        assert(b.parent(i, k) == a.parent(i, k));
    }
    assert forall|i: int| 0 <= i < b.blocks.len() implies (#[trigger] b.blocks[i]).block.height as int
        == b.height_at_tips(b.tips_at(i)) by {
        assert(b.tips_at(i) == a.tips_at(i));
        assert(a.blocks[i].block.height as int == a.height_at_tips(a.tips_at(i)));
        assert(b.places(b.tips_at(i)) =~= a.places(a.tips_at(i)));
    }
}

impl Chain {
    /// The pool after the block is admitted: without its transactions, and
    /// without those that the moved nonces have used up or that no longer verify.
    pub open spec fn pool_after(
        self,
        pool: Seq<std::sync::Arc<Transaction>>,
        block: CompleteBlock,
        moved: Seq<ExpectedNonce>,
    ) -> Seq<std::sync::Arc<Transaction>> {
        let left = without_txs(pool, block.block.txs_hashes@, block.block.txs_hashes@.len() as int);
        cleaned(self, left, moved, left.len() as int).0
    }

    /// The topoheight of the common base past which admitting `block`
    /// rebuilds the order.
    pub open spec fn reorder_base(self, dev_key: PublicKey, block: CompleteBlock, difficulty: u64) -> int {
        match self.prepared(dev_key, block, difficulty) {
            Err(_) => 0,
            Ok(ready) => ready.base_topo,
        }
    }

    /// The topoheight of the first block that admitting `block` orders anew.
    pub open spec fn first_ordered(self, dev_key: PublicKey, block: CompleteBlock, difficulty: u64) -> int {
        match self.prepared(dev_key, block, difficulty) {
            Err(_) => 0,
            Ok(ready) => ready.base_topo + ready.chain.kept(ready.full, ready.base_topo, 0),
        }
    }
}

/// What is worked out for an admitted block before the chain takes it in.
pub struct Plan {
    pub tips: Vec<hash::Hash>,
    pub best: hash::Hash,
    pub base_topo: usize,
    pub full: Vec<hash::Hash>,
    pub order: Vec<TopoEntry>,
    pub ledger: Ledger,
    pub moved: Vec<ExpectedNonce>,
    pub first: usize,
}

impl Plan {
    /// The plan as a mathematical value, for the chain it was made on.
    pub open spec fn on(&self, chain: Chain) -> crate::integrate::Prepared {
        crate::integrate::Prepared {
            chain,
            tips: self.tips@,
            best: self.best,
            base_topo: self.base_topo as int,
            full: self.full@,
            after: Reordered {
                order: self.order@,
                balances: self.ledger.balances@,
                nonces: self.ledger.nonces@,
                moved: self.moved@,
            },
        }
    }
}

/// What holds of a plan made on the chain `now`, which is the chain `before`
/// with the admitted block stored.
#[verifier::opaque]
pub open spec fn plan_holds(before: Chain, now: Chain, ready: crate::integrate::Prepared, first: int) -> bool {
    &&& now.blocks.len() > 0
    &&& now == before.pushed(now.blocks.last())
    &&& before.fits(now.blocks.last())
    &&& ready.chain == now
    &&& ready.tips.len() > 0
    &&& ready.tips.last() == now.blocks.last().hash
    &&& ready.tips == tips_without(
        before.tips,
        now.blocks.last().block.tips@,
        before.tips.len() as int,
    ).push(now.blocks.last().hash)
    &&& now.all_stored(ready.tips)
    &&& now.has_block(ready.best)
    &&& ready.full.len() > 0
    &&& 0 <= ready.base_topo <= now.order.len()
    &&& ready.after.order.len() == ready.base_topo + ready.full.len()
    &&& entries_stored(now, ready.after.order)
    &&& balances_under(ready.after.balances, ready.after.order.len() as int)
    &&& nonces_under(ready.after.nonces, ready.after.order.len() as int)
    &&& first == ready.base_topo + now.kept(ready.full, ready.base_topo, 0)
    &&& ready.base_topo <= first <= ready.after.order.len()
    &&& keeps_places(ready.after.order, before.order, first)
    &&& (before.wf() ==> {
        &&& planned_orderly(now, ready.tips, ready.best, ready.base_topo, ready.full)
        &&& takes_order(
            ready.after.order,
            before.order,
            ready.full,
            ready.base_topo,
            ready.full.len() as int,
        )
        &&& crate::invariants::supply_chained(ready.after.order)
        &&& ready.tips.no_duplicates()
    })
}

/// The tip set that a stored block joins is stored, and without repetition
/// where the chain was sound.
pub proof fn lemma_joined_tips(c: Chain, block: StoredBlock, parents: Seq<hash::Hash>)
    requires
        c.parts_sound(),
        c.fits(block),
    ensures
        c.pushed(block).all_stored(
            tips_without(c.tips, parents, c.tips.len() as int).push(block.hash),
        ),
        c.wf() ==> tips_without(c.tips, parents, c.tips.len() as int).push(
            block.hash,
        ).no_duplicates(),
{
    let c1 = c.pushed(block);
    let h = block.hash;
    let kept = tips_without(c.tips, parents, c.tips.len() as int);
    let tips = kept.push(h);
    lemma_pushed(c, block);
    lemma_tips_without(c.tips, parents, c.tips.len() as int);
    assert forall|x: int| 0 <= x < tips.len() implies c1.has_block(#[trigger] tips[x]) by {
        if x < kept.len() {
            assert(c.tips.contains(kept[x]));
            let y = choose|y: int| 0 <= y < c.tips.len() && c.tips[y] == kept[x];
            assert(c1.has_block(c1.tips[y]));
        }
    }
    if c.wf() {
        crate::invariants::lemma_tips_without_no_duplicates(c.tips, parents, c.tips.len() as int);
        assert(!kept.contains(h)) by {
            if kept.contains(h) {
                let x = choose|x: int| 0 <= x < kept.len() && kept[x] == h;
                assert(c.tips.contains(kept[x]));
                let y = choose|y: int| 0 <= y < c.tips.len() && c.tips[y] == kept[x];
                assert(c.has_block(c.tips[y]));
            }
        }
        crate::invariants::lemma_push_no_duplicates(kept, h);
    }
}

/// What holds of a plan that was made holds of it.
pub proof fn lemma_plan_holds(before: Chain, now: Chain, ready: crate::integrate::Prepared, first: int)
    requires
        now.blocks.len() > 0,
        now == before.pushed(now.blocks.last()),
        before.fits(now.blocks.last()),
        before.parts_sound(),
        ready.chain == now,
        ready.tips.len() > 0,
        ready.tips.last() == now.blocks.last().hash,
        ready.tips == tips_without(
            before.tips,
            now.blocks.last().block.tips@,
            before.tips.len() as int,
        ).push(now.blocks.last().hash),
        now.all_stored(ready.tips),
        now.has_block(ready.best),
        ready.full.len() > 0,
        0 <= ready.base_topo <= now.order.len(),
        ready.after.order.len() == ready.base_topo + ready.full.len(),
        entries_stored(now, ready.after.order),
        balances_under(ready.after.balances, ready.after.order.len() as int),
        nonces_under(ready.after.nonces, ready.after.order.len() as int),
        first == ready.base_topo + now.kept(ready.full, ready.base_topo, 0),
        first <= ready.after.order.len(),
        keeps_places(ready.after.order, now.order, first),
        planned_orderly(now, ready.tips, ready.best, ready.base_topo, ready.full),
        takes_order(
            ready.after.order,
            now.order,
            ready.full,
            ready.base_topo,
            ready.full.len() as int,
        ),
        crate::invariants::supply_chained(now.order) ==> crate::invariants::supply_chained(
            ready.after.order,
        ),
        before.wf() ==> ready.tips.no_duplicates(),
    ensures
        plan_holds(before, now, ready, first),
{
    reveal(plan_holds);
    crate::invariants::lemma_kept(now, ready.full, ready.base_topo, 0);
    if before.wf() {
        crate::invariants::lemma_wf_order_parts(before);
    }
}

impl Blockchain {
    /// Stores an admitted block and works out the order rebuilt for it, on
    /// copies of the order and of the logs. Where that cannot be done the
    /// store stays as it was.
    pub fn prepare(&self, storage: &mut Storage, block: CompleteBlock, difficulty: u64) -> (r:
        Result<Plan, BlockchainError>)
        requires
            old(storage)@.parts_sound(),
            old(storage)@.fits(record(block, difficulty, 0)),
        ensures
            match r {
                Ok(plan) => old(storage)@.prepared(self.dev_key, block, difficulty) == Ok::<
                    crate::integrate::Prepared,
                    BlockchainError,
                >(plan.on(final(storage)@)) && final(storage)@.parts_sound() && plan_holds(
                    old(storage)@,
                    final(storage)@,
                    plan.on(final(storage)@),
                    plan.first as int,
                ),
                Err(e) => old(storage)@.prepared(self.dev_key, block, difficulty) == Err::<
                    crate::integrate::Prepared,
                    BlockchainError,
                >(e) && final(storage)@ == old(storage)@,
            },
    {
        reveal(Chain::prepared);
        let ghost c = storage@;
        let h = block.hash;
        let ghost given = block;
        match self.store_block(storage, block, difficulty) {
            Ok(()) => {},
            Err(e) => {
                return Err(e);
            },
        }
        let ghost c1 = storage@;
        proof {
            reveal(Chain::cumulative_for);
        }
        let last = storage.blocks.len() - 1;
        let tips = self.join_tips(&storage.tips, &storage.blocks[last].block.tips, h);
        proof {
            lemma_joined_tips(c, c1.blocks.last(), given.block.tips@);
        }
        let (best, base_topo, full) = match self.plan_order(storage, &tips) {
            Ok(plan) => plan,
            Err(e) => {
                storage.blocks.pop();
                proof {
                    assert(storage.blocks@ =~= c.blocks);
                }
                return Err(e);
            },
        };
        let (order, ledger, moved) = match self.reorder(storage, &full, base_topo) {
            Ok(rebuilt) => rebuilt,
            Err(e) => {
                storage.blocks.pop();
                proof {
                    assert(storage.blocks@ =~= c.blocks);
                }
                return Err(e);
            },
        };
        let first = self.first_moved(storage, &full, base_topo);
        let plan = Plan { tips, best, base_topo, full, order, ledger, moved, first };
        proof {
            lemma_plan_holds(c, c1, plan.on(c1), first as int);
        }
        Ok(plan)
    }

    /// Takes in the order, the logs and the tip set of a plan, with the
    /// difficulty and the stable height at the tip set. Where those cannot
    /// be given the block that the plan was made for is removed again and
    /// the store is as it was before.
    fn finish(
        &mut self,
        storage: &mut Storage,
        plan: Plan,
        block_height: u64,
        before: Ghost<Chain>,
    ) -> (r: Result<(Vec<ExpectedNonce>, usize), BlockchainError>)
        requires
            old(storage)@.parts_sound(),
            before@.sound(),
            plan_holds(before@, old(storage)@, plan.on(old(storage)@), plan.first as int),
            block_height == old(storage)@.blocks.last().block.height,
        ensures
            final(storage)@.sound(),
            before@.wf() ==> final(storage)@.wf(),
            match r {
                Ok((moved, first)) => match plan.on(old(storage)@).installed().settled(plan.tips@) {
                    Ok((difficulty, stable_height)) => final(storage)@ == (Chain {
                        tips: plan.tips@,
                        top_height: if block_height > before@.top_height {
                            block_height
                        } else {
                            before@.top_height
                        },
                        ..plan.on(old(storage)@).installed()
                    }) && *final(self) == (Blockchain {
                        height: final(storage)@.top_height,
                        topoheight: (plan.order@.len() - 1) as u64,
                        stable_height,
                        difficulty,
                        ..*old(self)
                    }) && moved@ == plan.moved@ && first == plan.first,
                    Err(_) => false,
                },
                Err(e) => plan.on(old(storage)@).installed().settled(plan.tips@) == Err::<
                    (u64, u64),
                    BlockchainError,
                >(e) && final(storage)@ == before@ && *final(self) == *old(self),
            },
    {
        reveal(plan_holds);
        let ghost c1 = storage@;
        let ghost ready = plan.on(c1);
        let Plan { tips, best, base_topo, full, order, ledger, moved, first } = plan;
        let mut order = order;
        let mut ledger = ledger;
        core::mem::swap(&mut storage.order, &mut order);
        core::mem::swap(&mut storage.ledger, &mut ledger);
        let ghost c2 = storage@;
        proof {
            assert(c2 == ready.installed());
            lemma_same_blocks(c1, c2);
        }
        let (next_difficulty, stable_height) = match self.settle_tips(storage, &tips) {
            Ok(settled) => settled,
            Err(e) => {
                core::mem::swap(&mut storage.order, &mut order);
                core::mem::swap(&mut storage.ledger, &mut ledger);
                storage.blocks.pop();
                proof {
                    assert(storage.blocks@ =~= before@.blocks);
                }
                return Err(e);
            },
        };
        let top = if block_height > storage.top_height {
            block_height
        } else {
            storage.top_height
        };
        let ghost kept_tips = tips@;
        storage.tips = tips;
        storage.top_height = top;
        self.height = top;
        self.topoheight = (storage.order.len() - 1) as u64;
        self.stable_height = stable_height;
        self.difficulty = next_difficulty;
        proof {
            lemma_same_blocks(c2, storage@);
            assert(storage@.order_stored()) by {
                assert forall|t: int| 0 <= t < storage@.order.len() implies storage@.has_block(
                    (#[trigger] storage@.order[t]).hash,
                ) by {
                    assert(c1.has_block(storage@.order[t].hash));
                }
            }
            assert(storage@.tips_stored()) by {
                assert forall|k: int| 0 <= k < storage@.tips.len() implies storage@.has_block(
                    #[trigger] storage@.tips[k],
                ) by {
                    assert(c2.has_block(kept_tips[k]));
                }
            }
            crate::invariants::lemma_childless_pushed(before@, c1.blocks.last());
            crate::rewind::lemma_same_childless(c1, storage@, c1.blocks.len() as int);
            crate::rewind::lemma_same_highest(c1, storage@, c1.blocks.len() as int);
            if before@.wf() {
                crate::invariants::lemma_block_added(
                    before@,
                    c1.blocks.last(),
                    ready.tips,
                    ready.best,
                    ready.base_topo,
                    ready.full,
                    storage@,
                );
            }
        }
        Ok((moved, first))
    }

    /// Admits a block at the time `now`: checks it, stores it, rebuilds the
    /// order past the common base of the new tip set, executes the blocks
    /// that moved, joins the block to the tip set and cleans the pool. Where
    /// the block is refused, or cannot be taken in, nothing changes.
    pub fn add_new_block_at(
        &mut self,
        storage: &mut Storage,
        mempool: &mut Mempool,
        block: CompleteBlock,
        now: u128,
    ) -> (r: Result<Vec<ChainEvent>, BlockchainError>)
        requires
            old(storage)@.sound(),
        ensures
            final(storage)@.sound(),
            old(storage)@.wf() ==> final(storage)@.wf(),
            match r {
                Ok(events) => match old(storage)@.admission(*old(self), block, now) {
                    Ok(difficulty) => match old(storage)@.integrated(
                        *old(self),
                        block,
                        difficulty,
                    ) {
                        Ok((chain, node, moved)) => final(storage)@ == chain && *final(self)
                            == node && final(mempool)@ == chain.pool_after(
                            old(mempool)@,
                            block,
                            moved,
                        ) && events@ == chain.ordered_events(
                            old(storage)@.first_ordered(old(self).dev_key, block, difficulty),
                            chain.order.len() as int,
                            node.height,
                        ).push(ChainEvent::NewBlock { hash: block.hash }) && keeps_places(
                            chain.order,
                            old(storage)@.order,
                            old(storage)@.first_ordered(old(self).dev_key, block, difficulty),
                        ) && old(storage)@.reorder_base(old(self).dev_key, block, difficulty)
                            <= old(storage)@.first_ordered(old(self).dev_key, block, difficulty)
                            && chain.tips == old(storage)@.next_tips(block) && chain.top_height == (
                        if block.block.height > old(storage)@.top_height {
                            block.block.height
                        } else {
                            old(storage)@.top_height
                        }) && node.height == chain.top_height,
                        Err(_) => false,
                    },
                    Err(_) => false,
                },
                Err(e) => final(storage)@ == old(storage)@ && *final(self) == *old(self)
                    && final(mempool)@ == old(mempool)@ && match old(storage)@.admission(
                    *old(self),
                    block,
                    now,
                ) {
                    Ok(difficulty) => old(storage)@.integrated(*old(self), block, difficulty)
                        == Err::<(Chain, Blockchain, Seq<ExpectedNonce>), BlockchainError>(e),
                    Err(refusal) => refusal == e,
                },
            },
    {
        reveal(Chain::integrated);
        let ghost c = storage@;
        let ghost node = *self;
        let difficulty = self.check_block(storage, &block, now)?;
        proof {
            lemma_admitted(c, node, block, now);
        }
        let h = block.hash;
        let block_height = block.block.height;
        let plan = match self.prepare(storage, block, difficulty) {
            Ok(plan) => plan,
            Err(e) => {
                return Err(e);
            },
        };
        let ghost c1 = storage@;
        let ghost ready = plan.on(c1);
        proof {
            reveal(plan_holds);
            reveal(Chain::prepared);
            assert(c1.blocks.last().block.height == block_height);
        }
        let (moved, first) = match self.finish(storage, plan, block_height, Ghost(c)) {
            Ok(done) => done,
            Err(e) => {
                return Err(e);
            },
        };
        let n = storage.blocks.len();
        proof {
            assert(storage@.blocks.last().block.txs_hashes@ == block.block.txs_hashes@) by {
                reveal(Chain::prepared);
            }
        }
        mempool.remove_txs(&storage.blocks[n - 1].block.txs_hashes);
        mempool.clean_up(storage, &moved);
        Ok(self.block_events(storage, first, h))
    }

    /// The topoheight of the first block of `full` that does not stand at
    /// its place of the order yet.
    pub fn first_moved(&self, storage: &Storage, full: &Vec<hash::Hash>, base_topo: usize) -> (first:
        usize)
        requires
            base_topo <= storage@.order.len(),
        ensures
            first as int == base_topo + storage@.kept(full@, base_topo as int, 0),
            first <= storage@.order.len(),
            first <= base_topo + full@.len(),
    {
        let n = full.len();
        let mut kept: usize = 0;
        while kept < n && base_topo + kept < storage.order.len() && storage.order[base_topo
            + kept].hash == full[kept]
            invariant
                kept <= n,
                n == full.len(),
                base_topo + kept <= storage.order.len(),
                storage@.kept(full@, base_topo as int, 0) == storage@.kept(
                    full@,
                    base_topo as int,
                    kept as int,
                ),
            decreases n - kept,
        {
            kept = kept + 1;
        }
        base_topo + kept
    }

    /// Admits a block at the present time of the system clock: what
    /// [`Self::add_new_block_at`] does at some time.
    pub fn add_new_block_for_storage(
        &mut self,
        storage: &mut Storage,
        mempool: &mut Mempool,
        block: CompleteBlock,
    ) -> (r: Result<Vec<ChainEvent>, BlockchainError>)
        requires
            old(storage)@.sound(),
        ensures
            final(storage)@.sound(),
            old(storage)@.wf() ==> final(storage)@.wf(),
            exists|now: u128| #[trigger]
                added_at(
                    old(storage)@,
                    *old(self),
                    old(mempool)@,
                    block,
                    now,
                    r,
                    final(storage)@,
                    *final(self),
                    final(mempool)@,
                ),
    {
        let now = get_current_timestamp();
        let ghost c = storage@;
        let ghost node = *self;
        let ghost pool = mempool@;
        let r = self.add_new_block_at(storage, mempool, block, now);
        proof {
            assert(added_at(c, node, pool, block, now, r, storage@, *self, mempool@));
        }
        r
    }
}

/// Whether admitting `block` at the time `now` to the chain `c`, with the
/// coordinator `node` and the pool `pool`, gives `r` and leaves the chain
/// `after`, the coordinator `node_after` and the pool `pool_left`: a block
/// that is admitted and taken in leaves what integrating it gives, the pool
/// cleaned, and tells of every block ordered anew and then of itself; a block
/// that is refused, or cannot be taken in, leaves everything as it was and
/// gives the reason.
pub open spec fn added_at(
    c: Chain,
    node: Blockchain,
    pool: Seq<Arc<Transaction>>,
    block: CompleteBlock,
    now: u128,
    r: Result<Vec<ChainEvent>, BlockchainError>,
    after: Chain,
    node_after: Blockchain,
    pool_left: Seq<Arc<Transaction>>,
) -> bool {
    match r {
        Ok(events) => match c.admission(node, block, now) {
            Ok(difficulty) => match c.integrated(node, block, difficulty) {
                Ok((chain, next, moved)) => after == chain && node_after == next && pool_left
                    == chain.pool_after(pool, block, moved) && events@ == chain.ordered_events(
                    c.first_ordered(node.dev_key, block, difficulty),
                    chain.order.len() as int,
                    next.height,
                ).push(ChainEvent::NewBlock { hash: block.hash }),
                Err(_) => false,
            },
            Err(_) => false,
        },
        Err(e) => after == c && node_after == node && pool_left == pool && match c.admission(
            node,
            block,
            now,
        ) {
            Ok(difficulty) => c.integrated(node, block, difficulty) == Err::<
                (Chain, Blockchain, Seq<ExpectedNonce>),
                BlockchainError,
            >(e),
            Err(refusal) => refusal == e,
        },
    }
}

} // verus!
