//! Rewinding undoes the admission of a block that was ordered last.

use vstd::prelude::*;
use std::sync::Arc;
use crate::block::CompleteBlock;
use crate::blockchain::Blockchain;
use crate::chain_state::{ReceiverBalance, Staging};
use crate::coordinator::{
    balances_under,
    lemma_all_executed_topoheight,
    nonces_under,
};
use crate::error::BlockchainError;
use crate::executor::block_executed;
use crate::hash;
use crate::hash::PublicKey;
use crate::integrate::{lemma_pushed, next_entry, ordered_next, record, Reordered};
use crate::invariants::{lemma_kept, lemma_wf_order_parts, supply_chained};
use crate::ledger::{
    balances_ascend,
    balances_below,
    lemma_balances_below,
    lemma_nonces_below,
    nonces_ascend,
    nonces_below,
};
use crate::rewind::{lemma_same_childless, lemma_same_highest};
use crate::storage::{lemma_position, BalanceEntry, Chain, NonceEntry, StoredBlock};
use crate::transaction::Transaction;

verus! {

/// Whether `log` is `before` followed by versions at topoheight `t`.
pub open spec fn balances_extended(log: Seq<BalanceEntry>, before: Seq<BalanceEntry>, t: u64) -> bool {
    &&& before.len() <= log.len()
    &&& forall|i: int| 0 <= i < before.len() ==> (#[trigger] log[i]) == before[i]
    &&& forall|i: int| before.len() <= i < log.len() ==> (#[trigger] log[i]).topoheight == t
}

/// Whether `log` is `before` followed by versions at topoheight `t`.
pub open spec fn nonces_extended(log: Seq<NonceEntry>, before: Seq<NonceEntry>, t: u64) -> bool {
    &&& before.len() <= log.len()
    &&& forall|i: int| 0 <= i < before.len() ==> (#[trigger] log[i]) == before[i]
    &&& forall|i: int| before.len() <= i < log.len() ==> (#[trigger] log[i]).topoheight == t
}

/// Saving balances extends the log with versions at the topoheight of the
/// staging state.
pub proof fn lemma_balances_saved_extends(
    state: Staging,
    balances: Seq<BalanceEntry>,
    list: Seq<ReceiverBalance>,
    k: int,
)
    ensures
        balances_extended(state.balances_saved(balances, list, k), balances, state.topoheight),
    decreases k,
{
    if k > 0 {
        lemma_balances_saved_extends(state, balances, list, k - 1);
        let before = state.balances_saved(balances, list, k - 1);
        let now = state.balances_saved(balances, list, k);
        assert forall|i: int| 0 <= i < balances.len() implies (#[trigger] now[i]) == balances[i] by {
            assert(now[i] == before[i]);
        }
        assert forall|i: int| balances.len() <= i < now.len() implies (#[trigger] now[i]).topoheight
            == state.topoheight by {
            if i < before.len() {
                assert(now[i] == before[i]);
            }
        }
    }
}

/// Saving nonces extends the log with versions at the topoheight of the
/// staging state.
pub proof fn lemma_nonces_saved_extends(state: Staging, nonces: Seq<NonceEntry>, k: int)
    ensures
        nonces_extended(state.nonces_saved(nonces, k), nonces, state.topoheight),
    decreases k,
{
    if k > 0 {
        lemma_nonces_saved_extends(state, nonces, k - 1);
        let before = state.nonces_saved(nonces, k - 1);
        let now = state.nonces_saved(nonces, k);
        assert forall|i: int| 0 <= i < nonces.len() implies (#[trigger] now[i]) == nonces[i] by {
            assert(now[i] == before[i]);
        }
        assert forall|i: int| nonces.len() <= i < now.len() implies (#[trigger] now[i]).topoheight
            == state.topoheight by {
            if i < before.len() {
                assert(now[i] == before[i]);
            }
        }
    }
}

/// Opening nonces extends the log with versions at the topoheight of the
/// staging state.
pub proof fn lemma_nonces_opened_extends(
    state: Staging,
    nonces: Seq<NonceEntry>,
    list: Seq<ReceiverBalance>,
    k: int,
)
    ensures
        nonces_extended(state.nonces_opened(nonces, list, k), nonces, state.topoheight),
    decreases k,
{
    if k > 0 {
        lemma_nonces_opened_extends(state, nonces, list, k - 1);
        let before = state.nonces_opened(nonces, list, k - 1);
        let now = state.nonces_opened(nonces, list, k);
        assert forall|i: int| 0 <= i < nonces.len() implies (#[trigger] now[i]) == nonces[i] by {
            assert(now[i] == before[i]);
        }
        assert forall|i: int| nonces.len() <= i < now.len() implies (#[trigger] now[i]).topoheight
            == state.topoheight by {
            if i < before.len() {
                assert(now[i] == before[i]);
            }
        }
    }
}

/// Executing a block extends the logs with versions at its topoheight.
pub proof fn lemma_block_executed_extends(
    balances: Seq<BalanceEntry>,
    nonces: Seq<NonceEntry>,
    block: StoredBlock,
    topoheight: u64,
    reward: u64,
    dev_key: PublicKey,
)
    requires
        block_executed(balances, nonces, block, topoheight, reward, dev_key) is Ok,
    ensures
        balances_extended(
            block_executed(balances, nonces, block, topoheight, reward, dev_key).unwrap().0,
            balances,
            topoheight,
        ),
        nonces_extended(
            block_executed(balances, nonces, block, topoheight, reward, dev_key).unwrap().1,
            nonces,
            topoheight,
        ),
{
    reveal(block_executed);
    let start = Staging::empty(topoheight, 0);
    lemma_all_executed_topoheight(start, balances, nonces, block.txs@, block.txs@.len() as int);
    let executed = start.all_executed(balances, nonces, block.txs@, block.txs@.len() as int).unwrap();
    let rewarded = executed.miner_rewarded(balances, block.block.miner, dev_key, reward).unwrap();
    assert(rewarded.topoheight == topoheight);
    let list = rewarded.merged(rewarded.assets.len() as int).unwrap();
    lemma_balances_saved_extends(rewarded, balances, list, list.len() as int);
    let saved = rewarded.nonces_saved(nonces, rewarded.accounts.len() as int);
    lemma_nonces_saved_extends(rewarded, nonces, rewarded.accounts.len() as int);
    lemma_nonces_opened_extends(rewarded, saved, list, list.len() as int);
    let opened = rewarded.nonces_opened(saved, list, list.len() as int);
    assert forall|i: int| 0 <= i < nonces.len() implies (#[trigger] opened[i]) == nonces[i] by {
        assert(opened[i] == saved[i]);
    }
    assert forall|i: int| nonces.len() <= i < opened.len() implies (#[trigger] opened[i]).topoheight
        == topoheight by {
        if i < saved.len() {
            assert(opened[i] == saved[i]);
        }
    }
}

/// Cutting a log that was extended at a topoheight, under that topoheight,
/// gives back the log it was extended from.
pub proof fn lemma_cut_balances_back(log: Seq<BalanceEntry>, before: Seq<BalanceEntry>, t: u64)
    requires
        balances_under(before, t as int),
        balances_extended(log, before, t),
    ensures
        log.take(balances_below(log, t as int)) == before,
{
    assert(balances_ascend(log)) by {
        assert forall|i: int, j: int| 0 <= i <= j < log.len() implies (#[trigger] log[i]).topoheight
            <= (#[trigger] log[j]).topoheight by {
            if j < before.len() {
                assert(log[i] == before[i] && log[j] == before[j]);
            } else if i < before.len() {
                assert(log[i] == before[i]);
            }
        }
    }
    lemma_balances_below(log, t as int);
    let cut = balances_below(log, t as int);
    if cut < before.len() {
        assert(log[cut] == before[cut]);
    }
    if cut > before.len() {
        assert(log[before.len() as int].topoheight == t);
    }
    assert(log.take(cut) =~= before);
}

/// Cutting a log that was extended at a topoheight, under that topoheight,
/// gives back the log it was extended from.
pub proof fn lemma_cut_nonces_back(log: Seq<NonceEntry>, before: Seq<NonceEntry>, t: u64)
    requires
        nonces_under(before, t as int),
        nonces_extended(log, before, t),
    ensures
        log.take(nonces_below(log, t as int)) == before,
{
    assert(nonces_ascend(log)) by {
        assert forall|i: int, j: int| 0 <= i <= j < log.len() implies (#[trigger] log[i]).topoheight
            <= (#[trigger] log[j]).topoheight by {
            if j < before.len() {
                assert(log[i] == before[i] && log[j] == before[j]);
            } else if i < before.len() {
                assert(log[i] == before[i]);
            }
        }
    }
    lemma_nonces_below(log, t as int);
    let cut = nonces_below(log, t as int);
    if cut < before.len() {
        assert(log[cut] == before[cut]);
    }
    if cut > before.len() {
        assert(log[before.len() as int].topoheight == t);
    }
    assert(log.take(cut) =~= before);
}

/// Where every block ordered under `n` is stored under `cut`, none of them
/// is the first stored at `cut` or after.
pub proof fn lemma_first_from_none(c: Chain, cut: int, n: int)
    requires
        0 <= n <= c.order.len(),
        forall|t: int| 0 <= t < n ==> c.index_of((#[trigger] c.order[t]).hash) < cut,
    ensures
        c.first_from(cut, n) == n,
    decreases n,
{
    if n > 0 {
        lemma_first_from_none(c, cut, n - 1);
        assert(c.index_of(c.order[n - 1].hash) < cut);
    }
}

/// The chain after a block is stored, ordered last and executed: what
/// rewinding one topoheight is asked to undo.
pub open spec fn ordered_last(c: Chain, block: StoredBlock, after: Chain, dev_key: PublicKey) -> bool {
    &&& after.blocks == c.blocks.push(block)
    &&& after.assets == c.assets
    &&& ordered_next(
        c.pushed(block),
        dev_key,
        Reordered { order: c.order, balances: c.balances, nonces: c.nonces, moved: Seq::empty() },
        block.hash,
    ) matches Ok(next) && after.order == next.order && after.balances == next.balances
        && after.nonces == next.nonces
}

/// Rewinding by one topoheight undoes the admission of a block that was
/// ordered last: where a sound chain takes a block in at the end of its
/// order, rewinding the result by one gives back that chain: its blocks, its
/// order, its logs, its tip set and its heights.
pub proof fn lemma_rewind_undoes_block(c: Chain, block: StoredBlock, after: Chain, dev_key: PublicKey)
    requires
        c.wf(),
        c.fits(block),
        c.order.len() >= 1,
        c.order.len() < u64::MAX,
        ordered_last(c, block, after, dev_key),
    ensures
        after.popped(1) == Ok::<Chain, BlockchainError>(c),
{
    let n = c.order.len() as int;
    let size = c.blocks.len() as int;
    let c1 = c.pushed(block);
    let start = Reordered {
        order: c.order,
        balances: c.balances,
        nonces: c.nonces,
        moved: Seq::empty(),
    };
    let next = ordered_next(c1, dev_key, start, block.hash).unwrap();
    let entry = next_entry(c1, c.order, block.hash);
    lemma_pushed(c, block);
    assert(after.hashes() =~= c1.hashes());
    lemma_block_executed_extends(
        c.balances,
        c.nonces,
        c1.block(block.hash),
        n as u64,
        entry.reward,
        dev_key,
    );
    assert(after.order == c.order.push(entry));
    assert(after.order[n].hash == block.hash);
    assert(after.index_of(block.hash) == size);
    assert(after.staying(1) == n);
    assert(after.lowest_place(n, n + 1) == crate::rewind::lower(
        after.lowest_place(n, n),
        after.index_of(after.order[n].hash),
    ));
    assert(after.removal_place(1) == size);
    assert forall|t: int| 0 <= t < n implies after.index_of((#[trigger] after.order[t]).hash)
        < size by {
        assert(after.order[t] == c.order[t]);
        assert(c.has_block(c.order[t].hash));
        lemma_position(c.hashes(), c.order[t].hash);
        if c.order[t].hash == block.hash {
        }
    }
    lemma_first_from_none(after, size, n);
    assert(after.left(1) == n);
    let rest = after.cut_to(size);
    assert(rest.blocks =~= c.blocks);
    assert(after.order.take(n) =~= c.order);
    assert(balances_under(c.balances, n));
    assert(nonces_under(c.nonces, n));
    lemma_cut_balances_back(after.balances, c.balances, n as u64);
    lemma_cut_nonces_back(after.nonces, c.nonces, n as u64);
    lemma_same_childless(rest, c, size);
    lemma_same_highest(rest, c, size);
}


/// Cutting a log that holds only versions under a topoheight, under that
/// topoheight, keeps all of it.
pub proof fn lemma_cut_keeps_all(balances: Seq<BalanceEntry>, nonces: Seq<NonceEntry>, t: int)
    requires
        balances_under(balances, t),
        nonces_under(nonces, t),
    ensures
        balances.take(balances_below(balances, t)) == balances,
        nonces.take(nonces_below(nonces, t)) == nonces,
{
    lemma_balances_below(balances, t);
    lemma_nonces_below(nonces, t);
    let b = balances_below(balances, t);
    if b < balances.len() {
        assert(balances[b].topoheight >= t);
    }
    let n = nonces_below(nonces, t);
    if n < nonces.len() {
        assert(nonces[n].topoheight >= t);
    }
    assert(balances.take(b) =~= balances);
    assert(nonces.take(n) =~= nonces);
}

/// What the chain that takes a block in is made of: the chain with the
/// block stored, with the order and the logs rebuilt for it.
pub proof fn lemma_integrated_parts(c: Chain, node: Blockchain, block: CompleteBlock, difficulty: u64)
    requires
        c.integrated(node, block, difficulty) is Ok,
    ensures
        c.prepared(node.dev_key, block, difficulty) is Ok,
        ({
            let after = c.integrated(node, block, difficulty).unwrap().0;
            let ready = c.prepared(node.dev_key, block, difficulty).unwrap();
            &&& after.blocks == ready.chain.blocks
            &&& after.order == ready.after.order
            &&& after.balances == ready.after.balances
            &&& after.nonces == ready.after.nonces
            &&& after.assets == c.assets
            &&& ready.chain == c.pushed(ready.chain.blocks.last())
            &&& ready.chain.blocks.last() == record(
                block,
                difficulty,
                ready.chain.blocks.last().cumulative_difficulty,
            )
            &&& ready.chain.rebuilt(node.dev_key, ready.full, ready.base_topo) == Ok::<
                Reordered,
                BlockchainError,
            >(ready.after)
            &&& c.first_ordered(node.dev_key, block, difficulty) == ready.base_topo
                + ready.chain.kept(ready.full, ready.base_topo, 0)
        }),
{
    reveal(Chain::integrated);
    reveal(Chain::prepared);
}

/// Ordering a run of blocks adds one place to the order for each.
pub proof fn lemma_reordered_length(
    c: Chain,
    dev_key: PublicKey,
    full: Seq<hash::Hash>,
    k: int,
    so_far: Reordered,
)
    requires
        0 <= k <= full.len(),
        c.reordered(dev_key, full, k, so_far) is Ok,
    ensures
        c.reordered(dev_key, full, k, so_far).unwrap().order.len() == so_far.order.len()
            + full.len() - k,
    decreases full.len() - k,
{
    if k < full.len() {
        let next = ordered_next(c, dev_key, so_far, full[k]).unwrap();
        lemma_reordered_length(c, dev_key, full, k + 1, next);
    }
}

/// Ordering the last block of a run is ordering that block next.
pub proof fn lemma_reordered_last(
    c: Chain,
    dev_key: PublicKey,
    full: Seq<hash::Hash>,
    k: int,
    so_far: Reordered,
)
    requires
        0 <= k,
        k + 1 == full.len(),
        c.reordered(dev_key, full, k, so_far) is Ok,
    ensures
        ordered_next(c, dev_key, so_far, full[k]) == c.reordered(dev_key, full, k, so_far),
        c.reordered(dev_key, full, k, so_far).unwrap().order.last().hash == full[k],
{
    match ordered_next(c, dev_key, so_far, full[k]) {
        Ok(next) => {
            assert(c.reordered(dev_key, full, k + 1, next) == Ok::<Reordered, BlockchainError>(
                next,
            ));
            assert(next.order == so_far.order.push(next_entry(c, so_far.order, full[k])));
        },
        Err(_) => {},
    }
}

/// Rebuilding an order from the place after its last is ordering a run of
/// blocks after the order and the logs as they are.
pub proof fn lemma_rebuilt_from_end(c: Chain, dev_key: PublicKey, full: Seq<hash::Hash>, base_topo: int)
    requires
        base_topo + c.kept(full, base_topo, 0) == c.order.len(),
        balances_under(c.balances, c.order.len() as int),
        nonces_under(c.nonces, c.order.len() as int),
    ensures
        c.rebuilt(dev_key, full, base_topo) == c.reordered(
            dev_key,
            full,
            c.kept(full, base_topo, 0),
            Reordered { order: c.order, balances: c.balances, nonces: c.nonces, moved: Seq::empty() },
        ),
{
    reveal(Chain::rebuilt);
    let n = c.order.len() as int;
    lemma_cut_keeps_all(c.balances, c.nonces, n);
    assert(c.order.take(n) =~= c.order);
}

/// Where rebuilding the order keeps every place and adds one, it orders one
/// block next, after the logs as they were.
pub proof fn lemma_rebuilt_one(c: Chain, dev_key: PublicKey, full: Seq<hash::Hash>, base_topo: int)
    requires
        c.rebuilt(dev_key, full, base_topo) is Ok,
        0 <= base_topo,
        base_topo + c.kept(full, base_topo, 0) == c.order.len(),
        c.rebuilt(dev_key, full, base_topo).unwrap().order.len() == c.order.len() + 1,
        balances_under(c.balances, c.order.len() as int),
        nonces_under(c.nonces, c.order.len() as int),
    ensures
        0 <= c.kept(full, base_topo, 0) < full.len(),
        ordered_next(
            c,
            dev_key,
            Reordered { order: c.order, balances: c.balances, nonces: c.nonces, moved: Seq::empty() },
            full[c.kept(full, base_topo, 0)],
        ) == Ok::<Reordered, BlockchainError>(c.rebuilt(dev_key, full, base_topo).unwrap()),
        c.rebuilt(dev_key, full, base_topo).unwrap().order.last().hash == full[c.kept(
            full,
            base_topo,
            0,
        )],
{
    let kept = c.kept(full, base_topo, 0);
    let start = Reordered {
        order: c.order,
        balances: c.balances,
        nonces: c.nonces,
        moved: Seq::empty(),
    };
    lemma_kept(c, full, base_topo, 0);
    lemma_rebuilt_from_end(c, dev_key, full, base_topo);
    lemma_reordered_length(c, dev_key, full, kept, start);
    lemma_reordered_last(c, dev_key, full, kept, start);
}

/// Where admitting a block orders it last and moves no other block, the
/// chain that results is the chain with the block stored and ordered next.
pub proof fn lemma_admitted_last(
    c: Chain,
    node: Blockchain,
    block: CompleteBlock,
    difficulty: u64,
)
    requires
        c.wf(),
        c.order.len() < u64::MAX,
        c.integrated(node, block, difficulty) is Ok,
        c.first_ordered(node.dev_key, block, difficulty) == c.order.len(),
        c.integrated(node, block, difficulty).unwrap().0.order.len() == c.order.len() + 1,
        c.integrated(node, block, difficulty).unwrap().0.order.last().hash == block.hash,
    ensures
        ordered_last(
            c,
            c.integrated(node, block, difficulty).unwrap().0.blocks.last(),
            c.integrated(node, block, difficulty).unwrap().0,
            node.dev_key,
        ),
        c.integrated(node, block, difficulty).unwrap().0.blocks.last() == record(
            block,
            difficulty,
            c.integrated(node, block, difficulty).unwrap().0.blocks.last().cumulative_difficulty,
        ),
{
    lemma_integrated_parts(c, node, block, difficulty);
    let ready = c.prepared(node.dev_key, block, difficulty).unwrap();
    lemma_order_and_logs(c);
    lemma_base_in_order(ready.chain, ready.full, ready.base_topo);
    lemma_rebuilt_one(ready.chain, node.dev_key, ready.full, ready.base_topo);
    let after = c.integrated(node, block, difficulty).unwrap().0;
    assert(after.blocks.last().hash == block.hash);
}

/// A sound chain has its supply chained and its logs under the length of
/// its order.
pub proof fn lemma_order_and_logs(c: Chain)
    requires
        c.wf(),
    ensures
        supply_chained(c.order),
        balances_under(c.balances, c.order.len() as int),
        nonces_under(c.nonces, c.order.len() as int),
{
    lemma_wf_order_parts(c);
}

/// Where the places kept reach the end of the order, the base does not lie
/// under the order.
pub proof fn lemma_base_in_order(c: Chain, full: Seq<hash::Hash>, base_topo: int)
    requires
        base_topo + c.kept(full, base_topo, 0) == c.order.len(),
    ensures
        base_topo >= 0,
{
    if base_topo < 0 {
        assert(c.kept(full, base_topo, 0) == 0);
    }
}

/// Admitting a block and then rewinding by one topoheight gives back the
/// chain, where the block was ordered last and moved no other block.
pub proof fn lemma_add_then_rewind(
    c: Chain,
    node: Blockchain,
    block: CompleteBlock,
    now: u128,
)
    requires
        c.wf(),
        c.order.len() >= 1,
        c.order.len() < u64::MAX,
        c.admission(node, block, now) is Ok,
        c.integrated(node, block, c.admission(node, block, now).unwrap()) is Ok,
        c.first_ordered(node.dev_key, block, c.admission(node, block, now).unwrap())
            == c.order.len(),
        c.integrated(node, block, c.admission(node, block, now).unwrap()).unwrap().0.order.len()
            == c.order.len() + 1,
        c.integrated(
            node,
            block,
            c.admission(node, block, now).unwrap(),
        ).unwrap().0.order.last().hash == block.hash,
    ensures
        c.integrated(node, block, c.admission(node, block, now).unwrap()).unwrap().0.popped(1)
            == Ok::<Chain, BlockchainError>(c),
{
    let difficulty = c.admission(node, block, now).unwrap();
    let after = c.integrated(node, block, difficulty).unwrap().0;
    crate::integrate::lemma_admitted(c, node, block, now);
    lemma_admitted_last(c, node, block, difficulty);
    let stored = after.blocks.last();
    assert(c.fits(record(block, difficulty, stored.cumulative_difficulty)));
    lemma_rewind_undoes_block(c, stored, after, node.dev_key);
}

/// Admitting a block and then rewinding by one topoheight hands the
/// transactions of the block back, and the pool takes them in again first,
/// in their order, whatever waited in it: where the block was ordered last
/// and moved no other block.
pub proof fn lemma_add_then_rewind_pool(
    c: Chain,
    node: Blockchain,
    block: CompleteBlock,
    now: u128,
    waiting: Seq<Arc<Transaction>>,
)
    requires
        c.wf(),
        c.order.len() < u64::MAX,
        c.admission(node, block, now) is Ok,
        c.integrated(node, block, c.admission(node, block, now).unwrap()) is Ok,
        c.first_ordered(node.dev_key, block, c.admission(node, block, now).unwrap())
            == c.order.len(),
        c.integrated(node, block, c.admission(node, block, now).unwrap()).unwrap().0.order.len()
            == c.order.len() + 1,
        c.integrated(
            node,
            block,
            c.admission(node, block, now).unwrap(),
        ).unwrap().0.order.last().hash == block.hash,
    ensures
        ({
            let after = c.integrated(node, block, c.admission(node, block, now).unwrap()).unwrap().0;
            let back = after.ordered_txs(c.order.len() as int, after.order.len() as int);
            &&& back == block.transactions@
            &&& block.transactions@.is_prefix_of(
                c.readmitted(Seq::empty(), back + waiting, (back.len() + waiting.len()) as int),
            )
        }),
{
    let difficulty = c.admission(node, block, now).unwrap();
    let after = c.integrated(node, block, difficulty).unwrap().0;
    let n = c.order.len() as int;
    lemma_admitted_last(c, node, block, difficulty);
    assert(after.hashes().last() == block.hash);
    assert(after.index_of(block.hash) == after.blocks.len() - 1);
    assert(after.order[n].hash == block.hash);
    assert(after.ordered_txs(n, n) =~= Seq::<Arc<Transaction>>::empty());
    let back = after.ordered_txs(n, n + 1);
    assert(back =~= block.transactions@);
    assert(c.txs_verified(block, block.transactions@.len() as int) is Ok) by {
        reveal(Chain::admission);
    }
    let txs = block.transactions@;
    crate::restore::lemma_block_readmitted(c, block, waiting, txs.len() as int);
    assert(txs.take(txs.len() as int) =~= txs);
    crate::restore::lemma_readmitted_keeps(
        c,
        Seq::empty(),
        txs + waiting,
        txs.len() as int,
        (txs.len() + waiting.len()) as int,
    );
}

/// Admitting a block and then rewinding by one topoheight gives back the
/// blocks, the order, the tip set and the top height of every chain that can
/// be worked on, where the block was ordered last and moved no other block.
pub proof fn lemma_add_then_rewind_heights(c: Chain, node: Blockchain, block: CompleteBlock, now: u128)
    requires
        c.sound(),
        c.order.len() >= 1,
        c.admission(node, block, now) is Ok,
        c.integrated(node, block, c.admission(node, block, now).unwrap()) is Ok,
        c.first_ordered(node.dev_key, block, c.admission(node, block, now).unwrap())
            == c.order.len(),
        c.integrated(node, block, c.admission(node, block, now).unwrap()).unwrap().0.order.len()
            == c.order.len() + 1,
        c.integrated(
            node,
            block,
            c.admission(node, block, now).unwrap(),
        ).unwrap().0.order.last().hash == block.hash,
        c.order.len() < u64::MAX,
    ensures
        c.integrated(node, block, c.admission(node, block, now).unwrap()).unwrap().0.popped(1) is Ok,
        ({
            let back = c.integrated(
                node,
                block,
                c.admission(node, block, now).unwrap(),
            ).unwrap().0.popped(1).unwrap();
            &&& back.blocks == c.blocks
            &&& back.order == c.order
            &&& back.tips == c.tips
            &&& back.top_height == c.top_height
            &&& back.assets == c.assets
        }),
{
    let difficulty = c.admission(node, block, now).unwrap();
    let after = c.integrated(node, block, difficulty).unwrap().0;
    let n = c.order.len() as int;
    let size = c.blocks.len() as int;
    crate::integrate::lemma_admitted(c, node, block, now);
    lemma_integrated_parts(c, node, block, difficulty);
    let ready = c.prepared(node.dev_key, block, difficulty).unwrap();
    let c1 = ready.chain;
    let stored = c1.blocks.last();
    assert(c.fits(stored));
    lemma_pushed(c, stored);
    crate::invariants::lemma_prepared_plan(c, node.dev_key, block, difficulty);
    crate::invariants::lemma_planned_parts(c1, ready.tips);
    crate::invariants::lemma_rebuilt_keeps(c1, node.dev_key, ready.full, ready.base_topo);
    assert(after.hashes() =~= c1.hashes());
    assert(after.index_of(block.hash) == size);
    assert(after.order[n].hash == block.hash);
    assert forall|t: int| 0 <= t < n implies after.index_of((#[trigger] after.order[t]).hash)
        < size by {
        assert(after.order[t] == c.order[t]);
        assert(c.has_block(c.order[t].hash));
        lemma_position(c.hashes(), c.order[t].hash);
    }
    assert(after.staying(1) == n);
    assert(after.lowest_place(n, n + 1) == crate::rewind::lower(
        after.lowest_place(n, n),
        after.index_of(after.order[n].hash),
    ));
    assert(after.removal_place(1) == size);
    lemma_first_from_none(after, size, n);
    assert(after.left(1) == n);
    let rest = after.cut_to(size);
    assert(rest.blocks =~= c.blocks);
    assert(after.order.take(n) =~= c.order);
    lemma_same_childless(rest, c, size);
    lemma_same_highest(rest, c, size);
}

} // verus!
