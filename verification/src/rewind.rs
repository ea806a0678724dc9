//! Rewinding: the last topoheights are taken out of the order, the blocks
//! stored since the earliest of them are removed, the logs are cut, and the
//! transactions of the blocks taken out go back to the pool.

use vstd::prelude::*;
use std::sync::Arc;
use crate::blockchain::Blockchain;
use crate::error::BlockchainError;
use crate::hash;
use crate::hash::PublicKey;
use crate::ledger::{balances_below, cut_balances, cut_nonces, last_index, nonces_below};
use crate::mempool::{share, Mempool};
use crate::storage::{lemma_position, max_height, Chain, Storage, StoredBlock};
use crate::sync::lemma_index_of;
use crate::transaction::{Transaction, TransactionType, Transfer};
use crate::tx_verify::{expected_wanted, find_expected, ExpectedNonce};

verus! {

/// The lower of two places.
pub open spec fn lower(a: int, b: int) -> int {
    if b < a {
        b
    } else {
        a
    }
}

impl Chain {
    /// The chain with only the first `cut` blocks of the arena.
    pub open spec fn cut_to(self, cut: int) -> Chain {
        Chain { blocks: self.blocks.take(cut), ..self }
    }

    /// The lowest place in the arena of the blocks ordered at the
    /// topoheights from `from` up to `to`; the length of the arena where
    /// there is none.
    pub open spec fn lowest_place(self, from: int, to: int) -> int
        decreases to - from,
    {
        if to <= from {
            self.blocks.len() as int
        } else {
            lower(self.lowest_place(from, to - 1), self.index_of(self.order[to - 1].hash))
        }
    }

    /// The first topoheight under `n` whose block is stored at place `cut` or
    /// after; `n` where there is none.
    pub open spec fn first_from(self, cut: int, n: int) -> int
        decreases n,
    {
        if n <= 0 {
            0
        } else {
            let before = self.first_from(cut, n - 1);
            if before < n - 1 {
                before
            } else if self.index_of(self.order[n - 1].hash) >= cut {
                n - 1
            } else {
                n
            }
        }
    }

    /// Number of topoheights that stay when `count` are asked to go: at
    /// least the first.
    pub open spec fn staying(self, count: u64) -> int {
        if count >= self.order.len() - 1 {
            1
        } else {
            self.order.len() - count
        }
    }

    /// The place in the arena from which blocks are removed when `count`
    /// topoheights go: the lowest place of a block that goes.
    pub open spec fn removal_place(self, count: u64) -> int {
        self.lowest_place(self.staying(count), self.order.len() as int)
    }

    /// Number of topoheights that are left when `count` topoheights go: no
    /// block of the order may be among the blocks removed.
    pub open spec fn left(self, count: u64) -> int {
        self.first_from(self.removal_place(count), self.staying(count))
    }

    /// The chain after the last `count` topoheights are taken out, or why
    /// they cannot be.
    pub open spec fn popped(self, count: u64) -> Result<Chain, BlockchainError> {
        if self.order.len() <= 1 || count == 0 {
            Ok(self)
        } else if self.left(count) == 0 {
            Err(BlockchainError::RewindBelowGenesis)
        } else {
            let rest = self.cut_to(self.removal_place(count));
            let left = self.left(count);
            let ordered = Chain { order: self.order.take(left), ..rest };
            Ok(
                Chain {
                    tips: rest.childless(rest.blocks.len() as int),
                    balances: self.balances.take(balances_below(self.balances, left)),
                    nonces: self.nonces.take(nonces_below(self.nonces, left)),
                    top_height: rest.highest_stored(rest.blocks.len() as int),
                    ..ordered
                },
            )
        }
    }

    /// The transactions of the blocks ordered at the topoheights from
    /// `from` up to `to`, in order.
    pub open spec fn ordered_txs(self, from: int, to: int) -> Seq<Arc<Transaction>>
        decreases to - from,
    {
        if to <= from {
            Seq::empty()
        } else {
            self.ordered_txs(from, to - 1) + self.block(self.order[to - 1].hash).txs@
        }
    }

    /// The miners of the blocks ordered at the topoheights from `from` up to `to`.
    pub open spec fn ordered_miners(self, from: int, to: int) -> Seq<PublicKey>
        decreases to - from,
    {
        if to <= from {
            Seq::empty()
        } else {
            self.ordered_miners(from, to - 1).push(self.block(self.order[to - 1].hash).block.miner)
        }
    }

    /// The pool after the first `n` of `txs` ask for admission in turn: each
    /// is taken in where the pool does not refuse it.
    pub open spec fn readmitted(self, pool: Seq<Arc<Transaction>>, txs: Seq<Arc<Transaction>>, n: int) -> Seq<
        Arc<Transaction>,
    >
        decreases n,
    {
        if n <= 0 {
            pool
        } else {
            let before = self.readmitted(pool, txs, n - 1);
            if self.pool_refusal(before, *txs[n - 1]) is None {
                before.push(txs[n - 1])
            } else {
                before
            }
        }
    }
}

/// A sound arena without its last block is a sound arena, and finds every
/// block that is left where it was.
pub proof fn lemma_without_last(c: Chain)
    requires
        c.wf_blocks(),
        c.blocks.len() > 0,
    ensures
        c.cut_to(c.blocks.len() - 1).wf_blocks(),
        forall|h: hash::Hash|
            h != c.blocks.last().hash ==> #[trigger] c.cut_to(c.blocks.len() - 1).index_of(h)
                == c.index_of(h),
        c.cut_to(c.blocks.len() - 1).index_of(c.blocks.last().hash) == -1,
{
    let n = c.blocks.len() as int;
    let p = c.cut_to(n - 1);
    assert(p.hashes() =~= c.hashes().drop_last());
    assert(c.hashes().last() == c.blocks.last().hash);
    lemma_position(p.hashes(), c.blocks.last().hash);
    if p.index_of(c.blocks.last().hash) >= 0 {
        let j = p.index_of(c.blocks.last().hash);
        assert(c.hashes()[j] == c.hashes()[n - 1]);
    }
    assert forall|i: int, j: int|
        0 <= i < p.hashes().len() && 0 <= j < p.hashes().len() && i != j implies p.hashes()[i]
        != p.hashes()[j] by {
        assert(c.hashes()[i] != c.hashes()[j]);
    }
    assert forall|i: int| 0 <= i < p.blocks.len() implies (#[trigger] p.tips_at(i)).len()
        <= crate::config::TIPS_LIMIT by {
        assert(p.tips_at(i) == c.tips_at(i));
    }
    assert forall|i: int, k: int|
        0 <= i < p.blocks.len() && 0 <= k < p.tips_at(i).len() implies 0 <= (#[trigger] p.parent(
            i,
            k,
        )) < i && p.blocks[p.parent(i, k)].block.timestamp <= p.blocks[i].block.timestamp by {
        assert(p.tips_at(i) == c.tips_at(i));
        assert(0 <= c.parent(i, k) < i);
        lemma_position(c.hashes(), c.tips_at(i)[k]);
    }
    assert forall|i: int| 0 <= i < p.blocks.len() implies (#[trigger] p.blocks[i]).block.height as int
        == p.height_at_tips(p.tips_at(i)) by {
        assert(p.tips_at(i) == c.tips_at(i));
        assert(c.blocks[i].block.height as int == c.height_at_tips(c.tips_at(i)));
        let tips = c.tips_at(i);
        assert forall|k: int| 0 <= k < tips.len() implies p.index_of(tips[k]) == c.index_of(
            tips[k],
        ) && 0 <= c.index_of(tips[k]) < n - 1 by {
            assert(0 <= c.parent(i, k) < i);
            lemma_position(c.hashes(), tips[k]);
        }
        assert(p.places(tips) =~= c.places(tips));
        lemma_max_height_prefix(c.blocks, c.places(tips), n - 1);
    }
}

/// The greatest height among places under `cut` is the same in the first
/// `cut` blocks of the arena.
pub proof fn lemma_max_height_prefix(blocks: Seq<StoredBlock>, places: Seq<int>, cut: int)
    requires
        0 <= cut <= blocks.len(),
        forall|k: int| 0 <= k < places.len() ==> 0 <= #[trigger] places[k] < cut,
    ensures
        max_height(blocks.take(cut), places) == max_height(blocks, places),
    decreases places.len(),
{
    if places.len() > 0 {
        let d = places.drop_last();
        assert forall|k: int| 0 <= k < d.len() implies 0 <= #[trigger] d[k] < cut by {
            assert(d[k] == places[k]);
        }
        lemma_max_height_prefix(blocks, d, cut);
        assert(0 <= places[places.len() - 1] < cut);
    }
}

/// The first `cut` blocks of a sound arena are a sound arena, which finds
/// exactly the blocks stored under `cut`, each where it was.
pub proof fn lemma_cut_to(c: Chain, cut: int)
    requires
        c.wf_blocks(),
        0 <= cut <= c.blocks.len(),
    ensures
        c.cut_to(cut).wf_blocks(),
        forall|h: hash::Hash|
            0 <= c.index_of(h) < cut ==> #[trigger] c.cut_to(cut).index_of(h) == c.index_of(h),
        forall|h: hash::Hash|
            !(0 <= c.index_of(h) < cut) ==> #[trigger] c.cut_to(cut).index_of(h) == -1,
    decreases c.blocks.len() - cut,
{
    if cut == c.blocks.len() {
        assert(c.blocks.take(cut) =~= c.blocks);
        assert forall|h: hash::Hash| -1 <= #[trigger] c.index_of(h) < c.blocks.len() by {
            lemma_position(c.hashes(), h);
        }
    } else {
        let n = c.blocks.len() as int;
        lemma_without_last(c);
        let p = c.cut_to(n - 1);
        lemma_cut_to(p, cut);
        assert(p.blocks.take(cut) =~= c.blocks.take(cut));
        assert(p.cut_to(cut) == c.cut_to(cut));
        assert forall|h: hash::Hash|
            (if 0 <= c.index_of(h) < cut {
                #[trigger] c.cut_to(cut).index_of(h) == c.index_of(h)
            } else {
                c.cut_to(cut).index_of(h) == -1
            }) by {
            lemma_position(c.hashes(), h);
            lemma_index_of(c, n - 1);
            if h == c.blocks.last().hash {
                assert(c.index_of(h) == n - 1);
            } else {
                assert(p.index_of(h) == c.index_of(h));
            }
        }
    }
}


/// Every topoheight under the first whose block is stored at `cut` or after
/// holds a block stored under `cut`.
pub proof fn lemma_first_from(c: Chain, cut: int, n: int)
    requires
        0 <= n <= c.order.len(),
        c.order_stored(),
    ensures
        0 <= c.first_from(cut, n) <= n,
        forall|t: int|
            0 <= t < c.first_from(cut, n) ==> 0 <= c.index_of((#[trigger] c.order[t]).hash) < cut,
    decreases n,
{
    if n > 0 {
        lemma_first_from(c, cut, n - 1);
        assert(c.has_block(c.order[n - 1].hash));
    }
}

/// The blocks that no block names are stored.
pub proof fn lemma_childless_stored(c: Chain, n: int)
    requires
        c.wf_blocks(),
        0 <= n <= c.blocks.len(),
    ensures
        c.all_stored(c.childless(n)),
    decreases n,
{
    if n > 0 {
        lemma_childless_stored(c, n - 1);
        lemma_index_of(c, n - 1);
        let before = c.childless(n - 1);
        let now = c.childless(n);
        assert forall|x: int| 0 <= x < now.len() implies c.has_block(#[trigger] now[x]) by {
            if x < before.len() {
                assert(now[x] == before[x]);
            }
        }
    }
}

fn place_of(storage: &Storage, t: usize) -> (place: usize)
    requires
        t < storage.order.len(),
        storage@.order_stored(),
    ensures
        place as int == storage@.index_of(storage@.order[t as int].hash),
        place < storage.blocks.len(),
{
    assert(storage@.has_block(storage@.order[t as int].hash));
    match storage.find_block(&storage.order[t].hash) {
        Some(place) => place,
        None => {
            assert(false);
            0
        },
    }
}

fn lowest_place(storage: &Storage, from: usize, to: usize) -> (cut: usize)
    requires
        from <= to <= storage.order.len(),
        storage@.order_stored(),
    ensures
        cut as int == storage@.lowest_place(from as int, to as int),
        cut <= storage.blocks.len(),
{
    let mut cut: usize = storage.blocks.len();
    let mut t: usize = from;
    while t < to
        invariant
            from <= t <= to,
            to <= storage.order.len(),
            storage@.order_stored(),
            cut <= storage.blocks.len(),
            cut as int == storage@.lowest_place(from as int, t as int),
        decreases to - t,
    {
        let place = place_of(storage, t);
        if place < cut {
            cut = place;
        }
        t = t + 1;
    }
    cut
}

fn first_from(storage: &Storage, cut: usize, n: usize) -> (left: usize)
    requires
        n <= storage.order.len(),
        storage@.order_stored(),
    ensures
        left as int == storage@.first_from(cut as int, n as int),
        left <= n,
{
    let mut left: usize = 0;
    let mut t: usize = 0;
    while t < n
        invariant
            t <= n,
            n <= storage.order.len(),
            storage@.order_stored(),
            left <= t,
            left as int == storage@.first_from(cut as int, t as int),
        decreases n - t,
    {
        if left == t && place_of(storage, t) < cut {
            left = t + 1;
        }
        t = t + 1;
    }
    left
}

fn ordered_txs(storage: &Storage, from: usize, to: usize) -> (r: (Vec<Arc<Transaction>>, Vec<PublicKey>))
    requires
        from <= to <= storage.order.len(),
        storage@.order_stored(),
    ensures
        r.0@ == storage@.ordered_txs(from as int, to as int),
        r.1@ == storage@.ordered_miners(from as int, to as int),
{
    let mut txs: Vec<Arc<Transaction>> = Vec::new();
    let mut miners: Vec<PublicKey> = Vec::new();
    let mut t: usize = from;
    while t < to
        invariant
            from <= t <= to,
            to <= storage.order.len(),
            storage@.order_stored(),
            txs@ == storage@.ordered_txs(from as int, t as int),
            miners@ == storage@.ordered_miners(from as int, t as int),
        decreases to - t,
    {
        let place = place_of(storage, t);
        let block = &storage.blocks[place];
        let ghost start = txs@;
        let m = block.txs.len();
        let mut x: usize = 0;
        while x < m
            invariant
                x <= m,
                m == block.txs@.len(),
                txs@ == start + block.txs@.take(x as int),
            decreases m - x,
        {
            txs.push(share(&block.txs[x]));
            proof {
                assert(block.txs@.take(x + 1) =~= block.txs@.take(x as int).push(block.txs@[x as int]));
                assert(txs@ =~= start + block.txs@.take(x + 1));
            }
            x = x + 1;
        }
        proof {
            assert(block.txs@.take(m as int) =~= block.txs@);
        }
        miners.push(block.block.miner);
        t = t + 1;
    }
    (txs, miners)
}

pub(crate) fn childless(storage: &Storage) -> (tips: Vec<hash::Hash>)
    ensures
        tips@ == storage@.childless(storage@.blocks.len() as int),
{
    let n = storage.blocks.len();
    let mut tips: Vec<hash::Hash> = Vec::new();
    let mut i: usize = 0;
    while i < n
        invariant
            i <= n,
            n == storage.blocks.len(),
            tips@ == storage@.childless(i as int),
        decreases n - i,
    {
        let h = storage.blocks[i].hash;
        let mut named = false;
        let mut j: usize = 0;
        while j < n
            invariant
                j <= n,
                n == storage.blocks.len(),
                named == storage@.named_before(h, j as int),
            decreases n - j,
        {
            if crate::storage::contains_hash(&storage.blocks[j].block.tips, &h) {
                named = true;
            }
            j = j + 1;
        }
        if !named {
            tips.push(h);
        }
        i = i + 1;
    }
    tips
}

pub(crate) fn highest_stored(storage: &Storage) -> (height: u64)
    ensures
        height == storage@.highest_stored(storage@.blocks.len() as int),
{
    let n = storage.blocks.len();
    let mut height: u64 = 0;
    let mut i: usize = 0;
    while i < n
        invariant
            i <= n,
            n == storage.blocks.len(),
            height == storage@.highest_stored(i as int),
        decreases n - i,
    {
        if storage.blocks[i].block.height > height {
            height = storage.blocks[i].block.height;
        }
        i = i + 1;
    }
    height
}

impl Storage {
    /// Takes the last `count` topoheights out of the order, but never the
    /// first. The blocks stored since the earliest block that goes are
    /// removed, and with them the topoheights from the first one that a
    /// removed block holds; the logs are cut to the topoheights left; the tip
    /// set becomes the blocks left that no block names. Gives the greatest
    /// height and topoheight left, and the transactions and the miners of the
    /// blocks taken out of the order, in order.
    pub fn pop_blocks(&mut self, count: u64) -> (r: Result<
        (u64, u64, Vec<Arc<Transaction>>, Vec<PublicKey>),
        BlockchainError,
    >)
        requires
            old(self)@.sound(),
        ensures
            final(self)@.sound(),
            old(self)@.wf() ==> final(self)@.wf(),
            match r {
                Ok((height, topoheight, txs, miners)) => old(self)@.popped(count) == Ok::<
                    Chain,
                    BlockchainError,
                >(final(self)@) && height == final(self)@.top_height && topoheight as int == (
                if final(self)@.order.len() == 0 {
                    0
                } else {
                    final(self)@.order.len() - 1
                }) && txs@ == old(self)@.ordered_txs(
                    final(self)@.order.len() as int,
                    old(self)@.order.len() as int,
                ) && miners@ == old(self)@.ordered_miners(
                    final(self)@.order.len() as int,
                    old(self)@.order.len() as int,
                ),
                Err(e) => old(self)@.popped(count) == Err::<Chain, BlockchainError>(e)
                    && final(self)@ == old(self)@,
            },
    {
        let ghost c = self@;
        let n = self.order.len();
        if n <= 1 || count == 0 {
            return Ok((self.top_height, self.get_top_topoheight(), Vec::new(), Vec::new()));
        }
        let staying: usize = if count >= (n - 1) as u64 {
            1
        } else {
            n - count as usize
        };
        let cut = lowest_place(self, staying, n);
        let left = first_from(self, cut, staying);
        if left == 0 {
            return Err(BlockchainError::RewindBelowGenesis);
        }
        let (txs, miners) = ordered_txs(self, left, n);
        proof {
            lemma_first_from(c, cut as int, staying as int);
            lemma_cut_to(c, cut as int);
        }
        self.order.truncate(left);
        cut_balances(&mut self.ledger.balances, left as u64);
        cut_nonces(&mut self.ledger.nonces, left as u64);
        self.blocks.truncate(cut);
        proof {
            assert(self.blocks@ =~= c.blocks.take(cut as int));
            assert(self.order@ =~= c.order.take(left as int));
            let rest = c.cut_to(cut as int);
            crate::coordinator::lemma_same_blocks(rest, self@);
            assert(self@.order_stored()) by {
                assert forall|t: int| 0 <= t < self@.order.len() implies self@.has_block(
                    (#[trigger] self@.order[t]).hash,
                ) by {
                    assert(0 <= c.index_of(c.order[t].hash) < cut);
                    assert(rest.index_of(c.order[t].hash) == c.index_of(c.order[t].hash));
                }
            }
        }
        let tips = childless(self);
        let height = highest_stored(self);
        proof {
            let rest = c.cut_to(cut as int);
            lemma_childless_stored(self@, cut as int);
            lemma_same_childless(rest, self@, cut as int);
            lemma_same_highest(rest, self@, cut as int);
        }
        self.tips = tips;
        self.top_height = height;
        proof {
            let rest = c.cut_to(cut as int);
            let before = Chain { tips: c.tips, top_height: c.top_height, ..self@ };
            crate::coordinator::lemma_same_blocks(before, self@);
            assert(self@.order_stored()) by {
                assert forall|t: int| 0 <= t < self@.order.len() implies self@.has_block(
                    (#[trigger] self@.order[t]).hash,
                ) by {
                    assert(0 <= c.index_of(c.order[t].hash) < cut);
                    assert(rest.index_of(c.order[t].hash) == c.index_of(c.order[t].hash));
                    crate::coordinator::lemma_same_blocks(rest, self@);
                }
            }
            assert(self@.tips_stored()) by {
                assert forall|k: int| 0 <= k < self@.tips.len() implies self@.has_block(
                    #[trigger] self@.tips[k],
                ) by {
                    assert(before.has_block(self@.tips[k]));
                }
            }
        }
        proof {
            let rest = c.cut_to(cut as int);
            lemma_same_childless(rest, self@, cut as int);
            lemma_same_highest(rest, self@, cut as int);
            if c.wf() {
                crate::invariants::lemma_cut_order(c, cut as int, left as int);
                let n = rest.with_order(c.order.take(left as int));
                crate::invariants::lemma_wf_order_same(n, self@);
                crate::invariants::lemma_childless_no_duplicates(rest, cut as int);
                lemma_same_childless(rest, self@, cut as int);
                lemma_same_highest(rest, self@, cut as int);
                crate::ledger::lemma_balances_below(c.balances, left as int);
                crate::ledger::lemma_nonces_below(c.nonces, left as int);
            }
        }
        Ok((height, (left - 1) as u64, txs, miners))
    }
}

/// Two chains with the same blocks have the same blocks that no block names.
pub proof fn lemma_same_childless(a: Chain, b: Chain, n: int)
    requires
        a.blocks == b.blocks,
    ensures
        a.childless(n) == b.childless(n),
    decreases n,
{
    if n > 0 {
        lemma_same_childless(a, b, n - 1);
        lemma_same_named(a, b, a.blocks[n - 1].hash, a.blocks.len() as int);
    }
}

/// Two chains with the same blocks name the same blocks.
pub proof fn lemma_same_named(a: Chain, b: Chain, h: hash::Hash, n: int)
    requires
        a.blocks == b.blocks,
    ensures
        a.named_before(h, n) == b.named_before(h, n),
    decreases n,
{
    if n > 0 {
        lemma_same_named(a, b, h, n - 1);
    }
}

/// Two chains with the same blocks have the same greatest height stored.
pub proof fn lemma_same_highest(a: Chain, b: Chain, n: int)
    requires
        a.blocks == b.blocks,
    ensures
        a.highest_stored(n) == b.highest_stored(n),
    decreases n,
{
    if n > 0 {
        lemma_same_highest(a, b, n - 1);
    }
}


/// The entries equal to `key`.
pub open spec fn key_wanted(key: PublicKey) -> spec_fn(PublicKey) -> bool {
    |k: PublicKey| k == key
}

/// `keys` with `key`, which it holds once.
pub open spec fn with_key(keys: Seq<PublicKey>, key: PublicKey) -> Seq<PublicKey> {
    if last_index(keys, key_wanted(key)) >= 0 {
        keys
    } else {
        keys.push(key)
    }
}

/// `keys` with the receivers of the first `n` outputs.
pub open spec fn with_receivers(keys: Seq<PublicKey>, outputs: Seq<Transfer>, n: int) -> Seq<PublicKey>
    decreases n,
{
    if n <= 0 {
        keys
    } else {
        with_key(with_receivers(keys, outputs, n - 1), outputs[n - 1].to)
    }
}

/// `nonces` with the lowest nonce of `key` made no greater than `nonce`.
pub open spec fn with_lowest(nonces: Seq<ExpectedNonce>, key: PublicKey, nonce: u64) -> Seq<
    ExpectedNonce,
> {
    let i = last_index(nonces, expected_wanted(key));
    if i < 0 {
        nonces.push(ExpectedNonce { key, nonce })
    } else if nonce < nonces[i].nonce {
        nonces.update(i, ExpectedNonce { key, nonce })
    } else {
        nonces
    }
}

fn add_key(keys: &mut Vec<PublicKey>, key: &PublicKey)
    ensures
        final(keys)@ == with_key(old(keys)@, *key),
{
    let ghost wanted = key_wanted(*key);
    let mut i: usize = keys.len();
    while i > 0
        invariant
            i <= keys.len(),
            keys@ == old(keys)@,
            wanted == key_wanted(*key),
            forall|j: int| i <= j < keys.len() ==> !wanted(#[trigger] keys@[j]),
        decreases i,
    {
        i = i - 1;
        if keys[i] == *key {
            proof {
                crate::ledger::lemma_last_index_is(keys@, wanted, i as int);
            }
            return ;
        }
    }
    proof {
        crate::ledger::lemma_last_index_is(keys@, wanted, -1);
    }
    keys.push(*key);
}

impl Blockchain {
    /// Records what rewinding a transaction touches: the accounts of its
    /// sender and of its receivers, and the lowest nonce rewound of its
    /// sender. A reserved transaction cannot be rewound.
    #[verifier::loop_isolation(false)]
    pub fn rewind_transaction(
        &self,
        transaction: &Transaction,
        keys: &mut Vec<PublicKey>,
        nonces: &mut Vec<ExpectedNonce>,
    ) -> (r: Result<(), BlockchainError>)
        ensures
            match r {
                Ok(()) => !(transaction.data is SmartContract) && final(keys)@ == with_receivers(
                    with_key(old(keys)@, transaction.owner),
                    transaction.outputs(),
                    transaction.outputs().len() as int,
                ) && final(nonces)@ == with_lowest(
                    old(nonces)@,
                    transaction.owner,
                    transaction.nonce,
                ),
                Err(e) => transaction.data is SmartContract && e
                    == BlockchainError::SmartContractTodo && final(keys)@ == old(keys)@
                    && final(nonces)@ == old(nonces)@,
            },
    {
        match &transaction.data {
            TransactionType::SmartContract => {
                return Err(BlockchainError::SmartContractTodo);
            },
            TransactionType::Burn(_, _) => {
                add_key(keys, &transaction.owner);
            },
            TransactionType::Transfer(outputs) => {
                add_key(keys, &transaction.owner);
                let ghost start = keys@;
                let n = outputs.len();
                let mut k: usize = 0;
                while k < n
                    invariant
                        k <= n,
                        n == outputs@.len(),
                        keys@ == with_receivers(start, outputs@, k as int),
                    decreases n - k,
                {
                    add_key(keys, &outputs[k].to);
                    k = k + 1;
                }
            },
        }
        match find_expected(nonces, &transaction.owner) {
            None => {
                nonces.push(ExpectedNonce { key: transaction.owner, nonce: transaction.nonce });
            },
            Some(i) => {
                if transaction.nonce < nonces[i].nonce {
                    nonces.set(i, ExpectedNonce { key: transaction.owner, nonce: transaction.nonce });
                }
            },
        }
        Ok(())
    }

    /// Rewinds the chain by `count` topoheights: the blocks are taken out as
    /// [`Storage::pop_blocks`] tells, and the pool is built anew, from the
    /// transactions of the blocks taken out of the order, in the order in
    /// which they were executed, and then from those that waited, each
    /// admitted where the pool does not refuse it. Gives the topoheight
    /// reached. Where nothing can be taken out nothing changes.
    pub fn rewind_chain_for_storage(&mut self, storage: &mut Storage, mempool: &mut Mempool, count: usize) -> (r:
        Result<u64, BlockchainError>)
        requires
            old(storage)@.sound(),
        ensures
            final(storage)@.sound(),
            old(storage)@.wf() ==> final(storage)@.wf(),
            match r {
                Ok(topoheight) => old(storage)@.popped(count as u64) == Ok::<
                    Chain,
                    BlockchainError,
                >(final(storage)@) && topoheight == final(self).topoheight && *final(self) == (
                Blockchain {
                    height: final(storage)@.top_height,
                    topoheight: if final(storage)@.order.len() == 0 {
                        0
                    } else {
                        (final(storage)@.order.len() - 1) as u64
                    },
                    ..*old(self)
                }) && final(mempool)@ == final(storage)@.readmitted(
                    Seq::empty(),
                    old(storage)@.ordered_txs(
                        final(storage)@.order.len() as int,
                        old(storage)@.order.len() as int,
                    ) + old(mempool)@,
                    (old(storage)@.ordered_txs(
                        final(storage)@.order.len() as int,
                        old(storage)@.order.len() as int,
                    ).len() + old(mempool)@.len()) as int,
                ),
                Err(e) => old(storage)@.popped(count as u64) == Err::<Chain, BlockchainError>(e)
                    && final(storage)@ == old(storage)@ && *final(self) == *old(self)
                    && final(mempool)@ == old(mempool)@,
            },
    {
        let (height, topoheight, txs, _) = storage.pop_blocks(count as u64)?;
        let mut waiting: Vec<Arc<Transaction>> = Vec::new();
        core::mem::swap(&mut mempool.txs, &mut waiting);
        let ghost all = txs@ + waiting@;
        let n = txs.len();
        let mut i: usize = 0;
        while i < n
            invariant
                i <= n,
                n == txs.len(),
                all == txs@ + waiting@,
                mempool@ == storage@.readmitted(Seq::empty(), all, i as int),
            decreases n - i,
        {
            assert(all[i as int] == txs@[i as int]);
            match self.add_tx_for_mempool(storage, mempool, share(&txs[i])) {
                Ok(_) => {},
                Err(_) => {},
            }
            i = i + 1;
        }
        let m = waiting.len();
        let mut j: usize = 0;
        while j < m
            invariant
                j <= m,
                m == waiting.len(),
                n == txs.len(),
                all == txs@ + waiting@,
                mempool@ == storage@.readmitted(Seq::empty(), all, n + j),
            decreases m - j,
        {
            assert(all[n + j] == waiting@[j as int]);
            match self.add_tx_for_mempool(storage, mempool, share(&waiting[j])) {
                Ok(_) => {},
                Err(_) => {},
            }
            j = j + 1;
        }
        self.height = height;
        self.topoheight = topoheight;
        Ok(topoheight)
    }
}

} // verus!
