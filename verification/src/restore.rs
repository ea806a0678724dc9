//! What a block that was admitted gives back when it is rewound: its
//! transactions, which the pool takes in again.

use vstd::prelude::*;
use std::sync::Arc;
use crate::ledger::{last_index, lemma_last_index, lemma_last_index_is, lemma_last_index_push};
use crate::hash;
use crate::hash::PublicKey;
use crate::admission::seen_before;
use crate::block::CompleteBlock;
use crate::mempool::tx_wanted;
use crate::storage::Chain;
use crate::template::pending_count;
use crate::transaction::{Transaction, TransactionType, Transfer};
use crate::tx_verify::{
    expect_next,
    expected_wanted,
    native_asset,
    spend,
    spend_outputs,
    spend_tx,
    spending_wanted,
    ExpectedNonce,
    Spending,
};

verus! {

/// Replacing an element by one that is wanted where the old one was leaves
/// what is found where it was.
pub proof fn lemma_last_index_update<T>(s: Seq<T>, i: int, x: T, wanted: spec_fn(T) -> bool)
    requires
        0 <= i < s.len(),
        wanted(x) == wanted(s[i]),
    ensures
        last_index(s.update(i, x), wanted) == last_index(s, wanted),
{
    lemma_last_index(s, wanted);
    let r = last_index(s, wanted);
    let u = s.update(i, x);
    assert forall|j: int| r < j < u.len() implies !wanted(#[trigger] u[j]) by {
        assert(!wanted(s[j]));
    }
    lemma_last_index_is(u, wanted, r);
}

/// Whether every entry of `small` asks no more than the entry of `big` for
/// the same account and asset.
pub open spec fn within(small: Seq<Spending>, big: Seq<Spending>) -> bool {
    forall|i: int|
        0 <= i < small.len() ==> {
            let j = last_index(big, spending_wanted((#[trigger] small[i]).key, small[i].asset));
            j >= 0 && small[i].amount <= big[j].amount
        }
}

/// Asking the same of two lists keeps the smaller within the larger, and
/// where the larger can take it, so can the smaller.
pub proof fn lemma_spend_within(
    small: Seq<Spending>,
    big: Seq<Spending>,
    key: PublicKey,
    asset: hash::Hash,
    amount: u64,
)
    requires
        within(small, big),
        spend(big, key, asset, amount) is Ok,
    ensures
        spend(small, key, asset, amount) is Ok,
        within(spend(small, key, asset, amount).unwrap(), spend(big, key, asset, amount).unwrap()),
{
    let w = spending_wanted(key, asset);
    lemma_last_index(small, w);
    lemma_last_index(big, w);
    let i = last_index(small, w);
    let j = last_index(big, w);
    let entry = Spending { key, asset, amount };
    if i >= 0 {
        assert(small[i].key == key && small[i].asset == asset);
        assert(j == last_index(big, spending_wanted(small[i].key, small[i].asset)));
    }
    let big2 = spend(big, key, asset, amount).unwrap();
    let small2 = spend(small, key, asset, amount).unwrap();
    assert forall|x: int| 0 <= x < small2.len() implies {
        let y = last_index(big2, spending_wanted((#[trigger] small2[x]).key, small2[x].asset));
        y >= 0 && small2[x].amount <= big2[y].amount
    } by {
        let e = small2[x];
        let we = spending_wanted(e.key, e.asset);
        if e.key == key && e.asset == asset {
            assert(we == w);
            if j < 0 {
                lemma_last_index_push(big, entry, w);
            } else {
                lemma_last_index_update(
                    big,
                    j,
                    Spending { key, asset, amount: (big[j].amount + amount) as u64 },
                    w,
                );
            }
            if i >= 0 && x != i {
                assert(small2[x] == small[x]);
                assert(last_index(big, spending_wanted(small[x].key, small[x].asset)) == j);
            }
        } else {
            if i < 0 {
                assert(x < small.len());
            }
            assert(small2[x] == small[x]);
            let y0 = last_index(big, we);
            lemma_last_index(big, we);
            if j < 0 {
                lemma_last_index_push(big, entry, we);
            } else {
                lemma_last_index_update(
                    big,
                    j,
                    Spending { key, asset, amount: (big[j].amount + amount) as u64 },
                    we,
                );
                assert(y0 != j);
            }
        }
    }
}

/// Asking the same outputs of two lists keeps the smaller within the larger.
pub proof fn lemma_spend_outputs_within(
    small: Seq<Spending>,
    big: Seq<Spending>,
    owner: PublicKey,
    outputs: Seq<Transfer>,
    n: int,
)
    requires
        within(small, big),
        spend_outputs(big, owner, outputs, n) is Ok,
    ensures
        spend_outputs(small, owner, outputs, n) is Ok,
        within(
            spend_outputs(small, owner, outputs, n).unwrap(),
            spend_outputs(big, owner, outputs, n).unwrap(),
        ),
    decreases n,
{
    if n > 0 {
        lemma_spend_outputs_within(small, big, owner, outputs, n - 1);
        lemma_spend_within(
            spend_outputs(small, owner, outputs, n - 1).unwrap(),
            spend_outputs(big, owner, outputs, n - 1).unwrap(),
            owner,
            outputs[n - 1].asset,
            outputs[n - 1].amount,
        );
    }
}

/// Asking what a transaction spends of two lists keeps the smaller within
/// the larger.
pub proof fn lemma_spend_tx_within(small: Seq<Spending>, big: Seq<Spending>, tx: Transaction)
    requires
        within(small, big),
        spend_tx(big, tx) is Ok,
    ensures
        spend_tx(small, tx) is Ok,
        within(spend_tx(small, tx).unwrap(), spend_tx(big, tx).unwrap()),
{
    lemma_spend_within(small, big, tx.owner, native_asset(), tx.fee);
    let small_fee = spend(small, tx.owner, native_asset(), tx.fee).unwrap();
    let big_fee = spend(big, tx.owner, native_asset(), tx.fee).unwrap();
    match tx.data {
        TransactionType::Transfer(outputs) => {
            lemma_spend_outputs_within(small_fee, big_fee, tx.owner, outputs@, outputs@.len() as int);
        },
        TransactionType::Burn(asset, amount) => {
            lemma_spend_within(small_fee, big_fee, tx.owner, asset, amount);
        },
        TransactionType::SmartContract => {},
    }
}

impl Chain {
    /// Whether `owner` holds what every entry of `spent` asks of it.
    pub open spec fn covers(self, spent: Seq<Spending>, owner: PublicKey) -> bool {
        forall|i: int|
            0 <= i < spent.len() && (#[trigger] spent[i]).key == owner ==> self.has_balance(
                owner,
                spent[i].asset,
            ) && self.last_balance(owner, spent[i].asset).balance >= spent[i].amount
    }
}

/// No entry from `k` on is refused just where the owner holds what each asks.
pub proof fn lemma_funds(c: Chain, spent: Seq<Spending>, owner: PublicKey, k: int)
    requires
        0 <= k,
    ensures
        c.funds_error(spent, owner, k) is None <==> (forall|i: int|
            k <= i < spent.len() && (#[trigger] spent[i]).key == owner ==> c.has_balance(
                owner,
                spent[i].asset,
            ) && c.last_balance(owner, spent[i].asset).balance >= spent[i].amount),
    decreases spent.len() - k,
{
    if k < spent.len() {
        lemma_funds(c, spent, owner, k + 1);
    }
}

/// An owner that holds what a list asks holds what a list within it asks.
pub proof fn lemma_covers_within(c: Chain, small: Seq<Spending>, big: Seq<Spending>, owner: PublicKey)
    requires
        within(small, big),
        c.covers(big, owner),
    ensures
        c.covers(small, owner),
{
    assert forall|i: int| 0 <= i < small.len() && (#[trigger] small[i]).key == owner implies c.has_balance(
        owner,
        small[i].asset,
    ) && c.last_balance(owner, small[i].asset).balance >= small[i].amount by {
        let w = spending_wanted(small[i].key, small[i].asset);
        let j = last_index(big, w);
        lemma_last_index(big, w);
        assert(big[j].key == owner && big[j].asset == small[i].asset);
    }
}

/// A transaction that verifies after others of a batch verifies alone, with
/// the nonce that the batch expects of its owner.
pub proof fn lemma_verifies_alone(
    c: Chain,
    tx: Transaction,
    spent: Seq<Spending>,
    nonces: Seq<ExpectedNonce>,
)
    requires
        c.verify_in_batch(tx, spent, nonces) is Ok,
    ensures
        c.verify_in_batch(
            tx,
            Seq::empty(),
            seq![ExpectedNonce { key: tx.owner, nonce: c.expected_nonce(nonces, tx.owner) }],
        ) is Ok,
{
    let alone = seq![ExpectedNonce { key: tx.owner, nonce: c.expected_nonce(nonces, tx.owner) }];
    let w = expected_wanted(tx.owner);
    lemma_last_index_is(alone, w, 0);
    assert(c.expected_nonce(alone, tx.owner) == c.expected_nonce(nonces, tx.owner));
    let none: Seq<Spending> = Seq::empty();
    assert(within(none, spent));
    lemma_spend_tx_within(none, spent, tx);
    let small = spend_tx(none, tx).unwrap();
    let big = spend_tx(spent, tx).unwrap();
    lemma_funds(c, big, tx.owner, 0);
    lemma_covers_within(c, small, big, tx.owner);
    lemma_funds(c, small, tx.owner, 0);
}

/// The transactions that an owner sent among the first of a pool are those
/// it sent among the first of a longer one.
pub proof fn lemma_pending_take(pool: Seq<Arc<Transaction>>, owner: PublicKey, n: int, m: int)
    requires
        0 <= n <= m <= pool.len(),
    ensures
        pending_count(pool.take(m), owner, n) == pending_count(pool, owner, n),
    decreases n,
{
    if n > 0 {
        lemma_pending_take(pool, owner, n - 1, m);
        assert(pool.take(m)[n - 1] == pool[n - 1]);
    }
}

/// Where the transactions of a block verify, so do the first of them.
pub proof fn lemma_verified_before(c: Chain, block: CompleteBlock, k: int, n: int)
    requires
        0 <= k <= n,
        c.txs_verified(block, n) is Ok,
    ensures
        c.txs_verified(block, k) is Ok,
    decreases n - k,
{
    if k < n {
        lemma_verified_before(c, block, k + 1, n);
    }
}

/// The nonce that a batch expects of an account once the first `k`
/// transactions of a block are verified: its committed nonce and one more
/// for each of those transactions that it sent.
pub proof fn lemma_batch_nonces(c: Chain, block: CompleteBlock, k: int, owner: PublicKey)
    requires
        0 <= k <= block.transactions@.len(),
        c.txs_verified(block, k) is Ok,
    ensures
        c.expected_nonce(c.txs_verified(block, k).unwrap().1, owner) == c.nonce_of(owner)
            + pending_count(block.transactions@, owner, k),
    decreases k,
{
    if k > 0 {
        lemma_verified_before(c, block, k - 1, k);
        lemma_batch_nonces(c, block, k - 1, owner);
        let (spent, nonces) = c.txs_verified(block, k - 1).unwrap();
        let tx = *block.transactions@[k - 1];
        assert(c.txs_verified(block, k) == c.verify_in_batch(tx, spent, nonces));
        let next = expect_next(nonces, tx.owner, (tx.nonce + 1) as u64);
        assert(c.txs_verified(block, k).unwrap().1 == next);
        let w = expected_wanted(tx.owner);
        let i = last_index(nonces, w);
        lemma_last_index(nonces, w);
        let entry = ExpectedNonce { key: tx.owner, nonce: (tx.nonce + 1) as u64 };
        let wo = expected_wanted(owner);
        lemma_last_index(nonces, wo);
        if i >= 0 {
            lemma_last_index_update(nonces, i, entry, wo);
        } else {
            lemma_last_index_push(nonces, entry, wo);
        }
        if owner == tx.owner {
            assert(wo == w);
        }
    }
}

/// The pool takes the transactions of a block that verified in again, in
/// their order, where it starts empty on the chain that the block verified
/// against.
pub proof fn lemma_block_readmitted(
    c: Chain,
    block: CompleteBlock,
    rest: Seq<Arc<Transaction>>,
    k: int,
)
    requires
        0 <= k <= block.transactions@.len(),
        c.txs_verified(block, block.transactions@.len() as int) is Ok,
    ensures
        c.readmitted(Seq::empty(), block.transactions@ + rest, k) == block.transactions@.take(k),
    decreases k,
{
    let txs = block.transactions@;
    let all = txs + rest;
    if k > 0 {
        lemma_block_readmitted(c, block, rest, k - 1);
        lemma_verified_before(c, block, k, txs.len() as int);
        lemma_verified_before(c, block, k - 1, k);
        let before = txs.take(k - 1);
        let tx = *txs[k - 1];
        assert(all[k - 1] == txs[k - 1]);
        let (spent, nonces) = c.txs_verified(block, k - 1).unwrap();
        assert(c.txs_verified(block, k) == c.verify_in_batch(tx, spent, nonces));
        assert(!seen_before(txs, k - 1, tx.hash));
        let w = tx_wanted(tx.hash);
        assert forall|j: int| -1 < j < before.len() implies !w(#[trigger] before[j]) by {
            if txs[j].hash == tx.hash {
                assert(seen_before(txs, k - 1, tx.hash));
            }
        }
        lemma_last_index_is(before, w, -1);
        lemma_batch_nonces(c, block, k - 1, tx.owner);
        lemma_pending_take(txs, tx.owner, k - 1, k - 1);
        lemma_verifies_alone(c, tx, spent, nonces);
        assert(c.pool_refusal(before, tx) is None);
        assert(before.push(all[k - 1]) =~= txs.take(k));
    } else {
        assert(txs.take(0) =~= Seq::<Arc<Transaction>>::empty());
    }
}

/// What the pool has taken in stays in it while further transactions ask
/// for admission.
pub proof fn lemma_readmitted_keeps(
    c: Chain,
    pool: Seq<Arc<Transaction>>,
    txs: Seq<Arc<Transaction>>,
    n: int,
    m: int,
)
    requires
        0 <= n <= m,
    ensures
        c.readmitted(pool, txs, n).is_prefix_of(c.readmitted(pool, txs, m)),
    decreases m - n,
{
    if n < m {
        lemma_readmitted_keeps(c, pool, txs, n, m - 1);
    }
}

} // verus!
