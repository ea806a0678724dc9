//! The pool of transactions that wait for a block.

use vstd::prelude::*;
use std::sync::Arc;
use crate::error::BlockchainError;
use crate::hash;
use crate::ledger::{last_index, lemma_last_index_is};
use crate::storage::{Chain, Storage};
use crate::transaction::Transaction;
use crate::tx_verify::{expected_wanted, find_expected, verify_transaction, ExpectedNonce, Spending};

verus! {

/// The pool: transactions in the order in which they were admitted, each
/// behind a shared handle.
pub struct Mempool {
    pub txs: Vec<Arc<Transaction>>,
}

impl View for Mempool {
    type V = Seq<Arc<Transaction>>;

    open spec fn view(&self) -> Seq<Arc<Transaction>> {
        self.txs@
    }
}

/// Another handle to the same transaction (`Arc::clone`): the transaction
/// behind the new handle is the one behind the given handle.
#[verifier::external_body]
pub(crate) fn share(tx: &Arc<Transaction>) -> (shared: Arc<Transaction>)
    ensures
        shared == *tx,
{
    Arc::clone(tx)
}

/// The transactions with digest `h`.
pub open spec fn tx_wanted(h: hash::Hash) -> spec_fn(Arc<Transaction>) -> bool {
    |tx: Arc<Transaction>| tx.hash == h
}

/// The place in `txs` of the transaction with digest `h`, or -1.
pub open spec fn tx_position(txs: Seq<Arc<Transaction>>, h: hash::Hash) -> int {
    last_index(txs, tx_wanted(h))
}

/// Whether `a` comes before `b` in a block template: the larger fee first,
/// then the smaller nonce, then the earlier digest.
pub open spec fn tx_before(a: Transaction, b: Transaction) -> bool {
    a.fee > b.fee || (a.fee == b.fee && (a.nonce < b.nonce || (a.nonce == b.nonce
        && a.hash.precedes(b.hash))))
}

/// `s` with `x` put before the trailing run of transactions that `x` comes before.
pub open spec fn insert_tx(s: Seq<Arc<Transaction>>, x: Arc<Transaction>) -> Seq<Arc<Transaction>>
    decreases s.len(),
{
    if s.len() == 0 {
        seq![x]
    } else if tx_before(*x, *s.last()) {
        insert_tx(s.drop_last(), x).push(s.last())
    } else {
        s.push(x)
    }
}

/// `s` sorted for a block template; transactions that compare equal keep their order.
pub open spec fn sort_txs(s: Seq<Arc<Transaction>>) -> Seq<Arc<Transaction>>
    decreases s.len(),
{
    if s.len() == 0 {
        Seq::empty()
    } else {
        insert_tx(sort_txs(s.drop_last()), s.last())
    }
}

/// Where [`insert_tx`] puts the new transaction.
pub proof fn lemma_insert_tx_at(s: Seq<Arc<Transaction>>, x: Arc<Transaction>, j: int)
    requires
        0 <= j <= s.len(),
        forall|m: int| j <= m < s.len() ==> tx_before(*x, *#[trigger] s[m]),
        j == 0 || !tx_before(*x, *s[j - 1]),
    ensures
        insert_tx(s, x) == s.insert(j, x),
    decreases s.len(),
{
    if s.len() == 0 {
        assert(seq![x] =~= s.insert(0, x));
    } else if j == s.len() {
        assert(s.push(x) =~= s.insert(j, x));
    } else {
        assert(tx_before(*x, *s[s.len() - 1]));
        lemma_insert_tx_at(s.drop_last(), x, j);
        assert(s.drop_last().insert(j, x).push(s.last()) =~= s.insert(j, x));
    }
}

/// What is left of the first `n` transactions of a pool after the nonces of
/// some accounts have moved: a transaction of such an account stays where
/// its nonce is not used up and it still verifies after those kept before it;
/// the transactions of the other accounts stay. With the spendings and the
/// nonces that the kept transactions of those accounts leave.
pub open spec fn cleaned(
    chain: Chain,
    txs: Seq<Arc<Transaction>>,
    moved: Seq<ExpectedNonce>,
    n: int,
) -> (Seq<Arc<Transaction>>, Seq<Spending>, Seq<ExpectedNonce>)
    decreases n,
{
    if n <= 0 {
        (Seq::empty(), Seq::empty(), Seq::empty())
    } else {
        let before = cleaned(chain, txs, moved, n - 1);
        let tx = txs[n - 1];
        let i = last_index(moved, expected_wanted(tx.owner));
        if i < 0 {
            (before.0.push(tx), before.1, before.2)
        } else if tx.nonce < moved[i].nonce {
            before
        } else {
            match chain.verify_in_batch(*tx, before.1, before.2) {
                Ok((spent, nonces)) => (before.0.push(tx), spent, nonces),
                Err(_) => before,
            }
        }
    }
}

/// The pool without the transactions that have one of the first `n` digests.
pub open spec fn without_txs(pool: Seq<Arc<Transaction>>, hashes: Seq<hash::Hash>, n: int) -> Seq<
    Arc<Transaction>,
>
    decreases n,
{
    if n <= 0 {
        pool
    } else {
        let before = without_txs(pool, hashes, n - 1);
        let i = tx_position(before, hashes[n - 1]);
        if i >= 0 {
            before.remove(i)
        } else {
            before
        }
    }
}

fn comes_first(a: &Transaction, b: &Transaction) -> (r: bool)
    ensures
        r == tx_before(*a, *b),
{
    a.fee > b.fee || (a.fee == b.fee && (a.nonce < b.nonce || (a.nonce == b.nonce && a.hash.lt(
        &b.hash,
    ))))
}

impl Mempool {
    /// An empty pool.
    pub fn new() -> (pool: Mempool)
        ensures
            pool@.len() == 0,
    {
        Mempool { txs: Vec::new() }
    }

    /// Whether no two transactions of the pool have the same digest.
    pub open spec fn wf(&self) -> bool {
        forall|i: int, j: int|
            0 <= i < j < self@.len() ==> (#[trigger] self@[i]).hash != (#[trigger] self@[j]).hash
    }

    fn find(&self, h: &hash::Hash) -> (found: Option<usize>)
        ensures
            match found {
                Some(i) => i as int == tx_position(self@, *h) && i < self.txs.len(),
                None => tx_position(self@, *h) == -1,
            },
    {
        let ghost wanted = tx_wanted(*h);
        let mut i: usize = self.txs.len();
        while i > 0
            invariant
                i <= self.txs.len(),
                wanted == tx_wanted(*h),
                forall|j: int| i <= j < self.txs.len() ==> !wanted(#[trigger] self.txs@[j]),
            decreases i,
        {
            i = i - 1;
            if self.txs[i].hash == *h {
                proof {
                    lemma_last_index_is(self.txs@, wanted, i as int);
                }
                return Some(i);
            }
        }
        proof {
            lemma_last_index_is(self.txs@, wanted, -1);
        }
        None
    }

    /// Whether the pool holds the transaction with digest `h`.
    pub fn contains_tx(&self, h: &hash::Hash) -> (r: bool)
        ensures
            r == (tx_position(self@, *h) >= 0),
    {
        self.find(h).is_some()
    }

    /// Number of transactions in the pool.
    pub fn size(&self) -> (n: usize)
        ensures
            n == self@.len(),
    {
        self.txs.len()
    }

    /// The transactions of the pool, in the order in which they were admitted.
    pub fn get_txs(&self) -> (txs: &Vec<Arc<Transaction>>)
        ensures
            txs@ == self@,
    {
        &self.txs
    }

    /// Adds a transaction that the pool does not hold yet.
    pub fn add_tx(&mut self, h: hash::Hash, tx: Arc<Transaction>) -> (r: Result<(), BlockchainError>)
        ensures
            match r {
                Ok(()) => tx_position(old(self)@, h) < 0 && final(self)@ == old(self)@.push(tx),
                Err(e) => tx_position(old(self)@, h) >= 0 && e
                    == BlockchainError::TxAlreadyInMempool(h) && final(self)@ == old(self)@,
            },
    {
        if self.contains_tx(&h) {
            return Err(BlockchainError::TxAlreadyInMempool(h));
        }
        self.txs.push(tx);
        Ok(())
    }

    /// Takes the transaction with digest `h` out of the pool.
    pub fn remove_tx(&mut self, h: &hash::Hash) -> (r: Result<Arc<Transaction>, BlockchainError>)
        ensures
            match r {
                Ok(tx) => tx_position(old(self)@, *h) >= 0 && tx == old(self)@[tx_position(
                    old(self)@,
                    *h,
                )] && final(self)@ == old(self)@.remove(tx_position(old(self)@, *h)),
                Err(e) => tx_position(old(self)@, *h) < 0 && e == BlockchainError::TxNotFound(*h)
                    && final(self)@ == old(self)@,
            },
    {
        match self.find(h) {
            Some(i) => Ok(self.txs.remove(i)),
            None => Err(BlockchainError::TxNotFound(*h)),
        }
    }

    /// A handle to the transaction with digest `h`.
    pub fn get_tx(&self, h: &hash::Hash) -> (r: Result<Arc<Transaction>, BlockchainError>)
        ensures
            match r {
                Ok(tx) => tx_position(self@, *h) >= 0 && tx == self@[tx_position(self@, *h)],
                Err(e) => tx_position(self@, *h) < 0 && e == BlockchainError::TxNotFound(*h),
            },
    {
        match self.find(h) {
            Some(i) => Ok(share(&self.txs[i])),
            None => Err(BlockchainError::TxNotFound(*h)),
        }
    }

    /// The transaction with digest `h`.
    pub fn view_tx(&self, h: &hash::Hash) -> (r: Result<&Arc<Transaction>, BlockchainError>)
        ensures
            match r {
                Ok(tx) => tx_position(self@, *h) >= 0 && *tx == self@[tx_position(self@, *h)],
                Err(e) => tx_position(self@, *h) < 0 && e == BlockchainError::TxNotFound(*h),
            },
    {
        match self.find(h) {
            Some(i) => Ok(&self.txs[i]),
            None => Err(BlockchainError::TxNotFound(*h)),
        }
    }

    /// The transactions sorted for a block template: the larger fee first,
    /// then the smaller nonce, then the earlier digest.
    pub fn get_sorted_txs(&self) -> (sorted: Vec<Arc<Transaction>>)
        ensures
            sorted@ == sort_txs(self@),
    {
        let mut out: Vec<Arc<Transaction>> = Vec::new();
        let n = self.txs.len();
        let mut i: usize = 0;
        while i < n
            invariant
                i <= n,
                n == self.txs.len(),
                out@ == sort_txs(self.txs@.take(i as int)),
            decreases n - i,
        {
            let x = share(&self.txs[i]);
            let mut j: usize = out.len();
            while j > 0 && comes_first(&x, &out[j - 1])
                invariant
                    j <= out.len(),
                    forall|m: int| j <= m < out.len() ==> tx_before(*x, *#[trigger] out@[m]),
                decreases j,
            {
                j = j - 1;
            }
            proof {
                lemma_insert_tx_at(out@, x, j as int);
                assert(self.txs@.take(i + 1).drop_last() =~= self.txs@.take(i as int));
            }
            out.insert(j, x);
            i = i + 1;
        }
        proof {
            assert(self.txs@.take(n as int) =~= self.txs@);
        }
        out
    }

    /// Takes out of the pool the transactions with the given digests.
    pub fn remove_txs(&mut self, hashes: &Vec<hash::Hash>)
        ensures
            final(self)@ == without_txs(old(self)@, hashes@, hashes@.len() as int),
    {
        let n = hashes.len();
        let mut i: usize = 0;
        while i < n
            invariant
                i <= n,
                n == hashes.len(),
                self@ == without_txs(old(self)@, hashes@, i as int),
            decreases n - i,
        {
            match self.remove_tx(&hashes[i]) {
                Ok(_) => {},
                Err(_) => {},
            }
            i = i + 1;
        }
    }

    /// Drops the transactions that the moved nonces have used up, and those
    /// of the same accounts that no longer verify.
    pub fn clean_up(&mut self, storage: &Storage, nonces: &Vec<ExpectedNonce>)
        ensures
            final(self)@ == cleaned(storage@, old(self)@, nonces@, old(self)@.len() as int).0,
    {
        let mut kept: Vec<Arc<Transaction>> = Vec::new();
        let mut spent: Vec<Spending> = Vec::new();
        let mut expected: Vec<ExpectedNonce> = Vec::new();
        let n = self.txs.len();
        let mut i: usize = 0;
        while i < n
            invariant
                i <= n,
                n == self.txs.len(),
                self.txs@ == old(self)@,
                (kept@, spent@, expected@) == cleaned(storage@, self.txs@, nonces@, i as int),
            decreases n - i,
        {
            let tx = &self.txs[i];
            match find_expected(nonces, &tx.owner) {
                None => {
                    kept.push(share(tx));
                },
                Some(place) => {
                    if tx.nonce >= nonces[place].nonce {
                        match verify_transaction(storage, tx, &mut spent, &mut expected) {
                            Ok(()) => {
                                kept.push(share(tx));
                            },
                            Err(_) => {},
                        }
                    }
                },
            }
            i = i + 1;
        }
        self.txs = kept;
    }
}

} // verus!
