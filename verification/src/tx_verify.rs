//! Verification of a transaction against the committed state of the chain.

use vstd::prelude::*;
use crate::blockchain::Blockchain;
use crate::config::EXTRA_DATA_LIMIT_SIZE;
use crate::error::BlockchainError;
use crate::globals::{calculate_tx_fee, fee_floor};
use crate::hash;
use crate::hash::PublicKey;
use crate::ledger::{last_index, lemma_last_index_is};
use crate::storage::{Chain, Storage};
use crate::transaction::{Transaction, TransactionType, Transfer};

verus! {

/// The native asset: the digest of zeros.
pub open spec fn native_asset() -> hash::Hash {
    hash::Hash { w0: 0, w1: 0, w2: 0, w3: 0 }
}

/// The native asset, in which fees are paid and rewards are earned.
pub fn xelis_asset() -> (asset: hash::Hash)
    ensures
        asset == native_asset(),
{
    hash::Hash::zero()
}

/// What an account has been asked to pay in an asset by the transactions
/// verified so far.
#[derive(Clone, Copy, Debug, PartialEq, Eq, Structural)]
pub struct Spending {
    pub key: PublicKey,
    pub asset: hash::Hash,
    pub amount: u64,
}

/// The nonce expected of the next transaction of an account.
#[derive(Clone, Copy, Debug, PartialEq, Eq, Structural)]
pub struct ExpectedNonce {
    pub key: PublicKey,
    pub nonce: u64,
}

/// `n` held to the range of a machine word.
pub open spec fn capped(n: nat) -> usize {
    if n > usize::MAX {
        usize::MAX
    } else {
        n as usize
    }
}

/// Total number of bytes of extra data in the first `n` outputs.
pub open spec fn extra_total(outputs: Seq<Transfer>, n: int) -> nat
    decreases n,
{
    if n <= 0 {
        0
    } else {
        extra_total(outputs, n - 1) + outputs[n - 1].extra_len()
    }
}

/// Whether one of the outputs pays `owner`.
pub open spec fn pays(outputs: Seq<Transfer>, owner: PublicKey) -> bool {
    exists|k: int| 0 <= k < outputs.len() && (#[trigger] outputs[k]).to == owner
}

/// Why a transaction is refused whatever the state of the chain: a fee under
/// the floor for its size, a transfer without outputs, to its own sender or
/// with too much extra data, or a reserved kind.
pub open spec fn structure_error(tx: Transaction) -> Option<BlockchainError> {
    if (tx.fee as int) < fee_floor(tx.size as int) {
        Some(BlockchainError::InvalidTxFee(fee_floor(tx.size as int) as u64, tx.fee))
    } else {
        match tx.data {
            TransactionType::Transfer(outputs) => if outputs@.len() == 0 {
                Some(BlockchainError::TxEmpty(tx.hash))
            } else if pays(outputs@, tx.owner) {
                Some(BlockchainError::InvalidTransactionToSender(tx.hash))
            } else if extra_total(outputs@, outputs@.len() as int) > EXTRA_DATA_LIMIT_SIZE {
                Some(
                    BlockchainError::InvalidTransactionExtraDataTooBig(
                        EXTRA_DATA_LIMIT_SIZE,
                        capped(extra_total(outputs@, outputs@.len() as int)),
                    ),
                )
            } else {
                None
            },
            TransactionType::Burn(_, _) => None,
            TransactionType::SmartContract => Some(BlockchainError::SmartContractTodo),
        }
    }
}

/// The entries of `key` in `asset`.
pub open spec fn spending_wanted(key: PublicKey, asset: hash::Hash) -> spec_fn(Spending) -> bool {
    |e: Spending| e.key == key && e.asset == asset
}

/// The entries of `key`.
pub open spec fn expected_wanted(key: PublicKey) -> spec_fn(ExpectedNonce) -> bool {
    |e: ExpectedNonce| e.key == key
}

/// `spent` after `key` is asked to pay `amount` more in `asset`.
pub open spec fn spend(spent: Seq<Spending>, key: PublicKey, asset: hash::Hash, amount: u64) -> Result<
    Seq<Spending>,
    BlockchainError,
> {
    let i = last_index(spent, spending_wanted(key, asset));
    if i < 0 {
        Ok(spent.push(Spending { key, asset, amount }))
    } else if spent[i].amount + amount > u64::MAX {
        Err(BlockchainError::Overflow)
    } else {
        Ok(spent.update(i, Spending { key, asset, amount: (spent[i].amount + amount) as u64 }))
    }
}

/// `spent` after the owner is asked to pay the first `n` outputs.
pub open spec fn spend_outputs(
    spent: Seq<Spending>,
    owner: PublicKey,
    outputs: Seq<Transfer>,
    n: int,
) -> Result<Seq<Spending>, BlockchainError>
    decreases n,
{
    if n <= 0 {
        Ok(spent)
    } else {
        match spend_outputs(spent, owner, outputs, n - 1) {
            Err(e) => Err(e),
            Ok(before) => spend(before, owner, outputs[n - 1].asset, outputs[n - 1].amount),
        }
    }
}

/// `spent` after the owner of `tx` is asked to pay its fee, in the native
/// asset, and what it transfers or burns.
pub open spec fn spend_tx(spent: Seq<Spending>, tx: Transaction) -> Result<
    Seq<Spending>,
    BlockchainError,
> {
    match spend(spent, tx.owner, native_asset(), tx.fee) {
        Err(e) => Err(e),
        Ok(with_fee) => match tx.data {
            TransactionType::Transfer(outputs) => spend_outputs(
                with_fee,
                tx.owner,
                outputs@,
                outputs@.len() as int,
            ),
            TransactionType::Burn(asset, amount) => spend(with_fee, tx.owner, asset, amount),
            TransactionType::SmartContract => Err(BlockchainError::SmartContractTodo),
        },
    }
}

impl Chain {
    /// Why `owner` cannot pay what the entries of `spent` from `k` on ask of
    /// it: the first asset of which it holds no balance or too little.
    pub open spec fn funds_error(self, spent: Seq<Spending>, owner: PublicKey, k: int) -> Option<
        BlockchainError,
    >
        decreases spent.len() - k,
    {
        if k < 0 || k >= spent.len() {
            None
        } else if spent[k].key != owner {
            self.funds_error(spent, owner, k + 1)
        } else if !self.has_balance(owner, spent[k].asset) {
            Some(BlockchainError::AccountNotFound(owner))
        } else if self.last_balance(owner, spent[k].asset).balance < spent[k].amount {
            Some(
                BlockchainError::NotEnoughFunds(
                    owner,
                    spent[k].asset,
                    spent[k].amount,
                    self.last_balance(owner, spent[k].asset).balance,
                ),
            )
        } else {
            self.funds_error(spent, owner, k + 1)
        }
    }

    /// The nonce expected of the next transaction of `key`: what the earlier
    /// transactions of the batch left, else the committed nonce.
    pub open spec fn expected_nonce(self, nonces: Seq<ExpectedNonce>, key: PublicKey) -> u64 {
        let i = last_index(nonces, expected_wanted(key));
        if i >= 0 {
            nonces[i].nonce
        } else {
            self.nonce_of(key)
        }
    }

    /// What verifying `tx` in a batch leaves, or why it is refused: first its
    /// structure, then its nonce, then the funds of its owner for everything
    /// the batch asks of it.
    pub open spec fn verify_in_batch(
        self,
        tx: Transaction,
        spent: Seq<Spending>,
        nonces: Seq<ExpectedNonce>,
    ) -> Result<(Seq<Spending>, Seq<ExpectedNonce>), BlockchainError> {
        match structure_error(tx) {
            Some(e) => Err(e),
            None => if self.expected_nonce(nonces, tx.owner) != tx.nonce {
                Err(BlockchainError::InvalidTxNonce)
            } else if tx.nonce == u64::MAX {
                Err(BlockchainError::Overflow)
            } else {
                match spend_tx(spent, tx) {
                    Err(e) => Err(e),
                    Ok(after) => match self.funds_error(after, tx.owner, 0) {
                        Some(e) => Err(e),
                        None => Ok((after, expect_next(nonces, tx.owner, (tx.nonce + 1) as u64))),
                    },
                }
            }
        }
    }
}

/// `nonces` with `nonce` expected next of `key`.
pub open spec fn expect_next(nonces: Seq<ExpectedNonce>, key: PublicKey, nonce: u64) -> Seq<
    ExpectedNonce,
> {
    let i = last_index(nonces, expected_wanted(key));
    if i >= 0 {
        nonces.update(i, ExpectedNonce { key, nonce })
    } else {
        nonces.push(ExpectedNonce { key, nonce })
    }
}

/// Finds the entry of `key` in `asset`.
pub fn find_spending(spent: &Vec<Spending>, key: &PublicKey, asset: &hash::Hash) -> (found: Option<
    usize,
>)
    ensures
        match found {
            Some(i) => i as int == last_index(spent@, spending_wanted(*key, *asset)) && i
                < spent.len(),
            None => last_index(spent@, spending_wanted(*key, *asset)) == -1,
        },
{
    let ghost wanted = spending_wanted(*key, *asset);
    let mut i: usize = spent.len();
    while i > 0
        invariant
            i <= spent.len(),
            wanted == spending_wanted(*key, *asset),
            forall|j: int| i <= j < spent.len() ==> !wanted(#[trigger] spent@[j]),
        decreases i,
    {
        i = i - 1;
        if spent[i].key == *key && spent[i].asset == *asset {
            proof {
                lemma_last_index_is(spent@, wanted, i as int);
            }
            return Some(i);
        }
    }
    proof {
        lemma_last_index_is(spent@, wanted, -1);
    }
    None
}

/// Finds the entry of `key`.
pub fn find_expected(nonces: &Vec<ExpectedNonce>, key: &PublicKey) -> (found: Option<usize>)
    ensures
        match found {
            Some(i) => i as int == last_index(nonces@, expected_wanted(*key)) && i < nonces.len(),
            None => last_index(nonces@, expected_wanted(*key)) == -1,
        },
{
    let ghost wanted = expected_wanted(*key);
    let mut i: usize = nonces.len();
    while i > 0
        invariant
            i <= nonces.len(),
            wanted == expected_wanted(*key),
            forall|j: int| i <= j < nonces.len() ==> !wanted(#[trigger] nonces@[j]),
        decreases i,
    {
        i = i - 1;
        if nonces[i].key == *key {
            proof {
                lemma_last_index_is(nonces@, wanted, i as int);
            }
            return Some(i);
        }
    }
    proof {
        lemma_last_index_is(nonces@, wanted, -1);
    }
    None
}

/// Asks `key` to pay `amount` more in `asset`.
pub fn add_spending(spent: &mut Vec<Spending>, key: &PublicKey, asset: &hash::Hash, amount: u64) -> (r:
    Result<(), BlockchainError>)
    ensures
        match r {
            Ok(()) => spend(old(spent)@, *key, *asset, amount) == Ok::<
                Seq<Spending>,
                BlockchainError,
            >(final(spent)@),
            Err(e) => spend(old(spent)@, *key, *asset, amount) == Err::<
                Seq<Spending>,
                BlockchainError,
            >(e) && final(spent)@ == old(spent)@,
        },
{
    match find_spending(spent, key, asset) {
        None => {
            spent.push(Spending { key: *key, asset: *asset, amount });
            Ok(())
        },
        Some(i) => match spent[i].amount.checked_add(amount) {
            None => Err(BlockchainError::Overflow),
            Some(total) => {
                spent.set(i, Spending { key: *key, asset: *asset, amount: total });
                Ok(())
            },
        },
    }
}

/// Checks what holds of a transaction whatever the state of the chain.
#[verifier::loop_isolation(false)]
pub fn verify_structure(tx: &Transaction) -> (r: Result<(), BlockchainError>)
    ensures
        match r {
            Ok(()) => structure_error(*tx) is None,
            Err(e) => structure_error(*tx) == Some(e),
        },
{
    let floor = calculate_tx_fee(tx.size);
    if tx.fee < floor {
        return Err(BlockchainError::InvalidTxFee(floor, tx.fee));
    }
    match &tx.data {
        TransactionType::Transfer(outputs) => {
            let n = outputs.len();
            if n == 0 {
                return Err(BlockchainError::TxEmpty(tx.hash));
            }
            let mut extra: usize = 0;
            let mut k: usize = 0;
            while k < n
                invariant
                    k <= n,
                    n == outputs@.len(),
                    extra == capped(extra_total(outputs@, k as int)),
                    forall|j: int| 0 <= j < k ==> (#[trigger] outputs@[j]).to != tx.owner,
                decreases n - k,
            {
                let output = &outputs[k];
                if output.to == tx.owner {
                    assert(pays(outputs@, tx.owner));
                    return Err(BlockchainError::InvalidTransactionToSender(tx.hash));
                }
                let len: usize = match &output.extra_data {
                    Some(data) => data.len(),
                    None => 0,
                };
                extra = match extra.checked_add(len) {
                    Some(total) => total,
                    None => usize::MAX,
                };
                k = k + 1;
            }
            if extra > EXTRA_DATA_LIMIT_SIZE {
                return Err(
                    BlockchainError::InvalidTransactionExtraDataTooBig(EXTRA_DATA_LIMIT_SIZE, extra),
                );
            }
            Ok(())
        },
        TransactionType::Burn(_, _) => Ok(()),
        TransactionType::SmartContract => Err(BlockchainError::SmartContractTodo),
    }
}

/// Asks the owner of `tx` to pay its fee and what it transfers or burns.
#[verifier::loop_isolation(false)]
pub fn add_tx_spendings(spent: &mut Vec<Spending>, tx: &Transaction) -> (r: Result<
    (),
    BlockchainError,
>)
    ensures
        match r {
            Ok(()) => spend_tx(old(spent)@, *tx) == Ok::<Seq<Spending>, BlockchainError>(
                final(spent)@,
            ),
            Err(e) => spend_tx(old(spent)@, *tx) == Err::<Seq<Spending>, BlockchainError>(e),
        },
{
    let asset = xelis_asset();
    add_spending(spent, &tx.owner, &asset, tx.fee)?;
    match &tx.data {
        TransactionType::Transfer(outputs) => {
            let ghost with_fee = spent@;
            let n = outputs.len();
            let mut k: usize = 0;
            while k < n
                invariant
                    k <= n,
                    n == outputs@.len(),
                    spend_outputs(with_fee, tx.owner, outputs@, k as int) == Ok::<
                        Seq<Spending>,
                        BlockchainError,
                    >(spent@),
                decreases n - k,
            {
                match add_spending(spent, &tx.owner, &outputs[k].asset, outputs[k].amount) {
                    Ok(()) => {},
                    Err(e) => {
                        proof {
                            lemma_spend_outputs_fail(with_fee, tx.owner, outputs@, k + 1, n as int);
                        }
                        return Err(e);
                    },
                }
                k = k + 1;
            }
            Ok(())
        },
        TransactionType::Burn(asset, amount) => add_spending(spent, &tx.owner, asset, *amount),
        TransactionType::SmartContract => Err(BlockchainError::SmartContractTodo),
    }
}

/// Once one output cannot be added, no longer run of outputs can, for the same reason.
pub proof fn lemma_spend_outputs_fail(
    spent: Seq<Spending>,
    owner: PublicKey,
    outputs: Seq<Transfer>,
    n: int,
    m: int,
)
    requires
        0 < n <= m,
        spend_outputs(spent, owner, outputs, n) is Err,
    ensures
        spend_outputs(spent, owner, outputs, m) == spend_outputs(spent, owner, outputs, n),
    decreases m - n,
{
    if n < m {
        lemma_spend_outputs_fail(spent, owner, outputs, n, m - 1);
    }
}

/// Checks that `owner` holds what the entries of `spent` ask of it.
pub fn check_funds(storage: &Storage, spent: &Vec<Spending>, owner: &PublicKey) -> (r: Result<
    (),
    BlockchainError,
>)
    ensures
        match r {
            Ok(()) => storage@.funds_error(spent@, *owner, 0) is None,
            Err(e) => storage@.funds_error(spent@, *owner, 0) == Some(e),
        },
{
    let n = spent.len();
    let mut k: usize = 0;
    while k < n
        invariant
            k <= n,
            n == spent@.len(),
            storage@.funds_error(spent@, *owner, 0) == storage@.funds_error(
                spent@,
                *owner,
                k as int,
            ),
        decreases n - k,
    {
        let entry = &spent[k];
        if entry.key == *owner {
            match storage.get_last_balance(owner, &entry.asset) {
                Err(e) => {
                    return Err(e);
                },
                Ok((_, balance)) => {
                    if balance < entry.amount {
                        return Err(
                            BlockchainError::NotEnoughFunds(
                                *owner,
                                entry.asset,
                                entry.amount,
                                balance,
                            ),
                        );
                    }
                },
            }
        }
        k = k + 1;
    }
    Ok(())
}

/// Verifies a transaction of a batch (a block, or the mempool) against the
/// committed state: its structure, its nonce, which must follow that of the
/// transactions of its owner before it in the batch, and the funds of its
/// owner for everything the batch asks of it. On success `balances` and
/// `nonces` take the transaction in; on failure they stay as they were.
pub fn verify_transaction(
    storage: &Storage,
    tx: &Transaction,
    balances: &mut Vec<Spending>,
    nonces: &mut Vec<ExpectedNonce>,
) -> (r: Result<(), BlockchainError>)
    ensures
        match r {
            Ok(()) => storage@.verify_in_batch(*tx, old(balances)@, old(nonces)@) == Ok::<
                (Seq<Spending>, Seq<ExpectedNonce>),
                BlockchainError,
            >((final(balances)@, final(nonces)@)),
            Err(e) => storage@.verify_in_batch(*tx, old(balances)@, old(nonces)@) == Err::<
                (Seq<Spending>, Seq<ExpectedNonce>),
                BlockchainError,
            >(e) && final(balances)@ == old(balances)@ && final(nonces)@ == old(nonces)@,
        },
{
    verify_structure(tx)?;
    let place = find_expected(nonces, &tx.owner);
    let expected = match place {
        Some(i) => nonces[i].nonce,
        None => storage.get_nonce(&tx.owner),
    };
    if expected != tx.nonce {
        return Err(BlockchainError::InvalidTxNonce);
    }
    if tx.nonce == u64::MAX {
        return Err(BlockchainError::Overflow);
    }
    let mut after: Vec<Spending> = Vec::new();
    let n = balances.len();
    let mut k: usize = 0;
    while k < n
        invariant
            k <= n,
            n == balances@.len(),
            balances@ == old(balances)@,
            after@ == balances@.take(k as int),
        decreases n - k,
    {
        after.push(balances[k]);
        proof {
            assert(after@ =~= balances@.take(k + 1));
        }
        k = k + 1;
    }
    proof {
        assert(balances@.take(n as int) =~= balances@);
    }
    add_tx_spendings(&mut after, tx)?;
    check_funds(storage, &after, &tx.owner)?;
    *balances = after;
    let next = ExpectedNonce { key: tx.owner, nonce: tx.nonce + 1 };
    match place {
        Some(i) => {
            nonces.set(i, next);
        },
        None => {
            nonces.push(next);
        },
    }
    Ok(())
}

impl Blockchain {
    /// Verifies a transaction of a batch against the committed state; see
    /// [`verify_transaction`].
    pub fn verify_transaction_with_hash(
        &self,
        storage: &Storage,
        tx: &Transaction,
        balances: &mut Vec<Spending>,
        nonces: &mut Vec<ExpectedNonce>,
    ) -> (r: Result<(), BlockchainError>)
        ensures
            match r {
                Ok(()) => storage@.verify_in_batch(*tx, old(balances)@, old(nonces)@) == Ok::<
                    (Seq<Spending>, Seq<ExpectedNonce>),
                    BlockchainError,
                >((final(balances)@, final(nonces)@)),
                Err(e) => storage@.verify_in_batch(*tx, old(balances)@, old(nonces)@) == Err::<
                    (Seq<Spending>, Seq<ExpectedNonce>),
                    BlockchainError,
                >(e) && final(balances)@ == old(balances)@ && final(nonces)@ == old(nonces)@,
            },
    {
        verify_transaction(storage, tx, balances, nonces)
    }
}

} // verus!
