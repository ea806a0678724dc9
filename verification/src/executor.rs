//! Execution of the transactions of an ordered block against the staging
//! state, and the reward of its miner.

use vstd::prelude::*;
use std::sync::Arc;
use crate::account::VersionedBalance;
use crate::blockchain::Blockchain;
use crate::chain_state::{ChainState, Role, Staging};
use crate::config::DEV_FEE_PERCENT;
use crate::error::BlockchainError;
use crate::hash;
use crate::hash::PublicKey;
use crate::storage::{BalanceEntry, Ledger, NonceEntry, StoredBlock};
use crate::transaction::{Transaction, TransactionType, Transfer};
use crate::tx_verify::{
    expect_next,
    find_expected,
    native_asset,
    structure_error,
    verify_structure,
    xelis_asset,
    ExpectedNonce,
};

verus! {

/// The share of a block reward that goes to the development key.
pub open spec fn dev_share(reward: u64) -> u64 {
    (reward as int * (DEV_FEE_PERCENT as int) / 100) as u64
}

impl Staging {
    /// An empty staging state for the block at `topoheight`.
    pub open spec fn empty(topoheight: u64, stable_topoheight: u64) -> Staging {
        Staging {
            receivers: Seq::empty(),
            accounts: Seq::empty(),
            assets: Seq::empty(),
            topoheight,
            stable_topoheight,
            fees_collected: 0,
        }
    }

    /// The state after the first `n` outputs are paid, each to its receiver
    /// and then from the owner.
    pub open spec fn transferred(
        self,
        balances: Seq<BalanceEntry>,
        nonces: Seq<NonceEntry>,
        owner: PublicKey,
        outputs: Seq<Transfer>,
        n: int,
    ) -> Result<Staging, BlockchainError>
        decreases n,
    {
        if n <= 0 {
            Ok(self)
        } else {
            match self.transferred(balances, nonces, owner, outputs, n - 1) {
                Err(e) => Err(e),
                Ok(before) => match before.credited(
                    balances,
                    outputs[n - 1].to,
                    outputs[n - 1].asset,
                    outputs[n - 1].amount,
                ) {
                    Err(e) => Err(e),
                    Ok(paid) => paid.debited(
                        balances,
                        nonces,
                        owner,
                        outputs[n - 1].asset,
                        outputs[n - 1].amount,
                    ),
                },
            }
        }
    }

    /// The state after what the transaction transfers or burns is paid.
    pub open spec fn paid(self, balances: Seq<BalanceEntry>, nonces: Seq<NonceEntry>, tx: Transaction) -> Result<
        Staging,
        BlockchainError,
    > {
        match tx.data {
            TransactionType::Transfer(outputs) => self.transferred(
                balances,
                nonces,
                tx.owner,
                outputs@,
                outputs@.len() as int,
            ),
            TransactionType::Burn(asset, amount) => self.debited(
                balances,
                nonces,
                tx.owner,
                asset,
                amount,
            ),
            TransactionType::SmartContract => Err(BlockchainError::SmartContractTodo),
        }
    }

    /// The state after the transaction is verified against it and applied:
    /// its structure and its nonce are checked, its outputs or its burn are
    /// paid, then its fee, and the nonce of its owner moves on.
    pub open spec fn executed(self, balances: Seq<BalanceEntry>, nonces: Seq<NonceEntry>, tx: Transaction) -> Result<
        Staging,
        BlockchainError,
    > {
        match structure_error(tx) {
            Some(e) => Err(e),
            None => match self.with_account(nonces, tx.owner) {
                Err(e) => Err(e),
                Ok(staged) => if staged.nonce_of(tx.owner) != tx.nonce {
                    Err(BlockchainError::InvalidTxNonce)
                } else if tx.nonce == u64::MAX {
                    Err(BlockchainError::Overflow)
                } else {
                    match staged.paid(balances, nonces, tx) {
                        Err(e) => Err(e),
                        Ok(paid) => match paid.debited(
                            balances,
                            nonces,
                            tx.owner,
                            native_asset(),
                            tx.fee,
                        ) {
                            Err(e) => Err(e),
                            Ok(charged) => if charged.fees_collected + tx.fee > u64::MAX {
                                Err(BlockchainError::Overflow)
                            } else {
                                Ok(
                                    Staging {
                                        fees_collected: (charged.fees_collected + tx.fee) as u64,
                                        ..charged.set_nonce_of(tx.owner, (tx.nonce + 1) as u64)
                                    },
                                )
                            },
                        },
                    }
                },
            },
        }
    }

    /// The state after the first `n` transactions are executed in order.
    pub open spec fn all_executed(
        self,
        balances: Seq<BalanceEntry>,
        nonces: Seq<NonceEntry>,
        txs: Seq<Arc<Transaction>>,
        n: int,
    ) -> Result<Staging, BlockchainError>
        decreases n,
    {
        if n <= 0 {
            Ok(self)
        } else {
            match self.all_executed(balances, nonces, txs, n - 1) {
                Err(e) => Err(e),
                Ok(before) => before.executed(balances, nonces, *txs[n - 1]),
            }
        }
    }

    /// The state after the block reward is paid: its development share to
    /// the development key, the rest and the fees collected to the miner.
    pub open spec fn miner_rewarded(
        self,
        balances: Seq<BalanceEntry>,
        miner: PublicKey,
        dev_key: PublicKey,
        reward: u64,
    ) -> Result<Staging, BlockchainError> {
        match self.credited(balances, dev_key, native_asset(), dev_share(reward)) {
            Err(e) => Err(e),
            Ok(shared) => shared.rewarded(balances, miner, (reward - dev_share(reward)) as u64),
        }
    }
}

/// The nonces expected next after the first `n` transactions.
pub open spec fn nonces_after(nonces: Seq<ExpectedNonce>, txs: Seq<Arc<Transaction>>, n: int) -> Seq<
    ExpectedNonce,
>
    decreases n,
{
    if n <= 0 {
        nonces
    } else {
        expect_next(nonces_after(nonces, txs, n - 1), txs[n - 1].owner, (txs[n - 1].nonce + 1) as u64)
    }
}

/// The logs after the block is executed at `topoheight` for `reward`: its
/// transactions in order, the reward of its miner, and the changes applied.
#[verifier::opaque]
pub open spec fn block_executed(
    balances: Seq<BalanceEntry>,
    nonces: Seq<NonceEntry>,
    block: StoredBlock,
    topoheight: u64,
    reward: u64,
    dev_key: PublicKey,
) -> Result<(Seq<BalanceEntry>, Seq<NonceEntry>), BlockchainError> {
    match Staging::empty(topoheight, 0).all_executed(
        balances,
        nonces,
        block.txs@,
        block.txs@.len() as int,
    ) {
        Err(e) => Err(e),
        Ok(executed) => match executed.miner_rewarded(balances, block.block.miner, dev_key, reward) {
            Err(e) => Err(e),
            Ok(rewarded) => rewarded.applied(balances, nonces),
        },
    }
}

/// Once one output cannot be paid, no longer run of outputs can, for the same reason.
pub proof fn lemma_transferred_fail(
    state: Staging,
    balances: Seq<BalanceEntry>,
    nonces: Seq<NonceEntry>,
    owner: PublicKey,
    outputs: Seq<Transfer>,
    n: int,
    m: int,
)
    requires
        0 < n <= m,
        state.transferred(balances, nonces, owner, outputs, n) is Err,
    ensures
        state.transferred(balances, nonces, owner, outputs, m) == state.transferred(
            balances,
            nonces,
            owner,
            outputs,
            n,
        ),
    decreases m - n,
{
    if n < m {
        lemma_transferred_fail(state, balances, nonces, owner, outputs, n, m - 1);
    }
}

/// Once one transaction cannot be executed, no longer run can, for the same reason.
pub proof fn lemma_all_executed_fail(
    state: Staging,
    balances: Seq<BalanceEntry>,
    nonces: Seq<NonceEntry>,
    txs: Seq<Arc<Transaction>>,
    n: int,
    m: int,
)
    requires
        0 < n <= m,
        state.all_executed(balances, nonces, txs, n) is Err,
    ensures
        state.all_executed(balances, nonces, txs, m) == state.all_executed(balances, nonces, txs, n),
    decreases m - n,
{
    if n < m {
        lemma_all_executed_fail(state, balances, nonces, txs, n, m - 1);
    }
}

impl Blockchain {
    /// The version of the balance of a receiver in the staging state, staged
    /// first where it was not.
    pub fn retrieve_balance(
        &self,
        ledger: &Ledger,
        state: &mut ChainState,
        key: &PublicKey,
        asset: &hash::Hash,
    ) -> (version: VersionedBalance)
        ensures
            final(state)@ == old(state)@.with_receiver(ledger.balances@, *key, *asset),
            version == final(state)@.receivers[final(state)@.receiver_at(*key, *asset)].version,
            version.balance == final(state)@.balance_of(*key, *asset, Role::Receiver),
    {
        match state.internal_get_account_balance(ledger, key, asset, Role::Receiver) {
            Ok(_) => {},
            Err(_) => {
                assert(false);
            },
        }
        let place = crate::chain_state::receiver_place(state, key, asset);
        state.receiver_balances[place].version
    }

    /// Adds `amount` of the asset to the staged balance of a receiver.
    pub fn add_balance(
        &self,
        ledger: &Ledger,
        state: &mut ChainState,
        key: &PublicKey,
        asset: &hash::Hash,
        amount: u64,
    ) -> (r: Result<(), BlockchainError>)
        ensures
            match r {
                Ok(()) => old(state)@.credited(ledger.balances@, *key, *asset, amount) == Ok::<
                    Staging,
                    BlockchainError,
                >(final(state)@),
                Err(e) => old(state)@.credited(ledger.balances@, *key, *asset, amount) == Err::<
                    Staging,
                    BlockchainError,
                >(e),
            },
    {
        state.credit(ledger, key, asset, amount)
    }

    /// Takes `amount` of the asset from the staged balance of a sender.
    pub fn sub_balance(
        &self,
        ledger: &Ledger,
        state: &mut ChainState,
        key: &PublicKey,
        asset: &hash::Hash,
        amount: u64,
    ) -> (r: Result<(), BlockchainError>)
        ensures
            match r {
                Ok(()) => old(state)@.debited(
                    ledger.balances@,
                    ledger.nonces@,
                    *key,
                    *asset,
                    amount,
                ) == Ok::<Staging, BlockchainError>(final(state)@),
                Err(e) => old(state)@.debited(
                    ledger.balances@,
                    ledger.nonces@,
                    *key,
                    *asset,
                    amount,
                ) == Err::<Staging, BlockchainError>(e),
            },
    {
        state.debit(ledger, key, asset, amount)
    }

    /// Pays the reward of a block: the development share to the development
    /// key, the rest and the fees collected to the miner.
    pub fn reward_miner(
        &self,
        ledger: &Ledger,
        state: &mut ChainState,
        miner: &PublicKey,
        block_reward: u64,
    ) -> (r: Result<(), BlockchainError>)
        ensures
            match r {
                Ok(()) => old(state)@.miner_rewarded(
                    ledger.balances@,
                    *miner,
                    self.dev_key,
                    block_reward,
                ) == Ok::<Staging, BlockchainError>(final(state)@),
                Err(e) => old(state)@.miner_rewarded(
                    ledger.balances@,
                    *miner,
                    self.dev_key,
                    block_reward,
                ) == Err::<Staging, BlockchainError>(e),
            },
    {
        let dev_fee: u64 = ((block_reward as u128) * (DEV_FEE_PERCENT as u128) / 100) as u64;
        let asset = xelis_asset();
        self.add_balance(ledger, state, &self.dev_key, &asset, dev_fee)?;
        state.reward_miner(ledger, miner, block_reward - dev_fee)
    }

    /// Verifies a transaction against the staging state and applies it: its
    /// outputs or its burn, then its fee, then the nonce of its owner. After
    /// a failure the staging state is to be discarded.
    #[verifier::loop_isolation(false)]
    pub fn execute_transaction(
        &self,
        ledger: &Ledger,
        transaction: &Transaction,
        nonces: &mut Vec<ExpectedNonce>,
        state: &mut ChainState,
    ) -> (r: Result<(), BlockchainError>)
        ensures
            match r {
                Ok(()) => old(state)@.executed(ledger.balances@, ledger.nonces@, *transaction)
                    == Ok::<Staging, BlockchainError>(final(state)@) && final(nonces)@
                    == expect_next(
                    old(nonces)@,
                    transaction.owner,
                    (transaction.nonce + 1) as u64,
                ),
                Err(e) => old(state)@.executed(ledger.balances@, ledger.nonces@, *transaction)
                    == Err::<Staging, BlockchainError>(e) && final(nonces)@ == old(nonces)@,
            },
    {
        verify_structure(transaction)?;
        let expected = state.internal_get_account_nonce(ledger, &transaction.owner)?;
        if expected != transaction.nonce {
            return Err(BlockchainError::InvalidTxNonce);
        }
        if transaction.nonce == u64::MAX {
            return Err(BlockchainError::Overflow);
        }
        let ghost staged = state@;
        match &transaction.data {
            TransactionType::Transfer(outputs) => {
                let n = outputs.len();
                let mut k: usize = 0;
                while k < n
                    invariant
                        k <= n,
                        n == outputs@.len(),
                        staged.transferred(
                            ledger.balances@,
                            ledger.nonces@,
                            transaction.owner,
                            outputs@,
                            k as int,
                        ) == Ok::<Staging, BlockchainError>(state@),
                    decreases n - k,
                {
                    let output = &outputs[k];
                    match self.add_balance(ledger, state, &output.to, &output.asset, output.amount) {
                        Ok(()) => {},
                        Err(e) => {
                            proof {
                                lemma_transferred_fail(
                                    staged,
                                    ledger.balances@,
                                    ledger.nonces@,
                                    transaction.owner,
                                    outputs@,
                                    k + 1,
                                    n as int,
                                );
                            }
                            return Err(e);
                        },
                    }
                    match self.sub_balance(
                        ledger,
                        state,
                        &transaction.owner,
                        &output.asset,
                        output.amount,
                    ) {
                        Ok(()) => {},
                        Err(e) => {
                            proof {
                                lemma_transferred_fail(
                                    staged,
                                    ledger.balances@,
                                    ledger.nonces@,
                                    transaction.owner,
                                    outputs@,
                                    k + 1,
                                    n as int,
                                );
                            }
                            return Err(e);
                        },
                    }
                    k = k + 1;
                }
            },
            TransactionType::Burn(asset, amount) => {
                self.sub_balance(ledger, state, &transaction.owner, asset, *amount)?;
            },
            TransactionType::SmartContract => {
                return Err(BlockchainError::SmartContractTodo);
            },
        }
        let asset = xelis_asset();
        self.sub_balance(ledger, state, &transaction.owner, &asset, transaction.fee)?;
        let fees = match state.fees_collected.checked_add(transaction.fee) {
            Some(fees) => fees,
            None => {
                return Err(BlockchainError::Overflow);
            },
        };
        let ghost charged = state@;
        match state.internal_update_account_nonce(ledger, &transaction.owner, transaction.nonce + 1) {
            Ok(()) => {},
            Err(e) => {
                return Err(e);
            },
        }
        state.fees_collected = fees;
        let next = ExpectedNonce { key: transaction.owner, nonce: transaction.nonce + 1 };
        match find_expected(nonces, &transaction.owner) {
            Some(i) => {
                nonces.set(i, next);
            },
            None => {
                nonces.push(next);
            },
        }
        Ok(())
    }

    /// Executes a block at `topoheight` for `reward` on the logs: its
    /// transactions in order, the reward of its miner, and the changes
    /// applied. `nonces` takes in the nonce that each sender has then.
    #[verifier::loop_isolation(false)]
    pub fn execute_block(
        &self,
        ledger: &mut Ledger,
        block: &StoredBlock,
        topoheight: u64,
        reward: u64,
        nonces: &mut Vec<ExpectedNonce>,
    ) -> (r: Result<(), BlockchainError>)
        ensures
            match r {
                Ok(()) => block_executed(
                    old(ledger).balances@,
                    old(ledger).nonces@,
                    *block,
                    topoheight,
                    reward,
                    self.dev_key,
                ) == Ok::<(Seq<BalanceEntry>, Seq<NonceEntry>), BlockchainError>(
                    (final(ledger).balances@, final(ledger).nonces@),
                ) && final(nonces)@ == nonces_after(
                    old(nonces)@,
                    block.txs@,
                    block.txs@.len() as int,
                ),
                Err(e) => block_executed(
                    old(ledger).balances@,
                    old(ledger).nonces@,
                    *block,
                    topoheight,
                    reward,
                    self.dev_key,
                ) == Err::<(Seq<BalanceEntry>, Seq<NonceEntry>), BlockchainError>(e)
                    && final(ledger).balances@ == old(ledger).balances@ && final(ledger).nonces@
                    == old(ledger).nonces@,
            },
    {
        reveal(block_executed);
        let mut state = ChainState::new(topoheight, 0);
        let ghost start = state@;
        let ghost nonces0 = nonces@;
        let n = block.txs.len();
        let mut k: usize = 0;
        while k < n
            invariant
                k <= n,
                n == block.txs@.len(),
                start.all_executed(ledger.balances@, ledger.nonces@, block.txs@, k as int) == Ok::<
                    Staging,
                    BlockchainError,
                >(state@),
                nonces@ == nonces_after(nonces0, block.txs@, k as int),
                ledger.balances@ == old(ledger).balances@,
                ledger.nonces@ == old(ledger).nonces@,
            decreases n - k,
        {
            match self.execute_transaction(ledger, &block.txs[k], nonces, &mut state) {
                Ok(()) => {},
                Err(e) => {
                    proof {
                        lemma_all_executed_fail(
                            start,
                            ledger.balances@,
                            ledger.nonces@,
                            block.txs@,
                            k + 1,
                            n as int,
                        );
                    }
                    return Err(e);
                },
            }
            k = k + 1;
        }
        self.reward_miner(ledger, &mut state, &block.block.miner, reward)?;
        state.apply_changes(ledger)
    }
}

} // verus!
