//! The staging state of one block: the balances and nonces that executing
//! its transactions changes, kept apart from the logs until they are applied.

use vstd::prelude::*;
use crate::account::{VersionedBalance, VersionedNonce};
use crate::error::BlockchainError;
use crate::hash;
use crate::hash::PublicKey;
use crate::ledger::{
    last_index,
    lemma_last_index_is,
    new_version,
    new_versioned_balance,
    nonce_before,
    find_nonce_before,
};
use crate::storage::{BalanceEntry, Ledger, NonceEntry};
use crate::tx_verify::{native_asset, xelis_asset};

verus! {

/// The side of a transfer an account is on.
#[derive(Clone, Copy, Debug, PartialEq, Eq, Structural)]
pub enum Role {
    Sender,
    Receiver,
}

/// What a sender holds of an asset while a block is executed: the version
/// its spending is taken from, and the sum of what it has spent.
#[derive(Clone, Copy, Debug, PartialEq, Eq, Structural)]
pub struct Echange {
    pub version: VersionedBalance,
    pub change: Option<u64>,
    pub use_output: bool,
}

/// The staged balance of a receiver in an asset.
#[derive(Clone, Copy, Debug, PartialEq, Eq, Structural)]
pub struct ReceiverBalance {
    pub key: PublicKey,
    pub asset: hash::Hash,
    pub version: VersionedBalance,
}

/// The staged nonce of a sender.
#[derive(Clone, Copy, Debug, PartialEq, Eq, Structural)]
pub struct SenderAccount {
    pub key: PublicKey,
    pub nonce: VersionedNonce,
}

/// The staged spending of a sender in an asset.
#[derive(Clone, Copy, Debug, PartialEq, Eq, Structural)]
pub struct SenderAsset {
    pub key: PublicKey,
    pub asset: hash::Hash,
    pub echange: Echange,
}

/// The staging state of the block at `topoheight`.
pub struct ChainState {
    pub receiver_balances: Vec<ReceiverBalance>,
    pub accounts: Vec<SenderAccount>,
    pub assets: Vec<SenderAsset>,
    pub topoheight: u64,
    pub stable_topoheight: u64,
    pub fees_collected: u64,
}

/// A staging state as a mathematical value.
pub struct Staging {
    pub receivers: Seq<ReceiverBalance>,
    pub accounts: Seq<SenderAccount>,
    pub assets: Seq<SenderAsset>,
    pub topoheight: u64,
    pub stable_topoheight: u64,
    pub fees_collected: u64,
}

impl View for ChainState {
    type V = Staging;

    open spec fn view(&self) -> Staging {
        Staging {
            receivers: self.receiver_balances@,
            accounts: self.accounts@,
            assets: self.assets@,
            topoheight: self.topoheight,
            stable_topoheight: self.stable_topoheight,
            fees_collected: self.fees_collected,
        }
    }
}

pub open spec fn receiver_wanted(key: PublicKey, asset: hash::Hash) -> spec_fn(ReceiverBalance) -> bool {
    |e: ReceiverBalance| e.key == key && e.asset == asset
}

pub open spec fn account_wanted(key: PublicKey) -> spec_fn(SenderAccount) -> bool {
    |e: SenderAccount| e.key == key
}

pub open spec fn asset_wanted(key: PublicKey, asset: hash::Hash) -> spec_fn(SenderAsset) -> bool {
    |e: SenderAsset| e.key == key && e.asset == asset
}

impl Echange {
    /// The state of a sender that has not spent yet.
    pub open spec fn fresh(version: VersionedBalance) -> Echange {
        Echange { version, change: None, use_output: version.output_balance is Some }
    }

    /// The state after the balance to spend from is set to `value`: the
    /// output balance where one is in use, else the balance.
    pub open spec fn with_balance(self, value: u64) -> Echange {
        if self.use_output && self.version.output_balance is Some {
            Echange {
                version: VersionedBalance { output_balance: Some(value), ..self.version },
                ..self
            }
        } else {
            Echange { version: VersionedBalance { balance: value, ..self.version }, ..self }
        }
    }

    /// The sum of what was spent, `change` more.
    pub open spec fn spent_after(self, change: u64) -> int {
        match self.change {
            Some(c) => c + change,
            None => change as int,
        }
    }

    /// The state of a sender that has not spent yet.
    pub fn new(version: VersionedBalance) -> (e: Echange)
        ensures
            e == Echange::fresh(version),
    {
        Echange { version, change: None, use_output: version.output_balance.is_some() }
    }

    /// The balance that transactions are verified against.
    pub fn get_balance(&self) -> (balance: u64)
        ensures
            balance == self.version.balance,
    {
        self.version.balance
    }

    /// The balance that transactions are verified against, to be changed in place.
    pub fn get_mut_balance(&mut self) -> (balance: &mut u64)
        ensures
            *balance == old(self).version.balance,
            *final(self) == (Echange {
                version: VersionedBalance { balance: *final(balance), ..old(self).version },
                ..*old(self)
            }),
    {
        &mut self.version.balance
    }

    /// Sets the balance to spend from.
    pub fn set_balance(&mut self, value: u64)
        ensures
            *final(self) == old(self).with_balance(value),
    {
        if self.use_output && self.version.output_balance.is_some() {
            self.version.output_balance = Some(value);
        } else {
            self.version.balance = value;
        }
    }

    /// Adds `change` to the sum of what was spent.
    pub fn add_change(&mut self, change: u64) -> (r: Result<(), BlockchainError>)
        ensures
            match r {
                Ok(()) => old(self).spent_after(change) <= u64::MAX && *final(self) == (Echange {
                    change: Some(old(self).spent_after(change) as u64),
                    ..*old(self)
                }),
                Err(e) => old(self).spent_after(change) > u64::MAX && e
                    == BlockchainError::Overflow && *final(self) == *old(self),
            },
    {
        match self.change {
            Some(c) => match c.checked_add(change) {
                Some(total) => {
                    self.change = Some(total);
                    Ok(())
                },
                None => Err(BlockchainError::Overflow),
            },
            None => {
                self.change = Some(change);
                Ok(())
            },
        }
    }
}

impl Staging {
    /// The place of the staged balance of the receiver, or -1.
    pub open spec fn receiver_at(self, key: PublicKey, asset: hash::Hash) -> int {
        last_index(self.receivers, receiver_wanted(key, asset))
    }

    /// The place of the staged nonce of the sender, or -1.
    pub open spec fn account_at(self, key: PublicKey) -> int {
        last_index(self.accounts, account_wanted(key))
    }

    /// The place of the staged spending of the sender, or -1.
    pub open spec fn asset_at(self, key: PublicKey, asset: hash::Hash) -> int {
        last_index(self.assets, asset_wanted(key, asset))
    }

    /// The state with the balance of the receiver staged: where it was not,
    /// the version that follows its last one in the log.
    pub open spec fn with_receiver(self, balances: Seq<BalanceEntry>, key: PublicKey, asset: hash::Hash) -> Staging {
        if self.receiver_at(key, asset) >= 0 {
            self
        } else {
            Staging {
                receivers: self.receivers.push(
                    ReceiverBalance {
                        key,
                        asset,
                        version: new_version(balances, key, asset, self.topoheight as int),
                    },
                ),
                ..self
            }
        }
    }

    /// The state with the nonce of the sender staged: where it was not, its
    /// last nonce in the log, which it must have.
    pub open spec fn with_account(self, nonces: Seq<NonceEntry>, key: PublicKey) -> Result<
        Staging,
        BlockchainError,
    > {
        if self.account_at(key) >= 0 {
            Ok(self)
        } else {
            let i = nonce_before(nonces, key, self.topoheight as int);
            if i < 0 {
                Err(BlockchainError::AccountNotFound(key))
            } else {
                Ok(
                    Staging {
                        accounts: self.accounts.push(
                            SenderAccount {
                                key,
                                nonce: VersionedNonce {
                                    nonce: nonces[i].nonce,
                                    previous_topoheight: Some(nonces[i].topoheight),
                                },
                            },
                        ),
                        ..self
                    },
                )
            }
        }
    }

    /// The state with the spending of the sender in the asset staged.
    pub open spec fn with_echange(self, balances: Seq<BalanceEntry>, key: PublicKey, asset: hash::Hash) -> Staging {
        if self.asset_at(key, asset) >= 0 {
            self
        } else {
            Staging {
                assets: self.assets.push(
                    SenderAsset {
                        key,
                        asset,
                        echange: Echange::fresh(
                            new_version(balances, key, asset, self.topoheight as int),
                        ),
                    },
                ),
                ..self
            }
        }
    }

    /// The state with the account staged on the given side, or why it cannot be.
    pub open spec fn with_side(
        self,
        balances: Seq<BalanceEntry>,
        nonces: Seq<NonceEntry>,
        key: PublicKey,
        asset: hash::Hash,
        role: Role,
    ) -> Result<Staging, BlockchainError> {
        match role {
            Role::Receiver => Ok(self.with_receiver(balances, key, asset)),
            Role::Sender => match self.with_account(nonces, key) {
                Err(e) => Err(e),
                Ok(staged) => Ok(staged.with_echange(balances, key, asset)),
            },
        }
    }

    /// The staged balance of the account on the given side.
    pub open spec fn balance_of(self, key: PublicKey, asset: hash::Hash, role: Role) -> u64 {
        match role {
            Role::Receiver => self.receivers[self.receiver_at(key, asset)].version.balance,
            Role::Sender => self.assets[self.asset_at(key, asset)].echange.version.balance,
        }
    }

    /// The state with the staged balance of the account on the given side set.
    pub open spec fn set_balance_of(self, key: PublicKey, asset: hash::Hash, value: u64, role: Role) -> Staging {
        match role {
            Role::Receiver => {
                let i = self.receiver_at(key, asset);
                Staging {
                    receivers: self.receivers.update(
                        i,
                        ReceiverBalance {
                            version: VersionedBalance { balance: value, ..self.receivers[i].version },
                            ..self.receivers[i]
                        },
                    ),
                    ..self
                }
            },
            Role::Sender => {
                let i = self.asset_at(key, asset);
                Staging {
                    assets: self.assets.update(
                        i,
                        SenderAsset {
                            echange: self.assets[i].echange.with_balance(value),
                            ..self.assets[i]
                        },
                    ),
                    ..self
                }
            },
        }
    }

    /// The state after the balance of the account on the given side is set,
    /// staging the account first.
    pub open spec fn updated(
        self,
        balances: Seq<BalanceEntry>,
        nonces: Seq<NonceEntry>,
        key: PublicKey,
        asset: hash::Hash,
        value: u64,
        role: Role,
    ) -> Result<Staging, BlockchainError> {
        match self.with_side(balances, nonces, key, asset, role) {
            Err(e) => Err(e),
            Ok(staged) => Ok(staged.set_balance_of(key, asset, value, role)),
        }
    }

    /// The state after the sender has spent `change` more of the asset.
    pub open spec fn changed(self, key: PublicKey, asset: hash::Hash, change: u64) -> Result<
        Staging,
        BlockchainError,
    > {
        let i = self.asset_at(key, asset);
        if self.account_at(key) < 0 || i < 0 {
            Err(BlockchainError::NoTxSender(key))
        } else if self.assets[i].echange.spent_after(change) > u64::MAX {
            Err(BlockchainError::Overflow)
        } else {
            Ok(
                Staging {
                    assets: self.assets.update(
                        i,
                        SenderAsset {
                            echange: Echange {
                                change: Some(self.assets[i].echange.spent_after(change) as u64),
                                ..self.assets[i].echange
                            },
                            ..self.assets[i]
                        },
                    ),
                    ..self
                },
            )
        }
    }

    /// The staged nonce of the sender.
    pub open spec fn nonce_of(self, key: PublicKey) -> u64 {
        self.accounts[self.account_at(key)].nonce.nonce
    }

    /// The state with the staged nonce of the sender set.
    pub open spec fn set_nonce_of(self, key: PublicKey, value: u64) -> Staging {
        let i = self.account_at(key);
        Staging {
            accounts: self.accounts.update(
                i,
                SenderAccount {
                    nonce: VersionedNonce { nonce: value, ..self.accounts[i].nonce },
                    ..self.accounts[i]
                },
            ),
            ..self
        }
    }

    /// The state after the receiver is paid `amount` of the asset.
    pub open spec fn credited(self, balances: Seq<BalanceEntry>, key: PublicKey, asset: hash::Hash, amount: u64) -> Result<
        Staging,
        BlockchainError,
    > {
        let staged = self.with_receiver(balances, key, asset);
        let balance = staged.balance_of(key, asset, Role::Receiver);
        if balance + amount > u64::MAX {
            Err(BlockchainError::Overflow)
        } else {
            Ok(staged.set_balance_of(key, asset, (balance + amount) as u64, Role::Receiver))
        }
    }

    /// The state after the sender has paid `amount` of the asset.
    pub open spec fn debited(
        self,
        balances: Seq<BalanceEntry>,
        nonces: Seq<NonceEntry>,
        key: PublicKey,
        asset: hash::Hash,
        amount: u64,
    ) -> Result<Staging, BlockchainError> {
        match self.with_side(balances, nonces, key, asset, Role::Sender) {
            Err(e) => Err(e),
            Ok(staged) => {
                let balance = staged.balance_of(key, asset, Role::Sender);
                if balance < amount {
                    Err(BlockchainError::NotEnoughFunds(key, asset, amount, balance))
                } else {
                    staged.set_balance_of(key, asset, (balance - amount) as u64, Role::Sender).changed(
                        key,
                        asset,
                        amount,
                    )
                }
            },
        }
    }

    /// The state after the miner is paid `reward` and the fees collected.
    pub open spec fn rewarded(self, balances: Seq<BalanceEntry>, miner: PublicKey, reward: u64) -> Result<
        Staging,
        BlockchainError,
    > {
        if reward + self.fees_collected > u64::MAX {
            Err(BlockchainError::Overflow)
        } else {
            self.credited(balances, miner, native_asset(), (reward + self.fees_collected) as u64)
        }
    }
}

/// The place of the staged balance of a receiver that is staged.
pub fn receiver_place(state: &ChainState, key: &PublicKey, asset: &hash::Hash) -> (place: usize)
    requires
        state@.receiver_at(*key, *asset) >= 0,
    ensures
        place as int == state@.receiver_at(*key, *asset),
        place < state.receiver_balances.len(),
{
    match find_receiver(&state.receiver_balances, key, asset) {
        Some(place) => place,
        None => {
            assert(false);
            0
        },
    }
}

fn find_receiver(list: &Vec<ReceiverBalance>, key: &PublicKey, asset: &hash::Hash) -> (found: Option<
    usize,
>)
    ensures
        match found {
            Some(i) => i as int == last_index(list@, receiver_wanted(*key, *asset)) && i
                < list.len(),
            None => last_index(list@, receiver_wanted(*key, *asset)) == -1,
        },
{
    let ghost wanted = receiver_wanted(*key, *asset);
    let mut i: usize = list.len();
    while i > 0
        invariant
            i <= list.len(),
            wanted == receiver_wanted(*key, *asset),
            forall|j: int| i <= j < list.len() ==> !wanted(#[trigger] list@[j]),
        decreases i,
    {
        i = i - 1;
        if list[i].key == *key && list[i].asset == *asset {
            proof {
                lemma_last_index_is(list@, wanted, i as int);
            }
            return Some(i);
        }
    }
    proof {
        lemma_last_index_is(list@, wanted, -1);
    }
    None
}

fn find_account(list: &Vec<SenderAccount>, key: &PublicKey) -> (found: Option<usize>)
    ensures
        match found {
            Some(i) => i as int == last_index(list@, account_wanted(*key)) && i < list.len(),
            None => last_index(list@, account_wanted(*key)) == -1,
        },
{
    let ghost wanted = account_wanted(*key);
    let mut i: usize = list.len();
    while i > 0
        invariant
            i <= list.len(),
            wanted == account_wanted(*key),
            forall|j: int| i <= j < list.len() ==> !wanted(#[trigger] list@[j]),
        decreases i,
    {
        i = i - 1;
        if list[i].key == *key {
            proof {
                lemma_last_index_is(list@, wanted, i as int);
            }
            return Some(i);
        }
    }
    proof {
        lemma_last_index_is(list@, wanted, -1);
    }
    None
}

fn find_asset(list: &Vec<SenderAsset>, key: &PublicKey, asset: &hash::Hash) -> (found: Option<usize>)
    ensures
        match found {
            Some(i) => i as int == last_index(list@, asset_wanted(*key, *asset)) && i < list.len(),
            None => last_index(list@, asset_wanted(*key, *asset)) == -1,
        },
{
    let ghost wanted = asset_wanted(*key, *asset);
    let mut i: usize = list.len();
    while i > 0
        invariant
            i <= list.len(),
            wanted == asset_wanted(*key, *asset),
            forall|j: int| i <= j < list.len() ==> !wanted(#[trigger] list@[j]),
        decreases i,
    {
        i = i - 1;
        if list[i].key == *key && list[i].asset == *asset {
            proof {
                lemma_last_index_is(list@, wanted, i as int);
            }
            return Some(i);
        }
    }
    proof {
        lemma_last_index_is(list@, wanted, -1);
    }
    None
}

impl ChainState {
    /// An empty staging state for the block at `topoheight`.
    pub fn new(topoheight: u64, stable_topoheight: u64) -> (state: ChainState)
        ensures
            state@ == (Staging {
                receivers: Seq::empty(),
                accounts: Seq::empty(),
                assets: Seq::empty(),
                topoheight,
                stable_topoheight,
                fees_collected: 0,
            }),
    {
        ChainState {
            receiver_balances: Vec::new(),
            accounts: Vec::new(),
            assets: Vec::new(),
            topoheight,
            stable_topoheight,
            fees_collected: 0,
        }
    }

    /// The state of a sender in an asset before it spends.
    pub fn create_sender_echange(ledger: &Ledger, key: &PublicKey, asset: &hash::Hash, topoheight: u64) -> (e:
        Echange)
        ensures
            e == Echange::fresh(new_version(ledger.balances@, *key, *asset, topoheight as int)),
    {
        Echange::new(new_versioned_balance(&ledger.balances, key, asset, topoheight))
    }

    /// The account of a sender, with its last nonce under `topoheight`.
    pub fn create_sender_account(ledger: &Ledger, key: &PublicKey, topoheight: u64) -> (r: Result<
        SenderAccount,
        BlockchainError,
    >)
        ensures
            match r {
                Ok(account) => {
                    let i = nonce_before(ledger.nonces@, *key, topoheight as int);
                    i >= 0 && account == (SenderAccount {
                        key: *key,
                        nonce: VersionedNonce {
                            nonce: ledger.nonces@[i].nonce,
                            previous_topoheight: Some(ledger.nonces@[i].topoheight),
                        },
                    })
                },
                Err(e) => nonce_before(ledger.nonces@, *key, topoheight as int) < 0 && e
                    == BlockchainError::AccountNotFound(*key),
            },
    {
        match find_nonce_before(&ledger.nonces, key, topoheight as u128) {
            Some(i) => Ok(
                SenderAccount {
                    key: *key,
                    nonce: VersionedNonce {
                        nonce: ledger.nonces[i].nonce,
                        previous_topoheight: Some(ledger.nonces[i].topoheight),
                    },
                },
            ),
            None => Err(BlockchainError::AccountNotFound(*key)),
        }
    }

    /// Stages the account on the given side, where it is not staged yet.
    fn stage(&mut self, ledger: &Ledger, key: &PublicKey, asset: &hash::Hash, role: Role) -> (r:
        Result<usize, BlockchainError>)
        ensures
            match r {
                Ok(place) => old(self)@.with_side(
                    ledger.balances@,
                    ledger.nonces@,
                    *key,
                    *asset,
                    role,
                ) == Ok::<Staging, BlockchainError>(final(self)@) && match role {
                    Role::Receiver => place as int == final(self)@.receiver_at(*key, *asset)
                        && place < final(self).receiver_balances.len(),
                    Role::Sender => place as int == final(self)@.asset_at(*key, *asset) && place
                        < final(self).assets.len(),
                },
                Err(e) => old(self)@.with_side(
                    ledger.balances@,
                    ledger.nonces@,
                    *key,
                    *asset,
                    role,
                ) == Err::<Staging, BlockchainError>(e) && final(self)@ == old(self)@,
            },
    {
        match role {
            Role::Receiver => match find_receiver(&self.receiver_balances, key, asset) {
                Some(i) => Ok(i),
                None => {
                    let version = new_versioned_balance(
                        &ledger.balances,
                        key,
                        asset,
                        self.topoheight,
                    );
                    let entry = ReceiverBalance { key: *key, asset: *asset, version };
                    proof {
                        crate::ledger::lemma_last_index_push(
                            self.receiver_balances@,
                            entry,
                            receiver_wanted(*key, *asset),
                        );
                    }
                    self.receiver_balances.push(entry);
                    Ok(self.receiver_balances.len() - 1)
                },
            },
            Role::Sender => {
                if find_account(&self.accounts, key).is_none() {
                    let account = Self::create_sender_account(ledger, key, self.topoheight)?;
                    self.accounts.push(account);
                }
                match find_asset(&self.assets, key, asset) {
                    Some(i) => Ok(i),
                    None => {
                        let echange = Self::create_sender_echange(
                            ledger,
                            key,
                            asset,
                            self.topoheight,
                        );
                        let entry = SenderAsset { key: *key, asset: *asset, echange };
                        proof {
                            crate::ledger::lemma_last_index_push(
                                self.assets@,
                                entry,
                                asset_wanted(*key, *asset),
                            );
                        }
                        self.assets.push(entry);
                        Ok(self.assets.len() - 1)
                    },
                }
            },
        }
    }

    /// The balance of the account on the given side, staged first where it
    /// was not: from the version that follows its last one in the log.
    pub fn internal_get_account_balance(
        &mut self,
        ledger: &Ledger,
        key: &PublicKey,
        asset: &hash::Hash,
        role: Role,
    ) -> (r: Result<u64, BlockchainError>)
        ensures
            match r {
                Ok(balance) => old(self)@.with_side(
                    ledger.balances@,
                    ledger.nonces@,
                    *key,
                    *asset,
                    role,
                ) == Ok::<Staging, BlockchainError>(final(self)@) && balance
                    == final(self)@.balance_of(*key, *asset, role),
                Err(e) => old(self)@.with_side(
                    ledger.balances@,
                    ledger.nonces@,
                    *key,
                    *asset,
                    role,
                ) == Err::<Staging, BlockchainError>(e) && final(self)@ == old(self)@,
            },
    {
        let place = self.stage(ledger, key, asset, role)?;
        match role {
            Role::Receiver => Ok(self.receiver_balances[place].version.balance),
            Role::Sender => Ok(self.assets[place].echange.get_balance()),
        }
    }

    /// Sets the balance of the account on the given side, staged first where
    /// it was not.
    pub fn internal_update_account_balance(
        &mut self,
        ledger: &Ledger,
        key: &PublicKey,
        asset: &hash::Hash,
        value: u64,
        role: Role,
    ) -> (r: Result<(), BlockchainError>)
        ensures
            match r {
                Ok(()) => old(self)@.updated(
                    ledger.balances@,
                    ledger.nonces@,
                    *key,
                    *asset,
                    value,
                    role,
                ) == Ok::<Staging, BlockchainError>(final(self)@),
                Err(e) => old(self)@.updated(
                    ledger.balances@,
                    ledger.nonces@,
                    *key,
                    *asset,
                    value,
                    role,
                ) == Err::<Staging, BlockchainError>(e) && final(self)@ == old(self)@,
            },
    {
        let place = self.stage(ledger, key, asset, role)?;
        match role {
            Role::Receiver => {
                let mut entry = self.receiver_balances[place];
                entry.version.set_balance(value);
                self.receiver_balances.set(place, entry);
            },
            Role::Sender => {
                let mut entry = self.assets[place];
                entry.echange.set_balance(value);
                self.assets.set(place, entry);
            },
        }
        Ok(())
    }

    /// Adds `change` to what the sender has spent of the asset. The sender
    /// must have been staged.
    pub fn internal_update_sender_echange(&mut self, key: &PublicKey, asset: &hash::Hash, change: u64) -> (r:
        Result<(), BlockchainError>)
        ensures
            match r {
                Ok(()) => old(self)@.changed(*key, *asset, change) == Ok::<
                    Staging,
                    BlockchainError,
                >(final(self)@),
                Err(e) => old(self)@.changed(*key, *asset, change) == Err::<
                    Staging,
                    BlockchainError,
                >(e) && final(self)@ == old(self)@,
            },
    {
        if find_account(&self.accounts, key).is_none() {
            return Err(BlockchainError::NoTxSender(*key));
        }
        match find_asset(&self.assets, key, asset) {
            None => Err(BlockchainError::NoTxSender(*key)),
            Some(place) => {
                let mut entry = self.assets[place];
                entry.echange.add_change(change)?;
                self.assets.set(place, entry);
                Ok(())
            },
        }
    }

    /// The nonce of the sender, staged first where it was not.
    pub fn internal_get_account_nonce(&mut self, ledger: &Ledger, key: &PublicKey) -> (r: Result<
        u64,
        BlockchainError,
    >)
        ensures
            match r {
                Ok(nonce) => old(self)@.with_account(ledger.nonces@, *key) == Ok::<
                    Staging,
                    BlockchainError,
                >(final(self)@) && nonce == final(self)@.nonce_of(*key),
                Err(e) => old(self)@.with_account(ledger.nonces@, *key) == Err::<
                    Staging,
                    BlockchainError,
                >(e) && final(self)@ == old(self)@,
            },
    {
        match find_account(&self.accounts, key) {
            Some(i) => Ok(self.accounts[i].nonce.get_nonce()),
            None => {
                let account = Self::create_sender_account(ledger, key, self.topoheight)?;
                proof {
                    crate::ledger::lemma_last_index_push(
                        self.accounts@,
                        account,
                        account_wanted(*key),
                    );
                }
                self.accounts.push(account);
                Ok(account.nonce.get_nonce())
            },
        }
    }

    /// Sets the nonce of the sender, staged first where it was not.
    pub fn internal_update_account_nonce(&mut self, ledger: &Ledger, key: &PublicKey, value: u64) -> (r:
        Result<(), BlockchainError>)
        ensures
            match r {
                Ok(()) => match old(self)@.with_account(ledger.nonces@, *key) {
                    Ok(staged) => final(self)@ == staged.set_nonce_of(*key, value),
                    Err(_) => false,
                },
                Err(e) => old(self)@.with_account(ledger.nonces@, *key) == Err::<
                    Staging,
                    BlockchainError,
                >(e) && final(self)@ == old(self)@,
            },
    {
        let place = match find_account(&self.accounts, key) {
            Some(i) => i,
            None => {
                let account = Self::create_sender_account(ledger, key, self.topoheight)?;
                proof {
                    crate::ledger::lemma_last_index_push(
                        self.accounts@,
                        account,
                        account_wanted(*key),
                    );
                }
                self.accounts.push(account);
                self.accounts.len() - 1
            },
        };
        let mut entry = self.accounts[place];
        entry.nonce.set_nonce(value);
        self.accounts.set(place, entry);
        Ok(())
    }

    /// Pays the receiver `amount` of the asset.
    pub fn credit(&mut self, ledger: &Ledger, key: &PublicKey, asset: &hash::Hash, amount: u64) -> (r:
        Result<(), BlockchainError>)
        ensures
            match r {
                Ok(()) => old(self)@.credited(ledger.balances@, *key, *asset, amount) == Ok::<
                    Staging,
                    BlockchainError,
                >(final(self)@),
                Err(e) => old(self)@.credited(ledger.balances@, *key, *asset, amount) == Err::<
                    Staging,
                    BlockchainError,
                >(e),
            },
    {
        let balance = match self.internal_get_account_balance(ledger, key, asset, Role::Receiver) {
            Ok(balance) => balance,
            Err(e) => {
                return Err(e);
            },
        };
        match balance.checked_add(amount) {
            None => Err(BlockchainError::Overflow),
            Some(total) => {
                let ghost staged = self@;
                let r = self.internal_update_account_balance(ledger, key, asset, total, Role::Receiver);
                proof {
                    assert(staged.with_receiver(ledger.balances@, *key, *asset) == staged);
                }
                r
            },
        }
    }

    /// Takes `amount` of the asset from the sender and counts it as spent.
    pub fn debit(&mut self, ledger: &Ledger, key: &PublicKey, asset: &hash::Hash, amount: u64) -> (r:
        Result<(), BlockchainError>)
        ensures
            match r {
                Ok(()) => old(self)@.debited(
                    ledger.balances@,
                    ledger.nonces@,
                    *key,
                    *asset,
                    amount,
                ) == Ok::<Staging, BlockchainError>(final(self)@),
                Err(e) => old(self)@.debited(
                    ledger.balances@,
                    ledger.nonces@,
                    *key,
                    *asset,
                    amount,
                ) == Err::<Staging, BlockchainError>(e),
            },
    {
        let balance = self.internal_get_account_balance(ledger, key, asset, Role::Sender)?;
        if balance < amount {
            return Err(BlockchainError::NotEnoughFunds(*key, *asset, amount, balance));
        }
        let ghost staged = self@;
        let r = self.internal_update_account_balance(ledger, key, asset, balance - amount, Role::Sender);
        proof {
            assert(staged.with_account(ledger.nonces@, *key) == Ok::<Staging, BlockchainError>(
                staged,
            ));
            assert(staged.with_echange(ledger.balances@, *key, *asset) == staged);
        }
        match r {
            Ok(()) => {},
            Err(e) => {
                return Err(e);
            },
        }
        self.internal_update_sender_echange(key, asset, amount)
    }

    /// Pays the miner `reward` and the fees collected from the transactions.
    pub fn reward_miner(&mut self, ledger: &Ledger, miner: &PublicKey, reward: u64) -> (r: Result<
        (),
        BlockchainError,
    >)
        ensures
            match r {
                Ok(()) => old(self)@.rewarded(ledger.balances@, *miner, reward) == Ok::<
                    Staging,
                    BlockchainError,
                >(final(self)@),
                Err(e) => old(self)@.rewarded(ledger.balances@, *miner, reward) == Err::<
                    Staging,
                    BlockchainError,
                >(e),
            },
    {
        match reward.checked_add(self.fees_collected) {
            None => Err(BlockchainError::Overflow),
            Some(total) => {
                let asset = xelis_asset();
                self.credit(ledger, miner, &asset, total)
            },
        }
    }
}


/// The staged balances after the spending of one sender in one asset is
/// merged in: where the sender also received, the balance after the spending
/// alone is kept as output balance and what was spent is taken from the
/// final balance; else the balance after the spending is the final balance.
pub open spec fn merge_asset(list: Seq<ReceiverBalance>, spent: SenderAsset) -> Result<
    Seq<ReceiverBalance>,
    BlockchainError,
> {
    let i = last_index(list, receiver_wanted(spent.key, spent.asset));
    if i < 0 {
        Ok(
            list.push(
                ReceiverBalance { key: spent.key, asset: spent.asset, version: spent.echange.version },
            ),
        )
    } else {
        match spent.echange.change {
            None => Err(BlockchainError::NoSenderOutput),
            Some(change) => if list[i].version.balance < change {
                Err(BlockchainError::Overflow)
            } else {
                Ok(
                    list.update(
                        i,
                        ReceiverBalance {
                            version: VersionedBalance {
                                balance: (list[i].version.balance - change) as u64,
                                output_balance: Some(spent.echange.version.balance),
                                ..list[i].version
                            },
                            ..list[i]
                        },
                    ),
                )
            },
        }
    }
}

/// The log of nonces with the sender's staged nonce appended.
pub open spec fn sender_nonce(account: SenderAccount, topoheight: u64) -> NonceEntry {
    NonceEntry { key: account.key, topoheight, nonce: account.nonce.nonce }
}

/// The version of a staged balance as the log records it.
pub open spec fn balance_entry(staged: ReceiverBalance, topoheight: u64) -> BalanceEntry {
    BalanceEntry {
        key: staged.key,
        asset: staged.asset,
        topoheight,
        balance: staged.version.balance,
        output_balance: staged.version.output_balance,
    }
}

impl Staging {
    /// The staged balances with the spending of the first `k` sender assets merged in.
    pub open spec fn merged(self, k: int) -> Result<Seq<ReceiverBalance>, BlockchainError>
        decreases k,
    {
        if k <= 0 {
            Ok(self.receivers)
        } else {
            match self.merged(k - 1) {
                Err(e) => Err(e),
                Ok(list) => merge_asset(list, self.assets[k - 1]),
            }
        }
    }

    /// The log of nonces with the staged nonces of the first `k` senders appended.
    pub open spec fn nonces_saved(self, nonces: Seq<NonceEntry>, k: int) -> Seq<NonceEntry>
        decreases k,
    {
        if k <= 0 {
            nonces
        } else {
            self.nonces_saved(nonces, k - 1).push(sender_nonce(self.accounts[k - 1], self.topoheight))
        }
    }

    /// The log of nonces with a nonce of zero appended for each of the first
    /// `k` accounts of `list` that is no sender and has no nonce on record.
    pub open spec fn nonces_opened(self, nonces: Seq<NonceEntry>, list: Seq<ReceiverBalance>, k: int) -> Seq<
        NonceEntry,
    >
        decreases k,
    {
        if k <= 0 {
            nonces
        } else {
            let before = self.nonces_opened(nonces, list, k - 1);
            let key = list[k - 1].key;
            if self.account_at(key) < 0 && nonce_before(before, key, crate::ledger::beyond()) < 0 {
                before.push(NonceEntry { key, topoheight: self.topoheight, nonce: 0 })
            } else {
                before
            }
        }
    }

    /// The log of balances with the first `k` of `list` appended.
    pub open spec fn balances_saved(self, balances: Seq<BalanceEntry>, list: Seq<ReceiverBalance>, k: int) -> Seq<
        BalanceEntry,
    >
        decreases k,
    {
        if k <= 0 {
            balances
        } else {
            self.balances_saved(balances, list, k - 1).push(balance_entry(list[k - 1], self.topoheight))
        }
    }

    /// The logs after the staged changes are applied: the nonce of every
    /// sender, the balance of every account that received or spent, and a
    /// nonce of zero for every account that has none.
    pub open spec fn applied(self, balances: Seq<BalanceEntry>, nonces: Seq<NonceEntry>) -> Result<
        (Seq<BalanceEntry>, Seq<NonceEntry>),
        BlockchainError,
    > {
        match self.merged(self.assets.len() as int) {
            Err(e) => Err(e),
            Ok(list) => Ok(
                (
                    self.balances_saved(balances, list, list.len() as int),
                    self.nonces_opened(
                        self.nonces_saved(nonces, self.accounts.len() as int),
                        list,
                        list.len() as int,
                    ),
                ),
            ),
        }
    }
}

/// Once the spending of one sender cannot be merged, that of no more can,
/// for the same reason.
pub proof fn lemma_merged_fail(state: Staging, n: int, m: int)
    requires
        0 < n <= m,
        state.merged(n) is Err,
    ensures
        state.merged(m) == state.merged(n),
    decreases m - n,
{
    if n < m {
        lemma_merged_fail(state, n, m - 1);
    }
}

impl ChainState {
    /// Applies the staged changes to the logs. Where the changes cannot be
    /// merged the logs stay as they were.
    #[verifier::loop_isolation(false)]
    pub fn apply_changes(self, ledger: &mut Ledger) -> (r: Result<(), BlockchainError>)
        ensures
            match r {
                Ok(()) => self@.applied(old(ledger).balances@, old(ledger).nonces@) == Ok::<
                    (Seq<BalanceEntry>, Seq<NonceEntry>),
                    BlockchainError,
                >((final(ledger).balances@, final(ledger).nonces@)),
                Err(e) => self@.applied(old(ledger).balances@, old(ledger).nonces@) == Err::<
                    (Seq<BalanceEntry>, Seq<NonceEntry>),
                    BlockchainError,
                >(e) && final(ledger).balances@ == old(ledger).balances@ && final(ledger).nonces@
                    == old(ledger).nonces@,
            },
    {
        let ghost state = self@;
        let ghost balances0 = ledger.balances@;
        let ghost nonces0 = ledger.nonces@;
        let topoheight = self.topoheight;
        let mut list = self.receiver_balances;
        let assets = self.assets;
        let accounts = self.accounts;
        let n = assets.len();
        let mut k: usize = 0;
        while k < n
            invariant
                k <= n,
                n == assets@.len(),
                assets@ == state.assets,
                state.merged(k as int) == Ok::<Seq<ReceiverBalance>, BlockchainError>(list@),
                ledger.balances@ == balances0,
                ledger.nonces@ == nonces0,
            decreases n - k,
        {
            let spent = assets[k];
            match find_receiver(&list, &spent.key, &spent.asset) {
                None => {
                    list.push(
                        ReceiverBalance {
                            key: spent.key,
                            asset: spent.asset,
                            version: spent.echange.version,
                        },
                    );
                },
                Some(i) => {
                    let change = match spent.echange.change {
                        Some(change) => change,
                        None => {
                            proof {
                                lemma_merged_fail(state, k + 1, n as int);
                            }
                            return Err(BlockchainError::NoSenderOutput);
                        },
                    };
                    let mut entry = list[i];
                    if entry.version.balance < change {
                        proof {
                            lemma_merged_fail(state, k + 1, n as int);
                        }
                        return Err(BlockchainError::Overflow);
                    }
                    entry.version.balance = entry.version.balance - change;
                    entry.version.output_balance = Some(spent.echange.version.balance);
                    list.set(i, entry);
                },
            }
            k = k + 1;
        }
        let a = accounts.len();
        let mut x: usize = 0;
        while x < a
            invariant
                x <= a,
                a == accounts@.len(),
                accounts@ == state.accounts,
                topoheight == state.topoheight,
                ledger.balances@ == balances0,
                ledger.nonces@ == state.nonces_saved(nonces0, x as int),
            decreases a - x,
        {
            ledger.nonces.push(
                NonceEntry { key: accounts[x].key, topoheight, nonce: accounts[x].nonce.nonce },
            );
            x = x + 1;
        }
        let ghost saved = ledger.nonces@;
        let m = list.len();
        let mut y: usize = 0;
        while y < m
            invariant
                y <= m,
                m == list@.len(),
                accounts@ == state.accounts,
                topoheight == state.topoheight,
                ledger.balances@ == state.balances_saved(balances0, list@, y as int),
                ledger.nonces@ == state.nonces_opened(saved, list@, y as int),
            decreases m - y,
        {
            let entry = list[y];
            ledger.balances.push(
                BalanceEntry {
                    key: entry.key,
                    asset: entry.asset,
                    topoheight,
                    balance: entry.version.balance,
                    output_balance: entry.version.output_balance,
                },
            );
            if find_account(&accounts, &entry.key).is_none() && find_nonce_before(
                &ledger.nonces,
                &entry.key,
                u64::MAX as u128 + 1,
            ).is_none() {
                ledger.nonces.push(NonceEntry { key: entry.key, topoheight, nonce: 0 });
            }
            y = y + 1;
        }
        Ok(())
    }
}

} // verus!
