//! The events a wallet reports, and the checks it makes before it builds a
//! transaction.

use vstd::prelude::*;
use crate::config::EXTRA_DATA_LIMIT_SIZE;
use crate::hash;

verus! {

/// A transaction as the wallet records it.
#[derive(Clone, Copy, Debug, PartialEq, Eq, Structural)]
pub struct TransactionEntry {
    pub hash: hash::Hash,
    pub topoheight: u64,
}

/// A new balance of the wallet in an asset.
#[derive(Clone, Copy, Debug, PartialEq, Eq, Structural)]
pub struct BalanceChanged {
    pub asset: hash::Hash,
    pub balance: u64,
}

/// An asset with the number of decimals of its amounts.
#[derive(Clone, Copy, Debug, PartialEq, Eq, Structural)]
pub struct AssetWithData {
    pub asset: hash::Hash,
    pub decimals: u8,
}

/// The kinds of events a listener can ask for.
#[derive(Clone, Copy, Debug, PartialEq, Eq, Structural, Hash)]
pub enum NotifyEvent {
    NewTransaction,
    NewTopoHeight,
    BalanceChanged,
    NewAsset,
    Rescan,
    Online,
    Offline,
}

/// An event of the wallet.
#[derive(Clone, Copy, Debug, PartialEq, Eq, Structural)]
pub enum Event {
    /// A transaction was found and recorded.
    NewTransaction(TransactionEntry),
    /// The chain reached a topoheight. The same topoheight can come again
    /// after the chain was re-ordered.
    NewTopoHeight { topoheight: u64 },
    /// A balance of the wallet changed.
    BalanceChanged(BalanceChanged),
    /// An asset was added to the wallet.
    NewAsset(AssetWithData),
    /// The wallet is scanned again from a topoheight on.
    Rescan { start_topoheight: u64 },
    /// The wallet follows the chain.
    Online,
    /// The wallet no longer follows the chain.
    Offline,
}

impl Event {
    /// The kind of the event.
    pub open spec fn spec_kind(&self) -> NotifyEvent {
        match self {
            Event::NewTransaction(_) => NotifyEvent::NewTransaction,
            Event::NewTopoHeight { .. } => NotifyEvent::NewTopoHeight,
            Event::BalanceChanged(_) => NotifyEvent::BalanceChanged,
            Event::NewAsset(_) => NotifyEvent::NewAsset,
            Event::Rescan { .. } => NotifyEvent::Rescan,
            Event::Online => NotifyEvent::Online,
            Event::Offline => NotifyEvent::Offline,
        }
    }

    /// The kind of the event.
    pub fn kind(&self) -> (kind: NotifyEvent)
        ensures
            kind == self.spec_kind(),
    {
        match self {
            Event::NewTransaction(_) => NotifyEvent::NewTransaction,
            Event::NewTopoHeight { .. } => NotifyEvent::NewTopoHeight,
            Event::BalanceChanged(_) => NotifyEvent::BalanceChanged,
            Event::NewAsset(_) => NotifyEvent::NewAsset,
            Event::Rescan { .. } => NotifyEvent::Rescan,
            Event::Online => NotifyEvent::Online,
            Event::Offline => NotifyEvent::Offline,
        }
    }
}

/// Why a wallet refuses to build a transaction.
#[derive(Clone, Copy, Debug, PartialEq, Eq, Structural)]
pub enum WalletError {
    /// The wallet holds too little of an asset: (held, needed, decimals, asset).
    NotEnoughFunds(u64, u64, u8, hash::Hash),
    /// The wallet cannot pay the fee: (held, needed).
    NotEnoughFundsForFee(u64, u64),
    /// The extra data of a transfer is too large: (limit, size).
    ExtraDataTooBig(usize, usize),
    /// The address belongs to another network.
    InvalidAddressParams,
    /// The topoheight to scan from is above the topoheight the wallet has reached.
    RescanTopoheightTooHigh,
    /// The wallet does not follow the chain.
    NotOnlineMode,
    /// The name of the wallet is empty.
    EmptyName,
}

/// Checks a transfer before it is built: the wallet must hold the amount,
/// and the extra data must fit.
pub fn check_transfer(
    balance: u64,
    amount: u64,
    decimals: u8,
    asset: hash::Hash,
    extra_data_size: Option<usize>,
) -> (r: Result<(), WalletError>)
    ensures
        match r {
            Ok(()) => amount <= balance && (extra_data_size matches Some(size) ==> size
                <= EXTRA_DATA_LIMIT_SIZE),
            Err(e) => if amount > balance {
                e == WalletError::NotEnoughFunds(balance, amount, decimals, asset)
            } else {
                extra_data_size matches Some(size) && size > EXTRA_DATA_LIMIT_SIZE && e
                    == WalletError::ExtraDataTooBig(EXTRA_DATA_LIMIT_SIZE, size)
            },
        },
{
    if amount > balance {
        return Err(WalletError::NotEnoughFunds(balance, amount, decimals, asset));
    }
    match extra_data_size {
        Some(size) => if size > EXTRA_DATA_LIMIT_SIZE {
            Err(WalletError::ExtraDataTooBig(EXTRA_DATA_LIMIT_SIZE, size))
        } else {
            Ok(())
        },
        None => Ok(()),
    }
}

/// Checks that the wallet can pay what a transaction spends of the native
/// asset together with its fee.
pub fn check_fee(native_balance: u64, native_spent: u64, fee: u64) -> (r: Result<(), WalletError>)
    ensures
        match r {
            Ok(()) => native_spent + fee <= native_balance,
            Err(e) => native_spent + fee > native_balance && e == WalletError::NotEnoughFundsForFee(
                native_balance,
                if native_spent + fee > u64::MAX {
                    u64::MAX
                } else {
                    (native_spent + fee) as u64
                },
            ),
        },
{
    let total: u64 = match native_spent.checked_add(fee) {
        Some(total) => total,
        None => u64::MAX,
    };
    if native_spent as u128 + fee as u128 > native_balance as u128 {
        Err(WalletError::NotEnoughFundsForFee(native_balance, total))
    } else {
        Ok(())
    }
}

/// What a wallet that follows the chain does to scan again from `topoheight`.
#[derive(Clone, Copy, Debug, PartialEq, Eq, Structural)]
pub enum RescanPlan {
    /// Forget every transaction.
    DeleteAll,
    /// Forget the transactions above the topoheight.
    DeleteAbove(u64),
}

/// Plans a scan of the chain from `topoheight` for a wallet that has reached
/// `synced_topoheight`.
pub fn plan_rescan(online: bool, topoheight: u64, synced_topoheight: u64) -> (r: Result<
    RescanPlan,
    WalletError,
>)
    ensures
        match r {
            Ok(plan) => online && topoheight <= synced_topoheight && plan == if topoheight == 0 {
                RescanPlan::DeleteAll
            } else {
                RescanPlan::DeleteAbove(topoheight)
            },
            Err(e) => if !online {
                e == WalletError::NotOnlineMode
            } else {
                topoheight > synced_topoheight && e == WalletError::RescanTopoheightTooHigh
            },
        },
{
    if !online {
        return Err(WalletError::NotOnlineMode);
    }
    if topoheight > synced_topoheight {
        return Err(WalletError::RescanTopoheightTooHigh);
    }
    if topoheight == 0 {
        Ok(RescanPlan::DeleteAll)
    } else {
        Ok(RescanPlan::DeleteAbove(topoheight))
    }
}

} // verus!
