//! Versions of balances and nonces.

use vstd::prelude::*;

verus! {

/// The balance of an account in an asset at a topoheight, with the
/// topoheight of the version before it.
#[derive(Clone, Copy, Debug, PartialEq, Eq, Structural)]
pub struct VersionedBalance {
    /// The balance after everything the block did.
    pub balance: u64,
    pub previous_topoheight: Option<u64>,
    /// The balance after the spending alone, where the account also received.
    pub output_balance: Option<u64>,
}

/// The nonce of an account at a topoheight, with the topoheight of the
/// version before it.
#[derive(Clone, Copy, Debug, PartialEq, Eq, Structural)]
pub struct VersionedNonce {
    pub nonce: u64,
    pub previous_topoheight: Option<u64>,
}

impl VersionedBalance {
    pub fn new(balance: u64, previous_topoheight: Option<u64>) -> (v: VersionedBalance)
        ensures
            v == (VersionedBalance { balance, previous_topoheight, output_balance: None }),
    {
        VersionedBalance { balance, previous_topoheight, output_balance: None }
    }

    /// A first version, holding nothing.
    pub fn zero() -> (v: VersionedBalance)
        ensures
            v == (VersionedBalance { balance: 0, previous_topoheight: None, output_balance: None }),
    {
        VersionedBalance { balance: 0, previous_topoheight: None, output_balance: None }
    }

    pub fn get_balance(&self) -> (balance: u64)
        ensures
            balance == self.balance,
    {
        self.balance
    }

    pub fn set_balance(&mut self, value: u64)
        ensures
            *final(self) == (VersionedBalance { balance: value, ..*old(self) }),
    {
        self.balance = value;
    }

    pub fn get_output_balance(&self) -> (output: Option<u64>)
        ensures
            output == self.output_balance,
    {
        self.output_balance
    }

    pub fn set_output_balance(&mut self, value: u64)
        ensures
            *final(self) == (VersionedBalance { output_balance: Some(value), ..*old(self) }),
    {
        self.output_balance = Some(value);
    }

    pub fn get_previous_topoheight(&self) -> (previous: Option<u64>)
        ensures
            previous == self.previous_topoheight,
    {
        self.previous_topoheight
    }
}

impl VersionedNonce {
    pub fn new(nonce: u64, previous_topoheight: Option<u64>) -> (v: VersionedNonce)
        ensures
            v == (VersionedNonce { nonce, previous_topoheight }),
    {
        VersionedNonce { nonce, previous_topoheight }
    }

    pub fn get_nonce(&self) -> (nonce: u64)
        ensures
            nonce == self.nonce,
    {
        self.nonce
    }

    pub fn set_nonce(&mut self, value: u64)
        ensures
            *final(self) == (VersionedNonce { nonce: value, ..*old(self) }),
    {
        self.nonce = value;
    }

    pub fn get_previous_topoheight(&self) -> (previous: Option<u64>)
        ensures
            previous == self.previous_topoheight,
    {
        self.previous_topoheight
    }
}

} // verus!
