//! Transactions.

use vstd::prelude::*;
use crate::hash;
use crate::hash::PublicKey;

verus! {

/// One output of a transfer.
pub struct Transfer {
    pub amount: u64,
    pub asset: hash::Hash,
    pub to: PublicKey,
    pub extra_data: Option<Vec<u8>>,
}

/// What a transaction does.
pub enum TransactionType {
    /// Pays each output from the sender.
    Transfer(Vec<Transfer>),
    /// Destroys an amount of an asset of the sender.
    Burn(hash::Hash, u64),
    /// Reserved.
    SmartContract,
}

/// A transaction, with the digest and the size of its wire form.
pub struct Transaction {
    pub hash: hash::Hash,
    pub size: usize,
    pub owner: PublicKey,
    pub nonce: u64,
    pub fee: u64,
    pub data: TransactionType,
}

impl Transfer {
    /// Number of bytes of extra data carried by the output.
    pub open spec fn extra_len(&self) -> nat {
        match self.extra_data {
            Some(data) => data@.len(),
            None => 0,
        }
    }
}

impl Transaction {
    pub fn new(
        hash: hash::Hash,
        size: usize,
        owner: PublicKey,
        nonce: u64,
        fee: u64,
        data: TransactionType,
    ) -> (tx: Transaction)
        ensures
            tx.hash == hash,
            tx.size == size,
            tx.owner == owner,
            tx.nonce == nonce,
            tx.fee == fee,
            tx.data == data,
    {
        Transaction { hash, size, owner, nonce, fee, data }
    }

    /// The outputs of a transfer; none for any other transaction.
    pub open spec fn outputs(&self) -> Seq<Transfer> {
        match self.data {
            TransactionType::Transfer(outputs) => outputs@,
            _ => Seq::empty(),
        }
    }

    pub fn get_hash(&self) -> (h: hash::Hash)
        ensures
            h == self.hash,
    {
        self.hash
    }

    pub fn get_size(&self) -> (size: usize)
        ensures
            size == self.size,
    {
        self.size
    }

    pub fn get_owner(&self) -> (owner: &PublicKey)
        ensures
            *owner == self.owner,
    {
        &self.owner
    }

    pub fn get_nonce(&self) -> (nonce: u64)
        ensures
            nonce == self.nonce,
    {
        self.nonce
    }

    pub fn get_fee(&self) -> (fee: u64)
        ensures
            fee == self.fee,
    {
        self.fee
    }

    pub fn get_data(&self) -> (data: &TransactionType)
        ensures
            *data == self.data,
    {
        &self.data
    }
}

} // verus!
