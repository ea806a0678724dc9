//! The logs of balance and nonce versions of the store.
//!
//! Each log is in ascending topoheight. Reading an account as of a topoheight
//! finds its last version under it; rewinding to a topoheight cuts the log.

use vstd::prelude::*;
use crate::account::{VersionedBalance, VersionedNonce};
use crate::error::BlockchainError;
use crate::hash;
use crate::hash::PublicKey;
use crate::storage::{BalanceEntry, Chain, NonceEntry, Storage};

verus! {

/// The last place of `s` that holds a wanted element, or -1.
pub open spec fn last_index<T>(s: Seq<T>, wanted: spec_fn(T) -> bool) -> int
    decreases s.len(),
{
    if s.len() == 0 {
        -1
    } else if wanted(s.last()) {
        s.len() - 1
    } else {
        last_index(s.drop_last(), wanted)
    }
}

/// What [`last_index`] finds: a place that holds a wanted element with no
/// later one, or -1 where no place holds one.
pub proof fn lemma_last_index<T>(s: Seq<T>, wanted: spec_fn(T) -> bool)
    ensures
        -1 <= last_index(s, wanted) < s.len(),
        last_index(s, wanted) >= 0 ==> wanted(s[last_index(s, wanted)]),
        forall|j: int| last_index(s, wanted) < j < s.len() ==> !wanted(#[trigger] s[j]),
    decreases s.len(),
{
    if s.len() == 0 {
    } else if wanted(s.last()) {
    } else {
        lemma_last_index(s.drop_last(), wanted);
        assert forall|j: int| last_index(s, wanted) < j < s.len() implies !wanted(
            #[trigger] s[j],
        ) by {
            if j < s.len() - 1 {
                assert(s.drop_last()[j] == s[j]);
            }
        }
    }
}

/// A place that holds a wanted element, with none after it, is the last.
pub proof fn lemma_last_index_is<T>(s: Seq<T>, wanted: spec_fn(T) -> bool, i: int)
    requires
        -1 <= i < s.len(),
        i >= 0 ==> wanted(s[i]),
        forall|j: int| i < j < s.len() ==> !wanted(#[trigger] s[j]),
    ensures
        last_index(s, wanted) == i,
{
    lemma_last_index(s, wanted);
    let r = last_index(s, wanted);
    if r > i {
        assert(!wanted(s[r]));
    }
    if r < i {
        assert(wanted(s[i]));
    }
}

/// Appending finds the new element where it is wanted, and else what was found before.
pub proof fn lemma_last_index_push<T>(s: Seq<T>, x: T, wanted: spec_fn(T) -> bool)
    ensures
        wanted(x) ==> last_index(s.push(x), wanted) == s.len(),
        !wanted(x) ==> last_index(s.push(x), wanted) == last_index(s, wanted),
{
    assert(s.push(x).drop_last() =~= s);
}

/// The versions of the balance of `key` in `asset` under topoheight `t`.
pub open spec fn balance_wanted(key: PublicKey, asset: hash::Hash, t: int) -> spec_fn(
    BalanceEntry,
) -> bool {
    |e: BalanceEntry| e.key == key && e.asset == asset && e.topoheight < t
}

/// The versions of the nonce of `key` under topoheight `t`.
pub open spec fn nonce_wanted(key: PublicKey, t: int) -> spec_fn(NonceEntry) -> bool {
    |e: NonceEntry| e.key == key && e.topoheight < t
}

/// The place in `log` of the last version of the balance under topoheight `t`, or -1.
pub open spec fn balance_before(log: Seq<BalanceEntry>, key: PublicKey, asset: hash::Hash, t: int) -> int {
    last_index(log, balance_wanted(key, asset, t))
}

/// The place in `log` of the last version of the nonce under topoheight `t`, or -1.
pub open spec fn nonce_before(log: Seq<NonceEntry>, key: PublicKey, t: int) -> int {
    last_index(log, nonce_wanted(key, t))
}

/// A topoheight above every topoheight.
pub open spec fn beyond() -> int {
    u64::MAX + 1
}

/// The version that follows the last one under topoheight `t`: the same
/// balance, linked to it; a first version holds nothing.
pub open spec fn new_version(log: Seq<BalanceEntry>, key: PublicKey, asset: hash::Hash, t: int) -> VersionedBalance {
    let i = balance_before(log, key, asset, t);
    if i >= 0 {
        VersionedBalance {
            balance: log[i].balance,
            previous_topoheight: Some(log[i].topoheight),
            output_balance: None,
        }
    } else {
        VersionedBalance { balance: 0, previous_topoheight: None, output_balance: None }
    }
}

/// Number of leading versions of `log` under topoheight `t`, for a log in
/// ascending topoheight.
pub open spec fn balances_below(log: Seq<BalanceEntry>, t: int) -> int
    decreases log.len(),
{
    if log.len() == 0 {
        0
    } else if log.last().topoheight < t {
        log.len() as int
    } else {
        balances_below(log.drop_last(), t)
    }
}

/// Number of leading versions of `log` under topoheight `t`, for a log in
/// ascending topoheight.
pub open spec fn nonces_below(log: Seq<NonceEntry>, t: int) -> int
    decreases log.len(),
{
    if log.len() == 0 {
        0
    } else if log.last().topoheight < t {
        log.len() as int
    } else {
        nonces_below(log.drop_last(), t)
    }
}

/// Whether a log of balances is in ascending topoheight.
pub open spec fn balances_ascend(log: Seq<BalanceEntry>) -> bool {
    forall|i: int, j: int|
        0 <= i <= j < log.len() ==> (#[trigger] log[i]).topoheight <= (#[trigger] log[j]).topoheight
}

/// Whether a log of nonces is in ascending topoheight.
pub open spec fn nonces_ascend(log: Seq<NonceEntry>) -> bool {
    forall|i: int, j: int|
        0 <= i <= j < log.len() ==> (#[trigger] log[i]).topoheight <= (#[trigger] log[j]).topoheight
}

/// What cutting a log in ascending topoheight keeps: exactly the versions
/// under the topoheight.
pub proof fn lemma_balances_below(log: Seq<BalanceEntry>, t: int)
    requires
        balances_ascend(log),
    ensures
        0 <= balances_below(log, t) <= log.len(),
        forall|i: int| 0 <= i < balances_below(log, t) ==> (#[trigger] log[i]).topoheight < t,
        forall|i: int| balances_below(log, t) <= i < log.len() ==> (#[trigger] log[i]).topoheight >= t,
    decreases log.len(),
{
    if log.len() == 0 {
    } else if log.last().topoheight < t {
        assert forall|i: int| 0 <= i < log.len() implies (#[trigger] log[i]).topoheight < t by {
            assert(log[i].topoheight <= log[log.len() - 1].topoheight);
        }
    } else {
        let d = log.drop_last();
        assert(balances_ascend(d)) by {
            assert forall|i: int, j: int| 0 <= i <= j < d.len() implies (#[trigger] d[i]).topoheight
                <= (#[trigger] d[j]).topoheight by {
                assert(d[i] == log[i] && d[j] == log[j]);
            }
        }
        lemma_balances_below(d, t);
        assert forall|i: int| 0 <= i < balances_below(log, t) implies (#[trigger] log[i]).topoheight
            < t by {
            assert(d[i] == log[i]);
        }
        assert forall|i: int| balances_below(log, t) <= i < log.len() implies (
        #[trigger] log[i]).topoheight >= t by {
            if i < d.len() {
                assert(d[i] == log[i]);
            }
        }
    }
}

/// What cutting a log in ascending topoheight keeps: exactly the versions
/// under the topoheight.
pub proof fn lemma_nonces_below(log: Seq<NonceEntry>, t: int)
    requires
        nonces_ascend(log),
    ensures
        0 <= nonces_below(log, t) <= log.len(),
        forall|i: int| 0 <= i < nonces_below(log, t) ==> (#[trigger] log[i]).topoheight < t,
        forall|i: int| nonces_below(log, t) <= i < log.len() ==> (#[trigger] log[i]).topoheight >= t,
    decreases log.len(),
{
    if log.len() == 0 {
    } else if log.last().topoheight < t {
        assert forall|i: int| 0 <= i < log.len() implies (#[trigger] log[i]).topoheight < t by {
            assert(log[i].topoheight <= log[log.len() - 1].topoheight);
        }
    } else {
        let d = log.drop_last();
        assert(nonces_ascend(d)) by {
            assert forall|i: int, j: int| 0 <= i <= j < d.len() implies (#[trigger] d[i]).topoheight
                <= (#[trigger] d[j]).topoheight by {
                assert(d[i] == log[i] && d[j] == log[j]);
            }
        }
        lemma_nonces_below(d, t);
        assert forall|i: int| 0 <= i < nonces_below(log, t) implies (#[trigger] log[i]).topoheight
            < t by {
            assert(d[i] == log[i]);
        }
        assert forall|i: int| nonces_below(log, t) <= i < log.len() implies (
        #[trigger] log[i]).topoheight >= t by {
            if i < d.len() {
                assert(d[i] == log[i]);
            }
        }
    }
}

impl Chain {
    /// Whether the account `key` has a nonce on record.
    pub open spec fn has_nonce(self, key: PublicKey) -> bool {
        nonce_before(self.nonces, key, beyond()) >= 0
    }

    /// The nonce of the account `key`, zero where none is on record.
    pub open spec fn nonce_of(self, key: PublicKey) -> u64 {
        let i = nonce_before(self.nonces, key, beyond());
        if i >= 0 {
            self.nonces[i].nonce
        } else {
            0
        }
    }

    /// Whether the account `key` has a balance in `asset` on record.
    pub open spec fn has_balance(self, key: PublicKey, asset: hash::Hash) -> bool {
        balance_before(self.balances, key, asset, beyond()) >= 0
    }

    /// The last balance of the account `key` in `asset`.
    pub open spec fn last_balance(self, key: PublicKey, asset: hash::Hash) -> BalanceEntry {
        self.balances[balance_before(self.balances, key, asset, beyond())]
    }
}

/// Finds the last version of the balance under topoheight `t`.
pub fn find_balance_before(log: &Vec<BalanceEntry>, key: &PublicKey, asset: &hash::Hash, t: u128) -> (found:
    Option<usize>)
    ensures
        match found {
            Some(i) => i as int == balance_before(log@, *key, *asset, t as int) && i < log.len(),
            None => balance_before(log@, *key, *asset, t as int) == -1,
        },
{
    let ghost wanted = balance_wanted(*key, *asset, t as int);
    let mut i: usize = log.len();
    while i > 0
        invariant
            i <= log.len(),
            wanted == balance_wanted(*key, *asset, t as int),
            forall|j: int| i <= j < log.len() ==> !wanted(#[trigger] log@[j]),
        decreases i,
    {
        i = i - 1;
        let e = &log[i];
        if e.key == *key && e.asset == *asset && (e.topoheight as u128) < t {
            proof {
                lemma_last_index_is(log@, wanted, i as int);
            }
            return Some(i);
        }
    }
    proof {
        lemma_last_index_is(log@, wanted, -1);
    }
    None
}

/// Finds the last version of the nonce under topoheight `t`.
pub fn find_nonce_before(log: &Vec<NonceEntry>, key: &PublicKey, t: u128) -> (found: Option<usize>)
    ensures
        match found {
            Some(i) => i as int == nonce_before(log@, *key, t as int) && i < log.len(),
            None => nonce_before(log@, *key, t as int) == -1,
        },
{
    let ghost wanted = nonce_wanted(*key, t as int);
    let mut i: usize = log.len();
    while i > 0
        invariant
            i <= log.len(),
            wanted == nonce_wanted(*key, t as int),
            forall|j: int| i <= j < log.len() ==> !wanted(#[trigger] log@[j]),
        decreases i,
    {
        i = i - 1;
        let e = &log[i];
        if e.key == *key && (e.topoheight as u128) < t {
            proof {
                lemma_last_index_is(log@, wanted, i as int);
            }
            return Some(i);
        }
    }
    proof {
        lemma_last_index_is(log@, wanted, -1);
    }
    None
}

/// The version of the balance that follows the last one under topoheight `t`.
pub fn new_versioned_balance(log: &Vec<BalanceEntry>, key: &PublicKey, asset: &hash::Hash, t: u64) -> (v:
    VersionedBalance)
    ensures
        v == new_version(log@, *key, *asset, t as int),
{
    match find_balance_before(log, key, asset, t as u128) {
        Some(i) => VersionedBalance {
            balance: log[i].balance,
            previous_topoheight: Some(log[i].topoheight),
            output_balance: None,
        },
        None => VersionedBalance::zero(),
    }
}

/// Cuts a log of balances to the versions under topoheight `t`.
pub fn cut_balances(log: &mut Vec<BalanceEntry>, t: u64)
    requires
        balances_ascend(old(log)@),
    ensures
        final(log)@ == old(log)@.take(balances_below(old(log)@, t as int)),
        balances_ascend(final(log)@),
{
    let ghost start = log@;
    let mut n: usize = log.len();
    proof {
        assert(start.take(n as int) =~= start);
    }
    while n > 0 && log[n - 1].topoheight >= t
        invariant
            n <= start.len(),
            log@ == start,
            balances_below(start, t as int) == balances_below(start.take(n as int), t as int),
        decreases n,
    {
        proof {
            assert(start.take(n as int).drop_last() =~= start.take(n - 1));
        }
        n = n - 1;
    }
    proof {
        if n > 0 {
            assert(start.take(n as int).last() == start[n - 1]);
        }
        assert(start.take(start.len() as int) =~= start);
        lemma_balances_below(start, t as int);
    }
    log.truncate(n);
    proof {
        assert(log@ =~= start.take(n as int));
        assert forall|i: int, j: int| 0 <= i <= j < log@.len() implies (#[trigger] log@[i]).topoheight
            <= (#[trigger] log@[j]).topoheight by {
            assert(log@[i] == start[i] && log@[j] == start[j]);
        }
    }
}

/// Cuts a log of nonces to the versions under topoheight `t`.
pub fn cut_nonces(log: &mut Vec<NonceEntry>, t: u64)
    requires
        nonces_ascend(old(log)@),
    ensures
        final(log)@ == old(log)@.take(nonces_below(old(log)@, t as int)),
        nonces_ascend(final(log)@),
{
    let ghost start = log@;
    let mut n: usize = log.len();
    proof {
        assert(start.take(n as int) =~= start);
    }
    while n > 0 && log[n - 1].topoheight >= t
        invariant
            n <= start.len(),
            log@ == start,
            nonces_below(start, t as int) == nonces_below(start.take(n as int), t as int),
        decreases n,
    {
        proof {
            assert(start.take(n as int).drop_last() =~= start.take(n - 1));
        }
        n = n - 1;
    }
    proof {
        if n > 0 {
            assert(start.take(n as int).last() == start[n - 1]);
        }
        assert(start.take(start.len() as int) =~= start);
        lemma_nonces_below(start, t as int);
    }
    log.truncate(n);
    proof {
        assert(log@ =~= start.take(n as int));
        assert forall|i: int, j: int| 0 <= i <= j < log@.len() implies (#[trigger] log@[i]).topoheight
            <= (#[trigger] log@[j]).topoheight by {
            assert(log@[i] == start[i] && log@[j] == start[j]);
        }
    }
}

impl Storage {
    /// Whether the account `key` has a nonce on record.
    pub fn has_nonce(&self, key: &PublicKey) -> (r: bool)
        ensures
            r == self@.has_nonce(*key),
    {
        find_nonce_before(&self.ledger.nonces, key, u64::MAX as u128 + 1).is_some()
    }

    /// The nonce of the account `key`, zero where none is on record.
    pub fn get_nonce(&self, key: &PublicKey) -> (nonce: u64)
        ensures
            nonce == self@.nonce_of(*key),
    {
        match find_nonce_before(&self.ledger.nonces, key, u64::MAX as u128 + 1) {
            Some(i) => self.ledger.nonces[i].nonce,
            None => 0,
        }
    }

    /// The last version of the nonce of `key` under `topoheight`, with its topoheight.
    pub fn get_nonce_at_maximum_topoheight(&self, key: &PublicKey, topoheight: u64) -> (r: Option<
        (u64, VersionedNonce),
    >)
        ensures
            match r {
                Some((t, version)) => {
                    let i = nonce_before(self@.nonces, *key, topoheight as int);
                    &&& i >= 0
                    &&& t == self@.nonces[i].topoheight
                    &&& version == (VersionedNonce {
                        nonce: self@.nonces[i].nonce,
                        previous_topoheight: Some(t),
                    })
                },
                None => nonce_before(self@.nonces, *key, topoheight as int) == -1,
            },
    {
        match find_nonce_before(&self.ledger.nonces, key, topoheight as u128) {
            Some(i) => Some(
                (
                    self.ledger.nonces[i].topoheight,
                    VersionedNonce {
                        nonce: self.ledger.nonces[i].nonce,
                        previous_topoheight: Some(self.ledger.nonces[i].topoheight),
                    },
                ),
            ),
            None => None,
        }
    }

    /// The last balance of the account `key` in `asset`, with its topoheight.
    pub fn get_last_balance(&self, key: &PublicKey, asset: &hash::Hash) -> (r: Result<
        (u64, u64),
        BlockchainError,
    >)
        ensures
            match r {
                Ok((t, balance)) => self@.has_balance(*key, *asset) && t == self@.last_balance(
                    *key,
                    *asset,
                ).topoheight && balance == self@.last_balance(*key, *asset).balance,
                Err(e) => !self@.has_balance(*key, *asset) && e == BlockchainError::AccountNotFound(
                    *key,
                ),
            },
    {
        match find_balance_before(&self.ledger.balances, key, asset, u64::MAX as u128 + 1) {
            Some(i) => Ok((self.ledger.balances[i].topoheight, self.ledger.balances[i].balance)),
            None => Err(BlockchainError::AccountNotFound(*key)),
        }
    }

    /// The version of the balance that follows the last one under `topoheight`.
    pub fn get_new_versioned_balance(&self, key: &PublicKey, asset: &hash::Hash, topoheight: u64) -> (v:
        VersionedBalance)
        ensures
            v == new_version(self@.balances, *key, *asset, topoheight as int),
    {
        new_versioned_balance(&self.ledger.balances, key, asset, topoheight)
    }
}

} // verus!
