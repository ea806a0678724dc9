//! The check of a store that comes from elsewhere, before the chain is
//! worked on.

use vstd::prelude::*;
use crate::config::TIPS_LIMIT;
use crate::hash;
use crate::ledger::{balances_ascend, nonces_ascend};
use crate::storage::{lemma_position_unique, max_height, BalanceEntry, Chain, NonceEntry, Storage};

verus! {

impl Chain {
    /// Whether the block at place `x` of the arena stands as it must: it is
    /// found at its own place, it has a tip unless it is the first, it has
    /// no more tips than the limit, each tip
    /// is stored before it and is not later than it, and its height is the
    /// height at its tips.
    pub open spec fn block_in_order(self, x: int) -> bool {
        &&& self.index_of(self.blocks[x].hash) == x
        &&& (x > 0 ==> self.tips_at(x).len() >= 1)
        &&& self.tips_at(x).len() <= TIPS_LIMIT
        &&& forall|k: int|
            0 <= k < self.tips_at(x).len() ==> 0 <= (#[trigger] self.parent(x, k)) < x
                && self.blocks[self.parent(x, k)].block.timestamp <= self.blocks[x].block.timestamp
        &&& self.blocks[x].block.height as int == self.height_at_tips(self.tips_at(x))
    }

    /// Whether every block under place `n` of the arena stands as it must.
    pub open spec fn blocks_in_order(self, n: int) -> bool {
        forall|x: int| 0 <= x < n ==> #[trigger] self.block_in_order(x)
    }
}

/// The arena is sound just where every block of it stands as it must.
pub proof fn lemma_blocks_in_order(c: Chain)
    ensures
        c.wf_blocks() <==> c.blocks_in_order(c.blocks.len() as int),
{
    if c.wf_blocks() {
        assert forall|x: int| 0 <= x < c.blocks.len() implies #[trigger] c.block_in_order(x) by {
            lemma_position_unique(c.hashes(), x);
        }
    }
    if c.blocks_in_order(c.blocks.len() as int) {
        let hashes = c.hashes();
        assert forall|i: int, j: int| 0 <= i < hashes.len() && 0 <= j < hashes.len() && i != j implies hashes[i]
            != hashes[j] by {
            assert(c.block_in_order(i));
            assert(c.block_in_order(j));
        }
        assert forall|i: int| 0 <= i < c.blocks.len() implies (#[trigger] c.tips_at(i)).len()
            <= TIPS_LIMIT by {
            assert(c.block_in_order(i));
        }
        assert forall|i: int| 0 < i < c.blocks.len() implies (#[trigger] c.tips_at(i)).len() >= 1 by {
            assert(c.block_in_order(i));
        }
        assert forall|i: int, k: int| 0 <= i < c.blocks.len() && 0 <= k < c.tips_at(i).len() implies 0
            <= (#[trigger] c.parent(i, k)) < i by {
            assert(c.block_in_order(i));
        }
        assert forall|i: int| 0 <= i < c.blocks.len() implies (#[trigger] c.blocks[i]).block.height as int
            == c.height_at_tips(c.tips_at(i)) by {
            assert(c.block_in_order(i));
        }
        assert forall|i: int, k: int| 0 <= i < c.blocks.len() && 0 <= k < c.tips_at(i).len() implies c.blocks[
            #[trigger] c.parent(i, k)].block.timestamp <= c.blocks[i].block.timestamp by {
            assert(c.block_in_order(i));
        }
    }
}

/// Whether the first `k` tips of the block at place `x` are stored before
/// it and are not later than it.
pub open spec fn tips_in_order(c: Chain, x: int, k: int) -> bool {
    forall|m: int|
        0 <= m < k ==> 0 <= (#[trigger] c.parent(x, m)) < x && c.blocks[c.parent(
            x,
            m,
        )].block.timestamp <= c.blocks[x].block.timestamp
}

/// Whether the block at place `x` of the arena stands as it must.
pub fn block_in_order(storage: &Storage, x: usize) -> (r: bool)
    requires
        x < storage.blocks.len(),
    ensures
        r == storage@.block_in_order(x as int),
{
    let ghost c = storage@;
    let block = &storage.blocks[x];
    match storage.find_block(&block.hash) {
        None => {
            return false;
        },
        Some(place) => {
            if place != x {
                return false;
            }
        },
    }
    let n = block.block.tips.len();
    if n > TIPS_LIMIT || (x > 0 && n == 0) {
        return false;
    }
    let ghost places = c.places(c.tips_at(x as int));
    let mut highest: u64 = 0;
    let mut k: usize = 0;
    while k < n
        invariant
            k <= n,
            n == c.tips_at(x as int).len(),
            c == storage@,
            x < storage.blocks.len(),
            block == &storage.blocks[x as int],
            places == c.places(c.tips_at(x as int)),
            tips_in_order(c, x as int, k as int),
            highest as int == max_height(c.blocks, places.take(k as int)),
        decreases n - k,
    {
        match storage.find_block(&block.block.tips[k]) {
            None => {
                assert(c.parent(x as int, k as int) == -1);
                return false;
            },
            Some(place) => {
                assert(c.parent(x as int, k as int) == place);
                if place >= x {
                    return false;
                }
                if storage.blocks[place].block.timestamp > block.block.timestamp {
                    return false;
                }
                let height = storage.blocks[place].block.height;
                proof {
                    assert(places.take(k + 1).drop_last() =~= places.take(k as int));
                    assert(places.take(k + 1).last() == place);
                }
                if highest <= height {
                    highest = height;
                }
            },
        }
        k = k + 1;
    }
    proof {
        assert(places.take(n as int) =~= places);
    }
    if n == 0 {
        block.block.height == 0
    } else {
        block.block.height as u128 == highest as u128 + 1
    }
}

/// Whether the first `n` versions of a log of balances are in ascending topoheight.
pub open spec fn balances_ascend_to(log: Seq<BalanceEntry>, n: int) -> bool {
    forall|i: int, j: int|
        0 <= i <= j < n ==> (#[trigger] log[i]).topoheight <= (#[trigger] log[j]).topoheight
}

/// Whether the first `n` versions of a log of nonces are in ascending topoheight.
pub open spec fn nonces_ascend_to(log: Seq<NonceEntry>, n: int) -> bool {
    forall|i: int, j: int|
        0 <= i <= j < n ==> (#[trigger] log[i]).topoheight <= (#[trigger] log[j]).topoheight
}

/// Whether a log of balances is in ascending topoheight.
pub fn balances_in_order(log: &Vec<BalanceEntry>) -> (r: bool)
    ensures
        r == balances_ascend(log@),
{
    let n = log.len();
    let mut i: usize = 1;
    while i < n
        invariant
            1 <= i,
            n == log.len(),
            balances_ascend_to(log@, i as int),
        decreases n - i,
    {
        if log[i - 1].topoheight > log[i].topoheight {
            return false;
        }
        assert forall|a: int, b: int| 0 <= a <= b < i + 1 implies (#[trigger] log@[a]).topoheight <= (
        #[trigger] log@[b]).topoheight by {
            if b == i && a < i {
                assert(log@[a].topoheight <= log@[i - 1].topoheight);
            }
        }
        i = i + 1;
    }
    true
}

/// Whether a log of nonces is in ascending topoheight.
pub fn nonces_in_order(log: &Vec<NonceEntry>) -> (r: bool)
    ensures
        r == nonces_ascend(log@),
{
    let n = log.len();
    let mut i: usize = 1;
    while i < n
        invariant
            1 <= i,
            n == log.len(),
            nonces_ascend_to(log@, i as int),
        decreases n - i,
    {
        if log[i - 1].topoheight > log[i].topoheight {
            return false;
        }
        assert forall|a: int, b: int| 0 <= a <= b < i + 1 implies (#[trigger] log@[a]).topoheight <= (
        #[trigger] log@[b]).topoheight by {
            if b == i && a < i {
                assert(log@[a].topoheight <= log@[i - 1].topoheight);
            }
        }
        i = i + 1;
    }
    true
}

/// Whether two lists hold the same digests in the same order.
pub fn same_hashes(a: &Vec<hash::Hash>, b: &Vec<hash::Hash>) -> (r: bool)
    ensures
        r == (a@ == b@),
{
    if a.len() != b.len() {
        return false;
    }
    let n = a.len();
    let mut i: usize = 0;
    while i < n
        invariant
            i <= n,
            n == a.len(),
            n == b.len(),
            forall|x: int| 0 <= x < i ==> a@[x] == b@[x],
        decreases n - i,
    {
        if a[i] != b[i] {
            return false;
        }
        i = i + 1;
    }
    assert(a@ =~= b@);
    true
}

impl Storage {
    /// Whether the chain can be worked on. A store that the library made and
    /// alone has changed can; one that comes from elsewhere is to be asked.
    pub fn is_sound(&self) -> (r: bool)
        ensures
            r == self@.sound(),
    {
        let ghost c = self@;
        let n = self.blocks.len();
        let mut x: usize = 0;
        while x < n
            invariant
                x <= n,
                n == self.blocks.len(),
                c == self@,
                c.blocks_in_order(x as int),
            decreases n - x,
        {
            if !block_in_order(self, x) {
                proof {
                    lemma_blocks_in_order(c);
                }
                return false;
            }
            x = x + 1;
        }
        proof {
            lemma_blocks_in_order(c);
        }
        let m = self.order.len();
        let mut t: usize = 0;
        while t < m
            invariant
                t <= m,
                m == self.order.len(),
                c == self@,
                forall|y: int| 0 <= y < t ==> c.has_block((#[trigger] c.order[y]).hash),
            decreases m - t,
        {
            if !self.has_block(&self.order[t].hash) {
                assert(!c.has_block(c.order[t as int].hash));
                assert(!c.order_stored());
                return false;
            }
            t = t + 1;
        }
        let tips = self.tips.len();
        let mut k: usize = 0;
        while k < tips
            invariant
                k <= tips,
                tips == self.tips.len(),
                c == self@,
                forall|y: int| 0 <= y < k ==> c.has_block(#[trigger] c.tips[y]),
            decreases tips - k,
        {
            if !self.has_block(&self.tips[k]) {
                assert(!c.has_block(c.tips[k as int]));
                assert(!c.tips_stored());
                return false;
            }
            k = k + 1;
        }
        if !balances_in_order(&self.ledger.balances) || !nonces_in_order(&self.ledger.nonces) {
            return false;
        }
        let unnamed = crate::rewind::childless(self);
        same_hashes(&self.tips, &unnamed) && self.top_height == crate::rewind::highest_stored(self)
    }
}

} // verus!
