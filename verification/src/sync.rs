//! Sync blocks, the base of a tip and the common base of a tip set.

use vstd::prelude::*;
use crate::blockchain::Blockchain;
use crate::config::STABLE_HEIGHT_LIMIT;
use crate::error::BlockchainError;
use crate::hash;
use crate::storage::{
    lemma_position,
    lemma_position_unique,
    max_height,
    single_mark,
    Chain,
    Storage,
};

verus! {

/// The lower of two bases by height; the earlier one where the heights are equal.
pub open spec fn lower_base(best: Option<(hash::Hash, u64)>, base: (hash::Hash, u64)) -> Option<
    (hash::Hash, u64),
> {
    match best {
        Some(current) => if base.1 < current.1 {
            Some(base)
        } else {
            Some(current)
        },
        None => Some(base),
    }
}

impl Chain {
    /// Whether the block at place `j` keeps the block at place `i` from being
    /// a sync block: it is another ordered block of the same height, or a
    /// block of the heights just below that is at least as heavy.
    pub open spec fn hinders_sync(self, i: int, j: int) -> bool {
        let b = self.blocks[i];
        let o = self.blocks[j];
        ||| (j != i && o.block.height == b.block.height && self.is_ordered(o.hash))
        ||| (o.block.height < b.block.height && b.block.height - o.block.height
            <= STABLE_HEIGHT_LIMIT && o.cumulative_difficulty >= b.cumulative_difficulty)
    }

    /// Whether the block at place `i` is a sync block for a chain of the given height.
    pub open spec fn is_sync_at(self, i: int, height: u64) -> bool {
        let b = self.blocks[i];
        b.block.height == 0 || (b.block.height + STABLE_HEIGHT_LIMIT <= height && self.is_ordered(
            b.hash,
        ) && forall|j: int| 0 <= j < self.blocks.len() ==> !#[trigger] self.hinders_sync(i, j))
    }

    /// Whether the block `h` is a sync block for a chain of the given height.
    pub open spec fn is_sync(self, h: hash::Hash, height: u64) -> bool {
        self.is_sync_at(self.index_of(h), height)
    }

    /// The base of the block at place `i`: the block itself where it has no
    /// tips, else the first tip that is a sync block, else the lowest of the
    /// bases of its tips.
    pub open spec fn tip_base_at(self, i: int, height: u64) -> (hash::Hash, u64)
        decreases i, 1int, 0int,
    {
        if 0 <= i < self.blocks.len() && self.tips_at(i).len() > 0 {
            match self.tip_base_scan(i, 0, None, height) {
                Some(base) => base,
                None => (self.blocks[i].hash, 0u64),
            }
        } else {
            (self.blocks[i].hash, 0u64)
        }
    }

    /// The base found from tip `k` of the block at place `i` on, given the
    /// lowest base of the tips before.
    pub open spec fn tip_base_scan(
        self,
        i: int,
        k: int,
        best: Option<(hash::Hash, u64)>,
        height: u64,
    ) -> Option<(hash::Hash, u64)>
        decreases i, 0int, self.tips_at(i).len() - k,
    {
        if k < 0 || k >= self.tips_at(i).len() {
            best
        } else {
            let p = self.parent(i, k);
            if !(0 <= p < i) {
                best
            } else if self.is_sync_at(p, height) {
                Some((self.blocks[p].hash, self.blocks[p].block.height))
            } else {
                self.tip_base_scan(i, k + 1, lower_base(best, self.tip_base_at(p, height)), height)
            }
        }
    }

    /// The base of the block `h`.
    pub open spec fn tip_base(self, h: hash::Hash, height: u64) -> (hash::Hash, u64) {
        self.tip_base_at(self.index_of(h), height)
    }

    /// The greatest height among `tips`.
    pub open spec fn max_tip_height(self, tips: Seq<hash::Hash>) -> int {
        max_height(self.blocks, self.places(tips))
    }

    /// The lowest base of the tips from `k` on, given the lowest before.
    pub open spec fn common_base_scan(
        self,
        tips: Seq<hash::Hash>,
        k: int,
        best: Option<(hash::Hash, u64)>,
        height: u64,
    ) -> Option<(hash::Hash, u64)>
        decreases tips.len() - k,
    {
        if k < 0 || k >= tips.len() {
            best
        } else {
            self.common_base_scan(
                tips,
                k + 1,
                lower_base(best, self.tip_base(tips[k], height)),
                height,
            )
        }
    }

    /// The common base of a tip set: the lowest of the bases of the tips, each
    /// taken for the greatest height among the tips.
    pub open spec fn common_base(self, tips: Seq<hash::Hash>) -> (hash::Hash, u64) {
        match self.common_base_scan(tips, 0, None, self.max_tip_height(tips) as u64) {
            Some(base) => base,
            None => (self.blocks[0].hash, 0u64),
        }
    }

    /// Whether `base` names a stored block together with its height.
    pub open spec fn is_base(self, base: (hash::Hash, u64)) -> bool {
        self.has_block(base.0) && self.block(base.0).block.height == base.1
    }
}

/// In a sound arena a block is found at its own place.
pub proof fn lemma_index_of(c: Chain, i: int)
    requires
        c.wf_blocks(),
        0 <= i < c.blocks.len(),
    ensures
        c.index_of(c.blocks[i].hash) == i,
        c.has_block(c.blocks[i].hash),
        c.block(c.blocks[i].hash) == c.blocks[i],
{
    lemma_position_unique(c.hashes(), i);
}

/// A digest that is found is found at a place of the arena that holds it.
pub proof fn lemma_found(c: Chain, h: hash::Hash)
    ensures
        -1 <= c.index_of(h) < c.blocks.len(),
        c.has_block(h) ==> c.block(h).hash == h,
{
    lemma_position(c.hashes(), h);
}

/// The base of a block is a stored block, given with its height.
pub proof fn lemma_tip_base_at(c: Chain, i: int, height: u64)
    requires
        c.wf_blocks(),
        0 <= i < c.blocks.len(),
    ensures
        c.is_base(c.tip_base_at(i, height)),
    decreases i, 1int, 0int,
{
    lemma_index_of(c, i);
    if c.tips_at(i).len() > 0 {
        lemma_tip_base_scan(c, i, 0, None, height);
    } else {
        assert(c.places(c.tips_at(i)) =~= Seq::<int>::empty());
    }
}

/// The scan of the tips finds a base where there is a tip left or one was found before.
pub proof fn lemma_tip_base_scan(
    c: Chain,
    i: int,
    k: int,
    best: Option<(hash::Hash, u64)>,
    height: u64,
)
    requires
        c.wf_blocks(),
        0 <= i < c.blocks.len(),
        0 <= k <= c.tips_at(i).len(),
        best matches Some(b) ==> c.is_base(b),
        best is Some || k < c.tips_at(i).len(),
    ensures
        c.tip_base_scan(i, k, best, height) matches Some(b) && c.is_base(b),
    decreases i, 0int, c.tips_at(i).len() - k,
{
    if k < c.tips_at(i).len() {
        let p = c.parent(i, k);
        assert(0 <= p < i);
        lemma_index_of(c, p);
        if c.is_sync_at(p, height) {
        } else {
            lemma_tip_base_at(c, p, height);
            lemma_tip_base_scan(
                c,
                i,
                k + 1,
                lower_base(best, c.tip_base_at(p, height)),
                height,
            );
        }
    }
}

/// The scan of a tip set finds a base where there is a tip left or one was found before.
pub proof fn lemma_common_base_scan(
    c: Chain,
    tips: Seq<hash::Hash>,
    k: int,
    best: Option<(hash::Hash, u64)>,
    height: u64,
)
    requires
        c.wf_blocks(),
        c.all_stored(tips),
        0 <= k <= tips.len(),
        best matches Some(b) ==> c.is_base(b),
        best is Some || k < tips.len(),
    ensures
        c.common_base_scan(tips, k, best, height) matches Some(b) && c.is_base(b),
    decreases tips.len() - k,
{
    if k < tips.len() {
        assert(c.has_block(tips[k]));
        lemma_found(c, tips[k]);
        lemma_tip_base_at(c, c.index_of(tips[k]), height);
        lemma_common_base_scan(c, tips, k + 1, lower_base(best, c.tip_base(tips[k], height)), height);
    }
}

fn lower(best: Option<(hash::Hash, u64)>, base: (hash::Hash, u64)) -> (r: Option<(hash::Hash, u64)>)
    ensures
        r == lower_base(best, base),
{
    match best {
        Some(current) => if base.1 < current.1 {
            Some(base)
        } else {
            Some(current)
        },
        None => Some(base),
    }
}

/// Whether the block at place `i` is a sync block for a chain of the given height.
pub fn sync_at(storage: &Storage, i: usize, height: u64) -> (r: bool)
    requires
        i < storage.blocks.len(),
    ensures
        r == storage@.is_sync_at(i as int, height),
{
    let block_height = storage.blocks[i].block.height;
    if block_height == 0 {
        return true;
    }
    if height < STABLE_HEIGHT_LIMIT || block_height > height - STABLE_HEIGHT_LIMIT {
        return false;
    }
    if !storage.is_block_topological_ordered(&storage.blocks[i].hash) {
        return false;
    }
    let cumulative = storage.blocks[i].cumulative_difficulty;
    let n = storage.blocks.len();
    let mut j: usize = 0;
    while j < n
        invariant
            j <= n,
            n == storage.blocks.len(),
            i < n,
            block_height == storage.blocks[i as int].block.height,
            cumulative == storage.blocks[i as int].cumulative_difficulty,
            block_height != 0,
            block_height + STABLE_HEIGHT_LIMIT <= height,
            storage@.is_ordered(storage.blocks[i as int].hash),
            forall|m: int| 0 <= m < j ==> !#[trigger] storage@.hinders_sync(i as int, m),
        decreases n - j,
    {
        let other = &storage.blocks[j];
        if j != i && other.block.height == block_height {
            if storage.is_block_topological_ordered(&other.hash) {
                assert(storage@.hinders_sync(i as int, j as int));
                return false;
            }
        }
        if other.block.height < block_height && block_height - other.block.height
            <= STABLE_HEIGHT_LIMIT && other.cumulative_difficulty >= cumulative {
            assert(storage@.hinders_sync(i as int, j as int));
            return false;
        }
        j = j + 1;
    }
    true
}

/// Whether the marks from place `from` on are closed under the tips that
/// count for a base: every tip of a marked block that is no sync block is
/// marked.
pub open spec fn base_marked(c: Chain, marks: Seq<bool>, from: int, height: u64) -> bool {
    forall|x: int, k: int|
        from <= x < marks.len() && marks[x] && 0 <= k < c.tips_at(x).len() && !c.is_sync_at(
            #[trigger] c.parent(x, k),
            height,
        ) ==> 0 <= c.parent(x, k) < marks.len() && marks[c.parent(x, k)]
}

/// Whether those of the first `k` tips of the block at place `x` that are
/// no sync blocks are marked.
pub open spec fn base_tips_marked(c: Chain, marks: Seq<bool>, x: int, k: int, height: u64) -> bool {
    forall|m: int|
        0 <= m < k && m < c.tips_at(x).len() && !c.is_sync_at(#[trigger] c.parent(x, m), height)
            ==> 0 <= c.parent(x, m) < marks.len() && marks[c.parent(x, m)]
}

/// Whether the base of every marked block under place `upto` is known.
pub open spec fn bases_known(
    c: Chain,
    marks: Seq<bool>,
    known: Seq<(hash::Hash, u64)>,
    upto: int,
    height: u64,
) -> bool {
    forall|x: int| 0 <= x < upto && #[trigger] marks[x] ==> known[x] == c.tip_base_at(x, height)
}

/// Marks the blocks whose base the base of the block at place `i` rests on.
fn mark_for_base(storage: &Storage, i: usize, height: u64) -> (marks: Vec<bool>)
    requires
        storage@.wf_blocks(),
        i < storage.blocks.len(),
    ensures
        marks@.len() == i + 1,
        marks@[i as int],
        base_marked(storage@, marks@, 0, height),
{
    let ghost c = storage@;
    let mut marks = single_mark(i);
    let mut done: usize = i + 1;
    while done > 0
        invariant
            done <= i + 1,
            i < storage.blocks.len(),
            c == storage@,
            c.wf_blocks(),
            marks@.len() == i + 1,
            marks@[i as int],
            base_marked(c, marks@, done as int, height),
        decreases done,
    {
        let x = done - 1;
        let block = &storage.blocks[x];
        if marks[x] {
            let n = block.block.tips.len();
            let mut k: usize = 0;
            while k < n
                invariant
                    k <= n,
                    n == c.tips_at(x as int).len(),
                    x <= i,
                    x + 1 == done,
                    i < storage.blocks.len(),
                    c == storage@,
                    c.wf_blocks(),
                    block == &storage.blocks[x as int],
                    marks@.len() == i + 1,
                    marks@[i as int],
                    marks@[x as int],
                    base_marked(c, marks@, done as int, height),
                    base_tips_marked(c, marks@, x as int, k as int, height),
                decreases n - k,
            {
                let ghost p = c.parent(x as int, k as int);
                assert(0 <= p < x);
                match storage.find_block(&block.block.tips[k]) {
                    None => {
                        assert(false);
                    },
                    Some(place) => {
                        if !sync_at(storage, place, height) {
                            marks.set(place, true);
                        }
                    },
                }
                k = k + 1;
            }
        }
        done = x;
    }
    marks
}

/// The base of the block at place `i`.
pub fn tip_base_at(storage: &Storage, i: usize, height: u64) -> (r: (hash::Hash, u64))
    requires
        storage@.wf_blocks(),
        i < storage.blocks.len(),
    ensures
        r == storage@.tip_base_at(i as int, height),
{
    let ghost c = storage@;
    let marks = mark_for_base(storage, i, height);
    let mut known: Vec<(hash::Hash, u64)> = Vec::new();
    let mut x: usize = 0;
    while x <= i
        invariant
            x <= i + 1,
            i < storage.blocks.len(),
            c == storage@,
            c.wf_blocks(),
            marks@.len() == i + 1,
            known@.len() == x,
            base_marked(c, marks@, 0, height),
            bases_known(c, marks@, known@, x as int, height),
        decreases i + 1 - x,
    {
        let block = &storage.blocks[x];
        let n = block.block.tips.len();
        let mut found: Option<(hash::Hash, u64)> = None;
        let mut best: Option<(hash::Hash, u64)> = None;
        if marks[x] {
            let mut k: usize = 0;
            while k < n && found.is_none()
                invariant
                    k <= n,
                    n == c.tips_at(x as int).len(),
                    x <= i,
                    i < storage.blocks.len(),
                    c == storage@,
                    c.wf_blocks(),
                    block == &storage.blocks[x as int],
                    marks@.len() == i + 1,
                    marks@[x as int],
                    known@.len() == x,
                    base_marked(c, marks@, 0, height),
                    bases_known(c, marks@, known@, x as int, height),
                    match found {
                        Some(base) => c.tip_base_scan(x as int, 0, None, height) == Some(base),
                        None => c.tip_base_scan(x as int, 0, None, height) == c.tip_base_scan(
                            x as int,
                            k as int,
                            best,
                            height,
                        ),
                    },
                decreases n - k,
            {
                let ghost p = c.parent(x as int, k as int);
                assert(0 <= p < x);
                match storage.find_block(&block.block.tips[k]) {
                    None => {
                        assert(false);
                    },
                    Some(place) => {
                        if sync_at(storage, place, height) {
                            found = Some((storage.blocks[place].hash, storage.blocks[place].block.height));
                        } else {
                            assert(marks@[p]);
                            best = lower(best, known[place]);
                        }
                    },
                }
                k = k + 1;
            }
        }
        let base = match found {
            Some(base) => base,
            None => match best {
                Some(base) => base,
                None => (block.hash, 0),
            },
        };
        let ghost before = known@;
        known.push(base);
        proof {
            assert forall|y: int| 0 <= y < x + 1 && #[trigger] marks@[y] implies known@[y]
                == c.tip_base_at(y, height) by {
                if y < x {
                    assert(known@[y] == before[y]);
                }
            }
        }
        x = x + 1;
    }
    known[i]
}

impl Blockchain {
    /// Whether the block `h` is a sync block for the current height of the chain.
    pub fn is_block_sync(&self, storage: &Storage, h: &hash::Hash) -> (r: Result<
        bool,
        BlockchainError,
    >)
        ensures
            match r {
                Ok(sync) => storage@.has_block(*h) && sync == storage@.is_sync(*h, self.height),
                Err(e) => !storage@.has_block(*h) && e == BlockchainError::BlockNotFound(*h),
            },
    {
        self.is_block_sync_at_height(storage, h, self.height)
    }

    /// Whether the block `h` is a sync block for a chain of the given height:
    /// it has height zero, or it lies at least the stable limit under that
    /// height, is the only ordered block of its height, and is heavier than
    /// every block of the heights of the stable limit below it.
    pub fn is_block_sync_at_height(&self, storage: &Storage, h: &hash::Hash, height: u64) -> (r:
        Result<bool, BlockchainError>)
        ensures
            match r {
                Ok(sync) => storage@.has_block(*h) && sync == storage@.is_sync(*h, height),
                Err(e) => !storage@.has_block(*h) && e == BlockchainError::BlockNotFound(*h),
            },
    {
        match storage.find_block(h) {
            Some(i) => Ok(sync_at(storage, i, height)),
            None => Err(BlockchainError::BlockNotFound(*h)),
        }
    }

    /// The base of the block `h` for a chain of the given height, with the
    /// height of the base.
    pub fn find_tip_base(&self, storage: &Storage, h: &hash::Hash, height: u64) -> (r: Result<
        (hash::Hash, u64),
        BlockchainError,
    >)
        requires
            storage@.wf_blocks(),
        ensures
            match r {
                Ok(base) => storage@.has_block(*h) && base == storage@.tip_base(*h, height)
                    && storage@.is_base(base),
                Err(e) => !storage@.has_block(*h) && e == BlockchainError::BlockNotFound(*h),
            },
    {
        match storage.find_block(h) {
            Some(i) => {
                proof {
                    lemma_tip_base_at(storage@, i as int, height);
                }
                Ok(tip_base_at(storage, i, height))
            },
            None => Err(BlockchainError::BlockNotFound(*h)),
        }
    }

    /// The common base of a tip set, with its height.
    pub fn find_common_base(&self, storage: &Storage, tips: &Vec<hash::Hash>) -> (r: Result<
        (hash::Hash, u64),
        BlockchainError,
    >)
        requires
            storage@.wf_blocks(),
        ensures
            match r {
                Ok(base) => tips@.len() > 0 && storage@.all_stored(tips@) && base
                    == storage@.common_base(tips@) && storage@.is_base(base),
                Err(e) => if storage@.all_stored(tips@) {
                    tips@.len() == 0 && e == BlockchainError::ExpectedTips
                } else {
                    storage@.first_missing(tips@, e)
                },
            },
    {
        common_base(storage, tips)
    }
}

/// The common base of a tip set, with its height: the lowest of the bases
/// of the tips, each taken for the greatest height among the tips.
pub fn common_base(storage: &Storage, tips: &Vec<hash::Hash>) -> (r: Result<
    (hash::Hash, u64),
    BlockchainError,
>)
    requires
        storage@.wf_blocks(),
    ensures
        match r {
            Ok(base) => tips@.len() > 0 && storage@.all_stored(tips@) && base
                == storage@.common_base(tips@) && storage@.is_base(base),
            Err(e) => if storage@.all_stored(tips@) {
                tips@.len() == 0 && e == BlockchainError::ExpectedTips
            } else {
                storage@.first_missing(tips@, e)
            },
        },
{
    let n = tips.len();
    let mut best_height: u64 = 0;
    let mut i: usize = 0;
    let ghost places = storage@.places(tips@);
    while i < n
        invariant
            i <= n,
            n == tips.len(),
            places == storage@.places(tips@),
            storage@.all_stored(tips@.take(i as int)),
            best_height as int == max_height(storage@.blocks, places.take(i as int)),
        decreases n - i,
    {
        match storage.find_block(&tips[i]) {
            None => {
                proof {
                    assert(!storage@.has_block(tips@[i as int]));
                    assert(!storage@.all_stored(tips@));
                }
                return Err(BlockchainError::BlockNotFound(tips[i]));
            },
            Some(p) => {
                let height = storage.blocks[p].block.height;
                proof {
                    assert(places.take(i + 1).drop_last() =~= places.take(i as int));
                    assert(places.take(i + 1).last() == p);
                    assert forall|k: int| 0 <= k < i + 1 implies storage@.has_block(
                        #[trigger] tips@.take(i + 1)[k],
                    ) by {
                        if k < i {
                            assert(tips@.take(i as int)[k] == tips@[k]);
                        }
                    }
                }
                if height > best_height {
                    best_height = height;
                }
            },
        }
        i = i + 1;
    }
    proof {
        assert(places.take(n as int) =~= places);
        assert(tips@.take(n as int) =~= tips@);
    }
    if n == 0 {
        return Err(BlockchainError::ExpectedTips);
    }
    let mut best: Option<(hash::Hash, u64)> = None;
    let mut k: usize = 0;
    while k < n
        invariant
            k <= n,
            n == tips.len(),
            storage@.wf_blocks(),
            storage@.all_stored(tips@),
            storage@.common_base_scan(tips@, 0, None, best_height)
                == storage@.common_base_scan(tips@, k as int, best, best_height),
        decreases n - k,
    {
        assert(storage@.has_block(tips@[k as int]));
        match storage.find_block(&tips[k]) {
            None => {
                assert(false);
            },
            Some(place) => {
                let base = tip_base_at(storage, place, best_height);
                best = lower(best, base);
            },
        }
        k = k + 1;
    }
    proof {
        lemma_common_base_scan(storage@, tips@, 0, None, best_height);
    }
    match best {
        Some(base) => Ok(base),
        None => Err(BlockchainError::ExpectedTips),
    }
}

} // verus!
