//! The work behind a tip, the best tip of a tip set, and the difficulty a
//! block on given tips must meet.

use vstd::prelude::*;
use crate::blockchain::Blockchain;
use crate::blockdag::{
    calculate_height_at_tips,
    find_best_tip_by_cumulative_difficulty,
    sort_desc,
    sort_descending_by_cumulative_difficulty,
};
use crate::config::MINIMUM_DIFFICULTY;
use crate::difficulty::{calculate_difficulty, check_difficulty, meets_difficulty, retargeted_difficulty};
use crate::error::BlockchainError;
use crate::hash;
use crate::reachability::distance_at;
use crate::storage::{Chain, Storage};
use crate::sync::lemma_found;

verus! {

/// Share, in percent, of the difficulty of the best tip that every other tip
/// of a block must exceed.
pub const TIP_DIFFICULTY_PERCENT: u64 = 91;

impl Chain {
    /// Whether the block at place `j` is looked at when the work behind a tip
    /// is summed for a base at topoheight `base_topo`: it is not ordered, or
    /// ordered at the base or after it.
    pub open spec fn in_scope(self, j: int, base_topo: int) -> bool {
        !self.is_ordered(self.blocks[j].hash) || self.topo_of(self.blocks[j].hash) >= base_topo
    }

    /// Whether one of the first `k` tips of the block at place `i` is the
    /// block at place `j`.
    pub open spec fn is_parent_before(self, i: int, j: int, k: int) -> bool {
        exists|m: int| 0 <= m < k && m < self.tips_at(i).len() && #[trigger] self.parent(i, m) == j
    }

    /// Whether the block at place `j` is a tip of the block at place `i`.
    pub open spec fn is_parent(self, i: int, j: int) -> bool {
        self.is_parent_before(i, j, self.tips_at(i).len() as int)
    }

    /// Whether the block at place `j` is the block at place `from` or is
    /// reached from it through tips that are in scope.
    pub open spec fn scoped(self, from: int, j: int, base_topo: int) -> bool
        decreases from - j, 1int, 0int,
    {
        j == from || (0 <= j < from && self.scoped_child(from, j, j + 1, base_topo))
    }

    /// Whether the block at place `j` is in scope and a tip of a block at a
    /// place from `lo` to `from` that is itself reached.
    pub open spec fn scoped_child(self, from: int, j: int, lo: int, base_topo: int) -> bool
        decreases from - j, 0int, from - lo + 1,
    {
        0 <= j < lo <= from && ((self.scoped(from, lo, base_topo) && self.is_parent(lo, j)
            && self.in_scope(j, base_topo)) || self.scoped_child(from, j, lo + 1, base_topo))
    }

    /// The difficulties, summed over the first `n` places of the arena, of
    /// the blocks reached from `from` that are not the base.
    pub open spec fn work_sum(self, from: int, base: hash::Hash, base_topo: int, n: int) -> int
        decreases n,
    {
        if n <= 0 {
            0
        } else {
            self.work_sum(from, base, base_topo, n - 1) + if self.scoped(from, n - 1, base_topo)
                && self.blocks[n - 1].hash != base {
                self.blocks[n - 1].difficulty as int
            } else {
                0
            }
        }
    }

    /// The work behind the block at place `from` over the base: the
    /// difficulties of the blocks reached from it, with the cumulative
    /// difficulty of the base in place of the difficulty of the base.
    pub open spec fn work_score_at(self, from: int, base: hash::Hash) -> int {
        self.work_sum(from, base, self.topo_of(base), from + 1) + if self.blocks[from].hash
            == base {
            self.blocks[from].difficulty as int
        } else {
            self.block(base).cumulative_difficulty as int
        }
    }

    /// The work behind the block `h` over `base`, or why it cannot be given.
    pub open spec fn work_score(self, h: hash::Hash, base: hash::Hash) -> Result<
        u64,
        BlockchainError,
    > {
        if !self.has_block(h) {
            Err(BlockchainError::BlockNotFound(h))
        } else if !self.is_ordered(base) {
            Err(BlockchainError::BlockNotOrdered(base))
        } else if self.work_score_at(self.index_of(h), base) > u64::MAX {
            Err(BlockchainError::Overflow)
        } else {
            Ok(self.work_score_at(self.index_of(h), base) as u64)
        }
    }

    /// The first `n` of `tips`, each with the work behind it over `base`, or
    /// the first reason why the work behind one cannot be given.
    pub open spec fn tip_scores(self, tips: Seq<hash::Hash>, base: hash::Hash, n: int) -> Result<
        Seq<(hash::Hash, u64)>,
        BlockchainError,
    >
        decreases n,
    {
        if n <= 0 {
            Ok(Seq::empty())
        } else {
            match self.tip_scores(tips, base, n - 1) {
                Err(e) => Err(e),
                Ok(scores) => match self.work_score(tips[n - 1], base) {
                    Err(e) => Err(e),
                    Ok(score) => Ok(scores.push((tips[n - 1], score))),
                },
            }
        }
    }

    /// The best tip of a tip set over a base: the tip with the most work
    /// behind it, and of two with the same work the one with the later digest.
    pub open spec fn best_tip(self, tips: Seq<hash::Hash>, base: hash::Hash) -> Result<
        hash::Hash,
        BlockchainError,
    > {
        if tips.len() == 0 {
            Err(BlockchainError::ExpectedTips)
        } else {
            match self.tip_scores(tips, base, tips.len() as int) {
                Err(e) => Err(e),
                Ok(scores) => Ok(sort_desc(scores)[0].0),
            }
        }
    }

    /// Whether `tip` is heavy enough beside the best tip of a block: its
    /// difficulty exceeds 91 percent of that of the best tip.
    pub open spec fn tip_heavy_enough(self, best_tip: hash::Hash, tip: hash::Hash) -> bool {
        self.block(best_tip).difficulty as int * (TIP_DIFFICULTY_PERCENT as int) / 100
            < self.block(tip).difficulty
    }

    /// The difficulty a block on `tips` must meet, or why it cannot be given.
    pub open spec fn difficulty_at_tips(self, tips: Seq<hash::Hash>) -> Result<
        u64,
        BlockchainError,
    > {
        if tips.len() == 0 {
            Ok(MINIMUM_DIFFICULTY)
        } else if !self.all_stored(tips) {
            Err(BlockchainError::BlockNotFound(self.first_missing_tip(tips, 0)))
        } else if self.height_at_tips(tips) < 3 {
            Ok(MINIMUM_DIFFICULTY)
        } else {
            let best = self.best_tip_by_cumulative_difficulty(tips);
            let parents = self.block(best).block.tips@;
            if parents.len() == 0 {
                Err(BlockchainError::ExpectedTips)
            } else {
                let parent = self.best_tip_by_cumulative_difficulty(parents);
                Ok(
                    retargeted_difficulty(
                        tips.len() as u64,
                        self.block(parent).block.timestamp,
                        self.block(best).block.timestamp,
                        self.block(best).difficulty,
                    ) as u64,
                )
            }
        }
    }

    /// The first of `tips` from `k` on that is not stored.
    pub open spec fn first_missing_tip(self, tips: Seq<hash::Hash>, k: int) -> hash::Hash
        decreases tips.len() - k,
    {
        if k < 0 || k >= tips.len() || !self.has_block(tips[k]) {
            tips[k]
        } else {
            self.first_missing_tip(tips, k + 1)
        }
    }

    /// What a sweep of the arena from place `from` down to place `done` has
    /// marked: the block at `from`, and every block in scope that is a tip of
    /// a reached block at a place from `done` on.
    pub open spec fn swept(self, marks: Seq<bool>, from: int, done: int, base_topo: int) -> bool {
        &&& marks.len() == from + 1
        &&& forall|j: int|
            0 <= j <= from ==> (#[trigger] marks[j]) == (j == from || self.scoped_child(
                from,
                j,
                if done > j + 1 {
                    done
                } else {
                    j + 1
                },
                base_topo,
            ))
    }

    /// What the marks hold while the tips of the block at place `i` are
    /// marked: what `before` held, and the tips before `k` that are in scope.
    pub open spec fn marking(
        self,
        marks: Seq<bool>,
        before: Seq<bool>,
        i: int,
        k: int,
        base_topo: int,
    ) -> bool {
        &&& marks.len() == before.len()
        &&& forall|j: int|
            0 <= j < marks.len() ==> (#[trigger] marks[j]) == (before[j] || (self.is_parent_before(
                i,
                j,
                k,
            ) && self.in_scope(j, base_topo)))
    }
}

/// The first tip that is not stored is the one an error names.
pub proof fn lemma_first_missing(c: Chain, tips: Seq<hash::Hash>, k: int, e: BlockchainError)
    requires
        0 <= k <= tips.len(),
        c.all_stored(tips.take(k)),
        c.first_missing(tips, e),
    ensures
        e == BlockchainError::BlockNotFound(c.first_missing_tip(tips, k)),
        !c.all_stored(tips),
    decreases tips.len() - k,
{
    let m = choose|m: int|
        0 <= m < tips.len() && !c.has_block(#[trigger] tips[m]) && c.all_stored(tips.take(m)) && e
            == BlockchainError::BlockNotFound(tips[m]);
    if k < m {
        assert(tips.take(m)[k] == tips[k]);
        assert(c.has_block(tips[k]));
        assert forall|x: int| 0 <= x < k + 1 implies c.has_block(#[trigger] tips.take(k + 1)[x]) by {
            if x < k {
                assert(tips.take(k)[x] == tips[x]);
            }
        }
        lemma_first_missing(c, tips, k + 1, e);
    } else if k > m {
        assert(tips.take(k)[m] == tips[m]);
    }
}

/// The sum of the work over more places is no smaller.
pub proof fn lemma_work_sum_grows(c: Chain, from: int, base: hash::Hash, base_topo: int, n: int, m: int)
    requires
        0 <= n <= m,
    ensures
        0 <= c.work_sum(from, base, base_topo, n) <= c.work_sum(from, base, base_topo, m),
    decreases m,
{
    if n < m {
        lemma_work_sum_grows(c, from, base, base_topo, n, m - 1);
    } else if n > 0 {
        lemma_work_sum_grows(c, from, base, base_topo, n - 1, n - 1);
    }
}

fn in_scope(storage: &Storage, j: usize, base_topo: usize) -> (r: bool)
    requires
        j < storage.blocks.len(),
    ensures
        r == storage@.in_scope(j as int, base_topo as int),
{
    match storage.find_topoheight(&storage.blocks[j].hash) {
        None => true,
        Some(t) => t >= base_topo,
    }
}

/// Marks the blocks reached from the block at place `from` through tips in scope.
fn mark_scope(storage: &Storage, from: usize, base_topo: usize) -> (marks: Vec<bool>)
    requires
        storage@.wf_blocks(),
        from < storage.blocks.len(),
    ensures
        marks@.len() == from + 1,
        forall|j: int|
            0 <= j <= from ==> (#[trigger] marks@[j]) == storage@.scoped(
                from as int,
                j,
                base_topo as int,
            ),
{
    let mut marks: Vec<bool> = Vec::new();
    let mut f: usize = 0;
    while f < from
        invariant
            f <= from,
            marks@.len() == f,
            forall|j: int| 0 <= j < f ==> !(#[trigger] marks@[j]),
        decreases from - f,
    {
        marks.push(false);
        f = f + 1;
    }
    marks.push(true);
    let mut done: usize = from + 1;
    assert(storage@.swept(marks@, from as int, done as int, base_topo as int));
    while done > 0
        invariant
            done <= from + 1,
            from < storage.blocks.len(),
            storage@.wf_blocks(),
            storage@.swept(marks@, from as int, done as int, base_topo as int),
        decreases done,
    {
        let i = done - 1;
        let ghost before = marks@;
        assert(before[i as int] == storage@.scoped(from as int, i as int, base_topo as int));
        if marks[i] {
            let block = &storage.blocks[i];
            let n = block.block.tips.len();
            let mut k: usize = 0;
            assert(storage@.marking(marks@, before, i as int, 0, base_topo as int));
            while k < n
                invariant
                    k <= n,
                    n == storage@.tips_at(i as int).len(),
                    i <= from,
                    from < storage.blocks.len(),
                    storage@.wf_blocks(),
                    block == &storage.blocks[i as int],
                    before.len() == from + 1,
                    storage@.marking(marks@, before, i as int, k as int, base_topo as int),
                decreases n - k,
            {
                let ghost p = storage@.parent(i as int, k as int);
                assert(0 <= p < i);
                let ghost current = marks@;
                match storage.find_block(&block.block.tips[k]) {
                    None => {
                        assert(false);
                    },
                    Some(place) => {
                        if in_scope(storage, place, base_topo) {
                            marks.set(place, true);
                        }
                    },
                }
                proof {
                    assert forall|j: int| 0 <= j < marks@.len() implies (#[trigger] marks@[j]) == (
                    before[j] || (storage@.is_parent_before(i as int, j, k + 1) && storage@.in_scope(
                        j,
                        base_topo as int,
                    ))) by {
                        assert(current[j] == (before[j] || (storage@.is_parent_before(
                            i as int,
                            j,
                            k as int,
                        ) && storage@.in_scope(j, base_topo as int))));
                        if storage@.is_parent_before(i as int, j, k as int) {
                            let m = choose|m: int|
                                0 <= m < k && m < storage@.tips_at(i as int).len()
                                    && #[trigger] storage@.parent(i as int, m) == j;
                            assert(storage@.parent(i as int, m) == j);
                        }
                        if j == p {
                            assert(storage@.parent(i as int, k as int) == j);
                        }
                        if storage@.is_parent_before(i as int, j, k + 1) {
                            let m = choose|m: int|
                                0 <= m < k + 1 && m < storage@.tips_at(i as int).len()
                                    && #[trigger] storage@.parent(i as int, m) == j;
                            if m < k {
                                assert(storage@.parent(i as int, m) == j);
                            }
                        }
                    }
                }
                k = k + 1;
            }
        }
        proof {
            let c = storage@;
            let now = marks@;
            let bt = base_topo as int;
            let fr = from as int;
            assert forall|j: int| 0 <= j <= fr implies (#[trigger] now[j]) == (j == fr
                || c.scoped_child(
                fr,
                j,
                if i as int > j + 1 {
                    i as int
                } else {
                    j + 1
                },
                bt,
            )) by {
                let lo_before = if done as int > j + 1 {
                    done as int
                } else {
                    j + 1
                };
                assert(before[j] == (j == fr || c.scoped_child(fr, j, lo_before, bt)));
                if before[i as int] {
                    assert(now[j] == (before[j] || (c.is_parent(i as int, j) && c.in_scope(j, bt))));
                } else {
                    assert(now[j] == before[j]);
                }
                if j < i {
                    assert(c.scoped_child(fr, j, i as int, bt) == ((c.scoped(fr, i as int, bt)
                        && c.is_parent(i as int, j) && c.in_scope(j, bt)) || c.scoped_child(
                        fr,
                        j,
                        i + 1,
                        bt,
                    )));
                } else {
                    if c.is_parent(i as int, j) {
                        let m = choose|m: int|
                            0 <= m < c.tips_at(i as int).len() && m < c.tips_at(i as int).len()
                                && #[trigger] c.parent(i as int, m) == j;
                        assert(c.parent(i as int, m) < i);
                    }
                }
            }
        }
        done = i;
    }
    proof {
        let c = storage@;
        assert forall|j: int| 0 <= j <= from implies (#[trigger] marks@[j]) == c.scoped(
            from as int,
            j,
            base_topo as int,
        ) by {
            assert(marks@[j] == (j == from || c.scoped_child(
                from as int,
                j,
                j + 1,
                base_topo as int,
            )));
        }
    }
    marks
}

impl Blockchain {
    /// The distance of the block `h` from the main chain.
    pub fn calculate_distance_from_mainchain(&self, storage: &Storage, h: &hash::Hash) -> (r:
        Result<u64, BlockchainError>)
        requires
            storage@.wf_blocks(),
        ensures
            match r {
                Ok(distance) => storage@.has_block(*h) && distance
                    == storage@.distance_from_mainchain(*h),
                Err(e) => !storage@.has_block(*h) && e == BlockchainError::BlockNotFound(*h),
            },
    {
        match storage.find_block(h) {
            Some(i) => Ok(distance_at(storage, i)),
            None => Err(BlockchainError::BlockNotFound(*h)),
        }
    }

    /// The work behind the block `h` over the block `base`: the difficulties
    /// of `h` and of the blocks reached from it through tips that are not
    /// ordered or ordered at the base or after it, with the cumulative
    /// difficulty of the base in place of its difficulty.
    pub fn find_tip_work_score(
        &self,
        storage: &Storage,
        h: &hash::Hash,
        base: &hash::Hash,
        base_height: u64,
    ) -> (r: Result<u64, BlockchainError>)
        requires
            storage@.wf_blocks(),
            storage@.order_stored(),
        ensures
            r == storage@.work_score(*h, *base),
    {
        let from = match storage.find_block(h) {
            Some(i) => i,
            None => {
                return Err(BlockchainError::BlockNotFound(*h));
            },
        };
        let base_topo = match storage.find_topoheight(base) {
            Some(t) => t,
            None => {
                return Err(BlockchainError::BlockNotOrdered(*base));
            },
        };
        let ghost c = storage@;
        let ghost bt = base_topo as int;
        let ghost fr = from as int;
        proof {
            lemma_found(c, *h);
            assert(c.has_block(c.order[bt].hash));
            assert(c.order_hashes()[bt] == *base) by {
                crate::storage::lemma_position(c.order_hashes(), *base);
            }
        }
        let extra: u64 = if storage.blocks[from].hash == *base {
            storage.blocks[from].difficulty
        } else {
            match storage.find_block(base) {
                Some(place) => storage.blocks[place].cumulative_difficulty,
                None => {
                    assert(false);
                    0
                },
            }
        };
        let marks = mark_scope(storage, from, base_topo);
        let mut sum: u64 = 0;
        let mut j: usize = 0;
        while j <= from
            invariant
                j <= from + 1,
                from < storage.blocks.len(),
                c == storage@,
                bt == base_topo as int,
                fr == from as int,
                marks@.len() == from + 1,
                forall|x: int| 0 <= x <= from ==> (#[trigger] marks@[x]) == c.scoped(fr, x, bt),
                sum as int == c.work_sum(fr, *base, bt, j as int),
                c.has_block(*h),
                c.is_ordered(*base),
                c.index_of(*h) == fr,
                c.topo_of(*base) == bt,
            decreases from + 1 - j,
        {
            if marks[j] && storage.blocks[j].hash != *base {
                match sum.checked_add(storage.blocks[j].difficulty) {
                    Some(next) => {
                        sum = next;
                    },
                    None => {
                        proof {
                            lemma_work_sum_grows(c, fr, *base, bt, j + 1, fr + 1);
                        }
                        return Err(BlockchainError::Overflow);
                    },
                }
            }
            j = j + 1;
        }
        match sum.checked_add(extra) {
            Some(score) => Ok(score),
            None => Err(BlockchainError::Overflow),
        }
    }

    /// The best tip of a tip set over a base: the tip with the most work
    /// behind it, and of two with the same work the one with the later digest.
    pub fn find_best_tip(
        &self,
        storage: &Storage,
        tips: &Vec<hash::Hash>,
        base: &hash::Hash,
        base_height: u64,
    ) -> (r: Result<hash::Hash, BlockchainError>)
        requires
            storage@.wf_blocks(),
            storage@.order_stored(),
        ensures
            r == storage@.best_tip(tips@, *base),
    {
        let n = tips.len();
        if n == 0 {
            return Err(BlockchainError::ExpectedTips);
        }
        let mut scores: Vec<(hash::Hash, u64)> = Vec::new();
        let mut i: usize = 0;
        while i < n
            invariant
                i <= n,
                n == tips.len(),
                storage@.wf_blocks(),
                storage@.order_stored(),
                storage@.tip_scores(tips@, *base, i as int) == Ok::<
                    Seq<(hash::Hash, u64)>,
                    BlockchainError,
                >(scores@),
                scores@.len() == i,
            decreases n - i,
        {
            match self.find_tip_work_score(storage, &tips[i], base, base_height) {
                Ok(score) => {
                    scores.push((tips[i], score));
                },
                Err(e) => {
                    proof {
                        lemma_tip_scores_fail(storage@, tips@, *base, i + 1, n as int);
                    }
                    return Err(e);
                },
            }
            i = i + 1;
        }
        sort_descending_by_cumulative_difficulty(&mut scores);
        proof {
            crate::blockdag::lemma_sort_desc(storage@.tip_scores(tips@, *base, n as int).unwrap());
        }
        Ok(scores[0].0)
    }

    /// Whether `tip` is heavy enough beside `best_tip`: its difficulty
    /// exceeds 91 percent of that of the best tip.
    pub fn validate_tips(&self, storage: &Storage, best_tip: &hash::Hash, tip: &hash::Hash) -> (r:
        Result<bool, BlockchainError>)
        ensures
            match r {
                Ok(valid) => storage@.has_block(*best_tip) && storage@.has_block(*tip) && valid
                    == storage@.tip_heavy_enough(*best_tip, *tip),
                Err(e) => if !storage@.has_block(*best_tip) {
                    e == BlockchainError::BlockNotFound(*best_tip)
                } else {
                    !storage@.has_block(*tip) && e == BlockchainError::BlockNotFound(*tip)
                },
            },
    {
        let best_difficulty = storage.get_difficulty_for_block(best_tip)?;
        let block_difficulty = storage.get_difficulty_for_block(tip)?;
        Ok((best_difficulty as u128) * (TIP_DIFFICULTY_PERCENT as u128) / 100 < block_difficulty as u128)
    }

    /// The difficulty a block on `tips` must meet: the minimum without tips
    /// and under height three, else the difficulty of the best tip retargeted
    /// by the time since its own best tip and by the number of tips.
    pub fn get_difficulty_at_tips(&self, storage: &Storage, tips: &Vec<hash::Hash>) -> (r: Result<
        u64,
        BlockchainError,
    >)
        requires
            storage@.wf_blocks(),
        ensures
            r == storage@.difficulty_at_tips(tips@),
    {
        difficulty_at_tips(storage, tips)
    }

    /// The difficulty a block with digest `h` on `tips` must meet, where the
    /// digest meets it or the simulator is on.
    pub fn verify_proof_of_work(&self, storage: &Storage, h: &hash::Hash, tips: &Vec<hash::Hash>) -> (r:
        Result<u64, BlockchainError>)
        requires
            storage@.wf_blocks(),
        ensures
            r == storage@.proof_of_work(*h, tips@, self.simulator),
    {
        let difficulty = self.get_difficulty_at_tips(storage, tips)?;
        if self.simulator || check_difficulty(h, difficulty) {
            Ok(difficulty)
        } else {
            Err(BlockchainError::InvalidDifficulty)
        }
    }
}

impl Chain {
    /// The difficulty a block with digest `h` on `tips` must meet, where the
    /// digest meets it or proof of work is waived.
    pub open spec fn proof_of_work(self, h: hash::Hash, tips: Seq<hash::Hash>, waived: bool) -> Result<
        u64,
        BlockchainError,
    > {
        match self.difficulty_at_tips(tips) {
            Err(e) => Err(e),
            Ok(difficulty) => if waived || meets_difficulty(h, difficulty) {
                Ok(difficulty)
            } else {
                Err(BlockchainError::InvalidDifficulty)
            },
        }
    }
}

/// Once the work behind one tip cannot be given, the scores of no longer
/// prefix can, for the same reason.
pub proof fn lemma_tip_scores_fail(c: Chain, tips: Seq<hash::Hash>, base: hash::Hash, n: int, m: int)
    requires
        0 < n <= m,
        c.tip_scores(tips, base, n) is Err,
    ensures
        c.tip_scores(tips, base, m) == c.tip_scores(tips, base, n),
    decreases m - n,
{
    if n < m {
        lemma_tip_scores_fail(c, tips, base, n, m - 1);
    }
}

/// The difficulty a block on `tips` must meet: the minimum without tips
/// and under height three, else the difficulty of the best tip retargeted
/// by the time since its own best tip and by the number of tips.
pub fn difficulty_at_tips(storage: &Storage, tips: &Vec<hash::Hash>) -> (r: Result<
    u64,
    BlockchainError,
>)
    requires
        storage@.wf_blocks(),
    ensures
        r == storage@.difficulty_at_tips(tips@),
{
    if tips.len() == 0 {
        return Ok(MINIMUM_DIFFICULTY);
    }
    let height = match calculate_height_at_tips(storage, tips) {
        Ok(height) => height,
        Err(e) => {
            proof {
                assert(tips@.take(0) =~= Seq::<hash::Hash>::empty());
                lemma_first_missing(storage@, tips@, 0, e);
            }
            return Err(e);
        },
    };
    if height < 3 {
        return Ok(MINIMUM_DIFFICULTY);
    }
    let best_tip = match find_best_tip_by_cumulative_difficulty(storage, tips) {
        Ok(best) => best,
        Err(e) => {
            proof {
                if tips@.len() > 1 {
                    assert(tips@.take(0) =~= Seq::<hash::Hash>::empty());
                    lemma_first_missing(storage@, tips@, 0, e);
                }
            }
            return Err(e);
        },
    };
    let place = match storage.find_block(&best_tip) {
        Some(place) => place,
        None => {
            proof {
                let k = choose|k: int| 0 <= k < tips@.len() && tips@[k] == best_tip;
                assert(storage@.has_block(tips@[k]));
            }
            return Err(BlockchainError::BlockNotFound(best_tip));
        },
    };
    let biggest_difficulty = storage.blocks[place].difficulty;
    let best_tip_timestamp = storage.blocks[place].block.timestamp;
    let parent_tips = &storage.blocks[place].block.tips;
    if parent_tips.len() == 0 {
        return Err(BlockchainError::ExpectedTips);
    }
    proof {
        let c = storage@;
        assert forall|k: int| 0 <= k < parent_tips@.len() implies c.has_block(
            #[trigger] parent_tips@[k],
        ) by {
            assert(0 <= c.parent(place as int, k));
        }
    }
    let parent_best_tip = match find_best_tip_by_cumulative_difficulty(storage, parent_tips) {
        Ok(best) => best,
        Err(e) => {
            proof {
                let c = storage@;
                if parent_tips@.len() > 1 {
                    let k = choose|k: int|
                        0 <= k < parent_tips@.len() && !c.has_block(#[trigger] parent_tips@[k])
                            && c.all_stored(parent_tips@.take(k)) && e
                            == BlockchainError::BlockNotFound(parent_tips@[k]);
                    assert(false);
                }
            }
            return Err(e);
        },
    };
    let parent_place = match storage.find_block(&parent_best_tip) {
        Some(parent_place) => parent_place,
        None => {
            proof {
                let k = choose|k: int|
                    0 <= k < parent_tips@.len() && parent_tips@[k] == parent_best_tip;
                assert(storage@.has_block(parent_tips@[k]));
            }
            return Err(BlockchainError::BlockNotFound(parent_best_tip));
        },
    };
    let parent_best_tip_timestamp = storage.blocks[parent_place].block.timestamp;
    Ok(
        calculate_difficulty(
            tips.len() as u64,
            parent_best_tip_timestamp,
            best_tip_timestamp,
            biggest_difficulty,
        ),
    )
}

} // verus!
