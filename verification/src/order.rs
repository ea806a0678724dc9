//! The total order of the blocks past a base, and the blocks it demotes to
//! side blocks.

use vstd::prelude::*;
use crate::blockchain::Blockchain;
use crate::blockdag::{lemma_sort_desc, sort_desc, sort_descending_by_cumulative_difficulty};
use crate::config::STABLE_HEIGHT_LIMIT;
use crate::error::BlockchainError;
use crate::hash;
use crate::storage::{single_mark, Chain, Storage, TopoEntry};
use crate::sync::lemma_found;

verus! {

/// `acc` followed by those of the first `n` of `more` that it does not hold yet.
pub open spec fn append_new(acc: Seq<hash::Hash>, more: Seq<hash::Hash>, n: int) -> Seq<hash::Hash>
    decreases n,
{
    if n <= 0 {
        acc
    } else {
        let before = append_new(acc, more, n - 1);
        if before.contains(more[n - 1]) {
            before
        } else {
            before.push(more[n - 1])
        }
    }
}

/// The height of the block at place `t` of `order`.
pub open spec fn height_in(c: Chain, order: Seq<TopoEntry>, t: int) -> u64 {
    c.block(order[t].hash).block.height
}

/// Whether each of the `n` places before place `t` of `order`, the first
/// place of the order left out, holds a block at least as high as the block
/// at place `t`.
pub open spec fn side_within(c: Chain, order: Seq<TopoEntry>, t: int, n: int) -> bool {
    forall|m: int|
        1 <= m <= n && 1 <= t - m ==> #[trigger] height_in(c, order, t - m) >= height_in(c, order, t)
}

/// Whether the block at place `t` of `order` is a side block: a place
/// other than the first of the order stands before it, and every one of the
/// places of the stable limit before it, the first of the order left out,
/// holds a block at least as high.
pub open spec fn side_at(c: Chain, order: Seq<TopoEntry>, t: int) -> bool {
    t >= 2 && side_within(c, order, t, STABLE_HEIGHT_LIMIT as int)
}

impl Chain {
    /// The first `k` tips of the block at place `i` that are in scope, each
    /// with its cumulative difficulty.
    pub open spec fn scoped_parents(self, i: int, base_topo: int, k: int) -> Seq<(hash::Hash, u64)>
        decreases k,
    {
        if k <= 0 {
            Seq::empty()
        } else {
            let before = self.scoped_parents(i, base_topo, k - 1);
            let p = self.parent(i, k - 1);
            if self.in_scope(p, base_topo) {
                before.push((self.tips_at(i)[k - 1], self.blocks[p].cumulative_difficulty))
            } else {
                before
            }
        }
    }

    /// The order of the block at place `i` and of its past back to the base:
    /// the block alone where it is the base or has no tips, else the orders of
    /// its tips in scope, heaviest first, each block once, and then the block.
    pub open spec fn full_order_at(self, i: int, base: hash::Hash, base_topo: int) -> Seq<hash::Hash>
        decreases i, 1int, 0int,
    {
        if !(0 <= i < self.blocks.len()) || self.tips_at(i).len() == 0 || self.blocks[i].hash
            == base {
            seq![self.blocks[i].hash]
        } else {
            self.full_order_merge(
                i,
                sort_desc(self.scoped_parents(i, base_topo, self.tips_at(i).len() as int)),
                0,
                Seq::empty(),
                base,
                base_topo,
            ).push(self.blocks[i].hash)
        }
    }

    /// `acc` followed by the orders of the parents from `k` on, each block once.
    pub open spec fn full_order_merge(
        self,
        i: int,
        parents: Seq<(hash::Hash, u64)>,
        k: int,
        acc: Seq<hash::Hash>,
        base: hash::Hash,
        base_topo: int,
    ) -> Seq<hash::Hash>
        decreases i, 0int, parents.len() - k,
    {
        if k < 0 || k >= parents.len() {
            acc
        } else {
            let p = self.index_of(parents[k].0);
            if !(0 <= p < i) {
                acc
            } else {
                let sub = self.full_order_at(p, base, base_topo);
                self.full_order_merge(
                    i,
                    parents,
                    k + 1,
                    append_new(acc, sub, sub.len() as int),
                    base,
                    base_topo,
                )
            }
        }
    }

    /// The order of the block `h` and of its past back to `base`.
    pub open spec fn full_order(self, h: hash::Hash, base: hash::Hash, base_topo: int) -> Seq<
        hash::Hash,
    > {
        self.full_order_at(self.index_of(h), base, base_topo)
    }

    /// Whether the block `h` is a side block: it is ordered, a place other
    /// than the first of the order stands before it, and every one of the
    /// places of the stable limit before it, the first of the order left
    /// out, holds a block at least as high.
    pub open spec fn is_side_block(self, h: hash::Hash) -> bool {
        self.is_ordered(h) && side_at(self, self.order, self.topo_of(h))
    }

    /// Whether the block `h` is ordered at least the stable limit under `topoheight`.
    pub open spec fn has_stable_order(self, h: hash::Hash, topoheight: u64) -> bool {
        self.is_ordered(h) && self.topo_of(h) + STABLE_HEIGHT_LIMIT <= topoheight
    }

    /// Whether every one of `parents` is a tip of the block at place `i`.
    pub open spec fn all_parents_of(self, i: int, parents: Seq<(hash::Hash, u64)>) -> bool {
        forall|x: int|
            0 <= x < parents.len() ==> 0 <= self.index_of((#[trigger] parents[x]).0) < i
    }
}

/// The tips in scope of a block are tips of the block.
pub proof fn lemma_scoped_parents(c: Chain, i: int, base_topo: int, k: int)
    requires
        c.wf_blocks(),
        0 <= i < c.blocks.len(),
        0 <= k <= c.tips_at(i).len(),
    ensures
        c.all_parents_of(i, c.scoped_parents(i, base_topo, k)),
        c.scoped_parents(i, base_topo, k).len() <= k,
    decreases k,
{
    if k > 0 {
        lemma_scoped_parents(c, i, base_topo, k - 1);
        assert(0 <= c.parent(i, k - 1) < i);
    }
}

/// Sorting keeps the parents of a block parents of the block.
pub proof fn lemma_sorted_parents(c: Chain, i: int, parents: Seq<(hash::Hash, u64)>)
    requires
        c.all_parents_of(i, parents),
    ensures
        c.all_parents_of(i, sort_desc(parents)),
{
    lemma_sort_desc(parents);
    let sorted = sort_desc(parents);
    assert forall|x: int| 0 <= x < sorted.len() implies 0 <= c.index_of((#[trigger] sorted[x]).0)
        < i by {
        assert(sorted.contains(sorted[x]));
        assert(parents.contains(sorted[x]));
        let y = choose|y: int| 0 <= y < parents.len() && parents[y] == sorted[x];
        assert(0 <= c.index_of(parents[y].0) < i);
    }
}

/// Whether the marks from place `from` on are closed under the tips that
/// count for an order: every tip in scope of a marked block that is not the
/// base is marked.
pub open spec fn order_marked(
    c: Chain,
    marks: Seq<bool>,
    from: int,
    base: hash::Hash,
    base_topo: int,
) -> bool {
    forall|x: int, k: int|
        from <= x < marks.len() && marks[x] && c.blocks[x].hash != base && 0 <= k < c.tips_at(
            x,
        ).len() && c.in_scope(#[trigger] c.parent(x, k), base_topo) ==> 0 <= c.parent(x, k)
            < marks.len() && marks[c.parent(x, k)]
}

/// Whether those of the first `k` tips of the block at place `x` that are in
/// scope are marked.
pub open spec fn order_tips_marked(c: Chain, marks: Seq<bool>, x: int, k: int, base_topo: int) -> bool {
    forall|m: int|
        0 <= m < k && m < c.tips_at(x).len() && c.in_scope(#[trigger] c.parent(x, m), base_topo)
            ==> 0 <= c.parent(x, m) < marks.len() && marks[c.parent(x, m)]
}

/// Whether every one of `parents` is marked.
pub open spec fn all_marked(c: Chain, marks: Seq<bool>, parents: Seq<(hash::Hash, u64)>) -> bool {
    forall|x: int|
        0 <= x < parents.len() ==> 0 <= c.index_of((#[trigger] parents[x]).0) < marks.len()
            && marks[c.index_of(parents[x].0)]
}

/// Whether the order of every marked block under place `upto` is known.
pub open spec fn orders_known(
    c: Chain,
    marks: Seq<bool>,
    known: Seq<Vec<hash::Hash>>,
    upto: int,
    base: hash::Hash,
    base_topo: int,
) -> bool {
    forall|x: int|
        0 <= x < upto && #[trigger] marks[x] ==> known[x]@ == c.full_order_at(x, base, base_topo)
}

/// Sorting keeps marked parents marked.
pub proof fn lemma_sorted_marked(c: Chain, marks: Seq<bool>, parents: Seq<(hash::Hash, u64)>)
    requires
        all_marked(c, marks, parents),
    ensures
        all_marked(c, marks, sort_desc(parents)),
{
    lemma_sort_desc(parents);
    let sorted = sort_desc(parents);
    assert forall|x: int| 0 <= x < sorted.len() implies 0 <= c.index_of((#[trigger] sorted[x]).0)
        < marks.len() && marks[c.index_of(sorted[x].0)] by {
        assert(sorted.contains(sorted[x]));
        assert(parents.contains(sorted[x]));
        let y = choose|y: int| 0 <= y < parents.len() && parents[y] == sorted[x];
        assert(0 <= c.index_of(parents[y].0) < marks.len());
    }
}

fn tip_in_scope(storage: &Storage, place: usize, base_topo: u64) -> (r: bool)
    requires
        place < storage.blocks.len(),
    ensures
        r == storage@.in_scope(place as int, base_topo as int),
{
    match storage.find_topoheight(&storage.blocks[place].hash) {
        None => true,
        Some(t) => t as u64 >= base_topo,
    }
}

/// Marks the blocks whose order the order of the block at place `i` rests on.
fn mark_for_order(storage: &Storage, i: usize, base: &hash::Hash, base_topo: u64) -> (marks: Vec<
    bool,
>)
    requires
        storage@.wf_blocks(),
        i < storage.blocks.len(),
    ensures
        marks@.len() == i + 1,
        marks@[i as int],
        order_marked(storage@, marks@, 0, *base, base_topo as int),
{
    let ghost c = storage@;
    let ghost bt = base_topo as int;
    let mut marks = single_mark(i);
    let mut done: usize = i + 1;
    while done > 0
        invariant
            done <= i + 1,
            i < storage.blocks.len(),
            c == storage@,
            c.wf_blocks(),
            bt == base_topo as int,
            marks@.len() == i + 1,
            marks@[i as int],
            order_marked(c, marks@, done as int, *base, bt),
        decreases done,
    {
        let x = done - 1;
        let block = &storage.blocks[x];
        if marks[x] && block.hash != *base {
            let n = block.block.tips.len();
            let mut k: usize = 0;
            while k < n
                invariant
                    k <= n,
                    n == c.tips_at(x as int).len(),
                    x <= i,
                    x + 1 == done,
                    i < storage.blocks.len(),
                    c == storage@,
                    c.wf_blocks(),
                    bt == base_topo as int,
                    block == &storage.blocks[x as int],
                    marks@.len() == i + 1,
                    marks@[i as int],
                    marks@[x as int],
                    order_marked(c, marks@, done as int, *base, bt),
                    order_tips_marked(c, marks@, x as int, k as int, bt),
                decreases n - k,
            {
                let ghost p = c.parent(x as int, k as int);
                assert(0 <= p < x);
                match storage.find_block(&block.block.tips[k]) {
                    None => {
                        assert(false);
                    },
                    Some(place) => {
                        if tip_in_scope(storage, place, base_topo) {
                            marks.set(place, true);
                        }
                    },
                }
                k = k + 1;
            }
        }
        done = x;
    }
    marks
}

/// The order of the block at place `x`, from the orders of the blocks before
/// it that it rests on.
fn order_from_known(
    storage: &Storage,
    x: usize,
    base: &hash::Hash,
    base_topo: u64,
    marks: &Vec<bool>,
    known: &Vec<Vec<hash::Hash>>,
) -> (order: Vec<hash::Hash>)
    requires
        storage@.wf_blocks(),
        x < storage.blocks.len(),
        x < marks@.len(),
        marks@[x as int],
        known@.len() == x,
        order_marked(storage@, marks@, 0, *base, base_topo as int),
        orders_known(storage@, marks@, known@, x as int, *base, base_topo as int),
    ensures
        order@ == storage@.full_order_at(x as int, *base, base_topo as int),
{
    let block = &storage.blocks[x];
    let n = block.block.tips.len();
    let mut order: Vec<hash::Hash> = Vec::new();
    if n == 0 || block.hash == *base {
        order.push(block.hash);
        proof {
            assert(order@ =~= seq![block.hash]);
        }
        return order;
    }
    let ghost c = storage@;
    let ghost bt = base_topo as int;
    let mut scores: Vec<(hash::Hash, u64)> = Vec::new();
    let mut k: usize = 0;
    while k < n
        invariant
            k <= n,
            n == c.tips_at(x as int).len(),
            c == storage@,
            c.wf_blocks(),
            x < storage.blocks.len(),
            x < marks@.len(),
            marks@[x as int],
            block.hash != *base,
            bt == base_topo as int,
            block == &storage.blocks[x as int],
            order_marked(c, marks@, 0, *base, bt),
            scores@ == c.scoped_parents(x as int, bt, k as int),
            all_marked(c, marks@, scores@),
        decreases n - k,
    {
        let ghost p = c.parent(x as int, k as int);
        assert(0 <= p < x);
        match storage.find_block(&block.block.tips[k]) {
            None => {
                assert(false);
            },
            Some(place) => {
                if tip_in_scope(storage, place, base_topo) {
                    assert(marks@[p]);
                    scores.push((block.block.tips[k], storage.blocks[place].cumulative_difficulty));
                }
            },
        }
        k = k + 1;
    }
    proof {
        lemma_scoped_parents(c, x as int, bt, n as int);
        lemma_sorted_parents(c, x as int, scores@);
        lemma_sorted_marked(c, marks@, scores@);
    }
    sort_descending_by_cumulative_difficulty(&mut scores);
    let m = scores.len();
    let mut z: usize = 0;
    while z < m
        invariant
            z <= m,
            m == scores@.len(),
            c == storage@,
            c.wf_blocks(),
            x < storage.blocks.len(),
            known@.len() == x,
            bt == base_topo as int,
            c.all_parents_of(x as int, scores@),
            all_marked(c, marks@, scores@),
            orders_known(c, marks@, known@, x as int, *base, bt),
            c.full_order_merge(x as int, scores@, 0, Seq::empty(), *base, bt) == c.full_order_merge(
                x as int,
                scores@,
                z as int,
                order@,
                *base,
                bt,
            ),
        decreases m - z,
    {
        assert(0 <= c.index_of(scores@[z as int].0) < x);
        assert(marks@[c.index_of(scores@[z as int].0)]);
        match storage.find_block(&scores[z].0) {
            None => {
                assert(false);
            },
            Some(place) => {
                let sub = &known[place];
                assert(sub@ == c.full_order_at(place as int, *base, bt));
                let ghost start = order@;
                let len = sub.len();
                let mut y: usize = 0;
                while y < len
                    invariant
                        y <= len,
                        len == sub@.len(),
                        order@ == append_new(start, sub@, y as int),
                    decreases len - y,
                {
                    if !crate::storage::contains_hash(&order, &sub[y]) {
                        order.push(sub[y]);
                    }
                    y = y + 1;
                }
            },
        }
        z = z + 1;
    }
    order.push(block.hash);
    order
}

/// The order of the block at place `i` and of its past back to the base.
pub fn full_order_at(storage: &Storage, i: usize, base: &hash::Hash, base_topo: u64) -> (order:
    Vec<hash::Hash>)
    requires
        storage@.wf_blocks(),
        i < storage.blocks.len(),
    ensures
        order@ == storage@.full_order_at(i as int, *base, base_topo as int),
{
    let ghost c = storage@;
    let ghost bt = base_topo as int;
    let marks = mark_for_order(storage, i, base, base_topo);
    let mut known: Vec<Vec<hash::Hash>> = Vec::new();
    let mut x: usize = 0;
    while x < i
        invariant
            x <= i,
            i < storage.blocks.len(),
            c == storage@,
            c.wf_blocks(),
            bt == base_topo as int,
            marks@.len() == i + 1,
            marks@[i as int],
            known@.len() == x,
            order_marked(c, marks@, 0, *base, bt),
            orders_known(c, marks@, known@, x as int, *base, bt),
        decreases i - x,
    {
        let order = if marks[x] {
            order_from_known(storage, x, base, base_topo, &marks, &known)
        } else {
            Vec::new()
        };
        let ghost before = known@;
        known.push(order);
        proof {
            assert forall|y: int| 0 <= y < x + 1 && #[trigger] marks@[y] implies known@[y]@
                == c.full_order_at(y, *base, bt) by {
                if y < x {
                    assert(known@[y] == before[y]);
                }
            }
        }
        x = x + 1;
    }
    order_from_known(storage, i, base, base_topo, &marks, &known)
}

/// Whether the block at place `t` of `order` is a side block.
pub fn side_at_place(storage: &Storage, order: &Vec<TopoEntry>, t: usize) -> (r: bool)
    requires
        t < order.len(),
        forall|x: int| 0 <= x <= t ==> storage@.has_block((#[trigger] order@[x]).hash),
    ensures
        r == side_at(storage@, order@, t as int),
{
    if t < 2 {
        return false;
    }
    let height = match storage.find_block(&order[t].hash) {
        Some(place) => storage.blocks[place].block.height,
        None => {
            assert(storage@.has_block(order@[t as int].hash));
            0
        },
    };
    let mut counter: u64 = 0;
    let mut i: usize = t;
    while counter < STABLE_HEIGHT_LIMIT && i > 1
        invariant
            counter <= STABLE_HEIGHT_LIMIT,
            i + counter == t,
            i >= 1,
            t < order.len(),
            height == height_in(storage@, order@, t as int),
            forall|x: int| 0 <= x <= t ==> storage@.has_block((#[trigger] order@[x]).hash),
            side_within(storage@, order@, t as int, counter as int),
        decreases i,
    {
        i = i - 1;
        counter = counter + 1;
        let previous = match storage.find_block(&order[i].hash) {
            Some(place) => storage.blocks[place].block.height,
            None => {
                assert(storage@.has_block(order@[i as int].hash));
                0
            },
        };
        if previous < height {
            assert(height_in(storage@, order@, t - counter) < height_in(storage@, order@, t as int));
            assert(!side_within(storage@, order@, t as int, STABLE_HEIGHT_LIMIT as int));
            return false;
        }
        assert forall|m: int| 1 <= m <= counter && 1 <= t - m implies #[trigger] height_in(
            storage@,
            order@,
            t - m,
        ) >= height_in(storage@, order@, t as int) by {
            if m < counter {
                assert(side_within(storage@, order@, t as int, counter - 1));
            }
        }
    }
    true
}

impl Blockchain {
    /// The order of the block `h` and of its past back to `base`, which is
    /// ordered at `base_topo_height`: the blocks that take the topoheights
    /// from there on.
    pub fn generate_full_order(
        &self,
        storage: &Storage,
        h: &hash::Hash,
        base: &hash::Hash,
        base_topo_height: u64,
    ) -> (r: Result<Vec<hash::Hash>, BlockchainError>)
        requires
            storage@.wf_blocks(),
        ensures
            match r {
                Ok(order) => storage@.has_block(*h) && order@ == storage@.full_order(
                    *h,
                    *base,
                    base_topo_height as int,
                ),
                Err(e) => !storage@.has_block(*h) && e == BlockchainError::BlockNotFound(*h),
            },
    {
        match storage.find_block(h) {
            Some(i) => {
                proof {
                    lemma_found(storage@, *h);
                }
                Ok(full_order_at(storage, i, base, base_topo_height))
            },
            None => Err(BlockchainError::BlockNotFound(*h)),
        }
    }

    /// Whether the block `h` has no place in the total order, so that its
    /// transactions are not honoured.
    pub fn is_block_orphaned_for_storage(&self, storage: &Storage, h: &hash::Hash) -> (r: bool)
        ensures
            r == !storage@.is_ordered(*h),
    {
        !storage.is_block_topological_ordered(h)
    }

    /// Whether the block `h` is a side block.
    pub fn is_side_block(&self, storage: &Storage, h: &hash::Hash) -> (r: Result<
        bool,
        BlockchainError,
    >)
        requires
            storage@.order_stored(),
        ensures
            r == Ok::<bool, BlockchainError>(storage@.is_side_block(*h)),
    {
        match storage.find_topoheight(h) {
            None => Ok(false),
            Some(t) => Ok(side_at_place(storage, &storage.order, t)),
        }
    }

    /// Whether the block `h` is ordered at least the stable limit under `topoheight`.
    pub fn has_block_stable_order(&self, storage: &Storage, h: &hash::Hash, topoheight: u64) -> (r:
        Result<bool, BlockchainError>)
        ensures
            r == Ok::<bool, BlockchainError>(storage@.has_stable_order(*h, topoheight)),
    {
        match storage.find_topoheight(h) {
            None => Ok(false),
            Some(t) => Ok(t as u128 + STABLE_HEIGHT_LIMIT as u128 <= topoheight as u128),
        }
    }
}

} // verus!
