//! Reachability between the tips of a block, and the distance of a block
//! from the main chain.

use vstd::prelude::*;
use crate::block::Block;
use crate::blockchain::Blockchain;
use crate::config::TIPS_LIMIT;
use crate::error::BlockchainError;
use crate::hash;
use crate::storage::{single_mark, Chain, Storage};

verus! {

/// Number of generations searched from a tip: twice the stable limit.
pub const REACHABILITY_DEPTH: u64 = 16;

/// The lower of a height and the lowest found so far.
pub open spec fn lower_height(lowest: u64, height: u64) -> u64 {
    if lowest > height {
        height
    } else {
        lowest
    }
}

impl Chain {
    /// Whether the block `target` is the block at place `i` or one of its
    /// ancestors up to `depth` generations back.
    pub open spec fn reaches(self, i: int, target: hash::Hash, depth: nat) -> bool
        decreases depth, 1int, 0int,
    {
        self.blocks[i].hash == target || (depth > 0 && self.reaches_via(i, 0, target, depth))
    }

    /// Whether `target` is reached through one of the tips from `k` on of the
    /// block at place `i`, which has `depth` generations left.
    pub open spec fn reaches_via(self, i: int, k: int, target: hash::Hash, depth: nat) -> bool
        decreases depth, 0int, self.tips_at(i).len() - k,
    {
        0 <= k < self.tips_at(i).len() && depth > 0 && (self.reaches(
            self.parent(i, k),
            target,
            (depth - 1) as nat,
        ) || self.reaches_via(i, k + 1, target, depth))
    }

    /// Whether no tip lies in the near past of another: each tip is searched
    /// through [`REACHABILITY_DEPTH`] generations.
    pub open spec fn non_reachable(self, tips: Seq<hash::Hash>) -> bool {
        forall|a: int, b: int|
            #![trigger tips[a], tips[b]]
            0 <= a < tips.len() && 0 <= b < tips.len() && a != b ==> !self.reaches(
                self.index_of(tips[b]),
                tips[a],
                REACHABILITY_DEPTH as nat,
            )
    }

    /// The distance of the block at place `i` from the main chain: its own
    /// height where it is ordered, else the least height of the ordered
    /// blocks first met on the ways into its past, and the greatest 64-bit
    /// number where there is none.
    pub open spec fn distance_at(self, i: int) -> u64
        decreases i, 1int, 0int,
    {
        if 0 <= i < self.blocks.len() && !self.is_ordered(self.blocks[i].hash) {
            self.distance_scan(i, 0, u64::MAX)
        } else {
            self.blocks[i].block.height
        }
    }

    /// The least distance from tip `k` of the block at place `i` on, given the
    /// least before.
    pub open spec fn distance_scan(self, i: int, k: int, lowest: u64) -> u64
        decreases i, 0int, self.tips_at(i).len() - k,
    {
        if k < 0 || k >= self.tips_at(i).len() {
            lowest
        } else {
            let p = self.parent(i, k);
            if !(0 <= p < i) {
                lowest
            } else {
                self.distance_scan(i, k + 1, lower_height(lowest, self.distance_at(p)))
            }
        }
    }

    /// The distance of the block `h` from the main chain.
    pub open spec fn distance_from_mainchain(self, h: hash::Hash) -> u64 {
        self.distance_at(self.index_of(h))
    }
}

/// Whether the marks from place `from` on are closed under the tips that
/// count for a distance: every tip of a marked block that is not ordered is
/// marked.
pub open spec fn distance_marked(c: Chain, marks: Seq<bool>, from: int) -> bool {
    forall|x: int, k: int|
        from <= x < marks.len() && marks[x] && !c.is_ordered(c.blocks[x].hash) && 0 <= k
            < c.tips_at(x).len() ==> 0 <= #[trigger] c.parent(x, k) < marks.len() && marks[c.parent(
            x,
            k,
        )]
}

/// Whether the first `k` tips of the block at place `x` are marked.
pub open spec fn tips_marked(c: Chain, marks: Seq<bool>, x: int, k: int) -> bool {
    forall|m: int|
        0 <= m < k && m < c.tips_at(x).len() ==> 0 <= #[trigger] c.parent(x, m) < marks.len()
            && marks[c.parent(x, m)]
}

/// Whether the distance of every marked block under place `upto` is known.
pub open spec fn distances_known(c: Chain, marks: Seq<bool>, known: Seq<u64>, upto: int) -> bool {
    forall|x: int| 0 <= x < upto && #[trigger] marks[x] ==> known[x] == c.distance_at(x)
}

/// Marks the blocks whose distance the distance of the block at place `i`
/// rests on.
fn mark_for_distance(storage: &Storage, i: usize) -> (marks: Vec<bool>)
    requires
        storage@.wf_blocks(),
        i < storage.blocks.len(),
    ensures
        marks@.len() == i + 1,
        marks@[i as int],
        distance_marked(storage@, marks@, 0),
{
    let ghost c = storage@;
    let mut marks = single_mark(i);
    let mut done: usize = i + 1;
    while done > 0
        invariant
            done <= i + 1,
            i < storage.blocks.len(),
            c == storage@,
            c.wf_blocks(),
            marks@.len() == i + 1,
            marks@[i as int],
            distance_marked(c, marks@, done as int),
        decreases done,
    {
        let x = done - 1;
        let block = &storage.blocks[x];
        if marks[x] && !storage.is_block_topological_ordered(&block.hash) {
            let n = block.block.tips.len();
            let mut k: usize = 0;
            while k < n
                invariant
                    k <= n,
                    n == c.tips_at(x as int).len(),
                    x <= i,
                    x + 1 == done,
                    i < storage.blocks.len(),
                    c == storage@,
                    c.wf_blocks(),
                    block == &storage.blocks[x as int],
                    marks@.len() == i + 1,
                    marks@[i as int],
                    marks@[x as int],
                    distance_marked(c, marks@, done as int),
                    tips_marked(c, marks@, x as int, k as int),
                decreases n - k,
            {
                let ghost p = c.parent(x as int, k as int);
                assert(0 <= p < x);
                match storage.find_block(&block.block.tips[k]) {
                    None => {
                        assert(false);
                    },
                    Some(place) => {
                        marks.set(place, true);
                    },
                }
                k = k + 1;
            }
        }
        done = x;
    }
    marks
}

/// The distance of the block at place `i` from the main chain.
pub fn distance_at(storage: &Storage, i: usize) -> (r: u64)
    requires
        storage@.wf_blocks(),
        i < storage.blocks.len(),
    ensures
        r == storage@.distance_at(i as int),
{
    let ghost c = storage@;
    let marks = mark_for_distance(storage, i);
    let mut known: Vec<u64> = Vec::new();
    let mut x: usize = 0;
    while x <= i
        invariant
            x <= i + 1,
            i < storage.blocks.len(),
            c == storage@,
            c.wf_blocks(),
            marks@.len() == i + 1,
            known@.len() == x,
            distance_marked(c, marks@, 0),
            distances_known(c, marks@, known@, x as int),
        decreases i + 1 - x,
    {
        let block = &storage.blocks[x];
        let mut lowest: u64 = u64::MAX;
        if storage.is_block_topological_ordered(&block.hash) {
            lowest = block.block.height;
        } else if marks[x] {
            let n = block.block.tips.len();
            let mut k: usize = 0;
            while k < n
                invariant
                    k <= n,
                    n == c.tips_at(x as int).len(),
                    x <= i,
                    i < storage.blocks.len(),
                    c == storage@,
                    c.wf_blocks(),
                    block == &storage.blocks[x as int],
                    marks@.len() == i + 1,
                    marks@[x as int],
                    !c.is_ordered(c.blocks[x as int].hash),
                    known@.len() == x,
                    distance_marked(c, marks@, 0),
                    distances_known(c, marks@, known@, x as int),
                    c.distance_scan(x as int, 0, u64::MAX) == c.distance_scan(
                        x as int,
                        k as int,
                        lowest,
                    ),
                decreases n - k,
            {
                let ghost p = c.parent(x as int, k as int);
                assert(0 <= p < x);
                assert(marks@[p]);
                match storage.find_block(&block.block.tips[k]) {
                    None => {
                        assert(false);
                    },
                    Some(place) => {
                        let distance = known[place];
                        if lowest > distance {
                            lowest = distance;
                        }
                    },
                }
                k = k + 1;
            }
        }
        let ghost before = known@;
        known.push(lowest);
        proof {
            assert forall|y: int| 0 <= y < x + 1 && #[trigger] marks@[y] implies known@[y]
                == c.distance_at(y) by {
                if y < x {
                    assert(known@[y] == before[y]);
                }
            }
        }
        x = x + 1;
    }
    known[i]
}

/// Adds a digest to a set that does not hold it yet.
fn add_hash(set: &mut Vec<hash::Hash>, h: hash::Hash)
    ensures
        forall|x: hash::Hash| #[trigger] final(set)@.contains(x) <==> (old(set)@.contains(x) || x == h),
{
    let ghost before = set@;
    if !crate::storage::contains_hash(set, &h) {
        set.push(h);
        assert forall|x: hash::Hash| #[trigger] set@.contains(x) <==> (before.contains(x) || x
            == h) by {
            if before.contains(x) {
                let j = choose|j: int| 0 <= j < before.len() && before[j] == x;
                assert(set@[j] == x);
            }
            if x == h {
                assert(set@[set@.len() - 1] == x);
            }
            if set@.contains(x) {
                let j = choose|j: int| 0 <= j < set@.len() && set@[j] == x;
                if j < before.len() {
                    assert(before[j] == x);
                }
            }
        }
    }
}

/// A block whose tips from `next` on are still to be searched, with `depth`
/// generations left at the block.
pub struct Frame {
    pub place: usize,
    pub next: usize,
    pub depth: u64,
}

/// Whether `target` is reached through what one of the first `n` frames
/// still has to search.
pub open spec fn pending(c: Chain, stack: Seq<Frame>, n: int, target: hash::Hash) -> bool
    decreases n,
{
    n > 0 && (c.reaches_via(
        stack[n - 1].place as int,
        stack[n - 1].next as int,
        target,
        stack[n - 1].depth as nat,
    ) || pending(c, stack, n - 1, target))
}

/// Whether `set` and what the frames still have to search make up what
/// `before` held and what the block at place `i` reaches in `depth`
/// generations.
pub open spec fn searched(
    c: Chain,
    set: Seq<hash::Hash>,
    stack: Seq<Frame>,
    before: Seq<hash::Hash>,
    i: int,
    depth: nat,
) -> bool {
    forall|h: hash::Hash|
        (#[trigger] set.contains(h) || pending(c, stack, stack.len() as int, h)) <==> (
        before.contains(h) || c.reaches(i, h, depth))
}

/// What [`searched`] says of one digest.
pub proof fn lemma_searched(
    c: Chain,
    set: Seq<hash::Hash>,
    stack: Seq<Frame>,
    before: Seq<hash::Hash>,
    i: int,
    depth: nat,
    h: hash::Hash,
)
    requires
        searched(c, set, stack, before, i, depth),
    ensures
        (set.contains(h) || pending(c, stack, stack.len() as int, h)) <==> (before.contains(h)
            || c.reaches(i, h, depth)),
{
}

/// A frame that has nothing left to search can go.
pub proof fn lemma_frame_done(
    c: Chain,
    set: Seq<hash::Hash>,
    full: Seq<Frame>,
    before: Seq<hash::Hash>,
    i: int,
    depth: nat,
)
    requires
        full.len() > 0,
        searched(c, set, full, before, i, depth),
        full.last().depth == 0 || full.last().next >= c.tips_at(full.last().place as int).len(),
    ensures
        searched(c, set, full.drop_last(), before, i, depth),
{
    let rest = full.drop_last();
    let m = rest.len() as int;
    assert forall|h: hash::Hash|
        (#[trigger] set.contains(h) || pending(c, rest, rest.len() as int, h)) <==> (
        before.contains(h) || c.reaches(i, h, depth)) by {
        lemma_same_frames(c, full, rest, m, h);
        lemma_searched(c, set, full, before, i, depth, h);
        assert(!c.reaches_via(
            full[m].place as int,
            full[m].next as int,
            h,
            full[m].depth as nat,
        ));
        assert(pending(c, full, m + 1, h) == pending(c, full, m, h));
    }
}

/// A bound on the steps that the search of a block takes with `depth`
/// generations left.
pub open spec fn search_bound(depth: nat) -> nat
    decreases depth,
{
    if depth == 0 {
        1
    } else {
        1 + TIPS_LIMIT as nat * (1 + search_bound((depth - 1) as nat))
    }
}

/// A bound on the steps that a frame still takes.
pub open spec fn frame_bound(c: Chain, frame: Frame) -> nat {
    if frame.depth == 0 || frame.next >= c.tips_at(frame.place as int).len() {
        1
    } else {
        1 + (c.tips_at(frame.place as int).len() - frame.next) as nat * (1 + search_bound(
            (frame.depth - 1) as nat,
        ))
    }
}

/// A bound on the steps that the first `n` frames still take.
pub open spec fn stack_bound(c: Chain, stack: Seq<Frame>, n: int) -> nat
    decreases n,
{
    if n <= 0 {
        0
    } else {
        stack_bound(c, stack, n - 1) + frame_bound(c, stack[n - 1])
    }
}

/// Whether every frame stands at a block of the arena.
pub open spec fn frames_stored(c: Chain, stack: Seq<Frame>) -> bool {
    forall|x: int| 0 <= x < stack.len() ==> (#[trigger] stack[x]).place < c.blocks.len()
}

/// What the first frames have to search and how long they take depends on
/// those frames alone.
pub proof fn lemma_same_frames(c: Chain, a: Seq<Frame>, b: Seq<Frame>, n: int, target: hash::Hash)
    requires
        0 <= n <= a.len(),
        n <= b.len(),
        forall|x: int| 0 <= x < n ==> a[x] == b[x],
    ensures
        pending(c, a, n, target) == pending(c, b, n, target),
        stack_bound(c, a, n) == stack_bound(c, b, n),
    decreases n,
{
    if n > 0 {
        lemma_same_frames(c, a, b, n - 1, target);
    }
}

/// A frame that starts on a block takes no longer than the search of the block.
pub proof fn lemma_fresh_frame(c: Chain, place: usize, depth: u64)
    requires
        c.wf_blocks(),
        place < c.blocks.len(),
    ensures
        frame_bound(c, Frame { place, next: 0, depth }) <= search_bound(depth as nat),
{
    let n = c.tips_at(place as int).len();
    if depth > 0 && n > 0 {
        let w = 1 + search_bound((depth - 1) as nat);
        assert(n * w <= TIPS_LIMIT * w) by (nonlinear_arith)
            requires
                n <= TIPS_LIMIT,
                w >= 0,
        ;
    }
}

impl Blockchain {
    /// Adds to `set` the block at place `i` and its ancestors, as far back as
    /// the generations left from `level` allow.
    pub fn build_reachability_recursive(
        &self,
        storage: &Storage,
        set: &mut Vec<hash::Hash>,
        i: usize,
        level: u64,
    )
        requires
            storage@.wf_blocks(),
            i < storage.blocks.len(),
            level <= REACHABILITY_DEPTH,
        ensures
            forall|h: hash::Hash|
                #[trigger] final(set)@.contains(h) <==> (old(set)@.contains(h) || storage@.reaches(
                    i as int,
                    h,
                    (REACHABILITY_DEPTH - level) as nat,
                )),
    {
        let ghost c = storage@;
        let ghost before = set@;
        let depth = REACHABILITY_DEPTH - level;
        add_hash(set, storage.blocks[i].hash);
        let mut stack: Vec<Frame> = Vec::new();
        stack.push(Frame { place: i, next: 0, depth });
        proof {
            assert forall|h: hash::Hash|
                (#[trigger] set@.contains(h) || pending(c, stack@, stack@.len() as int, h)) <==> (
                before.contains(h) || c.reaches(i as int, h, depth as nat)) by {
                assert(!pending(c, stack@, 0, h));
            }
        }
        while stack.len() > 0
            invariant
                c == storage@,
                c.wf_blocks(),
                frames_stored(c, stack@),
                searched(c, set@, stack@, before, i as int, depth as nat),
            decreases stack_bound(c, stack@, stack@.len() as int),
        {
            let ghost full = stack@;
            let ghost held = set@;
            assert(searched(c, held, full, before, i as int, depth as nat));
            let top = stack.len() - 1;
            let frame = Frame { place: stack[top].place, next: stack[top].next, depth: stack[top].depth };
            assert(full[top as int].place < c.blocks.len());
            let _ = stack.pop();
            let ghost rest = stack@;
            assert(rest.len() + 1 == full.len());
            assert(forall|x: int| 0 <= x < rest.len() ==> rest[x] == full[x]);
            let block = &storage.blocks[frame.place];
            let n = block.block.tips.len();
            if frame.depth > 0 && frame.next < n {
                let ghost p = c.parent(frame.place as int, frame.next as int);
                assert(0 <= p < frame.place);
                match storage.find_block(&block.block.tips[frame.next]) {
                    None => {
                        assert(false);
                    },
                    Some(place) => {
                        add_hash(set, storage.blocks[place].hash);
                        let again = Frame { place: frame.place, next: frame.next + 1, depth: frame.depth };
                        let below = Frame { place, next: 0, depth: (frame.depth - 1) as u64 };
                        stack.push(again);
                        stack.push(below);
                        proof {
                            let m = rest.len() as int;
                            lemma_fresh_frame(c, place, (frame.depth - 1) as u64);
                            let w = 1 + search_bound((frame.depth - 1) as nat);
                            let left = (n - frame.next) as int;
                            assert(left * w == (left - 1) * w + w) by (nonlinear_arith);
                            assert((left - 1) * w >= 0) by (nonlinear_arith)
                                requires
                                    left >= 1,
                                    w >= 0,
                            ;
                            assert forall|h: hash::Hash|
                                (#[trigger] set@.contains(h) || pending(
                                    c,
                                    stack@,
                                    stack@.len() as int,
                                    h,
                                )) <==> (before.contains(h) || c.reaches(
                                    i as int,
                                    h,
                                    depth as nat,
                                )) by {
                                lemma_same_frames(c, full, rest, m, h);
                                lemma_same_frames(c, stack@, rest, m, h);
                                assert(pending(c, stack@, m + 1, h) == (c.reaches_via(
                                    frame.place as int,
                                    frame.next + 1,
                                    h,
                                    frame.depth as nat,
                                ) || pending(c, stack@, m, h)));
                                lemma_searched(c, held, full, before, i as int, depth as nat, h);
                                assert(c.reaches(p, h, (frame.depth - 1) as nat) == (c.blocks[p].hash
                                    == h || (frame.depth - 1 > 0 && c.reaches_via(
                                    p,
                                    0,
                                    h,
                                    (frame.depth - 1) as nat,
                                ))));
                                assert(pending(c, stack@, m + 2, h) == (c.reaches_via(
                                    p,
                                    0,
                                    h,
                                    (frame.depth - 1) as nat,
                                ) || pending(c, stack@, m + 1, h)));
                                assert(pending(c, full, m + 1, h) == (c.reaches_via(
                                    frame.place as int,
                                    frame.next as int,
                                    h,
                                    frame.depth as nat,
                                ) || pending(c, full, m, h)));
                                assert(c.reaches_via(
                                    frame.place as int,
                                    frame.next as int,
                                    h,
                                    frame.depth as nat,
                                ) == (c.reaches(p, h, (frame.depth - 1) as nat) || c.reaches_via(
                                    frame.place as int,
                                    frame.next + 1,
                                    h,
                                    frame.depth as nat,
                                )));
                                assert(set@.contains(h) == (held.contains(h) || h == c.blocks[p].hash));
                            }
                            assert(searched(c, set@, stack@, before, i as int, depth as nat));
                            lemma_same_frames(c, full, rest, m, c.blocks[0].hash);
                            lemma_same_frames(c, stack@, rest, m, c.blocks[0].hash);
                            assert(stack_bound(c, stack@, m + 1) == stack_bound(c, stack@, m)
                                + frame_bound(c, again));
                        }
                    },
                }
            } else {
                proof {
                    let m = rest.len() as int;
                    assert(rest =~= full.drop_last());
                    lemma_frame_done(c, held, full, before, i as int, depth as nat);
                    lemma_same_frames(c, full, rest, m, c.blocks[0].hash);
                }
            }
        }
        proof {
            assert forall|h: hash::Hash| #[trigger] set@.contains(h) <==> (before.contains(h)
                || c.reaches(i as int, h, depth as nat)) by {
                assert(!pending(c, stack@, 0, h));
            }
        }
    }

    /// Tells whether the tips of `block` are mutually unreachable: no tip is
    /// another tip or lies in the near past of one.
    pub fn verify_non_reachability(&self, storage: &Storage, block: &Block) -> (r: Result<
        bool,
        BlockchainError,
    >)
        requires
            storage@.wf_blocks(),
        ensures
            match r {
                Ok(separate) => storage@.all_stored(block.tips@) && separate
                    == storage@.non_reachable(block.tips@),
                Err(e) => storage@.first_missing(block.tips@, e),
            },
    {
        let tips = &block.tips;
        let n = tips.len();
        let mut places: Vec<usize> = Vec::new();
        let mut i: usize = 0;
        while i < n
            invariant
                i <= n,
                n == tips.len(),
                *tips == block.tips,
                places@.len() == i,
                storage@.all_stored(tips@.take(i as int)),
                forall|k: int|
                    0 <= k < i ==> (#[trigger] places@[k]) as int == storage@.index_of(tips@[k])
                        && places@[k] < storage.blocks.len(),
            decreases n - i,
        {
            match storage.find_block(&tips[i]) {
                None => {
                    proof {
                        assert(!storage@.has_block(tips@[i as int]));
                    }
                    return Err(BlockchainError::BlockNotFound(tips[i]));
                },
                Some(place) => {
                    places.push(place);
                    proof {
                        assert forall|k: int| 0 <= k < i + 1 implies storage@.has_block(
                            #[trigger] tips@.take(i + 1)[k],
                        ) by {
                            if k < i {
                                assert(tips@.take(i as int)[k] == tips@[k]);
                            }
                        }
                    }
                },
            }
            i = i + 1;
        }
        proof {
            assert(tips@.take(n as int) =~= tips@);
        }
        let mut j: usize = 0;
        while j < n
            invariant
                j <= n,
                n == tips.len(),
                *tips == block.tips,
                storage@.all_stored(tips@),
                places@.len() == n,
                storage@.wf_blocks(),
                forall|k: int|
                    0 <= k < n ==> (#[trigger] places@[k]) as int == storage@.index_of(tips@[k])
                        && places@[k] < storage.blocks.len(),
                forall|a: int, b: int|
                    #![trigger tips@[a], tips@[b]]
                    0 <= a < n && 0 <= b < j && a != b ==> !storage@.reaches(
                        storage@.index_of(tips@[b]),
                        tips@[a],
                        REACHABILITY_DEPTH as nat,
                    ),
            decreases n - j,
        {
            let place = places[j];
            let mut set: Vec<hash::Hash> = Vec::new();
            self.build_reachability_recursive(storage, &mut set, place, 0);
            assert forall|h: hash::Hash| #[trigger] set@.contains(h) <==> storage@.reaches(
                place as int,
                h,
                REACHABILITY_DEPTH as nat,
            ) by {
                assert(!Seq::<hash::Hash>::empty().contains(h));
            }
            let mut a: usize = 0;
            while a < n
                invariant
                    a <= n,
                    j < n,
                    n == tips.len(),
                    *tips == block.tips,
                    storage@.all_stored(tips@),
                    place as int == storage@.index_of(tips@[j as int]),
                    forall|h: hash::Hash|
                        #[trigger] set@.contains(h) <==> storage@.reaches(
                            place as int,
                            h,
                            REACHABILITY_DEPTH as nat,
                        ),
                    forall|x: int|
                        0 <= x < a && x != j ==> !storage@.reaches(
                            place as int,
                            #[trigger] tips@[x],
                            REACHABILITY_DEPTH as nat,
                        ),
                decreases n - a,
            {
                if a != j && crate::storage::contains_hash(&set, &tips[a]) {
                    proof {
                        let x = a as int;
                        let y = j as int;
                        assert(storage@.reaches(
                            storage@.index_of(tips@[y]),
                            tips@[x],
                            REACHABILITY_DEPTH as nat,
                        ));
                    }
                    return Ok(false);
                }
                a = a + 1;
            }
            j = j + 1;
        }
        Ok(true)
    }
}

} // verus!
