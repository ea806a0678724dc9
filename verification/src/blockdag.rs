//! Primitives over the stored blocks: the height at a set of tips, and the
//! order of tips by cumulative difficulty.

use vstd::prelude::*;
use crate::error::BlockchainError;
use crate::hash;
use crate::storage::{lemma_height_bound, max_height, Chain, Storage};

verus! {

/// Whether `a` comes before `b` when sorting by descending score: the larger
/// score first, and of two equal scores the later digest first.
pub open spec fn comes_before(a: (hash::Hash, u64), b: (hash::Hash, u64)) -> bool {
    a.1 > b.1 || (a.1 == b.1 && b.0.precedes(a.0))
}

/// `s` with `x` put before the trailing run of elements that `x` comes before.
pub open spec fn insert_sorted(s: Seq<(hash::Hash, u64)>, x: (hash::Hash, u64)) -> Seq<
    (hash::Hash, u64),
>
    decreases s.len(),
{
    if s.len() == 0 {
        seq![x]
    } else if comes_before(x, s.last()) {
        insert_sorted(s.drop_last(), x).push(s.last())
    } else {
        s.push(x)
    }
}

/// `s` sorted by descending score; of two equal scores the later digest comes first.
pub open spec fn sort_desc(s: Seq<(hash::Hash, u64)>) -> Seq<(hash::Hash, u64)>
    decreases s.len(),
{
    if s.len() == 0 {
        Seq::empty()
    } else {
        insert_sorted(sort_desc(s.drop_last()), s.last())
    }
}

/// Whether every element of `s` comes before or equals each later one.
pub open spec fn is_sorted_desc(s: Seq<(hash::Hash, u64)>) -> bool {
    forall|i: int, j: int| 0 <= i < j < s.len() ==> !comes_before(#[trigger] s[j], #[trigger] s[i])
}

/// Where [`insert_sorted`] puts the new element.
pub proof fn lemma_insert_at(s: Seq<(hash::Hash, u64)>, x: (hash::Hash, u64), j: int)
    requires
        0 <= j <= s.len(),
        forall|m: int| j <= m < s.len() ==> comes_before(x, #[trigger] s[m]),
        j == 0 || !comes_before(x, s[j - 1]),
    ensures
        insert_sorted(s, x) == s.insert(j, x),
    decreases s.len(),
{
    if s.len() == 0 {
        assert(seq![x] =~= s.insert(0, x));
    } else if j == s.len() {
        assert(s.push(x) =~= s.insert(j, x));
    } else {
        assert(comes_before(x, s[s.len() - 1]));
        lemma_insert_at(s.drop_last(), x, j);
        assert(s.drop_last().insert(j, x).push(s.last()) =~= s.insert(j, x));
    }
}

/// Inserting keeps every element and adds the new one.
pub proof fn lemma_insert_sorted_elements(s: Seq<(hash::Hash, u64)>, x: (hash::Hash, u64))
    ensures
        insert_sorted(s, x).len() == s.len() + 1,
        forall|e: (hash::Hash, u64)|
            #[trigger] insert_sorted(s, x).contains(e) <==> (s.contains(e) || e == x),
        is_sorted_desc(s) ==> is_sorted_desc(insert_sorted(s, x)),
    decreases s.len(),
{
    let r = insert_sorted(s, x);
    if s.len() == 0 {
        assert(r[0] == x);
        assert forall|e: (hash::Hash, u64)| r.contains(e) <==> (s.contains(e) || e == x) by {
            if e == x {
                assert(r[0] == e);
            }
        }
    } else if comes_before(x, s.last()) {
        let d = s.drop_last();
        let q = insert_sorted(d, x);
        lemma_insert_sorted_elements(d, x);
        assert forall|e: (hash::Hash, u64)| r.contains(e) <==> (s.contains(e) || e == x) by {
            if r.contains(e) {
                let i = choose|i: int| 0 <= i < r.len() && r[i] == e;
                if i < q.len() {
                    assert(q[i] == e);
                    assert(q.contains(e));
                    if d.contains(e) {
                        let k = choose|k: int| 0 <= k < d.len() && d[k] == e;
                        assert(s[k] == e);
                    }
                } else {
                    assert(s[s.len() - 1] == e);
                }
            }
            if s.contains(e) {
                let k = choose|k: int| 0 <= k < s.len() && s[k] == e;
                if k < d.len() {
                    assert(d[k] == e);
                    assert(d.contains(e));
                    assert(q.contains(e));
                    let i = choose|i: int| 0 <= i < q.len() && q[i] == e;
                    assert(r[i] == e);
                } else {
                    assert(r[r.len() - 1] == e);
                }
            }
            if e == x {
                assert(q.contains(x));
                let i = choose|i: int| 0 <= i < q.len() && q[i] == x;
                assert(r[i] == e);
            }
        }
        if is_sorted_desc(s) {
            assert(is_sorted_desc(d)) by {
                assert forall|i: int, j: int| 0 <= i < j < d.len() implies !comes_before(
                    #[trigger] d[j],
                    #[trigger] d[i],
                ) by {
                    assert(d[i] == s[i] && d[j] == s[j]);
                }
            }
            assert forall|i: int, j: int| 0 <= i < j < r.len() implies !comes_before(
                #[trigger] r[j],
                #[trigger] r[i],
            ) by {
                if j < q.len() {
                    assert(r[i] == q[i] && r[j] == q[j]);
                } else {
                    assert(r[j] == s.last());
                    assert(r[i] == q[i]);
                    assert(q.contains(q[i]));
                    if q[i] == x {
                        lemma_comes_before_strict(x, s.last());
                    } else {
                        assert(d.contains(q[i]));
                        let k = choose|k: int| 0 <= k < d.len() && d[k] == q[i];
                        assert(s[k] == q[i]);
                        assert(!comes_before(s[s.len() - 1], s[k]));
                    }
                }
            }
        }
    } else {
        assert forall|e: (hash::Hash, u64)| r.contains(e) <==> (s.contains(e) || e == x) by {
            if r.contains(e) {
                let i = choose|i: int| 0 <= i < r.len() && r[i] == e;
                if i < s.len() {
                    assert(s[i] == e);
                }
            }
            if s.contains(e) {
                let k = choose|k: int| 0 <= k < s.len() && s[k] == e;
                assert(r[k] == e);
            }
            if e == x {
                assert(r[r.len() - 1] == e);
            }
        }
        if is_sorted_desc(s) {
            assert forall|i: int, j: int| 0 <= i < j < r.len() implies !comes_before(
                #[trigger] r[j],
                #[trigger] r[i],
            ) by {
                if j < s.len() {
                    assert(r[i] == s[i] && r[j] == s[j]);
                } else {
                    assert(r[j] == x);
                    assert(r[i] == s[i]);
                    if i < s.len() - 1 {
                        assert(!comes_before(s[s.len() - 1], s[i]));
                        lemma_not_before_transitive(x, s.last(), s[i]);
                    }
                }
            }
        }
    }
}

/// Coming before is a strict order: it never holds both ways.
pub proof fn lemma_comes_before_strict(a: (hash::Hash, u64), b: (hash::Hash, u64))
    requires
        comes_before(a, b),
    ensures
        !comes_before(b, a),
{
}

/// If `a` does not come before `b`, and `b` does not come before `c`, then
/// `a` does not come before `c`.
pub proof fn lemma_not_before_transitive(
    a: (hash::Hash, u64),
    b: (hash::Hash, u64),
    c: (hash::Hash, u64),
)
    requires
        !comes_before(a, b),
        !comes_before(b, c),
    ensures
        !comes_before(a, c),
{
}

/// What sorting keeps: the elements, their number, and descending order.
pub proof fn lemma_sort_desc(s: Seq<(hash::Hash, u64)>)
    ensures
        sort_desc(s).len() == s.len(),
        forall|e: (hash::Hash, u64)| #[trigger] sort_desc(s).contains(e) <==> s.contains(e),
        is_sorted_desc(sort_desc(s)),
    decreases s.len(),
{
    if s.len() > 0 {
        let d = s.drop_last();
        lemma_sort_desc(d);
        lemma_insert_sorted_elements(sort_desc(d), s.last());
        assert forall|e: (hash::Hash, u64)| sort_desc(s).contains(e) <==> s.contains(e) by {
            if s.contains(e) {
                let k = choose|k: int| 0 <= k < s.len() && s[k] == e;
                if k < d.len() {
                    assert(d[k] == e);
                }
            }
            if d.contains(e) {
                let k = choose|k: int| 0 <= k < d.len() && d[k] == e;
                assert(s[k] == e);
            }
            if e == s.last() {
                assert(s[s.len() - 1] == e);
            }
        }
    }
}

fn before(a: &(hash::Hash, u64), b: &(hash::Hash, u64)) -> (r: bool)
    ensures
        r == comes_before(*a, *b),
{
    a.1 > b.1 || (a.1 == b.1 && b.0.lt(&a.0))
}

/// Sorts by descending score; of two equal scores the later digest comes first.
pub fn sort_descending_by_cumulative_difficulty(scores: &mut Vec<(hash::Hash, u64)>)
    ensures
        final(scores)@ == sort_desc(old(scores)@),
{
    let mut out: Vec<(hash::Hash, u64)> = Vec::new();
    let n = scores.len();
    let mut i: usize = 0;
    while i < n
        invariant
            i <= n,
            n == scores.len(),
            out@ == sort_desc(scores@.take(i as int)),
        decreases n - i,
    {
        let x = scores[i];
        let mut j: usize = out.len();
        while j > 0 && before(&x, &out[j - 1])
            invariant
                j <= out.len(),
                forall|m: int| j <= m < out.len() ==> comes_before(x, #[trigger] out@[m]),
            decreases j,
        {
            j = j - 1;
        }
        proof {
            lemma_insert_at(out@, x, j as int);
            assert(scores@.take(i + 1).drop_last() =~= scores@.take(i as int));
        }
        out.insert(j, x);
        i = i + 1;
    }
    proof {
        assert(scores@.take(n as int) =~= scores@);
    }
    *scores = out;
}

impl Chain {
    /// The cumulative difficulty of the block `h`.
    pub open spec fn cumulative_of(self, h: hash::Hash) -> u64 {
        self.block(h).cumulative_difficulty
    }

    /// Each of `tips` paired with its cumulative difficulty.
    pub open spec fn scored(self, tips: Seq<hash::Hash>) -> Seq<(hash::Hash, u64)> {
        Seq::new(tips.len(), |k: int| (tips[k], self.cumulative_of(tips[k])))
    }

    /// `tips` by descending cumulative difficulty.
    pub open spec fn sorted_tips(self, tips: Seq<hash::Hash>) -> Seq<hash::Hash> {
        let sorted = sort_desc(self.scored(tips));
        Seq::new(sorted.len(), |k: int| sorted[k].0)
    }

    /// Whether every one of `tips` is stored.
    pub open spec fn all_stored(self, tips: Seq<hash::Hash>) -> bool {
        forall|k: int| 0 <= k < tips.len() ==> self.has_block(#[trigger] tips[k])
    }

    /// Whether `e` reports the first of `tips` that is not stored.
    pub open spec fn first_missing(self, tips: Seq<hash::Hash>, e: BlockchainError) -> bool {
        exists|k: int|
            0 <= k < tips.len() && !self.has_block(#[trigger] tips[k]) && self.all_stored(
                tips.take(k),
            ) && e == BlockchainError::BlockNotFound(tips[k])
    }

    /// Place in `tips` of the first tip of greatest cumulative difficulty
    /// among the first `n`, with that difficulty.
    pub open spec fn heaviest(self, tips: Seq<hash::Hash>, n: int) -> (int, u64)
        decreases n,
    {
        if n <= 0 {
            (0, 0)
        } else {
            let previous = self.heaviest(tips, n - 1);
            let cumulative = self.cumulative_of(tips[n - 1]);
            if previous.1 < cumulative {
                (n - 1, cumulative)
            } else {
                previous
            }
        }
    }

    /// The best of `tips` by cumulative difficulty: the first of the heaviest.
    pub open spec fn best_tip_by_cumulative_difficulty(self, tips: Seq<hash::Hash>) -> hash::Hash {
        if tips.len() == 1 {
            tips[0]
        } else {
            tips[self.heaviest(tips, tips.len() as int).0]
        }
    }
}

/// The first of the heaviest tips is one of the tips and no tip is heavier.
pub proof fn lemma_heaviest(c: Chain, tips: Seq<hash::Hash>, n: int)
    requires
        0 <= n <= tips.len(),
    ensures
        n > 0 ==> (0 <= c.heaviest(tips, n).0 < n),
        n > 0 ==> (c.heaviest(tips, n).1 >= c.cumulative_of(tips[c.heaviest(tips, n).0])),
        forall|k: int| 0 <= k < n ==> c.cumulative_of(#[trigger] tips[k]) <= c.heaviest(tips, n).1,
        n > 0 ==> (c.heaviest(tips, n).1 == c.cumulative_of(tips[c.heaviest(tips, n).0])
            || c.heaviest(tips, n).1 == 0),
    decreases n,
{
    if n > 0 {
        lemma_heaviest(c, tips, n - 1);
        let previous = c.heaviest(tips, n - 1);
        let cumulative = c.cumulative_of(tips[n - 1]);
        assert(c.heaviest(tips, n) == if previous.1 < cumulative {
            (n - 1, cumulative)
        } else {
            previous
        });
        if n == 1 {
            assert(previous == (0int, 0u64));
        }
    }
}

/// The height a block with these tips has.
pub fn calculate_height_at_tips(storage: &Storage, tips: &Vec<hash::Hash>) -> (r: Result<
    u64,
    BlockchainError,
>)
    requires
        storage@.wf_blocks(),
    ensures
        match r {
            Ok(height) => storage@.all_stored(tips@) && height as int == storage@.height_at_tips(
                tips@,
            ),
            Err(e) => storage@.first_missing(tips@, e),
        },
{
    let n = tips.len();
    let mut height: u64 = 0;
    let mut i: usize = 0;
    let ghost places = storage@.places(tips@);
    while i < n
        invariant
            i <= n,
            n == tips.len(),
            storage@.wf_blocks(),
            places == storage@.places(tips@),
            storage@.all_stored(tips@.take(i as int)),
            height as int == max_height(storage@.blocks, places.take(i as int)),
            height as int + 1 <= storage@.blocks.len() || i == 0,
        decreases n - i,
    {
        match storage.find_block(&tips[i]) {
            None => {
                proof {
                    assert(!storage@.has_block(tips@[i as int]));
                }
                return Err(BlockchainError::BlockNotFound(tips[i]));
            },
            Some(p) => {
                let past_height = storage.blocks[p].block.height;
                proof {
                    lemma_height_bound(storage@, p as int);
                    assert(places.take(i + 1).drop_last() =~= places.take(i as int));
                    assert(places.take(i + 1).last() == p);
                    assert forall|k: int| 0 <= k < i + 1 implies storage@.has_block(
                        #[trigger] tips@.take(i + 1)[k],
                    ) by {
                        if k < i {
                            assert(tips@.take(i as int)[k] == tips@[k]);
                        }
                    }
                }
                if height <= past_height {
                    height = past_height;
                }
            },
        }
        i = i + 1;
    }
    proof {
        assert(places.take(n as int) =~= places);
        assert(tips@.take(n as int) =~= tips@);
    }
    if n != 0 {
        let stored = storage.blocks.len();
        assert(height < stored);
        height = height + 1;
    }
    Ok(height)
}

/// The best of `tips` by cumulative difficulty.
pub fn find_best_tip_by_cumulative_difficulty(storage: &Storage, tips: &Vec<hash::Hash>) -> (r:
    Result<hash::Hash, BlockchainError>)
    ensures
        match r {
            Ok(best) => tips@.len() > 0 && (tips@.len() > 1 ==> storage@.all_stored(tips@))
                && best == storage@.best_tip_by_cumulative_difficulty(tips@) && tips@.contains(
                best,
            ) && (storage@.all_stored(tips@) ==> forall|k: int|
                0 <= k < tips@.len() ==> storage@.cumulative_of(#[trigger] tips@[k])
                    <= storage@.cumulative_of(best)),
            Err(e) => if tips@.len() == 0 {
                e == BlockchainError::ExpectedTips
            } else {
                tips@.len() > 1 && storage@.first_missing(tips@, e)
            },
        },
{
    let n = tips.len();
    if n == 0 {
        return Err(BlockchainError::ExpectedTips);
    }
    if n == 1 {
        proof {
            assert(tips@[0] == tips@[0]);
        }
        return Ok(tips[0]);
    }
    let mut highest: u64 = 0;
    let mut selected: usize = 0;
    let mut i: usize = 0;
    while i < n
        invariant
            i <= n,
            n == tips.len(),
            n > 1,
            storage@.all_stored(tips@.take(i as int)),
            (selected as int, highest) == storage@.heaviest(tips@, i as int),
            selected < n,
        decreases n - i,
    {
        match storage.find_block(&tips[i]) {
            None => {
                proof {
                    assert(!storage@.has_block(tips@[i as int]));
                }
                return Err(BlockchainError::BlockNotFound(tips[i]));
            },
            Some(p) => {
                let cumulative = storage.blocks[p].cumulative_difficulty;
                proof {
                    assert forall|k: int| 0 <= k < i + 1 implies storage@.has_block(
                        #[trigger] tips@.take(i + 1)[k],
                    ) by {
                        if k < i {
                            assert(tips@.take(i as int)[k] == tips@[k]);
                        }
                    }
                }
                if highest < cumulative {
                    highest = cumulative;
                    selected = i;
                }
            },
        }
        i = i + 1;
    }
    proof {
        assert(tips@.take(n as int) =~= tips@);
        lemma_heaviest(storage@, tips@, n as int);
        assert(tips@[selected as int] == tips@[selected as int]);
    }
    Ok(tips[selected])
}

/// The tips by descending cumulative difficulty.
pub fn sort_tips(storage: &Storage, tips: &Vec<hash::Hash>) -> (r: Result<
    Vec<hash::Hash>,
    BlockchainError,
>)
    ensures
        match r {
            Ok(sorted) => tips@.len() > 0 && (if tips@.len() == 1 {
                sorted@ == tips@
            } else {
                storage@.all_stored(tips@) && sorted@ == storage@.sorted_tips(tips@)
            }),
            Err(e) => if tips@.len() == 0 {
                e == BlockchainError::ExpectedTips
            } else {
                tips@.len() > 1 && storage@.first_missing(tips@, e)
            },
        },
{
    let n = tips.len();
    if n == 0 {
        return Err(BlockchainError::ExpectedTips);
    }
    if n == 1 {
        let mut single: Vec<hash::Hash> = Vec::new();
        single.push(tips[0]);
        proof {
            assert(single@ =~= tips@);
        }
        return Ok(single);
    }
    let mut scores: Vec<(hash::Hash, u64)> = Vec::new();
    let mut i: usize = 0;
    while i < n
        invariant
            i <= n,
            n == tips.len(),
            n > 1,
            storage@.all_stored(tips@.take(i as int)),
            scores@ == storage@.scored(tips@).take(i as int),
        decreases n - i,
    {
        match storage.find_block(&tips[i]) {
            None => {
                proof {
                    assert(!storage@.has_block(tips@[i as int]));
                }
                return Err(BlockchainError::BlockNotFound(tips[i]));
            },
            Some(p) => {
                proof {
                    assert forall|k: int| 0 <= k < i + 1 implies storage@.has_block(
                        #[trigger] tips@.take(i + 1)[k],
                    ) by {
                        if k < i {
                            assert(tips@.take(i as int)[k] == tips@[k]);
                        }
                    }
                }
                scores.push((tips[i], storage.blocks[p].cumulative_difficulty));
                proof {
                    assert(scores@ =~= storage@.scored(tips@).take(i + 1));
                }
            },
        }
        i = i + 1;
    }
    proof {
        assert(tips@.take(n as int) =~= tips@);
        assert(storage@.scored(tips@).take(n as int) =~= storage@.scored(tips@));
    }
    sort_descending_by_cumulative_difficulty(&mut scores);
    let mut sorted: Vec<hash::Hash> = Vec::new();
    let m = scores.len();
    let mut j: usize = 0;
    while j < m
        invariant
            j <= m,
            m == scores.len(),
            sorted@.len() == j,
            forall|k: int| 0 <= k < j ==> sorted@[k] == scores@[k].0,
        decreases m - j,
    {
        sorted.push(scores[j].0);
        j = j + 1;
    }
    proof {
        assert(sorted@ =~= storage@.sorted_tips(tips@));
    }
    Ok(sorted)
}

} // verus!
