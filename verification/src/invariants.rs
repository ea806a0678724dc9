//! What holds of the total order that is generated from a best tip: it
//! names no block twice, only blocks in scope, and every block after the
//! tips in scope that it names.

use vstd::prelude::*;
use crate::blockdag::{lemma_sort_desc, sort_desc};
use crate::hash;
use crate::order::append_new;
use crate::blockchain::{emission, side_emission, Blockchain};
use crate::block::CompleteBlock;
use crate::config::{MAX_BLOCK_SIZE, MAX_SUPPLY, TIMESTAMP_IN_FUTURE_LIMIT};
use crate::coordinator::{balances_under, nonces_under};
use crate::error::BlockchainError;
use crate::ledger::{balances_below, nonces_below};
use crate::integrate::{next_entry, tips_without};
use crate::storage::{lemma_position, lemma_position_unique, Chain, TopoEntry};
use crate::sync::{lemma_found, lemma_index_of};

verus! {

/// Whether `h` stands in `s` before place `a`.
pub open spec fn stands_before(s: Seq<hash::Hash>, h: hash::Hash, a: int) -> bool {
    exists|b: int| 0 <= b < a && b < s.len() && #[trigger] s[b] == h
}

impl Chain {
    /// Whether every block of `s` is stored at place `i` or before.
    pub open spec fn placed_up_to(self, s: Seq<hash::Hash>, i: int) -> bool {
        forall|x: int| 0 <= x < s.len() ==> 0 <= self.index_of(#[trigger] s[x]) <= i
    }

    /// Whether every block of `s` is in scope for a base at `base_topo`.
    pub open spec fn all_in_scope(self, s: Seq<hash::Hash>, base_topo: int) -> bool {
        forall|x: int|
            0 <= x < s.len() ==> self.in_scope(self.index_of(#[trigger] s[x]), base_topo)
    }

    /// Whether every tip in scope of the block `h` stands in `s` before place `a`.
    pub open spec fn tips_stand_before(self, s: Seq<hash::Hash>, h: hash::Hash, a: int, base_topo: int) -> bool {
        forall|k: int|
            0 <= k < self.tips_at(self.index_of(h)).len() && self.in_scope(
                #[trigger] self.parent(self.index_of(h), k),
                base_topo,
            ) ==> stands_before(s, self.tips_at(self.index_of(h))[k], a)
    }

    /// Whether every block of `s` other than the base comes after its tips in scope.
    pub open spec fn after_tips(self, s: Seq<hash::Hash>, base: hash::Hash, base_topo: int) -> bool {
        forall|a: int|
            0 <= a < s.len() && (#[trigger] s[a]) != base ==> self.tips_stand_before(
                s,
                s[a],
                a,
                base_topo,
            )
    }

    /// What holds of an order under construction for the block at place `i`.
    pub open spec fn orderly(self, s: Seq<hash::Hash>, i: int, base: hash::Hash, base_topo: int) -> bool {
        &&& s.no_duplicates()
        &&& self.placed_up_to(s, i)
        &&& self.all_in_scope(s, base_topo)
        &&& self.after_tips(s, base, base_topo)
    }
}

/// What is stood before one place is stood before every later place, also
/// in a longer sequence.
pub proof fn lemma_stands_before_longer(s: Seq<hash::Hash>, t: Seq<hash::Hash>, h: hash::Hash, a: int, b: int)
    requires
        stands_before(s, h, a),
        a <= b,
        s.len() <= t.len(),
        forall|x: int| 0 <= x < s.len() ==> s[x] == t[x],
    ensures
        stands_before(t, h, b),
{
    let x = choose|x: int| 0 <= x < a && x < s.len() && #[trigger] s[x] == h;
    assert(t[x] == h);
}

/// What [`append_new`] gives: the sequence it was given, then new blocks of
/// the other sequence, each once; every block of the part taken in is held.
pub proof fn lemma_append_new(acc: Seq<hash::Hash>, more: Seq<hash::Hash>, n: int)
    requires
        0 <= n <= more.len(),
    ensures
        acc.len() <= append_new(acc, more, n).len(),
        forall|x: int| 0 <= x < acc.len() ==> append_new(acc, more, n)[x] == acc[x],
        forall|j: int| 0 <= j < n ==> append_new(acc, more, n).contains(#[trigger] more[j]),
        acc.no_duplicates() ==> append_new(acc, more, n).no_duplicates(),
    decreases n,
{
    if n > 0 {
        lemma_append_new(acc, more, n - 1);
        let before = append_new(acc, more, n - 1);
        let now = append_new(acc, more, n);
        let y = more[n - 1];
        assert forall|j: int| 0 <= j < n implies now.contains(#[trigger] more[j]) by {
            if j < n - 1 {
                assert(before.contains(more[j]));
                let x = choose|x: int| 0 <= x < before.len() && before[x] == more[j];
                assert(now[x] == more[j]);
            } else {
                if before.contains(y) {
                } else {
                    assert(now[now.len() - 1] == y);
                }
            }
        }
        if acc.no_duplicates() && !before.contains(y) {
            assert forall|p: int, q: int| 0 <= p < now.len() && 0 <= q < now.len() && p != q implies now[p]
                != now[q] by {
                if p < before.len() && q < before.len() {
                    assert(before[p] != before[q]);
                } else if p < before.len() {
                    assert(before[p] != y);
                } else if q < before.len() {
                    assert(before[q] != y);
                }
            }
        }
    }
}

/// Appending an orderly sequence to an orderly sequence gives an orderly sequence.
pub proof fn lemma_append_new_orderly(
    c: Chain,
    acc: Seq<hash::Hash>,
    more: Seq<hash::Hash>,
    n: int,
    i: int,
    base: hash::Hash,
    base_topo: int,
)
    requires
        0 <= n <= more.len(),
        c.orderly(acc, i, base, base_topo),
        c.orderly(more, i, base, base_topo),
    ensures
        c.orderly(append_new(acc, more, n), i, base, base_topo),
    decreases n,
{
    lemma_append_new(acc, more, n);
    if n > 0 {
        lemma_append_new_orderly(c, acc, more, n - 1, i, base, base_topo);
        lemma_append_new(acc, more, n - 1);
        let before = append_new(acc, more, n - 1);
        let now = append_new(acc, more, n);
        let y = more[n - 1];
        if !before.contains(y) {
            assert(now == before.push(y));
            assert forall|x: int| 0 <= x < now.len() implies 0 <= c.index_of(#[trigger] now[x])
                <= i && c.in_scope(c.index_of(now[x]), base_topo) by {
                if x < before.len() {
                    assert(now[x] == before[x]);
                } else {
                    assert(now[x] == more[n - 1]);
                }
            }
            assert forall|a: int| 0 <= a < now.len() && (#[trigger] now[a]) != base implies c.tips_stand_before(
                now,
                now[a],
                a,
                base_topo,
            ) by {
                let h = now[a];
                let p = c.index_of(h);
                assert forall|k: int|
                    0 <= k < c.tips_at(p).len() && c.in_scope(
                        #[trigger] c.parent(p, k),
                        base_topo,
                    ) implies stands_before(now, c.tips_at(p)[k], a) by {
                    let tip = c.tips_at(p)[k];
                    if a < before.len() {
                        assert(before[a] == h);
                        assert(c.tips_stand_before(before, before[a], a, base_topo));
                        assert(stands_before(before, tip, a));
                        lemma_stands_before_longer(before, now, tip, a, a);
                    } else {
                        assert(h == more[n - 1]);
                        assert(c.tips_stand_before(more, more[n - 1], n - 1, base_topo));
                        assert(stands_before(more, tip, n - 1));
                        let j = choose|j: int| 0 <= j < n - 1 && j < more.len() && #[trigger] more[j]
                            == tip;
                        assert(before.contains(more[j]));
                        let x = choose|x: int| 0 <= x < before.len() && before[x] == tip;
                        assert(now[x] == tip);
                    }
                }
            }
        }
    }
}

/// The tips in scope of a block are among its scored tips.
pub proof fn lemma_scoped_parents_hold(c: Chain, i: int, base_topo: int, n: int, k: int)
    requires
        0 <= k < n <= c.tips_at(i).len(),
        c.in_scope(c.parent(i, k), base_topo),
    ensures
        exists|x: int|
            0 <= x < c.scoped_parents(i, base_topo, n).len() && (#[trigger] c.scoped_parents(
                i,
                base_topo,
                n,
            )[x]).0 == c.tips_at(i)[k],
    decreases n,
{
    let now = c.scoped_parents(i, base_topo, n);
    if k == n - 1 {
        assert(now[now.len() - 1].0 == c.tips_at(i)[k]);
    } else {
        lemma_scoped_parents_hold(c, i, base_topo, n - 1, k);
        let before = c.scoped_parents(i, base_topo, n - 1);
        let x = choose|x: int| 0 <= x < before.len() && (#[trigger] before[x]).0 == c.tips_at(i)[k];
        assert(now[x].0 == c.tips_at(i)[k]);
    }
}

/// The scored tips of a block are tips of the block that are in scope.
pub proof fn lemma_scoped_parents_scoped(c: Chain, i: int, base_topo: int, n: int)
    requires
        0 <= n <= c.tips_at(i).len(),
    ensures
        forall|x: int|
            0 <= x < c.scoped_parents(i, base_topo, n).len() ==> c.in_scope(
                c.index_of((#[trigger] c.scoped_parents(i, base_topo, n)[x]).0),
                base_topo,
            ),
    decreases n,
{
    if n > 0 {
        lemma_scoped_parents_scoped(c, i, base_topo, n - 1);
        let before = c.scoped_parents(i, base_topo, n - 1);
        let now = c.scoped_parents(i, base_topo, n);
        assert forall|x: int| 0 <= x < now.len() implies c.in_scope(
            c.index_of((#[trigger] now[x]).0),
            base_topo,
        ) by {
            if x < before.len() {
                assert(now[x] == before[x]);
            }
        }
    }
}

impl Chain {
    /// Whether every one of `parents` from `k` on is a tip in scope of the
    /// block at place `i`, stored before it.
    pub open spec fn parents_in_scope(self, i: int, parents: Seq<(hash::Hash, u64)>, base_topo: int) -> bool {
        forall|x: int|
            0 <= x < parents.len() ==> 0 <= self.index_of((#[trigger] parents[x]).0) < i
                && self.in_scope(self.index_of(parents[x].0), base_topo)
    }

    /// Whether `s` holds the digest of every one of `parents` before `k`.
    pub open spec fn holds_parents(self, s: Seq<hash::Hash>, parents: Seq<(hash::Hash, u64)>, k: int) -> bool {
        forall|x: int| 0 <= x < k && x < parents.len() ==> s.contains((#[trigger] parents[x]).0)
    }
}

/// The order of a stored block in scope is orderly and ends with the block.
pub proof fn lemma_full_order(c: Chain, i: int, base: hash::Hash, base_topo: int)
    requires
        c.wf_blocks(),
        0 <= i < c.blocks.len(),
        c.in_scope(i, base_topo),
    ensures
        c.orderly(c.full_order_at(i, base, base_topo), i, base, base_topo),
        c.full_order_at(i, base, base_topo).len() > 0,
        c.full_order_at(i, base, base_topo).last() == c.blocks[i].hash,
    decreases i, 1int, 0int,
{
    lemma_index_of(c, i);
    let h = c.blocks[i].hash;
    let f = c.full_order_at(i, base, base_topo);
    if c.tips_at(i).len() == 0 || h == base {
        assert(f == seq![h]);
        assert forall|a: int| 0 <= a < f.len() && (#[trigger] f[a]) != base implies c.tips_stand_before(
            f,
            f[a],
            a,
            base_topo,
        ) by {}
    } else {
        let n = c.tips_at(i).len() as int;
        let scoped = c.scoped_parents(i, base_topo, n);
        let parents = sort_desc(scoped);
        crate::order::lemma_scoped_parents(c, i, base_topo, n);
        lemma_scoped_parents_scoped(c, i, base_topo, n);
        lemma_sort_desc(scoped);
        assert(c.parents_in_scope(i, parents, base_topo)) by {
            assert forall|x: int| 0 <= x < parents.len() implies 0 <= c.index_of(
                (#[trigger] parents[x]).0,
            ) < i && c.in_scope(c.index_of(parents[x].0), base_topo) by {
                assert(parents.contains(parents[x]));
                assert(scoped.contains(parents[x]));
                let y = choose|y: int| 0 <= y < scoped.len() && scoped[y] == parents[x];
                assert(0 <= c.index_of(scoped[y].0) < i);
            }
        }
        let empty = Seq::<hash::Hash>::empty();
        assert(c.orderly(empty, i - 1, base, base_topo));
        lemma_full_order_merge(c, i, parents, 0, empty, base, base_topo);
        let m = c.full_order_merge(i, parents, 0, empty, base, base_topo);
        assert(f == m.push(h));
        assert(!m.contains(h)) by {
            if m.contains(h) {
                let x = choose|x: int| 0 <= x < m.len() && m[x] == h;
                assert(c.index_of(m[x]) <= i - 1);
            }
        }
        assert(f.no_duplicates()) by {
            assert forall|p: int, q: int| 0 <= p < f.len() && 0 <= q < f.len() && p != q implies f[p]
                != f[q] by {
                if p < m.len() && q < m.len() {
                    assert(m[p] != m[q]);
                } else if p < m.len() {
                    assert(m.contains(m[p]));
                } else if q < m.len() {
                    assert(m.contains(m[q]));
                }
            }
        }
        assert forall|x: int| 0 <= x < f.len() implies 0 <= c.index_of(#[trigger] f[x]) <= i
            && c.in_scope(c.index_of(f[x]), base_topo) by {
            if x < m.len() {
                assert(f[x] == m[x]);
                assert(0 <= c.index_of(m[x]) <= i - 1);
            }
        }
        assert forall|a: int| 0 <= a < f.len() && (#[trigger] f[a]) != base implies c.tips_stand_before(
            f,
            f[a],
            a,
            base_topo,
        ) by {
            let p = c.index_of(f[a]);
            assert forall|k: int|
                0 <= k < c.tips_at(p).len() && c.in_scope(#[trigger] c.parent(p, k), base_topo) implies stands_before(
                f,
                c.tips_at(p)[k],
                a,
            ) by {
                let tip = c.tips_at(p)[k];
                if a < m.len() {
                    assert(m[a] == f[a]);
                    assert(c.tips_stand_before(m, m[a], a, base_topo));
                    assert(stands_before(m, tip, a));
                    lemma_stands_before_longer(m, f, tip, a, a);
                } else {
                    assert(p == i);
                    lemma_scoped_parents_hold(c, i, base_topo, n, k);
                    let x = choose|x: int| 0 <= x < scoped.len() && (#[trigger] scoped[x]).0 == tip;
                    assert(scoped.contains(scoped[x]));
                    assert(parents.contains(scoped[x]));
                    let y = choose|y: int| 0 <= y < parents.len() && parents[y] == scoped[x];
                    assert(m.contains(parents[y].0));
                    let z = choose|z: int| 0 <= z < m.len() && m[z] == tip;
                    assert(f[z] == tip);
                }
            }
        }
    }
}

/// Merging the orders of the tips in scope of a block into an orderly
/// sequence gives an orderly sequence that holds every one of those tips.
pub proof fn lemma_full_order_merge(
    c: Chain,
    i: int,
    parents: Seq<(hash::Hash, u64)>,
    k: int,
    acc: Seq<hash::Hash>,
    base: hash::Hash,
    base_topo: int,
)
    requires
        c.wf_blocks(),
        0 < i < c.blocks.len(),
        0 <= k <= parents.len(),
        c.parents_in_scope(i, parents, base_topo),
        c.orderly(acc, i - 1, base, base_topo),
        c.holds_parents(acc, parents, k),
    ensures
        c.orderly(c.full_order_merge(i, parents, k, acc, base, base_topo), i - 1, base, base_topo),
        c.holds_parents(
            c.full_order_merge(i, parents, k, acc, base, base_topo),
            parents,
            parents.len() as int,
        ),
    decreases i, 0int, parents.len() - k,
{
    if k < parents.len() {
        let p = c.index_of(parents[k].0);
        assert(0 <= p < i && c.in_scope(p, base_topo));
        lemma_full_order(c, p, base, base_topo);
        let sub = c.full_order_at(p, base, base_topo);
        assert(c.orderly(sub, i - 1, base, base_topo)) by {
            assert forall|x: int| 0 <= x < sub.len() implies 0 <= c.index_of(#[trigger] sub[x]) <= i
                - 1 by {
                assert(0 <= c.index_of(sub[x]) <= p);
            }
        }
        lemma_append_new_orderly(c, acc, sub, sub.len() as int, i - 1, base, base_topo);
        lemma_append_new(acc, sub, sub.len() as int);
        let next = append_new(acc, sub, sub.len() as int);
        assert(c.holds_parents(next, parents, k + 1)) by {
            assert forall|x: int| 0 <= x < k + 1 && x < parents.len() implies next.contains(
                (#[trigger] parents[x]).0,
            ) by {
                if x < k {
                    assert(acc.contains(parents[x].0));
                    let y = choose|y: int| 0 <= y < acc.len() && acc[y] == parents[x].0;
                    assert(next[y] == parents[x].0);
                } else {
                    lemma_found(c, parents[k].0);
                    lemma_index_of(c, p);
                    assert(sub.last() == parents[k].0);
                    assert(next.contains(sub[sub.len() - 1]));
                }
            }
        }
        lemma_full_order_merge(c, i, parents, k + 1, next, base, base_topo);
        assert(c.full_order_merge(i, parents, k, acc, base, base_topo) == c.full_order_merge(
            i,
            parents,
            k + 1,
            next,
            base,
            base_topo,
        ));
    } else {
        assert(c.full_order_merge(i, parents, k, acc, base, base_topo) == acc);
    }
}


/// Whether the supply of every place of an order is the supply before it
/// plus its reward, and never above the maximum.
pub open spec fn supply_chained(order: Seq<TopoEntry>) -> bool {
    forall|t: int|
        0 <= t < order.len() ==> (#[trigger] order[t]).supply as int == (if t == 0 {
            0
        } else {
            order[t - 1].supply as int
        }) + order[t].reward && order[t].supply <= MAX_SUPPLY
}

/// The next place of an order continues the chain of its supply.
pub proof fn lemma_next_entry(c: Chain, order: Seq<TopoEntry>, h: hash::Hash)
    requires
        supply_chained(order),
    ensures
        supply_chained(order.push(next_entry(c, order, h))),
        next_entry(c, order, h).hash == h,
{
    let entry = next_entry(c, order, h);
    let now = order.push(entry);
    let past: u64 = if order.len() == 0 {
        0
    } else {
        order.last().supply
    };
    if order.len() > 0 {
        assert(order[order.len() - 1].supply <= MAX_SUPPLY);
    }
    assert(emission(past) <= MAX_SUPPLY - past);
    assert(side_emission(past) <= emission(past));
    assert forall|t: int| 0 <= t < now.len() implies (#[trigger] now[t]).supply as int == (if t
        == 0 {
        0
    } else {
        now[t - 1].supply as int
    }) + now[t].reward && now[t].supply <= MAX_SUPPLY by {
        if t < order.len() {
            assert(now[t] == order[t]);
            if t > 0 {
                assert(now[t - 1] == order[t - 1]);
            }
        }
    }
}

/// The blocks of `full` that are kept stand at their places of the order.
pub proof fn lemma_kept(c: Chain, full: Seq<hash::Hash>, base_topo: int, k: int)
    requires
        0 <= k <= full.len(),
        0 <= base_topo,
        base_topo + k <= c.order.len(),
    ensures
        k <= c.kept(full, base_topo, k) <= full.len(),
        base_topo + c.kept(full, base_topo, k) <= c.order.len(),
        forall|j: int|
            k <= j < c.kept(full, base_topo, k) ==> (#[trigger] c.order[base_topo + j]).hash
                == full[j],
    decreases full.len() - k,
{
    if k < full.len() && base_topo + k < c.order.len() && c.order[base_topo + k].hash == full[k] {
        lemma_kept(c, full, base_topo, k + 1);
    }
}

impl Chain {
    /// The chain with another order.
    pub open spec fn with_order(self, order: Seq<TopoEntry>) -> Chain {
        Chain { order, ..self }
    }

    /// Whether every tip of the block at place `i` is ordered under topoheight `t`.
    pub open spec fn tips_ordered_under(self, i: int, t: int) -> bool {
        forall|k: int|
            0 <= k < self.tips_at(i).len() ==> 0 <= self.topo_of(#[trigger] self.tips_at(i)[k]) < t
    }

    /// Whether every block of the order comes after its tips.
    pub open spec fn topological(self) -> bool {
        forall|t: int|
            0 <= t < self.order.len() ==> self.tips_ordered_under(
                self.index_of((#[trigger] self.order[t]).hash),
                t,
            )
    }
}

/// A sound order is topological, chained in its supply, and names no block twice.
pub proof fn lemma_wf_order_parts(c: Chain)
    ensures
        c.wf_order() <==> (c.order_hashes().no_duplicates() && c.order_stored() && c.topological()
            && supply_chained(c.order)),
{
    if c.wf_order() {
        assert forall|t: int| 0 <= t < c.order.len() implies c.tips_ordered_under(
            c.index_of((#[trigger] c.order[t]).hash),
            t,
        ) by {
            let i = c.index_of(c.order[t].hash);
            assert forall|k: int| 0 <= k < c.tips_at(i).len() implies 0 <= c.topo_of(
                #[trigger] c.tips_at(i)[k],
            ) < t by {
                assert(0 <= c.topo_of(c.tips_at(c.index_of(c.order[t].hash))[k]) < t) by {
                    let p = c.parent(c.index_of(c.order[t].hash), k);
                }
            }
        }
        assert forall|t: int| 0 <= t < c.order.len() implies (#[trigger] c.order[t]).supply as int
            == (if t == 0 {
            0
        } else {
            c.order[t - 1].supply as int
        }) + c.order[t].reward && c.order[t].supply <= MAX_SUPPLY by {
            assert(c.order[t].supply as int == c.supply_before(t) + c.order[t].reward);
        }
    }
    if c.order_hashes().no_duplicates() && c.order_stored() && c.topological() && supply_chained(
        c.order,
    ) {
        assert forall|t: int, k: int|
            #![trigger c.parent(c.index_of(c.order[t].hash), k)]
            0 <= t < c.order.len() && 0 <= k < c.tips_at(
                c.index_of(c.order[t].hash),
            ).len() implies 0 <= c.topo_of(c.tips_at(c.index_of(c.order[t].hash))[k]) < t by {
            assert(c.tips_ordered_under(c.index_of(c.order[t].hash), t));
        }
        assert forall|t: int| 0 <= t < c.order.len() implies (#[trigger] c.order[t]).supply as int
            == c.supply_before(t) + c.order[t].reward by {}
    }
}

/// The digests of an order that keeps `base_topo` places and then takes the
/// blocks of `full`.
pub open spec fn rebuilt_hashes(h1: Seq<hash::Hash>, full: Seq<hash::Hash>, base_topo: int) -> Seq<
    hash::Hash,
> {
    h1.take(base_topo) + full
}

/// No block is named twice by the places kept under a base followed by
/// blocks in scope that are named once each.
pub proof fn lemma_rebuilt_no_duplicates(c: Chain, full: Seq<hash::Hash>, base_topo: int)
    requires
        0 <= base_topo <= c.order.len(),
        c.order_hashes().no_duplicates(),
        c.order_stored(),
        full.no_duplicates(),
        c.all_in_scope(full, base_topo),
        forall|x: int| 0 <= x < full.len() ==> c.blocks[c.index_of(#[trigger] full[x])].hash == full[x],
    ensures
        rebuilt_hashes(c.order_hashes(), full, base_topo).no_duplicates(),
{
    let h1 = c.order_hashes();
    let h2 = rebuilt_hashes(h1, full, base_topo);
    assert forall|p: int, q: int| 0 <= p < h2.len() && 0 <= q < h2.len() && p != q implies h2[p]
        != h2[q] by {
        if p < base_topo && q < base_topo {
            assert(h1[p] != h1[q]);
        } else if p >= base_topo && q >= base_topo {
            assert(full[p - base_topo] != full[q - base_topo]);
        } else {
            let t = if p < base_topo {
                p
            } else {
                q
            };
            let a = if p < base_topo {
                q - base_topo
            } else {
                p - base_topo
            };
            if full[a] == h1[t] {
                lemma_position_unique(h1, t);
                assert(c.in_scope(c.index_of(full[a]), base_topo));
                assert(c.blocks[c.index_of(full[a])].hash == full[a]);
            }
        }
    }
}

/// In the rebuilt order a tip of a block that was ordered under the base, or
/// of the base, stands where it stood, before the block.
pub proof fn lemma_rebuilt_old_tip(
    c: Chain,
    full: Seq<hash::Hash>,
    base_topo: int,
    old_t: int,
    t: int,
    g: hash::Hash,
)
    requires
        0 <= old_t <= base_topo <= c.order.len(),
        old_t <= t,
        0 <= c.topo_of(g) < old_t,
    ensures
        0 <= c.topo_of(g) < t,
        c.topo_of(g) < rebuilt_hashes(c.order_hashes(), full, base_topo).len(),
        rebuilt_hashes(c.order_hashes(), full, base_topo)[c.topo_of(g)] == g,
{
    lemma_position(c.order_hashes(), g);
}

/// The order that takes the blocks of an orderly order generated past a
/// base, in the place of what stood there, is topological.
pub proof fn lemma_rebuilt_topological(
    c: Chain,
    full: Seq<hash::Hash>,
    root: int,
    base: hash::Hash,
    base_topo: int,
    n: Chain,
    t: int,
    k: int,
)
    requires
        c.wf_blocks(),
        c.order_hashes().no_duplicates(),
        c.topological(),
        0 <= base_topo <= c.order.len(),
        c.orderly(full, root, base, base_topo),
        c.topo_of(base) == base_topo || !full.contains(base),
        n.blocks == c.blocks,
        n.order_hashes() == rebuilt_hashes(c.order_hashes(), full, base_topo),
        n.order_hashes().no_duplicates(),
        0 <= t < n.order.len(),
        0 <= k < n.tips_at(n.index_of(n.order[t].hash)).len(),
        n.has_block(n.order[t].hash),
    ensures
        0 <= n.topo_of(n.tips_at(n.index_of(n.order[t].hash))[k]) < t,
{
    let h1 = c.order_hashes();
    let h2 = n.order_hashes();
    assert(n.hashes() =~= c.hashes());
    let x = h2[t];
    assert(x == n.order[t].hash);
    assert(h1.len() == c.order.len());
    assert(h1.take(base_topo).len() == base_topo);
    assert(h2.len() == n.order.len());
    assert(h2.len() == base_topo + full.len());
    if t >= base_topo {
        assert(h2[t] == full[t - base_topo]);
    } else {
        assert(h2[t] == h1[t]);
    }
    let i = c.index_of(x);
    lemma_found(c, x);
    let g = c.tips_at(i)[k];
    lemma_wf_parent(c, i, k);
    let p = c.parent(i, k);
    if t < base_topo || x == base {
        let old_t = if t < base_topo {
            t
        } else {
            base_topo
        };
        if t >= base_topo {
            assert(full[t - base_topo] == x);
            assert(full.contains(x));
        } else {
            assert(h1[t] == x);
            lemma_position_unique(h1, t);
        }
        lemma_position(h1, x);
        assert(c.order[old_t].hash == x);
        assert(c.tips_ordered_under(c.index_of(c.order[old_t].hash), old_t));
        assert(0 <= c.topo_of(c.tips_at(i)[k]) < old_t);
        lemma_rebuilt_old_tip(c, full, base_topo, old_t, t, g);
        lemma_position_unique(h2, c.topo_of(g));
    } else {
        let a = t - base_topo;
        assert(full[a] == x);
        assert(c.tips_stand_before(full, full[a], a, base_topo));
        if c.in_scope(p, base_topo) {
            assert(stands_before(full, g, a));
            let b = choose|b: int| 0 <= b < a && b < full.len() && #[trigger] full[b] == g;
            assert(h2[base_topo + b] == g);
            lemma_position_unique(h2, base_topo + b);
        } else {
            assert(c.blocks[p].hash == g);
            assert(0 <= c.topo_of(g) < base_topo);
            lemma_rebuilt_old_tip(c, full, base_topo, base_topo, t, g);
            lemma_position_unique(h2, c.topo_of(g));
        }
    }
}

/// The order that takes the blocks of an orderly order generated past a
/// base, in the place of what stood there, is sound.
pub proof fn lemma_order_rebuilt(
    c: Chain,
    full: Seq<hash::Hash>,
    root: int,
    base: hash::Hash,
    base_topo: int,
    order: Seq<TopoEntry>,
)
    requires
        c.wf_blocks(),
        c.wf_order(),
        0 <= base_topo <= c.order.len(),
        c.orderly(full, root, base, base_topo),
        c.topo_of(base) == base_topo || !full.contains(base),
        order.len() == base_topo + full.len(),
        forall|t: int| 0 <= t < base_topo ==> (#[trigger] order[t]) == c.order[t],
        forall|j: int| 0 <= j < full.len() ==> (#[trigger] order[base_topo + j]).hash == full[j],
        supply_chained(order),
    ensures
        c.with_order(order).wf_order(),
{
    let n = c.with_order(order);
    let h1 = c.order_hashes();
    lemma_wf_order_parts(c);
    assert(n.hashes() =~= c.hashes());
    assert(n.order_hashes() =~= rebuilt_hashes(h1, full, base_topo)) by {
        assert forall|t: int| 0 <= t < order.len() implies n.order_hashes()[t] == rebuilt_hashes(
            h1,
            full,
            base_topo,
        )[t] by {
            if t < base_topo {
                assert(order[t] == c.order[t]);
            } else {
                assert(order[base_topo + (t - base_topo)].hash == full[t - base_topo]);
            }
        }
    }
    assert forall|x: int| 0 <= x < full.len() implies c.blocks[c.index_of(#[trigger] full[x])].hash
        == full[x] by {
        assert(0 <= c.index_of(full[x]));
        lemma_found(c, full[x]);
    }
    lemma_rebuilt_no_duplicates(c, full, base_topo);
    assert(n.order_stored()) by {
        assert forall|t: int| 0 <= t < n.order.len() implies n.has_block(
            (#[trigger] n.order[t]).hash,
        ) by {
            if t < base_topo {
                assert(c.has_block(c.order[t].hash));
            } else {
                assert(0 <= c.index_of(full[t - base_topo]));
                assert(order[base_topo + (t - base_topo)].hash == full[t - base_topo]);
            }
        }
    }
    assert(n.topological()) by {
        assert forall|t: int| 0 <= t < n.order.len() implies n.tips_ordered_under(
            n.index_of((#[trigger] n.order[t]).hash),
            t,
        ) by {
            assert(n.has_block(n.order[t].hash));
            assert forall|k: int|
                0 <= k < n.tips_at(n.index_of(n.order[t].hash)).len() implies 0 <= n.topo_of(
                #[trigger] n.tips_at(n.index_of(n.order[t].hash))[k],
            ) < t by {
                lemma_rebuilt_topological(c, full, root, base, base_topo, n, t, k);
            }
        }
    }
    lemma_wf_order_parts(n);
}

/// A tip of a stored block is a stored block, found at its place.
pub proof fn lemma_wf_parent(c: Chain, i: int, k: int)
    requires
        c.wf_blocks(),
        0 <= i < c.blocks.len(),
        0 <= k < c.tips_at(i).len(),
    ensures
        0 <= c.parent(i, k) < i,
        c.blocks[c.parent(i, k)].hash == c.tips_at(i)[k],
{
    lemma_found(c, c.tips_at(i)[k]);
}


/// Pushing a block that fits keeps the order sound.
pub proof fn lemma_pushed_order(c: Chain, block: crate::storage::StoredBlock)
    requires
        c.wf_blocks(),
        c.wf_order(),
        c.fits(block),
    ensures
        c.pushed(block).wf_order(),
        !c.pushed(block).is_ordered(block.hash),
{
    let n = c.pushed(block);
    crate::integrate::lemma_pushed(c, block);
    lemma_wf_order_parts(c);
    assert(n.order_hashes() =~= c.order_hashes());
    assert(n.topological()) by {
        assert forall|t: int| 0 <= t < n.order.len() implies n.tips_ordered_under(
            n.index_of((#[trigger] n.order[t]).hash),
            t,
        ) by {
            let x = c.order[t].hash;
            assert(c.has_block(x));
            lemma_found(c, x);
            assert(n.index_of(x) == c.index_of(x));
            assert(c.tips_ordered_under(c.index_of(c.order[t].hash), t));
            let i = c.index_of(x);
            assert(n.tips_at(i) == c.tips_at(i));
            assert forall|k: int| 0 <= k < n.tips_at(i).len() implies 0 <= n.topo_of(
                #[trigger] n.tips_at(i)[k],
            ) < t by {
                assert(0 <= c.topo_of(c.tips_at(i)[k]) < t);
            }
        }
    }
    lemma_wf_order_parts(n);
    lemma_position(c.order_hashes(), block.hash);
    if c.is_ordered(block.hash) {
        let t = c.topo_of(block.hash);
        assert(c.order_hashes()[t] == block.hash);
        assert(c.has_block(c.order[t].hash));
    }
}

/// The tips that a block leaves of a tip set without repetition, followed by
/// the block, which is new, are without repetition.
pub proof fn lemma_tips_without_no_duplicates(tips: Seq<hash::Hash>, parents: Seq<hash::Hash>, n: int)
    requires
        0 <= n <= tips.len(),
        tips.no_duplicates(),
    ensures
        tips_without(tips, parents, n).no_duplicates(),
        forall|x: int|
            0 <= x < tips_without(tips, parents, n).len() ==> tips.take(n).contains(
                #[trigger] tips_without(tips, parents, n)[x],
            ),
    decreases n,
{
    if n > 0 {
        lemma_tips_without_no_duplicates(tips, parents, n - 1);
        let before = tips_without(tips, parents, n - 1);
        let now = tips_without(tips, parents, n);
        assert forall|x: int| 0 <= x < now.len() implies tips.take(n).contains(
            #[trigger] now[x],
        ) by {
            if x < before.len() {
                assert(tips.take(n - 1).contains(before[x]));
                let head = tips.take(n - 1);
                    let y = choose|y: int| 0 <= y < head.len() && head[y] == before[x];
                assert(tips.take(n)[y] == before[x]);
            } else {
                assert(tips.take(n)[n - 1] == now[x]);
            }
        }
        if !parents.contains(tips[n - 1]) {
            assert forall|p: int, q: int| 0 <= p < now.len() && 0 <= q < now.len() && p != q implies now[p]
                != now[q] by {
                if p < before.len() && q < before.len() {
                    assert(before[p] != before[q]);
                } else {
                    let small = if p < before.len() {
                        p
                    } else {
                        q
                    };
                    assert(tips.take(n - 1).contains(before[small]));
                    let head = tips.take(n - 1);
                    let y = choose|y: int| 0 <= y < head.len() && head[y] == before[small];
                    assert(tips[y] != tips[n - 1]);
                }
            }
        }
    }
}

/// A sequence without repetition followed by a block it does not hold is
/// without repetition.
pub proof fn lemma_push_no_duplicates(s: Seq<hash::Hash>, h: hash::Hash)
    requires
        s.no_duplicates(),
        !s.contains(h),
    ensures
        s.push(h).no_duplicates(),
{
    let t = s.push(h);
    assert forall|p: int, q: int| 0 <= p < t.len() && 0 <= q < t.len() && p != q implies t[p]
        != t[q] by {
        if p < s.len() && q < s.len() {
            assert(s[p] != s[q]);
        } else if p < s.len() {
            assert(s.contains(s[p]));
        } else if q < s.len() {
            assert(s.contains(s[q]));
        }
    }
}


/// Taking the next block of the run keeps the order a run taken in.
pub proof fn lemma_takes_next(
    c: Chain,
    before: Seq<TopoEntry>,
    old: Seq<TopoEntry>,
    full: Seq<hash::Hash>,
    base_topo: int,
    k: int,
)
    requires
        0 <= k < full.len(),
        0 <= base_topo,
        crate::coordinator::takes_order(before, old, full, base_topo, k),
    ensures
        crate::coordinator::takes_order(
            before.push(next_entry(c, before, full[k])),
            old,
            full,
            base_topo,
            k + 1,
        ),
        supply_chained(before) ==> supply_chained(before.push(next_entry(c, before, full[k]))),
{
    let now = before.push(next_entry(c, before, full[k]));
    if supply_chained(before) {
        lemma_next_entry(c, before, full[k]);
    }
    assert forall|t: int| 0 <= t < base_topo && t < old.len() implies (#[trigger] now[t])
        == old[t] by {
        assert(now[t] == before[t]);
    }
    assert forall|j: int| 0 <= j < k + 1 && j < full.len() implies (#[trigger] now[base_topo
        + j]).hash == full[j] by {
        if j < k {
            assert(now[base_topo + j] == before[base_topo + j]);
        }
    }
}


/// Two chains with the same blocks and the same order are sound in their
/// order together.
pub proof fn lemma_wf_order_same(a: Chain, b: Chain)
    requires
        a.blocks == b.blocks,
        a.order == b.order,
        a.wf_order(),
    ensures
        b.wf_order(),
{
    assert(a.hashes() =~= b.hashes());
    assert(a.order_hashes() =~= b.order_hashes());
    lemma_wf_order_parts(a);
    assert(b.order_stored()) by {
        assert forall|t: int| 0 <= t < b.order.len() implies b.has_block(
            (#[trigger] b.order[t]).hash,
        ) by {
            assert(a.has_block(a.order[t].hash));
        }
    }
    assert(b.topological()) by {
        assert forall|t: int| 0 <= t < b.order.len() implies b.tips_ordered_under(
            b.index_of((#[trigger] b.order[t]).hash),
            t,
        ) by {
            assert(a.tips_ordered_under(a.index_of(a.order[t].hash), t));
            let i = a.index_of(a.order[t].hash);
            assert forall|k: int| 0 <= k < b.tips_at(i).len() implies 0 <= b.topo_of(
                #[trigger] b.tips_at(i)[k],
            ) < t by {
                assert(0 <= a.topo_of(a.tips_at(i)[k]) < t);
            }
        }
    }
    lemma_wf_order_parts(b);
}

/// A digest other than the given one.
pub open spec fn another(h: hash::Hash) -> hash::Hash {
    hash::Hash {
        w0: if h.w0 == 0 {
            1
        } else {
            0
        },
        ..h
    }
}

/// The chain that results when a block that fits is stored, the order past
/// a base is rebuilt from a planned order, and the block joins the tip set, is sound.
pub proof fn lemma_block_added(
    c: Chain,
    block: crate::storage::StoredBlock,
    tips1: Seq<hash::Hash>,
    best: hash::Hash,
    base_topo: int,
    full: Seq<hash::Hash>,
    after: Chain,
)
    requires
        c.wf(),
        c.fits(block),
        tips1.len() > 0,
        tips1.last() == block.hash,
        0 <= base_topo <= c.order.len(),
        full.len() > 0,
        crate::coordinator::planned_orderly(c.pushed(block), tips1, best, base_topo, full),
        after.blocks == c.pushed(block).blocks,
        crate::coordinator::takes_order(after.order, c.order, full, base_topo, full.len() as int),
        supply_chained(after.order),
        balances_under(after.balances, after.order.len() as int),
        nonces_under(after.nonces, after.order.len() as int),
        after.tips.no_duplicates(),
        after.tips_stored(),
        after.tips == tips_without(c.tips, block.block.tips@, c.tips.len() as int).push(block.hash),
        after.top_height == if block.block.height > c.top_height {
            block.block.height
        } else {
            c.top_height
        },
    ensures
        after.wf(),
{
    let c1 = c.pushed(block);
    crate::integrate::lemma_pushed(c, block);
    lemma_childless_pushed(c, block);
    crate::rewind::lemma_same_childless(c1, after, c1.blocks.len() as int);
    crate::rewind::lemma_same_highest(c1, after, c1.blocks.len() as int);
    lemma_pushed_order(c, block);
    crate::coordinator::lemma_same_blocks(c1, after);
    let n = c1.with_order(after.order);
    if c1.order.len() == 0 {
        let h = block.hash;
        let base = another(h);
        if block.block.tips@.len() > 0 {
            assert(c.has_block(block.block.tips@[0]));
            lemma_position(c.hashes(), block.block.tips@[0]);
        }
        assert(full == seq![h]);
        assert(c1.index_of(h) == 0);
        assert(c1.tips_at(0).len() == 0);
        lemma_position(c1.order_hashes(), h);
        assert(c1.orderly(full, 0, base, 0)) by {
            assert forall|a: int| 0 <= a < full.len() && (#[trigger] full[a])
                != base implies c1.tips_stand_before(full, full[a], a, 0) by {}
        }
        assert(!full.contains(base)) by {
            if full.contains(base) {
                let x = choose|x: int| 0 <= x < full.len() && full[x] == base;
            }
        }
        lemma_order_rebuilt(c1, full, 0, base, 0, after.order);
    } else {
        lemma_order_rebuilt(
            c1,
            full,
            c1.index_of(best),
            c1.common_base(tips1).0,
            base_topo,
            after.order,
        );
    }
    lemma_wf_order_same(n, after);
}


/// The blocks that no block names, of an arena without repetition, are
/// without repetition.
pub proof fn lemma_childless_no_duplicates(c: Chain, n: int)
    requires
        c.wf_blocks(),
        0 <= n <= c.blocks.len(),
    ensures
        c.childless(n).no_duplicates(),
        forall|x: int|
            0 <= x < c.childless(n).len() ==> 0 <= c.index_of(#[trigger] c.childless(n)[x]) < n,
    decreases n,
{
    if n > 0 {
        lemma_childless_no_duplicates(c, n - 1);
        lemma_index_of(c, n - 1);
        let before = c.childless(n - 1);
        let now = c.childless(n);
        assert forall|x: int| 0 <= x < now.len() implies 0 <= c.index_of(#[trigger] now[x]) < n by {
            if x < before.len() {
                assert(now[x] == before[x]);
            }
        }
        if now.len() > before.len() {
            assert(!before.contains(c.blocks[n - 1].hash)) by {
                if before.contains(c.blocks[n - 1].hash) {
                    let x = choose|x: int| 0 <= x < before.len() && before[x] == c.blocks[n - 1].hash;
                    assert(c.index_of(before[x]) < n - 1);
                }
            }
            lemma_push_no_duplicates(before, c.blocks[n - 1].hash);
        }
    }
}

/// What [`tips_without`] keeps of the first tips depends on those tips alone.
pub proof fn lemma_tips_without_first(
    tips: Seq<hash::Hash>,
    more: Seq<hash::Hash>,
    parents: Seq<hash::Hash>,
    n: int,
)
    requires
        0 <= n <= tips.len(),
        n <= more.len(),
        forall|x: int| 0 <= x < n ==> tips[x] == more[x],
    ensures
        tips_without(tips, parents, n) == tips_without(more, parents, n),
    decreases n,
{
    if n > 0 {
        lemma_tips_without_first(tips, more, parents, n - 1);
    }
}

/// A block that is named is named by a block of the arena.
pub proof fn lemma_named(c: Chain, h: hash::Hash, n: int)
    requires
        0 <= n <= c.blocks.len(),
        c.named_before(h, n),
    ensures
        exists|i: int| 0 <= i < n && (#[trigger] c.tips_at(i)).contains(h),
    decreases n,
{
    if !c.tips_at(n - 1).contains(h) {
        lemma_named(c, h, n - 1);
    }
}

/// The blocks that name a block among the first of the arena are the same
/// once a block is pushed.
pub proof fn lemma_named_pushed(c: Chain, block: crate::storage::StoredBlock, h: hash::Hash, n: int)
    requires
        0 <= n <= c.blocks.len(),
    ensures
        c.pushed(block).named_before(h, n) == c.named_before(h, n),
    decreases n,
{
    if n > 0 {
        lemma_named_pushed(c, block, h, n - 1);
        assert(c.pushed(block).tips_at(n - 1) == c.tips_at(n - 1));
    }
}

/// The blocks that no block names, among the first of the arena, once a
/// block is pushed: those that no block named before and that the block
/// does not name.
pub proof fn lemma_childless_first(c: Chain, block: crate::storage::StoredBlock, n: int)
    requires
        0 <= n <= c.blocks.len(),
    ensures
        c.pushed(block).childless(n) == tips_without(
            c.childless(n),
            block.block.tips@,
            c.childless(n).len() as int,
        ),
    decreases n,
{
    if n > 0 {
        let c1 = c.pushed(block);
        let size = c.blocks.len() as int;
        let h = c.blocks[n - 1].hash;
        let parents = block.block.tips@;
        lemma_childless_first(c, block, n - 1);
        lemma_named_pushed(c, block, h, size);
        assert(c1.blocks[n - 1] == c.blocks[n - 1]);
        assert(c1.tips_at(size) == parents);
        assert(c1.named_before(h, size + 1) == (parents.contains(h) || c.named_before(h, size)));
        let before = c.childless(n - 1);
        if !c.named_before(h, size) {
            lemma_tips_without_first(before, before.push(h), parents, before.len() as int);
        }
    }
}

/// The tip set of a sound chain that a block joins: the tips that the block
/// does not name, then the block.
pub proof fn lemma_childless_pushed(c: Chain, block: crate::storage::StoredBlock)
    requires
        c.wf_blocks(),
        c.fits(block),
    ensures
        c.pushed(block).childless((c.blocks.len() + 1) as int) == tips_without(
            c.childless(c.blocks.len() as int),
            block.block.tips@,
            c.childless(c.blocks.len() as int).len() as int,
        ).push(block.hash),
        c.pushed(block).highest_stored((c.blocks.len() + 1) as int) == if block.block.height
            > c.highest_stored(c.blocks.len() as int) {
            block.block.height
        } else {
            c.highest_stored(c.blocks.len() as int)
        },
{
    let c1 = c.pushed(block);
    let size = c.blocks.len() as int;
    crate::integrate::lemma_pushed(c, block);
    lemma_childless_first(c, block, size);
    if c1.named_before(block.hash, size + 1) {
        lemma_named(c1, block.hash, size + 1);
        let i = choose|i: int| 0 <= i < size + 1 && (#[trigger] c1.tips_at(i)).contains(block.hash);
        let k = choose|k: int| 0 <= k < c1.tips_at(i).len() && c1.tips_at(i)[k] == block.hash;
        assert(0 <= c1.parent(i, k) < i);
    }
    assert(c1.blocks[size] == block);
    lemma_highest_pushed(c, block, size);
}

/// The greatest height among the first blocks of the arena is the same once
/// a block is pushed.
pub proof fn lemma_highest_pushed(c: Chain, block: crate::storage::StoredBlock, n: int)
    requires
        0 <= n <= c.blocks.len(),
    ensures
        c.pushed(block).highest_stored(n) == c.highest_stored(n),
    decreases n,
{
    if n > 0 {
        lemma_highest_pushed(c, block, n - 1);
        assert(c.pushed(block).blocks[n - 1] == c.blocks[n - 1]);
    }
}

/// What is left of a sound chain when the arena and the order are cut, so
/// that every block left in the order is left in the arena, is sound in its
/// arena and its order.
pub proof fn lemma_cut_order(c: Chain, cut: int, left: int)
    requires
        c.wf_blocks(),
        c.wf_order(),
        0 <= cut <= c.blocks.len(),
        0 <= left <= c.order.len(),
        forall|t: int| 0 <= t < left ==> 0 <= c.index_of((#[trigger] c.order[t]).hash) < cut,
    ensures
        c.cut_to(cut).with_order(c.order.take(left)).wf_order(),
        c.cut_to(cut).with_order(c.order.take(left)).wf_blocks(),
{
    let rest = c.cut_to(cut);
    let n = rest.with_order(c.order.take(left));
    crate::rewind::lemma_cut_to(c, cut);
    crate::coordinator::lemma_same_blocks(rest, n);
    lemma_wf_order_parts(c);
    let h1 = c.order_hashes();
    let h2 = n.order_hashes();
    assert(h2 =~= h1.take(left));
    assert(h2.no_duplicates()) by {
        assert forall|p: int, q: int| 0 <= p < h2.len() && 0 <= q < h2.len() && p != q implies h2[p]
            != h2[q] by {
            assert(h1[p] != h1[q]);
        }
    }
    assert(n.order_stored()) by {
        assert forall|t: int| 0 <= t < n.order.len() implies n.has_block(
            (#[trigger] n.order[t]).hash,
        ) by {
            assert(0 <= c.index_of(c.order[t].hash) < cut);
            assert(rest.index_of(c.order[t].hash) == c.index_of(c.order[t].hash));
        }
    }
    assert(n.topological()) by {
        assert forall|t: int| 0 <= t < n.order.len() implies n.tips_ordered_under(
            n.index_of((#[trigger] n.order[t]).hash),
            t,
        ) by {
            let x = c.order[t].hash;
            assert(0 <= c.index_of(c.order[t].hash) < cut);
            let i = c.index_of(x);
            assert(rest.index_of(x) == i);
            assert(n.index_of(x) == i);
            assert(c.tips_ordered_under(c.index_of(c.order[t].hash), t));
            assert(n.tips_at(i) == c.tips_at(i));
            assert forall|k: int| 0 <= k < n.tips_at(i).len() implies 0 <= n.topo_of(
                #[trigger] n.tips_at(i)[k],
            ) < t by {
                let g = c.tips_at(i)[k];
                let b = c.topo_of(g);
                assert(0 <= b < t);
                lemma_position(h1, g);
                assert(h2[b] == g);
                lemma_position_unique(h2, b);
            }
        }
    }
    assert(supply_chained(n.order)) by {
        assert forall|t: int| 0 <= t < n.order.len() implies (#[trigger] n.order[t]).supply as int
            == (if t == 0 {
            0
        } else {
            n.order[t - 1].supply as int
        }) + n.order[t].reward && n.order[t].supply <= MAX_SUPPLY by {
            assert(n.order[t] == c.order[t]);
            if t > 0 {
                assert(n.order[t - 1] == c.order[t - 1]);
            }
        }
    }
    lemma_wf_order_parts(n);
}

/// In a sound chain the topoheights are the places of the order, one block
/// each: the block at a place of the order has that place as its topoheight,
/// and an ordered block stands at its topoheight.
pub proof fn lemma_topoheight_bijection(c: Chain)
    requires
        c.wf(),
    ensures
        forall|t: int|
            0 <= t < c.order.len() ==> c.is_ordered((#[trigger] c.order[t]).hash) && c.topo_of(
                c.order[t].hash,
            ) == t,
        forall|h: hash::Hash|
            #[trigger] c.is_ordered(h) ==> 0 <= c.topo_of(h) < c.order.len() && c.order[c.topo_of(
                h,
            )].hash == h,
        forall|a: hash::Hash, b: hash::Hash|
            c.is_ordered(a) && c.is_ordered(b) && a != b ==> #[trigger] c.topo_of(a)
                != #[trigger] c.topo_of(b),
{
    let hs = c.order_hashes();
    assert forall|t: int| 0 <= t < c.order.len() implies c.is_ordered(
        (#[trigger] c.order[t]).hash,
    ) && c.topo_of(c.order[t].hash) == t by {
        lemma_position_unique(hs, t);
    }
    assert forall|h: hash::Hash| #[trigger] c.is_ordered(h) implies 0 <= c.topo_of(h)
        < c.order.len() && c.order[c.topo_of(h)].hash == h by {
        lemma_position(hs, h);
    }
    assert forall|a: hash::Hash, b: hash::Hash|
        c.is_ordered(a) && c.is_ordered(b) && a != b implies #[trigger] c.topo_of(a)
        != #[trigger] c.topo_of(b) by {
        lemma_position(hs, a);
        lemma_position(hs, b);
    }
}

/// In a sound chain the supply never falls from one topoheight to a later one.
pub proof fn lemma_supply_monotone(c: Chain, a: int, b: int)
    requires
        c.wf(),
        0 <= a <= b < c.order.len(),
    ensures
        c.order[a].supply <= c.order[b].supply,
    decreases b - a,
{
    if a < b {
        lemma_supply_monotone(c, a, b - 1);
        assert(c.order[b].supply as int == c.supply_before(b) + c.order[b].reward);
    }
}

/// The greatest height among places is at least the height at each of them.
pub proof fn lemma_max_height_covers(blocks: Seq<crate::storage::StoredBlock>, places: Seq<int>, k: int)
    requires
        0 <= k < places.len(),
    ensures
        blocks[places[k]].block.height <= crate::storage::max_height(blocks, places),
    decreases places.len(),
{
    if k < places.len() - 1 {
        lemma_max_height_covers(blocks, places.drop_last(), k);
    }
}

/// In a sound chain every block is higher than each of its tips.
pub proof fn lemma_tip_is_lower(c: Chain, i: int, k: int)
    requires
        c.wf_blocks(),
        0 <= i < c.blocks.len(),
        0 <= k < c.tips_at(i).len(),
    ensures
        c.blocks[c.parent(i, k)].block.height < c.blocks[i].block.height,
{
    let tips = c.tips_at(i);
    lemma_max_height_covers(c.blocks, c.places(tips), k);
    assert(c.blocks[i].block.height as int == c.height_at_tips(tips));
    assert(c.places(tips)[k] == c.parent(i, k));
}


impl Chain {
    /// Whether the block at place `a` lies in the past of the block at place
    /// `b`: it is one of its tips, or lies in the past of one.
    pub open spec fn in_past(self, a: int, b: int) -> bool
        decreases b, 1int, 0int,
    {
        self.in_past_via(a, b, 0)
    }

    /// Whether the block at place `a` is one of the tips from `k` on of the
    /// block at place `b`, or lies in the past of one.
    pub open spec fn in_past_via(self, a: int, b: int, k: int) -> bool
        decreases b, 0int, self.tips_at(b).len() - k,
    {
        0 <= k < self.tips_at(b).len() && ((0 <= self.parent(b, k) < b && (self.parent(b, k) == a
            || self.in_past(a, self.parent(b, k)))) || self.in_past_via(a, b, k + 1))
    }
}

/// In a sound chain a block in the past of an ordered block is ordered, at
/// a lower topoheight.
pub proof fn lemma_past_is_ordered_before(c: Chain, a: int, b: int)
    requires
        c.wf(),
        0 <= a < c.blocks.len(),
        0 <= b < c.blocks.len(),
        c.in_past(a, b),
        c.is_ordered(c.blocks[b].hash),
    ensures
        c.is_ordered(c.blocks[a].hash),
        c.topo_of(c.blocks[a].hash) < c.topo_of(c.blocks[b].hash),
    decreases b, 1int, 0int,
{
    lemma_past_via_is_ordered_before(c, a, b, 0);
}

/// In a sound chain a block reached through a tip of an ordered block is
/// ordered, at a lower topoheight.
pub proof fn lemma_past_via_is_ordered_before(c: Chain, a: int, b: int, k: int)
    requires
        c.wf(),
        0 <= a < c.blocks.len(),
        0 <= b < c.blocks.len(),
        0 <= k,
        c.in_past_via(a, b, k),
        c.is_ordered(c.blocks[b].hash),
    ensures
        c.is_ordered(c.blocks[a].hash),
        c.topo_of(c.blocks[a].hash) < c.topo_of(c.blocks[b].hash),
    decreases b, 0int, c.tips_at(b).len() - k,
{
    let p = c.parent(b, k);
    if 0 <= p < b && (p == a || c.in_past(a, p)) {
        lemma_index_of(c, b);
        lemma_wf_parent(c, b, k);
        let t = c.topo_of(c.blocks[b].hash);
        lemma_position(c.order_hashes(), c.blocks[b].hash);
        assert(c.order[t].hash == c.blocks[b].hash);
        lemma_wf_order_parts(c);
        assert(c.tips_ordered_under(c.index_of(c.order[t].hash), t));
        assert(0 <= c.topo_of(c.tips_at(b)[k]) < t);
        if p != a {
            lemma_past_is_ordered_before(c, a, p);
        }
    } else {
        lemma_past_via_is_ordered_before(c, a, b, k + 1);
    }
}

impl Chain {
    /// Whether `scores` pairs each of the first `n` tips with the work behind it.
    pub open spec fn scores_of(self, scores: Seq<(hash::Hash, u64)>, tips: Seq<hash::Hash>, base: hash::Hash, n: int) -> bool {
        &&& scores.len() == n
        &&& forall|k: int|
            0 <= k < n ==> (#[trigger] scores[k]).0 == tips[k] && self.work_score(tips[k], base)
                == Ok::<u64, BlockchainError>(scores[k].1)
    }
}

/// The scores of tips, where they can all be given, are the works behind
/// the tips, in the order of the tips.
pub proof fn lemma_tip_scores(c: Chain, tips: Seq<hash::Hash>, base: hash::Hash, n: int)
    requires
        0 <= n <= tips.len(),
        c.tip_scores(tips, base, n) is Ok,
    ensures
        c.scores_of(c.tip_scores(tips, base, n).unwrap(), tips, base, n),
    decreases n,
{
    if n > 0 {
        lemma_tip_scores(c, tips, base, n - 1);
        let before = c.tip_scores(tips, base, n - 1).unwrap();
        let now = c.tip_scores(tips, base, n).unwrap();
        assert(c.work_score(tips[n - 1], base) is Ok);
        assert(now == before.push((tips[n - 1], c.work_score(tips[n - 1], base).unwrap())));
        assert forall|k: int| 0 <= k < n implies (#[trigger] now[k]).0 == tips[k] && c.work_score(
            tips[k],
            base,
        ) == Ok::<u64, BlockchainError>(now[k].1) by {
            if k < n - 1 {
                assert(now[k] == before[k]);
            }
        }
    } else {
        assert(c.tip_scores(tips, base, n) == Ok::<Seq<(hash::Hash, u64)>, BlockchainError>(
            Seq::empty(),
        ));
        assert(c.scores_of(Seq::empty(), tips, base, n));
    }
}

/// The best tip of a tip set is one of the tips, and no tip has more work
/// behind it over the base.
pub proof fn lemma_best_tip_has_most_work(c: Chain, tips: Seq<hash::Hash>, base: hash::Hash)
    requires
        c.best_tip(tips, base) is Ok,
    ensures
        tips.contains(c.best_tip(tips, base).unwrap()),
        c.work_score(c.best_tip(tips, base).unwrap(), base) is Ok,
        forall|k: int|
            0 <= k < tips.len() ==> (c.work_score(#[trigger] tips[k], base) is Ok) && c.work_score(
                tips[k],
                base,
            ).unwrap() <= c.work_score(c.best_tip(tips, base).unwrap(), base).unwrap(),
{
    let n = tips.len() as int;
    lemma_tip_scores(c, tips, base, n);
    let scores = c.tip_scores(tips, base, n).unwrap();
    lemma_sort_desc(scores);
    let sorted = sort_desc(scores);
    let first = sorted[0];
    assert(sorted.contains(first));
    assert(scores.contains(first));
    let j = choose|j: int| 0 <= j < scores.len() && scores[j] == first;
    assert(scores[j].0 == tips[j]);
    assert(tips[j] == first.0);
    assert forall|k: int| 0 <= k < tips.len() implies (c.work_score(#[trigger] tips[k], base) is Ok)
        && c.work_score(tips[k], base).unwrap() <= c.work_score(first.0, base).unwrap() by {
        assert(scores[k].0 == tips[k]);
        assert(scores.contains(scores[k]));
        assert(sorted.contains(scores[k]));
        let x = choose|x: int| 0 <= x < sorted.len() && sorted[x] == scores[k];
        if x > 0 {
            assert(!crate::blockdag::comes_before(sorted[x], sorted[0]));
        }
    }
}

impl Chain {
    /// The chain and the coordinator after the first `n` blocks are admitted
    /// in turn, each at its time; nothing where one of them is refused or
    /// cannot be taken in.
    pub open spec fn replayed(
        self,
        node: Blockchain,
        blocks: Seq<CompleteBlock>,
        times: Seq<u128>,
        n: int,
    ) -> Option<(Chain, Blockchain)>
        decreases n,
    {
        if n <= 0 {
            Some((self, node))
        } else {
            match self.replayed(node, blocks, times, n - 1) {
                None => None,
                Some((chain, coordinator)) => match chain.admission(
                    coordinator,
                    blocks[n - 1],
                    times[n - 1],
                ) {
                    Err(_) => None,
                    Ok(difficulty) => match chain.integrated(coordinator, blocks[n - 1], difficulty) {
                        Err(_) => None,
                        Ok((next, moved, _)) => Some((next, moved)),
                    },
                },
            }
        }
    }
}

/// The clock matters to admission through one test only: a block that is
/// new is refused for its time where its timestamp is beyond the clock by
/// more than the limit, and at two times that it is not beyond, the outcome
/// of admission is the same.
pub proof fn lemma_timestamp_boundary(c: Chain, node: Blockchain, block: CompleteBlock, a: u128, b: u128)
    ensures
        !c.has_block(block.hash) && block.block.timestamp > a + TIMESTAMP_IN_FUTURE_LIMIT
            ==> c.admission(node, block, a) == Err::<u64, BlockchainError>(
            BlockchainError::TimestampIsInFuture(a, block.block.timestamp),
        ),
        block.block.timestamp <= a + TIMESTAMP_IN_FUTURE_LIMIT && block.block.timestamp <= b
            + TIMESTAMP_IN_FUTURE_LIMIT ==> c.admission(node, block, a) == c.admission(
            node,
            block,
            b,
        ),
{
    reveal(Chain::admission);
}

/// A block is admitted only where it is no larger than the greatest size:
/// a block of the greatest size can be, and a larger one is refused.
pub proof fn lemma_size_boundary(c: Chain, node: Blockchain, block: CompleteBlock, now: u128)
    ensures
        c.admission(node, block, now) is Ok ==> Chain::block_size(block) <= MAX_BLOCK_SIZE,
        Chain::block_size(block) > MAX_BLOCK_SIZE ==> c.admission(node, block, now) is Err,
{
    reveal(Chain::admission);
}

/// The difficulty a block is admitted with does not depend on the time at
/// which it is admitted.
pub proof fn lemma_admission_time(c: Chain, node: Blockchain, block: CompleteBlock, a: u128, b: u128)
    requires
        c.admission(node, block, a) is Ok,
        c.admission(node, block, b) is Ok,
    ensures
        c.admission(node, block, a) == c.admission(node, block, b),
{
    reveal(Chain::admission);
}

/// Admitting the same blocks in the same order from the same chain gives
/// the same chain, whatever the times at which they are admitted: the same
/// topoheights, the same cumulative difficulties, the same balances.
pub proof fn lemma_replay_is_deterministic(
    c: Chain,
    node: Blockchain,
    blocks: Seq<CompleteBlock>,
    first: Seq<u128>,
    second: Seq<u128>,
    n: int,
)
    requires
        0 <= n <= blocks.len(),
        c.replayed(node, blocks, first, n) is Some,
        c.replayed(node, blocks, second, n) is Some,
    ensures
        c.replayed(node, blocks, first, n) == c.replayed(node, blocks, second, n),
    decreases n,
{
    if n > 0 {
        lemma_replay_is_deterministic(c, node, blocks, first, second, n - 1);
        let before = c.replayed(node, blocks, first, n - 1).unwrap();
        lemma_admission_time(before.0, before.1, blocks[n - 1], first[n - 1], second[n - 1]);
    }
}


/// Where the order generated from the best tip starts at the base, the base
/// keeps its place: the first block ordered anew comes after it.
pub proof fn lemma_base_keeps_place(c: Chain, full: Seq<hash::Hash>, base: hash::Hash, base_topo: int)
    requires
        c.topo_of(base) == base_topo,
        0 <= base_topo,
        full.len() > 0,
        full[0] == base,
    ensures
        c.kept(full, base_topo, 0) >= 1,
{
    lemma_position(c.order_hashes(), base);
    assert(c.order_hashes()[base_topo] == base);
    assert(c.order[base_topo].hash == base);
    lemma_kept(c, full, base_topo, 1);
    assert(c.kept(full, base_topo, 0) == c.kept(full, base_topo, 1));
}

/// What taking a block in does to the heights and to the tip set: the
/// height of the block is the height at its tips, one above the highest of
/// them; the top height, which the coordinator caches, becomes the greater of
/// what it was and the height of the block; the block is stored last; and
/// the tip set becomes the tips that the block does not name, then the block.
pub proof fn lemma_block_taken_in(c: Chain, node: Blockchain, block: CompleteBlock, now: u128)
    requires
        c.wf_blocks(),
        c.admission(node, block, now) is Ok,
        c.integrated(node, block, c.admission(node, block, now).unwrap()) is Ok,
    ensures
        block.block.height as int == c.height_at_tips(block.block.tips@),
        forall|k: int|
            0 <= k < block.block.tips@.len() ==> c.has_block(#[trigger] block.block.tips@[k])
                && c.block(block.block.tips@[k]).block.height < block.block.height,
        ({
            let done = c.integrated(node, block, c.admission(node, block, now).unwrap()).unwrap();
            &&& done.0.top_height == if block.block.height > c.top_height {
                block.block.height
            } else {
                c.top_height
            }
            &&& done.1.height == done.0.top_height
            &&& done.1.topoheight == (done.0.order.len() - 1) as u64
            &&& done.0.tips == c.next_tips(block)
            &&& done.0.blocks.len() == c.blocks.len() + 1
            &&& done.0.blocks.last().hash == block.hash
            &&& done.0.blocks.last().block == block.block
            &&& forall|i: int| 0 <= i < c.blocks.len() ==> done.0.blocks[i] == c.blocks[i]
        }),
{
    reveal(Chain::integrated);
    reveal(Chain::prepared);
    let difficulty = c.admission(node, block, now).unwrap();
    crate::integrate::lemma_admitted(c, node, block, now);
    let stored = crate::integrate::record(block, difficulty, 0);
    assert(c.fits(stored));
    crate::integrate::lemma_pushed(c, stored);
    let c1 = c.pushed(stored);
    let ready = c.prepared(node.dev_key, block, difficulty).unwrap();
    let done = c.integrated(node, block, difficulty).unwrap();
    assert(ready.tips == c.next_tips(block));
    assert(ready.chain.blocks.len() == c.blocks.len() + 1);
    assert(ready.chain.blocks.last().hash == block.hash);
    assert(ready.chain.top_height == c.top_height);
    assert(done.0.blocks == ready.chain.blocks);
    assert(done.0.order == ready.after.order);
    assert forall|i: int| 0 <= i < c.blocks.len() implies done.0.blocks[i] == c.blocks[i] by {}
    assert forall|k: int| 0 <= k < block.block.tips@.len() implies c.has_block(
        #[trigger] block.block.tips@[k],
    ) && c.block(block.block.tips@[k]).block.height < block.block.height by {
        assert(c.has_block(block.block.tips@[k]));
        lemma_found(c, block.block.tips@[k]);
        lemma_tip_is_lower(c1, c.blocks.len() as int, k);
        assert(c1.parent(c.blocks.len() as int, k) == c.index_of(block.block.tips@[k]));
        assert(c1.blocks[c.index_of(block.block.tips@[k])] == c.blocks[c.index_of(
            block.block.tips@[k],
        )]);
    }
}

impl Chain {
    /// Whether every way from the block at place `i` through tips in scope
    /// leads to `base`: the block is the base, or it has a tip in scope and
    /// each of its tips in scope is such a block.
    pub open spec fn rooted(self, i: int, base: hash::Hash, base_topo: int) -> bool
        decreases i, 1int, 0int,
    {
        0 <= i < self.blocks.len() && (self.blocks[i].hash == base || (self.scoped_parents(
            i,
            base_topo,
            self.tips_at(i).len() as int,
        ).len() > 0 && self.rooted_via(i, 0, base, base_topo)))
    }

    /// Whether each tip in scope, from tip `k` on, of the block at place `i`
    /// is a block from which every way leads to `base`.
    pub open spec fn rooted_via(self, i: int, k: int, base: hash::Hash, base_topo: int) -> bool
        decreases i, 0int, self.tips_at(i).len() - k,
    {
        if k < 0 || k >= self.tips_at(i).len() {
            true
        } else {
            let p = self.parent(i, k);
            0 <= p < i && (self.in_scope(p, base_topo) ==> self.rooted(p, base, base_topo))
                && self.rooted_via(i, k + 1, base, base_topo)
        }
    }
}

/// What [`Chain::rooted_via`] says of one tip.
pub proof fn lemma_rooted_tip(c: Chain, i: int, k: int, m: int, base: hash::Hash, base_topo: int)
    requires
        0 <= k <= m < c.tips_at(i).len(),
        c.rooted_via(i, k, base, base_topo),
        c.in_scope(c.parent(i, m), base_topo),
    ensures
        c.rooted(c.parent(i, m), base, base_topo),
    decreases m - k,
{
    if k < m {
        lemma_rooted_tip(c, i, k + 1, m, base, base_topo);
    }
}

/// Every way from each scored tip of such a block leads to the base.
pub proof fn lemma_scoped_rooted(c: Chain, i: int, base: hash::Hash, base_topo: int, n: int)
    requires
        0 <= n <= c.tips_at(i).len(),
        c.rooted_via(i, 0, base, base_topo),
    ensures
        forall|x: int|
            0 <= x < c.scoped_parents(i, base_topo, n).len() ==> c.rooted(
                c.index_of((#[trigger] c.scoped_parents(i, base_topo, n)[x]).0),
                base,
                base_topo,
            ),
    decreases n,
{
    if n > 0 {
        lemma_scoped_rooted(c, i, base, base_topo, n - 1);
        let before = c.scoped_parents(i, base_topo, n - 1);
        let now = c.scoped_parents(i, base_topo, n);
        assert forall|x: int| 0 <= x < now.len() implies c.rooted(
            c.index_of((#[trigger] now[x]).0),
            base,
            base_topo,
        ) by {
            if x < before.len() {
                assert(now[x] == before[x]);
            } else {
                lemma_rooted_tip(c, i, 0, n - 1, base, base_topo);
            }
        }
    }
}

/// Appending keeps the first element, and gives the first of what is
/// appended to a sequence that was empty.
pub proof fn lemma_append_first(acc: Seq<hash::Hash>, more: Seq<hash::Hash>, n: int)
    requires
        0 <= n <= more.len(),
    ensures
        append_new(acc, more, n).len() >= acc.len(),
        acc.len() > 0 ==> append_new(acc, more, n)[0] == acc[0],
        acc.len() == 0 && n > 0 ==> append_new(acc, more, n).len() > 0 && append_new(acc, more, n)[0]
            == more[0],
    decreases n,
{
    if n > 0 {
        lemma_append_first(acc, more, n - 1);
        if n == 1 {
            assert(append_new(acc, more, 0) == acc);
        }
    }
}

/// The orders of tips from which every way leads to the base, merged, start
/// at the base.
pub proof fn lemma_merge_starts_at_base(
    c: Chain,
    i: int,
    parents: Seq<(hash::Hash, u64)>,
    k: int,
    acc: Seq<hash::Hash>,
    base: hash::Hash,
    base_topo: int,
)
    requires
        c.wf_blocks(),
        0 <= i < c.blocks.len(),
        0 <= k <= parents.len(),
        c.all_parents_of(i, parents),
        forall|x: int|
            0 <= x < parents.len() ==> c.rooted(
                c.index_of((#[trigger] parents[x]).0),
                base,
                base_topo,
            ),
        acc.len() > 0 ==> acc[0] == base,
        acc.len() == 0 ==> k < parents.len(),
    ensures
        c.full_order_merge(i, parents, k, acc, base, base_topo).len() > 0,
        c.full_order_merge(i, parents, k, acc, base, base_topo)[0] == base,
    decreases i, 0int, parents.len() - k,
{
    if k < parents.len() {
        let p = c.index_of(parents[k].0);
        assert(0 <= p < i);
        lemma_order_starts_at_base(c, p, base, base_topo);
        let sub = c.full_order_at(p, base, base_topo);
        lemma_append_first(acc, sub, sub.len() as int);
        lemma_merge_starts_at_base(
            c,
            i,
            parents,
            k + 1,
            append_new(acc, sub, sub.len() as int),
            base,
            base_topo,
        );
    }
}

/// The order generated for a block starts at the base, where every way
/// from the block through tips in scope leads to the base.
pub proof fn lemma_order_starts_at_base(c: Chain, i: int, base: hash::Hash, base_topo: int)
    requires
        c.wf_blocks(),
        c.rooted(i, base, base_topo),
    ensures
        c.full_order_at(i, base, base_topo).len() > 0,
        c.full_order_at(i, base, base_topo)[0] == base,
    decreases i, 1int, 0int,
{
    let n = c.tips_at(i).len() as int;
    if c.blocks[i].hash == base {
        assert(c.full_order_at(i, base, base_topo) == seq![c.blocks[i].hash]);
    } else {
        let scoped = c.scoped_parents(i, base_topo, n);
        crate::order::lemma_scoped_parents(c, i, base_topo, n);
        assert(n > 0);
        let parents = sort_desc(scoped);
        lemma_sort_desc(scoped);
        crate::order::lemma_sorted_parents(c, i, scoped);
        lemma_scoped_rooted(c, i, base, base_topo, n);
        assert forall|x: int| 0 <= x < parents.len() implies c.rooted(
            c.index_of((#[trigger] parents[x]).0),
            base,
            base_topo,
        ) by {
            assert(parents.contains(parents[x]));
            assert(scoped.contains(parents[x]));
            let y = choose|y: int| 0 <= y < scoped.len() && scoped[y] == parents[x];
            assert(c.rooted(c.index_of(scoped[y].0), base, base_topo));
        }
        lemma_merge_starts_at_base(c, i, parents, 0, Seq::empty(), base, base_topo);
    }
}

/// Re-ordering leaves the base where it is: where every way from the best
/// tip through tips in scope leads to the base, the order generated from the
/// best tip starts at the base, and the first block ordered anew comes after
/// it.
pub proof fn lemma_reorder_keeps_base(c: Chain, best: hash::Hash, base: hash::Hash, base_topo: int)
    requires
        c.wf_blocks(),
        c.topo_of(base) == base_topo,
        0 <= base_topo,
        c.rooted(c.index_of(best), base, base_topo),
    ensures
        c.full_order(best, base, base_topo).len() > 0,
        c.full_order(best, base, base_topo)[0] == base,
        c.kept(c.full_order(best, base, base_topo), base_topo, 0) >= 1,
{
    lemma_order_starts_at_base(c, c.index_of(best), base, base_topo);
    lemma_base_keeps_place(c, c.full_order(best, base, base_topo), base, base_topo);
}

/// Whether `log` is `before` followed by versions at topoheight `t` or above.
pub open spec fn balances_follow(
    log: Seq<crate::storage::BalanceEntry>,
    before: Seq<crate::storage::BalanceEntry>,
    t: int,
) -> bool {
    &&& before.len() <= log.len()
    &&& forall|i: int| 0 <= i < before.len() ==> (#[trigger] log[i]) == before[i]
    &&& forall|i: int| before.len() <= i < log.len() ==> (#[trigger] log[i]).topoheight >= t
}

/// Whether `log` is `before` followed by versions at topoheight `t` or above.
pub open spec fn nonces_follow(
    log: Seq<crate::storage::NonceEntry>,
    before: Seq<crate::storage::NonceEntry>,
    t: int,
) -> bool {
    &&& before.len() <= log.len()
    &&& forall|i: int| 0 <= i < before.len() ==> (#[trigger] log[i]) == before[i]
    &&& forall|i: int| before.len() <= i < log.len() ==> (#[trigger] log[i]).topoheight >= t
}

/// Ordering and executing a run of blocks keeps every place written before,
/// and every version of the logs, and writes versions only at the
/// topoheights it orders.
pub proof fn lemma_reordered_keeps(
    c: Chain,
    dev_key: crate::hash::PublicKey,
    full: Seq<hash::Hash>,
    k: int,
    so_far: crate::integrate::Reordered,
)
    requires
        0 <= k <= full.len(),
        so_far.order.len() + full.len() - k <= u64::MAX,
        c.reordered(dev_key, full, k, so_far) is Ok,
    ensures
        ({
            let r = c.reordered(dev_key, full, k, so_far).unwrap();
            &&& so_far.order.len() <= r.order.len()
            &&& forall|t: int| 0 <= t < so_far.order.len() ==> (#[trigger] r.order[t]) == so_far.order[t]
            &&& balances_follow(r.balances, so_far.balances, so_far.order.len() as int)
            &&& nonces_follow(r.nonces, so_far.nonces, so_far.order.len() as int)
        }),
    decreases full.len() - k,
{
    if k < full.len() {
        let next = crate::integrate::ordered_next(c, dev_key, so_far, full[k]).unwrap();
        let entry = next_entry(c, so_far.order, full[k]);
        crate::undo::lemma_block_executed_extends(
            so_far.balances,
            so_far.nonces,
            c.block(full[k]),
            so_far.order.len() as u64,
            entry.reward,
            dev_key,
        );
        lemma_reordered_keeps(c, dev_key, full, k + 1, next);
        let r = c.reordered(dev_key, full, k, so_far).unwrap();
        assert forall|t: int| 0 <= t < so_far.order.len() implies (#[trigger] r.order[t])
            == so_far.order[t] by {
            assert(next.order[t] == so_far.order[t]);
        }
        assert forall|i: int| 0 <= i < so_far.balances.len() implies (#[trigger] r.balances[i])
            == so_far.balances[i] by {
            assert(next.balances[i] == so_far.balances[i]);
        }
        assert forall|i: int| so_far.balances.len() <= i < r.balances.len() implies (
        #[trigger] r.balances[i]).topoheight >= so_far.order.len() by {
            if i < next.balances.len() {
                assert(r.balances[i] == next.balances[i]);
            }
        }
        assert forall|i: int| 0 <= i < so_far.nonces.len() implies (#[trigger] r.nonces[i])
            == so_far.nonces[i] by {
            assert(next.nonces[i] == so_far.nonces[i]);
        }
        assert forall|i: int| so_far.nonces.len() <= i < r.nonces.len() implies (
        #[trigger] r.nonces[i]).topoheight >= so_far.order.len() by {
            if i < next.nonces.len() {
                assert(r.nonces[i] == next.nonces[i]);
            }
        }
    }
}

/// What the order and the logs rebuilt past a base keep: every place
/// before the first block ordered anew, and every version under it; what is
/// written is written at that place or after.
pub proof fn lemma_rebuilt_keeps(
    c: Chain,
    dev_key: crate::hash::PublicKey,
    full: Seq<hash::Hash>,
    base_topo: int,
)
    requires
        crate::ledger::balances_ascend(c.balances),
        crate::ledger::nonces_ascend(c.nonces),
        0 <= base_topo <= c.order.len(),
        c.rebuilt(dev_key, full, base_topo) is Ok,
        c.rebuilt(dev_key, full, base_topo).unwrap().order.len() <= u64::MAX,
    ensures
        ({
            let r = c.rebuilt(dev_key, full, base_topo).unwrap();
            let d = base_topo + c.kept(full, base_topo, 0);
            &&& d <= c.order.len()
            &&& d <= r.order.len()
            &&& forall|t: int| 0 <= t < d ==> (#[trigger] r.order[t]) == c.order[t]
            &&& forall|i: int|
                0 <= i < c.balances.len() && (#[trigger] c.balances[i]).topoheight < d ==> i
                    < r.balances.len() && r.balances[i] == c.balances[i]
            &&& forall|i: int|
                0 <= i < r.balances.len() && (#[trigger] r.balances[i]).topoheight < d ==> i
                    < c.balances.len() && r.balances[i] == c.balances[i]
            &&& forall|i: int|
                0 <= i < c.nonces.len() && (#[trigger] c.nonces[i]).topoheight < d ==> i
                    < r.nonces.len() && r.nonces[i] == c.nonces[i]
            &&& forall|i: int|
                0 <= i < r.nonces.len() && (#[trigger] r.nonces[i]).topoheight < d ==> i
                    < c.nonces.len() && r.nonces[i] == c.nonces[i]
        }),
{
    reveal(Chain::rebuilt);
    let kept = c.kept(full, base_topo, 0);
    lemma_kept(c, full, base_topo, 0);
    let d = base_topo + kept;
    let start = crate::integrate::Reordered {
        order: c.order.take(d),
        balances: c.balances.take(balances_below(c.balances, d)),
        nonces: c.nonces.take(nonces_below(c.nonces, d)),
        moved: Seq::empty(),
    };
    crate::undo::lemma_reordered_length(c, dev_key, full, kept, start);
    lemma_reordered_keeps(c, dev_key, full, kept, start);
    crate::ledger::lemma_balances_below(c.balances, d);
    crate::ledger::lemma_nonces_below(c.nonces, d);
    let r = c.rebuilt(dev_key, full, base_topo).unwrap();
    assert forall|t: int| 0 <= t < d implies (#[trigger] r.order[t]) == c.order[t] by {
        assert(start.order[t] == c.order[t]);
    }
    assert forall|i: int|
        0 <= i < c.balances.len() && (#[trigger] c.balances[i]).topoheight < d implies i
            < r.balances.len() && r.balances[i] == c.balances[i] by {
        assert(i < balances_below(c.balances, d));
        assert(start.balances[i] == c.balances[i]);
    }
    assert forall|i: int|
        0 <= i < r.balances.len() && (#[trigger] r.balances[i]).topoheight < d implies i
            < c.balances.len() && r.balances[i] == c.balances[i] by {
        assert(i < start.balances.len());
        assert(start.balances[i] == c.balances[i]);
    }
    assert forall|i: int|
        0 <= i < c.nonces.len() && (#[trigger] c.nonces[i]).topoheight < d implies i
            < r.nonces.len() && r.nonces[i] == c.nonces[i] by {
        assert(i < nonces_below(c.nonces, d));
        assert(start.nonces[i] == c.nonces[i]);
    }
    assert forall|i: int|
        0 <= i < r.nonces.len() && (#[trigger] r.nonces[i]).topoheight < d implies i
            < c.nonces.len() && r.nonces[i] == c.nonces[i] by {
        assert(i < start.nonces.len());
        assert(start.nonces[i] == c.nonces[i]);
    }
}

/// What a plan for a tip set is made of once a block is ordered: the best
/// tip, the place of the common base, and the order generated from the best
/// tip back to the base.
pub proof fn lemma_planned_parts(c: Chain, tips: Seq<hash::Hash>)
    requires
        c.order.len() > 0,
        c.planned(tips) is Ok,
    ensures
        ({
            let plan = c.planned(tips).unwrap();
            let base = c.common_base(tips).0;
            &&& plan.1 == c.topo_of(base)
            &&& 0 <= plan.1 < c.order.len()
            &&& c.order[plan.1].hash == base
            &&& plan.2 == c.full_order(plan.0, base, plan.1)
        }),
{
    reveal(Chain::planned);
    let base = c.common_base(tips).0;
    lemma_position(c.order_hashes(), base);
    assert(c.order_hashes()[c.topo_of(base)] == base);
}

/// The plan that a chain is prepared with is the plan for its tip set.
pub proof fn lemma_prepared_plan(c: Chain, dev_key: crate::hash::PublicKey, block: CompleteBlock, difficulty: u64)
    requires
        c.prepared(dev_key, block, difficulty) is Ok,
    ensures
        ({
            let ready = c.prepared(dev_key, block, difficulty).unwrap();
            &&& ready.chain.planned(ready.tips) == Ok::<
                (hash::Hash, int, Seq<hash::Hash>),
                BlockchainError,
            >((ready.best, ready.base_topo, ready.full))
            &&& ready.chain.order == c.order
            &&& ready.chain.balances == c.balances
            &&& ready.chain.nonces == c.nonces
        }),
{
    reveal(Chain::prepared);
}

/// Taking a block in re-orders only above the common base: where every way
/// from the best tip through tips in scope leads to the base, every place of
/// the order up to that of the base keeps its block, its reward and its
/// supply, and the versions of balances and nonces at topoheights up to that
/// of the base are the same before and after.
pub proof fn lemma_added_keeps_base(c: Chain, node: Blockchain, block: CompleteBlock, difficulty: u64)
    requires
        c.wf(),
        0 < c.order.len(),
        c.integrated(node, block, difficulty) is Ok,
        c.integrated(node, block, difficulty).unwrap().0.order.len() <= u64::MAX,
        ({
            let ready = c.prepared(node.dev_key, block, difficulty).unwrap();
            ready.chain.wf_blocks() && ready.chain.rooted(
                ready.chain.index_of(ready.best),
                ready.chain.common_base(ready.tips).0,
                ready.base_topo,
            )
        }),
    ensures
        ({
            let ready = c.prepared(node.dev_key, block, difficulty).unwrap();
            let after = c.integrated(node, block, difficulty).unwrap().0;
            let tb = ready.base_topo;
            &&& 0 <= tb < c.order.len()
            &&& tb < after.order.len()
            &&& c.order[tb].hash == ready.chain.common_base(ready.tips).0
            &&& forall|t: int| 0 <= t <= tb ==> (#[trigger] after.order[t]) == c.order[t]
            &&& forall|i: int|
                0 <= i < c.balances.len() && (#[trigger] c.balances[i]).topoheight <= tb ==> i
                    < after.balances.len() && after.balances[i] == c.balances[i]
            &&& forall|i: int|
                0 <= i < after.balances.len() && (#[trigger] after.balances[i]).topoheight <= tb ==> i
                    < c.balances.len() && after.balances[i] == c.balances[i]
            &&& forall|i: int|
                0 <= i < c.nonces.len() && (#[trigger] c.nonces[i]).topoheight <= tb ==> i
                    < after.nonces.len() && after.nonces[i] == c.nonces[i]
            &&& forall|i: int|
                0 <= i < after.nonces.len() && (#[trigger] after.nonces[i]).topoheight <= tb ==> i
                    < c.nonces.len() && after.nonces[i] == c.nonces[i]
        }),
{
    crate::undo::lemma_integrated_parts(c, node, block, difficulty);
    lemma_prepared_plan(c, node.dev_key, block, difficulty);
    let ready = c.prepared(node.dev_key, block, difficulty).unwrap();
    let c1 = ready.chain;
    lemma_planned_parts(c1, ready.tips);
    let base = c1.common_base(ready.tips).0;
    lemma_reorder_keeps_base(c1, ready.best, base, ready.base_topo);
    lemma_rebuilt_keeps(c1, node.dev_key, ready.full, ready.base_topo);
}

/// In an order generated past a base, a block that lies in the past of
/// another comes before it.
pub proof fn lemma_order_follows_past(
    c: Chain,
    s: Seq<hash::Hash>,
    i: int,
    base: hash::Hash,
    base_topo: int,
    x: int,
    y: int,
)
    requires
        c.wf(),
        c.orderly(s, i, base, base_topo),
        0 <= base_topo,
        c.has_block(base) ==> c.topo_of(base) == base_topo,
        0 <= x < s.len(),
        0 <= y < s.len(),
        c.in_past(c.index_of(s[x]), c.index_of(s[y])),
    ensures
        x < y,
    decreases c.index_of(s[y]), 1int, 0int,
{
    let a = c.index_of(s[x]);
    let b = c.index_of(s[y]);
    assert(0 <= a <= i && 0 <= b <= i);
    lemma_found(c, s[x]);
    lemma_found(c, s[y]);
    assert(c.in_scope(c.index_of(s[x]), base_topo));
    if s[y] == base {
        lemma_past_is_ordered_before(c, a, b);
    } else {
        lemma_order_follows_tips(c, s, i, base, base_topo, x, y, 0);
    }
}

/// In an order generated past a base, a block reached through a tip of
/// another comes before it.
pub proof fn lemma_order_follows_tips(
    c: Chain,
    s: Seq<hash::Hash>,
    i: int,
    base: hash::Hash,
    base_topo: int,
    x: int,
    y: int,
    k: int,
)
    requires
        c.wf(),
        c.orderly(s, i, base, base_topo),
        0 <= base_topo,
        c.has_block(base) ==> c.topo_of(base) == base_topo,
        0 <= x < s.len(),
        0 <= y < s.len(),
        s[y] != base,
        0 <= k,
        c.in_past_via(c.index_of(s[x]), c.index_of(s[y]), k),
    ensures
        x < y,
    decreases c.index_of(s[y]), 0int, c.tips_at(c.index_of(s[y])).len() - k,
{
    let a = c.index_of(s[x]);
    let b = c.index_of(s[y]);
    assert(0 <= a <= i && 0 <= b <= i);
    lemma_found(c, s[x]);
    lemma_found(c, s[y]);
    assert(c.blocks[a].hash == s[x]);
    assert(c.blocks[b].hash == s[y]);
    assert(c.in_scope(c.index_of(s[x]), base_topo));
    let p = c.parent(b, k);
    if 0 <= p < b && (p == a || c.in_past(a, p)) {
        if c.in_scope(p, base_topo) {
            assert(c.tips_stand_before(s, s[y], y, base_topo));
            assert(stands_before(s, c.tips_at(b)[k], y));
            let z = choose|z: int| 0 <= z < y && z < s.len() && #[trigger] s[z] == c.tips_at(b)[k];
            assert(c.index_of(s[z]) == p);
            if p == a {
                lemma_found(c, s[z]);
                assert(s[z] == s[x]);
            } else {
                lemma_order_follows_past(c, s, i, base, base_topo, x, z);
            }
        } else {
            if p != a {
                lemma_past_is_ordered_before(c, a, p);
            }
        }
    } else {
        lemma_order_follows_tips(c, s, i, base, base_topo, x, y, k + 1);
    }
}

/// The order generated for a stored block past a base ordered at
/// `base_topo`: it names no block twice, it ends with the block, it holds
/// the block and blocks of its past only, and a block of it that lies in the
/// past of another comes before it.
pub proof fn lemma_full_order_follows_past(c: Chain, h: hash::Hash, base: hash::Hash, base_topo: int)
    requires
        c.wf(),
        c.has_block(h),
        c.in_scope(c.index_of(h), base_topo),
        0 <= base_topo,
        c.has_block(base) ==> c.topo_of(base) == base_topo,
    ensures
        c.full_order(h, base, base_topo).no_duplicates(),
        c.full_order(h, base, base_topo).len() > 0,
        c.full_order(h, base, base_topo).last() == h,
        c.within_past(c.full_order(h, base, base_topo), c.index_of(h)),
        forall|x: int, y: int|
            #![trigger c.full_order(h, base, base_topo)[x], c.full_order(h, base, base_topo)[y]]
            0 <= x < c.full_order(h, base, base_topo).len() && 0 <= y < c.full_order(
                h,
                base,
                base_topo,
            ).len() && c.in_past(
                c.index_of(c.full_order(h, base, base_topo)[x]),
                c.index_of(c.full_order(h, base, base_topo)[y]),
            ) ==> x < y,
{
    let i = c.index_of(h);
    lemma_found(c, h);
    lemma_full_order(c, i, base, base_topo);
    lemma_order_within_past(c, i, base, base_topo);
    let s = c.full_order(h, base, base_topo);
    assert forall|x: int, y: int|
        #![trigger s[x], s[y]]
        0 <= x < s.len() && 0 <= y < s.len() && c.in_past(
            c.index_of(s[x]),
            c.index_of(s[y]),
        ) implies x < y by {
        lemma_order_follows_past(c, s, i, base, base_topo, x, y);
    }
}

/// A block reached through a tip of another lies in its past.
pub proof fn lemma_in_past_through(c: Chain, a: int, b: int, k: int, m: int)
    requires
        0 <= k <= m < c.tips_at(b).len(),
        0 <= c.parent(b, m) < b,
        c.parent(b, m) == a || c.in_past(a, c.parent(b, m)),
    ensures
        c.in_past_via(a, b, k),
    decreases m - k,
{
    if k < m {
        lemma_in_past_through(c, a, b, k + 1, m);
    }
}

impl Chain {
    /// Whether every block of `s` is the block at place `i` or lies in its past.
    pub open spec fn within_past(self, s: Seq<hash::Hash>, i: int) -> bool {
        forall|x: int|
            0 <= x < s.len() ==> 0 <= self.index_of(#[trigger] s[x]) < self.blocks.len() && (
            self.index_of(s[x]) == i || self.in_past(self.index_of(s[x]), i))
    }

    /// Whether every block of `s` lies in the past of the block at place `i`.
    pub open spec fn all_past(self, s: Seq<hash::Hash>, i: int) -> bool {
        forall|x: int|
            0 <= x < s.len() ==> 0 <= self.index_of(#[trigger] s[x]) < self.blocks.len()
                && self.in_past(self.index_of(s[x]), i)
    }
}

/// Appending blocks of the past to blocks of the past gives blocks of the past.
pub proof fn lemma_append_past(c: Chain, acc: Seq<hash::Hash>, more: Seq<hash::Hash>, n: int, i: int)
    requires
        0 <= n <= more.len(),
        c.all_past(acc, i),
        c.all_past(more, i),
    ensures
        c.all_past(append_new(acc, more, n), i),
    decreases n,
{
    if n > 0 {
        lemma_append_past(c, acc, more, n - 1, i);
        let before = append_new(acc, more, n - 1);
        let now = append_new(acc, more, n);
        assert forall|x: int| 0 <= x < now.len() implies 0 <= c.index_of(#[trigger] now[x])
            < c.blocks.len() && c.in_past(c.index_of(now[x]), i) by {
            if x < before.len() {
                assert(now[x] == before[x]);
            } else {
                assert(now[x] == more[n - 1]);
            }
        }
    }
}

/// The orders of the tips of a block, merged, hold blocks of its past only.
pub proof fn lemma_merge_within_past(
    c: Chain,
    i: int,
    parents: Seq<(hash::Hash, u64)>,
    k: int,
    acc: Seq<hash::Hash>,
    base: hash::Hash,
    base_topo: int,
)
    requires
        c.wf_blocks(),
        0 <= i < c.blocks.len(),
        0 <= k <= parents.len(),
        forall|x: int|
            0 <= x < parents.len() ==> c.tips_at(i).contains((#[trigger] parents[x]).0) && 0
                <= c.index_of(parents[x].0) < i,
        c.all_past(acc, i),
    ensures
        c.all_past(c.full_order_merge(i, parents, k, acc, base, base_topo), i),
    decreases i, 0int, parents.len() - k,
{
    if k < parents.len() {
        let p = c.index_of(parents[k].0);
        assert(c.tips_at(i).contains(parents[k].0));
        let m = choose|m: int| 0 <= m < c.tips_at(i).len() && c.tips_at(i)[m] == parents[k].0;
        assert(c.parent(i, m) == p);
        lemma_order_within_past(c, p, base, base_topo);
        let sub = c.full_order_at(p, base, base_topo);
        assert forall|x: int| 0 <= x < sub.len() implies 0 <= c.index_of(#[trigger] sub[x])
            < c.blocks.len() && c.in_past(c.index_of(sub[x]), i) by {
            lemma_in_past_through(c, c.index_of(sub[x]), i, 0, m);
        }
        lemma_append_past(c, acc, sub, sub.len() as int, i);
        lemma_merge_within_past(
            c,
            i,
            parents,
            k + 1,
            append_new(acc, sub, sub.len() as int),
            base,
            base_topo,
        );
    }
}

/// Every scored tip of a block is one of its tips.
pub proof fn lemma_scoped_are_tips(c: Chain, i: int, base_topo: int, n: int)
    requires
        0 <= n <= c.tips_at(i).len(),
    ensures
        forall|x: int|
            0 <= x < c.scoped_parents(i, base_topo, n).len() ==> c.tips_at(i).contains(
                (#[trigger] c.scoped_parents(i, base_topo, n)[x]).0,
            ),
    decreases n,
{
    if n > 0 {
        lemma_scoped_are_tips(c, i, base_topo, n - 1);
        let before = c.scoped_parents(i, base_topo, n - 1);
        let now = c.scoped_parents(i, base_topo, n);
        assert forall|x: int| 0 <= x < now.len() implies c.tips_at(i).contains(
            (#[trigger] now[x]).0,
        ) by {
            if x < before.len() {
                assert(now[x] == before[x]);
            } else {
                assert(c.tips_at(i)[n - 1] == now[x].0);
            }
        }
    }
}

/// The order generated for a block holds the block and blocks of its past
/// only.
pub proof fn lemma_order_within_past(c: Chain, i: int, base: hash::Hash, base_topo: int)
    requires
        c.wf_blocks(),
        0 <= i < c.blocks.len(),
    ensures
        c.within_past(c.full_order_at(i, base, base_topo), i),
    decreases i, 1int, 0int,
{
    lemma_index_of(c, i);
    let h = c.blocks[i].hash;
    let n = c.tips_at(i).len() as int;
    if n == 0 || h == base {
        assert(c.full_order_at(i, base, base_topo) == seq![h]);
    } else {
        let scoped = c.scoped_parents(i, base_topo, n);
        let parents = sort_desc(scoped);
        lemma_sort_desc(scoped);
        crate::order::lemma_scoped_parents(c, i, base_topo, n);
        crate::order::lemma_sorted_parents(c, i, scoped);
        lemma_scoped_are_tips(c, i, base_topo, n);
        assert forall|x: int| 0 <= x < parents.len() implies c.tips_at(i).contains(
            (#[trigger] parents[x]).0,
        ) && 0 <= c.index_of(parents[x].0) < i by {
            assert(parents.contains(parents[x]));
            assert(scoped.contains(parents[x]));
            let y = choose|y: int| 0 <= y < scoped.len() && scoped[y] == parents[x];
            assert(c.tips_at(i).contains(scoped[y].0));
        }
        let none: Seq<hash::Hash> = Seq::empty();
        lemma_merge_within_past(c, i, parents, 0, none, base, base_topo);
        let merged = c.full_order_merge(i, parents, 0, none, base, base_topo);
        let f = c.full_order_at(i, base, base_topo);
        assert(f == merged.push(h));
        assert forall|x: int| 0 <= x < f.len() implies 0 <= c.index_of(#[trigger] f[x])
            < c.blocks.len() && (c.index_of(f[x]) == i || c.in_past(c.index_of(f[x]), i)) by {
            if x < merged.len() {
                assert(f[x] == merged[x]);
            }
        }
    }
}

} // verus!
