//! The aggregation pass: the statistics of every tree, summed into its root.

use vstd::prelude::*;
use crate::forest::Forest;
use crate::forest::in_subtree;
use crate::forest::is_root;
use crate::forest::lemma_tree_members;
use crate::forest::live;
use crate::forest::MAX_PARTS;
use crate::forest::node;
use crate::forest::node_wf;
use crate::forest::PartId;
use crate::forest::PartState;
use crate::forest::wf_forest;
use crate::stats::PartStats;
use crate::stats::StatTotals;
use crate::world::PartWorld;

verus! {

/// The sum of the statistics of the live parts among the first `k` handles
/// that belong to `members`, taken in the order of the handles.
pub open spec fn sum_members(w: Forest, members: Set<PartId>, k: nat) -> StatTotals
    decreases k,
{
    if k == 0 {
        StatTotals::zero()
    } else {
        let rest = sum_members(w, members, (k - 1) as nat);
        let id = (k - 1) as PartId;
        if members.contains(id) && live(w, id) {
            rest.plus(node(w, id).stats.totals())
        } else {
            rest
        }
    }
}

/// The parts of the tree of `root`: those that cache `root`.
pub open spec fn tree_members(w: Forest, root: PartId) -> Set<PartId> {
    Set::new(|n: PartId| live(w, n) && node(w, n).tree_root == Some(root))
}

/// The sum of the statistics of the tree of `root`.
pub open spec fn tree_total(w: Forest, root: PartId) -> StatTotals {
    sum_members(w, tree_members(w, root), w.len())
}

/// The sum of the statistics of the parts named in `order`, taken in that
/// order.
pub open spec fn sum_along(w: Forest, order: Seq<PartId>) -> StatTotals
    decreases order.len(),
{
    if order.len() == 0 {
        StatTotals::zero()
    } else {
        sum_along(w, order.drop_last()).plus(node(w, order.last()).stats.totals())
    }
}

/// The entry `i` of the forest after an aggregation pass.
pub open spec fn accumulated_at(w: Forest, i: int) -> Option<PartState> {
    match w[i] {
        None => None,
        Some(s) => Some(
            PartState {
                aggregate: if s.parent is None {
                    Some(tree_total(w, i as PartId).as_stats())
                } else {
                    s.aggregate
                },
                ..s
            },
        ),
    }
}

/// The forest after an aggregation pass: the aggregate of every root holds the
/// sum of the statistics of its tree, with every optional field present.
pub open spec fn accumulated(w: Forest) -> Forest {
    Seq::new(w.len(), |i: int| accumulated_at(w, i))
}

/// A member that joins adds its statistics to the sum.
pub proof fn lemma_sum_insert(w: Forest, members: Set<PartId>, x: PartId, k: nat)
    requires
        !members.contains(x),
        live(w, x),
        k <= MAX_PARTS,
    ensures
        sum_members(w, members.insert(x), k) == if x < k {
            sum_members(w, members, k).plus(node(w, x).stats.totals())
        } else {
            sum_members(w, members, k)
        },
    decreases k,
{
    if k > 0 {
        lemma_sum_insert(w, members, x, (k - 1) as nat);
        let id = (k - 1) as PartId;
        let before = sum_members(w, members, (k - 1) as nat);
        let value = node(w, x).stats.totals();
        if id == x {
            assert(sum_members(w, members, k) == before);
            assert(sum_members(w, members.insert(x), k) == before.plus(value));
        } else if members.contains(id) && live(w, id) {
            let other = node(w, id).stats.totals();
            assert(members.insert(x).contains(id));
            if x < k {
                assert(before.plus(value).plus(other) == before.plus(other).plus(value));
            }
        } else {
            assert(!members.insert(x).contains(id) || !live(w, id));
        }
    }
}

/// The sum over at most `k` parts is at most `k` times what one part may carry.
pub proof fn lemma_sum_bound(w: Forest, members: Set<PartId>, k: nat)
    requires
        wf_forest(w),
        k <= w.len(),
    ensures
        sum_members(w, members, k).within(k as int),
    decreases k,
{
    if k > 0 {
        lemma_sum_bound(w, members, (k - 1) as nat);
        let id = (k - 1) as PartId;
        if live(w, id) {
            assert(node_wf(w, id));
        }
    }
}

/// The sum depends on the members and their statistics only.
pub proof fn lemma_sum_same_stats(w: Forest, v: Forest, members: Set<PartId>, k: nat)
    requires
        v.len() == w.len(),
        forall|n: PartId| live(v, n) == live(w, n),
        forall|n: PartId| live(w, n) ==> (#[trigger] node(v, n)).stats == node(w, n).stats,
    ensures
        sum_members(v, members, k) == sum_members(w, members, k),
    decreases k,
{
    if k > 0 {
        lemma_sum_same_stats(w, v, members, (k - 1) as nat);
        let id = (k - 1) as PartId;
        if live(w, id) {
            assert(node(v, id).stats == node(w, id).stats);
        }
    }
}

/// The sum along a sequence that names live parts, none twice, is the sum of
/// the set of parts that it names.
pub proof fn lemma_sum_along_is_sum_of_set(w: Forest, order: Seq<PartId>)
    requires
        w.len() <= MAX_PARTS,
        order.no_duplicates(),
        forall|t: int| 0 <= t < order.len() ==> live(w, #[trigger] order[t]),
    ensures
        sum_along(w, order) == sum_members(w, order.to_set(), w.len()),
    decreases order.len(),
{
    if order.len() == 0 {
        assert(order.to_set() =~= Set::<PartId>::empty());
        lemma_sum_empty(w, w.len());
    } else {
        let rest = order.drop_last();
        let x = order.last();
        lemma_sum_along_is_sum_of_set(w, rest);
        assert(live(w, order[order.len() - 1]));
        assert(!rest.to_set().contains(x)) by {
            if rest.contains(x) {
                let t = choose|t: int| 0 <= t < rest.len() && rest[t] == x;
                assert(order[t] == x);
            }
        }
        assert(order.to_set() =~= rest.to_set().insert(x)) by {
            assert forall|n: PartId| order.to_set().contains(n) <==> rest.to_set().insert(
                x,
            ).contains(n) by {
                if order.contains(n) {
                    let t = choose|t: int| 0 <= t < order.len() && order[t] == n;
                    if t < rest.len() {
                        assert(rest[t] == n);
                    }
                }
                if rest.contains(n) {
                    let t = choose|t: int| 0 <= t < rest.len() && rest[t] == n;
                    assert(order[t] == n);
                }
                if n == x {
                    assert(order[order.len() - 1] == n);
                }
            }
        }
        lemma_sum_insert(w, rest.to_set(), x, w.len());
    }
}

/// The sum over no part is zero.
pub proof fn lemma_sum_empty(w: Forest, k: nat)
    ensures
        sum_members(w, Set::<PartId>::empty(), k) == StatTotals::zero(),
    decreases k,
{
    if k > 0 {
        lemma_sum_empty(w, (k - 1) as nat);
    }
}

/// Aggregation does not depend on the order of the walk: two sequences that
/// name the same live parts, each once, give the same sum, whatever the order
/// in which they name them.
pub proof fn lemma_sum_order_independent(w: Forest, first: Seq<PartId>, second: Seq<PartId>)
    requires
        w.len() <= MAX_PARTS,
        first.no_duplicates(),
        second.no_duplicates(),
        forall|t: int| 0 <= t < first.len() ==> live(w, #[trigger] first[t]),
        forall|n: PartId| first.contains(n) <==> second.contains(n),
    ensures
        sum_along(w, first) == sum_along(w, second),
{
    assert forall|t: int| 0 <= t < second.len() implies live(w, #[trigger] second[t]) by {
        assert(second.contains(second[t]));
        let u = choose|u: int| 0 <= u < first.len() && first[u] == second[t];
        assert(live(w, first[u]));
    }
    lemma_sum_along_is_sum_of_set(w, first);
    lemma_sum_along_is_sum_of_set(w, second);
    assert(first.to_set() =~= second.to_set());
}

/// Any walk that visits every part of the tree of a root once gives the
/// aggregate of the tree.
pub proof fn lemma_walk_gives_tree_total(w: Forest, root: PartId, order: Seq<PartId>)
    requires
        wf_forest(w),
        is_root(w, root),
        order.no_duplicates(),
        forall|n: PartId| order.contains(n) <==> in_subtree(w, root, n),
    ensures
        sum_along(w, order) == tree_total(w, root),
        tree_total(w, root).within(w.len() as int),
{
    lemma_tree_members(w, root);
    assert forall|t: int| 0 <= t < order.len() implies live(w, #[trigger] order[t]) by {
        assert(order.contains(order[t]));
        assert(in_subtree(w, root, order[t]));
    }
    lemma_sum_along_is_sum_of_set(w, order);
    assert(order.to_set() =~= tree_members(w, root)) by {
        assert forall|n: PartId| order.to_set().contains(n) <==> tree_members(w, root).contains(
            n,
        ) by {
            assert(order.contains(n) <==> in_subtree(w, root, n));
        }
    }
    lemma_sum_bound(w, tree_members(w, root), w.len());
}

/// The sum of the statistics of the parts named in `ids`, in that order. The
/// result has every optional field present unless `ids` is empty.
pub fn sum_stats(world: &PartWorld, ids: &Vec<PartId>) -> (sum: PartStats)
    requires
        world.wf(),
        ids@.no_duplicates(),
        forall|t: int| 0 <= t < ids@.len() ==> live(world@, #[trigger] ids@[t]),
    ensures
        sum.totals() == sum_along(world@, ids@),
        sum == if ids@.len() == 0 {
            PartStats { hp: 0, speed: None, acceleration: None, force: None }
        } else {
            sum_along(world@, ids@).as_stats()
        },
{
    let ghost w = world@;
    let mut sum = PartStats::default();
    let mut t: usize = 0;
    assert(ids@.take(0) =~= Seq::<PartId>::empty());
    while t < ids.len()
        invariant
            t <= ids@.len(),
            w == world@,
            wf_forest(w),
            ids@.no_duplicates(),
            forall|t: int| 0 <= t < ids@.len() ==> live(w, #[trigger] ids@[t]),
            sum.totals() == sum_along(w, ids@.take(t as int)),
            sum == if t == 0 {
                PartStats { hp: 0, speed: None, acceleration: None, force: None }
            } else {
                sum_along(w, ids@.take(t as int)).as_stats()
            },
        decreases ids@.len() - t,
    {
        let id = ids[t];
        let ghost next = ids@.take(t + 1);
        proof {
            assert(live(w, ids@[t as int]));
            assert(next.drop_last() =~= ids@.take(t as int));
            assert(next.last() == id);
            assert forall|u: int| 0 <= u < next.len() implies live(w, #[trigger] next[u]) by {
                assert(next[u] == ids@[u]);
            }
            lemma_sum_along_is_sum_of_set(w, next);
            lemma_sum_bound(w, next.to_set(), w.len());
            assert(sum_along(w, next).within(MAX_PARTS as int));
        }
        let stats = match world.get(id) {
            Some(bundle) => bundle.stats,
            None => PartStats::default(),
        };
        sum = sum.add(stats);
        t += 1;
    }
    assert(ids@.take(ids@.len() as int) =~= ids@);
    sum
}

/// The aggregation pass, run once per tick: for every root, the aggregate is
/// set to the sum of the statistics of the root's tree, found by a depth-first
/// walk from the root.
pub fn accumulate_part_stats(world: &mut PartWorld)
    requires
        old(world).wf(),
    ensures
        final(world).wf(),
        final(world)@ == accumulated(old(world)@),
{
    let ghost w = world@;
    let count = world.len();
    let mut id: usize = 0;
    while id < count
        invariant
            id <= count,
            count == w.len(),
            wf_forest(w),
            world.wf(),
            world@.len() == w.len(),
            forall|i: int|
                0 <= i < w.len() ==> #[trigger] world@[i] == if i < id {
                    accumulated_at(w, i)
                } else {
                    w[i]
                },
        decreases count - id,
    {
        let ghost cur = world@;
        let is_root = match world.get(id) {
            Some(bundle) => bundle.part_parent.is_none(),
            None => false,
        };
        proof {
            assert(cur[id as int] == w[id as int]);
        }
        if is_root {
            let ids = world.subtree(id);
            proof {
                lemma_walk_gives_tree_total(cur, id, ids@);
                assert forall|t: int| 0 <= t < ids@.len() implies live(cur, #[trigger] ids@[t]) by {
                    assert(ids@.contains(ids@[t]));
                    lemma_tree_members(cur, id);
                }
                assert(tree_members(cur, id) =~= tree_members(w, id)) by {
                    assert forall|n: PartId| tree_members(cur, id).contains(n) <==> tree_members(
                        w,
                        id,
                    ).contains(n) by {
                        if n < w.len() {
                            assert(cur[n as int] == if n < id {
                                accumulated_at(w, n as int)
                            } else {
                                w[n as int]
                            });
                        }
                    }
                }
                assert forall|n: PartId| live(w, n) implies (#[trigger] node(cur, n)).stats == node(
                    w,
                    n,
                ).stats by {
                    assert(cur[n as int] == if n < id {
                        accumulated_at(w, n as int)
                    } else {
                        w[n as int]
                    });
                }
                assert forall|n: PartId| live(cur, n) == live(w, n) by {
                    if n < w.len() {
                        assert(cur[n as int] == if n < id {
                            accumulated_at(w, n as int)
                        } else {
                            w[n as int]
                        });
                    }
                }
                lemma_sum_same_stats(w, cur, tree_members(w, id), w.len());
                assert(ids@.len() > 0);
            }
            let total = sum_stats(world, &ids);
            world.set_cumulative_stats(id, total);
        }
        proof {
            assert forall|i: int| 0 <= i < w.len() implies #[trigger] world@[i] == if i < id + 1 {
                accumulated_at(w, i)
            } else {
                w[i]
            } by {
                assert(cur[i] == if i < id {
                    accumulated_at(w, i)
                } else {
                    w[i]
                });
            }
        }
        id += 1;
    }
    proof {
        assert(world@ =~= accumulated(w));
    }
}

} // verus!
