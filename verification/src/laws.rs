//! Laws that relate the operations on the arena to each other.

use vstd::prelude::*;
use crate::collision::grabbed;
use crate::effects::attachable;
use crate::effects::attached;
use crate::effects::attached_at;
use crate::effects::despawned;
use crate::effects::detached;
use crate::effects::detached_at;
use crate::effects::fresh_aggregate;
use crate::effects::lemma_attached_wf;
use crate::effects::lemma_detached_wf;
use crate::effects::orphaned;
use crate::forest::climbs;
use crate::forest::Forest;
use crate::forest::in_subtree;
use crate::forest::is_root;
use crate::forest::lemma_tree_members;
use crate::forest::live;
use crate::forest::node;
use crate::forest::node_wf;
use crate::forest::Owner;
use crate::forest::PartId;
use crate::forest::wf_forest;

verus! {

/// At every moment the child list of a part has exactly one slot for each
/// hardpoint of the part's definition.
pub proof fn lemma_slots_match_hardpoints(w: Forest, id: PartId)
    requires
        wf_forest(w),
        live(w, id),
    ensures
        node(w, id).children.len() == node(w, id).def.hardpoints@.len(),
{
    assert(node_wf(w, id));
}

/// Whether a part stands below `a` depends only on the parent links of the
/// parts other than `a`.
pub proof fn lemma_climbs_same_links(w: Forest, v: Forest, a: PartId, n: PartId, k: nat)
    requires
        v.len() == w.len(),
        forall|m: PartId| live(v, m) == live(w, m),
        forall|m: PartId| live(w, m) && m != a ==> node(v, m).parent == node(w, m).parent,
    ensures
        climbs(v, n, a, k) == climbs(w, n, a, k),
    decreases k,
{
    if live(w, n) && n != a && k > 0 && node(w, n).parent is Some {
        lemma_climbs_same_links(w, v, a, node(w, n).parent.unwrap(), (k - 1) as nat);
    }
}

/// Taking a part off its parent does not change its subtree.
pub proof fn lemma_detached_same_subtree(w: Forest, part: PartId, n: PartId)
    requires
        live(w, part),
    ensures
        in_subtree(detached(w, part), part, n) == in_subtree(w, part, n),
{
    let v = detached(w, part);
    assert forall|k: nat| climbs(v, n, part, k) == climbs(w, n, part, k) by {
        lemma_climbs_same_links(w, v, part, n, k);
    }
    if in_subtree(w, part, n) {
        let k = choose|k: nat| climbs(w, n, part, k);
        assert(climbs(v, n, part, k));
    }
    if in_subtree(v, part, n) {
        let k = choose|k: nat| climbs(v, n, part, k);
        assert(climbs(w, n, part, k));
    }
}

/// Detaching is idempotent: to take a part off a second time changes nothing.
/// In particular, on a part that has just been detached, which is a root, the
/// operation only confirms the part as root with a fresh aggregate.
pub proof fn lemma_detach_idempotent(w: Forest, part: PartId)
    ensures
        detached(detached(w, part), part) == detached(w, part),
{
    if live(w, part) {
        let v = detached(w, part);
        let u = detached(v, part);
        assert(live(v, part));
        assert(u.len() == v.len());
        assert forall|i: int| 0 <= i < v.len() implies u[i] == v[i] by {
            lemma_detached_same_subtree(w, part, i as PartId);
            assert(v[i] == detached_at(w, part, i));
            assert(u[i] == detached_at(v, part, i));
            assert(node(v, part).parent is None);
            if w[i] is Some {
                assert(u[i].unwrap().children == v[i].unwrap().children);
            }
        }
        assert(u =~= v);
    }
}

/// In a forest in which `child` has just been mounted, the subtree of `child`
/// holds the parts that cached `child` as their root before.
pub proof fn lemma_attached_subtree(
    w: Forest,
    parent: PartId,
    child: PartId,
    hardpoint: usize,
    n: PartId,
)
    requires
        wf_forest(w),
        attachable(w, parent, child, hardpoint),
    ensures
        in_subtree(attached(w, parent, child, hardpoint), child, n) == (live(w, n) && node(
            w,
            n,
        ).tree_root == Some(child)),
{
    let a = attached(w, parent, child, hardpoint);
    assert forall|k: nat| climbs(a, n, child, k) == climbs(w, n, child, k) by {
        lemma_climbs_same_links(w, a, child, n, k);
    }
    lemma_tree_members(w, child);
    if in_subtree(w, child, n) {
        let k = choose|k: nat| climbs(w, n, child, k);
        assert(climbs(a, n, child, k));
    }
    if in_subtree(a, child, n) {
        let k = choose|k: nat| climbs(a, n, child, k);
        assert(climbs(w, n, child, k));
    }
}

/// Attaching a part and then detaching it restores the forest but for the
/// detached tree's owner, collision flags and aggregate: the parent's slot is
/// empty again, the part is again a root that caches itself, with a fresh
/// aggregate, and every part has the links and the cached root it had before.
pub proof fn lemma_attach_detach_round_trip(
    w: Forest,
    parent: PartId,
    child: PartId,
    hardpoint: usize,
)
    requires
        wf_forest(w),
        attachable(w, parent, child, hardpoint),
    ensures
        ({
            let v = detached(attached(w, parent, child, hardpoint), child);
            &&& wf_forest(v)
            &&& v.len() == w.len()
            &&& node(v, parent).children[hardpoint as int] is None
            &&& is_root(v, child)
            &&& node(v, child).tree_root == Some(child)
            &&& node(v, child).aggregate == Some(fresh_aggregate())
            &&& forall|n: PartId|
                #![trigger node(v, n)]
                live(w, n) ==> {
                    &&& live(v, n)
                    &&& node(v, n).children == node(w, n).children
                    &&& node(v, n).parent == node(w, n).parent
                    &&& node(v, n).joint == node(w, n).joint
                    &&& node(v, n).tree_root == node(w, n).tree_root
                    &&& node(v, n).def == node(w, n).def
                    &&& node(v, n).stats == node(w, n).stats
                    &&& node(v, n).weapon == node(w, n).weapon
                    &&& node(w, n).tree_root != Some(child) ==> node(v, n) == node(w, n)
                }
        }),
{
    let a = attached(w, parent, child, hardpoint);
    let v = detached(a, child);
    lemma_attached_wf(w, parent, child, hardpoint);
    lemma_detached_wf(a, child);
    assert(node_wf(w, child));
    assert(node_wf(w, parent));
    assert(live(a, child));
    assert(a[child as int] == attached_at(w, parent, child, hardpoint, child as int));
    assert(node(a, child).parent == Some(parent));
    assert(node(a, child).joint.unwrap().hardpoint == hardpoint);
    assert forall|n: PartId| #![trigger node(v, n)] live(w, n) implies {
        &&& live(v, n)
        &&& node(v, n).children == node(w, n).children
        &&& node(v, n).parent == node(w, n).parent
        &&& node(v, n).joint == node(w, n).joint
        &&& node(v, n).tree_root == node(w, n).tree_root
        &&& node(v, n).def == node(w, n).def
        &&& node(v, n).stats == node(w, n).stats
        &&& node(v, n).weapon == node(w, n).weapon
        &&& node(w, n).tree_root != Some(child) ==> node(v, n) == node(w, n)
    } by {
        lemma_attached_subtree(w, parent, child, hardpoint, n);
        assert(a[n as int] == attached_at(w, parent, child, hardpoint, n as int));
        assert(v[n as int] == detached_at(a, child, n as int));
        if n == parent {
            assert(node(v, n).children =~= node(w, n).children);
        }
        assert(node(v, n).children == node(w, n).children);
        if node(w, n).tree_root != Some(child) {
            assert(node(v, n).owner == node(w, n).owner);
            assert(node(v, n).collision_disabled == node(w, n).collision_disabled);
            assert(node(v, n).aggregate == node(w, n).aggregate);
            assert(node(v, n).size == node(w, n).size);
        }
    }
    assert(node(v, parent).children == node(w, parent).children);
}

/// While a part is held, no part of its subtree collides with bodies of other
/// trees, and every part of the subtree caches the held part as its root.
pub proof fn lemma_grabbed_subtree(w: Forest, part: PartId, n: PartId)
    requires
        live(w, part),
        in_subtree(w, part, n),
    ensures
        live(grabbed(w, part), n),
        node(grabbed(w, part), n).collision_disabled,
        node(grabbed(w, part), n).tree_root == Some(part),
        node(grabbed(w, part), part).parent is None,
{
    let d = detached(w, part);
    lemma_detached_same_subtree(w, part, n);
    let k = choose|k: nat| climbs(w, n, part, k);
    crate::forest::lemma_climbs_live(w, n, part, k);
    assert(d[n as int] == detached_at(w, part, n as int));
    assert(d[part as int] == detached_at(w, part, part as int));
    assert(climbs(d, part, part, 0));
}

/// What holds after the children in the first `k` slots of the root `part`
/// have been taken off it.
pub open spec fn orphans_hold(w: Forest, v: Forest, part: PartId, k: nat) -> bool {
    &&& wf_forest(v)
    &&& v.len() == w.len()
    &&& forall|x: PartId| #![trigger live(v, x)] live(v, x) == live(w, x)
    &&& is_root(v, part)
    &&& node(v, part).children.len() == node(w, part).children.len()
    &&& forall|j: int|
        0 <= j < node(w, part).children.len() ==> #[trigger] node(v, part).children[j] == if j < k {
            None
        } else {
            node(w, part).children[j]
        }
    &&& forall|j: int|
        0 <= j < k && j < node(w, part).children.len() && (#[trigger] node(w, part).children[j])
            is Some ==> {
            let c = node(w, part).children[j].unwrap();
            &&& is_root(v, c)
            &&& node(v, c).tree_root == Some(c)
            &&& node(v, c).aggregate == Some(fresh_aggregate())
            &&& node(v, c).owner == Owner::Neutral
        }
    &&& forall|x: PartId|
        #![trigger node(v, x)]
        live(w, x) ==> {
            &&& node(v, x).def == node(w, x).def
            &&& node(v, x).stats == node(w, x).stats
            &&& node(v, x).weapon == node(w, x).weapon
            &&& x != part ==> node(v, x).children == node(w, x).children
            &&& node(w, x).parent != Some(part) ==> node(v, x).parent == node(w, x).parent
        }
}

/// Taking the children off a root one after the other keeps `orphans_hold`.
proof fn lemma_orphaned_holds(w: Forest, part: PartId, k: nat)
    requires
        wf_forest(w),
        is_root(w, part),
        k <= node(w, part).children.len(),
    ensures
        orphans_hold(w, orphaned(w, part, k), part, k),
    decreases k,
{
    if k == 0 {
        assert(orphans_hold(w, w, part, 0));
    } else {
        lemma_orphaned_holds(w, part, (k - 1) as nat);
        let u = orphaned(w, part, (k - 1) as nat);
        let v = orphaned(w, part, k);
        assert(node(u, part).children[k - 1] == node(w, part).children[k - 1]);
        match node(u, part).children[k - 1] {
            Some(c) => {
                assert(node_wf(u, part));
                assert(live(u, c));
                assert(node_wf(u, c));
                assert(node(u, c).parent == Some(part));
                assert(node(u, c).joint.unwrap().hardpoint == k - 1);
                assert(c != part);
                lemma_detached_wf(u, c);
                assert(v == detached(u, c));
                assert(climbs(u, c, c, 0));
                assert forall|x: PartId| live(u, x) && node(u, x).parent is None && x != c implies !in_subtree(
                    u,
                    c,
                    x,
                ) by {
                    if in_subtree(u, c, x) {
                        let m = choose|m: nat| climbs(u, x, c, m);
                        assert(false);
                    }
                }
                assert forall|x: PartId| live(u, x) implies #[trigger] v[x as int] == detached_at(
                    u,
                    c,
                    x as int,
                ) by {}
                assert forall|x: PartId| #![trigger live(v, x)] live(v, x) == live(w, x) by {
                    assert(live(u, x) == live(w, x));
                    if x < u.len() {
                        assert(v[x as int] == detached_at(u, c, x as int));
                    }
                }
                assert(node(v, part).children =~= node(u, part).children.update(k - 1, None));
                assert forall|j: int|
                    0 <= j < k && j < node(w, part).children.len() && (#[trigger] node(
                        w,
                        part,
                    ).children[j]) is Some implies {
                    let b = node(w, part).children[j].unwrap();
                    &&& is_root(v, b)
                    &&& node(v, b).tree_root == Some(b)
                    &&& node(v, b).aggregate == Some(fresh_aggregate())
                    &&& node(v, b).owner == Owner::Neutral
                } by {
                    let b = node(w, part).children[j].unwrap();
                    if j < k - 1 {
                        assert(is_root(u, b));
                        assert(node_wf(w, part));
                        assert(node(w, b).joint.unwrap().hardpoint == j);
                        assert(b != c) by {
                            assert(node(w, c).joint.unwrap().hardpoint == k - 1);
                        }
                        assert(v[b as int] == detached_at(u, c, b as int));
                    } else {
                        assert(b == c);
                        assert(v[c as int] == detached_at(u, c, c as int));
                    }
                }
                assert forall|x: PartId| #![trigger node(v, x)] live(w, x) implies {
                    &&& node(v, x).def == node(w, x).def
                    &&& node(v, x).stats == node(w, x).stats
                    &&& node(v, x).weapon == node(w, x).weapon
                    &&& x != part ==> node(v, x).children == node(w, x).children
                    &&& node(w, x).parent != Some(part) ==> node(v, x).parent == node(w, x).parent
                } by {
                    assert(live(u, x));
                    assert(v[x as int] == detached_at(u, c, x as int));
                    assert(node(u, x).def == node(w, x).def);
                    if x == c {
                        assert(node(w, c).parent == Some(part)) by {
                            assert(node_wf(w, part));
                        }
                    }
                }
                assert(orphans_hold(w, v, part, k));
            },
            None => {
                assert(v == u);
                assert(orphans_hold(w, v, part, k));
            },
        }
    }
}

/// What removing a part does: the part leaves the arena, the slot of its
/// parent is empty, and each of its children stays, as a root that caches
/// itself, without owner and with a fresh aggregate. No other part loses or
/// gains a child, and no definition or statistic changes.
pub proof fn lemma_despawned_effect(w: Forest, part: PartId)
    requires
        wf_forest(w),
        live(w, part),
    ensures
        ({
            let v = despawned(w, part);
            &&& wf_forest(v)
            &&& v.len() == w.len()
            &&& !live(v, part)
            &&& forall|x: PartId| x != part ==> (#[trigger] live(v, x) == live(w, x))
            &&& node(w, part).parent matches Some(p) ==> node(v, p).children == node(
                w,
                p,
            ).children.update(node(w, part).joint.unwrap().hardpoint as int, None)
            &&& forall|j: int|
                0 <= j < node(w, part).children.len() && (#[trigger] node(w, part).children[j])
                    is Some ==> {
                    let c = node(w, part).children[j].unwrap();
                    &&& is_root(v, c)
                    &&& node(v, c).tree_root == Some(c)
                    &&& node(v, c).aggregate == Some(fresh_aggregate())
                    &&& node(v, c).owner == Owner::Neutral
                    &&& node(v, c).children == node(w, c).children
                }
            &&& forall|x: PartId|
                #![trigger node(v, x)]
                live(w, x) && x != part ==> {
                    &&& node(v, x).def == node(w, x).def
                    &&& node(v, x).stats == node(w, x).stats
                    &&& node(v, x).weapon == node(w, x).weapon
                    &&& node(w, x).parent != Some(part) ==> node(v, x).parent == node(w, x).parent
                    &&& node(w, part).parent != Some(x) ==> node(v, x).children == node(
                        w,
                        x,
                    ).children
                }
        }),
{
    let d = detached(w, part);
    let count = node(w, part).children.len();
    lemma_detached_wf(w, part);
    assert(climbs(w, part, part, 0));
    assert(d[part as int] == detached_at(w, part, part as int));
    assert(node_wf(w, part));
    assert forall|x: PartId| live(w, x) implies #[trigger] d[x as int] == detached_at(w, part, x as int) by {}
    if node(w, part).parent is Some {
        crate::effects::lemma_parent_outside_subtree(w, part);
        let p = node(w, part).parent.unwrap();
        assert(d[p as int] == detached_at(w, part, p as int));
    }
    lemma_orphaned_holds(d, part, count);
    let o = orphaned(d, part, count);
    let v = o.update(part as int, None);
    assert(v == despawned(w, part));
    crate::effects::lemma_removed_wf(o, part);
    assert forall|x: PartId| x != part implies (#[trigger] live(v, x) == live(w, x)) by {
        assert(live(o, x) == live(d, x));
        if x < w.len() {
            assert(d[x as int] == detached_at(w, part, x as int));
        }
    }
    assert forall|j: int|
        0 <= j < node(w, part).children.len() && (#[trigger] node(w, part).children[j])
            is Some implies {
        let c = node(w, part).children[j].unwrap();
        &&& is_root(v, c)
        &&& node(v, c).tree_root == Some(c)
        &&& node(v, c).aggregate == Some(fresh_aggregate())
        &&& node(v, c).owner == Owner::Neutral
        &&& node(v, c).children == node(w, c).children
    } by {
        let c = node(w, part).children[j].unwrap();
        assert(node(d, part).children[j] == Some(c));
        assert(live(w, c));
        assert(c != part);
        assert(node(o, c).children == node(d, c).children);
        assert(d[c as int] == detached_at(w, part, c as int));
        assert(node(w, part).parent != Some(c)) by {
            if node(w, part).parent == Some(c) {
                assert(node(w, c).parent == Some(part));
                let rank = choose|rank: Seq<nat>| crate::forest::ranked(w, rank);
                assert(live(w, c));
                assert(live(w, part));
            }
        }
    }
    assert forall|x: PartId| #![trigger node(v, x)] live(w, x) && x != part implies {
        &&& node(v, x).def == node(w, x).def
        &&& node(v, x).stats == node(w, x).stats
        &&& node(v, x).weapon == node(w, x).weapon
        &&& node(w, x).parent != Some(part) ==> node(v, x).parent == node(w, x).parent
        &&& node(w, part).parent != Some(x) ==> node(v, x).children == node(w, x).children
    } by {
        assert(d[x as int] == detached_at(w, part, x as int));
        assert(live(d, x));
        assert(node(o, x).def == node(d, x).def);
        assert(node(d, x).parent == node(w, x).parent);
    }
    if node(w, part).parent is Some {
        let p = node(w, part).parent.unwrap();
        assert(live(w, p));
        assert(p != part);
        assert(node(o, p).children == node(d, p).children);
    }
}

} // verus!
