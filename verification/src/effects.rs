//! What the operations on the arena do, as functions from forest to forest,
//! and the proofs that they keep a forest well formed.

use vstd::prelude::*;
use crate::forest::climbs;
use crate::forest::Forest;
use crate::forest::in_subtree;
use crate::forest::is_root;
use crate::forest::lemma_cached_root_reached;
use crate::forest::lemma_child_in_subtree;
use crate::forest::lemma_climbs_rank;
use crate::forest::lemma_parent_in_subtree;
use crate::forest::link_wf;
use crate::forest::live;
use crate::forest::node;
use crate::forest::node_wf;
use crate::forest::Owner;
use crate::forest::PartId;
use crate::forest::PartJoint;
use crate::forest::PartState;
use crate::forest::ranked;
use crate::forest::root_wf;
use crate::forest::slots_wf;
use crate::forest::wf_forest;
use crate::parts::Hardpoint;
use crate::parts::Part;
use crate::parts::PartDef;
use crate::stats::PartStats;

verus! {

/// The aggregate that a root carries before the first aggregation pass.
pub open spec fn fresh_aggregate() -> PartStats {
    PartStats { hp: 0, speed: None, acceleration: None, force: None }
}

/// Whether `s` is the state of a part that has just been made from `part` as
/// the root `id` of a tree of its own: no child, no parent, no owner, free to
/// collide, with the definition's statistics and a fresh aggregate.
pub open spec fn is_fresh_root(s: PartState, part: Part, id: PartId) -> bool {
    &&& s.def.same_as(part.def)
    &&& s.weapon == part.weapon
    &&& s.stats == part.def.stats
    &&& s.size == part.size
    &&& s.children == Seq::new(part.def.hardpoints@.len(), |k: int| None::<PartId>)
    &&& s.parent is None
    &&& s.joint is None
    &&& s.tree_root == Some(id)
    &&& !s.collision_disabled
    &&& s.owner == Owner::Neutral
    &&& s.aggregate == Some(fresh_aggregate())
}

/// Scalar product of two directions.
pub open spec fn dot(a: (i32, i32), b: (i32, i32)) -> int {
    a.0 * b.0 + a.1 * b.1
}

/// The joint that mounts a part of definition `child` on the hardpoint `point`,
/// which is slot `hardpoint` of its parent.
///
/// The part is placed so that its origin lies on the hardpoint and is turned
/// about the hardpoint until its forward direction is that of the hardpoint. A
/// part that must stay upright is flipped first where that turn is by more
/// than a quarter circle, which is where the two directions have a negative
/// scalar product.
pub open spec fn joint_at(point: Hardpoint, child: PartDef, hardpoint: usize) -> PartJoint {
    PartJoint {
        hardpoint,
        pivot: point.position,
        offset: (
            (point.position.0 - child.origin.0) as i64,
            (point.position.1 - child.origin.1) as i64,
        ),
        order: point.order,
        forward: child.direction,
        direction: point.direction,
        flip: child.upright_flag() && dot(child.direction, point.direction) < 0,
    }
}

/// The joint that mounts a part of definition `child` on slot `hardpoint` of a
/// part of definition `parent`.
pub open spec fn joint_for(parent: PartDef, child: PartDef, hardpoint: usize) -> PartJoint {
    joint_at(parent.hardpoints@[hardpoint as int], child, hardpoint)
}

/// Whether `child` can be mounted on slot `hardpoint` of `parent`: both are in
/// the arena, the slot exists and is empty, `child` is the root of a tree, and
/// `parent` does not stand in that tree.
pub open spec fn attachable(w: Forest, parent: PartId, child: PartId, hardpoint: usize) -> bool {
    &&& live(w, parent)
    &&& live(w, child)
    &&& hardpoint < node(w, parent).children.len()
    &&& node(w, parent).children[hardpoint as int] is None
    &&& node(w, child).parent is None
    &&& node(w, parent).tree_root != Some(child)
}

/// The entry `i` of the forest after `child` has been mounted on `parent`.
pub open spec fn attached_at(
    w: Forest,
    parent: PartId,
    child: PartId,
    hardpoint: usize,
    i: int,
) -> Option<PartState> {
    match w[i] {
        None => None,
        Some(s) => Some(
            PartState {
                children: if i == parent {
                    s.children.update(hardpoint as int, Some(child))
                } else {
                    s.children
                },
                parent: if i == child {
                    Some(parent)
                } else {
                    s.parent
                },
                joint: if i == child {
                    Some(joint_for(node(w, parent).def, s.def, hardpoint))
                } else {
                    s.joint
                },
                tree_root: if s.tree_root == Some(child) {
                    node(w, parent).tree_root
                } else {
                    s.tree_root
                },
                owner: if s.tree_root == Some(child) {
                    node(w, parent).owner
                } else {
                    s.owner
                },
                aggregate: if i == child {
                    None
                } else {
                    s.aggregate
                },
                ..s
            },
        ),
    }
}

/// The forest after `child`, with its whole tree, has been mounted on slot
/// `hardpoint` of `parent`: the slot names the child, the child has the parent
/// and a joint and no aggregate, and every part of the child's tree, which are
/// the parts that cached `child` as their root, has the root and the owner of
/// the parent's tree. Nothing else changes.
pub open spec fn attached(w: Forest, parent: PartId, child: PartId, hardpoint: usize) -> Forest {
    Seq::new(w.len(), |i: int| attached_at(w, parent, child, hardpoint, i))
}

/// After mounting, the slots of every part are as the invariant asks.
proof fn lemma_attached_slots(w: Forest, parent: PartId, child: PartId, hardpoint: usize, id: PartId)
    requires
        wf_forest(w),
        attachable(w, parent, child, hardpoint),
        live(w, id),
    ensures
        slots_wf(attached(w, parent, child, hardpoint), id),
{
    let v = attached(w, parent, child, hardpoint);
    assert(node_wf(w, id));
    let s = node(w, id);
    let t = node(v, id);
    assert(t.def == s.def);
    assert(t.children.len() == s.children.len());
    assert forall|k: int| 0 <= k < t.children.len() && (#[trigger] t.children[k]) is Some implies {
        let c = t.children[k].unwrap();
        &&& live(v, c)
        &&& node(v, c).parent == Some(id)
        &&& node(v, c).joint is Some
        &&& node(v, c).joint.unwrap().hardpoint == k
    } by {
        if id == parent && k == hardpoint {
            assert(t.children[k] == Some(child));
            assert(node(v, child).joint.unwrap().hardpoint == hardpoint);
        } else {
            assert(s.children[k] == t.children[k]);
            let c = s.children[k].unwrap();
            assert(live(w, c));
            assert(node(w, c).parent == Some(id));
            assert(c != child);
            assert(node(v, c).parent == node(w, c).parent);
            assert(node(v, c).joint == node(w, c).joint);
        }
    }
}

/// After mounting, the link of every part to its parent is as the invariant asks.
proof fn lemma_attached_link(w: Forest, parent: PartId, child: PartId, hardpoint: usize, id: PartId)
    requires
        wf_forest(w),
        attachable(w, parent, child, hardpoint),
        live(w, id),
    ensures
        link_wf(attached(w, parent, child, hardpoint), id),
{
    let v = attached(w, parent, child, hardpoint);
    assert(node_wf(w, id));
    assert(node_wf(w, parent));
    assert(node_wf(w, child));
    let s = node(w, id);
    let t = node(v, id);
    if id == child {
        assert(t.parent == Some(parent));
        assert(v[parent as int] == attached_at(w, parent, child, hardpoint, parent as int));
        assert(node(v, parent).children == node(w, parent).children.update(
            hardpoint as int,
            Some(child),
        ));
        assert(node(v, parent).children[hardpoint as int] == Some(child));
        assert(t.joint.unwrap().hardpoint == hardpoint);
        assert(node(w, parent).tree_root != Some(child));
        assert(node(v, parent).tree_root == node(w, parent).tree_root);
        assert(t.tree_root == node(w, parent).tree_root);
    } else {
        assert(t.parent == s.parent);
        assert(t.joint == s.joint);
        assert(t.aggregate == s.aggregate);
        match s.parent {
            Some(p) => {
                assert(live(w, p));
                let h = s.joint.unwrap().hardpoint as int;
                assert(node(w, p).children[h] == Some(id));
                if p == parent {
                    assert(h != hardpoint);
                }
                assert(node(v, p).children[h] == Some(id));
                assert(s.tree_root == node(w, p).tree_root);
            },
            None => {
                assert(s.tree_root == Some(id));
            },
        }
    }
}

/// After mounting, the cached root of every part is as the invariant asks.
proof fn lemma_attached_root(w: Forest, parent: PartId, child: PartId, hardpoint: usize, id: PartId)
    requires
        wf_forest(w),
        attachable(w, parent, child, hardpoint),
        live(w, id),
    ensures
        root_wf(attached(w, parent, child, hardpoint), id),
{
    let v = attached(w, parent, child, hardpoint);
    assert(node_wf(w, id));
    assert(node_wf(w, parent));
    assert(node_wf(w, child));
    let s = node(w, id);
    let t = node(v, id);
    let r = t.tree_root.unwrap();
    assert(r != child);
    assert(live(w, r));
    assert(node_wf(w, r));
    assert(node(w, r).tree_root == Some(r));
    assert(node(v, r).parent == node(w, r).parent);
    assert(node(v, r).owner == node(w, r).owner);
}

/// Mounting keeps a forest well formed.
pub proof fn lemma_attached_wf(w: Forest, parent: PartId, child: PartId, hardpoint: usize)
    requires
        wf_forest(w),
        attachable(w, parent, child, hardpoint),
    ensures
        wf_forest(attached(w, parent, child, hardpoint)),
{
    let v = attached(w, parent, child, hardpoint);
    let rank = choose|rank: Seq<nat>| ranked(w, rank);
    assert(node_wf(w, parent));
    assert(node_wf(w, child));
    let shift = rank[parent as int] + 1;
    let rank2 = Seq::new(
        w.len(),
        |i: int|
            if w[i] is Some && w[i].unwrap().tree_root == Some(child) {
                rank[i] + shift
            } else {
                rank[i]
            },
    );
    assert forall|id: PartId| live(v, id) implies #[trigger] node_wf(v, id) by {
        assert(live(w, id));
        lemma_attached_slots(w, parent, child, hardpoint, id);
        lemma_attached_link(w, parent, child, hardpoint, id);
        lemma_attached_root(w, parent, child, hardpoint, id);
    }
    assert(ranked(v, rank2)) by {
        assert forall|c: PartId| #[trigger] live(v, c) && node(v, c).parent is Some implies {
            let p = node(v, c).parent.unwrap();
            p < v.len() && rank2[p as int] < rank2[c as int]
        } by {
            assert(live(w, c));
            assert(node_wf(w, c));
            if c != child {
                let p = node(w, c).parent.unwrap();
                assert(live(w, p));
                assert(node(w, c).tree_root == node(w, p).tree_root);
            }
        }
    }
}

/// The entry `i` of the forest after the live part `part` has been taken off
/// its parent.
pub open spec fn detached_at(w: Forest, part: PartId, i: int) -> Option<PartState> {
    match w[i] {
        None => None,
        Some(s) => Some(
            PartState {
                children: if node(w, part).parent == Some(i as PartId) {
                    s.children.update(node(w, part).joint.unwrap().hardpoint as int, None)
                } else {
                    s.children
                },
                parent: if i == part {
                    None
                } else {
                    s.parent
                },
                joint: if i == part {
                    None
                } else {
                    s.joint
                },
                tree_root: if in_subtree(w, part, i as PartId) {
                    Some(part)
                } else {
                    s.tree_root
                },
                owner: if in_subtree(w, part, i as PartId) {
                    Owner::Neutral
                } else {
                    s.owner
                },
                collision_disabled: if in_subtree(w, part, i as PartId) {
                    false
                } else {
                    s.collision_disabled
                },
                aggregate: if i == part {
                    Some(fresh_aggregate())
                } else {
                    s.aggregate
                },
                ..s
            },
        ),
    }
}

/// The forest after `part` has been taken off its parent: the parent's slot is
/// empty, `part` has no parent and no joint and is the root of its subtree
/// with a fresh aggregate, and every part of that subtree caches `part` as its
/// root, has no owner and is free to collide. Nothing else changes. A part
/// that is not in the arena leaves the forest as it is.
pub open spec fn detached(w: Forest, part: PartId) -> Forest {
    if live(w, part) {
        Seq::new(w.len(), |i: int| detached_at(w, part, i))
    } else {
        w
    }
}

/// The parent of a part does not stand in the part's subtree.
pub proof fn lemma_parent_outside_subtree(w: Forest, part: PartId)
    requires
        wf_forest(w),
        live(w, part),
        node(w, part).parent is Some,
    ensures
        !in_subtree(w, part, node(w, part).parent.unwrap()),
{
    let p = node(w, part).parent.unwrap();
    let rank = choose|rank: Seq<nat>| ranked(w, rank);
    if in_subtree(w, part, p) {
        let k = choose|k: nat| climbs(w, p, part, k);
        if p != part {
            lemma_climbs_rank(w, rank, p, part, k);
        }
        assert(live(w, part));
        assert(false);
    }
}

/// After detaching, the slots of every part are as the invariant asks.
proof fn lemma_detached_slots(w: Forest, part: PartId, id: PartId)
    requires
        wf_forest(w),
        live(w, part),
        live(w, id),
    ensures
        slots_wf(detached(w, part), id),
{
    let v = detached(w, part);
    assert(node_wf(w, id));
    assert(node_wf(w, part));
    let s = node(w, id);
    let t = node(v, id);
    assert(t.def == s.def);
    assert(t.children.len() == s.children.len());
    assert forall|k: int| 0 <= k < t.children.len() && (#[trigger] t.children[k]) is Some implies {
        let c = t.children[k].unwrap();
        &&& live(v, c)
        &&& node(v, c).parent == Some(id)
        &&& node(v, c).joint is Some
        &&& node(v, c).joint.unwrap().hardpoint == k
    } by {
        assert(s.children[k] == t.children[k]);
        let c = s.children[k].unwrap();
        assert(live(w, c));
        assert(node(w, c).parent == Some(id));
        assert(node(w, c).joint.unwrap().hardpoint == k);
        assert(c != part);
        assert(node(v, c).parent == node(w, c).parent);
        assert(node(v, c).joint == node(w, c).joint);
    }
}

/// After detaching, the link of every part to its parent is as the invariant asks.
proof fn lemma_detached_link(w: Forest, part: PartId, id: PartId)
    requires
        wf_forest(w),
        live(w, part),
        live(w, id),
    ensures
        link_wf(detached(w, part), id),
{
    let v = detached(w, part);
    assert(node_wf(w, id));
    assert(node_wf(w, part));
    assert(climbs(w, part, part, 0));
    let s = node(w, id);
    let t = node(v, id);
    if id == part {
        assert(t.parent is None);
        assert(t.tree_root == Some(part));
    } else {
        assert(t.parent == s.parent);
        assert(t.joint == s.joint);
        assert(t.aggregate == s.aggregate);
        match s.parent {
            Some(p) => {
                assert(live(w, p));
                let h = s.joint.unwrap().hardpoint as int;
                assert(node(w, p).children[h] == Some(id));
                assert(node(v, p).children[h] == Some(id));
                assert(s.tree_root == node(w, p).tree_root);
                if in_subtree(w, part, id) {
                    lemma_parent_in_subtree(w, part, id);
                } else if in_subtree(w, part, p) {
                    lemma_child_in_subtree(w, part, p, id);
                }
                assert(t.tree_root == node(v, p).tree_root);
            },
            None => {
                assert(s.tree_root == Some(id));
                if in_subtree(w, part, id) {
                    lemma_parent_in_subtree(w, part, id);
                }
            },
        }
    }
}

/// After detaching, the cached root of every part is as the invariant asks.
proof fn lemma_detached_root(w: Forest, part: PartId, id: PartId)
    requires
        wf_forest(w),
        live(w, part),
        live(w, id),
    ensures
        root_wf(detached(w, part), id),
{
    let v = detached(w, part);
    let rank = choose|rank: Seq<nat>| ranked(w, rank);
    assert(node_wf(w, id));
    assert(node_wf(w, part));
    assert(climbs(w, part, part, 0));
    let s = node(w, id);
    let t = node(v, id);
    if in_subtree(w, part, id) {
        assert(t.tree_root == Some(part));
        assert(node(v, part).parent is None);
        assert(node(v, part).owner == Owner::Neutral);
    } else {
        let r = s.tree_root.unwrap();
        assert(t.tree_root == Some(r));
        assert(live(w, r));
        assert(node(w, r).parent is None);
        if in_subtree(w, part, r) {
            if r != part {
                lemma_parent_in_subtree(w, part, r);
            }
            lemma_cached_root_reached(w, rank, r, id);
            assert(false);
        }
        assert(node(v, r).parent is None);
        assert(node(v, r).owner == node(w, r).owner);
    }
}

/// Taking a part off its parent keeps a forest well formed.
pub proof fn lemma_detached_wf(w: Forest, part: PartId)
    requires
        wf_forest(w),
    ensures
        wf_forest(detached(w, part)),
{
    if live(w, part) {
        let v = detached(w, part);
        let rank = choose|rank: Seq<nat>| ranked(w, rank);
        assert forall|id: PartId| live(v, id) implies #[trigger] node_wf(v, id) by {
            assert(live(w, id));
            lemma_detached_slots(w, part, id);
            lemma_detached_link(w, part, id);
            lemma_detached_root(w, part, id);
        }
        assert(ranked(v, rank)) by {
            assert forall|c: PartId| #[trigger] live(v, c) && node(v, c).parent is Some implies {
                let p = node(v, c).parent.unwrap();
                p < v.len() && rank[p as int] < rank[c as int]
            } by {
                assert(live(w, c));
                assert(node(v, c).parent == node(w, c).parent);
            }
        }
    }
}

/// The forest after the children in the first `k` slots of `part` have been
/// taken off it, one after the other.
pub open spec fn orphaned(w: Forest, part: PartId, k: nat) -> Forest
    decreases k,
{
    if k == 0 {
        w
    } else {
        let before = orphaned(w, part, (k - 1) as nat);
        match node(before, part).children[k - 1] {
            Some(child) => detached(before, child),
            None => before,
        }
    }
}

/// The forest after `part` has been removed: it is taken off its parent, each
/// of its children is taken off it and so becomes the root of its own subtree,
/// and then the part itself leaves the arena. The children are not removed.
pub open spec fn despawned(w: Forest, part: PartId) -> Forest {
    if live(w, part) {
        orphaned(detached(w, part), part, node(w, part).children.len()).update(part as int, None)
    } else {
        w
    }
}

/// Only a root caches itself: where a root has no child, no other part caches
/// it.
pub proof fn lemma_lonely_root(w: Forest, rank: Seq<nat>, part: PartId, n: PartId)
    requires
        wf_forest(w),
        ranked(w, rank),
        is_root(w, part),
        forall|k: int| 0 <= k < node(w, part).children.len() ==> node(w, part).children[k] is None,
        live(w, n),
        node(w, n).tree_root == Some(part),
    ensures
        n == part,
    decreases rank[n as int],
{
    assert(node_wf(w, n));
    if n != part {
        let p = node(w, n).parent.unwrap();
        assert(live(w, n));
        lemma_lonely_root(w, rank, part, p);
    }
}

/// A root without children can leave a well-formed forest.
pub proof fn lemma_removed_wf(w: Forest, part: PartId)
    requires
        wf_forest(w),
        is_root(w, part),
        forall|k: int| 0 <= k < node(w, part).children.len() ==> node(w, part).children[k] is None,
    ensures
        wf_forest(w.update(part as int, None)),
{
    let v = w.update(part as int, None);
    let rank = choose|rank: Seq<nat>| ranked(w, rank);
    assert forall|id: PartId| live(v, id) implies #[trigger] node_wf(v, id) by {
        assert(live(w, id));
        assert(node_wf(w, id));
        assert(node_wf(w, part));
        let s = node(w, id);
        assert(node(v, id) == s);
        assert forall|k: int| 0 <= k < s.children.len() && (#[trigger] s.children[k]) is Some implies {
            let c = s.children[k].unwrap();
            &&& live(v, c)
            &&& node(v, c).parent == Some(id)
            &&& node(v, c).joint is Some
            &&& node(v, c).joint.unwrap().hardpoint == k
        } by {
            let c = s.children[k].unwrap();
            assert(live(w, c));
            assert(c != part);
        }
        match s.parent {
            Some(p) => {
                assert(live(w, p));
                assert(p != part);
            },
            None => {},
        }
        let r = s.tree_root.unwrap();
        if r == part {
            lemma_lonely_root(w, rank, part, id);
        }
        assert(node(v, r) == node(w, r));
    }
    assert(ranked(v, rank)) by {
        assert forall|c: PartId| #[trigger] live(v, c) && node(v, c).parent is Some implies {
            let p = node(v, c).parent.unwrap();
            p < v.len() && rank[p as int] < rank[c as int]
        } by {
            assert(live(w, c));
        }
    }
}

/// The state `slot` with the cached root and owner of `tag`, if there is one,
/// and the collision flag `collision`, if there is one.
pub open spec fn patched(
    slot: Option<PartState>,
    tag: Option<(Option<PartId>, Owner)>,
    collision: Option<bool>,
) -> Option<PartState> {
    match slot {
        None => None,
        Some(s) => Some(
            PartState {
                tree_root: match tag {
                    Some(t) => t.0,
                    None => s.tree_root,
                },
                owner: match tag {
                    Some(t) => t.1,
                    None => s.owner,
                },
                collision_disabled: match collision {
                    Some(flag) => flag,
                    None => s.collision_disabled,
                },
                ..s
            },
        ),
    }
}

/// The forest after the tree of the root `root` has been given to `owner`. A
/// handle that names no root leaves the forest as it is: an owner belongs to a
/// whole tree.
pub open spec fn owned(w: Forest, root: PartId, owner: Owner) -> Forest {
    if is_root(w, root) {
        Seq::new(
            w.len(),
            |i: int|
                if w[i] is Some && w[i].unwrap().tree_root == Some(root) {
                    patched(w[i], Some((Some(root), owner)), None)
                } else {
                    w[i]
                },
        )
    } else {
        w
    }
}

/// Giving a tree to an owner keeps a forest well formed.
pub proof fn lemma_owned_wf(w: Forest, root: PartId, owner: Owner)
    requires
        wf_forest(w),
    ensures
        wf_forest(owned(w, root, owner)),
{
    if is_root(w, root) {
        let v = owned(w, root, owner);
        let rank = choose|rank: Seq<nat>| ranked(w, rank);
        assert forall|id: PartId| live(v, id) implies #[trigger] node_wf(v, id) by {
            assert(live(w, id));
            assert(node_wf(w, id));
            let s = node(w, id);
            let t = node(v, id);
            assert(t.children == s.children);
            assert forall|k: int|
                0 <= k < t.children.len() && (#[trigger] t.children[k]) is Some implies {
                let c = t.children[k].unwrap();
                &&& live(v, c)
                &&& node(v, c).parent == Some(id)
                &&& node(v, c).joint is Some
                &&& node(v, c).joint.unwrap().hardpoint == k
            } by {
                let c = s.children[k].unwrap();
                assert(live(w, c));
            }
            match s.parent {
                Some(p) => {
                    assert(live(w, p));
                    assert(node(v, p).children == node(w, p).children);
                    assert(node(v, p).tree_root == node(w, p).tree_root);
                },
                None => {},
            }
            let r = s.tree_root.unwrap();
            assert(node_wf(w, r));
            assert(node(v, r).parent == node(w, r).parent);
        }
        assert(ranked(v, rank)) by {
            assert forall|c: PartId| #[trigger] live(v, c) && node(v, c).parent is Some implies {
                let p = node(v, c).parent.unwrap();
                p < v.len() && rank[p as int] < rank[c as int]
            } by {
                assert(live(w, c));
            }
        }
    }
}

/// The forest after the collision flag of every part of the subtree of `part`
/// has been set to `disabled`.
pub open spec fn collision_set(w: Forest, part: PartId, disabled: bool) -> Forest {
    Seq::new(
        w.len(),
        |i: int|
            if in_subtree(w, part, i as PartId) {
                patched(w[i], None, Some(disabled))
            } else {
                w[i]
            },
    )
}

/// A forest stays well formed under changes that keep the links, the cached
/// roots, the owners, the definitions and the presence of aggregates, and keep
/// the statistics in the range of a single part.
pub proof fn lemma_same_structure_wf(w: Forest, v: Forest)
    requires
        wf_forest(w),
        v.len() == w.len(),
        forall|i: int| 0 <= i < w.len() ==> (#[trigger] v[i] is Some <==> w[i] is Some),
        forall|i: int|
            0 <= i < w.len() && w[i] is Some ==> {
                let s = w[i].unwrap();
                let t = (#[trigger] v[i]).unwrap();
                &&& t.def == s.def
                &&& t.children == s.children
                &&& t.parent == s.parent
                &&& t.joint == s.joint
                &&& t.tree_root == s.tree_root
                &&& t.owner == s.owner
                &&& (t.aggregate is Some <==> s.aggregate is Some)
                &&& s.stats.part_sized() ==> t.stats.part_sized()
            },
    ensures
        wf_forest(v),
{
    let rank = choose|rank: Seq<nat>| ranked(w, rank);
    assert forall|id: PartId| live(v, id) implies #[trigger] node_wf(v, id) by {
        assert(v[id as int] is Some);
        assert(live(w, id));
        assert(node_wf(w, id));
        let s = node(w, id);
        let t = node(v, id);
        assert forall|k: int| 0 <= k < t.children.len() && (#[trigger] t.children[k]) is Some implies {
            let c = t.children[k].unwrap();
            &&& live(v, c)
            &&& node(v, c).parent == Some(id)
            &&& node(v, c).joint is Some
            &&& node(v, c).joint.unwrap().hardpoint == k
        } by {
            let c = s.children[k].unwrap();
            assert(live(w, c));
            assert(v[c as int] is Some);
        }
        match s.parent {
            Some(p) => {
                assert(live(w, p));
                assert(v[p as int] is Some);
            },
            None => {},
        }
        let r = s.tree_root.unwrap();
        assert(live(w, r));
        assert(v[r as int] is Some);
    }
    assert(ranked(v, rank)) by {
        assert forall|c: PartId| #[trigger] live(v, c) && node(v, c).parent is Some implies {
            let p = node(v, c).parent.unwrap();
            p < v.len() && rank[p as int] < rank[c as int]
        } by {
            assert(v[c as int] is Some);
            assert(live(w, c));
        }
    }
}

/// Whether `made` is the forest `w` with one more part: the fresh root `id`
/// made from `part`.
pub open spec fn is_made(w: Forest, made: Forest, part: Part, id: PartId) -> bool {
    &&& id == w.len()
    &&& made.len() == id + 1
    &&& made.take(id as int) == w
    &&& live(made, id)
    &&& is_fresh_root(node(made, id), part, id)
}

/// The forest after the fresh root `id` of `made` has been mounted on slot
/// `hardpoint` of `parent` or, where that cannot be, has been given to `owner`
/// if there is one.
pub open spec fn mounted_or_loose(
    made: Forest,
    parent: PartId,
    id: PartId,
    hardpoint: usize,
    owner: Option<Owner>,
) -> Forest {
    if attachable(made, parent, id, hardpoint) {
        attached(made, parent, id, hardpoint)
    } else {
        match owner {
            Some(o) => owned(made, id, o),
            None => made,
        }
    }
}

/// Whether `v` is the forest `w` after a part made from `part` has got the
/// handle `id` and has been mounted on slot `hardpoint` of `parent`, or stays
/// a root where that cannot be.
pub open spec fn spawned_on(
    w: Forest,
    v: Forest,
    parent: PartId,
    part: Part,
    hardpoint: usize,
    owner: Option<Owner>,
    id: PartId,
) -> bool {
    exists|made: Forest| #[trigger]
        is_made(w, made, part, id) && v == mounted_or_loose(made, parent, id, hardpoint, owner)
}

/// What a part that is made and mounted changes: the arena grows by the part,
/// and of the parts that were there only the parent can change, and of it only
/// the slot, which then names the new part.
pub proof fn lemma_spawned_on_frame(
    w: Forest,
    v: Forest,
    parent: PartId,
    part: Part,
    hardpoint: usize,
    owner: Option<Owner>,
    id: PartId,
)
    requires
        wf_forest(w),
        spawned_on(w, v, parent, part, hardpoint, owner, id),
    ensures
        id == w.len(),
        v.len() == w.len() + 1,
        live(v, id),
        node(v, id).def.same_as(part.def),
        node(v, id).children.len() == part.def.hardpoints@.len(),
        forall|n: PartId| n < w.len() && n != parent ==> #[trigger] v[n as int] == w[n as int],
        forall|n: PartId| n < w.len() ==> (#[trigger] live(v, n) <==> live(w, n)),
        live(w, parent) ==> {
            &&& node(v, parent).def == node(w, parent).def
            &&& node(v, parent).stats == node(w, parent).stats
            &&& node(v, parent).weapon == node(w, parent).weapon
            &&& node(v, parent).parent == node(w, parent).parent
            &&& node(v, parent).tree_root == node(w, parent).tree_root
            &&& node(v, parent).owner == node(w, parent).owner
            &&& node(v, parent).children.len() == node(w, parent).children.len()
        },
{
    let made = choose|made: Forest| #[trigger]
        is_made(w, made, part, id) && v == mounted_or_loose(made, parent, id, hardpoint, owner);
    assert forall|n: PartId| n < w.len() implies #[trigger] made[n as int] == w[n as int] by {
        assert(made.take(id as int)[n as int] == made[n as int]);
    }
    assert forall|n: PartId| n < w.len() && live(w, n) implies node(w, n).tree_root != Some(id) by {
        assert(node_wf(w, n));
    }
    assert forall|n: PartId| n < w.len() && n != parent implies #[trigger] v[n as int] == w[n as int] by {
        assert(made[n as int] == w[n as int]);
        if live(w, n) {
            assert(node(w, n).tree_root != Some(id));
        }
    }
    assert forall|n: PartId| n < w.len() implies (#[trigger] live(v, n) <==> live(w, n)) by {
        assert(made[n as int] == w[n as int]);
    }
    if live(w, parent) {
        assert(made[parent as int] == w[parent as int]);
        assert(node(w, parent).tree_root != Some(id));
    }
}

/// Whether slot `hardpoint` of `parent` is open: the part is in the arena, and
/// the slot exists and is empty.
pub open spec fn point_open(w: Forest, parent: PartId, hardpoint: usize) -> bool {
    &&& live(w, parent)
    &&& hardpoint < node(w, parent).children.len()
    &&& node(w, parent).children[hardpoint as int] is None
}

/// Where a part that is made ends up: on an open slot it is mounted, so that
/// the slot names it and it belongs to the tree of the parent; where the slot
/// is not open it stays a root, with the owner given, and nothing else
/// changes. Either way all its own slots are empty.
pub proof fn lemma_spawned_on_mount(
    w: Forest,
    v: Forest,
    parent: PartId,
    part: Part,
    hardpoint: usize,
    owner: Option<Owner>,
    id: PartId,
)
    requires
        wf_forest(w),
        spawned_on(w, v, parent, part, hardpoint, owner, id),
    ensures
        live(v, id),
        node(v, id).children == Seq::new(part.def.hardpoints@.len(), |k: int| None::<PartId>),
        point_open(w, parent, hardpoint) ==> {
            &&& node(v, id).parent == Some(parent)
            &&& node(v, id).tree_root == node(w, parent).tree_root
            &&& node(v, parent).children == node(w, parent).children.update(
                hardpoint as int,
                Some(id),
            )
        },
        !point_open(w, parent, hardpoint) ==> {
            &&& node(v, id).parent is None
            &&& node(v, id).tree_root == Some(id)
            &&& parent < w.len() ==> v[parent as int] == w[parent as int]
            &&& owner matches Some(o) ==> node(v, id).owner == o
        },
{
    let made = choose|made: Forest| #[trigger]
        is_made(w, made, part, id) && v == mounted_or_loose(made, parent, id, hardpoint, owner);
    assert forall|n: PartId| n < w.len() implies #[trigger] made[n as int] == w[n as int] by {
        assert(made.take(id as int)[n as int] == made[n as int]);
    }
    assert forall|n: PartId| n < w.len() && live(w, n) implies node(w, n).tree_root != Some(id) by {
        assert(node_wf(w, n));
    }
    if point_open(w, parent, hardpoint) {
        assert(made[parent as int] == w[parent as int]);
        assert(node(w, parent).tree_root != Some(id));
        assert(attachable(made, parent, id, hardpoint));
        assert(v[id as int] == attached_at(made, parent, id, hardpoint, id as int));
        assert(v[parent as int] == attached_at(made, parent, id, hardpoint, parent as int));
    } else {
        if parent < w.len() {
            assert(made[parent as int] == w[parent as int]);
            if live(w, parent) {
                assert(node(w, parent).tree_root != Some(id));
            }
        }
        assert(!attachable(made, parent, id, hardpoint));
    }
}

} // verus!
