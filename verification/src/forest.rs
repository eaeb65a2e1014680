//! The mathematical model of the arena: a forest of part states, what makes it
//! well formed, and what it means for one part to stand below another.

use vstd::prelude::*;
use crate::parts::Order;
use crate::parts::PartDef;
use crate::parts::PartWeapon;
use crate::stats::PartStats;

verus! {

/// Handle of a part: its index in the arena. A handle is never given out twice.
pub type PartId = usize;

/// The arena holds at most this many parts, live or removed.
pub const MAX_PARTS: usize = 0x4000_0000;

/// The faction that a tree of parts belongs to.
#[derive(Clone, Copy, Debug, PartialEq, Eq, Structural)]
pub enum Owner {
    Neutral,
    Player,
    Enemy,
}

/// The rigid joint that holds a part on a hardpoint of its parent. Contacts
/// between the two bodies of a joint are disabled.
#[derive(Clone, Copy, Debug, PartialEq, Eq)]
pub struct PartJoint {
    /// The slot of the parent that the part occupies.
    pub hardpoint: usize,
    /// The position of the hardpoint, about which the part is turned.
    pub pivot: (i32, i32),
    /// The part's position relative to its parent before it is turned: the
    /// hardpoint's position less the part's origin.
    pub offset: (i64, i64),
    /// Whether the part lies above or below its parent.
    pub order: Order,
    /// The part's own forward direction.
    pub forward: (i32, i32),
    /// The direction of the hardpoint, onto which `forward` is turned.
    pub direction: (i32, i32),
    /// Whether the part is first turned by a half circle about the up axis.
    pub flip: bool,
}

/// The mathematical value of one live part.
pub ghost struct PartState {
    pub def: PartDef,
    pub weapon: Option<PartWeapon>,
    pub stats: PartStats,
    pub size: (u32, u32),
    pub children: Seq<Option<PartId>>,
    pub parent: Option<PartId>,
    pub joint: Option<PartJoint>,
    pub tree_root: Option<PartId>,
    pub collision_disabled: bool,
    pub owner: Owner,
    pub aggregate: Option<PartStats>,
}

/// The mathematical value of the arena: one entry per handle given out so far,
/// `None` where the part has been removed.
pub type Forest = Seq<Option<PartState>>;

/// Whether `id` names a part that is in the arena.
pub open spec fn live(w: Forest, id: PartId) -> bool {
    id < w.len() && w[id as int] is Some
}

/// The state of the live part `id`.
pub open spec fn node(w: Forest, id: PartId) -> PartState {
    w[id as int].unwrap()
}

/// Whether `id` is the root of a tree: a live part without a parent.
pub open spec fn is_root(w: Forest, id: PartId) -> bool {
    live(w, id) && node(w, id).parent is None
}

/// Whether `n` reaches `a` in at most `k` steps from a part to its parent.
pub open spec fn climbs(w: Forest, n: PartId, a: PartId, k: nat) -> bool
    decreases k,
{
    live(w, n) && (n == a || (k > 0 && node(w, n).parent is Some && climbs(
        w,
        node(w, n).parent.unwrap(),
        a,
        (k - 1) as nat,
    )))
}

/// Whether `n` belongs to the subtree of `a`: `a` itself or a part below it.
pub open spec fn in_subtree(w: Forest, a: PartId, n: PartId) -> bool {
    exists|k: nat| climbs(w, n, a, k)
}

/// Whether `rank` grows strictly from every parent to its child, which rules
/// out cycles.
pub open spec fn ranked(w: Forest, rank: Seq<nat>) -> bool {
    &&& rank.len() == w.len()
    &&& forall|c: PartId| #[trigger]
        live(w, c) && node(w, c).parent is Some ==> {
            let p = node(w, c).parent.unwrap();
            p < w.len() && rank[p as int] < rank[c as int]
        }
}

/// Every slot of `id` that names a child names a live part whose parent is
/// `id` and whose joint records the slot; there is one slot per hardpoint.
pub open spec fn slots_wf(w: Forest, id: PartId) -> bool {
    let s = node(w, id);
    &&& s.children.len() == s.def.hardpoints@.len()
    &&& forall|k: int|
        0 <= k < s.children.len() && (#[trigger] s.children[k]) is Some ==> {
            let c = s.children[k].unwrap();
            &&& live(w, c)
            &&& node(w, c).parent == Some(id)
            &&& node(w, c).joint is Some
            &&& node(w, c).joint.unwrap().hardpoint == k
        }
}

/// A part with a parent occupies the slot that its joint records, caches the
/// root that its parent caches and has no aggregate; a part without a parent
/// has no joint, caches itself and has an aggregate.
pub open spec fn link_wf(w: Forest, id: PartId) -> bool {
    let s = node(w, id);
    match s.parent {
        Some(p) => {
            &&& live(w, p)
            &&& s.joint is Some
            &&& s.joint.unwrap().hardpoint < node(w, p).children.len()
            &&& node(w, p).children[s.joint.unwrap().hardpoint as int] == Some(id)
            &&& s.tree_root == node(w, p).tree_root
            &&& s.aggregate is None
        },
        None => {
            &&& s.joint is None
            &&& s.tree_root == Some(id)
            &&& s.aggregate is Some
        },
    }
}

/// The cached root of a part is a root and has the part's owner, and the
/// part's statistics are those of a single part.
pub open spec fn root_wf(w: Forest, id: PartId) -> bool {
    let s = node(w, id);
    &&& s.stats.part_sized()
    &&& s.tree_root is Some
    &&& is_root(w, s.tree_root.unwrap())
    &&& s.owner == node(w, s.tree_root.unwrap()).owner
}

/// What holds of every live part of a well-formed forest.
pub open spec fn node_wf(w: Forest, id: PartId) -> bool {
    &&& slots_wf(w, id)
    &&& link_wf(w, id)
    &&& root_wf(w, id)
}

/// The invariant of the arena.
///
/// * The child list of a part has one slot per hardpoint of its definition.
/// * A slot that names a child and the child's parent link agree, and the
///   child's joint records the slot.
/// * A part has a parent, and a joint, exactly if it is not a root; exactly the
///   roots carry an aggregate.
/// * Every part caches the root of its tree, a root caches itself, and a tree
///   has one owner.
/// * No part is its own ancestor.
pub open spec fn wf_forest(w: Forest) -> bool {
    &&& w.len() <= MAX_PARTS
    &&& forall|id: PartId| live(w, id) ==> #[trigger] node_wf(w, id)
    &&& exists|rank: Seq<nat>| ranked(w, rank)
}

/// A subtree holds live parts only, and its top is one of them.
pub proof fn lemma_climbs_live(w: Forest, n: PartId, a: PartId, k: nat)
    requires
        climbs(w, n, a, k),
    ensures
        live(w, n),
        live(w, a),
    decreases k,
{
    if n != a {
        lemma_climbs_live(w, node(w, n).parent.unwrap(), a, (k - 1) as nat);
    }
}

/// The child of a member of a subtree is a member.
pub proof fn lemma_child_in_subtree(w: Forest, a: PartId, p: PartId, c: PartId)
    requires
        in_subtree(w, a, p),
        live(w, c),
        node(w, c).parent == Some(p),
    ensures
        in_subtree(w, a, c),
{
    let k = choose|k: nat| climbs(w, p, a, k);
    assert(climbs(w, c, a, k + 1));
}

/// A member of a subtree other than its top has its parent in the subtree.
pub proof fn lemma_parent_in_subtree(w: Forest, a: PartId, n: PartId)
    requires
        in_subtree(w, a, n),
        n != a,
    ensures
        node(w, n).parent is Some,
        in_subtree(w, a, node(w, n).parent.unwrap()),
{
    let k = choose|k: nat| climbs(w, n, a, k);
    assert(climbs(w, node(w, n).parent.unwrap(), a, (k - 1) as nat));
}

/// Rank grows strictly from the top of a subtree to each other member.
pub proof fn lemma_climbs_rank(w: Forest, rank: Seq<nat>, n: PartId, a: PartId, k: nat)
    requires
        ranked(w, rank),
        climbs(w, n, a, k),
        n != a,
    ensures
        rank[a as int] < rank[n as int],
    decreases k,
{
    let p = node(w, n).parent.unwrap();
    assert(live(w, n));
    if p != a {
        lemma_climbs_rank(w, rank, p, a, (k - 1) as nat);
    }
}

/// The cached root of a part is the root of the tree that the part stands in:
/// every member of the subtree of a root caches that root.
pub proof fn lemma_subtree_caches_root(w: Forest, r: PartId, n: PartId, k: nat)
    requires
        wf_forest(w),
        is_root(w, r),
        climbs(w, n, r, k),
    ensures
        node(w, n).tree_root == Some(r),
    decreases k,
{
    assert(live(w, n));
    assert(node_wf(w, n));
    if n != r {
        lemma_subtree_caches_root(w, r, node(w, n).parent.unwrap(), (k - 1) as nat);
    }
}

/// Conversely, a part that caches the root `r` stands in the subtree of `r`.
pub proof fn lemma_cached_root_reached(w: Forest, rank: Seq<nat>, r: PartId, n: PartId)
    requires
        wf_forest(w),
        ranked(w, rank),
        live(w, n),
        node(w, n).tree_root == Some(r),
    ensures
        is_root(w, r),
        in_subtree(w, r, n),
    decreases rank[n as int],
{
    assert(node_wf(w, n));
    match node(w, n).parent {
        Some(p) => {
            assert(live(w, p));
            assert(node_wf(w, p));
            lemma_cached_root_reached(w, rank, r, p);
            lemma_child_in_subtree(w, r, p, n);
        },
        None => {
            assert(climbs(w, n, r, 0));
        },
    }
}

/// In a well-formed forest the parts that cache a root are exactly the
/// members of its subtree.
pub proof fn lemma_tree_members(w: Forest, r: PartId)
    requires
        wf_forest(w),
        is_root(w, r),
    ensures
        forall|n: PartId|
            #![trigger in_subtree(w, r, n)]
            in_subtree(w, r, n) <==> (live(w, n) && node(w, n).tree_root == Some(r)),
{
    let rank = choose|rank: Seq<nat>| ranked(w, rank);
    assert forall|n: PartId| #![trigger in_subtree(w, r, n)] in_subtree(w, r, n) <==> (live(w, n)
        && node(w, n).tree_root == Some(r)) by {
        if in_subtree(w, r, n) {
            let k = choose|k: nat| climbs(w, n, r, k);
            lemma_climbs_live(w, n, r, k);
            lemma_subtree_caches_root(w, r, n, k);
        }
        if live(w, n) && node(w, n).tree_root == Some(r) {
            lemma_cached_root_reached(w, rank, r, n);
        }
    }
}

/// Every part of a well-formed forest caches the root that it reaches by
/// climbing from parent to parent.
pub proof fn lemma_tree_root_is_root_ancestor(w: Forest, n: PartId)
    requires
        wf_forest(w),
        live(w, n),
    ensures
        node(w, n).children.len() == node(w, n).def.hardpoints@.len(),
        node(w, n).tree_root is Some,
        is_root(w, node(w, n).tree_root.unwrap()),
        in_subtree(w, node(w, n).tree_root.unwrap(), n),
        node(w, node(w, n).tree_root.unwrap()).tree_root == node(w, n).tree_root,
{
    let rank = choose|rank: Seq<nat>| ranked(w, rank);
    assert(node_wf(w, n));
    let r = node(w, n).tree_root.unwrap();
    lemma_cached_root_reached(w, rank, r, n);
    assert(node_wf(w, r));
}

} // verus!
