//! The arena of live parts and the forest of trees that they form.

use vstd::prelude::*;
use crate::effects::attachable;
use crate::effects::attached;
use crate::effects::collision_set;
use crate::effects::despawned;
use crate::effects::detached;
use crate::effects::detached_at;
use crate::effects::dot;
use crate::effects::fresh_aggregate;
use crate::effects::is_made;
use crate::effects::joint_at;
use crate::effects::lemma_attached_wf;
use crate::effects::lemma_detached_wf;
use crate::effects::lemma_owned_wf;
use crate::effects::lemma_removed_wf;
use crate::effects::lemma_same_structure_wf;
use crate::effects::mounted_or_loose;
use crate::effects::orphaned;
use crate::effects::owned;
use crate::effects::patched;
use crate::effects::spawned_on;
use crate::forest::climbs;
use crate::forest::Forest;
use crate::forest::in_subtree;
use crate::forest::is_root;
use crate::forest::lemma_child_in_subtree;
use crate::forest::lemma_climbs_live;
use crate::forest::lemma_climbs_rank;
use crate::forest::lemma_tree_members;
use crate::forest::live;
use crate::forest::MAX_PARTS;
use crate::forest::node;
use crate::forest::node_wf;
use crate::forest::Owner;
use crate::forest::PartId;
use crate::forest::PartJoint;
use crate::forest::PartState;
use crate::forest::ranked;
use crate::forest::wf_forest;
use crate::parts::Hardpoint;
use crate::parts::Part;
use crate::parts::PartDef;
use crate::parts::PartWeapon;
use crate::stats::MAX_PART_HP;
use crate::stats::PartStats;

verus! {

/// What the contact filter reads of a body.
#[derive(Clone, Copy, Debug, PartialEq, Eq)]
pub struct CustomPhysicsData {
    pub part_tree_root: Option<PartId>,
    pub disable_collision: bool,
}

/// The aggregate that a tree root carries.
#[derive(Clone, Copy, Debug, PartialEq, Eq)]
pub struct PartTreeRoot {
    pub cumulative_stats: PartStats,
}

/// The weapon state of a live part.
#[derive(Clone, Copy, Debug, PartialEq, Eq)]
pub struct PartInfo {
    pub weapon: Option<PartWeapon>,
}

/// Everything that belongs to one live part.
#[derive(Debug, PartialEq, Eq)]
pub struct PartBundle {
    pub def: PartDef,
    pub info: PartInfo,
    pub stats: PartStats,
    pub size: (u32, u32),
    pub part_children: Vec<Option<PartId>>,
    pub part_parent: Option<PartId>,
    pub joint: Option<PartJoint>,
    pub custom_data: CustomPhysicsData,
    pub owner: Owner,
    pub tree_root: Option<PartTreeRoot>,
}

impl View for PartBundle {
    type V = PartState;

    open spec fn view(&self) -> PartState {
        PartState {
            def: self.def,
            weapon: self.info.weapon,
            stats: self.stats,
            size: self.size,
            children: self.part_children@,
            parent: self.part_parent,
            joint: self.joint,
            tree_root: self.custom_data.part_tree_root,
            collision_disabled: self.custom_data.disable_collision,
            owner: self.owner,
            aggregate: match self.tree_root {
                Some(root) => Some(root.cumulative_stats),
                None => None,
            },
        }
    }
}

/// The arena of parts.
pub struct PartWorld {
    parts: Vec<Option<PartBundle>>,
}

/// The mathematical value of one entry of the arena.
pub open spec fn lift(slot: Option<PartBundle>) -> Option<PartState> {
    match slot {
        Some(bundle) => Some(bundle@),
        None => None,
    }
}

impl View for PartWorld {
    type V = Forest;

    closed spec fn view(&self) -> Forest {
        Seq::new(self.parts@.len(), |i: int| lift(self.parts@[i]))
    }
}

impl PartBundle {
    /// The bundle of a part made from `part`: every slot empty, no parent, no
    /// owner, free to collide, and not yet the root of a tree.
    pub fn new(part: &Part) -> (bundle: PartBundle)
        ensures
            bundle@.def.same_as(part.def),
            bundle@.weapon == part.weapon,
            bundle@.stats == part.def.stats,
            bundle@.size == part.size,
            bundle@.children == Seq::new(part.def.hardpoints@.len(), |k: int| None::<PartId>),
            bundle@.parent is None,
            bundle@.joint is None,
            bundle@.tree_root is None,
            !bundle@.collision_disabled,
            bundle@.owner == Owner::Neutral,
            bundle@.aggregate is None,
    {
        let def = part.def.duplicate();
        let mut children: Vec<Option<PartId>> = Vec::new();
        let mut k: usize = 0;
        while k < def.hardpoints.len()
            invariant
                k <= def.hardpoints@.len(),
                children@ == Seq::new(k as nat, |k: int| None::<PartId>),
            decreases def.hardpoints@.len() - k,
        {
            children.push(None);
            k += 1;
        }
        PartBundle {
            def,
            info: PartInfo { weapon: part.weapon },
            stats: part.def.stats,
            size: part.size,
            part_children: children,
            part_parent: None,
            joint: None,
            custom_data: CustomPhysicsData { part_tree_root: None, disable_collision: false },
            owner: Owner::Neutral,
            tree_root: None,
        }
    }
}

impl Default for PartTreeRoot {
    /// The aggregate of a tree that has not been summed up yet.
    fn default() -> (root: PartTreeRoot)
        ensures
            root.cumulative_stats == fresh_aggregate(),
    {
        PartTreeRoot {
            cumulative_stats: PartStats { hp: 0, speed: None, acceleration: None, force: None },
        }
    }
}

/// Whether two directions have a negative scalar product.
fn points_away(a: (i32, i32), b: (i32, i32)) -> (away: bool)
    ensures
        away == (dot(a, b) < 0),
{
    let ax = a.0 as i128;
    let ay = a.1 as i128;
    let bx = b.0 as i128;
    let by = b.1 as i128;
    assert(-0x4000_0000_0000_0000 <= ax * bx <= 0x4000_0000_0000_0000) by (nonlinear_arith)
        requires
            -0x8000_0000 <= ax <= 0x7fff_ffff,
            -0x8000_0000 <= bx <= 0x7fff_ffff,
    ;
    assert(-0x4000_0000_0000_0000 <= ay * by <= 0x4000_0000_0000_0000) by (nonlinear_arith)
        requires
            -0x8000_0000 <= ay <= 0x7fff_ffff,
            -0x8000_0000 <= by <= 0x7fff_ffff,
    ;
    ax * bx + ay * by < 0
}

/// Computes the joint that mounts a part of definition `child` on the
/// hardpoint `point`, which is slot `hardpoint` of its parent.
fn make_joint(point: Hardpoint, child: &PartDef, hardpoint: usize) -> (joint: PartJoint)
    ensures
        joint == joint_at(point, *child, hardpoint),
{
    let away = points_away(child.direction, point.direction);
    PartJoint {
        hardpoint,
        pivot: point.position,
        offset: (
            point.position.0 as i64 - child.origin.0 as i64,
            point.position.1 as i64 - child.origin.1 as i64,
        ),
        order: point.order,
        forward: child.direction,
        direction: point.direction,
        flip: child.stays_upright() && away,
    }
}

/// A set of handles below `n` has at most `n` members.
proof fn lemma_bounded_set_len(s: Set<PartId>, n: nat)
    requires
        s.finite(),
        forall|x: PartId| s.contains(x) ==> x < n,
    ensures
        s.len() <= n,
    decreases n,
{
    if n == 0 {
        assert(s =~= Set::empty());
    } else {
        let m = (n - 1) as PartId;
        if s.contains(m) {
            lemma_bounded_set_len(s.remove(m), (n - 1) as nat);
        } else {
            lemma_bounded_set_len(s, (n - 1) as nat);
        }
    }
}

/// What a sequence without duplicates holds once its last item is dropped.
proof fn lemma_drop_last_contains(s: Seq<PartId>)
    requires
        s.len() > 0,
        s.no_duplicates(),
    ensures
        s.drop_last().no_duplicates(),
        forall|x: PartId|
            #![trigger s.drop_last().contains(x)]
            s.drop_last().contains(x) <==> (s.contains(x) && x != s.last()),
{
    let t = s.drop_last();
    assert forall|x: PartId| #![trigger t.contains(x)] t.contains(x) <==> (s.contains(x) && x
        != s.last()) by {
        if t.contains(x) {
            let i = choose|i: int| 0 <= i < t.len() && t[i] == x;
            assert(s[i] == x);
        }
        if s.contains(x) && x != s.last() {
            let i = choose|i: int| 0 <= i < s.len() && s[i] == x;
            assert(t[i] == x);
        }
    }
}

/// What a sequence holds once an item is appended.
proof fn lemma_push_contains(s: Seq<PartId>, v: PartId)
    ensures
        forall|x: PartId|
            #![trigger s.push(v).contains(x)]
            s.push(v).contains(x) <==> (s.contains(x) || x == v),
        s.no_duplicates() && !s.contains(v) ==> s.push(v).no_duplicates(),
{
    let t = s.push(v);
    assert forall|x: PartId| #![trigger t.contains(x)] t.contains(x) <==> (s.contains(x) || x
        == v) by {
        if s.contains(x) {
            let i = choose|i: int| 0 <= i < s.len() && s[i] == x;
            assert(t[i] == x);
        }
        if x == v {
            assert(t[s.len() as int] == v);
        }
        if t.contains(x) {
            let i = choose|i: int| 0 <= i < t.len() && t[i] == x;
            if i < s.len() {
                assert(s[i] == x);
            }
        }
    }
    if s.no_duplicates() && !s.contains(v) {
        assert forall|i: int, j: int| 0 <= i < t.len() && 0 <= j < t.len() && i != j implies t[i]
            != t[j] by {
            if i < s.len() {
                assert(s[i] == t[i]);
            }
            if j < s.len() {
                assert(s[j] == t[j]);
            }
        }
    }
}

/// A set that holds the top of a subtree and, with each part, the part's
/// children holds the whole subtree.
proof fn lemma_closed_covers(w: Forest, start: PartId, visited: Set<PartId>, n: PartId, k: nat)
    requires
        wf_forest(w),
        visited.contains(start),
        forall|p: PartId, j: int|
            visited.contains(p) && 0 <= j < node(w, p).children.len() && (#[trigger] node(
                w,
                p,
            ).children[j]) is Some ==> visited.contains(node(w, p).children[j].unwrap()),
        climbs(w, n, start, k),
    ensures
        visited.contains(n),
    decreases k,
{
    if n != start {
        let p = node(w, n).parent.unwrap();
        lemma_closed_covers(w, start, visited, p, (k - 1) as nat);
        assert(live(w, n));
        assert(node_wf(w, n));
        let j = node(w, n).joint.unwrap().hardpoint as int;
        assert(node(w, p).children[j] == Some(n));
    }
}

impl PartWorld {
    /// Whether the arena satisfies its invariant.
    pub open spec fn wf(&self) -> bool {
        wf_forest(self@)
    }

    /// An arena without parts.
    pub fn new() -> (world: PartWorld)
        ensures
            world@.len() == 0,
            world.wf(),
    {
        let world = PartWorld { parts: Vec::new() };
        proof {
            assert(ranked(world@, Seq::<nat>::empty()));
        }
        world
    }

    /// The number of handles given out so far.
    pub fn len(&self) -> (n: usize)
        ensures
            n == self@.len(),
    {
        self.parts.len()
    }

    /// Whether `id` names a part that is in the arena.
    pub fn is_live(&self, id: PartId) -> (alive: bool)
        ensures
            alive == live(self@, id),
    {
        id < self.parts.len() && self.parts[id].is_some()
    }

    /// The part `id`, if it is in the arena.
    pub fn get(&self, id: PartId) -> (bundle: Option<&PartBundle>)
        ensures
            match bundle {
                Some(b) => live(self@, id) && b@ == node(self@, id),
                None => !live(self@, id),
            },
    {
        if id < self.parts.len() {
            self.parts[id].as_ref()
        } else {
            None
        }
    }

    /// Makes a part from `part` and puts it into the arena as the root of a
    /// tree of its own. Returns its handle, or `None`, with the arena
    /// unchanged, if the arena is full or the statistics of `part` are out of
    /// the range of a single part.
    pub fn spawn_part(&mut self, part: &Part) -> (spawned: Option<PartId>)
        requires
            old(self).wf(),
        ensures
            final(self).wf(),
            spawned is Some <==> old(self)@.len() < MAX_PARTS && part.def.stats.part_sized(),
            spawned is None ==> final(self)@ == old(self)@,
            spawned matches Some(id) ==> is_made(old(self)@, final(self)@, *part, id),
    {
        if self.parts.len() >= MAX_PARTS || !part.def.stats.is_part_sized() {
            return None;
        }
        let id = self.parts.len();
        let mut bundle = PartBundle::new(part);
        bundle.custom_data.part_tree_root = Some(id);
        bundle.tree_root = Some(PartTreeRoot::default());
        let ghost w = self@;
        let ghost rank = choose|rank: Seq<nat>| ranked(w, rank);
        self.parts.push(Some(bundle));
        proof {
            let v = self@;
            assert(v.take(id as int) =~= w);
            assert forall|n: PartId| live(v, n) implies #[trigger] node_wf(v, n) by {
                if n < id {
                    assert(live(w, n));
                    assert(node_wf(w, n));
                    assert(v[n as int] == w[n as int]);
                    let r = node(w, n).tree_root.unwrap();
                    assert(v[r as int] == w[r as int]);
                    match node(w, n).parent {
                        Some(p) => {
                            assert(v[p as int] == w[p as int]);
                        },
                        None => {},
                    }
                    assert forall|k: int|
                        0 <= k < node(v, n).children.len() && (#[trigger] node(v, n).children[k])
                            is Some implies {
                        let c = node(v, n).children[k].unwrap();
                        &&& live(v, c)
                        &&& node(v, c).parent == Some(n)
                        &&& node(v, c).joint is Some
                        &&& node(v, c).joint.unwrap().hardpoint == k
                    } by {
                        let c = node(w, n).children[k].unwrap();
                        assert(live(w, c));
                        assert(v[c as int] == w[c as int]);
                    }
                }
            }
            assert(ranked(v, rank.push(0))) by {
                assert forall|c: PartId| #[trigger]
                    live(v, c) && node(v, c).parent is Some implies {
                    let p = node(v, c).parent.unwrap();
                    p < v.len() && rank.push(0)[p as int] < rank.push(0)[c as int]
                } by {
                    assert(c < id);
                    assert(v[c as int] == w[c as int]);
                    assert(live(w, c));
                }
            }
        }
        Some(id)
    }

    /// Gives every part named in `ids` the cached root and owner of `tag`, if
    /// there is one, and the collision flag `collision`, if there is one.
    fn patch_members(
        &mut self,
        ids: &Vec<PartId>,
        tag: Option<(Option<PartId>, Owner)>,
        collision: Option<bool>,
    )
        requires
            forall|t: int| 0 <= t < ids@.len() ==> live(old(self)@, #[trigger] ids@[t]),
        ensures
            final(self)@.len() == old(self)@.len(),
            forall|i: PartId|
                i < old(self)@.len() ==> #[trigger] final(self)@[i as int] == if ids@.contains(i) {
                    patched(old(self)@[i as int], tag, collision)
                } else {
                    old(self)@[i as int]
                },
    {
        let ghost w = self@;
        let mut t: usize = 0;
        while t < ids.len()
            invariant
                t <= ids@.len(),
                self@.len() == w.len(),
                forall|t: int| 0 <= t < ids@.len() ==> live(w, #[trigger] ids@[t]),
                forall|i: PartId|
                    i < w.len() ==> #[trigger] self@[i as int] == if exists|u: int|
                        0 <= u < t && ids@[u] == i {
                        patched(w[i as int], tag, collision)
                    } else {
                        w[i as int]
                    },
            decreases ids@.len() - t,
        {
            let id = ids[t];
            let ghost before = self@;
            assert(live(w, ids@[t as int]));
            match &mut self.parts[id] {
                Some(bundle) => {
                    match tag {
                        Some(pair) => {
                            bundle.custom_data.part_tree_root = pair.0;
                            bundle.owner = pair.1;
                        },
                        None => {},
                    }
                    match collision {
                        Some(flag) => {
                            bundle.custom_data.disable_collision = flag;
                        },
                        None => {},
                    }
                },
                None => {},
            }
            proof {
                assert(self@ =~= before.update(
                    id as int,
                    patched(before[id as int], tag, collision),
                ));
                assert forall|i: PartId| i < w.len() implies #[trigger] self@[i as int] == if exists|
                    u: int,
                |
                    0 <= u < t + 1 && ids@[u] == i {
                    patched(w[i as int], tag, collision)
                } else {
                    w[i as int]
                } by {
                    if i == id {
                        assert(ids@[t as int] == i);
                    } else {
                        if exists|u: int| 0 <= u < t + 1 && ids@[u] == i {
                            let u = choose|u: int| 0 <= u < t + 1 && ids@[u] == i;
                            assert(u < t);
                        }
                    }
                }
            }
            t += 1;
        }
    }

    /// Mounts the root `part`, with its whole tree, on slot `hardpoint` of
    /// `parent`. Returns whether it did; where it cannot, nothing changes.
    pub fn attach_part(&mut self, parent: PartId, part: PartId, hardpoint: usize) -> (done: bool)
        requires
            old(self).wf(),
        ensures
            final(self).wf(),
            done == attachable(old(self)@, parent, part, hardpoint),
            final(self)@ == if done {
                attached(old(self)@, parent, part, hardpoint)
            } else {
                old(self)@
            },
    {
        let ghost w = self@;
        if !self.is_live(parent) || !self.is_live(part) {
            return false;
        }
        let (point, root, owner) = match &self.parts[parent] {
            Some(bundle) => {
                proof {
                    assert(bundle@ == node(w, parent));
                    assert(node_wf(w, parent));
                }
                if hardpoint >= bundle.part_children.len() {
                    return false;
                }
                if bundle.part_children[hardpoint].is_some() {
                    return false;
                }
                if bundle.custom_data.part_tree_root == Some(part) {
                    return false;
                }
                (bundle.def.hardpoints[hardpoint], bundle.custom_data.part_tree_root, bundle.owner)
            },
            None => {
                return false;
            },
        };
        let joint = match &self.parts[part] {
            Some(bundle) => {
                proof {
                    assert(bundle@ == node(w, part));
                }
                if bundle.part_parent.is_some() {
                    return false;
                }
                make_joint(point, &bundle.def, hardpoint)
            },
            None => {
                return false;
            },
        };
        let ids = self.subtree(part);
        proof {
            lemma_tree_members(w, part);
            assert forall|t: int| 0 <= t < ids@.len() implies live(w, #[trigger] ids@[t]) by {
                assert(ids@.contains(ids@[t]));
            }
        }
        self.patch_members(&ids, Some((root, owner)), None);
        let ghost mid = self@;
        proof {
            assert(mid[parent as int] is Some);
            assert(mid[part as int] is Some);
            assert(mid[parent as int].unwrap().children == node(w, parent).children);
        }
        match &mut self.parts[part] {
            Some(bundle) => {
                bundle.part_parent = Some(parent);
                bundle.joint = Some(joint);
                bundle.tree_root = None;
            },
            None => {},
        }
        match &mut self.parts[parent] {
            Some(bundle) => {
                bundle.part_children.set(hardpoint, Some(part));
            },
            None => {},
        }
        proof {
            let v = attached(w, parent, part, hardpoint);
            assert(node_wf(w, part));
            assert(node_wf(w, parent));
            assert(self@.len() == v.len());
            assert forall|i: int| 0 <= i < w.len() implies self@[i] == v[i] by {
                let n = i as PartId;
                assert(mid[n as int] == if ids@.contains(n) {
                    patched(w[n as int], Some((root, owner)), None)
                } else {
                    w[n as int]
                });
                assert(ids@.contains(n) <==> in_subtree(w, part, n));
                if n == part {
                } else if n == parent {
                    assert(self@[i].unwrap().children =~= v[i].unwrap().children);
                } else {
                }
            }
            assert(self@ =~= v);
            lemma_attached_wf(w, parent, part, hardpoint);
        }
        true
    }

    /// Takes `part` off its parent, together with its subtree.
    ///
    /// The parent's slot is emptied and the joint is removed. `part` becomes
    /// the root of its subtree and gets a fresh aggregate; every part of the
    /// subtree loses its owner and may collide again. On a root only the
    /// latter happens. A handle that names no part changes nothing.
    pub fn detach_part(&mut self, part: PartId)
        requires
            old(self).wf(),
        ensures
            final(self).wf(),
            final(self)@ == detached(old(self)@, part),
    {
        let ghost w = self@;
        if !self.is_live(part) {
            return ;
        }
        let ids = self.subtree(part);
        let link = match &self.parts[part] {
            Some(bundle) => {
                proof {
                    assert(bundle@ == node(w, part));
                    assert(node_wf(w, part));
                }
                match (bundle.part_parent, bundle.joint) {
                    (Some(parent), Some(joint)) => Some((parent, joint.hardpoint)),
                    _ => None,
                }
            },
            None => None,
        };
        proof {
            assert forall|t: int| 0 <= t < ids@.len() implies live(w, #[trigger] ids@[t]) by {
                assert(ids@.contains(ids@[t]));
                let k = choose|k: nat| climbs(w, ids@[t], part, k);
                lemma_climbs_live(w, ids@[t], part, k);
            }
        }
        match link {
            Some((parent, hardpoint)) => {
                match &mut self.parts[parent] {
                    Some(bundle) => {
                        bundle.part_children.set(hardpoint, None);
                    },
                    None => {},
                }
            },
            None => {},
        }
        let ghost cut = self@;
        proof {
            assert(cut.len() == w.len());
            assert forall|t: int| 0 <= t < ids@.len() implies live(cut, #[trigger] ids@[t]) by {
                assert(live(w, ids@[t]));
            }
        }
        self.patch_members(&ids, Some((Some(part), Owner::Neutral)), Some(false));
        let ghost mid = self@;
        proof {
            assert(mid[part as int] is Some);
        }
        match &mut self.parts[part] {
            Some(bundle) => {
                bundle.part_parent = None;
                bundle.joint = None;
                bundle.tree_root = Some(PartTreeRoot::default());
            },
            None => {},
        }
        proof {
            let v = detached(w, part);
            assert(self@.len() == v.len());
            assert(climbs(w, part, part, 0));
            assert forall|i: int| 0 <= i < w.len() implies self@[i] == v[i] by {
                let n = i as PartId;
                assert(mid[n as int] == if ids@.contains(n) {
                    patched(cut[n as int], Some((Some(part), Owner::Neutral)), Some(false))
                } else {
                    cut[n as int]
                });
                assert(ids@.contains(n) <==> in_subtree(w, part, n));
                if w[i] is Some && node(w, part).parent == Some(n) {
                    assert(self@[i].unwrap().children =~= v[i].unwrap().children);
                }
            }
            assert(self@ =~= v);
            lemma_detached_wf(w, part);
        }
    }

    /// Removes `part` from the arena. The part is first taken off its parent;
    /// its children are taken off it and stay in the arena, each as the root
    /// of its own subtree. A handle that names no part changes nothing.
    pub fn despawn_part(&mut self, part: PartId)
        requires
            old(self).wf(),
        ensures
            final(self).wf(),
            final(self)@ == despawned(old(self)@, part),
    {
        let ghost w = self@;
        if !self.is_live(part) {
            return ;
        }
        self.detach_part(part);
        let ghost base = self@;
        let slots = match &self.parts[part] {
            Some(bundle) => bundle.part_children.len(),
            None => 0,
        };
        proof {
            assert(climbs(w, part, part, 0));
            assert(node(base, part).children.len() == node(w, part).children.len());
        }
        let mut k: usize = 0;
        while k < slots
            invariant
                k <= slots,
                self.wf(),
                is_root(self@, part),
                slots == node(self@, part).children.len(),
                self@ == orphaned(base, part, k as nat),
                forall|j: int| 0 <= j < k ==> node(self@, part).children[j] is None,
            decreases slots - k,
        {
            let ghost before = self@;
            let child = match &self.parts[part] {
                Some(bundle) => bundle.part_children[k],
                None => None,
            };
            match child {
                Some(c) => {
                    proof {
                        assert(node_wf(before, part));
                        assert(node(before, part).children[k as int] == Some(c));
                        assert(live(before, c));
                        assert(node(before, c).parent == Some(part));
                        assert(climbs(before, c, c, 0));
                    }
                    self.detach_part(c);
                    proof {
                        assert(self@[part as int] == detached_at(before, c, part as int));
                    }
                },
                None => {},
            }
            k += 1;
        }
        let ghost done = self@;
        self.parts.set(part, None);
        proof {
            assert(self@ =~= done.update(part as int, None));
            lemma_removed_wf(done, part);
        }
    }

    /// Makes a part from `part` and mounts it on slot `hardpoint` of `parent`.
    ///
    /// The part is made as the root of a tree of its own, owned by `owner` if
    /// one is given. Where it cannot be mounted it stays that root. Returns the
    /// handle of the part, or `None` if it could not be made.
    pub fn spawn_part_on_hardpoint(
        &mut self,
        parent: PartId,
        part: &Part,
        hardpoint: usize,
        owner: Option<Owner>,
    ) -> (spawned: Option<PartId>)
        requires
            old(self).wf(),
        ensures
            final(self).wf(),
            spawned is Some <==> old(self)@.len() < MAX_PARTS && part.def.stats.part_sized(),
            spawned is None ==> final(self)@ == old(self)@,
            spawned matches Some(id) ==> spawned_on(
                old(self)@,
                final(self)@,
                parent,
                *part,
                hardpoint,
                owner,
                id,
            ),
    {
        let ghost w = self@;
        match self.spawn_part(part) {
            Some(id) => {
                let ghost made = self@;
                if !self.attach_part(parent, id, hardpoint) {
                    match owner {
                        Some(o) => {
                            self.set_owner(id, o);
                        },
                        None => {},
                    }
                }
                proof {
                    assert(is_made(w, made, *part, id));
                    assert(self@ == mounted_or_loose(made, parent, id, hardpoint, owner));
                }
                Some(id)
            },
            None => None,
        }
    }

    /// Gives the tree of the root `root` to `owner`. A handle that names no
    /// root changes nothing.
    pub fn set_owner(&mut self, root: PartId, owner: Owner)
        requires
            old(self).wf(),
        ensures
            final(self).wf(),
            final(self)@ == owned(old(self)@, root, owner),
    {
        let ghost w = self@;
        let is_root = match self.get(root) {
            Some(bundle) => bundle.part_parent.is_none(),
            None => false,
        };
        if !is_root {
            return ;
        }
        let ids = self.subtree(root);
        proof {
            lemma_tree_members(w, root);
            assert forall|t: int| 0 <= t < ids@.len() implies live(w, #[trigger] ids@[t]) by {
                assert(ids@.contains(ids@[t]));
            }
        }
        self.patch_members(&ids, Some((Some(root), owner)), None);
        proof {
            let v = owned(w, root, owner);
            assert forall|i: int| 0 <= i < w.len() implies self@[i] == v[i] by {
                let n = i as PartId;
                assert(self@[n as int] == if ids@.contains(n) {
                    patched(w[n as int], Some((Some(root), owner)), None)
                } else {
                    w[n as int]
                });
                assert(ids@.contains(n) <==> in_subtree(w, root, n));
            }
            assert(self@ =~= v);
            lemma_owned_wf(w, root, owner);
        }
    }

    /// Lets every part of the subtree of `part` collide (`collision` set) or
    /// not collide with bodies of other trees.
    pub fn set_collision(&mut self, part: PartId, collision: bool)
        requires
            old(self).wf(),
        ensures
            final(self).wf(),
            final(self)@ == collision_set(old(self)@, part, !collision),
    {
        let ghost w = self@;
        let ids = self.subtree(part);
        proof {
            assert forall|t: int| 0 <= t < ids@.len() implies live(w, #[trigger] ids@[t]) by {
                assert(ids@.contains(ids@[t]));
                let k = choose|k: nat| climbs(w, ids@[t], part, k);
                lemma_climbs_live(w, ids@[t], part, k);
            }
        }
        self.patch_members(&ids, None, Some(!collision));
        proof {
            let v = collision_set(w, part, !collision);
            assert forall|i: int| 0 <= i < w.len() implies self@[i] == v[i] by {
                let n = i as PartId;
                assert(self@[n as int] == if ids@.contains(n) {
                    patched(w[n as int], None, Some(!collision))
                } else {
                    w[n as int]
                });
                assert(ids@.contains(n) <==> in_subtree(w, part, n));
            }
            assert(self@ =~= v);
            lemma_same_structure_wf(w, v);
        }
    }

    /// Stores `stats` as the aggregate of the root `root`. Returns whether it
    /// did: a handle that names no root changes nothing.
    pub fn set_cumulative_stats(&mut self, root: PartId, stats: PartStats) -> (done: bool)
        requires
            old(self).wf(),
        ensures
            final(self).wf(),
            done == is_root(old(self)@, root),
            final(self)@ == if done {
                old(self)@.update(
                    root as int,
                    Some(PartState { aggregate: Some(stats), ..node(old(self)@, root) }),
                )
            } else {
                old(self)@
            },
    {
        let ghost w = self@;
        let is_root = match self.get(root) {
            Some(bundle) => bundle.part_parent.is_none(),
            None => false,
        };
        if !is_root {
            return false;
        }
        match &mut self.parts[root] {
            Some(bundle) => {
                bundle.tree_root = Some(PartTreeRoot { cumulative_stats: stats });
            },
            None => {},
        }
        proof {
            assert(node_wf(w, root));
            assert(self@ =~= w.update(
                root as int,
                Some(PartState { aggregate: Some(stats), ..node(w, root) }),
            ));
            lemma_same_structure_wf(w, self@);
        }
        true
    }

    /// Stores `weapon` as the weapon state of the part `id`. Returns whether
    /// it did: a handle that names no part changes nothing.
    pub fn set_weapon(&mut self, id: PartId, weapon: Option<PartWeapon>) -> (done: bool)
        requires
            old(self).wf(),
        ensures
            final(self).wf(),
            done == live(old(self)@, id),
            final(self)@ == if done {
                old(self)@.update(id as int, Some(PartState { weapon, ..node(old(self)@, id) }))
            } else {
                old(self)@
            },
    {
        let ghost w = self@;
        if !self.is_live(id) {
            return false;
        }
        match &mut self.parts[id] {
            Some(bundle) => {
                bundle.info.weapon = weapon;
            },
            None => {},
        }
        proof {
            assert(node_wf(w, id));
            assert(self@ =~= w.update(id as int, Some(PartState { weapon, ..node(w, id) })));
            lemma_same_structure_wf(w, self@);
        }
        true
    }

    /// Stores `hp` as the hit points of the part `id`. Returns whether it did:
    /// a handle that names no part, or more hit points than a single part may
    /// carry, changes nothing.
    pub fn set_hp(&mut self, id: PartId, hp: u64) -> (done: bool)
        requires
            old(self).wf(),
        ensures
            final(self).wf(),
            done == (live(old(self)@, id) && hp <= MAX_PART_HP),
            final(self)@ == if done {
                old(self)@.update(
                    id as int,
                    Some(
                        PartState {
                            stats: PartStats { hp, ..node(old(self)@, id).stats },
                            ..node(old(self)@, id)
                        },
                    ),
                )
            } else {
                old(self)@
            },
    {
        let ghost w = self@;
        if !self.is_live(id) || hp > MAX_PART_HP {
            return false;
        }
        match &mut self.parts[id] {
            Some(bundle) => {
                bundle.stats.hp = hp;
            },
            None => {},
        }
        proof {
            assert(node_wf(w, id));
            assert(self@ =~= w.update(
                id as int,
                Some(PartState { stats: PartStats { hp, ..node(w, id).stats }, ..node(w, id) }),
            ));
            lemma_same_structure_wf(w, self@);
        }
        true
    }

    /// The parts of the subtree of `start`, each once, in the order in which a
    /// depth-first walk with an explicit stack pops them. The walk pushes the
    /// children of a part in slot order; callers may rely on the members, not
    /// on the order among siblings.
    pub fn subtree(&self, start: PartId) -> (ids: Vec<PartId>)
        requires
            self.wf(),
        ensures
            ids@.no_duplicates(),
            forall|n: PartId| #![trigger ids@.contains(n)] ids@.contains(n) <==> in_subtree(self@, start, n),
            live(self@, start) ==> ids@.len() > 0 && ids@[0] == start,
    {
        let mut ids: Vec<PartId> = Vec::new();
        let ghost w = self@;
        if !self.is_live(start) {
            proof {
                assert forall|n: PartId| !in_subtree(w, start, n) by {
                    if in_subtree(w, start, n) {
                        let k = choose|k: nat| climbs(w, n, start, k);
                        lemma_climbs_live(w, n, start, k);
                    }
                }
            }
            return ids;
        }
        let ghost rank = choose|rank: Seq<nat>| ranked(w, rank);
        let ghost mut visited: Set<PartId> = Set::empty();
        let ghost mut pending: Set<PartId> = Set::empty().insert(start);
        let mut stack: Vec<PartId> = Vec::new();
        stack.push(start);
        proof {
            assert(climbs(w, start, start, 0));
            lemma_push_contains(Seq::<PartId>::empty(), start);
            assert(stack@ =~= Seq::<PartId>::empty().push(start));
        }
        while stack.len() > 0
            invariant
                w == self@,
                wf_forest(w),
                ranked(w, rank),
                live(w, start),
                stack@.no_duplicates(),
                ids@.no_duplicates(),
                visited.finite(),
                visited.len() == ids@.len(),
                ids@.len() <= w.len(),
                forall|n: PartId| #![trigger pending.contains(n)] pending.contains(n) <==> stack@.contains(n),
                forall|n: PartId| #![trigger visited.contains(n)] visited.contains(n) <==> ids@.contains(n),
                forall|n: PartId|
                    #![trigger pending.contains(n)]
                    pending.contains(n) ==> {
                        &&& live(w, n)
                        &&& in_subtree(w, start, n)
                        &&& !visited.contains(n)
                        &&& n != start ==> node(w, n).parent is Some && visited.contains(
                            node(w, n).parent.unwrap(),
                        )
                    },
                forall|n: PartId|
                    #![trigger visited.contains(n)]
                    visited.contains(n) ==> {
                        &&& live(w, n)
                        &&& in_subtree(w, start, n)
                        &&& n != start ==> node(w, n).parent is Some && visited.contains(
                            node(w, n).parent.unwrap(),
                        )
                    },
                forall|p: PartId, j: int|
                    visited.contains(p) && 0 <= j < node(w, p).children.len() && (#[trigger] node(
                        w,
                        p,
                    ).children[j]) is Some ==> visited.contains(node(w, p).children[j].unwrap())
                        || pending.contains(node(w, p).children[j].unwrap()),
                visited.contains(start) || pending.contains(start),
                ids@.len() > 0 ==> ids@[0] == start,
                ids@.len() == 0 ==> stack@.len() == 1 && stack@[0] == start,
            decreases w.len() - ids@.len(),
        {
            let ghost stack_before = stack@;
            let ghost ids_before = ids@;
            let x = stack.pop().unwrap();
            proof {
                assert(stack_before.last() == x);
                assert(stack@ =~= stack_before.drop_last());
                lemma_drop_last_contains(stack_before);
                assert(stack_before.contains(x));
                assert(pending.contains(x));
                lemma_push_contains(ids_before, x);
                pending = pending.remove(x);
                visited = visited.insert(x);
                lemma_bounded_set_len(visited, w.len());
                if x != start {
                    let k = choose|k: nat| climbs(w, x, start, k);
                    lemma_climbs_rank(w, rank, x, start, k);
                }
            }
            ids.push(x);
            let children = match &self.parts[x] {
                Some(bundle) => &bundle.part_children,
                None => { proof { assert(false); } return ids; },
            };
            proof {
                assert(node_wf(w, x));
                assert(children@ == node(w, x).children);
            }
            let mut slot: usize = 0;
            while slot < children.len()
                invariant
                    w == self@,
                    wf_forest(w),
                    ranked(w, rank),
                    live(w, start),
                    live(w, x),
                    children@ == node(w, x).children,
                    slot <= children@.len(),
                    visited.contains(x),
                    x != start ==> rank[start as int] < rank[x as int],
                    stack@.no_duplicates(),
                    ids@.no_duplicates(),
                    visited.finite(),
                    visited.len() == ids@.len(),
                    ids@.len() <= w.len(),
                    ids@.len() > 0,
                    ids@[0] == start,
                    forall|n: PartId| #![trigger pending.contains(n)] pending.contains(n) <==> stack@.contains(n),
                    forall|n: PartId| #![trigger visited.contains(n)] visited.contains(n) <==> ids@.contains(n),
                    forall|n: PartId|
                        #![trigger pending.contains(n)]
                        pending.contains(n) ==> {
                            &&& live(w, n)
                            &&& in_subtree(w, start, n)
                            &&& !visited.contains(n)
                            &&& n != start ==> node(w, n).parent is Some && visited.contains(
                                node(w, n).parent.unwrap(),
                            )
                            &&& node(w, n).parent == Some(x) ==> node(w, n).joint.unwrap().hardpoint
                                < slot
                        },
                    forall|n: PartId|
                        #![trigger visited.contains(n)]
                        visited.contains(n) ==> {
                            &&& live(w, n)
                            &&& in_subtree(w, start, n)
                            &&& n != start ==> node(w, n).parent is Some && visited.contains(
                                node(w, n).parent.unwrap(),
                            )
                            &&& n != x ==> node(w, n).parent != Some(x)
                        },
                    forall|p: PartId, j: int|
                        visited.contains(p) && 0 <= j < node(w, p).children.len() && (p == x ==> j
                            < slot) && (#[trigger] node(w, p).children[j]) is Some
                            ==> visited.contains(node(w, p).children[j].unwrap())
                            || pending.contains(node(w, p).children[j].unwrap()),
                    visited.contains(start) || pending.contains(start),
                decreases children@.len() - slot,
            {
                match children[slot] {
                    Some(child) => {
                        proof {
                            assert(node_wf(w, x));
                            assert(node(w, x).children[slot as int] is Some);
                            assert(live(w, child));
                            assert(node(w, child).parent == Some(x));
                            assert(rank[x as int] < rank[child as int]);
                            assert(child != start);
                            assert(child != x);
                            assert(!visited.contains(child));
                            assert(!pending.contains(child));
                            lemma_child_in_subtree(w, start, x, child);
                            lemma_push_contains(stack@, child);
                            pending = pending.insert(child);
                        }
                        stack.push(child);
                    },
                    None => {},
                }
                slot += 1;
            }
        }
        proof {
            assert(stack@.len() == 0);
            assert forall|n: PartId| #![trigger ids@.contains(n)] ids@.contains(n) <==> in_subtree(
                w,
                start,
                n,
            ) by {
                if in_subtree(w, start, n) {
                    let k = choose|k: nat| climbs(w, n, start, k);
                    assert(!pending.contains(start)) by {
                        if pending.contains(start) {
                            assert(stack@.contains(start));
                        }
                    }
                    assert forall|p: PartId, j: int|
                        visited.contains(p) && 0 <= j < node(w, p).children.len() && (
                        #[trigger] node(w, p).children[j]) is Some implies visited.contains(
                        node(w, p).children[j].unwrap(),
                    ) by {
                        let c = node(w, p).children[j].unwrap();
                        if pending.contains(c) {
                            assert(stack@.contains(c));
                        }
                    }
                    lemma_closed_covers(w, start, visited, n, k);
                }
                if ids@.contains(n) {
                    assert(visited.contains(n));
                }
            }
        }
        ids
    }
}

} // verus!
