//! Which bodies may collide, and what grabbing a part does to that.

use vstd::prelude::*;
use crate::effects::attachable;
use crate::effects::attached;
use crate::effects::collision_set;
use crate::effects::detached;
use crate::forest::Forest;
use crate::forest::live;
use crate::forest::node;
use crate::forest::Owner;
use crate::forest::PartId;
use crate::world::CustomPhysicsData;
use crate::world::PartWorld;

verus! {

/// How the solver treats the contacts of a pair of bodies.
#[derive(Clone, Copy, Debug, PartialEq, Eq)]
pub struct SolverFlags {
    pub bits: u32,
}

/// The solver computes impulses for the contacts of the pair.
pub const COMPUTE_IMPULSES: u32 = 1;

/// A released part is mounted on a free hardpoint only if the square of its
/// distance to the hardpoint is below this.
pub const GRAB_RANGE_SQUARED: u64 = 2500;

/// What the filter assumes of a body that carries no data: it belongs to no
/// tree and may collide.
pub open spec fn data_or_default(data: Option<CustomPhysicsData>) -> CustomPhysicsData {
    match data {
        Some(d) => d,
        None => CustomPhysicsData { part_tree_root: None, disable_collision: false },
    }
}

/// The answer of the contact filter for two bodies: no contact is computed
/// where both cache the same root, or where either has its collisions
/// disabled; in every other case the contacts are computed and solved in full.
pub open spec fn contact_filter(first: CustomPhysicsData, second: CustomPhysicsData) -> Option<
    SolverFlags,
> {
    if first.part_tree_root == second.part_tree_root {
        None
    } else if first.disable_collision || second.disable_collision {
        None
    } else {
        Some(SolverFlags { bits: COMPUTE_IMPULSES })
    }
}

/// Whether two bodies cache the same root.
fn same_root(first: Option<PartId>, second: Option<PartId>) -> (same: bool)
    ensures
        same == (first == second),
{
    match (first, second) {
        (Some(a), Some(b)) => a == b,
        (None, None) => true,
        _ => false,
    }
}

/// The contact filter that the physics engine consults for every pair of
/// bodies that may touch.
pub fn filter_contact_pair(first: Option<CustomPhysicsData>, second: Option<CustomPhysicsData>) -> (flags:
    Option<SolverFlags>)
    ensures
        flags == contact_filter(data_or_default(first), data_or_default(second)),
{
    let a = match first {
        Some(d) => d,
        None => CustomPhysicsData { part_tree_root: None, disable_collision: false },
    };
    let b = match second {
        Some(d) => d,
        None => CustomPhysicsData { part_tree_root: None, disable_collision: false },
    };
    if same_root(a.part_tree_root, b.part_tree_root) {
        None
    } else if a.disable_collision || b.disable_collision {
        None
    } else {
        Some(SolverFlags { bits: COMPUTE_IMPULSES })
    }
}

/// Whether `part` can be grabbed: it is in the arena, is not the root of a
/// tree and does not belong to the enemy.
pub open spec fn grabbable(w: Forest, part: PartId) -> bool {
    &&& live(w, part)
    &&& node(w, part).parent is Some
    &&& node(w, part).owner != Owner::Enemy
}

/// The forest after `part` has been grabbed: it is taken off its parent, and
/// then no part of its subtree collides with bodies of other trees.
pub open spec fn grabbed(w: Forest, part: PartId) -> Forest {
    collision_set(detached(w, part), part, true)
}

/// The forest after `part` has been let go: every part of its tree collides
/// again, and then the part is mounted on `target` if there is one and it can
/// be.
pub open spec fn released(w: Forest, part: PartId, target: Option<(PartId, usize)>) -> Forest {
    let root = if live(w, part) && node(w, part).tree_root is Some {
        node(w, part).tree_root.unwrap()
    } else {
        part
    };
    let free = collision_set(w, root, false);
    match target {
        Some(t) => if attachable(free, t.0, part, t.1) {
            attached(free, t.0, part, t.1)
        } else {
            free
        },
        None => free,
    }
}

/// Grabs `part`, if it can be grabbed; otherwise nothing changes. Returns
/// whether it did.
pub fn grab_part(world: &mut PartWorld, part: PartId) -> (done: bool)
    requires
        old(world).wf(),
    ensures
        final(world).wf(),
        done == grabbable(old(world)@, part),
        final(world)@ == if done {
            grabbed(old(world)@, part)
        } else {
            old(world)@
        },
{
    let free = match world.get(part) {
        Some(bundle) => bundle.part_parent.is_some() && !is_enemy(bundle.owner),
        None => false,
    };
    if !free {
        return false;
    }
    world.detach_part(part);
    world.set_collision(part, false);
    true
}

/// Whether `owner` is the enemy.
fn is_enemy(owner: Owner) -> (enemy: bool)
    ensures
        enemy == (owner == Owner::Enemy),
{
    match owner {
        Owner::Enemy => true,
        _ => false,
    }
}

/// Lets go of `part` and mounts it on `target`, if there is one and it can
/// be. Returns whether the part was mounted.
pub fn release_part(world: &mut PartWorld, part: PartId, target: Option<(PartId, usize)>) -> (mounted:
    bool)
    requires
        old(world).wf(),
    ensures
        final(world).wf(),
        final(world)@ == released(old(world)@, part, target),
        mounted == (target matches Some(t) && attachable(
            collision_set(
                old(world)@,
                if live(old(world)@, part) && node(old(world)@, part).tree_root is Some {
                    node(old(world)@, part).tree_root.unwrap()
                } else {
                    part
                },
                false,
            ),
            t.0,
            part,
            t.1,
        )),
{
    let root = match world.get(part) {
        Some(bundle) => match bundle.custom_data.part_tree_root {
            Some(root) => root,
            None => part,
        },
        None => part,
    };
    world.set_collision(root, true);
    match target {
        Some(t) => world.attach_part(t.0, part, t.1),
        None => false,
    }
}

/// The position of the nearest candidate: the first of the least squared
/// distances below `limit`, if any is below it.
pub open spec fn is_nearest(distances: Seq<u64>, limit: u64, found: Option<usize>) -> bool {
    match found {
        Some(i) => {
            &&& i < distances.len()
            &&& distances[i as int] < limit
            &&& forall|j: int| 0 <= j < distances.len() ==> distances[i as int] <= #[trigger] distances[j]
            &&& forall|j: int| 0 <= j < i ==> distances[i as int] < #[trigger] distances[j]
        },
        None => forall|j: int| 0 <= j < distances.len() ==> #[trigger] distances[j] >= limit,
    }
}

/// Picks the hardpoint on which a released part is mounted: of the candidates,
/// given by the squares of their distances to the pointer, the nearest that is
/// closer than `limit`; of several equally near the first.
pub fn nearest_marker(distances: &Vec<u64>, limit: u64) -> (found: Option<usize>)
    ensures
        is_nearest(distances@, limit, found),
{
    let mut best: Option<usize> = None;
    let mut i: usize = 0;
    while i < distances.len()
        invariant
            i <= distances@.len(),
            match best {
                Some(b) => {
                    &&& b < i
                    &&& distances@[b as int] < limit
                    &&& forall|j: int| 0 <= j < i ==> distances@[b as int] <= #[trigger] distances@[j]
                    &&& forall|j: int| 0 <= j < b ==> distances@[b as int] < #[trigger] distances@[j]
                },
                None => forall|j: int| 0 <= j < i ==> #[trigger] distances@[j] >= limit,
            },
        decreases distances@.len() - i,
    {
        let d = distances[i];
        if d < limit {
            match best {
                Some(b) => {
                    if d < distances[b] {
                        best = Some(i);
                    }
                },
                None => {
                    best = Some(i);
                },
            }
        }
        i += 1;
    }
    best
}

/// Whether slot `slot` of `part` is a free hardpoint of a live part owned by
/// `owner`, other than `except`.
pub open spec fn is_open_point(w: Forest, owner: Owner, except: PartId, part: PartId, slot: usize) -> bool {
    &&& live(w, part)
    &&& part != except
    &&& node(w, part).owner == owner
    &&& slot < node(w, part).children.len()
    &&& node(w, part).children[slot as int] is None
}

/// The free hardpoints of the parts owned by `owner`, other than `except`:
/// these are the places that are marked while a part is dragged. They are
/// listed by part and then by slot.
pub fn open_hardpoints(world: &PartWorld, owner: Owner, except: PartId) -> (points: Vec<(PartId, usize)>)
    ensures
        forall|t: int|
            0 <= t < points@.len() ==> is_open_point(
                world@,
                owner,
                except,
                (#[trigger] points@[t]).0,
                points@[t].1,
            ),
        forall|part: PartId, slot: usize|
            is_open_point(world@, owner, except, part, slot) ==> points@.contains((part, slot)),
        forall|s: int, t: int|
            0 <= s < t < points@.len() ==> (#[trigger] points@[s]).0 < (#[trigger] points@[t]).0 || (
            points@[s].0 == points@[t].0 && points@[s].1 < points@[t].1),
{
    let ghost w = world@;
    let mut points: Vec<(PartId, usize)> = Vec::new();
    let mut id: usize = 0;
    let count = world.len();
    while id < count
        invariant
            id <= count,
            count == w.len(),
            w == world@,
            forall|t: int|
                0 <= t < points@.len() ==> is_open_point(
                    w,
                    owner,
                    except,
                    (#[trigger] points@[t]).0,
                    points@[t].1,
                ) && points@[t].0 < id,
            forall|part: PartId, slot: usize|
                part < id && is_open_point(w, owner, except, part, slot) ==> points@.contains(
                    (part, slot),
                ),
            forall|s: int, t: int|
                0 <= s < t < points@.len() ==> (#[trigger] points@[s]).0 < (#[trigger] points@[t]).0
                    || (points@[s].0 == points@[t].0 && points@[s].1 < points@[t].1),
        decreases count - id,
    {
        match world.get(id) {
            Some(bundle) => {
                if id != except && same_owner(bundle.owner, owner) {
                    let mut slot: usize = 0;
                    while slot < bundle.part_children.len()
                        invariant
                            slot <= bundle.part_children@.len(),
                            id < count,
                            count == w.len(),
                            live(w, id),
                            bundle@ == node(w, id),
                            id != except,
                            node(w, id).owner == owner,
                            forall|t: int|
                                0 <= t < points@.len() ==> is_open_point(
                                    w,
                                    owner,
                                    except,
                                    (#[trigger] points@[t]).0,
                                    points@[t].1,
                                ) && (points@[t].0 < id || (points@[t].0 == id && points@[t].1
                                    < slot)),
                            forall|part: PartId, s: usize|
                                (part < id || (part == id && s < slot)) && is_open_point(
                                    w,
                                    owner,
                                    except,
                                    part,
                                    s,
                                ) ==> points@.contains((part, s)),
                            forall|s: int, t: int|
                                0 <= s < t < points@.len() ==> (#[trigger] points@[s]).0 < (
                                #[trigger] points@[t]).0 || (points@[s].0 == points@[t].0
                                    && points@[s].1 < points@[t].1),
                        decreases bundle.part_children@.len() - slot,
                    {
                        if bundle.part_children[slot].is_none() {
                            let ghost before = points@;
                            points.push((id, slot));
                            proof {
                                assert forall|part: PartId, s: usize|
                                    (part < id || (part == id && s < slot + 1)) && is_open_point(
                                        w,
                                        owner,
                                        except,
                                        part,
                                        s,
                                    ) implies points@.contains((part, s)) by {
                                    if part == id && s == slot {
                                        assert(points@[before.len() as int] == (part, s));
                                    } else {
                                        assert(before.contains((part, s)));
                                        let t = choose|t: int|
                                            0 <= t < before.len() && before[t] == (part, s);
                                        assert(points@[t] == (part, s));
                                    }
                                }
                            }
                        }
                        slot += 1;
                    }
                }
            },
            None => {},
        }
        id += 1;
    }
    points
}

/// Whether two owners are the same.
fn same_owner(first: Owner, second: Owner) -> (same: bool)
    ensures
        same == (first == second),
{
    match (first, second) {
        (Owner::Neutral, Owner::Neutral) => true,
        (Owner::Player, Owner::Player) => true,
        (Owner::Enemy, Owner::Enemy) => true,
        _ => false,
    }
}

} // verus!
