//! Assembling enemies: a random chassis, and random parts on its free
//! hardpoints while the budget lasts.

use vstd::prelude::*;
use crate::catalog::lists_all;
use crate::catalog::no_parts;
use crate::catalog::PartTable;
use crate::effects::is_made;
use crate::effects::lemma_spawned_on_frame;
use crate::effects::owned;
use crate::effects::spawned_on;
use crate::forest::Forest;
use crate::forest::is_root;
use crate::forest::live;
use crate::forest::MAX_PARTS;
use crate::forest::node;
use crate::forest::node_wf;
use crate::forest::Owner;
use crate::forest::PartId;
use crate::forest::wf_forest;
use crate::parts::Part;
use crate::random::random_below;
use crate::stats::amount;
use crate::stats::PartStats;
use crate::world::PartWorld;

verus! {

/// Why no enemy was assembled.
#[derive(Clone, Copy, Debug, PartialEq, Eq)]
pub enum AssemblyError {
    /// The catalog holds no part that is flagged as a chassis.
    NoChassis,
    /// The arena is full, or the statistics of the chassis are out of the
    /// range of a single part.
    CannotSpawn,
}

/// The score of a vehicle in hundredths: ten for each hit point, five for each
/// unit of speed, one for each unit of acceleration and of force.
pub open spec fn score_of(stats: PartStats) -> int {
    amount(stats.acceleration) + 5 * amount(stats.speed) + amount(stats.force) + 10 * stats.hp
}

/// The score of the vehicle whose aggregate is `stats`, in hundredths. The
/// aggregate must have every optional field present, as it has after an
/// aggregation pass.
pub fn calculate_score(stats: &PartStats) -> (score: i128)
    requires
        stats.speed is Some,
        stats.acceleration is Some,
        stats.force is Some,
    ensures
        score == score_of(*stats),
{
    let acceleration = match stats.acceleration {
        Some(v) => v,
        None => 0,
    };
    let speed = match stats.speed {
        Some(v) => v,
        None => 0,
    };
    let force = match stats.force {
        Some(v) => v,
        None => 0,
    };
    acceleration as i128 + 5 * (speed as i128) + force as i128 + 10 * (stats.hp as i128)
}

/// The hardpoints of the part `id`, which has `count` of them, as open points.
pub open spec fn own_points(id: PartId, count: nat) -> Seq<(PartId, usize)> {
    Seq::new(count, |i: int| (id, i as usize))
}

/// Whether some open point of `points` names the part `id`.
pub open spec fn names(points: Seq<(PartId, usize)>, id: PartId) -> bool {
    exists|t: int| 0 <= t < points.len() && (#[trigger] points[t]).0 == id
}

/// Whether the part `n` is in `v` what it was in `w` but for what its slots
/// name.
pub open spec fn same_but_slots(w: Forest, v: Forest, n: PartId) -> bool {
    &&& live(v, n) == live(w, n)
    &&& live(w, n) ==> {
        &&& node(v, n).def == node(w, n).def
        &&& node(v, n).stats == node(w, n).stats
        &&& node(v, n).weapon == node(w, n).weapon
        &&& node(v, n).parent == node(w, n).parent
        &&& node(v, n).tree_root == node(w, n).tree_root
        &&& node(v, n).owner == node(w, n).owner
        &&& node(v, n).children.len() == node(w, n).children.len()
    }
}

/// Whether the definition of the live part `n` is that of some part of the
/// catalog.
pub open spec fn from_catalog(v: Forest, catalog: Map<Seq<char>, Part>, n: PartId) -> bool {
    live(v, n) && exists|name: Seq<char>|
        catalog.contains_key(name) && node(v, n).def.same_as((#[trigger] catalog[name]).def)
}

/// Whether `v` is the forest `w` with one more part: the fresh root `root`
/// made from `part`, given to the enemy.
pub open spec fn enemy_rooted(w: Forest, v: Forest, part: Part, root: PartId) -> bool {
    exists|made: Forest| #[trigger] is_made(w, made, part, root) && v == owned(made, root, Owner::Enemy)
}

/// Adds the `count` hardpoints of the part `id` to the open points.
fn push_points(open_points: &mut Vec<(PartId, usize)>, id: PartId, count: usize)
    ensures
        final(open_points)@ == old(open_points)@ + own_points(id, count as nat),
{
    let ghost before = open_points@;
    let mut i: usize = 0;
    while i < count
        invariant
            i <= count,
            open_points@ == before + own_points(id, i as nat),
        decreases count - i,
    {
        open_points.push((id, i));
        proof {
            assert(open_points@ =~= before + own_points(id, (i + 1) as nat));
        }
        i += 1;
    }
}

/// One step of the assembly, for given picks: the open point at position
/// `point` is taken from the list, its place filled by the last; a part is made
/// from the part at position `part` of the list `parts` and mounted on that
/// point, as an enemy; and the hardpoints of the new part are added to the
/// list. Returns the new part, or `None` if it could not be made.
pub fn extend_step(
    world: &mut PartWorld,
    parts: &Vec<&Part>,
    open_points: &mut Vec<(PartId, usize)>,
    point: usize,
    part: usize,
) -> (child: Option<PartId>)
    requires
        old(world).wf(),
        point < old(open_points)@.len(),
        part < parts@.len(),
    ensures
        final(world).wf(),
        child is Some <==> old(world)@.len() < MAX_PARTS && parts@[part as int].def.stats.part_sized(),
        match child {
            Some(id) => {
                &&& spawned_on(
                    old(world)@,
                    final(world)@,
                    old(open_points)@[point as int].0,
                    *parts@[part as int],
                    old(open_points)@[point as int].1,
                    Some(Owner::Enemy),
                    id,
                )
                &&& final(open_points)@ == old(open_points)@.update(
                    point as int,
                    old(open_points)@.last(),
                ).drop_last() + own_points(id, parts@[part as int].def.hardpoints@.len())
            },
            None => {
                &&& final(world)@ == old(world)@
                &&& final(open_points)@ == old(open_points)@.update(
                    point as int,
                    old(open_points)@.last(),
                ).drop_last()
            },
        },
{
    let (parent, hardpoint) = open_points.swap_remove(point);
    let chosen = parts[part];
    match world.spawn_part_on_hardpoint(parent, chosen, hardpoint, Some(Owner::Enemy)) {
        Some(id) => {
            push_points(open_points, id, chosen.def.hardpoints.len());
            Some(id)
        },
        None => None,
    }
}

/// Mounts random parts of the catalog on random open points until no open
/// point or nothing of the budget `remaining_parts` is left. Each step takes
/// one open point and adds those of the new part. Returns the number of parts
/// that were made. Where every part can be made, it ends with the budget used
/// up or no point open; parts taken for open slots are mounted on them.
/// Of the parts that were in the arena only those that an open point names can
/// change, and of them only what their slots name.
pub fn extend_part_tree(
    world: &mut PartWorld,
    catalog: &PartTable,
    remaining_parts: usize,
    open_points: Vec<(PartId, usize)>,
) -> (made: usize)
    requires
        old(world).wf(),
        catalog.wf(),
    ensures
        final(world).wf(),
        made <= remaining_parts,
        final(world)@.len() == old(world)@.len() + made,
        remaining_parts == 0 || open_points@.len() == 0 || catalog@ == no_parts() ==> final(world)@
            == old(world)@,
        forall|n: PartId|
            n < old(world)@.len() ==> #[trigger] same_but_slots(old(world)@, final(world)@, n),
        forall|n: PartId|
            n < old(world)@.len() && !names(open_points@, n) ==> #[trigger] final(world)@[n as int] == old(
                world,
            )@[n as int],
        forall|n: PartId|
            old(world)@.len() <= n < final(world)@.len() ==> #[trigger] from_catalog(
                final(world)@,
                catalog@,
                n,
            ),
        catalog@ != no_parts() && always_makes(old(world)@, remaining_parts, catalog@) ==> made
            == remaining_parts || open_points@.len() + slots_between(
            final(world)@,
            old(world)@.len(),
            final(world)@.len(),
        ) == made,
        points_open(old(world)@, open_points@) ==> forall|n: PartId|
            old(world)@.len() <= n < final(world)@.len() ==> #[trigger] mounted_from(
                old(world)@,
                open_points@,
                final(world)@,
                n,
            ),
{
    let ghost w = world@;
    let ghost start = open_points@;
    let mut open_points = open_points;
    let mut remaining = remaining_parts;
    let mut made: usize = 0;
    let ghost mut steps: nat = 0;
    let parts = catalog.values();
    if parts.len() == 0 {
        proof {
            assert(catalog@ =~= no_parts());
        }
        return 0;
    }
    proof {
        if catalog@ == no_parts() {
            assert(catalog@.contains_key(parts@[0].def.name@));
        }
        if points_open(w, start) {
            assert forall|t: int| 0 <= t < start.len() implies #[trigger] rooted_in(
                w,
                start,
                w,
                start[t].0,
            ) by {
                assert(crate::effects::point_open(w, start[t].0, start[t].1));
            }
        }
    }
    while open_points.len() > 0 && remaining > 0
        invariant
            parts@.len() > 0,
            lists_all(catalog@, parts@),
            world.wf(),
            wf_forest(w),
            made + remaining <= remaining_parts,
            steps + remaining == remaining_parts,
            made <= steps,
            always_makes(w, remaining_parts, catalog@) ==> made == steps,
            open_points@.len() + steps == start.len() + slots_between(
                world@,
                w.len(),
                world@.len(),
            ),
            world@.len() == w.len() + made,
            made == 0 ==> world@ == w,
            made == 0 && remaining == remaining_parts ==> open_points@ == start,
            start.len() == 0 ==> made == 0 && remaining == remaining_parts,
            forall|t: int|
                0 <= t < open_points@.len() && (#[trigger] open_points@[t]).0 < w.len() ==> names(
                    start,
                    open_points@[t].0,
                ),
            forall|n: PartId| n < w.len() ==> #[trigger] same_but_slots(w, world@, n),
            forall|n: PartId|
                n < w.len() && !names(start, n) ==> #[trigger] world@[n as int] == w[n as int],
            forall|n: PartId|
                w.len() <= n < world@.len() ==> #[trigger] from_catalog(world@, catalog@, n),
            points_open(w, start) ==> points_open(world@, open_points@),
            points_open(w, start) ==> forall|t: int|
                0 <= t < open_points@.len() ==> #[trigger] rooted_in(
                    w,
                    start,
                    world@,
                    open_points@[t].0,
                ),
            points_open(w, start) ==> forall|n: PartId|
                w.len() <= n < world@.len() ==> #[trigger] mounted_from(w, start, world@, n),
        decreases remaining,
    {
        let ghost before = world@;
        let ghost points_before = open_points@;
        let point = random_below(open_points.len() as u64) as usize;
        let part = random_below(parts.len() as u64) as usize;
        proof {
            let name = parts@[part as int].def.name@;
            assert(catalog@.contains_key(name) && catalog@[name] == *parts@[part as int]);
        }
        let child = extend_step(world, &parts, &mut open_points, point, part);
        remaining -= 1;
        proof {
            steps = steps + 1;
        }
        match child {
            Some(id) => {
                made += 1;
                proof {
                    let parent = points_before[point as int].0;
                    let hardpoint = points_before[point as int].1;
                    let chosen = *parts@[part as int];
                    lemma_spawned_on_frame(
                        before,
                        world@,
                        parent,
                        chosen,
                        hardpoint,
                        Some(Owner::Enemy),
                        id,
                    );
                    lemma_step_counts(w.len() as nat, before, world@, parent);
                    assert(open_points@.len() == points_before.len() - 1
                        + chosen.def.hardpoints@.len());
                    if points_open(w, start) {
                        lemma_step_points(
                            w,
                            start,
                            before,
                            world@,
                            points_before,
                            open_points@,
                            point as int,
                            chosen,
                            id,
                        );
                    }
                    assert forall|t: int|
                        0 <= t < open_points@.len() && (#[trigger] open_points@[t]).0
                            < w.len() implies names(start, open_points@[t].0) by {
                        let trimmed = points_before.update(
                            point as int,
                            points_before.last(),
                        ).drop_last();
                        if t < trimmed.len() {
                            if t == point {
                                assert(open_points@[t] == points_before[points_before.len() - 1]);
                            } else {
                                assert(open_points@[t] == points_before[t]);
                            }
                        } else {
                            assert(open_points@[t].0 == id);
                        }
                    }
                    assert forall|n: PartId| n < w.len() implies #[trigger] same_but_slots(
                        w,
                        world@,
                        n,
                    ) by {
                        assert(same_but_slots(w, before, n));
                        assert(live(world@, n) <==> live(before, n));
                        if n != parent {
                            assert(world@[n as int] == before[n as int]);
                        }
                    }
                    assert forall|n: PartId| n < w.len() && !names(start, n) implies #[trigger] world@[n as int]
                        == w[n as int] by {
                        assert(before[n as int] == w[n as int]);
                        if n == parent {
                            assert(points_before[point as int].0 < w.len());
                            assert(names(start, n));
                        }
                        assert(world@[n as int] == before[n as int]);
                    }
                    assert forall|n: PartId| w.len() <= n < world@.len() implies #[trigger] from_catalog(
                        world@,
                        catalog@,
                        n,
                    ) by {
                        if n == id {
                            let name = parts@[part as int].def.name@;
                            assert(catalog@.contains_key(name));
                            assert(node(world@, n).def.same_as(catalog@[name].def));
                        } else {
                            assert(from_catalog(before, catalog@, n));
                            let name = choose|name: Seq<char>|
                                catalog@.contains_key(name) && node(before, n).def.same_as(
                                    (#[trigger] catalog@[name]).def,
                                );
                            assert(live(world@, n) <==> live(before, n));
                            if n != parent {
                                assert(world@[n as int] == before[n as int]);
                            }
                            assert(node(world@, n).def.same_as(catalog@[name].def));
                        }
                    }
                }
            },
            None => {
                proof {
                    assert(!always_makes(w, remaining_parts, catalog@));
                    assert forall|t: int|
                        0 <= t < open_points@.len() && (#[trigger] open_points@[t]).0
                            < w.len() implies names(start, open_points@[t].0) by {
                        if t == point {
                            assert(open_points@[t] == points_before[points_before.len() - 1]);
                        } else {
                            assert(open_points@[t] == points_before[t]);
                        }
                    }
                    if points_open(w, start) {
                        lemma_trimmed_points(w, start, before, points_before, point as int);
                    }
                }
            },
        }
    }
    made
}

/// Makes `chassis` the root of a new enemy. Returns the root and its
/// hardpoints as open points, or `None`, with nothing changed, if the part
/// could not be made.
pub fn spawn_enemy_root(world: &mut PartWorld, chassis: &Part) -> (spawned: Option<
    (PartId, Vec<(PartId, usize)>),
>)
    requires
        old(world).wf(),
    ensures
        final(world).wf(),
        spawned is Some <==> old(world)@.len() < MAX_PARTS && chassis.def.stats.part_sized(),
        match spawned {
            Some((root, points)) => {
                &&& enemy_rooted(old(world)@, final(world)@, *chassis, root)
                &&& points@ == own_points(root, chassis.def.hardpoints@.len())
            },
            None => final(world)@ == old(world)@,
        },
{
    let ghost w = world@;
    match world.spawn_part(chassis) {
        Some(root) => {
            let ghost made = world@;
            world.set_owner(root, Owner::Enemy);
            let mut points: Vec<(PartId, usize)> = Vec::new();
            push_points(&mut points, root, chassis.def.hardpoints.len());
            proof {
                assert(is_made(w, made, *chassis, root));
                assert(points@ =~= own_points(root, chassis.def.hardpoints@.len()));
                assert(world@ == owned(made, root, Owner::Enemy));
            }
            Some((root, points))
        },
        None => None,
    }
}

/// Assembles an enemy of up to `part_count` parts besides its chassis.
///
/// The chassis is drawn at random from the parts of the catalog that are
/// flagged as chassis and becomes the root of a tree owned by the enemy. Then
/// parts drawn at random from the whole catalog are mounted on open hardpoints
/// drawn at random, see `extend_part_tree`. A catalog without a chassis is
/// reported before anything is made. No part that was in the arena changes.
pub fn generate_enemy(world: &mut PartWorld, catalog: &PartTable, part_count: usize) -> (enemy:
    Result<PartId, AssemblyError>)
    requires
        old(world).wf(),
        catalog.wf(),
    ensures
        final(world).wf(),
        enemy == Err::<PartId, AssemblyError>(AssemblyError::NoChassis) <==> forall|name: Seq<char>|
            catalog@.contains_key(name) ==> !(#[trigger] catalog@[name]).def.chassis_flag(),
        old(world)@.len() < MAX_PARTS && (forall|name: Seq<char>|
            catalog@.contains_key(name) ==> (#[trigger] catalog@[name]).def.stats.part_sized()) && (
        exists|name: Seq<char>|
            catalog@.contains_key(name) && (#[trigger] catalog@[name]).def.chassis_flag())
            ==> enemy is Ok,
        enemy is Err ==> final(world)@ == old(world)@,
        enemy == Err::<PartId, AssemblyError>(AssemblyError::CannotSpawn) ==> old(world)@.len()
            >= MAX_PARTS || exists|name: Seq<char>|
            catalog@.contains_key(name) && (#[trigger] catalog@[name]).def.chassis_flag()
                && !catalog@[name].def.stats.part_sized(),
        enemy matches Ok(root) ==> {
            &&& root == old(world)@.len()
            &&& is_root(final(world)@, root)
            &&& node(final(world)@, root).owner == Owner::Enemy
            &&& exists|name: Seq<char>|
                catalog@.contains_key(name) && (#[trigger] catalog@[name]).def.chassis_flag()
                    && node(final(world)@, root).def.same_as(catalog@[name].def)
            &&& old(world)@.len() < final(world)@.len() <= old(world)@.len() + 1 + part_count
            &&& final(world)@.take(old(world)@.len() as int) == old(world)@
            &&& part_count == 0 ==> forall|k: int|
                0 <= k < node(final(world)@, root).children.len() ==> node(
                    final(world)@,
                    root,
                ).children[k] is None
        },
{
    let ghost w = world@;
    let chassis_parts = catalog.chassis_parts();
    if chassis_parts.len() == 0 {
        proof {
            assert forall|name: Seq<char>| catalog@.contains_key(name) implies !(
            #[trigger] catalog@[name]).def.chassis_flag() by {
                if catalog@[name].def.chassis_flag() {
                    let i = choose|i: int|
                        0 <= i < chassis_parts@.len() && (#[trigger] chassis_parts@[i]).def.name@
                            == name;
                }
            }
        }
        return Err(AssemblyError::NoChassis);
    }
    let pick = random_below(chassis_parts.len() as u64) as usize;
    let chassis = chassis_parts[pick];
    let ghost chassis_name = chassis.def.name@;
    proof {
        assert(catalog@.contains_key(chassis_parts@[pick as int].def.name@));
        assert(catalog@[chassis_name] == *chassis);
        assert(catalog@[chassis_name].def.chassis_flag());
    }
    match spawn_enemy_root(world, chassis) {
        Some((root, open_points)) => {
            let ghost rooted = world@;
            proof {
                let made = choose|made: Forest| #[trigger]
                    is_made(w, made, *chassis, root) && rooted == owned(made, root, Owner::Enemy);
                assert forall|n: PartId| n < w.len() implies #[trigger] made[n as int] == w[n as int] by {
                    assert(made.take(root as int)[n as int] == made[n as int]);
                }
                assert forall|n: PartId| n < w.len() implies #[trigger] rooted[n as int] == w[n as int] by {
                    assert(made[n as int] == w[n as int]);
                    if live(w, n) {
                        assert(node_wf(w, n));
                    }
                }
                assert(rooted[root as int].unwrap().children == made[root as int].unwrap().children);
                assert forall|n: PartId| n < w.len() implies !names(open_points@, n) by {
                    if names(open_points@, n) {
                        let t = choose|t: int|
                            0 <= t < open_points@.len() && (#[trigger] open_points@[t]).0 == n;
                    }
                }
            }
            let made_parts = extend_part_tree(world, catalog, part_count, open_points);
            proof {
                assert(same_but_slots(rooted, world@, root));
                assert(world@.take(w.len() as int) =~= w) by {
                    assert forall|i: int| 0 <= i < w.len() implies world@[i] == w[i] by {
                        let n = i as PartId;
                        assert(!names(open_points@, n));
                        assert(world@[n as int] == rooted[n as int]);
                        assert(rooted[n as int] == w[n as int]);
                    }
                }
                assert(node(world@, root).def.same_as(catalog@[chassis_name].def));
            }
            Ok(root)
        },
        None => Err(AssemblyError::CannotSpawn),
    }
}

/// Whether every open point of `points` names an open slot, and none is
/// listed twice.
pub open spec fn points_open(w: Forest, points: Seq<(PartId, usize)>) -> bool {
    &&& forall|t: int|
        0 <= t < points.len() ==> crate::effects::point_open(
            w,
            (#[trigger] points[t]).0,
            points[t].1,
        )
    &&& forall|s: int, t: int|
        0 <= s < t < points.len() ==> (#[trigger] points[s]) != (#[trigger] points[t])
}

/// The number of slots of the parts with the handles from `from` up to, but
/// not including, `upto`.
pub open spec fn slots_between(w: Forest, from: nat, upto: nat) -> nat
    decreases upto,
{
    if upto <= from {
        0
    } else {
        slots_between(w, from, (upto - 1) as nat) + if w[upto - 1] is Some {
            w[upto - 1].unwrap().children.len()
        } else {
            0
        }
    }
}

/// Whether nothing keeps a part of the catalog from being made while the
/// budget lasts: the arena has room for `budget` more parts, and the
/// statistics of every part of the catalog are those of a single part.
pub open spec fn always_makes(w: Forest, budget: usize, catalog: Map<Seq<char>, Part>) -> bool {
    &&& w.len() + budget <= MAX_PARTS
    &&& forall|name: Seq<char>|
        catalog.contains_key(name) ==> (#[trigger] catalog[name]).def.stats.part_sized()
}

/// Whether the live part `p` of `v` belongs to a tree in which, in the forest
/// `w`, one of the open points of `points` stood.
pub open spec fn rooted_in(w: Forest, points: Seq<(PartId, usize)>, v: Forest, p: PartId) -> bool {
    live(v, p) && exists|t: int|
        0 <= t < points.len() && node(w, (#[trigger] points[t]).0).tree_root == node(v, p).tree_root
}

/// Whether the part `n` of `v` is mounted, in a tree in which, in the forest
/// `w`, one of the open points of `points` stood.
pub open spec fn mounted_from(w: Forest, points: Seq<(PartId, usize)>, v: Forest, n: PartId) -> bool {
    rooted_in(w, points, v, n) && node(v, n).parent is Some
}

/// A step that makes a part adds the slots of that part to the slots of the
/// parts made so far.
proof fn lemma_step_counts(from: nat, before: Forest, after: Forest, parent: PartId)
    requires
        from <= before.len(),
        after.len() == before.len() + 1,
        live(after, before.len() as PartId),
        before.len() < MAX_PARTS,
        forall|n: PartId| n < before.len() && n != parent ==> #[trigger] after[n as int] == before[n as int],
        forall|n: PartId| n < before.len() ==> (#[trigger] live(after, n) <==> live(before, n)),
        live(before, parent) ==> node(after, parent).children.len() == node(
            before,
            parent,
        ).children.len(),
    ensures
        slots_between(after, from, after.len()) == slots_between(before, from, before.len()) + node(
            after,
            before.len() as PartId,
        ).children.len(),
{
    lemma_slots_same(from, before, after, parent, before.len());
}

/// The slots of parts that a step leaves as they are count the same before
/// and after it.
proof fn lemma_slots_same(from: nat, before: Forest, after: Forest, parent: PartId, upto: nat)
    requires
        upto <= before.len() < MAX_PARTS,
        before.len() <= after.len(),
        forall|n: PartId| n < before.len() && n != parent ==> #[trigger] after[n as int] == before[n as int],
        forall|n: PartId| n < before.len() ==> (#[trigger] live(after, n) <==> live(before, n)),
        live(before, parent) ==> node(after, parent).children.len() == node(
            before,
            parent,
        ).children.len(),
    ensures
        slots_between(after, from, upto) == slots_between(before, from, upto),
    decreases upto,
{
    if upto > from {
        lemma_slots_same(from, before, after, parent, (upto - 1) as nat);
        let n = (upto - 1) as PartId;
        assert(live(after, n) <==> live(before, n));
        if n != parent {
            assert(after[n as int] == before[n as int]);
        }
    }
}

/// Taking one open point away leaves the others open, and in their trees.
proof fn lemma_trimmed_points(
    w: Forest,
    start: Seq<(PartId, usize)>,
    v: Forest,
    points: Seq<(PartId, usize)>,
    point: int,
)
    requires
        0 <= point < points.len(),
        points_open(v, points),
        forall|t: int| 0 <= t < points.len() ==> #[trigger] rooted_in(w, start, v, points[t].0),
    ensures
        points_open(v, points.update(point, points.last()).drop_last()),
        forall|t: int|
            0 <= t < points.len() - 1 ==> #[trigger] rooted_in(
                w,
                start,
                v,
                points.update(point, points.last()).drop_last()[t].0,
            ),
{
    let trimmed = points.update(point, points.last()).drop_last();
    assert forall|t: int| 0 <= t < trimmed.len() implies crate::effects::point_open(
        v,
        (#[trigger] trimmed[t]).0,
        trimmed[t].1,
    ) by {
        if t == point {
            assert(trimmed[t] == points[points.len() - 1]);
        } else {
            assert(trimmed[t] == points[t]);
        }
    }
    assert forall|s: int, t: int| 0 <= s < t < trimmed.len() implies (#[trigger] trimmed[s]) != (
    #[trigger] trimmed[t]) by {
        let a = if s == point {
            points.len() - 1
        } else {
            s
        };
        let b = if t == point {
            points.len() - 1
        } else {
            t
        };
        assert(trimmed[s] == points[a]);
        assert(trimmed[t] == points[b]);
        if a < b {
            assert(points[a] != points[b]);
        } else {
            assert(points[b] != points[a]);
        }
    }
    assert forall|t: int| 0 <= t < points.len() - 1 implies #[trigger] rooted_in(
        w,
        start,
        v,
        trimmed[t].0,
    ) by {
        if t == point {
            assert(trimmed[t] == points[points.len() - 1]);
            assert(rooted_in(w, start, v, points[points.len() - 1].0));
        } else {
            assert(trimmed[t] == points[t]);
            assert(rooted_in(w, start, v, points[t].0));
        }
    }
}

/// A step that mounts a part on an open point leaves the other points open,
/// opens the slots of the new part, and keeps every part that was made in the
/// tree of a point that was open at the start.
proof fn lemma_step_points(
    w: Forest,
    start: Seq<(PartId, usize)>,
    before: Forest,
    after: Forest,
    points: Seq<(PartId, usize)>,
    points_after: Seq<(PartId, usize)>,
    point: int,
    part: Part,
    id: PartId,
)
    requires
        wf_forest(before),
        w.len() <= before.len(),
        0 <= point < points.len(),
        spawned_on(
            before,
            after,
            points[point].0,
            part,
            points[point].1,
            Some(Owner::Enemy),
            id,
        ),
        points_after == points.update(point, points.last()).drop_last() + own_points(
            id,
            part.def.hardpoints@.len(),
        ),
        points_open(before, points),
        forall|t: int| 0 <= t < points.len() ==> #[trigger] rooted_in(w, start, before, points[t].0),
        forall|n: PartId|
            w.len() <= n < before.len() ==> #[trigger] mounted_from(w, start, before, n),
    ensures
        points_open(after, points_after),
        forall|t: int|
            0 <= t < points_after.len() ==> #[trigger] rooted_in(w, start, after, points_after[t].0),
        forall|n: PartId| w.len() <= n < after.len() ==> #[trigger] mounted_from(w, start, after, n),
{
    let parent = points[point].0;
    let hardpoint = points[point].1;
    let trimmed = points.update(point, points.last()).drop_last();
    let fresh = own_points(id, part.def.hardpoints@.len());
    lemma_spawned_on_frame(before, after, parent, part, hardpoint, Some(Owner::Enemy), id);
    crate::effects::lemma_spawned_on_mount(
        before,
        after,
        parent,
        part,
        hardpoint,
        Some(Owner::Enemy),
        id,
    );
    lemma_trimmed_points(w, start, before, points, point);
    assert(crate::effects::point_open(before, parent, hardpoint));
    assert(rooted_in(w, start, before, points[point].0));
    // Parts that were there keep their parent and their cached root.
    assert forall|p: PartId| live(before, p) implies live(after, p) && node(after, p).tree_root
        == node(before, p).tree_root && node(after, p).parent == node(before, p).parent by {
        assert(live(after, p) <==> live(before, p));
        if p != parent {
            assert(after[p as int] == before[p as int]);
        }
    }
    assert forall|p: PartId| rooted_in(w, start, before, p) implies rooted_in(w, start, after, p) by {
        let t = choose|t: int|
            0 <= t < start.len() && node(w, (#[trigger] start[t]).0).tree_root == node(
                before,
                p,
            ).tree_root;
        assert(node(w, start[t].0).tree_root == node(after, p).tree_root);
    }
    assert(rooted_in(w, start, after, id)) by {
        let t = choose|t: int|
            0 <= t < start.len() && node(w, (#[trigger] start[t]).0).tree_root == node(
                before,
                parent,
            ).tree_root;
        assert(node(w, start[t].0).tree_root == node(after, id).tree_root);
    }
    assert forall|t: int| 0 <= t < points_after.len() implies crate::effects::point_open(
        after,
        (#[trigger] points_after[t]).0,
        points_after[t].1,
    ) && rooted_in(w, start, after, points_after[t].0) by {
        if t < trimmed.len() {
            assert(points_after[t] == trimmed[t]);
            let p = trimmed[t].0;
            let h = trimmed[t].1;
            assert(crate::effects::point_open(before, p, h));
            assert(rooted_in(w, start, before, trimmed[t].0));
            let u = if t == point {
                points.len() - 1
            } else {
                t
            };
            assert(trimmed[t] == points[u]);
            if u < point {
                assert(points[u] != points[point]);
            } else {
                assert(points[point] != points[u]);
            }
            if p == parent {
                assert(h != hardpoint);
                assert(node(after, p).children[h as int] == node(before, p).children[h as int]);
            } else {
                assert(after[p as int] == before[p as int]);
            }
        } else {
            assert(points_after[t] == fresh[t - trimmed.len()]);
            assert(node(after, id).children[t - trimmed.len()] is None);
        }
    }
    assert forall|s: int, t: int| 0 <= s < t < points_after.len() implies (
    #[trigger] points_after[s]) != (#[trigger] points_after[t]) by {
        if t < trimmed.len() {
            assert(points_after[s] == trimmed[s]);
            assert(points_after[t] == trimmed[t]);
            assert(trimmed[s] != trimmed[t]);
        } else if s < trimmed.len() {
            assert(points_after[s] == trimmed[s]);
            assert(points_after[t] == fresh[t - trimmed.len()]);
            assert(crate::effects::point_open(before, trimmed[s].0, trimmed[s].1));
            assert(trimmed[s].0 < before.len());
            assert(fresh[t - trimmed.len()].0 == id);
        } else {
            let i = s - trimmed.len();
            let j = t - trimmed.len();
            assert(points_after[s] == fresh[i]);
            assert(points_after[t] == fresh[j]);
            assert(part.def.hardpoints@.len() == part.def.hardpoints.len());
            assert(fresh[i].1 == i);
            assert(fresh[j].1 == j);
        }
    }
    assert forall|n: PartId| w.len() <= n < after.len() implies #[trigger] mounted_from(
        w,
        start,
        after,
        n,
    ) by {
        if n != id {
            assert(mounted_from(w, start, before, n));
        }
    }
}

} // verus!
