//! Firing the weapons of a tree.

use vstd::prelude::*;
use crate::forest::climbs;
use crate::forest::Forest;
use crate::forest::in_subtree;
use crate::forest::lemma_climbs_live;
use crate::forest::live;
use crate::forest::node;
use crate::forest::node_wf;
use crate::forest::PartId;
use crate::forest::PartState;
use crate::forest::wf_forest;
use crate::parts::PartWeapon;
use crate::projectiles::Projectile;
use crate::projectiles::PROJECTILE_LIFETIME;
use crate::projectiles::ProjectileId;
use crate::projectiles::ProjectileLifetime;
use crate::projectiles::ProjectilePool;
use crate::projectiles::WeaponProjectileBundle;
use crate::random::random_below;
use crate::world::CustomPhysicsData;
use crate::world::PartWorld;

verus! {

/// One projectile that was fired.
#[derive(Clone, Copy, Debug, PartialEq, Eq)]
pub struct Shot {
    /// The part whose weapon fired.
    pub part: PartId,
    /// The projectile, as the pool knows it.
    pub projectile: ProjectileId,
    /// The angle by which the projectile leaves the line of aim.
    pub deviation: i64,
}

/// The time that has passed at `now` since `last_shot`.
pub open spec fn elapsed(now: u64, last_shot: u64) -> int {
    if now >= last_shot {
        now - last_shot
    } else {
        0
    }
}

impl PartWeapon {
    /// Whether the weapon may fire at time `now`: at least the cooldown has
    /// passed since its last shot.
    pub open spec fn ready(self, now: u64) -> bool {
        match self {
            PartWeapon::Projectile { cooldown, last_shot, .. } => elapsed(now, last_shot) >= cooldown,
        }
    }

    /// Whether the weapon may fire at time `now`.
    pub fn is_ready(&self, now: u64) -> (ok: bool)
        ensures
            ok == self.ready(now),
    {
        match self {
            PartWeapon::Projectile { cooldown, last_shot, .. } => {
                let passed = if now >= *last_shot {
                    now - *last_shot
                } else {
                    0
                };
                passed >= *cooldown
            },
        }
    }

    /// The weapon after it has fired at time `now`.
    pub open spec fn fired(self, now: u64) -> PartWeapon {
        match self {
            PartWeapon::Projectile { spread, cooldown, last_shot, projectile } => PartWeapon::Projectile {
                spread,
                cooldown,
                last_shot: now,
                projectile,
            },
        }
    }

    /// Half the spread: the largest angle by which a projectile of the weapon
    /// leaves the line of aim, to either side.
    pub open spec fn half_spread(self) -> int {
        match self {
            PartWeapon::Projectile { spread, .. } => spread as int / 2,
        }
    }

    /// The projectile that the weapon puts in flight when the tree of `source`
    /// fires it at time `now` with the deviation `deviation`.
    pub open spec fn shot(self, source: PartId, deviation: i64, now: u64) -> WeaponProjectileBundle {
        match self {
            PartWeapon::Projectile { projectile, .. } => WeaponProjectileBundle {
                projectile: Projectile { damage: projectile.damage },
                custom_physics: CustomPhysicsData {
                    part_tree_root: Some(source),
                    disable_collision: false,
                },
                size: projectile.size,
                velocity: projectile.velocity,
                acceleration: projectile.acceleration,
                deviation,
                lifetime: ProjectileLifetime { spawned: now, lifetime: PROJECTILE_LIFETIME },
            },
        }
    }
}

/// Whether the live part `id` carries a weapon that may fire at `now`.
pub open spec fn can_fire(w: Forest, id: PartId, now: u64) -> bool {
    live(w, id) && node(w, id).weapon is Some && node(w, id).weapon.unwrap().ready(now)
}

/// The entry `i` of the forest after the part `i` has fired, if it can.
pub open spec fn fired_at(w: Forest, now: u64, i: int) -> Option<PartState> {
    match w[i] {
        None => None,
        Some(s) => Some(
            PartState {
                weapon: match s.weapon {
                    Some(weapon) => if weapon.ready(now) {
                        Some(weapon.fired(now))
                    } else {
                        Some(weapon)
                    },
                    None => None,
                },
                ..s
            },
        ),
    }
}

/// The forest after every weapon of the subtree of `source` that can fire at
/// `now` has fired.
pub open spec fn fired(w: Forest, source: PartId, now: u64) -> Forest {
    Seq::new(
        w.len(),
        |i: int|
            if in_subtree(w, source, i as PartId) {
                fired_at(w, now, i)
            } else {
                w[i]
            },
    )
}

/// The projectile that the live part `part` puts in flight when it fires at
/// `now` with the deviation `deviation`: it carries the root of the tree of
/// `part`.
pub open spec fn shot_of(w: Forest, part: PartId, deviation: i64, now: u64) -> WeaponProjectileBundle {
    node(w, part).weapon.unwrap().shot(node(w, part).tree_root.unwrap(), deviation, now)
}

/// Fires the weapon of `part`, if the part is in the arena and carries a
/// weapon that may fire at `now`: a projectile that carries the root of the
/// part's tree is put in flight with the deviation `deviation`, and the
/// weapon's last shot is `now`. Returns the projectile, or `None` with nothing
/// changed.
pub fn fire_weapon(
    world: &mut PartWorld,
    pool: &mut ProjectilePool,
    part: PartId,
    deviation: i64,
    now: u64,
) -> (projectile: Option<ProjectileId>)
    requires
        old(world).wf(),
    ensures
        final(world).wf(),
        projectile is Some <==> can_fire(old(world)@, part, now),
        projectile is None ==> final(world)@ == old(world)@ && final(pool)@ == old(pool)@,
        projectile matches Some(id) ==> {
            &&& id == old(pool)@.len()
            &&& final(pool)@ == old(pool)@.push(Some(shot_of(old(world)@, part, deviation, now)))
            &&& final(world)@ == old(world)@.update(part as int, fired_at(old(world)@, now, part as int))
        },
{
    let (weapon, root) = match world.get(part) {
        Some(bundle) => match (bundle.info.weapon, bundle.custom_data.part_tree_root) {
            (Some(weapon), Some(root)) => (weapon, root),
            _ => {
                proof {
                    assert(node_wf(world@, part));
                }
                return None;
            },
        },
        None => {
            return None;
        },
    };
    if !weapon.is_ready(now) {
        return None;
    }
    match weapon {
        PartWeapon::Projectile { spread, cooldown, last_shot, projectile } => {
            let bundle = WeaponProjectileBundle::new(root, &projectile, deviation, now);
            let id = pool.spawn(bundle);
            world.set_weapon(
                part,
                Some(PartWeapon::Projectile { spread, cooldown, last_shot: now, projectile }),
            );
            Some(id)
        },
    }
}

/// Draws the deviation of a shot of a weapon with the given spread: an angle
/// of at most half the spread to either side.
fn draw_deviation(spread: u32) -> (deviation: i64)
    ensures
        -(spread as int / 2) <= deviation <= spread as int / 2,
{
    let half = (spread / 2) as u64;
    if half == 0 {
        0
    } else {
        let drawn = random_below(2 * half + 1);
        deviation_from(spread, drawn)
    }
}

/// The deviation that the number `drawn` stands for, for a weapon with the
/// given spread: the numbers from zero to twice half the spread stand, in
/// order, for the angles from half the spread to the one side to half the
/// spread to the other.
pub fn deviation_from(spread: u32, drawn: u64) -> (deviation: i64)
    requires
        drawn <= 2 * (spread as int / 2),
    ensures
        deviation == drawn - spread as int / 2,
{
    let half = (spread / 2) as u64;
    drawn as i64 - half as i64
}

/// Fires every weapon of the subtree of `source` that may fire at `now`.
///
/// The parts are visited by a depth-first walk from `source`. Each weapon that
/// may fire puts one projectile in flight, with a deviation drawn at random
/// within half the weapon's spread to either side, and notes `now` as the time
/// of its last shot. A projectile carries the root of the tree that fired it,
/// so that it does not collide with that tree. The shots are returned in the
/// order of the walk.
pub fn fire_player_weapons(world: &mut PartWorld, pool: &mut ProjectilePool, source: PartId, now: u64) -> (shots:
    Vec<Shot>)
    requires
        old(world).wf(),
    ensures
        final(world).wf(),
        final(world)@ == fired(old(world)@, source, now),
        final(pool)@.len() == old(pool)@.len() + shots@.len(),
        final(pool)@.take(old(pool)@.len() as int) == old(pool)@,
        forall|t: int|
            0 <= t < shots@.len() ==> {
                let shot = #[trigger] shots@[t];
                &&& in_subtree(old(world)@, source, shot.part)
                &&& can_fire(old(world)@, shot.part, now)
                &&& shot.projectile == old(pool)@.len() + t
                &&& -node(old(world)@, shot.part).weapon.unwrap().half_spread() <= shot.deviation
                    <= node(old(world)@, shot.part).weapon.unwrap().half_spread()
                &&& final(pool)@[shot.projectile as int] == Some(
                    shot_of(old(world)@, shot.part, shot.deviation, now),
                )
            },
        forall|id: PartId|
            in_subtree(old(world)@, source, id) && can_fire(old(world)@, id, now) ==> exists|t: int|
                0 <= t < shots@.len() && (#[trigger] shots@[t]).part == id,
{
    let ghost w = world@;
    let ghost f = pool@;
    let ids = world.subtree(source);
    let mut shots: Vec<Shot> = Vec::new();
    let mut t: usize = 0;
    proof {
        assert forall|u: int| 0 <= u < ids@.len() implies live(w, #[trigger] ids@[u]) by {
            assert(ids@.contains(ids@[u]));
            let k = choose|k: nat| climbs(w, ids@[u], source, k);
            lemma_climbs_live(w, ids@[u], source, k);
        }
        assert(pool@.take(f.len() as int) =~= f);
    }
    while t < ids.len()
        invariant
            t <= ids@.len(),
            world.wf(),
            wf_forest(w),
            ids@.no_duplicates(),
            forall|n: PartId| #![trigger ids@.contains(n)] ids@.contains(n) <==> in_subtree(w, source, n),
            forall|u: int| 0 <= u < ids@.len() ==> live(w, #[trigger] ids@[u]),
            world@.len() == w.len(),
            forall|i: PartId|
                i < w.len() ==> #[trigger] world@[i as int] == if exists|u: int|
                    0 <= u < t && ids@[u] == i {
                    fired_at(w, now, i as int)
                } else {
                    w[i as int]
                },
            pool@.len() == f.len() + shots@.len(),
            pool@.take(f.len() as int) == f,
            forall|s: int|
                0 <= s < shots@.len() ==> {
                    let shot = #[trigger] shots@[s];
                    &&& ids@.contains(shot.part)
                    &&& can_fire(w, shot.part, now)
                    &&& shot.projectile == f.len() + s
                    &&& -node(w, shot.part).weapon.unwrap().half_spread() <= shot.deviation <= node(
                        w,
                        shot.part,
                    ).weapon.unwrap().half_spread()
                    &&& pool@[shot.projectile as int] == Some(
                        shot_of(w, shot.part, shot.deviation, now),
                    )
                },
            forall|u: int|
                0 <= u < t && can_fire(w, #[trigger] ids@[u], now) ==> exists|s: int|
                    0 <= s < shots@.len() && (#[trigger] shots@[s]).part == ids@[u],
        decreases ids@.len() - t,
    {
        let id = ids[t];
        let ghost before = world@;
        let ghost pool_before = pool@;
        let ghost shots_before = shots@;
        proof {
            assert(live(w, ids@[t as int]));
            assert(before[id as int] == w[id as int]) by {
                if exists|u: int| 0 <= u < t && ids@[u] == id {
                    let u = choose|u: int| 0 <= u < t && ids@[u] == id;
                    assert(ids@[u] == ids@[t as int]);
                }
            }
        }
        let spread = match world.get(id) {
            Some(bundle) => match bundle.info.weapon {
                Some(PartWeapon::Projectile { spread, .. }) => spread,
                None => 0,
            },
            None => 0,
        };
        let deviation = draw_deviation(spread);
        match fire_weapon(world, pool, id, deviation, now) {
            Some(projectile) => {
                shots.push(Shot { part: id, projectile, deviation });
                proof {
                    assert(ids@.contains(id));
                    assert(pool@.take(f.len() as int) =~= pool_before.take(f.len() as int));
                    assert forall|s: int| 0 <= s < shots@.len() implies {
                        let shot = #[trigger] shots@[s];
                        &&& ids@.contains(shot.part)
                        &&& can_fire(w, shot.part, now)
                        &&& shot.projectile == f.len() + s
                        &&& -node(w, shot.part).weapon.unwrap().half_spread() <= shot.deviation
                            <= node(w, shot.part).weapon.unwrap().half_spread()
                        &&& pool@[shot.projectile as int] == Some(
                            shot_of(w, shot.part, shot.deviation, now),
                        )
                    } by {
                        if s < shots_before.len() {
                            assert(shots@[s] == shots_before[s]);
                            assert(pool@[shots@[s].projectile as int] == pool_before[shots@[s].projectile as int]);
                        }
                    }
                    assert forall|u: int|
                        0 <= u < t + 1 && can_fire(w, #[trigger] ids@[u], now) implies exists|s: int|
                        0 <= s < shots@.len() && (#[trigger] shots@[s]).part == ids@[u] by {
                        if u < t {
                            let s = choose|s: int|
                                0 <= s < shots_before.len() && (#[trigger] shots_before[s]).part
                                    == ids@[u];
                            assert(shots@[s].part == ids@[u]);
                        } else {
                            assert(shots@[shots_before.len() as int].part == id);
                        }
                    }
                }
            },
            None => {
                proof {
                    assert(!can_fire(w, id, now));
                    assert(fired_at(w, now, id as int) == w[id as int]);
                }
            },
        }
        proof {
            assert(world@[id as int] == fired_at(w, now, id as int));
            assert forall|i: PartId| i < w.len() implies #[trigger] world@[i as int] == if exists|
                u: int,
            |
                0 <= u < t + 1 && ids@[u] == i {
                fired_at(w, now, i as int)
            } else {
                w[i as int]
            } by {
                if i == id {
                    assert(ids@[t as int] == i);
                } else {
                    assert(world@[i as int] == before[i as int]);
                    if exists|u: int| 0 <= u < t + 1 && ids@[u] == i {
                        let u = choose|u: int| 0 <= u < t + 1 && ids@[u] == i;
                        assert(u < t);
                    }
                }
            }
        }
        t += 1;
    }
    proof {
        assert forall|i: int| 0 <= i < w.len() implies world@[i] == fired(w, source, now)[i] by {
            let n = i as PartId;
            assert(world@[n as int] == if exists|u: int| 0 <= u < t && ids@[u] == n {
                fired_at(w, now, n as int)
            } else {
                w[n as int]
            });
            if ids@.contains(n) {
                let u = choose|u: int| 0 <= u < ids@.len() && ids@[u] == n;
                assert(ids@[u] == n);
            }
        }
        assert(world@ =~= fired(w, source, now));
        assert forall|id: PartId| in_subtree(w, source, id) && can_fire(w, id, now) implies exists|
            s: int,
        |
            0 <= s < shots@.len() && (#[trigger] shots@[s]).part == id by {
            assert(ids@.contains(id));
            let u = choose|u: int| 0 <= u < ids@.len() && ids@[u] == id;
            assert(can_fire(w, ids@[u], now));
        }
    }
    shots
}

} // verus!
