//! Structural changes as records: systems decide what is to change, and the
//! changes are applied in order at one point of the tick.

use vstd::prelude::*;
use crate::effects::attachable;
use crate::effects::attached;
use crate::effects::despawned;
use crate::effects::detached;
use crate::forest::Forest;
use crate::forest::live;
use crate::forest::node;
use crate::forest::node_wf;
use crate::forest::PartId;
use crate::forest::PartState;
use crate::projectiles::Flight;
use crate::projectiles::flying;
use crate::projectiles::ProjectileId;
use crate::projectiles::ProjectilePool;
use crate::stats::PartStats;
use crate::world::PartWorld;

verus! {

/// A body that takes part in a collision.
#[derive(Clone, Copy, Debug, PartialEq, Eq)]
pub enum Body {
    Part(PartId),
    Projectile(ProjectileId),
    Other,
}

/// A change that is applied between two ticks.
#[derive(Clone, Copy, Debug, PartialEq, Eq)]
pub enum Command {
    Attach { parent: PartId, part: PartId, hardpoint: usize },
    Detach { part: PartId },
    Despawn { part: PartId },
    ApplyDamage { part: PartId, damage: u32 },
    DespawnProjectile { projectile: ProjectileId },
}

/// The hit points that are left of `hp` after `damage`: never less than zero.
pub open spec fn hp_after(hp: u64, damage: u32) -> u64 {
    if hp >= damage {
        (hp - damage) as u64
    } else {
        0
    }
}

/// The forest after `part` has taken `damage`: its hit points are reduced, and
/// if none is left the part is removed. A handle that names no part leaves the
/// forest as it is.
pub open spec fn damaged(w: Forest, part: PartId, damage: u32) -> Forest {
    if live(w, part) {
        let hp = hp_after(node(w, part).stats.hp, damage);
        if hp == 0 {
            despawned(w, part)
        } else {
            w.update(
                part as int,
                Some(PartState { stats: PartStats { hp, ..node(w, part).stats }, ..node(w, part) }),
            )
        }
    } else {
        w
    }
}

/// The forest after one command.
pub open spec fn applied(w: Forest, command: Command) -> Forest {
    match command {
        Command::Attach { parent, part, hardpoint } => if attachable(w, parent, part, hardpoint) {
            attached(w, parent, part, hardpoint)
        } else {
            w
        },
        Command::Detach { part } => detached(w, part),
        Command::Despawn { part } => despawned(w, part),
        Command::ApplyDamage { part, damage } => damaged(w, part, damage),
        Command::DespawnProjectile { projectile } => w,
    }
}

/// The pool after one command.
pub open spec fn flight_applied(f: Flight, command: Command) -> Flight {
    match command {
        Command::DespawnProjectile { projectile } => if projectile < f.len() {
            f.update(projectile as int, None)
        } else {
            f
        },
        _ => f,
    }
}

/// The forest after the commands of `commands`, in order.
pub open spec fn applied_all(w: Forest, commands: Seq<Command>) -> Forest
    decreases commands.len(),
{
    if commands.len() == 0 {
        w
    } else {
        applied(applied_all(w, commands.drop_last()), commands.last())
    }
}

/// The pool after the commands of `commands`, in order.
pub open spec fn flight_applied_all(f: Flight, commands: Seq<Command>) -> Flight
    decreases commands.len(),
{
    if commands.len() == 0 {
        f
    } else {
        flight_applied(flight_applied_all(f, commands.drop_last()), commands.last())
    }
}

/// The projectile and the part that meet in `event`, if it is the start of a
/// collision between a projectile in flight and a part in the arena.
pub open spec fn hit_of(f: Flight, w: Forest, event: (Body, Body)) -> Option<(ProjectileId, PartId)> {
    match event {
        (Body::Projectile(p), Body::Part(q)) => if flying(f, p) && live(w, q) {
            Some((p, q))
        } else {
            None
        },
        (Body::Part(q), Body::Projectile(p)) => if flying(f, p) && live(w, q) {
            Some((p, q))
        } else {
            None
        },
        _ => None,
    }
}

/// The commands that the collisions of `events` call for: for each hit, in
/// order, the projectile is removed and the part takes the projectile's damage.
pub open spec fn hit_commands(f: Flight, w: Forest, events: Seq<(Body, Body)>) -> Seq<Command>
    decreases events.len(),
{
    if events.len() == 0 {
        Seq::empty()
    } else {
        let rest = hit_commands(f, w, events.drop_last());
        match hit_of(f, w, events.last()) {
            Some((p, q)) => rest.push(Command::DespawnProjectile { projectile: p }).push(
                Command::ApplyDamage { part: q, damage: f[p as int].unwrap().projectile.damage },
            ),
            None => rest,
        }
    }
}

/// Reduces the hit points of `part` by `damage`, not below zero, and removes
/// the part if none is left. Returns whether the part was removed.
pub fn apply_damage(world: &mut PartWorld, part: PartId, damage: u32) -> (destroyed: bool)
    requires
        old(world).wf(),
    ensures
        final(world).wf(),
        final(world)@ == damaged(old(world)@, part, damage),
        destroyed == (live(old(world)@, part) && hp_after(
            node(old(world)@, part).stats.hp,
            damage,
        ) == 0),
{
    let hp = match world.get(part) {
        Some(bundle) => bundle.stats.hp,
        None => {
            return false;
        },
    };
    proof {
        assert(node_wf(world@, part));
    }
    let left = if hp >= damage as u64 {
        hp - damage as u64
    } else {
        0
    };
    if left == 0 {
        world.despawn_part(part);
        true
    } else {
        world.set_hp(part, left);
        false
    }
}

/// Decides what the collisions that started in this tick do: see
/// `hit_commands`. Nothing is changed; the commands are applied later.
pub fn apply_projectiles(pool: &ProjectilePool, world: &PartWorld, events: &Vec<(Body, Body)>) -> (commands:
    Vec<Command>)
    ensures
        commands@ == hit_commands(pool@, world@, events@),
{
    let mut commands: Vec<Command> = Vec::new();
    let mut i: usize = 0;
    assert(events@.take(0) =~= Seq::<(Body, Body)>::empty());
    while i < events.len()
        invariant
            i <= events@.len(),
            commands@ == hit_commands(pool@, world@, events@.take(i as int)),
        decreases events@.len() - i,
    {
        let event = events[i];
        proof {
            assert(events@.take(i + 1).drop_last() =~= events@.take(i as int));
            assert(events@.take(i + 1).last() == event);
        }
        let pair = match event {
            (Body::Projectile(p), Body::Part(q)) => Some((p, q)),
            (Body::Part(q), Body::Projectile(p)) => Some((p, q)),
            _ => None,
        };
        match pair {
            Some((p, q)) => {
                match pool.get(p) {
                    Some(bundle) => {
                        if world.is_live(q) {
                            commands.push(Command::DespawnProjectile { projectile: p });
                            commands.push(
                                Command::ApplyDamage { part: q, damage: bundle.projectile.damage },
                            );
                        }
                    },
                    None => {},
                }
            },
            None => {},
        }
        i += 1;
    }
    assert(events@.take(events@.len() as int) =~= events@);
    commands
}

/// Applies one command.
pub fn apply_command(world: &mut PartWorld, pool: &mut ProjectilePool, command: Command)
    requires
        old(world).wf(),
    ensures
        final(world).wf(),
        final(world)@ == applied(old(world)@, command),
        final(pool)@ == flight_applied(old(pool)@, command),
{
    match command {
        Command::Attach { parent, part, hardpoint } => {
            world.attach_part(parent, part, hardpoint);
        },
        Command::Detach { part } => {
            world.detach_part(part);
        },
        Command::Despawn { part } => {
            world.despawn_part(part);
        },
        Command::ApplyDamage { part, damage } => {
            apply_damage(world, part, damage);
        },
        Command::DespawnProjectile { projectile } => {
            pool.despawn(projectile);
        },
    }
}

/// Applies the commands of `commands` in order. This is the one point of a
/// tick at which the structure of the forest changes.
pub fn apply_commands(world: &mut PartWorld, pool: &mut ProjectilePool, commands: &Vec<Command>)
    requires
        old(world).wf(),
    ensures
        final(world).wf(),
        final(world)@ == applied_all(old(world)@, commands@),
        final(pool)@ == flight_applied_all(old(pool)@, commands@),
{
    let ghost w = world@;
    let ghost f = pool@;
    let mut i: usize = 0;
    assert(commands@.take(0) =~= Seq::<Command>::empty());
    while i < commands.len()
        invariant
            i <= commands@.len(),
            world.wf(),
            world@ == applied_all(w, commands@.take(i as int)),
            pool@ == flight_applied_all(f, commands@.take(i as int)),
        decreases commands@.len() - i,
    {
        proof {
            assert(commands@.take(i + 1).drop_last() =~= commands@.take(i as int));
            assert(commands@.take(i + 1).last() == commands@[i as int]);
        }
        apply_command(world, pool, commands[i]);
        i += 1;
    }
    assert(commands@.take(commands@.len() as int) =~= commands@);
}

} // verus!
