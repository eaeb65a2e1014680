//! Projectiles: what a weapon fires, and what a hit does.

use vstd::prelude::*;
use crate::forest::PartId;
use crate::world::CustomPhysicsData;

verus! {

/// The projectile that a weapon definition declares.
#[derive(Debug, PartialEq, Eq)]
pub struct WeaponProjectileDef {
    pub sprite_path: String,
    pub damage: u32,
    pub velocity: Option<i64>,
    pub acceleration: Option<i64>,
}

impl WeaponProjectileDef {
    /// A copy.
    pub fn duplicate(&self) -> (copy: WeaponProjectileDef)
        ensures
            copy == *self,
    {
        WeaponProjectileDef {
            sprite_path: self.sprite_path.clone(),
            damage: self.damage,
            velocity: self.velocity,
            acceleration: self.acceleration,
        }
    }
}

/// The template from which a weapon makes its projectiles.
#[derive(Clone, Copy, Debug, PartialEq, Eq)]
pub struct WeaponProjectile {
    pub size: (u32, u32),
    pub damage: u32,
    pub velocity: i64,
    pub acceleration: i64,
}

/// Handle of a projectile: its index in the pool.
pub type ProjectileId = usize;

/// The time after which a projectile is removed, whatever it has hit.
pub const PROJECTILE_LIFETIME: u64 = 30_000;

/// What a projectile does to the part that it hits.
#[derive(Clone, Copy, Debug, PartialEq, Eq)]
pub struct Projectile {
    pub damage: u32,
}

/// When a projectile was made and how long it lasts.
#[derive(Clone, Copy, Debug, PartialEq, Eq)]
pub struct ProjectileLifetime {
    pub spawned: u64,
    pub lifetime: u64,
}

/// Everything that belongs to one projectile in flight.
#[derive(Clone, Copy, Debug, PartialEq, Eq)]
pub struct WeaponProjectileBundle {
    pub projectile: Projectile,
    pub custom_physics: CustomPhysicsData,
    pub size: (u32, u32),
    pub velocity: i64,
    pub acceleration: i64,
    /// The angle by which the projectile leaves the line of aim.
    pub deviation: i64,
    pub lifetime: ProjectileLifetime,
}

impl ProjectileLifetime {
    /// Whether the lifetime is over at time `now`.
    pub open spec fn expired(self, now: u64) -> bool {
        now - self.spawned >= self.lifetime
    }

    /// Whether the lifetime is over at time `now`.
    pub fn is_expired(&self, now: u64) -> (over: bool)
        ensures
            over == self.expired(now),
    {
        now >= self.spawned && now - self.spawned >= self.lifetime
    }
}

impl WeaponProjectileBundle {
    /// The projectile that the tree rooted at `source` fires from the template
    /// `proj` at time `now`. It carries the root of the firing tree, so that it
    /// does not collide with the vehicle that fired it, and lasts for
    /// `PROJECTILE_LIFETIME`.
    pub fn new(source: PartId, proj: &WeaponProjectile, deviation: i64, now: u64) -> (bundle:
        WeaponProjectileBundle)
        ensures
            bundle == (WeaponProjectileBundle {
                projectile: Projectile { damage: proj.damage },
                custom_physics: CustomPhysicsData {
                    part_tree_root: Some(source),
                    disable_collision: false,
                },
                size: proj.size,
                velocity: proj.velocity,
                acceleration: proj.acceleration,
                deviation,
                lifetime: ProjectileLifetime { spawned: now, lifetime: PROJECTILE_LIFETIME },
            }),
    {
        WeaponProjectileBundle {
            projectile: Projectile { damage: proj.damage },
            custom_physics: CustomPhysicsData {
                part_tree_root: Some(source),
                disable_collision: false,
            },
            size: proj.size,
            velocity: proj.velocity,
            acceleration: proj.acceleration,
            deviation,
            lifetime: ProjectileLifetime { spawned: now, lifetime: PROJECTILE_LIFETIME },
        }
    }
}

/// The projectiles in flight.
pub struct ProjectilePool {
    items: Vec<Option<WeaponProjectileBundle>>,
}

/// The mathematical value of the pool: one entry per handle given out so far,
/// `None` where the projectile has been removed.
pub type Flight = Seq<Option<WeaponProjectileBundle>>;

/// Whether `id` names a projectile that is in flight.
pub open spec fn flying(f: Flight, id: ProjectileId) -> bool {
    id < f.len() && f[id as int] is Some
}

/// The entry of the pool at `i` once the projectiles whose lifetime is over at
/// `now` have been removed.
pub open spec fn swept_at(f: Flight, now: u64, i: int) -> Option<WeaponProjectileBundle> {
    match f[i] {
        Some(b) => if b.lifetime.expired(now) {
            None
        } else {
            Some(b)
        },
        None => None,
    }
}

/// The pool once the projectiles whose lifetime is over at `now` have been
/// removed.
pub open spec fn swept(f: Flight, now: u64) -> Flight {
    Seq::new(f.len(), |i: int| swept_at(f, now, i))
}

impl View for ProjectilePool {
    type V = Flight;

    closed spec fn view(&self) -> Flight {
        self.items@
    }
}

impl ProjectilePool {
    /// A pool without projectiles.
    pub fn new() -> (pool: ProjectilePool)
        ensures
            pool@.len() == 0,
    {
        ProjectilePool { items: Vec::new() }
    }

    /// The number of handles given out so far.
    pub fn len(&self) -> (n: usize)
        ensures
            n == self@.len(),
    {
        self.items.len()
    }

    /// The projectile `id`, if it is in flight.
    pub fn get(&self, id: ProjectileId) -> (bundle: Option<WeaponProjectileBundle>)
        ensures
            bundle == if id < self@.len() {
                self@[id as int]
            } else {
                None
            },
    {
        if id < self.items.len() {
            self.items[id]
        } else {
            None
        }
    }

    /// Puts a projectile in flight and returns its handle.
    pub fn spawn(&mut self, bundle: WeaponProjectileBundle) -> (id: ProjectileId)
        ensures
            id == old(self)@.len(),
            final(self)@ == old(self)@.push(Some(bundle)),
    {
        let id = self.items.len();
        self.items.push(Some(bundle));
        id
    }

    /// Removes the projectile `id`. A handle that names no projectile changes
    /// nothing.
    pub fn despawn(&mut self, id: ProjectileId)
        ensures
            final(self)@ == if id < old(self)@.len() {
                old(self)@.update(id as int, None)
            } else {
                old(self)@
            },
    {
        if id < self.items.len() {
            self.items.set(id, None);
        }
    }

    /// Removes every projectile whose lifetime is over at time `now` and
    /// returns the handles of those removed, in ascending order.
    pub fn despawn_old_projectiles(&mut self, now: u64) -> (removed: Vec<ProjectileId>)
        ensures
            final(self)@ == swept(old(self)@, now),
            forall|id: ProjectileId|
                #![trigger removed@.contains(id)]
                removed@.contains(id) <==> flying(old(self)@, id) && old(self)@[id as int].unwrap().lifetime.expired(
                    now,
                ),
            forall|s: int, t: int| 0 <= s < t < removed@.len() ==> removed@[s] < removed@[t],
    {
        let ghost f = self@;
        let mut removed: Vec<ProjectileId> = Vec::new();
        let mut id: usize = 0;
        while id < self.items.len()
            invariant
                id <= f.len(),
                self@.len() == f.len(),
                forall|i: int|
                    0 <= i < f.len() ==> #[trigger] self@[i] == if i < id {
                        swept_at(f, now, i)
                    } else {
                        f[i]
                    },
                forall|n: ProjectileId|
                    #![trigger removed@.contains(n)]
                    removed@.contains(n) <==> n < id && flying(f, n) && f[n as int].unwrap().lifetime.expired(
                        now,
                    ),
                forall|s: int, t: int| 0 <= s < t < removed@.len() ==> removed@[s] < removed@[t],
                forall|s: int| 0 <= s < removed@.len() ==> removed@[s] < id,
            decreases f.len() - id,
        {
            let over = match &self.items[id] {
                Some(bundle) => bundle.lifetime.is_expired(now),
                None => false,
            };
            let ghost before = removed@;
            if over {
                self.items.set(id, None);
                removed.push(id);
            }
            proof {
                assert forall|n: ProjectileId|
                    #![trigger removed@.contains(n)]
                    removed@.contains(n) <==> n < id + 1 && flying(f, n) && f[n as int].unwrap().lifetime.expired(
                        now,
                    ) by {
                    if over {
                        vstd::seq_lib::lemma_seq_contains_after_push(before, id, n);
                    }
                }
            }
            id += 1;
        }
        proof {
            assert(self@ =~= swept(f, now));
        }
        removed
    }
}

} // verus!
