//! Part definitions and the catalog that holds them.

use vstd::prelude::*;
use crate::projectiles::WeaponProjectile;
use crate::projectiles::WeaponProjectileDef;
use crate::stats::PartStats;

verus! {

/// Layering of a mounted part relative to its parent where the two overlap.
#[derive(Clone, Copy, Debug, PartialEq, Eq, Structural)]
pub enum Order {
    Above,
    Below,
}

/// An attachment slot of a part definition.
#[derive(Clone, Copy, Debug, PartialEq, Eq)]
pub struct Hardpoint {
    pub position: (i32, i32),
    pub direction: (i32, i32),
    pub order: Order,
}

/// The frames of an animated part.
#[derive(Debug, PartialEq, Eq)]
pub enum DefAnimation {
    OnMove { idle: String, sequence: Vec<String> },
    OnShoot { idle: String, sequence: Vec<String> },
}

/// What a part looks like.
#[derive(Debug, PartialEq, Eq)]
pub enum DefSprite {
    Basic { path: String },
    Animation { animation: DefAnimation },
}

/// The weapon that a definition declares.
#[derive(Debug, PartialEq, Eq)]
pub enum PartWeaponDef {
    Projectile { spread: u32, cooldown: u64, projectile: WeaponProjectileDef },
}

/// An immutable description of one kind of part.
#[derive(Debug, PartialEq, Eq)]
pub struct PartDef {
    pub name: String,
    pub origin: (i32, i32),
    pub direction: (i32, i32),
    pub stay_upright: Option<bool>,
    pub chassis: Option<bool>,
    pub sprite: DefSprite,
    pub stats: PartStats,
    pub hardpoints: Vec<Hardpoint>,
    pub weapon: Option<PartWeaponDef>,
}

/// A weapon mounted on a live part.
#[derive(Clone, Copy, Debug, PartialEq, Eq)]
pub enum PartWeapon {
    Projectile { spread: u32, cooldown: u64, last_shot: u64, projectile: WeaponProjectile },
}

/// A loaded part: its definition, the size of its sprite and its weapon.
#[derive(Debug, PartialEq, Eq)]
pub struct Part {
    pub def: PartDef,
    pub size: (u32, u32),
    pub weapon: Option<PartWeapon>,
}

impl DefAnimation {
    /// Equality up to the identity of the vectors that hold the frames.
    pub open spec fn same_as(self, other: DefAnimation) -> bool {
        match (self, other) {
            (
                DefAnimation::OnMove { idle: a, sequence: s },
                DefAnimation::OnMove { idle: b, sequence: t },
            ) => a == b && s@ == t@,
            (
                DefAnimation::OnShoot { idle: a, sequence: s },
                DefAnimation::OnShoot { idle: b, sequence: t },
            ) => a == b && s@ == t@,
            _ => false,
        }
    }

    /// A copy with vectors of its own.
    pub fn duplicate(&self) -> (copy: DefAnimation)
        ensures
            copy.same_as(*self),
    {
        match self {
            DefAnimation::OnMove { idle, sequence } => DefAnimation::OnMove {
                idle: idle.clone(),
                sequence: duplicate_strings(sequence),
            },
            DefAnimation::OnShoot { idle, sequence } => DefAnimation::OnShoot {
                idle: idle.clone(),
                sequence: duplicate_strings(sequence),
            },
        }
    }
}

impl DefSprite {
    /// Equality up to the identity of the vectors that hold the frames.
    pub open spec fn same_as(self, other: DefSprite) -> bool {
        match (self, other) {
            (DefSprite::Basic { path: a }, DefSprite::Basic { path: b }) => a == b,
            (DefSprite::Animation { animation: a }, DefSprite::Animation { animation: b }) =>
                a.same_as(b),
            _ => false,
        }
    }

    /// A copy with vectors of its own.
    pub fn duplicate(&self) -> (copy: DefSprite)
        ensures
            copy.same_as(*self),
    {
        match self {
            DefSprite::Basic { path } => DefSprite::Basic { path: path.clone() },
            DefSprite::Animation { animation } => DefSprite::Animation {
                animation: animation.duplicate(),
            },
        }
    }

    /// Whether the sprite is animated.
    pub fn is_animation(&self) -> (animated: bool)
        ensures
            animated == (*self is Animation),
    {
        match self {
            DefSprite::Basic { .. } => false,
            DefSprite::Animation { .. } => true,
        }
    }

    /// The image paths in the order in which they are loaded: the single image
    /// of a basic sprite, or the frames of the sequence followed by the idle
    /// frame.
    pub open spec fn paths(self) -> Seq<String> {
        match self {
            DefSprite::Basic { path } => seq![path],
            DefSprite::Animation { animation: DefAnimation::OnMove { idle, sequence } } =>
                sequence@.push(idle),
            DefSprite::Animation { animation: DefAnimation::OnShoot { idle, sequence } } =>
                sequence@.push(idle),
        }
    }

    /// The image paths in the order in which they are loaded, see `paths`.
    pub fn sprite_paths(&self) -> (paths: Vec<String>)
        ensures
            paths@ == self.paths(),
    {
        match self {
            DefSprite::Basic { path } => {
                let mut out: Vec<String> = Vec::new();
                out.push(path.clone());
                out
            },
            DefSprite::Animation { animation } => match animation {
                DefAnimation::OnMove { idle, sequence } => {
                    let mut out = duplicate_strings(sequence);
                    out.push(idle.clone());
                    out
                },
                DefAnimation::OnShoot { idle, sequence } => {
                    let mut out = duplicate_strings(sequence);
                    out.push(idle.clone());
                    out
                },
            },
        }
    }
}

impl PartWeaponDef {
    /// A copy.
    pub fn duplicate(&self) -> (copy: PartWeaponDef)
        ensures
            copy == *self,
    {
        match self {
            PartWeaponDef::Projectile { spread, cooldown, projectile } => PartWeaponDef::Projectile {
                spread: *spread,
                cooldown: *cooldown,
                projectile: projectile.duplicate(),
            },
        }
    }

    /// The live weapon that this definition gives: it has never fired before
    /// `now`, and an absent velocity or acceleration is zero.
    pub open spec fn mounted(self, projectile_size: (u32, u32), now: u64) -> PartWeapon {
        match self {
            PartWeaponDef::Projectile { spread, cooldown, projectile } => PartWeapon::Projectile {
                spread,
                cooldown,
                last_shot: now,
                projectile: WeaponProjectile {
                    size: projectile_size,
                    damage: projectile.damage,
                    velocity: match projectile.velocity {
                        Some(v) => v,
                        None => 0,
                    },
                    acceleration: match projectile.acceleration {
                        Some(a) => a,
                        None => 0,
                    },
                },
            },
        }
    }

    /// Makes the live weapon that this definition gives, see `mounted`.
    pub fn mount(&self, projectile_size: (u32, u32), now: u64) -> (weapon: PartWeapon)
        ensures
            weapon == self.mounted(projectile_size, now),
    {
        match self {
            PartWeaponDef::Projectile { spread, cooldown, projectile } => PartWeapon::Projectile {
                spread: *spread,
                cooldown: *cooldown,
                last_shot: now,
                projectile: WeaponProjectile {
                    size: projectile_size,
                    damage: projectile.damage,
                    velocity: match projectile.velocity {
                        Some(v) => v,
                        None => 0,
                    },
                    acceleration: match projectile.acceleration {
                        Some(a) => a,
                        None => 0,
                    },
                },
            },
        }
    }
}

impl PartDef {
    /// Equality up to the identity of the vectors inside the definition.
    pub open spec fn same_as(self, other: PartDef) -> bool {
        &&& self.name == other.name
        &&& self.origin == other.origin
        &&& self.direction == other.direction
        &&& self.stay_upright == other.stay_upright
        &&& self.chassis == other.chassis
        &&& self.sprite.same_as(other.sprite)
        &&& self.stats == other.stats
        &&& self.hardpoints@ == other.hardpoints@
        &&& self.weapon == other.weapon
    }

    /// A copy with vectors of its own.
    pub fn duplicate(&self) -> (copy: PartDef)
        ensures
            copy.same_as(*self),
    {
        PartDef {
            name: self.name.clone(),
            origin: self.origin,
            direction: self.direction,
            stay_upright: self.stay_upright,
            chassis: self.chassis,
            sprite: self.sprite.duplicate(),
            stats: self.stats,
            hardpoints: duplicate_hardpoints(&self.hardpoints),
            weapon: match &self.weapon {
                Some(w) => Some(w.duplicate()),
                None => None,
            },
        }
    }

    /// Whether the definition is flagged as a chassis; an absent flag is `false`.
    pub open spec fn chassis_flag(self) -> bool {
        self.chassis == Some(true)
    }

    /// Whether the definition is flagged as a chassis.
    pub fn is_chassis(&self) -> (flag: bool)
        ensures
            flag == self.chassis_flag(),
    {
        match self.chassis {
            Some(flag) => flag,
            None => false,
        }
    }

    /// Whether the part must not be mounted upside down; an absent flag is
    /// `false`.
    pub open spec fn upright_flag(self) -> bool {
        self.stay_upright == Some(true)
    }

    /// Whether the part must not be mounted upside down.
    pub fn stays_upright(&self) -> (flag: bool)
        ensures
            flag == self.upright_flag(),
    {
        match self.stay_upright {
            Some(flag) => flag,
            None => false,
        }
    }

    /// The hardpoints as triples of position, direction and order, in slot
    /// order. Directions are handed out as stored: only their heading matters.
    pub fn hardpoints(&self) -> (points: Vec<((i32, i32), (i32, i32), Order)>)
        ensures
            points@.len() == self.hardpoints@.len(),
            forall|i: int|
                0 <= i < points@.len() ==> #[trigger] points@[i] == (
                    self.hardpoints@[i].position,
                    self.hardpoints@[i].direction,
                    self.hardpoints@[i].order,
                ),
    {
        let mut points: Vec<((i32, i32), (i32, i32), Order)> = Vec::new();
        let mut i: usize = 0;
        while i < self.hardpoints.len()
            invariant
                i <= self.hardpoints.len(),
                points@.len() == i,
                forall|j: int|
                    0 <= j < i ==> #[trigger] points@[j] == (
                        self.hardpoints@[j].position,
                        self.hardpoints@[j].direction,
                        self.hardpoints@[j].order,
                    ),
            decreases self.hardpoints.len() - i,
        {
            let point = self.hardpoints[i];
            points.push((point.position, point.direction, point.order));
            i += 1;
        }
        points
    }

    /// The hardpoint in slot `index`, if the definition has that many.
    pub fn hardpoint(&self, index: usize) -> (point: Option<Hardpoint>)
        ensures
            point == if index < self.hardpoints@.len() {
                Some(self.hardpoints@[index as int])
            } else {
                None
            },
    {
        if index < self.hardpoints.len() {
            Some(self.hardpoints[index])
        } else {
            None
        }
    }
}

impl Part {
    /// Equality up to the identity of the vectors inside the definition.
    pub open spec fn same_as(self, other: Part) -> bool {
        &&& self.def.same_as(other.def)
        &&& self.size == other.size
        &&& self.weapon == other.weapon
    }

    /// A copy with vectors of its own.
    pub fn duplicate(&self) -> (copy: Part)
        ensures
            copy.same_as(*self),
    {
        Part { def: self.def.duplicate(), size: self.size, weapon: self.weapon }
    }

    /// Puts a loaded part together: the weapon is the one that the definition
    /// declares, mounted at time `now` with projectiles of `projectile_size`.
    pub fn assemble(def: PartDef, size: (u32, u32), projectile_size: (u32, u32), now: u64) -> (part:
        Part)
        ensures
            part.def == def,
            part.size == size,
            part.weapon == match def.weapon {
                Some(w) => Some(w.mounted(projectile_size, now)),
                None => None,
            },
    {
        let weapon = match &def.weapon {
            Some(w) => Some(w.mount(projectile_size, now)),
            None => None,
        };
        Part { def, size, weapon }
    }
}

/// A vector that holds copies of the strings of `items`.
fn duplicate_strings(items: &Vec<String>) -> (copy: Vec<String>)
    ensures
        copy@ == items@,
{
    let mut copy: Vec<String> = Vec::new();
    let mut i: usize = 0;
    while i < items.len()
        invariant
            i <= items.len(),
            copy@ == items@.take(i as int),
        decreases items.len() - i,
    {
        copy.push(items[i].clone());
        i += 1;
    }
    copy
}

/// A vector that holds the hardpoints of `items`.
fn duplicate_hardpoints(items: &Vec<Hardpoint>) -> (copy: Vec<Hardpoint>)
    ensures
        copy@ == items@,
{
    let mut copy: Vec<Hardpoint> = Vec::new();
    let mut i: usize = 0;
    while i < items.len()
        invariant
            i <= items.len(),
            copy@ == items@.take(i as int),
        decreases items.len() - i,
    {
        copy.push(items[i]);
        i += 1;
    }
    copy
}

} // verus!
