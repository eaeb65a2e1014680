use part_tree::aggregate::{accumulate_part_stats, sum_stats};
use part_tree::collision::{
    filter_contact_pair, grab_part, nearest_marker, open_hardpoints, release_part, SolverFlags,
    COMPUTE_IMPULSES, GRAB_RANGE_SQUARED,
};
use part_tree::commands::{apply_command, apply_commands, apply_damage, apply_projectiles, Body, Command};
use part_tree::forest::{Owner, PartId};
use part_tree::parts::{DefSprite, Hardpoint, Order, Part, PartDef, PartWeapon};
use part_tree::projectiles::{
    Projectile, ProjectileLifetime, ProjectilePool, WeaponProjectile, WeaponProjectileBundle,
    PROJECTILE_LIFETIME,
};
use part_tree::stats::PartStats;
use part_tree::weapons::{deviation_from, fire_player_weapons, fire_weapon};
use part_tree::world::{CustomPhysicsData, PartWorld};

fn part(name: &str, slots: usize, stats: PartStats) -> Part {
    Part {
        def: PartDef {
            name: name.to_string(),
            origin: (0, 0),
            direction: (0, 1),
            stay_upright: None,
            chassis: None,
            sprite: DefSprite::Basic { path: "png/x.png".to_string() },
            stats,
            hardpoints: vec![
                Hardpoint { position: (0, 0), direction: (0, 1), order: Order::Above };
                slots
            ],
            weapon: None,
        },
        size: (16, 16),
        weapon: None,
    }
}

fn hp(hp: u64) -> PartStats {
    PartStats { hp, speed: None, acceleration: None, force: None }
}

fn speed(speed: i64) -> PartStats {
    PartStats { hp: 0, speed: Some(speed), acceleration: None, force: None }
}

fn armed(name: &str, spread: u32, cooldown: u64, last_shot: u64, damage: u32) -> Part {
    let mut p = part(name, 1, hp(5));
    p.weapon = Some(PartWeapon::Projectile {
        spread,
        cooldown,
        last_shot,
        projectile: WeaponProjectile { size: (2, 2), damage, velocity: 900, acceleration: 0 },
    });
    p
}

fn walker() -> (PartWorld, PartId, Vec<PartId>, PartId) {
    let mut world = PartWorld::new();
    let chassis = world.spawn_part(&part("Box Chassis", 5, hp(10))).unwrap();
    world.set_owner(chassis, Owner::Player);
    let mut legs = Vec::new();
    for i in 0..4 {
        let leg = world
            .spawn_part_on_hardpoint(chassis, &part("Float Leg", 1, speed(10)), i, Some(Owner::Player))
            .unwrap();
        legs.push(leg);
    }
    let head = world
        .spawn_part_on_hardpoint(chassis, &part("Box Head", 5, hp(5)), 4, Some(Owner::Player))
        .unwrap();
    (world, chassis, legs, head)
}

fn snapshot(world: &PartWorld) -> Vec<String> {
    (0..world.len()).map(|id| format!("{:?}", world.get(id))).collect()
}

#[test]
fn aggregate_of_chassis_legs_and_head() {
    let (mut world, chassis, legs, head) = walker();
    accumulate_part_stats(&mut world);
    assert_eq!(
        world.get(chassis).unwrap().tree_root.unwrap().cumulative_stats,
        PartStats { hp: 15, speed: Some(40), acceleration: Some(0), force: Some(0) }
    );
    for id in legs {
        assert_eq!(world.get(id).unwrap().tree_root, None);
    }
    assert_eq!(world.get(head).unwrap().tree_root, None);
}

#[test]
fn aggregate_is_recomputed_on_every_pass() {
    let (mut world, chassis, legs, _head) = walker();
    accumulate_part_stats(&mut world);
    accumulate_part_stats(&mut world);
    assert_eq!(world.get(chassis).unwrap().tree_root.unwrap().cumulative_stats.speed, Some(40));
    world.detach_part(legs[0]);
    accumulate_part_stats(&mut world);
    assert_eq!(
        world.get(chassis).unwrap().tree_root.unwrap().cumulative_stats,
        PartStats { hp: 15, speed: Some(30), acceleration: Some(0), force: Some(0) }
    );
    assert_eq!(
        world.get(legs[0]).unwrap().tree_root.unwrap().cumulative_stats,
        PartStats { hp: 0, speed: Some(10), acceleration: Some(0), force: Some(0) }
    );
}

#[test]
fn aggregate_covers_every_root() {
    let mut world = PartWorld::new();
    let a = world.spawn_part(&part("a", 1, hp(7))).unwrap();
    let b = world.spawn_part(&part("b", 1, PartStats { hp: 1, speed: Some(-4), acceleration: Some(2), force: Some(9) })).unwrap();
    let c = world.spawn_part(&part("c", 0, PartStats { hp: 2, speed: Some(1), acceleration: None, force: Some(-10) })).unwrap();
    assert!(world.attach_part(b, c, 0));
    world.despawn_part(a);
    accumulate_part_stats(&mut world);
    assert!(world.get(a).is_none());
    assert_eq!(
        world.get(b).unwrap().tree_root.unwrap().cumulative_stats,
        PartStats { hp: 3, speed: Some(-3), acceleration: Some(2), force: Some(-1) }
    );
}

#[test]
fn sum_does_not_depend_on_the_order() {
    let (world, chassis, legs, head) = walker();
    let walk = world.subtree(chassis);
    let mut shuffled = vec![head, legs[2], chassis, legs[0], legs[3], legs[1]];
    let expected = PartStats { hp: 15, speed: Some(40), acceleration: Some(0), force: Some(0) };
    assert_eq!(sum_stats(&world, &walk), expected);
    assert_eq!(sum_stats(&world, &shuffled), expected);
    shuffled.reverse();
    assert_eq!(sum_stats(&world, &shuffled), expected);
    assert_eq!(sum_stats(&world, &Vec::new()), PartStats::default());
}

#[test]
fn aggregate_holds_the_largest_values() {
    let mut world = PartWorld::new();
    let big = PartStats { hp: 0xFFFF_FFFF, speed: Some(0x7FFF_FFFF), acceleration: Some(-0x7FFF_FFFF), force: None };
    let root = world.spawn_part(&part("root", 2, big)).unwrap();
    world.spawn_part_on_hardpoint(root, &part("x", 0, big), 0, None).unwrap();
    world.spawn_part_on_hardpoint(root, &part("y", 0, big), 1, None).unwrap();
    accumulate_part_stats(&mut world);
    assert_eq!(
        world.get(root).unwrap().tree_root.unwrap().cumulative_stats,
        PartStats {
            hp: 3 * 0xFFFF_FFFF,
            speed: Some(3 * 0x7FFF_FFFF),
            acceleration: Some(-3 * 0x7FFF_FFFF),
            force: Some(0)
        }
    );
}

#[test]
fn filter_lets_strangers_collide() {
    let a = CustomPhysicsData { part_tree_root: Some(1), disable_collision: false };
    let b = CustomPhysicsData { part_tree_root: Some(2), disable_collision: false };
    assert_eq!(filter_contact_pair(Some(a), Some(b)), Some(SolverFlags { bits: COMPUTE_IMPULSES }));
    assert_eq!(filter_contact_pair(Some(a), None), Some(SolverFlags { bits: 1 }));
    assert_eq!(filter_contact_pair(None, Some(b)), Some(SolverFlags { bits: 1 }));
}

#[test]
fn filter_keeps_a_tree_from_hitting_itself() {
    let a = CustomPhysicsData { part_tree_root: Some(1), disable_collision: false };
    let same = CustomPhysicsData { part_tree_root: Some(1), disable_collision: true };
    let none = CustomPhysicsData { part_tree_root: None, disable_collision: false };
    assert_eq!(filter_contact_pair(Some(a), Some(a)), None);
    assert_eq!(filter_contact_pair(Some(a), Some(same)), None);
    assert_eq!(filter_contact_pair(Some(none), None), None);
    assert_eq!(filter_contact_pair(None, None), None);
}

#[test]
fn filter_respects_disabled_collisions() {
    let a = CustomPhysicsData { part_tree_root: Some(1), disable_collision: true };
    let b = CustomPhysicsData { part_tree_root: Some(2), disable_collision: false };
    assert_eq!(filter_contact_pair(Some(a), Some(b)), None);
    assert_eq!(filter_contact_pair(Some(b), Some(a)), None);
    assert_eq!(filter_contact_pair(Some(a), None), None);
}

#[test]
fn set_collision_covers_the_subtree() {
    let (mut world, chassis, legs, head) = walker();
    let gun = world.spawn_part_on_hardpoint(head, &part("Blaster", 0, hp(1)), 4, None).unwrap();
    world.set_collision(head, false);
    assert!(world.get(head).unwrap().custom_data.disable_collision);
    assert!(world.get(gun).unwrap().custom_data.disable_collision);
    assert!(!world.get(chassis).unwrap().custom_data.disable_collision);
    assert!(!world.get(legs[0]).unwrap().custom_data.disable_collision);
    world.set_collision(chassis, true);
    for id in [chassis, head, gun, legs[3]] {
        assert!(!world.get(id).unwrap().custom_data.disable_collision);
    }
    let before = snapshot(&world);
    world.set_collision(99, false);
    assert_eq!(snapshot(&world), before);
}

#[test]
fn grab_detaches_and_disables_collisions() {
    let (mut world, chassis, legs, head) = walker();
    let gun = world.spawn_part_on_hardpoint(head, &part("Blaster", 0, hp(1)), 4, None).unwrap();
    assert!(grab_part(&mut world, head));
    for id in [head, gun] {
        let bundle = world.get(id).unwrap();
        assert!(bundle.custom_data.disable_collision);
        assert_eq!(bundle.custom_data.part_tree_root, Some(head));
        assert_eq!(bundle.owner, Owner::Neutral);
    }
    assert_eq!(world.get(head).unwrap().part_parent, None);
    assert_eq!(world.get(chassis).unwrap().part_children[4], None);
    assert!(!world.get(chassis).unwrap().custom_data.disable_collision);
    assert!(!world.get(legs[1]).unwrap().custom_data.disable_collision);
    // released on a free hardpoint of a leg
    assert!(release_part(&mut world, head, Some((legs[1], 0))));
    for id in [head, gun] {
        let bundle = world.get(id).unwrap();
        assert!(!bundle.custom_data.disable_collision);
        assert_eq!(bundle.custom_data.part_tree_root, Some(chassis));
        assert_eq!(bundle.owner, Owner::Player);
    }
    assert_eq!(world.get(head).unwrap().part_parent, Some(legs[1]));
    assert_eq!(world.get(legs[1]).unwrap().part_children[0], Some(head));
}

#[test]
fn grab_refuses_roots_enemies_and_strangers() {
    let (mut world, chassis, _legs, _head) = walker();
    let enemy = world.spawn_part(&part("enemy", 1, hp(3))).unwrap();
    world.set_owner(enemy, Owner::Enemy);
    let claw = world.spawn_part_on_hardpoint(enemy, &part("claw", 0, hp(1)), 0, None).unwrap();
    let before = snapshot(&world);
    assert!(!grab_part(&mut world, chassis));
    assert!(!grab_part(&mut world, claw));
    assert!(!grab_part(&mut world, 1000));
    assert_eq!(snapshot(&world), before);
}

#[test]
fn release_without_target_only_restores_collisions() {
    let (mut world, chassis, legs, _head) = walker();
    assert!(grab_part(&mut world, legs[2]));
    assert!(!release_part(&mut world, legs[2], None));
    let bundle = world.get(legs[2]).unwrap();
    assert!(!bundle.custom_data.disable_collision);
    assert_eq!(bundle.part_parent, None);
    assert_eq!(bundle.custom_data.part_tree_root, Some(legs[2]));
    // a target that is taken leaves the part loose as well
    assert!(grab_part(&mut world, legs[3]));
    assert!(!release_part(&mut world, legs[3], Some((chassis, 0))));
    assert_eq!(world.get(legs[3]).unwrap().part_parent, None);
    assert!(!world.get(legs[3]).unwrap().custom_data.disable_collision);
}

#[test]
fn nearest_marker_takes_the_first_of_the_nearest() {
    assert_eq!(nearest_marker(&vec![], GRAB_RANGE_SQUARED), None);
    assert_eq!(nearest_marker(&vec![2500, 9000], GRAB_RANGE_SQUARED), None);
    assert_eq!(nearest_marker(&vec![2499], GRAB_RANGE_SQUARED), Some(0));
    assert_eq!(nearest_marker(&vec![3000, 100, 7, 2400, 7, 0x10000], GRAB_RANGE_SQUARED), Some(2));
    assert_eq!(nearest_marker(&vec![5, 5, 5], 6), Some(0));
    assert_eq!(nearest_marker(&vec![5, 5, 5], 5), None);
}

#[test]
fn open_hardpoints_are_the_free_slots_of_the_owner() {
    let (mut world, chassis, legs, head) = walker();
    let enemy = world.spawn_part(&part("enemy", 2, hp(3))).unwrap();
    world.set_owner(enemy, Owner::Enemy);
    assert!(grab_part(&mut world, legs[1]));
    let points = open_hardpoints(&world, Owner::Player, legs[1]);
    assert_eq!(
        points,
        vec![
            (chassis, 1),
            (legs[0], 0),
            (legs[2], 0),
            (legs[3], 0),
            (head, 0),
            (head, 1),
            (head, 2),
            (head, 3),
            (head, 4)
        ]
    );
    assert_eq!(open_hardpoints(&world, Owner::Enemy, legs[1]), vec![(enemy, 0), (enemy, 1)]);
    assert_eq!(open_hardpoints(&world, Owner::Enemy, enemy), vec![]);
}

#[test]
fn two_hits_destroy_a_part_of_twenty_hit_points() {
    let mut world = PartWorld::new();
    let root = world.spawn_part(&part("root", 1, hp(50))).unwrap();
    let target = world.spawn_part_on_hardpoint(root, &part("target", 2, hp(20)), 0, None).unwrap();
    let x = world.spawn_part_on_hardpoint(target, &part("x", 1, hp(1)), 0, None).unwrap();
    let y = world.spawn_part_on_hardpoint(target, &part("y", 0, hp(1)), 1, None).unwrap();
    let z = world.spawn_part_on_hardpoint(x, &part("z", 0, hp(1)), 0, None).unwrap();
    assert!(!apply_damage(&mut world, target, 12));
    assert_eq!(world.get(target).unwrap().stats.hp, 8);
    assert_eq!(world.get(target).unwrap().part_parent, Some(root));
    assert!(apply_damage(&mut world, target, 12));
    assert!(world.get(target).is_none());
    assert_eq!(world.get(root).unwrap().part_children, vec![None]);
    for id in [x, y] {
        assert_eq!(world.get(id).unwrap().part_parent, None);
        assert_eq!(world.get(id).unwrap().custom_data.part_tree_root, Some(id));
        assert!(world.get(id).unwrap().tree_root.is_some());
    }
    assert_eq!(world.get(z).unwrap().part_parent, Some(x));
    assert_eq!(world.get(z).unwrap().custom_data.part_tree_root, Some(x));
    assert!(!apply_damage(&mut world, target, 12));
}

#[test]
fn damage_saturates_at_zero() {
    let mut world = PartWorld::new();
    let id = world.spawn_part(&part("a", 0, hp(5))).unwrap();
    assert!(apply_damage(&mut world, id, u32::MAX));
    assert!(!world.is_live(id));
    let other = world.spawn_part(&part("b", 0, hp(5))).unwrap();
    assert!(!apply_damage(&mut world, other, 0));
    assert_eq!(world.get(other).unwrap().stats.hp, 5);
    assert!(apply_damage(&mut world, other, 5));
    let zero = world.spawn_part(&part("c", 0, hp(0))).unwrap();
    assert!(apply_damage(&mut world, zero, 0));
}

#[test]
fn projectile_carries_the_root_and_lasts_thirty_seconds() {
    let template = WeaponProjectile { size: (3, 1), damage: 12, velocity: 700, acceleration: -2 };
    let bundle = WeaponProjectileBundle::new(4, &template, -15, 1000);
    assert_eq!(
        bundle,
        WeaponProjectileBundle {
            projectile: Projectile { damage: 12 },
            custom_physics: CustomPhysicsData { part_tree_root: Some(4), disable_collision: false },
            size: (3, 1),
            velocity: 700,
            acceleration: -2,
            deviation: -15,
            lifetime: ProjectileLifetime { spawned: 1000, lifetime: 30_000 },
        }
    );
    assert_eq!(PROJECTILE_LIFETIME, 30_000);
    assert!(!bundle.lifetime.is_expired(1000));
    assert!(!bundle.lifetime.is_expired(30_999));
    assert!(bundle.lifetime.is_expired(31_000));
    assert!(!bundle.lifetime.is_expired(0));
}

#[test]
fn old_projectiles_are_removed() {
    let template = WeaponProjectile { size: (1, 1), damage: 1, velocity: 1, acceleration: 0 };
    let mut pool = ProjectilePool::new();
    let a = pool.spawn(WeaponProjectileBundle::new(0, &template, 0, 0));
    let b = pool.spawn(WeaponProjectileBundle::new(0, &template, 0, 10_000));
    let c = pool.spawn(WeaponProjectileBundle::new(0, &template, 0, 500));
    assert_eq!((a, b, c), (0, 1, 2));
    assert_eq!(pool.despawn_old_projectiles(29_999), Vec::<usize>::new());
    assert_eq!(pool.despawn_old_projectiles(30_500), vec![a, c]);
    assert_eq!(pool.get(a), None);
    assert!(pool.get(b).is_some());
    assert_eq!(pool.get(c), None);
    assert_eq!(pool.despawn_old_projectiles(30_500), Vec::<usize>::new());
    assert_eq!(pool.len(), 3);
    pool.despawn(b);
    pool.despawn(17);
    assert_eq!(pool.get(b), None);
}

#[test]
fn collisions_become_commands() {
    let (world, chassis, legs, _head) = walker();
    let template = WeaponProjectile { size: (1, 1), damage: 12, velocity: 1, acceleration: 0 };
    let mut pool = ProjectilePool::new();
    let p = pool.spawn(WeaponProjectileBundle::new(50, &template, 0, 0));
    let q = pool.spawn(WeaponProjectileBundle::new(50, &WeaponProjectile { damage: 3, ..template }, 0, 0));
    pool.despawn(q);
    let events = vec![
        (Body::Projectile(p), Body::Part(chassis)),
        (Body::Part(legs[0]), Body::Projectile(p)),
        (Body::Projectile(p), Body::Projectile(p)),
        (Body::Part(chassis), Body::Part(legs[0])),
        (Body::Projectile(q), Body::Part(chassis)),
        (Body::Projectile(p), Body::Part(999)),
        (Body::Other, Body::Projectile(p)),
        (Body::Projectile(77), Body::Part(chassis)),
    ];
    assert_eq!(
        apply_projectiles(&pool, &world, &events),
        vec![
            Command::DespawnProjectile { projectile: p },
            Command::ApplyDamage { part: chassis, damage: 12 },
            Command::DespawnProjectile { projectile: p },
            Command::ApplyDamage { part: legs[0], damage: 12 },
        ]
    );
}

#[test]
fn commands_are_applied_in_order() {
    let (mut world, chassis, legs, head) = walker();
    let template = WeaponProjectile { size: (1, 1), damage: 12, velocity: 1, acceleration: 0 };
    let mut pool = ProjectilePool::new();
    let p = pool.spawn(WeaponProjectileBundle::new(50, &template, 0, 0));
    let commands = vec![
        Command::Detach { part: legs[0] },
        Command::Attach { parent: head, part: legs[0], hardpoint: 2 },
        Command::Attach { parent: head, part: legs[1], hardpoint: 3 },
        Command::DespawnProjectile { projectile: p },
        Command::ApplyDamage { part: head, damage: 4 },
        Command::Despawn { part: legs[3] },
        Command::ApplyDamage { part: legs[3], damage: 1 },
        Command::ApplyDamage { part: chassis, damage: 10 },
    ];
    apply_commands(&mut world, &mut pool, &commands);
    assert_eq!(pool.get(p), None);
    assert!(world.get(chassis).is_none());
    assert!(world.get(legs[3]).is_none());
    assert_eq!(world.get(head).unwrap().stats.hp, 1);
    assert_eq!(world.get(head).unwrap().part_parent, None);
    assert_eq!(world.get(head).unwrap().part_children, vec![None, None, Some(legs[0]), None, None]);
    assert_eq!(world.get(legs[0]).unwrap().custom_data.part_tree_root, Some(head));
    assert_eq!(world.get(legs[1]).unwrap().part_parent, None);
    assert_eq!(world.get(legs[2]).unwrap().part_parent, None);
    let mut single = PartWorld::new();
    let a = single.spawn_part(&part("a", 0, hp(3))).unwrap();
    apply_command(&mut single, &mut pool, Command::ApplyDamage { part: a, damage: 2 });
    assert_eq!(single.get(a).unwrap().stats.hp, 1);
}

#[test]
fn weapon_fires_only_after_its_cooldown() {
    let mut world = PartWorld::new();
    let mut pool = ProjectilePool::new();
    let root = world.spawn_part(&part("root", 2, hp(10))).unwrap();
    let gun = world.spawn_part_on_hardpoint(root, &armed("gun", 0, 500, 1000, 12), 0, None).unwrap();
    assert_eq!(fire_weapon(&mut world, &mut pool, gun, 3, 1499), None);
    assert_eq!(fire_weapon(&mut world, &mut pool, gun, 3, 900), None);
    assert_eq!(fire_weapon(&mut world, &mut pool, root, 3, 5000), None);
    assert_eq!(fire_weapon(&mut world, &mut pool, 99, 3, 5000), None);
    assert_eq!(pool.len(), 0);
    assert_eq!(fire_weapon(&mut world, &mut pool, gun, 3, 1500), Some(0));
    let shot = pool.get(0).unwrap();
    assert_eq!(shot.projectile.damage, 12);
    assert_eq!(shot.custom_physics.part_tree_root, Some(root));
    assert_eq!(shot.deviation, 3);
    assert_eq!(shot.lifetime, ProjectileLifetime { spawned: 1500, lifetime: 30_000 });
    match world.get(gun).unwrap().info.weapon.unwrap() {
        PartWeapon::Projectile { last_shot, cooldown, .. } => {
            assert_eq!(last_shot, 1500);
            assert_eq!(cooldown, 500);
        }
    }
    assert_eq!(fire_weapon(&mut world, &mut pool, gun, 3, 1999), None);
    assert_eq!(fire_weapon(&mut world, &mut pool, gun, 3, 2000), Some(1));
}

#[test]
fn every_ready_weapon_of_the_tree_fires() {
    let mut world = PartWorld::new();
    let mut pool = ProjectilePool::new();
    let root = world.spawn_part(&part("root", 3, hp(10))).unwrap();
    let ready = world.spawn_part_on_hardpoint(root, &armed("ready", 40, 100, 0, 1), 0, None).unwrap();
    let hot = world.spawn_part_on_hardpoint(root, &armed("hot", 40, 100, 950, 2), 1, None).unwrap();
    let deep = world.spawn_part_on_hardpoint(ready, &armed("deep", 1, 0, 1000, 3), 0, None).unwrap();
    let stranger = world.spawn_part(&armed("stranger", 40, 0, 0, 4)).unwrap();
    let shots = fire_player_weapons(&mut world, &mut pool, root, 1000);
    assert_eq!(shots.len(), 2);
    let mut fired: Vec<PartId> = shots.iter().map(|s| s.part).collect();
    fired.sort();
    assert_eq!(fired, vec![ready, deep]);
    assert_eq!(pool.len(), 2);
    for (t, shot) in shots.iter().enumerate() {
        assert_eq!(shot.projectile, t);
        let bundle = pool.get(shot.projectile).unwrap();
        assert_eq!(bundle.custom_physics.part_tree_root, Some(root));
        assert_eq!(bundle.deviation, shot.deviation);
        assert_eq!(bundle.lifetime.spawned, 1000);
        if shot.part == deep {
            assert_eq!(shot.deviation, 0);
            assert_eq!(bundle.projectile.damage, 3);
        } else {
            assert!(-20 <= shot.deviation && shot.deviation <= 20);
            assert_eq!(bundle.projectile.damage, 1);
        }
    }
    for (id, expected) in [(ready, 1000), (hot, 950), (deep, 1000), (stranger, 0)] {
        match world.get(id).unwrap().info.weapon.unwrap() {
            PartWeapon::Projectile { last_shot, .. } => assert_eq!(last_shot, expected),
        }
    }
    let mut later: Vec<PartId> =
        fire_player_weapons(&mut world, &mut pool, root, 1050).iter().map(|s| s.part).collect();
    later.sort();
    assert_eq!(later, vec![hot, deep]);
    assert!(fire_player_weapons(&mut world, &mut pool, 999, 5000).is_empty());
}

#[test]
fn projectile_carries_the_root_of_the_firing_tree() {
    let mut world = PartWorld::new();
    let mut pool = ProjectilePool::new();
    let root = world.spawn_part(&part("root", 1, hp(10))).unwrap();
    let arm = world.spawn_part_on_hardpoint(root, &part("arm", 1, hp(2)), 0, None).unwrap();
    let gun = world.spawn_part_on_hardpoint(arm, &armed("gun", 0, 0, 0, 9), 0, None).unwrap();
    let shots = fire_player_weapons(&mut world, &mut pool, arm, 10);
    assert_eq!(shots.len(), 1);
    assert_eq!(shots[0].part, gun);
    assert_eq!(pool.get(shots[0].projectile).unwrap().custom_physics.part_tree_root, Some(root));
    world.detach_part(arm);
    assert_eq!(fire_weapon(&mut world, &mut pool, gun, 0, 20), Some(1));
    assert_eq!(pool.get(1).unwrap().custom_physics.part_tree_root, Some(arm));
}

#[test]
fn deviation_stays_within_half_the_spread() {
    let mut world = PartWorld::new();
    let mut pool = ProjectilePool::new();
    let root = world.spawn_part(&part("root", 1, hp(10))).unwrap();
    world.spawn_part_on_hardpoint(root, &armed("gun", 7, 0, 0, 1), 0, None).unwrap();
    let mut seen = [false; 7];
    for now in 0..400 {
        let shots = fire_player_weapons(&mut world, &mut pool, root, now);
        assert_eq!(shots.len(), 1);
        let d = shots[0].deviation;
        assert!(-3 <= d && d <= 3, "deviation {} out of range", d);
        seen[(d + 3) as usize] = true;
    }
    assert!(seen.iter().filter(|s| **s).count() > 1);
}

#[test]
fn drawn_number_stands_for_a_deviation() {
    assert_eq!(deviation_from(7, 0), -3);
    assert_eq!(deviation_from(7, 3), 0);
    assert_eq!(deviation_from(7, 6), 3);
    assert_eq!(deviation_from(0, 0), 0);
    assert_eq!(deviation_from(1, 0), 0);
    assert_eq!(deviation_from(u32::MAX, 0), -0x7FFF_FFFF);
    assert_eq!(deviation_from(u32::MAX, 0xFFFF_FFFE), 0x7FFF_FFFF);
}
