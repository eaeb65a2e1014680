use part_tree::catalog::PartTable;
use part_tree::parts::{
    DefAnimation, DefSprite, Hardpoint, Order, Part, PartDef, PartWeapon, PartWeaponDef,
};
use part_tree::projectiles::{WeaponProjectile, WeaponProjectileDef};
use part_tree::stats::{PartStats, MAX_PART_HP, MAX_PART_STAT};
use part_tree::utils::VecExt;

fn plain(name: &str, chassis: Option<bool>) -> Part {
    Part {
        def: PartDef {
            name: name.to_string(),
            origin: (0, 0),
            direction: (0, 1),
            stay_upright: None,
            chassis,
            sprite: DefSprite::Basic { path: "png/x.png".to_string() },
            stats: PartStats { hp: 1, speed: None, acceleration: None, force: None },
            hardpoints: vec![
                Hardpoint { position: (1, 2), direction: (0, 1), order: Order::Above },
                Hardpoint { position: (3, 4), direction: (1, 0), order: Order::Below },
            ],
            weapon: None,
        },
        size: (8, 4),
        weapon: None,
    }
}

#[test]
fn add_counts_absent_fields_as_zero() {
    let a = PartStats { hp: 10, speed: None, acceleration: Some(-3), force: None };
    let b = PartStats { hp: 5, speed: Some(40), acceleration: Some(1), force: None };
    let sum = a.add(b);
    assert_eq!(sum, PartStats { hp: 15, speed: Some(40), acceleration: Some(-2), force: Some(0) });
    assert_eq!(b.add(a), sum);
}

#[test]
fn add_never_brings_absence_back() {
    let zero = PartStats::default();
    assert_eq!(zero, PartStats { hp: 0, speed: None, acceleration: None, force: None });
    assert_eq!(
        zero.add(zero),
        PartStats { hp: 0, speed: Some(0), acceleration: Some(0), force: Some(0) }
    );
}

#[test]
fn add_assign_adds_in_place() {
    let mut total = PartStats { hp: 1, speed: Some(2), acceleration: None, force: Some(-7) };
    total.add_assign(PartStats { hp: 2, speed: Some(3), acceleration: None, force: Some(7) });
    assert_eq!(total, PartStats { hp: 3, speed: Some(5), acceleration: Some(0), force: Some(0) });
}

#[test]
fn add_is_associative_on_examples() {
    let a = PartStats { hp: 1, speed: Some(5), acceleration: None, force: Some(2) };
    let b = PartStats { hp: 20, speed: None, acceleration: Some(9), force: Some(-4) };
    let c = PartStats { hp: 300, speed: Some(-6), acceleration: None, force: None };
    assert_eq!(a.add(b).add(c), a.add(b.add(c)));
    assert_eq!(a.add(b).add(c), c.add(a).add(b));
}

#[test]
fn part_sized_checks_every_field() {
    let ok = PartStats { hp: MAX_PART_HP, speed: Some(MAX_PART_STAT), acceleration: Some(-MAX_PART_STAT), force: None };
    assert!(ok.is_part_sized());
    assert!(!PartStats { hp: MAX_PART_HP + 1, ..ok }.is_part_sized());
    assert!(!PartStats { speed: Some(MAX_PART_STAT + 1), ..ok }.is_part_sized());
    assert!(!PartStats { acceleration: Some(-MAX_PART_STAT - 1), ..ok }.is_part_sized());
    assert!(!PartStats { force: Some(i64::MIN), ..ok }.is_part_sized());
}

#[test]
fn sprite_kinds() {
    let basic = DefSprite::Basic { path: "a.png".to_string() };
    let moving = DefSprite::Animation {
        animation: DefAnimation::OnMove {
            idle: "idle.png".to_string(),
            sequence: vec!["1.png".to_string(), "2.png".to_string()],
        },
    };
    let shooting = DefSprite::Animation {
        animation: DefAnimation::OnShoot { idle: "rest.png".to_string(), sequence: vec![] },
    };
    assert!(!basic.is_animation());
    assert!(moving.is_animation());
    assert!(shooting.is_animation());
    assert_eq!(basic.sprite_paths(), vec!["a.png".to_string()]);
    assert_eq!(
        moving.sprite_paths(),
        vec!["1.png".to_string(), "2.png".to_string(), "idle.png".to_string()]
    );
    assert_eq!(shooting.sprite_paths(), vec!["rest.png".to_string()]);
    assert_eq!(moving.duplicate(), moving);
    assert_eq!(basic.duplicate(), basic);
}

#[test]
fn definition_flags_default_to_false() {
    let mut part = plain("p", None);
    assert!(!part.def.is_chassis());
    assert!(!part.def.stays_upright());
    part.def.chassis = Some(false);
    part.def.stay_upright = Some(true);
    assert!(!part.def.is_chassis());
    assert!(part.def.stays_upright());
    part.def.chassis = Some(true);
    assert!(part.def.is_chassis());
}

#[test]
fn hardpoints_are_listed_in_slot_order() {
    let part = plain("p", None);
    assert_eq!(
        part.def.hardpoints(),
        vec![((1, 2), (0, 1), Order::Above), ((3, 4), (1, 0), Order::Below)]
    );
    assert_eq!(part.def.hardpoint(1), Some(part.def.hardpoints[1]));
    assert_eq!(part.def.hardpoint(2), None);
}

#[test]
fn weapon_definition_is_mounted_with_defaults() {
    let def = PartWeaponDef::Projectile {
        spread: 30,
        cooldown: 500,
        projectile: WeaponProjectileDef {
            sprite_path: "png/shot.png".to_string(),
            damage: 12,
            velocity: Some(900),
            acceleration: None,
        },
    };
    assert_eq!(
        def.mount((4, 2), 1234),
        PartWeapon::Projectile {
            spread: 30,
            cooldown: 500,
            last_shot: 1234,
            projectile: WeaponProjectile { size: (4, 2), damage: 12, velocity: 900, acceleration: 0 },
        }
    );
    assert_eq!(def.duplicate(), def);
}

#[test]
fn part_is_assembled_from_its_definition() {
    let mut template = plain("blaster", None);
    template.def.weapon = Some(PartWeaponDef::Projectile {
        spread: 10,
        cooldown: 250,
        projectile: WeaponProjectileDef {
            sprite_path: "png/shot.png".to_string(),
            damage: 3,
            velocity: None,
            acceleration: Some(5),
        },
    });
    let part = Part::assemble(template.def.duplicate(), (32, 16), (2, 2), 77);
    assert_eq!(part.def, template.def);
    assert_eq!(part.size, (32, 16));
    assert_eq!(
        part.weapon,
        Some(PartWeapon::Projectile {
            spread: 10,
            cooldown: 250,
            last_shot: 77,
            projectile: WeaponProjectile { size: (2, 2), damage: 3, velocity: 0, acceleration: 5 },
        })
    );
    let bare = Part::assemble(plain("bare", None).def, (1, 1), (9, 9), 5);
    assert_eq!(bare.weapon, None);
    assert_eq!(part.duplicate(), part);
}

fn names(parts: &[&Part]) -> Vec<String> {
    let mut names: Vec<String> = parts.iter().map(|p| p.def.name.clone()).collect();
    names.sort();
    names
}

#[test]
fn catalog_keeps_one_part_per_name() {
    let mut table = PartTable::new();
    assert_eq!(table.len(), 0);
    assert_eq!(table.get(&"Box Chassis".to_string()), None);
    table.insert(plain("Box Chassis", Some(true)));
    table.insert(plain("Float Leg", None));
    table.insert(plain("Box Head", Some(false)));
    assert_eq!(table.len(), 3);
    assert_eq!(table.get(&"float leg".to_string()), None);
    assert_eq!(table.get(&"Box Head".to_string()).unwrap().def.name, "Box Head");
    assert_eq!(table.get(&"Float Leg".to_string()).unwrap().size, (8, 4));
    let mut bigger = plain("Float Leg", Some(true));
    bigger.size = (64, 64);
    table.insert(bigger);
    assert_eq!(table.len(), 3);
    assert_eq!(table.get(&"Float Leg".to_string()).unwrap().size, (64, 64));
    assert_eq!(names(&table.values()), vec!["Box Chassis", "Box Head", "Float Leg"]);
    assert_eq!(names(&table.chassis_parts()), vec!["Box Chassis", "Float Leg"]);
    for part in table.values() {
        assert_eq!(table.get(&part.def.name), Some(part));
    }
}

#[test]
fn catalog_without_chassis_lists_none() {
    let mut table = PartTable::new();
    assert!(table.chassis_parts().is_empty());
    assert!(table.values().is_empty());
    table.insert(plain("a", None));
    table.insert(plain("b", Some(false)));
    assert!(table.chassis_parts().is_empty());
    assert_eq!(table.values().len(), 2);
}

#[test]
fn catalog_from_a_list_keeps_the_last_of_a_name() {
    let mut second = plain("a", Some(true));
    second.size = (2, 2);
    let table = PartTable::from_parts(vec![plain("a", None), plain("b", None), second]);
    assert_eq!(table.len(), 2);
    assert_eq!(table.get(&"a".to_string()).unwrap().size, (2, 2));
    assert!(table.get(&"a".to_string()).unwrap().def.is_chassis());
    assert_eq!(table.get(&"b".to_string()).unwrap().size, (8, 4));
    assert_eq!(PartTable::from_parts(Vec::new()).len(), 0);
}

#[test]
fn wrapping_get_wraps_around() {
    let mut frames = vec![10, 20, 30];
    assert_eq!(frames.wrapping_get(0), Some(&10));
    assert_eq!(frames.wrapping_get(2), Some(&30));
    assert_eq!(frames.wrapping_get(3), Some(&10));
    assert_eq!(frames.wrapping_get(usize::MAX), Some(&10));
    *frames.wrapping_get_mut(4).unwrap() = 21;
    assert_eq!(frames, vec![10, 21, 30]);
}
