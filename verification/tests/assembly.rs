use part_tree::director::{extend_part_tree, extend_step, generate_enemy, spawn_enemy_root, AssemblyError};
use part_tree::forest::Owner;
use part_tree::catalog::PartTable;
use part_tree::parts::{DefSprite, Hardpoint, Order, Part, PartDef};
use part_tree::stats::PartStats;
use part_tree::world::PartWorld;

fn part(name: &str, slots: usize, chassis: bool, hp: u64) -> Part {
    Part {
        def: PartDef {
            name: name.to_string(),
            origin: (0, 0),
            direction: (0, 1),
            stay_upright: None,
            chassis: if chassis { Some(true) } else { None },
            sprite: DefSprite::Basic { path: "png/x.png".to_string() },
            stats: PartStats { hp, speed: None, acceleration: None, force: None },
            hardpoints: vec![
                Hardpoint { position: (0, 0), direction: (0, 1), order: Order::Below };
                slots
            ],
            weapon: None,
        },
        size: (16, 16),
        weapon: None,
    }
}

fn catalog() -> PartTable {
    let mut table = PartTable::new();
    table.insert(part("Float Leg", 1, false, 2));
    table.insert(part("Box Chassis", 5, true, 10));
    table.insert(part("Box Head", 2, false, 5));
    table.insert(part("Blaster", 0, false, 1));
    table.insert(part("Long Chassis", 3, true, 12));
    table
}

fn check_forest(world: &PartWorld) {
    for id in 0..world.len() {
        let bundle = match world.get(id) {
            Some(b) => b,
            None => continue,
        };
        assert_eq!(bundle.part_children.len(), bundle.def.hardpoints.len());
        for (slot, child) in bundle.part_children.iter().enumerate() {
            if let Some(c) = child {
                let below = world.get(*c).unwrap();
                assert_eq!(below.part_parent, Some(id));
                assert_eq!(below.joint.unwrap().hardpoint, slot);
                assert_eq!(below.custom_data.part_tree_root, bundle.custom_data.part_tree_root);
                assert_eq!(below.owner, bundle.owner);
            }
        }
        match bundle.part_parent {
            Some(p) => {
                let slot = bundle.joint.unwrap().hardpoint;
                assert_eq!(world.get(p).unwrap().part_children[slot], Some(id));
                assert!(bundle.tree_root.is_none());
            }
            None => {
                assert_eq!(bundle.custom_data.part_tree_root, Some(id));
                assert!(bundle.tree_root.is_some());
                assert!(bundle.joint.is_none());
            }
        }
    }
}

#[test]
fn assembly_with_budget_zero_makes_the_chassis_only() {
    let table = catalog();
    let mut world = PartWorld::new();
    let bystander = world.spawn_part(&part("bystander", 1, false, 1)).unwrap();
    let root = generate_enemy(&mut world, &table, 0).unwrap();
    assert_eq!(root, 1);
    assert_eq!(world.len(), 2);
    let bundle = world.get(root).unwrap();
    assert!(bundle.def.is_chassis());
    assert!(bundle.part_children.iter().all(|c| c.is_none()));
    assert_eq!(bundle.part_parent, None);
    assert_eq!(bundle.owner, Owner::Enemy);
    assert_eq!(bundle.custom_data.part_tree_root, Some(root));
    assert_eq!(world.get(bystander).unwrap().owner, Owner::Neutral);
}

#[test]
fn assembly_stays_within_its_budget() {
    let table = catalog();
    for budget in [1usize, 2, 3, 7, 20] {
        for _ in 0..20 {
            let mut world = PartWorld::new();
            let root = generate_enemy(&mut world, &table, budget).unwrap();
            assert_eq!(root, 0);
            assert!(world.len() >= 2);
            assert!(world.len() <= 1 + budget);
            check_forest(&world);
            let members = world.subtree(root);
            assert_eq!(members.len(), world.len());
            for id in 0..world.len() {
                let bundle = world.get(id).unwrap();
                assert_eq!(bundle.owner, Owner::Enemy);
                assert_eq!(bundle.custom_data.part_tree_root, Some(root));
                assert!(table.get(&bundle.def.name).is_some());
            }
            assert!(world.get(root).unwrap().def.is_chassis());
        }
    }
}

#[test]
fn assembly_ends_when_no_hardpoint_is_open() {
    let mut table = PartTable::new();
    table.insert(part("Tiny Chassis", 2, true, 10));
    table.insert(part("Stub", 0, false, 1));
    let mut seen_full = false;
    for _ in 0..50 {
        let mut world = PartWorld::new();
        let root = generate_enemy(&mut world, &table, 100).unwrap();
        check_forest(&world);
        assert!(world.len() <= 101);
        let names: Vec<String> = (1..world.len()).map(|i| world.get(i).unwrap().def.name.clone()).collect();
        if names.iter().all(|n| n == "Stub") {
            assert_eq!(world.len(), 3);
            seen_full = true;
        }
        assert!(world.get(root).unwrap().part_children.iter().all(|c| c.is_some()));
    }
    assert!(seen_full);
}

#[test]
fn assembly_needs_a_chassis() {
    let mut table = PartTable::new();
    let mut world = PartWorld::new();
    assert_eq!(generate_enemy(&mut world, &table, 3), Err(AssemblyError::NoChassis));
    table.insert(part("Float Leg", 1, false, 2));
    assert_eq!(generate_enemy(&mut world, &table, 3), Err(AssemblyError::NoChassis));
    assert_eq!(world.len(), 0);
}

#[test]
fn assembly_reports_a_chassis_that_cannot_be_made() {
    let mut table = PartTable::new();
    table.insert(part("Heavy Chassis", 1, true, u64::MAX));
    let mut world = PartWorld::new();
    assert_eq!(generate_enemy(&mut world, &table, 3), Err(AssemblyError::CannotSpawn));
    assert_eq!(world.len(), 0);
}

#[test]
fn enemy_root_is_made_from_the_chosen_chassis() {
    let table = catalog();
    let mut world = PartWorld::new();
    let chassis = table.get(&"Long Chassis".to_string()).unwrap();
    let (root, points) = spawn_enemy_root(&mut world, chassis).unwrap();
    assert_eq!(root, 0);
    assert_eq!(points, vec![(0, 0), (0, 1), (0, 2)]);
    assert_eq!(world.get(root).unwrap().def.name, "Long Chassis");
    assert_eq!(world.get(root).unwrap().owner, Owner::Enemy);
    assert_eq!(spawn_enemy_root(&mut world, &part("Heavy", 1, true, u64::MAX)), None);
}

#[test]
fn step_takes_a_point_and_adds_those_of_the_new_part() {
    let table = catalog();
    let parts = vec![
        table.get(&"Float Leg".to_string()).unwrap(),
        table.get(&"Box Chassis".to_string()).unwrap(),
        table.get(&"Box Head".to_string()).unwrap(),
        table.get(&"Blaster".to_string()).unwrap(),
        table.get(&"Long Chassis".to_string()).unwrap(),
    ];
    let mut world = PartWorld::new();
    let (root, mut points) = spawn_enemy_root(&mut world, parts[1]).unwrap();
    assert_eq!(points.len(), 5);
    // the head (two hardpoints) on slot 1; the last point takes the place of the one taken
    let head = extend_step(&mut world, &parts, &mut points, 1, 2).unwrap();
    assert_eq!(head, 1);
    assert_eq!(points, vec![(root, 0), (root, 4), (root, 2), (root, 3), (head, 0), (head, 1)]);
    assert_eq!(world.get(root).unwrap().part_children, vec![None, Some(head), None, None, None]);
    assert_eq!(world.get(head).unwrap().def.name, "Box Head");
    assert_eq!(world.get(head).unwrap().owner, Owner::Enemy);
    // a chassis may be mounted as a limb
    let limb = extend_step(&mut world, &parts, &mut points, 5, 4).unwrap();
    assert_eq!(points, vec![(root, 0), (root, 4), (root, 2), (root, 3), (head, 0), (limb, 0), (limb, 1), (limb, 2)]);
    assert_eq!(world.get(head).unwrap().part_children, vec![None, Some(limb)]);
    assert!(world.get(limb).unwrap().def.is_chassis());
    assert_eq!(world.get(limb).unwrap().custom_data.part_tree_root, Some(root));
    check_forest(&world);
}

#[test]
fn extension_without_open_points_or_budget_changes_nothing() {
    let table = catalog();
    let mut world = PartWorld::new();
    let (root, points) =
        spawn_enemy_root(&mut world, table.get(&"Box Chassis".to_string()).unwrap()).unwrap();
    assert_eq!(extend_part_tree(&mut world, &table, 0, points), 0);
    assert_eq!(extend_part_tree(&mut world, &table, 5, Vec::new()), 0);
    assert_eq!(extend_part_tree(&mut world, &PartTable::new(), 5, vec![(root, 0)]), 0);
    assert_eq!(world.len(), 1);
    assert!(world.get(root).unwrap().part_children.iter().all(|c| c.is_none()));
}

#[test]
fn extension_makes_at_most_the_budget() {
    let table = catalog();
    let mut world = PartWorld::new();
    let (root, points) =
        spawn_enemy_root(&mut world, table.get(&"Box Chassis".to_string()).unwrap()).unwrap();
    let made = extend_part_tree(&mut world, &table, 4, points);
    assert!(1 <= made && made <= 4);
    assert_eq!(world.len(), 1 + made);
    check_forest(&world);
    assert_eq!(world.subtree(root).len(), world.len());
}

#[test]
fn extension_uses_the_budget_or_fills_every_slot() {
    let table = catalog();
    for budget in [1usize, 3, 6, 12] {
        for _ in 0..20 {
            let mut world = PartWorld::new();
            let (root, points) =
                spawn_enemy_root(&mut world, table.get(&"Box Chassis".to_string()).unwrap()).unwrap();
            let start = points.len();
            let made = extend_part_tree(&mut world, &table, budget, points);
            let slots: usize = (1..world.len()).map(|n| world.get(n).unwrap().part_children.len()).sum();
            assert!(made == budget || start + slots == made);
            // every part that was made is mounted, in the tree of the chassis
            for n in 1..world.len() {
                let bundle = world.get(n).unwrap();
                assert!(bundle.part_parent.is_some());
                assert_eq!(bundle.custom_data.part_tree_root, Some(root));
            }
            let open: usize = (0..world.len())
                .map(|n| world.get(n).unwrap().part_children.iter().filter(|c| c.is_none()).count())
                .sum();
            assert_eq!(open, start + slots - made);
        }
    }
}

#[test]
fn extension_on_a_point_that_is_not_open_leaves_the_part_loose() {
    let mut table = PartTable::new();
    table.insert(part("Stub", 0, false, 1));
    let mut world = PartWorld::new();
    let root = world.spawn_part(&part("root", 1, true, 5)).unwrap();
    // slot 3 does not exist, and no part has the handle 9
    let made = extend_part_tree(&mut world, &table, 5, vec![(root, 3), (9, 0), (root, 0)]);
    assert_eq!(made, 3);
    assert_eq!(world.len(), 4);
    let mounted: Vec<usize> = (1..4).filter(|n| world.get(*n).unwrap().part_parent.is_some()).collect();
    assert_eq!(mounted.len(), 1);
    assert_eq!(world.get(root).unwrap().part_children, vec![Some(mounted[0])]);
    for n in 1..4 {
        let bundle = world.get(n).unwrap();
        if bundle.part_parent.is_none() {
            assert_eq!(bundle.owner, Owner::Enemy);
            assert_eq!(bundle.custom_data.part_tree_root, Some(n));
        }
    }
}
