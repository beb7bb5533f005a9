use rando::generate;
use rando::id::Id;
use rando::logic::{Area, Logic, Requirement};
use rando::pool::Pool;
use rando::reach::{Reach, RequirementMap};
use rando::sprite::{Collectible, Gear, Sprite, SpriteData};
use rando::world::WorldMap;
use rando::GenerateError;

fn cell(kind: u8) -> Option<SpriteData> {
    Some(SpriteData { kind, extra_bytes: vec![] })
}

fn id(map: u8, x: usize, y: usize) -> Id {
    Id { map, x, y }
}

fn free() -> Vec<Vec<Requirement>> {
    vec![vec![]]
}

/// One 8x8 map holding five item cells in the lower row, two more behind a
/// path, two shuffled doors, one enemy, and a transfer pair.
fn fixture() -> (Vec<WorldMap>, Logic) {
    let tiles = vec![vec![0u8; 8]; 8];
    let mut sprites: Vec<Vec<Option<SpriteData>>> = vec![vec![None; 8]; 8];
    sprites[1][1] = cell(3); // sword
    sprites[1][2] = cell(7); // gem
    sprites[1][3] = cell(9); // hammer (progression)
    sprites[1][4] = cell(2); // gold key
    sprites[1][5] = cell(5); // silver key
    sprites[3][1] = cell(72); // wind ring (progression)
    sprites[3][2] = cell(64); // shield
    sprites[6][6] = cell(1); // gold door
    sprites[5][6] = cell(4); // silver door
    sprites[4][6] = cell(109); // bat
    sprites[0][0] = Some(SpriteData { kind: 0, extra_bytes: vec![1, 1, 5, 0] });
    sprites[0][2] = Some(SpriteData { kind: 0, extra_bytes: vec![1, 1, 5, 0] });
    sprites[5][0] = Some(SpriteData { kind: 0, extra_bytes: vec![1, 0, 0, 0] });
    let maps = vec![WorldMap { identifier: 1, tiles, sprites }];
    let spawn = Area {
        name: String::from("Spawn"),
        items: vec![
            (id(1, 1, 1), free()),
            (id(1, 2, 1), free()),
            (id(1, 3, 1), free()),
            (id(1, 4, 1), free()),
            (id(1, 5, 1), free()),
        ],
        paths: vec![(1, free())],
        transfers: vec![id(1, 0, 0)],
    };
    let upper = Area {
        name: String::from("Upper"),
        items: vec![(id(1, 1, 3), free()), (id(1, 2, 3), free())],
        paths: vec![(0, free())],
        transfers: vec![id(1, 2, 0)],
    };
    (maps, Logic { areas: vec![spawn, upper], spawn: 0 })
}

#[test]
fn determinism() {
    let (maps, logic) = fixture();
    let first = generate(&maps, &logic, Some("seed".to_string())).unwrap();
    let second = generate(&maps, &logic, Some("seed".to_string())).unwrap();
    assert_eq!(first, second);
}

#[test]
fn different_seeds_are_allowed_to_differ() {
    let (maps, logic) = fixture();
    let first = generate(&maps, &logic, Some("one".to_string())).unwrap();
    let second = generate(&maps, &logic, Some("two".to_string())).unwrap();
    // Both must still be complete seeds over the same pool.
    assert_eq!(first.0.placements.len(), second.0.placements.len());
}

#[test]
fn completability() {
    let (maps, logic) = fixture();
    for seed in 0..100 {
        if let Err(err) = generate(&maps, &logic, Some(seed.to_string())) {
            panic!("{seed} failed: {err:?}");
        }
    }
}

#[test]
fn enough_items() {
    let (maps, logic) = fixture();
    let (seed, _) = generate(&maps, &logic, Some("seed".to_string())).unwrap();
    let expected = [
        Sprite::Collectible(Collectible::Sword),
        Sprite::Collectible(Collectible::Gem),
        Sprite::Gear(Gear::Hammer),
        Sprite::Collectible(Collectible::GoldKey),
        Sprite::Collectible(Collectible::SilverKey),
        Sprite::Gear(Gear::WindRing),
        Sprite::Collectible(Collectible::Shield),
    ];
    for want in expected {
        let n = seed
            .placements
            .iter()
            .filter(|(_, sd)| Sprite::of_kind(sd.kind) == want)
            .count();
        assert_eq!(n, 1, "expected exactly one {want:?}");
    }
    // The two shuffled doors come back as doors, the enemy as an enemy.
    let doors = seed
        .placements
        .iter()
        .filter(|(_, sd)| matches!(Sprite::of_kind(sd.kind), Sprite::Door(_)))
        .count();
    assert_eq!(doors, 2);
    let enemies = seed
        .placements
        .iter()
        .filter(|(_, sd)| matches!(Sprite::of_kind(sd.kind), Sprite::Enemy(_)))
        .count();
    assert_eq!(enemies, 1);
    // Both transfer slots were rewired with transfer records.
    for slot in [id(1, 0, 0), id(1, 2, 0)] {
        let placed = seed
            .placements
            .iter()
            .find(|(l, _)| *l == slot)
            .expect("transfer slot placed");
        assert_eq!(placed.1.kind, 0);
    }
    // Seven items, two doors, one enemy, two transfers.
    assert_eq!(seed.placements.len(), 12);
}

#[test]
fn no_duplicate_placements() {
    let (maps, logic) = fixture();
    let (seed, _) = generate(&maps, &logic, Some("seed".to_string())).unwrap();
    for i in 0..seed.placements.len() {
        for j in i + 1..seed.placements.len() {
            assert_ne!(
                seed.placements[i].0, seed.placements[j].0,
                "duplicate placement"
            );
        }
    }
}

#[test]
fn applying_a_seed_writes_every_placement_back() {
    let (maps, logic) = fixture();
    let (seed, _) = generate(&maps, &logic, Some("seed".to_string())).unwrap();
    let recorded: Vec<(Id, u8)> = seed
        .placements
        .iter()
        .map(|(loc, sd)| (*loc, sd.kind))
        .collect();
    let (mut maps2, _) = fixture();
    seed.apply(&mut maps2);
    for (loc, kind) in recorded {
        assert_eq!(loc.expect_sprite(&maps2).kind, kind);
    }
}

#[test]
fn spoiler_names_each_progression_item() {
    let (maps, logic) = fixture();
    let (seed, spoiler) = generate(&maps, &logic, Some("seed".to_string())).unwrap();
    assert_eq!(spoiler.gear.len(), 2);
    let mut kinds: Vec<Gear> = spoiler.gear.iter().map(|(g, _)| *g).collect();
    kinds.sort_by_key(|g| format!("{g:?}"));
    assert_eq!(kinds, vec![Gear::Hammer, Gear::WindRing]);
    // No location is named twice.
    for i in 0..spoiler.gear.len() {
        for j in i + 1..spoiler.gear.len() {
            assert_ne!(spoiler.gear[i].1, spoiler.gear[j].1);
        }
    }
    // Each spoiler location is a real placement of that item.
    for (g, loc) in &spoiler.gear {
        let placed = seed
            .placements
            .iter()
            .find(|(l, _)| l == loc)
            .expect("spoiler points at a placement");
        assert_eq!(Sprite::of_kind(placed.1.kind), Sprite::Gear(*g));
    }
}

#[test]
fn one_item_world_places_the_gear_at_the_only_location() {
    let tiles = vec![vec![0u8; 3]; 3];
    let mut sprites: Vec<Vec<Option<SpriteData>>> = vec![vec![None; 3]; 3];
    sprites[1][1] = cell(72); // wind ring
    let maps = vec![WorldMap { identifier: 1, tiles, sprites }];
    let spawn = Area {
        name: String::from("Spawn"),
        items: vec![(id(1, 1, 1), free())],
        paths: vec![],
        transfers: vec![],
    };
    let logic = Logic { areas: vec![spawn], spawn: 0 };
    let (seed, spoiler) = generate(&maps, &logic, Some("tiny".to_string())).unwrap();
    assert_eq!(seed.placements.len(), 1);
    assert_eq!(seed.placements[0].0, id(1, 1, 1));
    assert_eq!(
        Sprite::of_kind(seed.placements[0].1.kind),
        Sprite::Gear(Gear::WindRing)
    );
    assert_eq!(spoiler.gear, vec![(Gear::WindRing, id(1, 1, 1))]);
}

#[test]
fn a_duplicated_item_location_is_an_authoring_error() {
    let (maps, mut logic) = fixture();
    let again = logic.areas[0].items[0].0;
    logic.areas[1].items.push((again, free()));
    assert_eq!(
        generate(&maps, &logic, Some("seed".to_string())),
        Err(GenerateError::InconsistentWorld)
    );
}

#[test]
fn a_non_item_at_an_item_location_is_an_authoring_error() {
    let (maps, mut logic) = fixture();
    // The bat's cell is declared as an item location.
    logic.areas[0].items.push((id(1, 6, 4), free()));
    assert_eq!(
        generate(&maps, &logic, Some("seed".to_string())),
        Err(GenerateError::InconsistentWorld)
    );
}

#[test]
fn an_unresolvable_requirement_reference_is_an_authoring_error() {
    let (maps, mut logic) = fixture();
    // A path guarded by a location that holds neither an item nor a gate
    // nor an enemy.
    logic.areas[0].paths[0].1 = vec![vec![Requirement::Id(id(1, 7, 7))]];
    assert_eq!(
        generate(&maps, &logic, Some("seed".to_string())),
        Err(GenerateError::InconsistentWorld)
    );
}

#[test]
fn a_requirement_may_reference_a_shuffled_door() {
    let (maps, mut logic) = fixture();
    // The gold door's cell guards the path to the upper area.
    logic.areas[0].paths[0].1 = vec![vec![Requirement::Id(id(1, 6, 6))]];
    // The pool holds both keys, so every seed must still come out complete.
    for seed in 0..20 {
        assert!(generate(&maps, &logic, Some(seed.to_string())).is_ok(), "{seed}");
    }
}

#[test]
fn purge_doors_removes_gates_and_keeps_items() {
    let (maps, mut logic) = fixture();
    logic.areas[0].items.push((id(1, 6, 6), free())); // the gold door
    assert!(logic.purge_doors(&maps).is_ok());
    assert_eq!(logic.areas[0].items.len(), 5);
    assert!(logic.areas[0].items.iter().all(|(i, _)| *i != id(1, 6, 6)));
}

#[test]
fn purge_doors_refuses_an_enemy_at_an_item_location() {
    let (maps, mut logic) = fixture();
    logic.areas[0].items.push((id(1, 4, 6), free())); // the bat
    assert!(logic.purge_doors(&maps).is_err());
}

#[test]
fn reach_respects_sword_counts() {
    let tiles = vec![vec![0u8; 3]; 3];
    let mut sprites: Vec<Vec<Option<SpriteData>>> = vec![vec![None; 3]; 3];
    sprites[1][1] = cell(3);
    sprites[2][2] = cell(7);
    let _maps = vec![WorldMap { identifier: 1, tiles, sprites }];
    let near = id(1, 1, 1);
    let far = id(1, 2, 2);
    let spawn = Area {
        name: String::from("Spawn"),
        items: vec![(near, free())],
        paths: vec![(1, vec![vec![Requirement::Swords(2)]])],
        transfers: vec![],
    };
    let upper = Area {
        name: String::from("Upper"),
        items: vec![(far, free())],
        paths: vec![(0, free())],
        transfers: vec![],
    };
    let logic = Logic { areas: vec![spawn, upper], spawn: 0 };
    let requirement_map = RequirementMap::new(&logic);
    let reach = Reach { transfers: vec![], requirement_map };
    let one_sword = Pool { items: vec![Sprite::Collectible(Collectible::Sword)] };
    assert_eq!(reach.reach(&logic, &one_sword), vec![near]);
    let two_swords = Pool {
        items: vec![
            Sprite::Collectible(Collectible::Sword),
            Sprite::Collectible(Collectible::Sword),
        ],
    };
    assert_eq!(reach.reach(&logic, &two_swords), vec![near, far]);
}

#[test]
fn transfer_groups_partition_by_paths() {
    let (_, logic) = fixture();
    let groups = logic.transfer_groups();
    // Spawn and Upper are path-connected: one group holding both slots.
    assert_eq!(groups.len(), 1);
    assert_eq!(groups[0].len(), 2);
}
