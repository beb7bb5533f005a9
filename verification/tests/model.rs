use rando::id::{Id, IdParseError};
use rando::logic::{Requirement, RequirementParseError};
use rando::pool::Pool;
use rando::sprite::{Collectible, Door, Enemy, Gear, Sprite, SpriteData, Things};
use rando::world::{encode_map, find_map, map_name, WorldMap};

fn small_map(identifier: u8) -> WorldMap {
    let tiles = vec![vec![0u8; 4]; 4];
    let mut sprites: Vec<Vec<Option<SpriteData>>> = vec![vec![None; 4]; 4];
    sprites[1][1] = Some(SpriteData { kind: 7, extra_bytes: vec![] });
    sprites[2][3] = Some(SpriteData { kind: 9, extra_bytes: vec![] });
    WorldMap { identifier, tiles, sprites }
}

#[test]
fn id_parse_accepts_the_triple_form() {
    assert_eq!(Id::parse("43.45.56"), Ok(Id { map: 43, x: 45, y: 56 }));
    assert_eq!(Id::parse("0.0.0"), Ok(Id { map: 0, x: 0, y: 0 }));
    assert_eq!(Id::parse("255.1000.2000"), Ok(Id { map: 255, x: 1000, y: 2000 }));
}

#[test]
fn id_parse_rejects_malformed_strings() {
    assert_eq!(Id::parse("1.2"), Err(IdParseError::MissingPart));
    assert_eq!(Id::parse(""), Err(IdParseError::MissingPart));
    assert_eq!(Id::parse("1.2.3.4"), Err(IdParseError::Trailing));
    assert_eq!(Id::parse("a.2.3"), Err(IdParseError::InvalidPart));
    assert_eq!(Id::parse("300.1.1"), Err(IdParseError::InvalidPart));
    assert_eq!(Id::parse("1..3"), Err(IdParseError::InvalidPart));
}

#[test]
fn requirement_parse_accepts_every_form() {
    assert_eq!(Requirement::parse("Ring"), Ok(Requirement::Ring));
    assert_eq!(Requirement::parse("Charm"), Ok(Requirement::Charm));
    assert_eq!(Requirement::parse("Shield"), Ok(Requirement::Shield));
    assert_eq!(Requirement::parse("Swords.5"), Ok(Requirement::Swords(5)));
    assert_eq!(Requirement::parse("Gems.99"), Ok(Requirement::Gems(99)));
    assert_eq!(
        Requirement::parse("4.10.3"),
        Ok(Requirement::Id(Id { map: 4, x: 10, y: 3 }))
    );
}

#[test]
fn requirement_parse_rejects_unknown_forms() {
    assert_eq!(Requirement::parse("Bogus"), Err(RequirementParseError::UnknownForm));
    assert_eq!(Requirement::parse("Swords.z"), Err(RequirementParseError::UnknownForm));
    assert_eq!(Requirement::parse("Swords.300"), Err(RequirementParseError::UnknownForm));
    assert_eq!(Requirement::parse("Ring.extra"), Err(RequirementParseError::UnknownForm));
    assert_eq!(Requirement::parse(""), Err(RequirementParseError::UnknownForm));
}

#[test]
fn sprite_kinds_map_both_ways() {
    assert_eq!(Sprite::of_kind(0), Sprite::Things(Things::Transfer));
    assert_eq!(Sprite::of_kind(7), Sprite::Collectible(Collectible::Gem));
    assert_eq!(Sprite::of_kind(9), Sprite::Gear(Gear::Hammer));
    assert_eq!(Sprite::of_kind(10), Sprite::Door(Door::Boulder));
    assert_eq!(Sprite::of_kind(118), Sprite::Enemy(Enemy::Phantom));
    assert_eq!(Sprite::of_kind(211), Sprite::Other(211));
    let samples = [
        Sprite::Collectible(Collectible::Sword),
        Sprite::Gear(Gear::WindRing),
        Sprite::Door(Door::Gold),
        Sprite::Enemy(Enemy::Bat),
        Sprite::Save,
        Sprite::WindRoute,
    ];
    for s in samples {
        assert_eq!(Sprite::of_kind(s.canonical_kind()), s);
    }
}

#[test]
fn enemy_strength_matches_the_table() {
    assert_eq!(Enemy::Guard.strength(), 50);
    assert_eq!(Enemy::Witch.strength(), 0);
    assert_eq!(Enemy::Rabbit.strength(), 1);
    assert_eq!(Enemy::Glitch.strength(), 100);
}

#[test]
fn sprite_record_sizes_follow_the_kind() {
    assert_eq!(SpriteData::size_of_kind(1), 1);
    assert_eq!(SpriteData::size_of_kind(105), 2);
    assert_eq!(SpriteData::size_of_kind(15), 3);
    assert_eq!(SpriteData::size_of_kind(0), 5);
    assert_eq!(SpriteData::size_of_kind(30), 5);
    assert_eq!(SpriteData::size_of_kind(146), 0);
}

#[test]
fn sprite_record_read_walks_the_stream() {
    // A transfer record (kind 0, four extra bytes), then a gem (kind 7).
    let data: Vec<u8> = vec![0, 2, 3, 1, 5, 6, 0, 7, 1, 1];
    let mut index = 0;
    let (x, y, sd) = SpriteData::read(&data, &mut index).unwrap();
    assert_eq!((x, y), (2, 3));
    assert_eq!(sd.kind, 0);
    assert_eq!(sd.extra_bytes, vec![1, 5, 6, 0]);
    assert_eq!(index, 7);
    let (x2, y2, sd2) = SpriteData::read(&data, &mut index).unwrap();
    assert_eq!((x2, y2), (1, 1));
    assert_eq!(sd2.kind, 7);
    assert!(sd2.extra_bytes.is_empty());
    assert_eq!(index, 10);
}

#[test]
fn pool_counts_requests_as_a_multiset() {
    let pool = Pool {
        items: vec![
            Sprite::Collectible(Collectible::Sword),
            Sprite::Collectible(Collectible::Sword),
            Sprite::Collectible(Collectible::Gem),
        ],
    };
    assert!(pool.contains_all(&vec![
        Sprite::Collectible(Collectible::Sword),
        Sprite::Collectible(Collectible::Sword),
    ]));
    assert!(!pool.contains_all(&vec![
        Sprite::Collectible(Collectible::Sword),
        Sprite::Collectible(Collectible::Sword),
        Sprite::Collectible(Collectible::Sword),
    ]));
    assert!(pool.contains_all(&vec![]));
    assert_eq!(pool.count(Sprite::Collectible(Collectible::Sword)), 2);
}

#[test]
fn filler_draws_never_return_progression_items() {
    let mut rng = rand_pcg::Pcg64Mcg::new(7);
    let mut pool = Pool {
        items: vec![
            Sprite::Gear(Gear::Hammer),
            Sprite::Collectible(Collectible::Gem),
            Sprite::Gear(Gear::Boots),
        ],
    };
    let drawn = pool.choose_remove_filler(&mut rng).unwrap();
    assert_eq!(drawn, Sprite::Collectible(Collectible::Gem));
    assert_eq!(pool.len(), 2);
    // Only progression items left: the draw must fail and keep the pool.
    assert!(pool.choose_remove_filler(&mut rng).is_err());
    assert_eq!(pool.len(), 2);
}

#[test]
fn map_cells_read_and_write() {
    let mut maps = vec![small_map(5), small_map(9)];
    assert_eq!(find_map(&maps, 9), Some(1));
    assert_eq!(find_map(&maps, 4), None);
    let id = Id { map: 5, x: 1, y: 1 };
    assert_eq!(id.expect_sprite(&maps).kind, 7);
    id.expect_sprite_mut(&mut maps, SpriteData { kind: 3, extra_bytes: vec![] });
    assert_eq!(id.expect_sprite(&maps).kind, 3);
    assert!(Id { map: 5, x: 0, y: 0 }.sprite(&maps).is_none());
}

#[test]
fn excluded_tiles_are_the_terminal_sequence() {
    assert!(Id { map: 43, x: 45, y: 56 }.is_excluded());
    assert!(Id { map: 43, x: 31, y: 1 }.is_excluded());
    assert!(!Id { map: 43, x: 30, y: 1 }.is_excluded());
    assert!(!Id { map: 42, x: 45, y: 56 }.is_excluded());
}

#[test]
fn map_names_cover_the_known_identifiers() {
    assert_eq!(map_name(1), "DustShelf");
    assert_eq!(map_name(43), "HaphyCastleMonillud");
    assert_eq!(map_name(3), "Unknown");
}

#[test]
fn encoded_maps_start_with_their_header() {
    let m = small_map(21);
    let bytes = encode_map(&m);
    assert_eq!(bytes[0], 21);
    assert_eq!(bytes[1], 4);
    assert_eq!(bytes[2], 4);
    // 16 tiles of 7 bits pack into 14 bytes, then two 1-byte sprite records.
    assert_eq!(bytes.len(), 3 + 14 + 3 + 3);
}

#[test]
fn graphics_bytes_round_trip_through_the_codec() {
    let mut bytes: Vec<u8> = Vec::new();
    for i in 0..16u8 {
        bytes.push(i.wrapping_mul(37));
    }
    let tiles = rando::graphics::decode_graphics(&bytes);
    assert_eq!(tiles.len(), 1);
    assert_eq!(tiles[0].len(), 8);
    for row in &tiles[0] {
        assert_eq!(row.len(), 8);
        for px in row {
            assert!(*px < 4);
        }
    }
    let back = rando::graphics::encode_graphics(&tiles);
    assert_eq!(back, bytes);
}

#[test]
fn tile_assemblies_have_their_fixed_shape() {
    let sprites = rando::graphics::sprite_tile16_list();
    assert_eq!(sprites.len(), 114);
    let terrain = rando::graphics::map_tile16_list();
    assert_eq!(terrain.len(), 66);
    assert_eq!(terrain[3][1].index, 239);
    assert!(terrain[3][1].flip_x);
    assert!(terrain[26][0].rotate);
}

#[test]
fn stats_count_each_kind_once() {
    let m = small_map(5);
    let stats = m.stats();
    assert_eq!(stats.collectibles, vec![(Collectible::Gem, 1)]);
    assert_eq!(stats.gear, vec![(Gear::Hammer, 1)]);
    assert!(stats.enemies.is_empty());
}

#[test]
fn stats_tally_repeated_kinds() {
    let tiles = vec![vec![0u8; 4]; 4];
    let mut sprites: Vec<Vec<Option<SpriteData>>> = vec![vec![None; 4]; 4];
    sprites[0][0] = Some(SpriteData { kind: 7, extra_bytes: vec![] });
    sprites[1][2] = Some(SpriteData { kind: 7, extra_bytes: vec![] });
    sprites[2][1] = Some(SpriteData { kind: 7, extra_bytes: vec![] });
    sprites[3][3] = Some(SpriteData { kind: 3, extra_bytes: vec![] });
    let m = WorldMap { identifier: 9, tiles, sprites };
    let stats = m.stats();
    assert_eq!(stats.collectibles.len(), 2);
    assert!(stats.collectibles.contains(&(Collectible::Gem, 3)));
    assert!(stats.collectibles.contains(&(Collectible::Sword, 1)));
}

#[test]
fn stats_tally_saturates_at_the_largest_byte() {
    let tiles = vec![vec![0u8; 16]; 16];
    let mut sprites: Vec<Vec<Option<SpriteData>>> = vec![vec![None; 16]; 16];
    for y in 0..16 {
        for x in 0..16 {
            sprites[y][x] = Some(SpriteData { kind: 7, extra_bytes: vec![] });
        }
    }
    let m = WorldMap { identifier: 9, tiles, sprites };
    let stats = m.stats();
    assert_eq!(stats.collectibles, vec![(Collectible::Gem, 255)]);
}
