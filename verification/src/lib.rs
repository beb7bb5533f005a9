//! A content randomizer for a tile-based action-adventure game: given the
//! game's area-graph logic and its world maps, it produces a new, provably
//! completable arrangement of key items, gated doors, enemies and transfer
//! points, together with a spoiler of the critical placements.

pub mod data;
pub mod generator;
pub mod graphics;
pub mod id;
pub mod logic;
pub mod pool;
pub mod reach;
mod rng;
pub mod seed;
pub mod spoiler;
pub mod sprite;
pub mod transfers;
pub mod world;

use vstd::prelude::*;

use rand_pcg::Pcg64Mcg;

use crate::generator::{item_sprites_of, world_ok, AttemptError, Generator};
use crate::id::Id;
use crate::logic::Logic;
use crate::pool::spec_initial_pool;
use crate::reach::{item_reached, RequirementMap};
use crate::seed::{placement_resolvable, Seed};
use crate::spoiler::{ItemSpoiler, Spoiler};
use crate::sprite::{Gear, Sprite};
use crate::world::{maps_view, MapView, WorldMap};

verus! {

/// How generation as a whole can fail.
#[derive(Clone, Copy, PartialEq, Eq, Structural, Debug)]
pub enum GenerateError {
    /// The logic document and the world data disagree: an authoring error,
    /// surfaced before any attempt runs.
    InconsistentWorld,
    /// Every attempt of the retry budget failed.
    AllAttemptsFailed,
}

/// What a successful generation guarantees of its seed and spoiler: the
/// placed items are exactly the initial pool; no location is written twice;
/// every placement lands on an occupied cell; and each progression item's
/// location is reachable, under the attempt's realized topology and gate
/// costs, while the pool holds back everything but that item.
pub open spec fn generated_ok(
    maps: Seq<MapView>,
    logic: Logic,
    seed: Seed,
    gear: Seq<(Gear, Id)>,
) -> bool {
    &&& item_sprites_of(seed.placements@).to_multiset() == spec_initial_pool(maps, logic)
    &&& forall|j1: int, j2: int|
        0 <= j1 < j2 < seed.placements@.len() ==> (#[trigger] seed.placements@[j1]).0 != (
        #[trigger] seed.placements@[j2]).0
    &&& forall|j: int| 0 <= j < seed.placements@.len() ==> placement_resolvable(
        maps,
        (#[trigger] seed.placements@[j]).0,
    )
    &&& forall|id: Id| logic.spec_item_ids().contains(id)
        ==> #[trigger] crate::generator::placed_item_at(seed.placements@, id)
    &&& forall|j: int|
        0 <= j < seed.placements@.len() && Sprite::spec_of_kind(
            (#[trigger] seed.placements@[j]).1.kind,
        ).spec_is_item() ==> logic.spec_item_ids().contains(seed.placements@[j].0)
    &&& forall|id: Id| logic.spec_transfer_ids().contains(id)
        ==> #[trigger] crate::generator::placed_transfer(seed.placements@, id)
    &&& forall|id: Id| crate::generator::door_cell(maps, id) && !id.spec_is_excluded()
        ==> #[trigger] crate::generator::placed_door_at(seed.placements@, id)
    &&& forall|id: Id| crate::generator::enemy_cell(maps, id) && !id.spec_is_excluded()
        ==> #[trigger] crate::generator::placed_enemy_at(seed.placements@, id)
    &&& forall|j: int|
        0 <= j < seed.placements@.len() && (Sprite::spec_of_kind(
            (#[trigger] seed.placements@[j]).1.kind,
        ) is Door || Sprite::spec_of_kind(seed.placements@[j].1.kind) is Enemy)
        ==> !seed.placements@[j].0.spec_is_excluded()
    &&& forall|j: int|
        0 <= j < seed.placements@.len() && Sprite::spec_of_kind(
            (#[trigger] seed.placements@[j]).1.kind,
        ) is Gear ==> crate::generator::spoiler_names(
            gear,
            Sprite::spec_of_kind(seed.placements@[j].1.kind)->Gear_0,
            seed.placements@[j].0,
        )
    &&& forall|k: int|
        0 <= k < gear.len() ==> crate::generator::placed_gear_at(
            seed.placements@,
            (#[trigger] gear[k]).0,
            gear[k].1,
        )
    &&& forall|k1: int, k2: int|
        0 <= k1 < k2 < gear.len() ==> (#[trigger] gear[k1]).1 != (#[trigger] gear[k2]).1
    &&& exists|tr: Seq<(Id, usize)>, rm: RequirementMap|
        #[trigger] gear_safe(maps, logic, tr, rm, gear) && crate::generator::gate_costs_realized(
            rm,
            seed.placements@,
        ) && (forall|id: Id|
            logic.spec_transfer_ids().contains(id) ==> (#[trigger] crate::reach::assoc_get(
                tr,
                id,
            )) is Some)
}

/// Under the given transfer pairing and gate costs, every spoiler entry's
/// location is reachable while the pool holds back everything but its item.
pub open spec fn gear_safe(
    maps: Seq<MapView>,
    logic: Logic,
    tr: Seq<(Id, usize)>,
    rm: RequirementMap,
    gear: Seq<(Gear, Id)>,
) -> bool {
    forall|k: int|
        0 <= k < gear.len() ==> item_reached(
            logic,
            tr,
            rm,
            spec_initial_pool(maps, logic).remove(Sprite::Gear((#[trigger] gear[k]).0)),
            gear[k].1,
        )
}

/// One generation attempt: build the state, place until the pool is empty.
fn try_generate(maps: &Vec<WorldMap>, logic: &Logic, rng: &mut Pcg64Mcg) -> (r: Result<
    (Seed, ItemSpoiler),
    AttemptError,
>)
    requires
        world_ok(maps_view(maps@), *logic),
    ensures
        match r {
            Ok(p) => generated_ok(maps_view(maps@), *logic, p.0, p.1.gear@),
            Err(_) => true,
        },
        crate::generator::trivially_completable(*logic) ==> r is Ok,
{
    let mut generator = match Generator::new(maps, logic, rng) {
        Ok(g) => g,
        Err(e) => {
            proof {
                assert(!crate::generator::trivially_completable(*logic));
            }
            return Err(e);
        },
    };
    while !generator.finished()
        invariant
            generator.inv(),
            generator.logic == logic,
            generator.mapsv@ == maps_view(maps@),
            generator.initial_pool@ == spec_initial_pool(maps_view(maps@), *logic),
        decreases generator.pool@.len(),
    {
        match generator.place_item() {
            Ok(()) => {},
            Err(e) => {
                proof {
                    assert(!crate::generator::trivially_completable(*logic));
                }
                return Err(e);
            },
        }
    }
    let ghost tr = generator.reach.transfers@;
    let ghost rm = generator.reach.requirement_map;
    proof {
        assert forall|id: Id| logic.spec_transfer_ids().contains(id)
            implies (#[trigger] crate::reach::assoc_get(tr, id)) is Some by {
            let rows = logic.areas@.map_values(|ar: crate::logic::Area| ar.transfers@);
            crate::transfers::lemma_flatten_contains_inv(rows, id);
            let (a, ti) = choose|a: int, ti: int|
                0 <= a < rows.len() && 0 <= ti < rows[a].len() && #[trigger] rows[a][ti] == id;
            assert(crate::reach::assoc_get(tr, logic.areas@[a].transfers@[ti]) is Some);
        }
    }
    let (seed, items) = generator.finish();
    proof {
        assert(gear_safe(maps_view(maps@), *logic, tr, rm, items.gear@));
        assert(crate::generator::gate_costs_realized(rm, seed.placements@));
    }
    Ok((seed, items))
}

/// Derives a deterministic generator from the seed string (or a random
/// phrase) and attempts generation up to ten times; each retry draws fresh
/// randomness from the same stream, so one seed string fixes the whole run.
pub fn generate(maps: &Vec<WorldMap>, logic: &Logic, seed: Option<String>) -> (r: Result<
    (Seed, Spoiler),
    GenerateError,
>)
    ensures
        match r {
            Ok(p) => world_ok(maps_view(maps@), *logic) && generated_ok(
                maps_view(maps@),
                *logic,
                p.0,
                p.1.gear@,
            ) && (seed matches Some(s) ==> p.1.seed@ == s@),
            Err(GenerateError::InconsistentWorld) => !world_ok(maps_view(maps@), *logic),
            Err(GenerateError::AllAttemptsFailed) => world_ok(maps_view(maps@), *logic),
        },
        world_ok(maps_view(maps@), *logic) && crate::generator::trivially_completable(*logic)
            ==> r is Ok,
{
    let seed_string = match seed {
        Some(s) => s,
        None => crate::rng::random_phrase(&noun_list()),
    };
    if !crate::generator::validate_world(maps, logic) {
        return Err(GenerateError::InconsistentWorld);
    }
    let mut rng = crate::rng::rng_from_seed(seed_string.as_str());
    let mut attempt: u8 = 0;
    while attempt < 10
        invariant
            world_ok(maps_view(maps@), *logic),
            seed matches Some(s) ==> seed_string@ == s@,
            attempt > 0 ==> !crate::generator::trivially_completable(*logic),
        decreases 10 - attempt,
    {
        match try_generate(maps, logic, &mut rng) {
            Ok(p) => {
                let (s, items) = p;
                let spoiler = Spoiler { seed: seed_string, gear: items.gear };
                return Ok((s, spoiler));
            },
            Err(_) => {},
        }
        attempt = attempt + 1;
    }
    Err(GenerateError::AllAttemptsFailed)
}

/// The nouns a random seed phrase may end with: the names of the game's own
/// items, gates and enemies.
fn noun_list() -> (r: Vec<&'static str>)
    ensures
        r@.len() > 0,
{
    let mut nouns: Vec<&'static str> = Vec::new();
    nouns.push("GoldKey");
    nouns.push("SilverKey");
    nouns.push("RedKey");
    nouns.push("GreenKey");
    nouns.push("BlueKey");
    nouns.push("Sword");
    nouns.push("PortalStone");
    nouns.push("Gem");
    nouns.push("Treasure");
    nouns.push("ShrineKey");
    nouns.push("GoldSword");
    nouns.push("Heart");
    nouns.push("Shield");
    nouns.push("Stopwatch");
    nouns.push("GemHeart");
    nouns.push("TealKey");
    nouns.push("PurpleKey");
    nouns.push("UnderworldKey");
    nouns.push("PossumCoin");
    nouns.push("Hammer");
    nouns.push("Boots");
    nouns.push("Compass");
    nouns.push("Spectacles");
    nouns.push("LavaCharm");
    nouns.push("WindRing");
    nouns.push("SkeletonKey");
    nouns.push("GemSword");
    nouns.push("GemShield");
    nouns.push("RedSword");
    nouns.push("RedShield");
    nouns.push("Gold");
    nouns.push("Silver");
    nouns.push("Red");
    nouns.push("Green");
    nouns.push("Blue");
    nouns.push("Boulder");
    nouns.push("Teal");
    nouns.push("Purple");
    nouns.push("Underworld");
    nouns.push("Guard");
    nouns.push("BSlime");
    nouns.push("Bat");
    nouns.push("YBat");
    nouns.push("Fireball");
    nouns.push("PFireball");
    nouns.push("Gargoyle");
    nouns.push("Phantom");
    nouns.push("SGuard");
    nouns.push("Pirate");
    nouns.push("Rat");
    nouns.push("GRat");
    nouns.push("Skeleton");
    nouns.push("DSkeleton");
    nouns.push("GSkeleton");
    nouns.push("PSlime");
    nouns.push("GSlime");
    nouns.push("RSlime");
    nouns.push("YSlime");
    nouns.push("Spider");
    nouns.push("WSpider");
    nouns.push("Whelp");
    nouns.push("BWhelp");
    nouns.push("GWhelp");
    nouns.push("FairyR");
    nouns.push("FairyG");
    nouns.push("FairyB");
    nouns.push("GDragon");
    nouns.push("Basilisk");
    nouns.push("CloneP");
    nouns.push("CloneW");
    nouns.push("Witch");
    nouns.push("Rabbit");
    nouns.push("Glitch");
    nouns.push("GWitch");
    nouns
}

} // verus!
