//! The placement state machine: it shuffles gates and enemies, realizes the
//! transfer topology, then repeatedly draws an item from the pool and places
//! it somewhere still reachable, backfilling locations that fall out of
//! reach, until the pool is empty.

use vstd::prelude::*;
use vstd::multiset::Multiset;

use rand_pcg::Pcg64Mcg;

use crate::id::Id;
use crate::logic::{items_ok, Logic};
use crate::pool::{spec_initial_pool, Pool};
use crate::reach::{item_reached, Reach, RequirementMap};
use crate::rng::{rng_below, rng_fork, shuffle};
use crate::seed::Seed;
use crate::spoiler::ItemSpoiler;
use crate::sprite::{Collectible, Door, Enemy, Sprite, SpriteData, Things};
use crate::transfers::transfers_ok;
use crate::world::{maps_view, MapView, WorldMap};

verus! {

broadcast use vstd::seq_lib::group_to_multiset_ensures;

/// An attempt-local failure: the outer loop discards all state and retries
/// with fresh randomness.
#[derive(Clone, Copy, PartialEq, Eq, Structural, Debug)]
pub enum AttemptError {
    /// The transfer groups ran out before every slot found a partner.
    UnmatchedTransfers,
    /// The pool held nothing but progression items when a filler was owed.
    NoFiller,
    /// After removing a progression item nothing was left to place it on.
    NoSafePlacement,
}

/// An identity marker so a negative fact can quantify over every location.
pub open spec fn trig_id(id: Id) -> Id {
    id
}

/// No two maps of the collection share an identifier.
pub open spec fn maps_distinct(maps: Seq<MapView>) -> bool {
    forall|i: int, j: int| 0 <= i < j < maps.len() ==> (#[trigger] maps[i]).identifier != (
    #[trigger] maps[j]).identifier
}

/// Every transfer slot's own cell holds a transfer record.
pub open spec fn slots_ok(maps: Seq<MapView>, logic: Logic) -> bool {
    forall|id: Id| logic.spec_transfer_ids().contains(id) ==> match #[trigger] id.spec_sprite(
        maps,
    ) {
        Some(sd) => Sprite::spec_of_kind(sd.0) == Sprite::Things(Things::Transfer),
        None => false,
    }
}

/// A requirement atom the generation can resolve: a location reference must
/// name a declared item location or a gate or enemy cell, the places whose
/// costs the requirement table will hold.
pub open spec fn req_known(maps: Seq<MapView>, item_ids: Seq<Id>, req: crate::logic::Requirement) -> bool {
    match req {
        crate::logic::Requirement::Id(id) => item_ids.contains(id) || door_cell(maps, id)
            || enemy_cell(maps, id),
        _ => true,
    }
}

/// Every location reference in the graph's requirements is resolvable.
pub open spec fn req_ids_known(maps: Seq<MapView>, logic: Logic) -> bool {
    &&& forall|a: int, i: int, c: int, q: int|
        0 <= a < logic.areas@.len() && 0 <= i < logic.areas@[a].items@.len() && 0 <= c
            < logic.areas@[a].items@[i].1@.len() && 0 <= q
            < logic.areas@[a].items@[i].1@[c]@.len() ==> req_known(
            maps,
            logic.spec_item_ids(),
            #[trigger] logic.areas@[a].items@[i].1@[c]@[q],
        )
    &&& forall|a: int, p: int, c: int, q: int|
        0 <= a < logic.areas@.len() && 0 <= p < logic.areas@[a].paths@.len() && 0 <= c
            < logic.areas@[a].paths@[p].1@.len() && 0 <= q
            < logic.areas@[a].paths@[p].1@[c]@.len() ==> req_known(
            maps,
            logic.spec_item_ids(),
            #[trigger] logic.areas@[a].paths@[p].1@[c]@[q],
        )
}

/// Everything generation assumes of the world data and the logic document:
/// mismatches here are authoring errors that no retry can repair.
pub open spec fn world_ok(maps: Seq<MapView>, logic: Logic) -> bool {
    &&& logic.wf()
    &&& maps_distinct(maps)
    &&& items_ok(maps, logic)
    &&& transfers_ok(maps, logic)
    &&& slots_ok(maps, logic)
    &&& req_ids_known(maps, logic)
}

/// Whether one requirement atom is resolvable, as `req_known` names it.
fn atom_known(maps: &Vec<WorldMap>, item_ids: &Vec<Id>, req: &crate::logic::Requirement) -> (r:
    bool)
    ensures
        r == req_known(maps_view(maps@), item_ids@, *req),
{
    match req {
        crate::logic::Requirement::Id(id) => {
            if crate::reach::contains_id(item_ids, *id) {
                return true;
            }
            match crate::world::find_map(maps, id.map) {
                Some(_) => match id.sprite(maps) {
                    Some(sd) => match Sprite::of_kind(sd.kind) {
                        Sprite::Door(Door::Gold) | Sprite::Door(Door::Silver)
                        | Sprite::Door(Door::Boulder) => true,
                        Sprite::Enemy(_) => true,
                        _ => false,
                    },
                    None => false,
                },
                None => false,
            }
        },
        _ => true,
    }
}

/// Whether a full requirement's atoms are all resolvable.
fn clauses_known(
    maps: &Vec<WorldMap>,
    item_ids: &Vec<Id>,
    reqs: &crate::logic::Requirements,
) -> (r: bool)
    ensures
        r == forall|c: int, q: int|
            0 <= c < reqs@.len() && 0 <= q < reqs@[c]@.len() ==> req_known(
                maps_view(maps@),
                item_ids@,
                #[trigger] reqs@[c]@[q],
            ),
{
    let mut c: usize = 0;
    while c < reqs.len()
        invariant
            c <= reqs@.len(),
            forall|cc: int, q: int|
                0 <= cc < c && 0 <= q < reqs@[cc]@.len() ==> req_known(
                    maps_view(maps@),
                    item_ids@,
                    #[trigger] reqs@[cc]@[q],
                ),
        decreases reqs@.len() - c,
    {
        let conj = &reqs[c];
        let mut q: usize = 0;
        while q < conj.len()
            invariant
                q <= conj@.len(),
                c < reqs@.len(),
                conj@ == reqs@[c as int]@,
                forall|qq: int| 0 <= qq < q ==> req_known(
                    maps_view(maps@),
                    item_ids@,
                    #[trigger] conj@[qq],
                ),
            decreases conj@.len() - q,
        {
            if !atom_known(maps, item_ids, &conj[q]) {
                return false;
            }
            q = q + 1;
        }
        c = c + 1;
    }
    true
}

/// Whether every location reference the graph's requirements make is
/// resolvable, as `req_ids_known` names it.
pub fn validate_requirement_ids(maps: &Vec<WorldMap>, logic: &Logic) -> (r: bool)
    ensures
        r == req_ids_known(maps_view(maps@), *logic),
{
    let item_ids = logic.items();
    let mut a: usize = 0;
    while a < logic.areas.len()
        invariant
            a <= logic.areas@.len(),
            item_ids@ == logic.spec_item_ids(),
            forall|aa: int, i: int, c: int, q: int|
                0 <= aa < a && 0 <= i < logic.areas@[aa].items@.len() && 0 <= c
                    < logic.areas@[aa].items@[i].1@.len() && 0 <= q
                    < logic.areas@[aa].items@[i].1@[c]@.len() ==> req_known(
                    maps_view(maps@),
                    logic.spec_item_ids(),
                    #[trigger] logic.areas@[aa].items@[i].1@[c]@[q],
                ),
            forall|aa: int, p: int, c: int, q: int|
                0 <= aa < a && 0 <= p < logic.areas@[aa].paths@.len() && 0 <= c
                    < logic.areas@[aa].paths@[p].1@.len() && 0 <= q
                    < logic.areas@[aa].paths@[p].1@[c]@.len() ==> req_known(
                    maps_view(maps@),
                    logic.spec_item_ids(),
                    #[trigger] logic.areas@[aa].paths@[p].1@[c]@[q],
                ),
        decreases logic.areas@.len() - a,
    {
        let area = logic.get_area(a);
        let mut i: usize = 0;
        while i < area.items.len()
            invariant
                i <= area.items@.len(),
                a < logic.areas@.len(),
                area == logic.areas@[a as int],
                item_ids@ == logic.spec_item_ids(),
                forall|ii: int, c: int, q: int|
                    0 <= ii < i && 0 <= c < area.items@[ii].1@.len() && 0 <= q
                        < area.items@[ii].1@[c]@.len() ==> req_known(
                        maps_view(maps@),
                        logic.spec_item_ids(),
                        #[trigger] area.items@[ii].1@[c]@[q],
                    ),
            decreases area.items@.len() - i,
        {
            if !clauses_known(maps, &item_ids, &area.items[i].1) {
                return false;
            }
            i = i + 1;
        }
        let mut p: usize = 0;
        while p < area.paths.len()
            invariant
                p <= area.paths@.len(),
                a < logic.areas@.len(),
                area == logic.areas@[a as int],
                item_ids@ == logic.spec_item_ids(),
                forall|pp: int, c: int, q: int|
                    0 <= pp < p && 0 <= c < area.paths@[pp].1@.len() && 0 <= q
                        < area.paths@[pp].1@[c]@.len() ==> req_known(
                        maps_view(maps@),
                        logic.spec_item_ids(),
                        #[trigger] area.paths@[pp].1@[c]@[q],
                    ),
            decreases area.paths@.len() - p,
        {
            if !clauses_known(maps, &item_ids, &area.paths[p].1) {
                return false;
            }
            p = p + 1;
        }
        a = a + 1;
    }
    true
}

/// Whether generation may run, as `world_ok` names it.
pub fn validate_world(maps: &Vec<WorldMap>, logic: &Logic) -> (r: bool)
    ensures
        r == world_ok(maps_view(maps@), *logic),
{
    let ghost mv = maps_view(maps@);
    if !logic.validate() {
        return false;
    }
    let mut i: usize = 0;
    while i < maps.len()
        invariant
            i <= maps@.len(),
            mv == maps_view(maps@),
            forall|a: int, b: int| 0 <= a < b < maps@.len() && a < i ==> (
            #[trigger] mv[a]).identifier != (#[trigger] mv[b]).identifier,
        decreases maps@.len() - i,
    {
        let mut j: usize = i + 1;
        while j < maps.len()
            invariant
                i < j <= maps@.len(),
                i < maps@.len(),
                mv == maps_view(maps@),
                forall|b: int| i < b < j ==> (#[trigger] mv[b]).identifier != mv[i as int].identifier,
            decreases maps@.len() - j,
        {
            if maps[i].identifier == maps[j].identifier {
                proof {
                    assert(mv[i as int].identifier == maps@[i as int].identifier);
                    assert(mv[j as int].identifier == maps@[j as int].identifier);
                }
                return false;
            }
            j = j + 1;
        }
        i = i + 1;
    }
    if !crate::logic::validate_items(maps, logic) {
        return false;
    }
    if !crate::transfers::validate_transfers(maps, logic) {
        return false;
    }
    if !validate_requirement_ids(maps, logic) {
        return false;
    }
    let ids = logic.transfer_ids();
    let mut k: usize = 0;
    while k < ids.len()
        invariant
            k <= ids@.len(),
            mv == maps_view(maps@),
            ids@ == logic.spec_transfer_ids(),
            forall|q: int| 0 <= q < k ==> match #[trigger] ids@[q].spec_sprite(mv) {
                Some(sd) => Sprite::spec_of_kind(sd.0) == Sprite::Things(Things::Transfer),
                None => false,
            },
        decreases ids@.len() - k,
    {
        let id = ids[k];
        let ok = match crate::world::find_map(maps, id.map) {
            Some(_) => match id.sprite(maps) {
                Some(sd) => sd.kind == 0,
                None => false,
            },
            None => false,
        };
        if !ok {
            proof {
                assert(ids@.contains(ids@[k as int]));
                assert(match ids@[k as int].spec_sprite(mv) {
                    Some(sd) => Sprite::spec_of_kind(sd.0) != Sprite::Things(Things::Transfer),
                    None => true,
                });
            }
            return false;
        }
        k = k + 1;
    }
    proof {
        assert forall|id: Id| logic.spec_transfer_ids().contains(id) implies match
            #[trigger] id.spec_sprite(mv) {
            Some(sd) => Sprite::spec_of_kind(sd.0) == Sprite::Things(Things::Transfer),
            None => false,
        } by {
            let q = choose|q: int| 0 <= q < ids@.len() && ids@[q] == id;
            assert(match ids@[q].spec_sprite(mv) {
                Some(sd) => Sprite::spec_of_kind(sd.0) == Sprite::Things(Things::Transfer),
                None => false,
            });
        }
    }
    true
}

/// A requirement that some clause discharges free of charge.
pub open spec fn has_free_clause(reqs: Seq<Vec<crate::logic::Requirement>>) -> bool {
    exists|c: int| 0 <= c < reqs.len() && (#[trigger] reqs[c])@.len() == 0
}

/// A graph on which generation cannot fail, whatever the dice say: no
/// transfer slot needs a partner, every requirement offers a free clause,
/// and every area lies on a path walk from Spawn, so everything is always
/// reachable and no filler is ever owed.
pub open spec fn trivially_completable(logic: Logic) -> bool {
    &&& logic.spec_transfer_ids().len() == 0
    &&& forall|a: int, i: int|
        0 <= a < logic.areas@.len() && 0 <= i < logic.areas@[a].items@.len() ==> has_free_clause(
            (#[trigger] logic.areas@[a].items@[i]).1@,
        )
    &&& forall|a: int, p: int|
        0 <= a < logic.areas@.len() && 0 <= p < logic.areas@[a].paths@.len() ==> has_free_clause(
            (#[trigger] logic.areas@[a].paths@[p]).1@,
        )
    &&& forall|a: int| 0 <= a < logic.areas@.len() ==> crate::transfers::plinked(
        logic,
        logic.spawn as int,
        a,
    )
}

/// On a trivially completable graph every declared item location is reached
/// under any pool and any pairing and cost table.
pub proof fn lemma_trivial_reach(
    logic: Logic,
    tr: Seq<(Id, usize)>,
    rm: RequirementMap,
    pool: vstd::multiset::Multiset<Sprite>,
    id: Id,
)
    requires
        logic.wf(),
        trivially_completable(logic),
        logic.spec_item_ids().contains(id),
    ensures
        item_reached(logic, tr, rm, pool, id),
{
    let rows = logic.areas@.map_values(
        |ar: crate::logic::Area| ar.items@.map_values(
            |e: (Id, crate::logic::Requirements)| e.0,
        ),
    );
    crate::transfers::lemma_flatten_contains_inv(rows, id);
    let (a, i) = choose|a: int, i: int|
        0 <= a < rows.len() && 0 <= i < rows[a].len() && #[trigger] rows[a][i] == id;
    assert(logic.areas@[a].items@[i].0 == id);
    assert(crate::transfers::plinked(logic, logic.spawn as int, a));
    let ch = choose|ch: Seq<int>|
        crate::transfers::pchain(logic, ch) && ch[0] == logic.spawn as int && ch.last() == a;
    assert forall|k: int| 0 <= k < ch.len() - 1 implies crate::reach::spec_edge(
        logic,
        tr,
        rm,
        pool,
        #[trigger] ch[k],
        ch[k + 1],
    ) by {
        assert(crate::transfers::path_edge(logic, ch[k], ch[k + 1]));
        let p = choose|p: int|
            0 <= p < logic.areas@[ch[k]].paths@.len() && (
            #[trigger] logic.areas@[ch[k]].paths@[p]).0 == ch[k + 1];
        assert(has_free_clause(logic.areas@[ch[k]].paths@[p].1@));
        let c = choose|c: int|
            0 <= c < logic.areas@[ch[k]].paths@[p].1@.len() && (
            #[trigger] logic.areas@[ch[k]].paths@[p].1@[c])@.len() == 0;
        assert(crate::reach::conj_met(rm, logic.areas@[ch[k]].paths@[p].1@[c]@, pool));
        assert(crate::reach::reqs_met(rm, logic.areas@[ch[k]].paths@[p].1@, pool));
    }
    assert(crate::reach::spec_chain(logic, tr, rm, pool, ch));
    assert(crate::reach::area_reached(logic, tr, rm, pool, a));
    assert(has_free_clause(logic.areas@[a].items@[i].1@));
    let c = choose|c: int|
        0 <= c < logic.areas@[a].items@[i].1@.len() && (
        #[trigger] logic.areas@[a].items@[i].1@[c])@.len() == 0;
    assert(crate::reach::conj_met(rm, logic.areas@[a].items@[i].1@[c]@, pool));
    assert(crate::reach::reqs_met(rm, logic.areas@[a].items@[i].1@, pool));
}

/// This location's cell holds a shuffled gate.
pub open spec fn door_cell(maps: Seq<MapView>, id: Id) -> bool {
    match id.spec_sprite(maps) {
        Some(sd) => Sprite::spec_of_kind(sd.0) == Sprite::Door(Door::Gold)
            || Sprite::spec_of_kind(sd.0) == Sprite::Door(Door::Silver)
            || Sprite::spec_of_kind(sd.0) == Sprite::Door(Door::Boulder),
        None => false,
    }
}

/// This location's cell holds an enemy.
pub open spec fn enemy_cell(maps: Seq<MapView>, id: Id) -> bool {
    match id.spec_sprite(maps) {
        Some(sd) => Sprite::spec_of_kind(sd.0) is Enemy,
        None => false,
    }
}

/// The item a shuffled gate demands: its key, or the hammer for a boulder.
pub open spec fn spec_door_key(d: Door) -> Sprite {
    match d {
        Door::Gold => Sprite::Collectible(Collectible::GoldKey),
        Door::Silver => Sprite::Collectible(Collectible::SilverKey),
        Door::Red => Sprite::Collectible(Collectible::RedKey),
        Door::Green => Sprite::Collectible(Collectible::GreenKey),
        Door::Blue => Sprite::Collectible(Collectible::BlueKey),
        Door::Boulder => Sprite::Gear(crate::sprite::Gear::Hammer),
        Door::Teal => Sprite::Collectible(Collectible::TealKey),
        Door::Purple => Sprite::Collectible(Collectible::PurpleKey),
        Door::Underworld => Sprite::Collectible(Collectible::UnderworldKey),
    }
}

/// The cost table binds this location to exactly the given door's cost.
pub open spec fn door_cost_bound(rm: RequirementMap, id: Id, d: Door) -> bool {
    match crate::reach::assoc_get(rm.id_requirements@, id) {
        Some(cl) => cl@.len() == 1 && cl@[0]@ == seq![spec_door_key(d)],
        None => false,
    }
}

/// The cost table binds this location to exactly the given enemy's cost:
/// swords matching its strength or enough gems, nothing for the fairies.
pub open spec fn enemy_cost_bound(rm: RequirementMap, id: Id, e: Enemy) -> bool {
    match crate::reach::assoc_get(rm.id_requirements@, id) {
        Some(cl) => if e == Enemy::FairyG || e == Enemy::FairyB {
            cl@.len() == 1 && cl@[0]@.len() == 0
        } else {
            cl@.len() == 2 && cl@[0]@ == Seq::new(
                e.spec_strength() as nat,
                |i: int| Sprite::Collectible(Collectible::Sword),
            ) && cl@[1]@ == Seq::new(99, |i: int| Sprite::Collectible(Collectible::Gem))
        },
        None => false,
    }
}

/// Every shuffled gate and enemy the seed writes is guarded in the cost
/// table by exactly the cost of the kind written there: the table the reach
/// runs on is the one the seed realizes.
pub open spec fn gate_costs_realized(rm: RequirementMap, ps: Seq<(Id, SpriteData)>) -> bool {
    forall|j: int|
        0 <= j < ps.len() ==> match Sprite::spec_of_kind((#[trigger] ps[j]).1.kind) {
            Sprite::Door(d) => door_cost_bound(rm, ps[j].0, d),
            Sprite::Enemy(e) => enemy_cost_bound(rm, ps[j].0, e),
            _ => true,
        }
}

/// Pushing an item placement leaves the cost-table tie intact: only door
/// and enemy kinds are constrained by the cost table.
pub proof fn lemma_gate_costs_push(
    rm: RequirementMap,
    ps: Seq<(Id, SpriteData)>,
    p: (Id, SpriteData),
)
    requires
        gate_costs_realized(rm, ps),
        Sprite::spec_of_kind(p.1.kind).spec_is_item(),
    ensures
        gate_costs_realized(rm, ps.push(p)),
{
    assert forall|j: int|
        0 <= j < ps.push(p).len() implies match Sprite::spec_of_kind(
        (#[trigger] ps.push(p)[j]).1.kind,
    ) {
        Sprite::Door(d) => door_cost_bound(rm, ps.push(p)[j].0, d),
        Sprite::Enemy(e) => enemy_cost_bound(rm, ps.push(p)[j].0, e),
        _ => true,
    } by {
        if j < ps.len() {
            assert(ps.push(p)[j] == ps[j]);
        } else {
            assert(ps.push(p)[j] == p);
        }
    }
}

/// A placement whose own cell holds no item: the shuffled gates, enemies
/// and transfer slots, as opposed to the item placements.
pub open spec fn placement_non_item_cell(maps: Seq<MapView>, p: (Id, SpriteData)) -> bool {
    match p.0.spec_sprite(maps) {
        Some(cell) => !Sprite::spec_of_kind(cell.0).spec_is_item(),
        None => false,
    }
}

/// Some placement rewires this slot with a transfer record. Opaque so the
/// state machine's invariants restate it without chasing the witness.
#[verifier::opaque]
pub open spec fn placed_transfer(ps: Seq<(Id, SpriteData)>, id: Id) -> bool {
    exists|j: int| 0 <= j < ps.len() && (#[trigger] ps[j]).0 == id && ps[j].1.kind == 0
}

/// Some placement writes an item at this location.
#[verifier::opaque]
pub open spec fn placed_item_at(ps: Seq<(Id, SpriteData)>, id: Id) -> bool {
    exists|j: int|
        0 <= j < ps.len() && (#[trigger] ps[j]).0 == id && Sprite::spec_of_kind(
            ps[j].1.kind,
        ).spec_is_item()
}

/// Some placement writes a non-progression item at this location.
#[verifier::opaque]
pub open spec fn placed_filler_at(ps: Seq<(Id, SpriteData)>, id: Id) -> bool {
    exists|j: int|
        0 <= j < ps.len() && (#[trigger] ps[j]).0 == id && Sprite::spec_of_kind(
            ps[j].1.kind,
        ).spec_is_item() && !Sprite::spec_of_kind(ps[j].1.kind).spec_is_gear()
}

/// Some placement writes a door at this location.
#[verifier::opaque]
pub open spec fn placed_door_at(ps: Seq<(Id, SpriteData)>, id: Id) -> bool {
    exists|j: int|
        0 <= j < ps.len() && (#[trigger] ps[j]).0 == id && Sprite::spec_of_kind(
            ps[j].1.kind,
        ) is Door
}

/// Some placement writes an enemy at this location.
#[verifier::opaque]
pub open spec fn placed_enemy_at(ps: Seq<(Id, SpriteData)>, id: Id) -> bool {
    exists|j: int|
        0 <= j < ps.len() && (#[trigger] ps[j]).0 == id && Sprite::spec_of_kind(
            ps[j].1.kind,
        ) is Enemy
}

/// Some placement writes exactly this progression item at this location.
#[verifier::opaque]
pub open spec fn placed_gear_at(ps: Seq<(Id, SpriteData)>, g: crate::sprite::Gear, id: Id) -> bool {
    exists|j: int|
        0 <= j < ps.len() && (#[trigger] ps[j]).0 == id && Sprite::spec_of_kind(ps[j].1.kind)
            == Sprite::Gear(g)
}

/// The spoiler records this progression placement.
#[verifier::opaque]
pub open spec fn spoiler_names(gear: Seq<(crate::sprite::Gear, Id)>, g: crate::sprite::Gear, id: Id) -> bool {
    exists|k: int| 0 <= k < gear.len() && #[trigger] gear[k] == (g, id)
}

/// Appending a placement keeps everything already placed placed, and places
/// the new entry.
pub proof fn lemma_placements_push(ps: Seq<(Id, SpriteData)>, p: (Id, SpriteData))
    ensures
        forall|id: Id| #[trigger] placed_transfer(ps, id) ==> placed_transfer(ps.push(p), id),
        forall|id: Id| #[trigger] placed_item_at(ps, id) ==> placed_item_at(ps.push(p), id),
        forall|id: Id| #[trigger] placed_filler_at(ps, id) ==> placed_filler_at(ps.push(p), id),
        forall|id: Id| #[trigger] placed_door_at(ps, id) ==> placed_door_at(ps.push(p), id),
        forall|id: Id| #[trigger] placed_enemy_at(ps, id) ==> placed_enemy_at(ps.push(p), id),
        forall|g: crate::sprite::Gear, id: Id| #[trigger] placed_gear_at(ps, g, id)
            ==> placed_gear_at(ps.push(p), g, id),
        p.1.kind == 0 ==> placed_transfer(ps.push(p), p.0),
        Sprite::spec_of_kind(p.1.kind).spec_is_item() ==> placed_item_at(ps.push(p), p.0),
        Sprite::spec_of_kind(p.1.kind).spec_is_item() && !Sprite::spec_of_kind(
            p.1.kind,
        ).spec_is_gear() ==> placed_filler_at(ps.push(p), p.0),
        Sprite::spec_of_kind(p.1.kind) is Door ==> placed_door_at(ps.push(p), p.0),
        Sprite::spec_of_kind(p.1.kind) is Enemy ==> placed_enemy_at(ps.push(p), p.0),
        forall|g: crate::sprite::Gear|
            Sprite::spec_of_kind(p.1.kind) == Sprite::Gear(g) ==> placed_gear_at(
                ps.push(p),
                g,
                p.0,
            ),
{
    reveal(placed_transfer);
    reveal(placed_item_at);
    reveal(placed_filler_at);
    reveal(placed_door_at);
    reveal(placed_enemy_at);
    reveal(placed_gear_at);
    assert(ps.push(p)[ps.len() as int] == p);
    assert forall|id: Id| #[trigger] placed_transfer(ps, id) implies placed_transfer(
        ps.push(p),
        id,
    ) by {
        let j = choose|j: int| 0 <= j < ps.len() && (#[trigger] ps[j]).0 == id && ps[j].1.kind == 0;
        assert(ps.push(p)[j] == ps[j]);
    }
    assert forall|id: Id| #[trigger] placed_item_at(ps, id) implies placed_item_at(
        ps.push(p),
        id,
    ) by {
        let j = choose|j: int|
            0 <= j < ps.len() && (#[trigger] ps[j]).0 == id && Sprite::spec_of_kind(
                ps[j].1.kind,
            ).spec_is_item();
        assert(ps.push(p)[j] == ps[j]);
    }
    assert forall|id: Id| #[trigger] placed_filler_at(ps, id) implies placed_filler_at(
        ps.push(p),
        id,
    ) by {
        let j = choose|j: int|
            0 <= j < ps.len() && (#[trigger] ps[j]).0 == id && Sprite::spec_of_kind(
                ps[j].1.kind,
            ).spec_is_item() && !Sprite::spec_of_kind(ps[j].1.kind).spec_is_gear();
        assert(ps.push(p)[j] == ps[j]);
    }
    assert forall|id: Id| #[trigger] placed_door_at(ps, id) implies placed_door_at(
        ps.push(p),
        id,
    ) by {
        let j = choose|j: int|
            0 <= j < ps.len() && (#[trigger] ps[j]).0 == id && Sprite::spec_of_kind(
                ps[j].1.kind,
            ) is Door;
        assert(ps.push(p)[j] == ps[j]);
    }
    assert forall|id: Id| #[trigger] placed_enemy_at(ps, id) implies placed_enemy_at(
        ps.push(p),
        id,
    ) by {
        let j = choose|j: int|
            0 <= j < ps.len() && (#[trigger] ps[j]).0 == id && Sprite::spec_of_kind(
                ps[j].1.kind,
            ) is Enemy;
        assert(ps.push(p)[j] == ps[j]);
    }
    assert forall|g: crate::sprite::Gear, id: Id| #[trigger] placed_gear_at(ps, g, id)
        implies placed_gear_at(ps.push(p), g, id) by {
        let j = choose|j: int|
            0 <= j < ps.len() && (#[trigger] ps[j]).0 == id && Sprite::spec_of_kind(ps[j].1.kind)
                == Sprite::Gear(g);
        assert(ps.push(p)[j] == ps[j]);
    }
}

/// Adding a spoiler entry keeps every recorded placement recorded.
pub proof fn lemma_spoiler_push(gear: Seq<(crate::sprite::Gear, Id)>, e: (crate::sprite::Gear, Id))
    ensures
        forall|g: crate::sprite::Gear, id: Id| #[trigger] spoiler_names(gear, g, id)
            ==> spoiler_names(gear.push(e), g, id),
        spoiler_names(gear.push(e), e.0, e.1),
{
    reveal(spoiler_names);
    assert(gear.push(e)[gear.len() as int] == e);
    assert forall|g: crate::sprite::Gear, id: Id| #[trigger] spoiler_names(gear, g, id)
        implies spoiler_names(gear.push(e), g, id) by {
        let k = choose|k: int| 0 <= k < gear.len() && #[trigger] gear[k] == (g, id);
        assert(gear.push(e)[k] == gear[k]);
    }
}

/// Extending a placement list keeps everything already placed placed.
pub proof fn lemma_placements_extends(ps1: Seq<(Id, SpriteData)>, ps2: Seq<(Id, SpriteData)>)
    requires
        ps1.len() <= ps2.len(),
        ps2.take(ps1.len() as int) == ps1,
    ensures
        forall|id: Id| #[trigger] placed_transfer(ps1, id) ==> placed_transfer(ps2, id),
        forall|id: Id| #[trigger] placed_item_at(ps1, id) ==> placed_item_at(ps2, id),
        forall|id: Id| #[trigger] placed_filler_at(ps1, id) ==> placed_filler_at(ps2, id),
        forall|id: Id| #[trigger] placed_door_at(ps1, id) ==> placed_door_at(ps2, id),
        forall|id: Id| #[trigger] placed_enemy_at(ps1, id) ==> placed_enemy_at(ps2, id),
        forall|g: crate::sprite::Gear, id: Id| #[trigger] placed_gear_at(ps1, g, id)
            ==> placed_gear_at(ps2, g, id),
{
    reveal(placed_transfer);
    reveal(placed_item_at);
    reveal(placed_filler_at);
    reveal(placed_door_at);
    reveal(placed_enemy_at);
    reveal(placed_gear_at);
    assert forall|j: int| 0 <= j < ps1.len() implies #[trigger] ps2[j] == ps1[j] by {
        assert(ps2.take(ps1.len() as int)[j] == ps2[j]);
    }
}

/// A list without duplicates has no more entries than any list holding all
/// of its values.
pub proof fn lemma_no_dup_subset_len(a: Seq<Id>, b: Seq<Id>)
    requires
        a.no_duplicates(),
        forall|k: int| 0 <= k < a.len() ==> b.contains(#[trigger] a[k]),
    ensures
        a.len() <= b.len(),
{
    broadcast use vstd::seq_lib::seq_to_set_is_finite;

    a.unique_seq_to_set();
    b.lemma_cardinality_of_set();
    assert(a.to_set().subset_of(b.to_set())) by {
        assert forall|x: Id| a.to_set().contains(x) implies b.to_set().contains(x) by {
            assert(a.contains(x));
        }
    }
    vstd::set_lib::lemma_len_subset(a.to_set(), b.to_set());
}

/// Collects the location of every shuffled gate (`want_doors`) or of every
/// enemy across the whole collection.
fn collect_cells(maps: &Vec<WorldMap>, want_doors: bool) -> (r: Vec<Id>)
    requires
        maps_distinct(maps_view(maps@)),
    ensures
        forall|k: int| 0 <= k < r@.len() ==> if want_doors {
            door_cell(maps_view(maps@), #[trigger] r@[k])
        } else {
            enemy_cell(maps_view(maps@), #[trigger] r@[k])
        },
        forall|k1: int, k2: int| 0 <= k1 < k2 < r@.len() ==> r@[k1] != r@[k2],
        forall|id: Id|
            (if want_doors {
                door_cell(maps_view(maps@), id)
            } else {
                enemy_cell(maps_view(maps@), id)
            }) ==> #[trigger] r@.contains(id),
{
    let ghost mv = maps_view(maps@);
    let mut out: Vec<Id> = Vec::new();
    let mut mi: usize = 0;
    while mi < maps.len()
        invariant
            mi <= maps@.len(),
            mv == maps_view(maps@),
            maps_distinct(mv),
            forall|k: int| 0 <= k < out@.len() ==> if want_doors {
                door_cell(mv, #[trigger] out@[k])
            } else {
                enemy_cell(mv, #[trigger] out@[k])
            },
            forall|k1: int, k2: int| 0 <= k1 < k2 < out@.len() ==> out@[k1] != out@[k2],
            forall|k: int| 0 <= k < out@.len() ==> exists|m: int|
                0 <= m < mi && (#[trigger] out@[k]).map == mv[m].identifier,
            forall|id: Id|
                0 <= crate::world::spec_find_map(mv, id.map) < mi && (if want_doors {
                    door_cell(mv, id)
                } else {
                    enemy_cell(mv, id)
                }) ==> #[trigger] out@.contains(id),
        decreases maps@.len() - mi,
    {
        let m = &maps[mi];
        proof {
            assert(mv[mi as int] == m@);
            assert forall|j: int| 0 <= j < mi implies mv[j].identifier != m@.identifier by {
                assert(mv[j].identifier != mv[mi as int].identifier);
            }
            crate::world::lemma_find_map_at(mv, m@.identifier, mi as int);
        }
        let cells = m.sprites_with_positions();
        let mut c: usize = 0;
        while c < cells.len()
            invariant
                c <= cells@.len(),
                mi < maps@.len(),
                m == maps@[mi as int],
                mv == maps_view(maps@),
                maps_distinct(mv),
                crate::world::spec_find_map(mv, m@.identifier) == mi,
                forall|k: int| 0 <= k < cells@.len() ==> {
                    let (x, y, sd) = #[trigger] cells@[k];
                    crate::world::spec_cell(m@, x as int, y as int) == Some(sd@)
                },
                forall|k1: int, k2: int| 0 <= k1 < k2 < cells@.len()
                    ==> !(#[trigger] cells@[k1].0 == #[trigger] cells@[k2].0 && cells@[k1].1
                    == cells@[k2].1),
                forall|k: int| 0 <= k < out@.len() ==> if want_doors {
                    door_cell(mv, #[trigger] out@[k])
                } else {
                    enemy_cell(mv, #[trigger] out@[k])
                },
                forall|k1: int, k2: int| 0 <= k1 < k2 < out@.len() ==> out@[k1] != out@[k2],
                forall|k: int| 0 <= k < out@.len() ==> exists|j: int|
                    0 <= j < mi + 1 && (#[trigger] out@[k]).map == mv[j].identifier,
                forall|k: int| 0 <= k < out@.len() ==> (#[trigger] out@[k]).map
                    != m@.identifier || exists|q: int|
                    0 <= q < c && out@[k].x == cells@[q].0 && out@[k].y == cells@[q].1,
                forall|id: Id|
                    0 <= crate::world::spec_find_map(mv, id.map) < mi && (if want_doors {
                        door_cell(mv, id)
                    } else {
                        enemy_cell(mv, id)
                    }) ==> #[trigger] out@.contains(id),
                forall|q: int|
                    0 <= q < c && (if want_doors {
                        Sprite::spec_of_kind((#[trigger] cells@[q]).2.kind) == Sprite::Door(
                            Door::Gold,
                        ) || Sprite::spec_of_kind(cells@[q].2.kind) == Sprite::Door(Door::Silver)
                            || Sprite::spec_of_kind(cells@[q].2.kind) == Sprite::Door(
                            Door::Boulder,
                        )
                    } else {
                        Sprite::spec_of_kind(cells@[q].2.kind) is Enemy
                    }) ==> out@.contains(
                        Id { map: m@.identifier, x: cells@[q].0, y: cells@[q].1 },
                    ),
            decreases cells@.len() - c,
        {
            let (x, y, sd) = &cells[c];
            let sprite = Sprite::of_kind(sd.kind);
            let keep = if want_doors {
                match sprite {
                    Sprite::Door(Door::Gold) | Sprite::Door(Door::Silver)
                    | Sprite::Door(Door::Boulder) => true,
                    _ => false,
                }
            } else {
                match sprite {
                    Sprite::Enemy(_) => true,
                    _ => false,
                }
            };
            let ghost before = out@;
            if keep {
                let id = Id::new(m.identifier, *x, *y);
                out.push(id);
                proof {
                    assert(id.spec_sprite(mv) == crate::world::spec_cell(
                        m@,
                        id.x as int,
                        id.y as int,
                    ));
                    assert forall|k1: int, k2: int| 0 <= k1 < k2 < out@.len()
                        implies out@[k1] != out@[k2] by {
                        if k2 == out@.len() - 1 {
                            let p = before[k1];
                            if p.map == m@.identifier {
                                let q = choose|q: int|
                                    0 <= q < c && p.x == cells@[q].0 && p.y == cells@[q].1;
                                assert(!(cells@[q].0 == cells@[c as int].0 && cells@[q].1
                                    == cells@[c as int].1));
                            }
                        }
                    }
                    assert(out@[before.len() as int] == id);
                }
            }
            proof {
                assert forall|idq: Id|
                    0 <= crate::world::spec_find_map(mv, idq.map) < mi && (if want_doors {
                        door_cell(mv, idq)
                    } else {
                        enemy_cell(mv, idq)
                    }) implies #[trigger] out@.contains(idq) by {
                    assert(before.contains(idq));
                    let k = choose|k: int| 0 <= k < before.len() && before[k] == idq;
                    assert(out@[k] == idq);
                }
                assert forall|q: int|
                    0 <= q < c + 1 && (if want_doors {
                        Sprite::spec_of_kind((#[trigger] cells@[q]).2.kind) == Sprite::Door(
                            Door::Gold,
                        ) || Sprite::spec_of_kind(cells@[q].2.kind) == Sprite::Door(Door::Silver)
                            || Sprite::spec_of_kind(cells@[q].2.kind) == Sprite::Door(
                            Door::Boulder,
                        )
                    } else {
                        Sprite::spec_of_kind(cells@[q].2.kind) is Enemy
                    }) implies out@.contains(
                    Id { map: m@.identifier, x: cells@[q].0, y: cells@[q].1 },
                ) by {
                    let want = Id { map: m@.identifier, x: cells@[q].0, y: cells@[q].1 };
                    if q < c {
                        let k = choose|k: int| 0 <= k < before.len() && before[k] == want;
                        assert(out@[k] == want);
                    } else {
                        assert(keep);
                        assert(out@[before.len() as int] == want);
                    }
                }
            }
            c = c + 1;
        }
        proof {
            assert forall|id: Id|
                0 <= crate::world::spec_find_map(mv, id.map) < mi + 1 && (if want_doors {
                    door_cell(mv, id)
                } else {
                    enemy_cell(mv, id)
                }) implies #[trigger] out@.contains(id) by {
                if crate::world::spec_find_map(mv, id.map) == mi {
                    crate::world::lemma_find_map(mv, id.map);
                    assert(mv[mi as int].identifier == id.map);
                    assert(id.spec_sprite(mv) == crate::world::spec_cell(
                        m@,
                        id.x as int,
                        id.y as int,
                    ));
                    let k = choose|k: int|
                        0 <= k < cells@.len() && cells@[k].0 == id.x as int && cells@[k].1
                            == id.y as int;
                    assert(crate::world::spec_cell(m@, id.x as int, id.y as int) == Some(
                        cells@[k].2@,
                    ));
                    assert(out@.contains(
                        Id { map: m@.identifier, x: cells@[k].0, y: cells@[k].1 },
                    ));
                    assert(Id { map: m@.identifier, x: cells@[k].0, y: cells@[k].1 } == id);
                }
            }
        }
        mi = mi + 1;
    }
    proof {
        assert forall|id: Id|
            (if want_doors {
                door_cell(mv, id)
            } else {
                enemy_cell(mv, id)
            }) implies #[trigger] out@.contains(id) by {
            crate::world::lemma_find_map(mv, id.map);
            assert(0 <= crate::world::spec_find_map(mv, id.map) < mi);
        }
    }
    out
}

/// The cost clause a shuffled gate demands: its key, or the hammer for a
/// boulder.
fn door_requirement(d: Door) -> (r: Vec<Vec<Sprite>>)
    ensures
        r@.len() == 1,
        r@[0]@ == seq![spec_door_key(d)],
{
    let key = match d {
        Door::Gold => Sprite::Collectible(Collectible::GoldKey),
        Door::Silver => Sprite::Collectible(Collectible::SilverKey),
        Door::Red => Sprite::Collectible(Collectible::RedKey),
        Door::Green => Sprite::Collectible(Collectible::GreenKey),
        Door::Blue => Sprite::Collectible(Collectible::BlueKey),
        Door::Boulder => Sprite::Gear(crate::sprite::Gear::Hammer),
        Door::Teal => Sprite::Collectible(Collectible::TealKey),
        Door::Purple => Sprite::Collectible(Collectible::PurpleKey),
        Door::Underworld => Sprite::Collectible(Collectible::UnderworldKey),
    };
    let mut clause: Vec<Sprite> = Vec::new();
    clause.push(key);
    let mut clauses: Vec<Vec<Sprite>> = Vec::new();
    clauses.push(clause);
    clauses
}

/// The item sprites a placement list has written, in order.
pub open spec fn item_sprites_of(ps: Seq<(Id, SpriteData)>) -> Seq<Sprite> {
    ps.map_values(|p: (Id, SpriteData)| Sprite::spec_of_kind(p.1.kind)).filter(
        |s: Sprite| s.spec_is_item(),
    )
}

/// Appending a placement extends the written item sprites by its sprite
/// when that is an item, and not otherwise.
pub proof fn lemma_item_sprites_push(ps: Seq<(Id, SpriteData)>, p: (Id, SpriteData))
    ensures
        Sprite::spec_of_kind(p.1.kind).spec_is_item() ==> item_sprites_of(ps.push(p))
            == item_sprites_of(ps).push(Sprite::spec_of_kind(p.1.kind)),
        !Sprite::spec_of_kind(p.1.kind).spec_is_item() ==> item_sprites_of(ps.push(p))
            == item_sprites_of(ps),
{
    reveal(Seq::filter);
    let f = |q: (Id, SpriteData)| Sprite::spec_of_kind(q.1.kind);
    let mapped = ps.push(p).map_values(f);
    assert(mapped.drop_last() =~= ps.map_values(f));
    assert(mapped.last() == f(p));
    assert(mapped =~= ps.map_values(f).push(f(p)));
}

/// A list of placements none of which wrote an item has written no items.
pub proof fn lemma_item_sprites_none(ps: Seq<(Id, SpriteData)>)
    requires
        forall|j: int| 0 <= j < ps.len() ==> !Sprite::spec_of_kind(
            (#[trigger] ps[j]).1.kind,
        ).spec_is_item(),
    ensures
        item_sprites_of(ps) =~= Seq::<Sprite>::empty(),
    decreases ps.len(),
{
    reveal(Seq::filter);
    if ps.len() > 0 {
        assert forall|j: int| 0 <= j < ps.drop_last().len() implies !Sprite::spec_of_kind(
            (#[trigger] ps.drop_last()[j]).1.kind,
        ).spec_is_item() by {
            assert(ps.drop_last()[j] == ps[j]);
        }
        lemma_item_sprites_none(ps.drop_last());
        lemma_item_sprites_push(ps.drop_last(), ps.last());
        assert(ps.drop_last().push(ps.last()) =~= ps);
    }
}

/// One placement of the seed: its own cell class matches what was written
/// there, so cells of different classes never collide, and the record stays
/// readable after the seed is applied.
pub open spec fn placement_classified(maps: Seq<MapView>, p: (Id, SpriteData)) -> bool {
    match p.0.spec_sprite(maps) {
        Some(cell) => {
            let own = Sprite::spec_of_kind(cell.0);
            let placed = Sprite::spec_of_kind(p.1.kind);
            ||| (own == Sprite::Things(Things::Transfer) && placed == Sprite::Things(
                Things::Transfer,
            ))
            ||| ((own == Sprite::Door(Door::Gold) || own == Sprite::Door(Door::Silver) || own
                == Sprite::Door(Door::Boulder)) && placed is Door)
            ||| (own is Enemy && placed is Enemy)
            ||| (own.spec_is_item() && placed.spec_is_item())
        },
        None => false,
    }
}

/// A copy of a location list.
pub fn copy_ids(src: &Vec<Id>) -> (r: Vec<Id>)
    ensures
        r@ == src@,
{
    let mut out: Vec<Id> = Vec::new();
    let mut i: usize = 0;
    while i < src.len()
        invariant
            i <= src@.len(),
            out@ == src@.take(i as int),
        decreases src@.len() - i,
    {
        out.push(src[i]);
        proof {
            assert(src@.take(i + 1) =~= src@.take(i as int).push(src@[i as int]));
        }
        i = i + 1;
    }
    proof {
        assert(src@.take(src@.len() as int) =~= src@);
    }
    out
}

/// The locations of `a` that also stand in `b`.
pub fn intersect(a: &Vec<Id>, b: &Vec<Id>) -> (r: Vec<Id>)
    ensures
        forall|k: int| 0 <= k < r@.len() ==> a@.contains(#[trigger] r@[k]) && b@.contains(r@[k]),
        forall|k: int|
            0 <= k < a@.len() && b@.contains(#[trigger] a@[k]) ==> r@.contains(a@[k]),
{
    let mut out: Vec<Id> = Vec::new();
    let mut i: usize = 0;
    while i < a.len()
        invariant
            i <= a@.len(),
            forall|k: int| 0 <= k < out@.len() ==> a@.contains(#[trigger] out@[k]) && b@.contains(
                out@[k],
            ),
            forall|k: int|
                0 <= k < i && b@.contains(#[trigger] a@[k]) ==> out@.contains(a@[k]),
        decreases a@.len() - i,
    {
        let ghost prev = out@;
        if crate::reach::contains_id(b, a[i]) {
            proof {
                assert(a@.contains(a@[i as int]));
            }
            out.push(a[i]);
            proof {
                assert(out@[prev.len() as int] == a@[i as int]);
                assert forall|k: int|
                    0 <= k < i + 1 && b@.contains(#[trigger] a@[k]) implies out@.contains(
                    a@[k],
                ) by {
                    if k < i {
                        let q = choose|q: int| 0 <= q < prev.len() && prev[q] == a@[k];
                        assert(out@[q] == a@[k]);
                    }
                }
            }
        }
        i = i + 1;
    }
    out
}

/// The locations of `a` that do not stand in `b`, each exactly once.
pub fn difference(a: &Vec<Id>, b: &Vec<Id>) -> (r: Vec<Id>)
    requires
        a@.no_duplicates(),
    ensures
        forall|k: int| 0 <= k < r@.len() ==> a@.contains(#[trigger] r@[k]) && !b@.contains(
            r@[k],
        ),
        forall|k: int|
            0 <= k < a@.len() && !b@.contains(#[trigger] a@[k]) ==> r@.contains(a@[k]),
        r@.no_duplicates(),
{
    let mut out: Vec<Id> = Vec::new();
    let mut i: usize = 0;
    while i < a.len()
        invariant
            i <= a@.len(),
            a@.no_duplicates(),
            forall|k: int| 0 <= k < out@.len() ==> a@.contains(#[trigger] out@[k]) && !b@.contains(
                out@[k],
            ),
            forall|k: int|
                0 <= k < i && !b@.contains(#[trigger] a@[k]) ==> out@.contains(a@[k]),
            out@.no_duplicates(),
            forall|k: int| 0 <= k < out@.len() ==> exists|j: int|
                0 <= j < i && a@[j] == #[trigger] out@[k],
        decreases a@.len() - i,
    {
        let ghost prev = out@;
        if !crate::reach::contains_id(b, a[i]) && !crate::reach::contains_id(&out, a[i]) {
            proof {
                assert(a@.contains(a@[i as int]));
            }
            out.push(a[i]);
        }
        proof {
            assert forall|k: int|
                0 <= k < i + 1 && !b@.contains(#[trigger] a@[k]) implies out@.contains(
                a@[k],
            ) by {
                if k < i {
                    let q = choose|q: int| 0 <= q < prev.len() && prev[q] == a@[k];
                    assert(out@[q] == a@[k]);
                } else if !prev.contains(a@[k]) {
                    assert(out@[prev.len() as int] == a@[k]);
                } else {
                    let q = choose|q: int| 0 <= q < prev.len() && prev[q] == a@[k];
                    assert(out@[q] == a@[k]);
                }
            }
        }
        i = i + 1;
    }
    out
}

/// The position of `id` inside the list.
fn index_of(v: &Vec<Id>, id: Id) -> (r: usize)
    requires
        v@.contains(id),
    ensures
        r < v@.len() && v@[r as int] == id,
{
    let mut i: usize = 0;
    while i < v.len()
        invariant
            i <= v@.len(),
            v@.contains(id),
            forall|k: int| 0 <= k < i ==> v@[k] != id,
        decreases v@.len() - i,
    {
        if v[i] == id {
            return i;
        }
        i = i + 1;
    }
    unreached()
}

/// The cost clauses an enemy demands: swords matching its strength, or
/// enough gems; the fairies block nothing.
fn enemy_requirement(e: Enemy) -> (r: Vec<Vec<Sprite>>)
    ensures
        r@.len() >= 1,
        e == Enemy::FairyG || e == Enemy::FairyB ==> r@.len() == 1 && r@[0]@.len() == 0,
        e != Enemy::FairyG && e != Enemy::FairyB ==> r@.len() == 2 && r@[0]@ == Seq::new(
            e.spec_strength() as nat,
            |i: int| Sprite::Collectible(Collectible::Sword),
        ) && r@[1]@ == Seq::new(99, |i: int| Sprite::Collectible(Collectible::Gem)),
{
    match e {
        Enemy::FairyG | Enemy::FairyB => {
            let mut clauses: Vec<Vec<Sprite>> = Vec::new();
            clauses.push(Vec::new());
            clauses
        },
        _ => {
            let strength = e.strength();
            let swords: Vec<Sprite> = vec![Sprite::Collectible(Collectible::Sword); strength as usize];
            let gems: Vec<Sprite> = vec![Sprite::Collectible(Collectible::Gem); 99];
            let mut clauses: Vec<Vec<Sprite>> = Vec::new();
            clauses.push(swords);
            clauses.push(gems);
            proof {
                assert(swords@ =~= Seq::new(
                    e.spec_strength() as nat,
                    |i: int| Sprite::Collectible(Collectible::Sword),
                ));
                assert(gems@ =~= Seq::new(99, |i: int| Sprite::Collectible(Collectible::Gem)));
            }
            clauses
        },
    }
}

/// Shuffles the kinds of every gate (or of every enemy) among the locations
/// of the same class, records each location's new gate cost, and writes the
/// shuffled kinds into the seed — except the excluded terminal tiles.
fn blind_shuffle(
    seed: &mut Seed,
    maps: &Vec<WorldMap>,
    requirement_map: &mut RequirementMap,
    rng: &mut Pcg64Mcg,
    want_doors: bool,
)
    requires
        maps_distinct(maps_view(maps@)),
    ensures
        final(seed).placements@.len() >= old(seed).placements@.len(),
        final(seed).placements@.take(old(seed).placements@.len() as int) == old(
            seed,
        ).placements@,
        forall|j: int|
            old(seed).placements@.len() <= j < final(seed).placements@.len() ==> {
                let p = #[trigger] final(seed).placements@[j];
                &&& if want_doors {
                    door_cell(maps_view(maps@), p.0) && Sprite::spec_of_kind(p.1.kind) is Door
                } else {
                    enemy_cell(maps_view(maps@), p.0) && Sprite::spec_of_kind(p.1.kind) is Enemy
                }
                &&& !Sprite::spec_of_kind(p.1.kind).spec_is_item()
                &&& !p.0.spec_is_excluded()
            },
        forall|j1: int, j2: int|
            old(seed).placements@.len() <= j1 < j2 < final(seed).placements@.len() ==> (
            #[trigger] final(seed).placements@[j1]).0 != (#[trigger] final(seed).placements@[
            j2]).0,
        want_doors ==> forall|id: Id|
            door_cell(maps_view(maps@), id) && !id.spec_is_excluded()
                ==> #[trigger] placed_door_at(final(seed).placements@, id),
        !want_doors ==> forall|id: Id|
            enemy_cell(maps_view(maps@), id) && !id.spec_is_excluded()
                ==> #[trigger] placed_enemy_at(final(seed).placements@, id),
        forall|id: Id|
            !(if want_doors {
                door_cell(maps_view(maps@), id)
            } else {
                enemy_cell(maps_view(maps@), id)
            }) ==> #[trigger] crate::reach::assoc_get(
                final(requirement_map).id_requirements@,
                id,
            ) == crate::reach::assoc_get(old(requirement_map).id_requirements@, id),
        forall|j: int|
            old(seed).placements@.len() <= j < final(seed).placements@.len() ==> match
                Sprite::spec_of_kind((#[trigger] final(seed).placements@[j]).1.kind) {
                Sprite::Door(d) => door_cost_bound(
                    *final(requirement_map),
                    final(seed).placements@[j].0,
                    d,
                ),
                Sprite::Enemy(e) => enemy_cost_bound(
                    *final(requirement_map),
                    final(seed).placements@[j].0,
                    e,
                ),
                _ => true,
            },
{
    let ghost mv = maps_view(maps@);
    let ghost base = seed.placements@;
    let ids = collect_cells(maps, want_doors);
    let mut kinds: Vec<Sprite> = Vec::new();
    let mut i: usize = 0;
    while i < ids.len()
        invariant
            i <= ids@.len(),
            mv == maps_view(maps@),
            forall|k: int| 0 <= k < ids@.len() ==> if want_doors {
                door_cell(mv, #[trigger] ids@[k])
            } else {
                enemy_cell(mv, #[trigger] ids@[k])
            },
            kinds@.len() == i,
            forall|k: int| 0 <= k < i ==> if want_doors {
                (#[trigger] kinds@[k]) is Door && !kinds@[k].spec_is_item()
            } else {
                (#[trigger] kinds@[k]) is Enemy && !kinds@[k].spec_is_item()
            },
        decreases ids@.len() - i,
    {
        let id = ids[i];
        proof {
            if want_doors {
                assert(door_cell(mv, ids@[i as int]));
            } else {
                assert(enemy_cell(mv, ids@[i as int]));
            }
        }
        let sd = match crate::world::find_map(maps, id.map) {
            Some(_) => match id.sprite(maps) {
                Some(sd) => sd,
                None => unreached(),
            },
            None => unreached(),
        };
        kinds.push(Sprite::of_kind(sd.kind));
        i = i + 1;
    }
    shuffle(rng, &mut kinds);
    proof {
        assert forall|k: int| 0 <= k < kinds@.len() implies if want_doors {
            (#[trigger] kinds@[k]) is Door && !kinds@[k].spec_is_item()
        } else {
            (#[trigger] kinds@[k]) is Enemy && !kinds@[k].spec_is_item()
        } by {
            assert(kinds@.to_multiset().contains(kinds@[k]));
            assert(kinds@.contains(kinds@[k]));
        }
    }
    let mut j: usize = 0;
    while j < ids.len()
        invariant
            j <= ids@.len(),
            kinds@.len() == ids@.len(),
            mv == maps_view(maps@),
            base == old(seed).placements@,
            forall|k: int| 0 <= k < ids@.len() ==> if want_doors {
                door_cell(mv, #[trigger] ids@[k])
            } else {
                enemy_cell(mv, #[trigger] ids@[k])
            },
            forall|k1: int, k2: int| 0 <= k1 < k2 < ids@.len() ==> ids@[k1] != ids@[k2],
            forall|k: int| 0 <= k < kinds@.len() ==> if want_doors {
                (#[trigger] kinds@[k]) is Door && !kinds@[k].spec_is_item()
            } else {
                (#[trigger] kinds@[k]) is Enemy && !kinds@[k].spec_is_item()
            },
            seed.placements@.len() >= base.len(),
            seed.placements@.take(base.len() as int) == base,
            forall|q: int|
                base.len() <= q < seed.placements@.len() ==> {
                    let p = #[trigger] seed.placements@[q];
                    &&& if want_doors {
                        door_cell(mv, p.0) && Sprite::spec_of_kind(p.1.kind) is Door
                    } else {
                        enemy_cell(mv, p.0) && Sprite::spec_of_kind(p.1.kind) is Enemy
                    }
                    &&& !Sprite::spec_of_kind(p.1.kind).spec_is_item()
                    &&& !p.0.spec_is_excluded()
                },
            forall|q: int|
                base.len() <= q < seed.placements@.len() ==> exists|k: int|
                    0 <= k < j && (#[trigger] seed.placements@[q]).0 == ids@[k],
            forall|k: int|
                0 <= k < j && !(#[trigger] ids@[k]).spec_is_excluded() ==> (if want_doors {
                    placed_door_at(seed.placements@, ids@[k])
                } else {
                    placed_enemy_at(seed.placements@, ids@[k])
                }),
            forall|q1: int, q2: int|
                base.len() <= q1 < q2 < seed.placements@.len() ==> (
                #[trigger] seed.placements@[q1]).0 != (#[trigger] seed.placements@[q2]).0,
            forall|other: Id|
                !(if want_doors {
                    door_cell(mv, other)
                } else {
                    enemy_cell(mv, other)
                }) ==> #[trigger] crate::reach::assoc_get(
                    requirement_map.id_requirements@,
                    other,
                ) == crate::reach::assoc_get(old(requirement_map).id_requirements@, other),
            forall|q: int|
                base.len() <= q < seed.placements@.len() ==> match Sprite::spec_of_kind(
                    (#[trigger] seed.placements@[q]).1.kind,
                ) {
                    Sprite::Door(d) => door_cost_bound(
                        *requirement_map,
                        seed.placements@[q].0,
                        d,
                    ),
                    Sprite::Enemy(e) => enemy_cost_bound(
                        *requirement_map,
                        seed.placements@[q].0,
                        e,
                    ),
                    _ => true,
                },
        decreases ids@.len() - j,
    {
        let id = ids[j];
        let kind_sprite = kinds[j];
        let clauses = match kind_sprite {
            Sprite::Door(d) => door_requirement(d),
            Sprite::Enemy(e) => enemy_requirement(e),
            _ => unreached(),
        };
        let ghost rm0 = *requirement_map;
        proof {
            assert(forall|other: Id|
                !(if want_doors {
                    door_cell(mv, other)
                } else {
                    enemy_cell(mv, other)
                }) ==> #[trigger] crate::reach::assoc_get(rm0.id_requirements@, other)
                    == crate::reach::assoc_get(old(requirement_map).id_requirements@, other));
        }
        requirement_map.insert(id, clauses);
        proof {
            assert forall|other: Id|
                !(if want_doors {
                    door_cell(mv, other)
                } else {
                    enemy_cell(mv, other)
                }) implies #[trigger] crate::reach::assoc_get(
                requirement_map.id_requirements@,
                other,
            ) == crate::reach::assoc_get(old(requirement_map).id_requirements@, other) by {
                if want_doors {
                    assert(door_cell(mv, id));
                } else {
                    assert(enemy_cell(mv, id));
                }
                assert(other != id);
                assert(crate::reach::assoc_get(requirement_map.id_requirements@, other)
                    == crate::reach::assoc_get(rm0.id_requirements@, other));
                assert(crate::reach::assoc_get(rm0.id_requirements@, other)
                    == crate::reach::assoc_get(old(requirement_map).id_requirements@, other));
            }
            assert forall|q: int|
                base.len() <= q < seed.placements@.len() implies match Sprite::spec_of_kind(
                (#[trigger] seed.placements@[q]).1.kind,
            ) {
                Sprite::Door(d) => door_cost_bound(*requirement_map, seed.placements@[q].0, d),
                Sprite::Enemy(e) => enemy_cost_bound(*requirement_map, seed.placements@[q].0, e),
                _ => true,
            } by {
                let k = choose|k: int|
                    0 <= k < j && (#[trigger] seed.placements@[q]).0 == ids@[k];
                assert(ids@[k] != ids@[j as int]);
                assert(crate::reach::assoc_get(
                    requirement_map.id_requirements@,
                    seed.placements@[q].0,
                ) == crate::reach::assoc_get(rm0.id_requirements@, seed.placements@[q].0));
            }
            assert(crate::reach::assoc_get(requirement_map.id_requirements@, id) == Some(
                clauses,
            ));
            match kind_sprite {
                Sprite::Door(d) => {
                    assert(door_cost_bound(*requirement_map, id, d));
                },
                Sprite::Enemy(e) => {
                    assert(enemy_cost_bound(*requirement_map, id, e));
                },
                _ => {},
            }
        }
        let ghost before = seed.placements@;
        if !id.is_excluded() {
            seed.push((id, kind_sprite.to_data()));
            proof {
                crate::sprite::lemma_canonical_kind_round_trip(kind_sprite);
                lemma_placements_push(before, seed.placements@.last());
                assert(seed.placements@ =~= before.push(seed.placements@.last()));
                assert(seed.placements@.take(base.len() as int) =~= before.take(
                    base.len() as int,
                ));
                assert forall|q1: int, q2: int|
                    base.len() <= q1 < q2 < seed.placements@.len() implies (
                #[trigger] seed.placements@[q1]).0 != (#[trigger] seed.placements@[q2]).0 by {
                    if q2 == seed.placements@.len() - 1 {
                        let k1 = choose|k: int|
                            0 <= k < j && (#[trigger] before[q1]).0 == ids@[k];
                        assert(ids@[k1] != ids@[j as int]);
                    }
                }
                assert forall|q: int|
                    base.len() <= q < seed.placements@.len() implies match Sprite::spec_of_kind(
                    (#[trigger] seed.placements@[q]).1.kind,
                ) {
                    Sprite::Door(d) => door_cost_bound(
                        *requirement_map,
                        seed.placements@[q].0,
                        d,
                    ),
                    Sprite::Enemy(e) => enemy_cost_bound(
                        *requirement_map,
                        seed.placements@[q].0,
                        e,
                    ),
                    _ => true,
                } by {
                    if q < seed.placements@.len() - 1 {
                        assert(seed.placements@[q] == before[q]);
                    } else {
                        assert(seed.placements@[q] == seed.placements@.last());
                        assert(seed.placements@.last().0 == id);
                        assert(Sprite::spec_of_kind(seed.placements@.last().1.kind)
                            == kind_sprite);
                    }
                }
            }
        }
        proof {
            assert forall|k: int|
                0 <= k < j + 1 && !(#[trigger] ids@[k]).spec_is_excluded()
                    implies (if want_doors {
                placed_door_at(seed.placements@, ids@[k])
            } else {
                placed_enemy_at(seed.placements@, ids@[k])
            }) by {
                if k == j {
                    assert(!id.spec_is_excluded());
                    assert(Sprite::spec_of_kind(seed.placements@.last().1.kind) == kind_sprite);
                }
            }
        }
        j = j + 1;
    }
    proof {
        if want_doors {
            assert forall|id: Id|
                door_cell(maps_view(maps@), id) && !id.spec_is_excluded()
                    implies #[trigger] placed_door_at(seed.placements@, id) by {
                assert(door_cell(mv, id));
                assert(ids@.contains(id));
                let k = choose|k: int| 0 <= k < ids@.len() && ids@[k] == id;
                assert(!ids@[k].spec_is_excluded());
                assert(placed_door_at(seed.placements@, ids@[k]));
            }
        } else {
            assert forall|id: Id|
                enemy_cell(maps_view(maps@), id) && !id.spec_is_excluded()
                    implies #[trigger] placed_enemy_at(seed.placements@, id) by {
                assert(enemy_cell(mv, id));
                assert(ids@.contains(id));
                let k = choose|k: int| 0 <= k < ids@.len() && ids@[k] == id;
                assert(!ids@[k].spec_is_excluded());
                assert(placed_enemy_at(seed.placements@, ids@[k]));
            }
        }
    }
}

/// The generation state machine for one attempt.
pub struct Generator<'a> {
    pub rng: Pcg64Mcg,
    pub logic: &'a Logic,
    pub reach: Reach,
    pub reach_cache: Vec<Id>,
    pub pool: Pool,
    pub needs_placement: Vec<Id>,
    pub seed: Seed,
    pub spoiler: ItemSpoiler,
    pub initial_pool: Ghost<Multiset<Sprite>>,
    pub mapsv: Ghost<Seq<MapView>>,
}

impl<'a> Generator<'a> {
    /// Everything that holds of the generator apart from the conservation
    /// balance, which a drawn-but-unplaced item offsets for a moment.
    pub open spec fn frame(self) -> bool {
        let maps = self.mapsv@;
        let logic = *self.logic;
        let ps = self.seed.placements@;
        &&& world_ok(maps, logic)
        &&& self.reach.covers(logic)
        &&& forall|s: Sprite| self.pool@.count(s) > 0 ==> s.spec_is_item()
        &&& forall|j: int|
            0 <= j < ps.len() ==> placement_classified(maps, #[trigger] ps[j])
        &&& forall|j1: int, j2: int|
            0 <= j1 < j2 < ps.len() ==> (#[trigger] ps[j1]).0 != (#[trigger] ps[j2]).0
        &&& forall|j: int|
            0 <= j < ps.len() && Sprite::spec_of_kind((#[trigger] ps[j]).1.kind).spec_is_item()
                ==> logic.spec_item_ids().contains(ps[j].0)
        &&& forall|j: int|
            0 <= j < ps.len() && (Sprite::spec_of_kind((#[trigger] ps[j]).1.kind) is Door
                || Sprite::spec_of_kind(ps[j].1.kind) is Enemy) ==> !ps[j].0.spec_is_excluded()
        &&& forall|id: Id| logic.spec_transfer_ids().contains(id)
            ==> #[trigger] placed_transfer(ps, id)
        &&& forall|id: Id| door_cell(maps, id) && !id.spec_is_excluded()
            ==> #[trigger] placed_door_at(ps, id)
        &&& forall|id: Id| enemy_cell(maps, id) && !id.spec_is_excluded()
            ==> #[trigger] placed_enemy_at(ps, id)
        &&& forall|j: int|
            0 <= j < ps.len() && Sprite::spec_of_kind((#[trigger] ps[j]).1.kind) is Gear
                ==> spoiler_names(
                self.spoiler.gear@,
                Sprite::spec_of_kind(ps[j].1.kind)->Gear_0,
                ps[j].0,
            )
        &&& forall|k: int|
            0 <= k < self.spoiler.gear@.len() ==> placed_gear_at(
                ps,
                (#[trigger] self.spoiler.gear@[k]).0,
                self.spoiler.gear@[k].1,
            )
        &&& forall|k: int| 0 <= k < self.needs_placement@.len() ==> logic.spec_item_ids().contains(
            #[trigger] self.needs_placement@[k],
        )
        &&& self.needs_placement@.no_duplicates()
        &&& forall|k: int, j: int|
            0 <= k < self.needs_placement@.len() && 0 <= j < ps.len() ==> (
            #[trigger] self.needs_placement@[k]) != (#[trigger] ps[j]).0
        &&& forall|k: int|
            0 <= k < self.spoiler.gear@.len() ==> item_reached(
                logic,
                self.reach.transfers@,
                self.reach.requirement_map,
                self.initial_pool@.remove(
                    Sprite::Gear((#[trigger] self.spoiler.gear@[k]).0),
                ),
                self.spoiler.gear@[k].1,
            )
        &&& gate_costs_realized(self.reach.requirement_map, ps)
        &&& forall|k1: int, k2: int|
            0 <= k1 < k2 < self.spoiler.gear@.len() ==> (#[trigger] self.spoiler.gear@[k1]).1
                != (#[trigger] self.spoiler.gear@[k2]).1
    }

    /// The full invariant: the initial pool is exactly what the pool still
    /// holds plus what the seed has placed as items.
    pub open spec fn inv(self) -> bool {
        &&& self.frame()
        &&& self.initial_pool@ == self.pool@.add(
            item_sprites_of(self.seed.placements@).to_multiset(),
        )
        &&& self.needs_placement@.len() == self.pool@.len()
        &&& forall|k: int| 0 <= k < self.needs_placement@.len()
            ==> self.reach_cache@.contains(#[trigger] self.needs_placement@[k])
        &&& forall|id: Id| self.logic.spec_item_ids().contains(id)
            ==> self.needs_placement@.contains(id) || #[trigger] placed_item_at(
            self.seed.placements@,
            id,
        )
    }

    /// Whether every pool item has been placed.
    pub fn finished(&self) -> (r: bool)
        ensures
            r == (self.pool@.len() == 0),
    {
        self.pool.is_empty()
    }

    /// Writes one placement into the seed and takes the location out of the
    /// waiting set; a progression item also enters the spoiler, carrying its
    /// reachability evidence.
    fn commit_placement(&mut self, location: Id, sprite: Sprite, Ghost(rest): Ghost<Multiset<Sprite>>)
        requires
            old(self).frame(),
            sprite.spec_is_item(),
            old(self).initial_pool@ == old(self).pool@.add(
                item_sprites_of(old(self).seed.placements@).to_multiset(),
            ).add(rest.insert(sprite)),
            old(self).needs_placement@.contains(location),
            sprite.spec_is_gear() ==> item_reached(
                *old(self).logic,
                old(self).reach.transfers@,
                old(self).reach.requirement_map,
                old(self).initial_pool@.remove(sprite),
                location,
            ),
        ensures
            final(self).frame(),
            final(self).initial_pool@ == final(self).pool@.add(
                item_sprites_of(final(self).seed.placements@).to_multiset(),
            ).add(rest),
            final(self).pool == old(self).pool,
            final(self).rng == old(self).rng,
            final(self).logic == old(self).logic,
            final(self).reach == old(self).reach,
            final(self).reach_cache == old(self).reach_cache,
            final(self).initial_pool == old(self).initial_pool,
            final(self).mapsv == old(self).mapsv,
            final(self).needs_placement@.len() == old(self).needs_placement@.len() - 1,
            forall|id: Id| final(self).needs_placement@.contains(id) ==> old(
                self,
            ).needs_placement@.contains(id),
            forall|id: Id|
                id != location && old(self).needs_placement@.contains(id)
                    ==> final(self).needs_placement@.contains(id),
            !final(self).needs_placement@.contains(location),
            final(self).seed.placements@.len() == old(self).seed.placements@.len() + 1,
            final(self).seed.placements@.take(old(self).seed.placements@.len() as int) == old(
                self,
            ).seed.placements@,
            final(self).seed.placements@.last().0 == location,
            Sprite::spec_of_kind(final(self).seed.placements@.last().1.kind) == sprite,
            sprite.spec_is_gear() ==> final(self).spoiler.gear@ == old(
                self,
            ).spoiler.gear@.push((sprite->Gear_0, location)),
            !sprite.spec_is_gear() ==> final(self).spoiler == old(self).spoiler,
            forall|id: Id|
                (placed_item_at(old(self).seed.placements@, id) || old(
                    self,
                ).needs_placement@.contains(id)) ==> placed_item_at(
                    final(self).seed.placements@,
                    id,
                ) || final(self).needs_placement@.contains(id),
    {
        let ghost mv = self.mapsv@;
        let idx = index_of(&self.needs_placement, location);
        let ghost np0 = self.needs_placement@;
        self.needs_placement.swap_remove(idx);
        proof {
            assert forall|k: int| 0 <= k < self.needs_placement@.len()
                implies #[trigger] self.needs_placement@[k] != location && np0.contains(
                self.needs_placement@[k],
            ) by {
                if k != idx {
                    assert(self.needs_placement@[k] == np0[k]);
                } else {
                    assert(self.needs_placement@[k] == np0[np0.len() - 1]);
                }
            }
            assert forall|k1: int, k2: int|
                0 <= k1 < k2 < self.needs_placement@.len()
                    implies #[trigger] self.needs_placement@[k1]
                != #[trigger] self.needs_placement@[k2] by {}
            assert(np0[idx as int] == location);
            assert forall|id: Id| id != location && np0.contains(id)
                implies self.needs_placement@.contains(id) by {
                let k = choose|k: int| 0 <= k < np0.len() && np0[k] == id;
                if k == np0.len() - 1 {
                    assert(idx < np0.len() - 1);
                    assert(self.needs_placement@[idx as int] == id);
                } else if k != idx {
                    assert(self.needs_placement@[k] == id);
                }
            }
        }
        let ghost seed0 = self.seed.placements@;
        let ghost spoiler0 = self.spoiler.gear@;
        self.seed.push((location, sprite.to_data()));
        if let Sprite::Gear(g) = sprite {
            self.spoiler.gear.push((g, location));
        }
        proof {
            crate::sprite::lemma_canonical_kind_round_trip(sprite);
            let entry = self.seed.placements@.last();
            assert(Sprite::spec_of_kind(entry.1.kind) == sprite);
            lemma_item_sprites_push(seed0, entry);
            lemma_placements_push(seed0, entry);
            assert(self.seed.placements@ =~= seed0.push(entry));
            lemma_gate_costs_push(self.reach.requirement_map, seed0, entry);
            assert(item_sprites_of(self.seed.placements@).to_multiset() =~= item_sprites_of(
                seed0,
            ).to_multiset().insert(sprite));
            assert(self.initial_pool@ =~= self.pool@.add(
                item_sprites_of(self.seed.placements@).to_multiset(),
            ).add(rest));
            assert(np0.contains(location));
            assert(items_ok(mv, *self.logic));
            let ids = self.logic.spec_item_ids();
            assert(ids.contains(location));
            assert(crate::logic::purge_keeps(mv, location));
            assert(placement_classified(mv, entry));
            if sprite is Gear {
                lemma_spoiler_push(spoiler0, (sprite->Gear_0, location));
                assert(self.spoiler.gear@ == spoiler0.push((sprite->Gear_0, location)));
                assert(placed_gear_at(self.seed.placements@, sprite->Gear_0, location));
                assert forall|k1: int, k2: int|
                    0 <= k1 < k2 < self.spoiler.gear@.len() implies (
                #[trigger] self.spoiler.gear@[k1]).1 != (
                #[trigger] self.spoiler.gear@[k2]).1 by {
                    if k2 == self.spoiler.gear@.len() - 1 {
                        assert(self.spoiler.gear@[k1] == spoiler0[k1]);
                        let gg = spoiler0[k1].0;
                        let loc0 = spoiler0[k1].1;
                        assert(placed_gear_at(seed0, gg, loc0));
                        reveal(placed_gear_at);
                        assert(exists|j2: int|
                            0 <= j2 < seed0.len() && (#[trigger] seed0[j2]).0 == loc0
                                && Sprite::spec_of_kind(seed0[j2].1.kind) == Sprite::Gear(gg));
                        let jw = choose|j2: int|
                            0 <= j2 < seed0.len() && (#[trigger] seed0[j2]).0 == loc0
                                && Sprite::spec_of_kind(seed0[j2].1.kind) == Sprite::Gear(gg);
                        assert(0 <= jw < seed0.len() && seed0[jw].0 == loc0);
                        assert(np0[idx as int] == location);
                        assert(old(self).needs_placement@ == np0);
                        assert(old(self).seed.placements@ == seed0);
                        assert(0 <= idx && (idx as int) < old(self).needs_placement@.len());
                        assert(0 <= jw < old(self).seed.placements@.len());
                        assert(old(self).frame());
                        assert(old(self).needs_placement@[idx as int] != (old(
                            self,
                        ).seed.placements@[jw]).0);
                        assert(seed0[jw].0 != location);
                        assert(self.spoiler.gear@[k2].1 == location);
                    } else {
                        assert(self.spoiler.gear@[k1] == spoiler0[k1]);
                        assert(self.spoiler.gear@[k2] == spoiler0[k2]);
                    }
                }
            } else {
                assert(self.spoiler.gear@ == spoiler0);
                assert forall|g: crate::sprite::Gear, idq: Id| #[trigger] spoiler_names(
                    spoiler0,
                    g,
                    idq,
                ) implies spoiler_names(self.spoiler.gear@, g, idq) by {}
            }
            assert(placed_item_at(self.seed.placements@, location));
            assert forall|idq: Id| self.logic.spec_transfer_ids().contains(idq)
                implies placed_transfer(self.seed.placements@, idq) by {
                assert(placed_transfer(seed0, idq));
            }
            assert forall|idq: Id| door_cell(mv, idq) && !idq.spec_is_excluded()
                implies placed_door_at(self.seed.placements@, idq) by {
                assert(placed_door_at(seed0, idq));
            }
            assert forall|idq: Id| enemy_cell(mv, idq) && !idq.spec_is_excluded()
                implies placed_enemy_at(self.seed.placements@, idq) by {
                assert(placed_enemy_at(seed0, idq));
            }
            assert forall|k: int| 0 <= k < self.spoiler.gear@.len() implies placed_gear_at(
                self.seed.placements@,
                (#[trigger] self.spoiler.gear@[k]).0,
                self.spoiler.gear@[k].1,
            ) by {
                if k < spoiler0.len() {
                    assert(self.spoiler.gear@[k] == spoiler0[k]);
                    assert(placed_gear_at(seed0, spoiler0[k].0, spoiler0[k].1));
                }
            }
            assert forall|idq: Id|
                (placed_item_at(seed0, idq) || np0.contains(idq)) implies placed_item_at(
                self.seed.placements@,
                idq,
            ) || self.needs_placement@.contains(idq) by {
                if np0.contains(idq) && idq != location && !placed_item_at(seed0, idq) {
                    assert(self.needs_placement@.contains(idq));
                }
            }
        }
    }

    /// Assigns a filler to every waiting location that the current reach no
    /// longer holds.
    fn fill_unreachable(&mut self, Ghost(rest): Ghost<Multiset<Sprite>>) -> (r: Result<
        (),
        AttemptError,
    >)
        requires
            old(self).frame(),
            old(self).initial_pool@ == old(self).pool@.add(
                item_sprites_of(old(self).seed.placements@).to_multiset(),
            ).add(rest),
        ensures
            match r {
                Ok(()) => {
                    &&& final(self).frame()
                    &&& final(self).initial_pool@ == final(self).pool@.add(
                        item_sprites_of(final(self).seed.placements@).to_multiset(),
                    ).add(rest)
                    &&& final(self).logic == old(self).logic
                    &&& final(self).reach == old(self).reach
                    &&& final(self).reach_cache == old(self).reach_cache
                    &&& final(self).initial_pool == old(self).initial_pool
                    &&& final(self).mapsv == old(self).mapsv
                    &&& final(self).spoiler == old(self).spoiler
                    &&& final(self).pool@.len() <= old(self).pool@.len()
                    &&& old(self).needs_placement@.len() - final(self).needs_placement@.len()
                        == old(self).pool@.len() - final(self).pool@.len()
                    &&& forall|id: Id| final(self).needs_placement@.contains(id) ==> old(
                        self,
                    ).needs_placement@.contains(id)
                    &&& forall|id: Id| #[trigger] final(self).needs_placement@.contains(id)
                        ==> final(self).reach_cache@.contains(id)
                    &&& final(self).seed.placements@.len() >= old(self).seed.placements@.len()
                    &&& final(self).seed.placements@.take(
                        old(self).seed.placements@.len() as int,
                    ) == old(self).seed.placements@
                    &&& forall|j: int|
                        old(self).seed.placements@.len() <= j < final(self).seed.placements@.len() ==> {
                            let p = #[trigger] final(self).seed.placements@[j];
                            Sprite::spec_of_kind(p.1.kind).spec_is_item()
                                && !Sprite::spec_of_kind(p.1.kind).spec_is_gear() && old(
                                self,
                            ).needs_placement@.contains(p.0)
                        }
                    &&& forall|id: Id|
                        (placed_item_at(old(self).seed.placements@, id) || old(
                            self,
                        ).needs_placement@.contains(id)) ==> placed_item_at(
                            final(self).seed.placements@,
                            id,
                        ) || final(self).needs_placement@.contains(id)
                },
                Err(e) => {
                    &&& e == AttemptError::NoFiller
                    &&& final(self).frame()
                    &&& final(self).logic == old(self).logic
                    &&& final(self).reach == old(self).reach
                    &&& final(self).reach_cache == old(self).reach_cache
                    &&& final(self).initial_pool == old(self).initial_pool
                    &&& final(self).mapsv == old(self).mapsv
                    &&& final(self).spoiler == old(self).spoiler
                    &&& final(self).seed.placements@.len() >= old(self).seed.placements@.len()
                    &&& final(self).seed.placements@.take(
                        old(self).seed.placements@.len() as int,
                    ) == old(self).seed.placements@
                    &&& forall|j: int|
                        old(self).seed.placements@.len() <= j < final(self).seed.placements@.len() ==> {
                            let p = #[trigger] final(self).seed.placements@[j];
                            Sprite::spec_of_kind(p.1.kind).spec_is_item()
                                && !Sprite::spec_of_kind(p.1.kind).spec_is_gear() && old(
                                self,
                            ).needs_placement@.contains(p.0)
                        }
                },
            },
            (forall|id: Id|
                old(self).needs_placement@.contains(id) ==> old(self).reach_cache@.contains(
                    id,
                )) ==> r is Ok,
    {
        let ghost np0 = self.needs_placement@;
        let ghost seedbase = self.seed.placements@;
        let targets = difference(&self.needs_placement, &self.reach_cache);
        proof {
            if forall|id: Id|
                np0.contains(id) ==> #[trigger] self.reach_cache@.contains(id) {
                assert(targets@.len() == 0) by {
                    if targets@.len() > 0 {
                        assert(np0.contains(targets@[0]));
                        assert(self.reach_cache@.contains(targets@[0]));
                        assert(!self.reach_cache@.contains(targets@[0]));
                    }
                }
            }
        }
        let mut t: usize = 0;
        while t < targets.len()
            invariant
                t <= targets@.len(),
                self.frame(),
                self.initial_pool@ == self.pool@.add(
                    item_sprites_of(self.seed.placements@).to_multiset(),
                ).add(rest),
                self.logic == old(self).logic,
                self.reach == old(self).reach,
                self.reach_cache == old(self).reach_cache,
                self.initial_pool == old(self).initial_pool,
                self.mapsv == old(self).mapsv,
                self.spoiler == old(self).spoiler,
                self.pool@.len() <= old(self).pool@.len(),
                np0 == old(self).needs_placement@,
                seedbase == old(self).seed.placements@,
                np0.len() - self.needs_placement@.len() == old(self).pool@.len()
                    - self.pool@.len(),
                targets@.no_duplicates(),
                (forall|id: Id|
                    np0.contains(id) ==> #[trigger] old(self).reach_cache@.contains(id))
                    ==> targets@.len() == 0,
                forall|k: int| t <= k < targets@.len()
                    ==> self.needs_placement@.contains(#[trigger] targets@[k]),
                forall|id: Id| self.needs_placement@.contains(id) ==> np0.contains(id),
                forall|id: Id| #[trigger] self.needs_placement@.contains(id)
                    ==> self.reach_cache@.contains(id) || exists|q: int|
                    t <= q < targets@.len() && targets@[q] == id,
                self.seed.placements@.len() >= seedbase.len(),
                self.seed.placements@.take(seedbase.len() as int) == seedbase,
                forall|j: int|
                    seedbase.len() <= j < self.seed.placements@.len() ==> {
                        let p = #[trigger] self.seed.placements@[j];
                        Sprite::spec_of_kind(p.1.kind).spec_is_item() && !Sprite::spec_of_kind(
                            p.1.kind,
                        ).spec_is_gear() && np0.contains(p.0)
                    },
                forall|id: Id|
                    (placed_item_at(seedbase, id) || np0.contains(id)) ==> placed_item_at(
                        self.seed.placements@,
                        id,
                    ) || self.needs_placement@.contains(id),
            decreases targets@.len() - t,
        {
            let location = targets[t];
            let ghost pool_before = self.pool@;
            let filler = match self.pool.choose_remove_filler(&mut self.rng) {
                Ok(f) => f,
                Err(_) => {
                    return Err(AttemptError::NoFiller);
                },
            };
            proof {
                vstd::multiset::axiom_len_sub(
                    pool_before,
                    Multiset::empty().insert(filler),
                );
                assert(filler.spec_is_item());
                assert(self.initial_pool@ =~= self.pool@.add(
                    item_sprites_of(self.seed.placements@).to_multiset(),
                ).add(rest.insert(filler)));
            }
            let ghost seed_mid = self.seed.placements@;
            self.commit_placement(location, filler, Ghost(rest));
            proof {
                assert forall|k: int| t + 1 <= k < targets@.len()
                    implies self.needs_placement@.contains(#[trigger] targets@[k]) by {
                    assert(targets@[k] != targets@[t as int]);
                }
                assert(self.seed.placements@.take(seedbase.len() as int) =~= seed_mid.take(
                    seedbase.len() as int,
                ));
                assert forall|id: Id| #[trigger] self.needs_placement@.contains(id)
                    implies self.reach_cache@.contains(id) || exists|q: int|
                    t + 1 <= q < targets@.len() && targets@[q] == id by {
                    if !self.reach_cache@.contains(id) {
                        let q = choose|q: int|
                            t <= q < targets@.len() && targets@[q] == id;
                        if q == t {
                            assert(!self.needs_placement@.contains(location));
                            assert(false);
                        }
                    }
                }
                assert(Sprite::spec_of_kind(
                    self.seed.placements@.last().1.kind,
                ).spec_is_item());
                assert(np0.contains(location));
                assert forall|j: int|
                    seedbase.len() <= j < self.seed.placements@.len() implies {
                    let p = #[trigger] self.seed.placements@[j];
                    Sprite::spec_of_kind(p.1.kind).spec_is_item() && !Sprite::spec_of_kind(
                        p.1.kind,
                    ).spec_is_gear() && np0.contains(p.0)
                } by {
                    if j < seed_mid.len() {
                        assert(self.seed.placements@.take(seed_mid.len() as int)[j]
                            == self.seed.placements@[j]);
                        assert(self.seed.placements@[j] == seed_mid[j]);
                    } else {
                        assert(self.seed.placements@[j] == self.seed.placements@.last());
                    }
                }
            }
            t = t + 1;
        }
        proof {
            assert forall|id: Id| #[trigger] self.needs_placement@.contains(id)
                implies self.reach_cache@.contains(id) by {}
        }
        Ok(())
    }
}

impl<'a> Generator<'a> {
    /// Recomputes the reachable set against the pool as it stands.
    fn update_reach(&mut self)
        requires
            old(self).frame(),
        ensures
            *final(self) == (Generator { reach_cache: final(self).reach_cache, ..*old(self) }),
            final(self).reach_cache@.no_duplicates(),
            forall|id: Id| #[trigger] final(self).reach_cache@.contains(id) <==> item_reached(
                *old(self).logic,
                old(self).reach.transfers@,
                old(self).reach.requirement_map,
                old(self).pool@,
                id,
            ),
    {
        self.reach_cache = self.reach.reach(self.logic, &self.pool);
    }

    /// Draws a random item from the pool. A progression draw recomputes the
    /// reach, fails the attempt if nothing remains reachable, and backfills
    /// locations that fell out of reach with fillers.
    fn random_item(&mut self) -> (r: Result<Sprite, AttemptError>)
        requires
            old(self).inv(),
            old(self).pool@.len() > 0,
        ensures
            match r {
                Ok(sprite) => {
                    &&& final(self).frame()
                    &&& sprite.spec_is_item()
                    &&& final(self).initial_pool@ == final(self).pool@.add(
                        item_sprites_of(final(self).seed.placements@).to_multiset(),
                    ).add(Multiset::empty().insert(sprite))
                    &&& final(self).logic == old(self).logic
                    &&& final(self).reach == old(self).reach
                    &&& final(self).initial_pool == old(self).initial_pool
                    &&& final(self).mapsv == old(self).mapsv
                    &&& final(self).spoiler == old(self).spoiler
                    &&& final(self).pool@.len() < old(self).pool@.len()
                    &&& final(self).needs_placement@.len() == final(self).pool@.len() + 1
                    &&& forall|id: Id| final(self).needs_placement@.contains(id) ==> old(
                        self,
                    ).needs_placement@.contains(id)
                    &&& forall|id: Id| #[trigger] final(self).needs_placement@.contains(id)
                        ==> final(self).reach_cache@.contains(id)
                    &&& final(self).seed.placements@.len() >= old(self).seed.placements@.len()
                    &&& final(self).seed.placements@.take(
                        old(self).seed.placements@.len() as int,
                    ) == old(self).seed.placements@
                    &&& forall|j: int|
                        old(self).seed.placements@.len() <= j < final(self).seed.placements@.len() ==> {
                            let p = #[trigger] final(self).seed.placements@[j];
                            Sprite::spec_of_kind(p.1.kind).spec_is_item()
                                && !Sprite::spec_of_kind(p.1.kind).spec_is_gear() && old(
                                self,
                            ).needs_placement@.contains(p.0)
                        }
                    &&& forall|id: Id|
                        (placed_item_at(old(self).seed.placements@, id) || old(
                            self,
                        ).needs_placement@.contains(id)) ==> placed_item_at(
                            final(self).seed.placements@,
                            id,
                        ) || final(self).needs_placement@.contains(id)
                    &&& (sprite.spec_is_gear() ==> forall|id: Id|
                        #[trigger] final(self).reach_cache@.contains(id) ==> item_reached(
                            *old(self).logic,
                            old(self).reach.transfers@,
                            old(self).reach.requirement_map,
                            final(self).initial_pool@.remove(sprite),
                            id,
                        ))
                },
                Err(e) => {
                    &&& (e == AttemptError::NoSafePlacement ==> exists|g: Sprite|
                        g.spec_is_gear() && old(self).pool@.count(g) > 0 && (forall|id: Id|
                            !item_reached(
                                *old(self).logic,
                                old(self).reach.transfers@,
                                old(self).reach.requirement_map,
                                old(self).pool@.remove(g),
                                #[trigger] trig_id(id),
                            )))
                    &&& final(self).frame()
                    &&& final(self).logic == old(self).logic
                    &&& final(self).reach == old(self).reach
                    &&& final(self).initial_pool == old(self).initial_pool
                    &&& final(self).mapsv == old(self).mapsv
                    &&& final(self).spoiler == old(self).spoiler
                    &&& final(self).seed.placements@.len() >= old(self).seed.placements@.len()
                    &&& final(self).seed.placements@.take(
                        old(self).seed.placements@.len() as int,
                    ) == old(self).seed.placements@
                    &&& forall|j: int|
                        old(self).seed.placements@.len() <= j < final(self).seed.placements@.len() ==> {
                            let p = #[trigger] final(self).seed.placements@[j];
                            Sprite::spec_of_kind(p.1.kind).spec_is_item()
                                && !Sprite::spec_of_kind(p.1.kind).spec_is_gear() && old(
                                self,
                            ).needs_placement@.contains(p.0)
                        }
                },
            },
            (forall|s: Sprite| old(self).pool@.count(s) > 0 ==> !s.spec_is_gear()) ==> r is Ok,
            trivially_completable(*old(self).logic) ==> r is Ok,
    {
        let ghost pool0 = self.pool@;
        let sprite = self.pool.choose_remove(&mut self.rng);
        proof {
            assert(pool0.count(sprite) > 0);
            assert(sprite.spec_is_item());
            assert(self.initial_pool@ =~= self.pool@.add(
                item_sprites_of(self.seed.placements@).to_multiset(),
            ).add(Multiset::empty().insert(sprite)));
            vstd::multiset::axiom_len_sub(pool0, Multiset::empty().insert(sprite));
            assert(self.pool@.len() == pool0.len() - 1);
        }
        if sprite.is_gear() {
            let ghost pool1 = self.pool@;
            self.update_reach();
            proof {
                assert(pool1.subset_of(self.initial_pool@.remove(sprite))) by {
                    assert forall|x: Sprite| pool1.count(x) <= self.initial_pool@.remove(
                        sprite,
                    ).count(x) by {}
                }
                assert forall|id: Id| #[trigger] self.reach_cache@.contains(id)
                    implies item_reached(
                    *self.logic,
                    self.reach.transfers@,
                    self.reach.requirement_map,
                    self.initial_pool@.remove(sprite),
                    id,
                ) by {
                    crate::reach::lemma_item_reached_monotone(
                        *self.logic,
                        self.reach.transfers@,
                        self.reach.requirement_map,
                        pool1,
                        self.initial_pool@.remove(sprite),
                        id,
                    );
                }
            }
            if self.reach_cache.len() == 0 {
                proof {
                    if trivially_completable(*old(self).logic) {
                        assert(self.needs_placement@.len() > 0);
                        let idq = self.needs_placement@[0];
                        assert(self.needs_placement@.contains(idq));
                        assert(old(self).logic.spec_item_ids().contains(idq));
                        lemma_trivial_reach(
                            *old(self).logic,
                            self.reach.transfers@,
                            self.reach.requirement_map,
                            pool1,
                            idq,
                        );
                        assert(self.reach_cache@.contains(idq));
                        assert(false);
                    }
                    assert forall|id: Id| !item_reached(
                        *old(self).logic,
                        old(self).reach.transfers@,
                        old(self).reach.requirement_map,
                        old(self).pool@.remove(sprite),
                        #[trigger] trig_id(id),
                    ) by {
                        assert(!self.reach_cache@.contains(id));
                        assert(pool1 == old(self).pool@.remove(sprite));
                    }
                    assert(sprite.spec_is_gear() && old(self).pool@.count(sprite) > 0);
                }
                return Err(AttemptError::NoSafePlacement);
            }
            let ghost cache = self.reach_cache@;
            match self.fill_unreachable(Ghost(Multiset::empty().insert(sprite))) {
                Ok(()) => {},
                Err(e) => {
                    proof {
                        if trivially_completable(*old(self).logic) {
                            let idq = choose|idq: Id|
                                old(self).needs_placement@.contains(idq) && !cache.contains(
                                    idq,
                                );
                            assert(old(self).logic.spec_item_ids().contains(idq));
                            lemma_trivial_reach(
                                *old(self).logic,
                                self.reach.transfers@,
                                self.reach.requirement_map,
                                pool1,
                                idq,
                            );
                            assert(false);
                        }
                    }
                    return Err(e);
                },
            }
        } else {
            proof {
                assert(self.seed.placements@.take(old(self).seed.placements@.len() as int)
                    =~= self.seed.placements@);
            }
        }
        Ok(sprite)
    }

    /// One step of the placing state: draw an item, pick a uniformly random
    /// location among those both waiting and reachable, and assign it.
    pub fn place_item(&mut self) -> (r: Result<(), AttemptError>)
        requires
            old(self).inv(),
            old(self).pool@.len() > 0,
        ensures
            match r {
                Ok(()) => {
                    &&& final(self).inv()
                    &&& final(self).logic == old(self).logic
                    &&& final(self).initial_pool == old(self).initial_pool
                    &&& final(self).mapsv == old(self).mapsv
                    &&& final(self).reach == old(self).reach
                    &&& final(self).pool@.len() < old(self).pool@.len()
                    &&& final(self).seed.placements@.len() > old(self).seed.placements@.len()
                    &&& final(self).seed.placements@.take(
                        old(self).seed.placements@.len() as int,
                    ) == old(self).seed.placements@
                    &&& {
                        let placed = final(self).seed.placements@.last();
                        &&& old(self).needs_placement@.contains(placed.0)
                        &&& final(self).reach_cache@.contains(placed.0)
                        &&& !final(self).needs_placement@.contains(placed.0)
                        &&& Sprite::spec_of_kind(placed.1.kind).spec_is_item()
                        &&& (Sprite::spec_of_kind(placed.1.kind) is Gear ==> final(self).spoiler.gear@ == old(self).spoiler.gear@.push(
                            (Sprite::spec_of_kind(placed.1.kind)->Gear_0, placed.0),
                        ))
                        &&& (!(Sprite::spec_of_kind(placed.1.kind) is Gear) ==> final(self).spoiler == old(self).spoiler)
                    }
                    &&& forall|j: int|
                        old(self).seed.placements@.len() <= j < final(self).seed.placements@.len() - 1 ==> {
                            let p = #[trigger] final(self).seed.placements@[j];
                            Sprite::spec_of_kind(p.1.kind).spec_is_item()
                                && !Sprite::spec_of_kind(p.1.kind).spec_is_gear() && old(
                                self,
                            ).needs_placement@.contains(p.0)
                        }
                    &&& forall|id: Id| #[trigger] final(self).needs_placement@.contains(id)
                        ==> final(self).reach_cache@.contains(id)
                },
                Err(e) => {
                    &&& (e == AttemptError::NoSafePlacement ==> exists|g: Sprite|
                        g.spec_is_gear() && old(self).pool@.count(g) > 0 && (forall|id: Id|
                            !item_reached(
                                *old(self).logic,
                                old(self).reach.transfers@,
                                old(self).reach.requirement_map,
                                old(self).pool@.remove(g),
                                #[trigger] trig_id(id),
                            )))
                    &&& final(self).frame()
                    &&& final(self).logic == old(self).logic
                    &&& final(self).reach == old(self).reach
                    &&& final(self).initial_pool == old(self).initial_pool
                    &&& final(self).mapsv == old(self).mapsv
                    &&& final(self).spoiler == old(self).spoiler
                    &&& final(self).seed.placements@.take(
                        old(self).seed.placements@.len() as int,
                    ) == old(self).seed.placements@
                    &&& forall|j: int|
                        old(self).seed.placements@.len() <= j < final(self).seed.placements@.len() ==> {
                            let p = #[trigger] final(self).seed.placements@[j];
                            Sprite::spec_of_kind(p.1.kind).spec_is_item()
                                && !Sprite::spec_of_kind(p.1.kind).spec_is_gear() && old(
                                self,
                            ).needs_placement@.contains(p.0)
                        }
                },
            },
            (forall|s: Sprite| old(self).pool@.count(s) > 0 ==> !s.spec_is_gear()) ==> r is Ok,
            trivially_completable(*old(self).logic) ==> r is Ok,
    {
        let ghost mid0 = *self;
        let sprite = match self.random_item() {
            Ok(s) => s,
            Err(e) => {
                return Err(e);
            },
        };
        let ghost seed_mid = self.seed.placements@;
        let choices = intersect(&self.needs_placement, &self.reach_cache);
        proof {
            assert(self.needs_placement@.len() == self.pool@.len() + 1);
            assert(self.needs_placement@.len() > 0);
            assert(self.needs_placement@.contains(self.needs_placement@[0]));
            assert(self.reach_cache@.contains(self.needs_placement@[0]));
            assert(choices@.contains(self.needs_placement@[0]));
        }
        let li = rng_below(&mut self.rng, choices.len());
        let location = choices[li];
        proof {
            assert(self.needs_placement@.contains(location));
            assert(self.reach_cache@.contains(location));
        }
        self.commit_placement(location, sprite, Ghost(Multiset::empty()));
        proof {
            assert(self.initial_pool@ =~= self.pool@.add(
                item_sprites_of(self.seed.placements@).to_multiset(),
            ));
            assert(self.seed.placements@.take(old(self).seed.placements@.len() as int)
                =~= seed_mid.take(old(self).seed.placements@.len() as int));
            assert forall|j: int|
                old(self).seed.placements@.len() <= j < self.seed.placements@.len() - 1
                    implies {
                let p = #[trigger] self.seed.placements@[j];
                Sprite::spec_of_kind(p.1.kind).spec_is_item() && !Sprite::spec_of_kind(
                    p.1.kind,
                ).spec_is_gear() && old(self).needs_placement@.contains(p.0)
            } by {
                assert(self.seed.placements@.take(seed_mid.len() as int)[j]
                    == self.seed.placements@[j]);
                assert(self.seed.placements@[j] == seed_mid[j]);
            }
            assert forall|id: Id| self.logic.spec_item_ids().contains(id)
                implies self.needs_placement@.contains(id) || #[trigger] placed_item_at(
                self.seed.placements@,
                id,
            ) by {
                assert(placed_item_at(mid0.seed.placements@, id)
                    || mid0.needs_placement@.contains(id) || self.needs_placement@.contains(id)
                    || placed_item_at(self.seed.placements@, id));
            }
            assert forall|k: int| 0 <= k < self.needs_placement@.len()
                implies self.reach_cache@.contains(#[trigger] self.needs_placement@[k]) by {
                assert(self.needs_placement@.contains(self.needs_placement@[k]));
            }
        }
        Ok(())
    }

    /// Assigns a filler to a location the initial reach never saw: it is
    /// unconditionally unreachable, so a progression item there would be
    /// wasted or unsafe.
    fn place_unreachable(&mut self, location: Id) -> (r: Result<(), AttemptError>)
        requires
            old(self).frame(),
            old(self).initial_pool@ == old(self).pool@.add(
                item_sprites_of(old(self).seed.placements@).to_multiset(),
            ),
            old(self).logic.spec_item_ids().contains(location),
            !old(self).needs_placement@.contains(location),
            forall|j: int| 0 <= j < old(self).seed.placements@.len() ==> (
            #[trigger] old(self).seed.placements@[j]).0 != location,
        ensures
            match r {
                Ok(()) => {
                    &&& final(self).frame()
                    &&& final(self).initial_pool@ == final(self).pool@.add(
                        item_sprites_of(final(self).seed.placements@).to_multiset(),
                    )
                    &&& final(self).logic == old(self).logic
                    &&& final(self).reach == old(self).reach
                    &&& final(self).reach_cache == old(self).reach_cache
                    &&& final(self).needs_placement == old(self).needs_placement
                    &&& final(self).initial_pool == old(self).initial_pool
                    &&& final(self).mapsv == old(self).mapsv
                    &&& final(self).spoiler == old(self).spoiler
                    &&& final(self).pool@.len() == old(self).pool@.len() - 1
                    &&& final(self).seed.placements@ == old(self).seed.placements@.push(
                        final(self).seed.placements@.last(),
                    )
                    &&& final(self).seed.placements@.last().0 == location
                    &&& Sprite::spec_of_kind(
                        final(self).seed.placements@.last().1.kind,
                    ).spec_is_item()
                    &&& !Sprite::spec_of_kind(
                        final(self).seed.placements@.last().1.kind,
                    ).spec_is_gear()
                    &&& placed_item_at(final(self).seed.placements@, location)
                    &&& placed_filler_at(final(self).seed.placements@, location)
                    &&& forall|id: Id| #[trigger] placed_item_at(old(self).seed.placements@, id)
                        ==> placed_item_at(final(self).seed.placements@, id)
                    &&& forall|id: Id| #[trigger] placed_filler_at(
                        old(self).seed.placements@,
                        id,
                    ) ==> placed_filler_at(final(self).seed.placements@, id)
                },
                Err(e) => {
                    &&& e == AttemptError::NoFiller
                    &&& final(self).frame()
                    &&& final(self).pool@ == old(self).pool@
                    &&& final(self).logic == old(self).logic
                    &&& final(self).reach == old(self).reach
                    &&& final(self).reach_cache == old(self).reach_cache
                    &&& final(self).needs_placement == old(self).needs_placement
                    &&& final(self).initial_pool == old(self).initial_pool
                    &&& final(self).mapsv == old(self).mapsv
                    &&& final(self).spoiler == old(self).spoiler
                    &&& final(self).seed == old(self).seed
                },
            },
    {
        let ghost mv = self.mapsv@;
        let ghost pool0 = self.pool@;
        let filler = match self.pool.choose_remove_filler(&mut self.rng) {
            Ok(f) => f,
            Err(_) => {
                return Err(AttemptError::NoFiller);
            },
        };
        let ghost seed0 = self.seed.placements@;
        self.seed.push((location, filler.to_data()));
        proof {
            vstd::multiset::axiom_len_sub(pool0, Multiset::empty().insert(filler));
            assert(filler.spec_is_item());
            crate::sprite::lemma_canonical_kind_round_trip(filler);
            let entry = self.seed.placements@.last();
            assert(Sprite::spec_of_kind(entry.1.kind) == filler);
            lemma_item_sprites_push(seed0, entry);
            lemma_placements_push(seed0, entry);
            assert(self.seed.placements@ =~= seed0.push(entry));
            lemma_gate_costs_push(self.reach.requirement_map, seed0, entry);
            assert(item_sprites_of(self.seed.placements@).to_multiset() =~= item_sprites_of(
                seed0,
            ).to_multiset().insert(filler));
            assert(self.initial_pool@ =~= self.pool@.add(
                item_sprites_of(self.seed.placements@).to_multiset(),
            ));
            assert(crate::logic::purge_keeps(mv, location));
            assert(placement_classified(mv, entry));
            assert forall|idq: Id| self.logic.spec_transfer_ids().contains(idq)
                implies placed_transfer(self.seed.placements@, idq) by {
                assert(placed_transfer(seed0, idq));
            }
            assert forall|idq: Id| door_cell(mv, idq) && !idq.spec_is_excluded()
                implies placed_door_at(self.seed.placements@, idq) by {
                assert(placed_door_at(seed0, idq));
            }
            assert forall|idq: Id| enemy_cell(mv, idq) && !idq.spec_is_excluded()
                implies placed_enemy_at(self.seed.placements@, idq) by {
                assert(placed_enemy_at(seed0, idq));
            }
            assert forall|k: int| 0 <= k < self.spoiler.gear@.len() implies placed_gear_at(
                self.seed.placements@,
                (#[trigger] self.spoiler.gear@[k]).0,
                self.spoiler.gear@[k].1,
            ) by {
                assert(placed_gear_at(seed0, self.spoiler.gear@[k].0, self.spoiler.gear@[k].1));
            }
        }
        Ok(())
    }

    /// Returns the accumulated seed and spoiler, consuming the generator.
    /// With the pool empty, the seed's item placements are exactly the
    /// initial pool; no location was written twice; every placement still
    /// resolves; and every spoiler entry's location was reachable without
    /// the item placed there.
    pub fn finish(self) -> (r: (Seed, ItemSpoiler))
        requires
            self.inv(),
            self.pool@.len() == 0,
        ensures
            r.0 == self.seed,
            r.1 == self.spoiler,
            item_sprites_of(r.0.placements@).to_multiset() == self.initial_pool@,
            forall|j1: int, j2: int|
                0 <= j1 < j2 < r.0.placements@.len() ==> (#[trigger] r.0.placements@[j1]).0 != (
                #[trigger] r.0.placements@[j2]).0,
            forall|j: int| 0 <= j < r.0.placements@.len() ==> crate::seed::placement_resolvable(
                self.mapsv@,
                (#[trigger] r.0.placements@[j]).0,
            ),
            forall|k: int|
                0 <= k < r.1.gear@.len() ==> item_reached(
                    *self.logic,
                    self.reach.transfers@,
                    self.reach.requirement_map,
                    self.initial_pool@.remove(Sprite::Gear((#[trigger] r.1.gear@[k]).0)),
                    r.1.gear@[k].1,
                ),
            forall|id: Id| self.logic.spec_item_ids().contains(id)
                ==> #[trigger] placed_item_at(r.0.placements@, id),
            forall|j: int|
                0 <= j < r.0.placements@.len() && Sprite::spec_of_kind(
                    (#[trigger] r.0.placements@[j]).1.kind,
                ).spec_is_item() ==> self.logic.spec_item_ids().contains(r.0.placements@[j].0),
            forall|id: Id| self.logic.spec_transfer_ids().contains(id)
                ==> #[trigger] placed_transfer(r.0.placements@, id),
            forall|id: Id| door_cell(self.mapsv@, id) && !id.spec_is_excluded()
                ==> #[trigger] placed_door_at(r.0.placements@, id),
            forall|id: Id| enemy_cell(self.mapsv@, id) && !id.spec_is_excluded()
                ==> #[trigger] placed_enemy_at(r.0.placements@, id),
            forall|j: int|
                0 <= j < r.0.placements@.len() && Sprite::spec_of_kind(
                    (#[trigger] r.0.placements@[j]).1.kind,
                ) is Gear ==> spoiler_names(
                    r.1.gear@,
                    Sprite::spec_of_kind(r.0.placements@[j].1.kind)->Gear_0,
                    r.0.placements@[j].0,
                ),
            forall|k: int|
                0 <= k < r.1.gear@.len() ==> placed_gear_at(
                    r.0.placements@,
                    (#[trigger] r.1.gear@[k]).0,
                    r.1.gear@[k].1,
                ),
            forall|k1: int, k2: int|
                0 <= k1 < k2 < r.1.gear@.len() ==> (#[trigger] r.1.gear@[k1]).1 != (
                #[trigger] r.1.gear@[k2]).1,
            gate_costs_realized(self.reach.requirement_map, r.0.placements@),
    {
        proof {
            assert(self.needs_placement@.len() == 0);
            assert forall|id: Id| self.logic.spec_item_ids().contains(id)
                implies #[trigger] placed_item_at(self.seed.placements@, id) by {
                assert(!self.needs_placement@.contains(id));
            }
        }
        proof {
            assert forall|x: Sprite| self.pool@.count(x) == 0 by {
                vstd::multiset::axiom_count_le_len(self.pool@, x);
            }
            assert(self.initial_pool@ =~= item_sprites_of(self.seed.placements@).to_multiset());
            assert forall|j: int| 0 <= j < self.seed.placements@.len()
                implies crate::seed::placement_resolvable(
                self.mapsv@,
                (#[trigger] self.seed.placements@[j]).0,
            ) by {
                assert(placement_classified(self.mapsv@, self.seed.placements@[j]));
            }
        }
        (self.seed, self.spoiler)
    }
}

impl<'a> Generator<'a> {
    /// Builds the state for one attempt: realize the transfer topology,
    /// shuffle gates and enemies, seed the pool, compute the initial reach,
    /// and give every location outside it a filler at once.
    pub fn new(maps: &Vec<WorldMap>, logic: &'a Logic, rng: &mut Pcg64Mcg) -> (r: Result<
        Generator<'a>,
        AttemptError,
    >)
        requires
            world_ok(maps_view(maps@), *logic),
        ensures
            match r {
                Ok(g) => {
                    &&& g.inv()
                    &&& g.logic == logic
                    &&& g.mapsv@ == maps_view(maps@)
                    &&& g.initial_pool@ == spec_initial_pool(maps_view(maps@), *logic)
                    &&& forall|id: Id| #[trigger] g.needs_placement@.contains(id)
                        <==> item_reached(
                        *logic,
                        g.reach.transfers@,
                        g.reach.requirement_map,
                        spec_initial_pool(maps_view(maps@), *logic),
                        id,
                    )
                    &&& forall|id: Id| logic.spec_item_ids().contains(id)
                        ==> g.needs_placement@.contains(id) || #[trigger] placed_filler_at(
                        g.seed.placements@,
                        id,
                    )
                },
                Err(_) => true,
            },
            trivially_completable(*logic) ==> r is Ok,
    {
        let ghost mv = maps_view(maps@);
        let mut attempt_rng = rng_fork(rng);
        let mut seed = Seed::default();
        let mut requirement_map = RequirementMap::new(logic);
        let transfers = match seed.generate_transfers(maps, logic, &mut attempt_rng) {
            Ok(t) => t,
            Err(_) => {
                proof {
                    if trivially_completable(*logic) {
                        assert(logic.spec_transfer_ids().len() == 0);
                        assert(false);
                    }
                }
                return Err(AttemptError::UnmatchedTransfers);
            },
        };
        let ghost after_transfers = seed.placements@;
        blind_shuffle(&mut seed, maps, &mut requirement_map, &mut attempt_rng, true);
        let ghost after_doors = seed.placements@;
        let ghost rm_doors = requirement_map;
        blind_shuffle(&mut seed, maps, &mut requirement_map, &mut attempt_rng, false);
        let ghost after_enemies = seed.placements@;
        proof {
            assert forall|j: int|
                0 <= j < after_enemies.len() implies match Sprite::spec_of_kind(
                (#[trigger] after_enemies[j]).1.kind,
            ) {
                Sprite::Door(d) => door_cost_bound(requirement_map, after_enemies[j].0, d),
                Sprite::Enemy(e) => enemy_cost_bound(requirement_map, after_enemies[j].0, e),
                _ => true,
            } by {
                let ta = after_transfers.len() as int;
                let da = after_doors.len() as int;
                if j < ta {
                    assert(after_doors.take(ta)[j] == after_doors[j]);
                    assert(after_enemies.take(da)[j] == after_enemies[j]);
                    assert(after_enemies[j] == after_transfers[j]);
                    assert(Sprite::spec_of_kind(after_enemies[j].1.kind) == Sprite::Things(
                        Things::Transfer,
                    ));
                } else if j < da {
                    assert(after_enemies.take(da)[j] == after_enemies[j]);
                    assert(after_enemies[j] == after_doors[j]);
                    assert(door_cell(mv, after_doors[j].0));
                    assert(!enemy_cell(mv, after_doors[j].0));
                    assert(crate::reach::assoc_get(
                        requirement_map.id_requirements@,
                        after_doors[j].0,
                    ) == crate::reach::assoc_get(
                        rm_doors.id_requirements@,
                        after_doors[j].0,
                    ));
                }
            }
            assert(gate_costs_realized(requirement_map, after_enemies));
        }
        let reach = Reach { transfers, requirement_map };
        proof {
            assert(reach.covers(*logic)) by {
                assert forall|a: int, t: int|
                    0 <= a < logic.areas@.len() && 0 <= t
                        < logic.areas@[a].transfers@.len() implies {
                    let got = crate::reach::assoc_get(
                        reach.transfers@,
                        (#[trigger] logic.areas@[a].transfers@[t]),
                    );
                    got is Some && got->Some_0 < logic.areas@.len()
                } by {
                    crate::logic::lemma_flatten_contains(
                        logic.areas@.map_values(|ar: crate::logic::Area| ar.transfers@),
                        a,
                        t,
                    );
                    assert(logic.spec_transfer_ids().contains(logic.areas@[a].transfers@[t]));
                }
            }
        }
        let pool = Pool::new(logic, maps);
        let reach_cache = reach.reach(logic, &pool);
        let ghost reach_value = reach;
        let needs_placement = copy_ids(&reach_cache);
        proof {
            assert forall|j: int| 0 <= j < after_enemies.len() implies placement_classified(
                mv,
                #[trigger] after_enemies[j],
            ) && placement_non_item_cell(mv, after_enemies[j]) && !Sprite::spec_of_kind(
                after_enemies[j].1.kind,
            ).spec_is_item() by {
                if j < after_transfers.len() {
                    assert(after_doors.take(after_transfers.len() as int)[j] == after_doors[j]);
                    assert(after_enemies.take(after_doors.len() as int)[j] == after_enemies[j]);
                    assert(after_transfers[j] == after_enemies[j]);
                    let p = after_transfers[j];
                    assert(logic.spec_transfer_ids().contains(p.0));
                    assert(Sprite::spec_of_kind(p.1.kind) == Sprite::Things(Things::Transfer));
                } else if j < after_doors.len() {
                    assert(after_enemies.take(after_doors.len() as int)[j] == after_enemies[j]);
                    assert(after_doors[j] == after_enemies[j]);
                }
            }
            assert forall|j1: int, j2: int| 0 <= j1 < j2 < after_enemies.len() implies (
            #[trigger] after_enemies[j1]).0 != (#[trigger] after_enemies[j2]).0 by {
                let a = after_enemies[j1];
                let b = after_enemies[j2];
                let ta = after_transfers.len() as int;
                let da = after_doors.len() as int;
                if j1 < ta {
                    assert(after_doors.take(ta)[j1] == after_doors[j1]);
                    assert(after_enemies.take(da)[j1] == after_enemies[j1]);
                    assert(after_enemies[j1] == after_doors[j1]);
                    assert(after_doors[j1] == after_transfers[j1]);
                }
                if j2 < ta {
                    assert(after_doors.take(ta)[j2] == after_doors[j2]);
                    assert(after_enemies.take(da)[j2] == after_enemies[j2]);
                    assert(after_enemies[j2] == after_doors[j2]);
                    assert(after_doors[j2] == after_transfers[j2]);
                }
                if j1 < da {
                    assert(after_enemies.take(da)[j1] == after_enemies[j1]);
                    assert(after_enemies[j1] == after_doors[j1]);
                }
                if j2 < da {
                    assert(after_enemies.take(da)[j2] == after_enemies[j2]);
                    assert(after_enemies[j2] == after_doors[j2]);
                }
                if j1 < ta && j2 < ta {
                    assert(after_transfers[j1] == a && after_transfers[j2] == b);
                } else if j1 < ta {
                    assert(logic.spec_transfer_ids().contains(a.0));
                    assert(match a.0.spec_sprite(mv) {
                        Some(sd) => Sprite::spec_of_kind(sd.0) == Sprite::Things(
                            Things::Transfer,
                        ),
                        None => false,
                    });
                    if j2 < da {
                        assert(door_cell(mv, b.0));
                    } else {
                        assert(enemy_cell(mv, b.0));
                    }
                } else if j1 < da {
                    assert(after_doors[j1] == a);
                    assert(door_cell(mv, a.0));
                    if j2 < da {
                        assert(after_doors[j2] == b);
                    } else {
                        assert(enemy_cell(mv, b.0));
                    }
                } else {
                    assert(enemy_cell(mv, a.0) && enemy_cell(mv, b.0));
                }
            }
            lemma_item_sprites_none(after_enemies);
            assert(item_sprites_of(after_enemies).to_multiset() =~= Multiset::<Sprite>::empty());
        }
        let mut generator = Generator {
            rng: attempt_rng,
            logic,
            reach,
            reach_cache,
            pool,
            needs_placement,
            seed,
            spoiler: ItemSpoiler::default(),
            initial_pool: Ghost(spec_initial_pool(mv, *logic)),
            mapsv: Ghost(mv),
        };
        proof {
            assert(generator.initial_pool@ =~= generator.pool@.add(
                item_sprites_of(generator.seed.placements@).to_multiset(),
            ));
            assert forall|k: int| 0 <= k < generator.needs_placement@.len()
                implies logic.spec_item_ids().contains(
                #[trigger] generator.needs_placement@[k],
            ) by {
                assert(generator.reach_cache@.contains(generator.needs_placement@[k]));
                lemma_reached_is_item(*logic, generator.reach.transfers@,
                    generator.reach.requirement_map, generator.pool@,
                    generator.needs_placement@[k]);
            }
            assert forall|k: int, j: int|
                0 <= k < generator.needs_placement@.len() && 0 <= j
                    < generator.seed.placements@.len() implies (
            #[trigger] generator.needs_placement@[k]) != (
            #[trigger] generator.seed.placements@[j]).0 by {
                let id = generator.needs_placement@[k];
                assert(logic.spec_item_ids().contains(id));
                assert(crate::logic::purge_keeps(mv, id));
                assert(generator.seed.placements@ == after_enemies);
                assert(placement_non_item_cell(mv, generator.seed.placements@[j]));
            }
            assert forall|j: int|
                0 <= j < after_enemies.len() && Sprite::spec_of_kind(
                    (#[trigger] after_enemies[j]).1.kind,
                ) is Gear implies false by {
                assert(!Sprite::spec_of_kind(after_enemies[j].1.kind).spec_is_item());
            }
            lemma_placements_extends(after_transfers, after_doors);
            lemma_placements_extends(after_doors, after_enemies);
            assert forall|id: Id| logic.spec_transfer_ids().contains(id)
                implies #[trigger] placed_transfer(generator.seed.placements@, id) by {
                assert(placed_transfer(after_transfers, id));
                assert(placed_transfer(after_doors, id));
            }
            assert forall|id: Id| door_cell(mv, id) && !id.spec_is_excluded()
                implies #[trigger] placed_door_at(generator.seed.placements@, id) by {
                assert(placed_door_at(after_doors, id));
            }
            assert forall|id: Id| enemy_cell(mv, id) && !id.spec_is_excluded()
                implies #[trigger] placed_enemy_at(generator.seed.placements@, id) by {}
            assert forall|j: int|
                0 <= j < generator.seed.placements@.len() && Sprite::spec_of_kind(
                    (#[trigger] generator.seed.placements@[j]).1.kind,
                ).spec_is_item() implies logic.spec_item_ids().contains(
                generator.seed.placements@[j].0,
            ) by {
                assert(!Sprite::spec_of_kind(after_enemies[j].1.kind).spec_is_item());
            }
            assert forall|j: int|
                0 <= j < generator.seed.placements@.len() && (Sprite::spec_of_kind(
                    (#[trigger] generator.seed.placements@[j]).1.kind,
                ) is Door || Sprite::spec_of_kind(
                    generator.seed.placements@[j].1.kind,
                ) is Enemy) implies !generator.seed.placements@[j].0.spec_is_excluded() by {
                let ta = after_transfers.len() as int;
                let da = after_doors.len() as int;
                if j < ta {
                    assert(after_doors.take(ta)[j] == after_doors[j]);
                    assert(after_enemies.take(da)[j] == after_enemies[j]);
                    assert(after_enemies[j] == after_transfers[j]);
                    assert(Sprite::spec_of_kind(after_enemies[j].1.kind) == Sprite::Things(
                        Things::Transfer,
                    ));
                } else if j < da {
                    assert(after_enemies.take(da)[j] == after_enemies[j]);
                    assert(after_enemies[j] == after_doors[j]);
                }
            }
            assert forall|j: int|
                0 <= j < generator.seed.placements@.len() && Sprite::spec_of_kind(
                    (#[trigger] generator.seed.placements@[j]).1.kind,
                ) is Gear implies spoiler_names(
                Seq::<(crate::sprite::Gear, Id)>::empty(),
                Sprite::spec_of_kind(generator.seed.placements@[j].1.kind)->Gear_0,
                generator.seed.placements@[j].0,
            ) by {
                assert(!Sprite::spec_of_kind(after_enemies[j].1.kind).spec_is_item());
            }
            assert(generator.frame());
            assert forall|k: int| 0 <= k < generator.needs_placement@.len()
                implies generator.reach_cache@.contains(
                #[trigger] generator.needs_placement@[k],
            ) by {
                assert(generator.reach_cache@[k] == generator.needs_placement@[k]);
            }
        }
        let all_items = generator.logic.items();
        let ghost base_len = generator.seed.placements@.len();
        let ghost mut seen: Seq<Id> = Seq::empty();
        let mut idx: usize = 0;
        while idx < all_items.len()
            invariant
                idx <= all_items@.len(),
                generator.frame(),
                generator.initial_pool@ == generator.pool@.add(
                    item_sprites_of(generator.seed.placements@).to_multiset(),
                ),
                all_items@ == generator.logic.spec_item_ids(),
                all_items@.no_duplicates(),
                generator.logic == logic,
                generator.mapsv@ == mv,
                generator.initial_pool@ == spec_initial_pool(mv, *logic),
                generator.logic.wf(),
                generator.needs_placement == needs_placement,
                generator.reach_cache == reach_cache,
                generator.reach == reach_value,
                forall|id: Id| #[trigger] needs_placement@.contains(id) <==> item_reached(
                    *logic,
                    reach_value.transfers@,
                    reach_value.requirement_map,
                    spec_initial_pool(mv, *logic),
                    id,
                ),
                forall|k: int| 0 <= k < generator.needs_placement@.len()
                    ==> generator.reach_cache@.contains(
                    #[trigger] generator.needs_placement@[k],
                ),
                base_len <= generator.seed.placements@.len(),
                generator.seed.placements@.take(base_len as int) == after_enemies,
                base_len == after_enemies.len(),
                forall|j: int|
                    base_len <= j < generator.seed.placements@.len() ==> exists|q: int|
                        0 <= q < idx && (#[trigger] generator.seed.placements@[j]).0
                            == all_items@[q],
                forall|j: int| 0 <= j < after_enemies.len() ==> placement_non_item_cell(
                    mv,
                    #[trigger] after_enemies[j],
                ),
                forall|q: int|
                    0 <= q < idx ==> generator.needs_placement@.contains(
                        #[trigger] all_items@[q],
                    ) || placed_filler_at(generator.seed.placements@, all_items@[q]),
                seen.no_duplicates(),
                forall|k: int| 0 <= k < seen.len() ==> generator.needs_placement@.contains(
                    #[trigger] seen[k],
                ),
                forall|k: int| 0 <= k < seen.len() ==> exists|q: int|
                    0 <= q < idx && #[trigger] seen[k] == all_items@[q],
                forall|q: int|
                    0 <= q < idx && generator.needs_placement@.contains(
                        #[trigger] all_items@[q],
                    ) ==> seen.contains(all_items@[q]),
                generator.pool@.len() + idx - seen.len() == spec_initial_pool(
                    mv,
                    *logic,
                ).len(),
            decreases all_items@.len() - idx,
        {
            let item = all_items[idx];
            if !crate::reach::contains_id(&generator.needs_placement, item) {
                proof {
                    assert(all_items@.contains(all_items@[idx as int]));
                    assert forall|j: int| 0 <= j < generator.seed.placements@.len()
                        implies (#[trigger] generator.seed.placements@[j]).0 != item by {
                        if j >= base_len {
                            let q = choose|q: int|
                                0 <= q < idx && (generator.seed.placements@[j]).0
                                    == all_items@[q];
                            assert(all_items@.no_duplicates());
                        } else {
                            assert(generator.seed.placements@.take(base_len as int)[j]
                                == generator.seed.placements@[j]);
                            assert(generator.seed.placements@[j] == after_enemies[j]);
                            assert(placement_non_item_cell(mv, generator.seed.placements@[j]));
                            assert(crate::logic::purge_keeps(mv, item));
                        }
                    }
                }
                proof {
                    if trivially_completable(*logic) {
                        lemma_trivial_reach(
                            *logic,
                            reach_value.transfers@,
                            reach_value.requirement_map,
                            spec_initial_pool(mv, *logic),
                            item,
                        );
                        assert(needs_placement@.contains(item));
                        assert(false);
                    }
                }
                let ghost seed_before = generator.seed.placements@;
                match generator.place_unreachable(item) {
                    Ok(()) => {},
                    Err(e) => {
                        return Err(e);
                    },
                }
                proof {
                    assert(generator.seed.placements@.take(base_len as int) =~= seed_before.take(
                        base_len as int,
                    ));
                    assert forall|q: int|
                        0 <= q < idx + 1 && generator.needs_placement@.contains(
                            #[trigger] all_items@[q],
                        ) implies seen.contains(all_items@[q]) by {}
                    assert forall|q: int|
                        0 <= q < idx + 1 implies generator.needs_placement@.contains(
                        #[trigger] all_items@[q],
                    ) || placed_filler_at(generator.seed.placements@, all_items@[q]) by {
                        if q < idx && !generator.needs_placement@.contains(all_items@[q]) {
                            assert(placed_filler_at(seed_before, all_items@[q]));
                        }
                    }
                }
            } else {
                proof {
                    let ghost prev = seen;
                    seen = seen.push(item);
                    assert(seen[prev.len() as int] == item);
                    assert forall|k1: int, k2: int| 0 <= k1 < k2 < seen.len()
                        implies seen[k1] != seen[k2] by {
                        if k2 == seen.len() - 1 {
                            let q1 = choose|q: int|
                                0 <= q < idx && #[trigger] prev[k1] == all_items@[q];
                            assert(all_items@[q1] != all_items@[idx as int]);
                        }
                    }
                    assert forall|q: int|
                        0 <= q < idx + 1 && generator.needs_placement@.contains(
                            #[trigger] all_items@[q],
                        ) implies seen.contains(all_items@[q]) by {
                        if q < idx {
                            let k = choose|k: int|
                                0 <= k < prev.len() && prev[k] == all_items@[q];
                            assert(seen[k] == all_items@[q]);
                        }
                    }
                }
            }
            idx = idx + 1;
        }
        proof {
            assert(spec_initial_pool(mv, *logic).len() == logic.spec_item_ids().len()) by {
                crate::pool::spec_item_sprites(mv, *logic).to_multiset_ensures();
            }
            assert forall|id: Id| generator.needs_placement@.contains(id)
                implies seen.contains(id) by {
                assert(logic.spec_item_ids().contains(id));
                let q = choose|q: int|
                    0 <= q < all_items@.len() && all_items@[q] == id;
                assert(generator.needs_placement@.contains(all_items@[q]));
            }
            lemma_no_dup_subset_len(generator.needs_placement@, seen);
            lemma_no_dup_subset_len(seen, generator.needs_placement@);
            assert(generator.needs_placement@.len() == seen.len());
            assert(generator.pool@.len() == generator.needs_placement@.len());
            assert forall|id: Id| logic.spec_item_ids().contains(id)
                implies generator.needs_placement@.contains(id) || #[trigger] placed_item_at(
                generator.seed.placements@,
                id,
            ) by {
                let q = choose|q: int|
                    0 <= q < all_items@.len() && all_items@[q] == id;
                if !generator.needs_placement@.contains(id) {
                    assert(placed_filler_at(generator.seed.placements@, id));
                    reveal(placed_filler_at);
                    reveal(placed_item_at);
                }
            }
            assert(generator.inv());
            assert forall|id: Id| logic.spec_item_ids().contains(id)
                implies generator.needs_placement@.contains(id) || #[trigger] placed_filler_at(
                generator.seed.placements@,
                id,
            ) by {
                let q = choose|q: int|
                    0 <= q < all_items@.len() && all_items@[q] == id;
            }
            assert forall|id: Id| #[trigger] generator.needs_placement@.contains(id)
                implies item_reached(
                *logic,
                generator.reach.transfers@,
                generator.reach.requirement_map,
                spec_initial_pool(mv, *logic),
                id,
            ) by {}
            assert forall|id: Id| item_reached(
                *logic,
                generator.reach.transfers@,
                generator.reach.requirement_map,
                spec_initial_pool(mv, *logic),
                id,
            ) implies #[trigger] generator.needs_placement@.contains(id) by {
                assert(reach_cache@.contains(id));
            }
        }
        Ok(generator)
    }
}

/// A reached location is one of the graph's declared item locations.
pub proof fn lemma_reached_is_item(
    logic: Logic,
    tr: Seq<(Id, usize)>,
    rm: RequirementMap,
    pool: Multiset<Sprite>,
    id: Id,
)
    requires
        item_reached(logic, tr, rm, pool, id),
    ensures
        logic.spec_item_ids().contains(id),
{
    let (a, k) = choose|a: int, k: int|
        crate::reach::area_reached(logic, tr, rm, pool, a) && 0 <= a < logic.areas@.len() && 0
            <= k < logic.areas@[a].items@.len() && (#[trigger] logic.areas@[a].items@[k]).0 == id
            && crate::reach::reqs_met(rm, logic.areas@[a].items@[k].1@, pool);
    let rows = logic.areas@.map_values(
        |ar: crate::logic::Area| ar.items@.map_values(
            |e: (Id, crate::logic::Requirements)| e.0,
        ),
    );
    crate::logic::lemma_flatten_contains(rows, a, k);
    assert(rows[a][k] == id);
}

} // verus!
