//! The output record of one generation attempt: an ordered list of sprite
//! placements, consumed exactly once by writing it onto the world maps.

use vstd::prelude::*;

use crate::id::{spec_place, Id};
use crate::sprite::SpriteData;
use crate::world::{maps_view, spec_find_map, spec_sprite_at, MapView, WorldMap};

verus! {

/// The ordered placement list of one attempt, the rewired transfer slots
/// included, built up during generation and consumed once by `apply`.
#[derive(Debug, PartialEq, Eq)]
pub struct Seed {
    pub placements: Vec<(Id, SpriteData)>,
}

impl Default for Seed {
    fn default() -> (r: Seed)
        ensures
            r.placements@.len() == 0,
    {
        Seed { placements: Vec::new() }
    }
}

/// The collection after writing every placement, in order.
pub open spec fn spec_apply(mv: Seq<MapView>, ps: Seq<(Id, SpriteData)>) -> Seq<MapView>
    decreases ps.len(),
{
    if ps.len() == 0 {
        mv
    } else {
        spec_place(spec_apply(mv, ps.drop_last()), ps.last().0, ps.last().1@)
    }
}

/// A placement can land: its map exists and its cell is occupied.
pub open spec fn placement_resolvable(mv: Seq<MapView>, id: Id) -> bool {
    spec_sprite_at(mv, id.map, id.x as int, id.y as int) is Some
}

/// Writing one placement moves no map and empties no cell.
pub proof fn lemma_place_preserves(mv: Seq<MapView>, id: Id, sd: (u8, Seq<u8>))
    ensures
        spec_place(mv, id, sd).len() == mv.len(),
        forall|i: int| 0 <= i < mv.len() ==> (#[trigger] spec_place(mv, id, sd)[i]).identifier
            == mv[i].identifier,
        forall|m: u8| spec_find_map(spec_place(mv, id, sd), m) == spec_find_map(mv, m),
        forall|id2: Id| placement_resolvable(mv, id2) ==> placement_resolvable(
            spec_place(mv, id, sd),
            id2,
        ),
        forall|id2: Id|
            (id2.map != id.map || id2.x != id.x || id2.y != id.y) ==> spec_sprite_at(
                spec_place(mv, id, sd),
                id2.map,
                id2.x as int,
                id2.y as int,
            ) == spec_sprite_at(mv, id2.map, id2.x as int, id2.y as int),
        placement_resolvable(mv, id) ==> spec_sprite_at(
            spec_place(mv, id, sd),
            id.map,
            id.x as int,
            id.y as int,
        ) == Some(sd),
{
    let out = spec_place(mv, id, sd);
    crate::world::lemma_find_map(mv, id.map);
    let j = spec_find_map(mv, id.map);
    if j >= 0 && crate::world::spec_cell(mv[j], id.x as int, id.y as int) is Some {
        assert(out.len() == mv.len());
        assert forall|i: int| 0 <= i < mv.len() implies (#[trigger] out[i]).identifier
            == mv[i].identifier by {
            if i != j {
                assert(out[i] == mv[i]);
            }
        }
    } else {
        assert(out == mv);
    }
    assert forall|m: u8| spec_find_map(out, m) == spec_find_map(mv, m) by {
        lemma_find_map_same_identifiers(mv, out, m);
    }
    assert forall|id2: Id|
        (id2.map != id.map || id2.x != id.x || id2.y != id.y) implies spec_sprite_at(
        out,
        id2.map,
        id2.x as int,
        id2.y as int,
    ) == spec_sprite_at(mv, id2.map, id2.x as int, id2.y as int) by {
        let k = spec_find_map(mv, id2.map);
        if k >= 0 && j >= 0 && crate::world::spec_cell(mv[j], id.x as int, id.y as int)
            is Some {
            crate::world::lemma_find_map(mv, id2.map);
            if k != j {
                assert(out[k] == mv[k]);
            } else {
                assert(mv[k].identifier == id2.map && mv[j].identifier == id.map);
                assert(out[j].sprites == mv[j].sprites.update(
                    id.y as int,
                    mv[j].sprites[id.y as int].update(id.x as int, Some(sd)),
                ));
                if id2.y != id.y {
                    if 0 <= id2.y < mv[j].sprites.len() {
                        assert(out[j].sprites[id2.y as int] == mv[j].sprites[id2.y as int]);
                    }
                } else {
                    if 0 <= id2.y < mv[j].sprites.len() && 0 <= id2.x
                        < mv[j].sprites[id2.y as int].len() {
                        assert(out[j].sprites[id2.y as int][id2.x as int]
                            == mv[j].sprites[id2.y as int][id2.x as int]);
                    }
                }
            }
        }
    }
    assert forall|id2: Id| placement_resolvable(mv, id2) implies placement_resolvable(
        out,
        id2,
    ) by {
        if id2.map == id.map && id2.x == id.x && id2.y == id.y {
            if j >= 0 && crate::world::spec_cell(mv[j], id.x as int, id.y as int) is Some {
                crate::world::lemma_find_map(mv, id.map);
                assert(crate::world::spec_cell(out[j], id.x as int, id.y as int) == Some(sd));
            }
        }
    }
}

/// Two collections whose maps bear the same identifiers in order resolve
/// every identifier to the same position.
pub proof fn lemma_find_map_same_identifiers(mv1: Seq<MapView>, mv2: Seq<MapView>, m: u8)
    requires
        mv1.len() == mv2.len(),
        forall|i: int| 0 <= i < mv1.len() ==> (#[trigger] mv1[i]).identifier
            == mv2[i].identifier,
    ensures
        spec_find_map(mv1, m) == spec_find_map(mv2, m),
    decreases mv1.len(),
{
    if mv1.len() > 0 {
        assert forall|i: int| 0 <= i < mv1.drop_first().len() implies (
        #[trigger] mv1.drop_first()[i]).identifier == mv2.drop_first()[i].identifier by {
            assert(mv1.drop_first()[i] == mv1[i + 1]);
            assert(mv2.drop_first()[i] == mv2[i + 1]);
        }
        lemma_find_map_same_identifiers(mv1.drop_first(), mv2.drop_first(), m);
    }
}

/// Applying a seed and reading a placement's location back yields the sprite
/// that was placed there, wherever no later placement names the same
/// location: the round trip through the world maps is lossless.
pub proof fn lemma_apply_round_trip(mv: Seq<MapView>, ps: Seq<(Id, SpriteData)>, k: int)
    requires
        forall|j: int| 0 <= j < ps.len() ==> placement_resolvable(mv, (#[trigger] ps[j]).0),
        0 <= k < ps.len(),
        forall|j: int| k < j < ps.len() ==> (#[trigger] ps[j]).0 != ps[k].0,
    ensures
        spec_sprite_at(spec_apply(mv, ps), ps[k].0.map, ps[k].0.x as int, ps[k].0.y as int)
            == Some(ps[k].1@),
    decreases ps.len(),
{
    lemma_apply_resolvable(mv, ps.drop_last());
    if k == ps.len() - 1 {
        lemma_place_preserves(spec_apply(mv, ps.drop_last()), ps.last().0, ps.last().1@);
    } else {
        assert forall|j: int| k < j < ps.drop_last().len() implies (
        #[trigger] ps.drop_last()[j]).0 != ps.drop_last()[k].0 by {
            assert(ps.drop_last()[j] == ps[j]);
        }
        lemma_apply_round_trip(mv, ps.drop_last(), k);
        lemma_place_preserves(spec_apply(mv, ps.drop_last()), ps.last().0, ps.last().1@);
        let a = ps[k].0;
        let b = ps.last().0;
        assert(b != a);
        if b.map == a.map && b.x == a.x && b.y == a.y {
            assert(false);
        }
    }
}

/// Every placement stays resolvable while a seed is applied.
pub proof fn lemma_apply_resolvable(mv: Seq<MapView>, ps: Seq<(Id, SpriteData)>)
    ensures
        spec_apply(mv, ps).len() == mv.len(),
        forall|i: int| 0 <= i < mv.len() ==> (#[trigger] spec_apply(mv, ps)[i]).identifier
            == mv[i].identifier,
        forall|id2: Id| placement_resolvable(mv, id2) ==> placement_resolvable(
            spec_apply(mv, ps),
            id2,
        ),
    decreases ps.len(),
{
    if ps.len() > 0 {
        lemma_apply_resolvable(mv, ps.drop_last());
        lemma_place_preserves(spec_apply(mv, ps.drop_last()), ps.last().0, ps.last().1@);
    }
}

impl Seed {
    /// Records one placement.
    pub fn push(&mut self, placement: (Id, SpriteData))
        ensures
            final(self).placements@ == old(self).placements@.push(placement),
    {
        self.placements.push(placement);
    }

    pub fn len(&self) -> (r: usize)
        ensures
            r == self.placements@.len(),
    {
        self.placements.len()
    }

    /// Writes every recorded placement onto the world maps, in order.
    pub fn apply(self, maps: &mut Vec<WorldMap>)
        requires
            forall|j: int| 0 <= j < self.placements@.len() ==> placement_resolvable(
                maps_view(old(maps)@),
                (#[trigger] self.placements@[j]).0,
            ),
        ensures
            maps_view(final(maps)@) == spec_apply(maps_view(old(maps)@), self.placements@),
    {
        let ghost orig = maps_view(maps@);
        let ghost ps = self.placements@;
        let mut rest = self.placements;
        let ghost mut i: int = 0;
        while rest.len() > 0
            invariant
                0 <= i <= ps.len(),
                rest@ == ps.skip(i),
                forall|j: int| 0 <= j < ps.len() ==> placement_resolvable(
                    orig,
                    (#[trigger] ps[j]).0,
                ),
                orig == maps_view(old(maps)@),
                maps_view(maps@) == spec_apply(orig, ps.take(i)),
            decreases rest@.len(),
        {
            let (id, sd) = rest.remove(0);
            proof {
                assert((id, sd) == ps[i]);
                assert(rest@ =~= ps.skip(i + 1));
                lemma_apply_resolvable(orig, ps.take(i));
                assert(placement_resolvable(orig, id));
                assert(placement_resolvable(maps_view(maps@), id));
                crate::world::lemma_find_map(maps_view(maps@), id.map);
            }
            id.expect_sprite_mut(maps, sd);
            proof {
                assert(ps.take(i + 1).drop_last() =~= ps.take(i));
                assert(ps.take(i + 1).last() == ps[i]);
                i = i + 1;
            }
        }
        proof {
            assert(ps.take(ps.len() as int) =~= ps);
        }
    }
}

} // verus!
