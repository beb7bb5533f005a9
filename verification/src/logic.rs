//! The area graph: named areas holding item locations, paths to other areas,
//! and transfer slots, rooted at the area named Spawn. Requirements guard
//! items and paths; a full requirement is a disjunction of conjunctions.

use vstd::prelude::*;
use vstd::string::StringSliceAdditionalSpecFns;

use crate::id::{
    all_dec_digits, dec_val, spec_parse_id, Id,
};
use crate::sprite::Sprite;
use crate::world::{maps_view, WorldMap};

verus! {

/// One atom of a requirement clause.
#[derive(Clone, Copy, PartialEq, Eq, Structural, Debug)]
pub enum Requirement {
    /// The wind ring is held back by the pool.
    Ring,
    /// The lava charm is held back by the pool.
    Charm,
    /// A shield is held back by the pool.
    Shield,
    /// At least this many swords are held back by the pool.
    Swords(u8),
    /// At least this many gems are held back by the pool.
    Gems(u8),
    /// The door or blocker at this location opens with what the pool holds back.
    Id(Id),
}

/// A disjunction of conjunctions: met when any inner clause is fully met.
pub type Requirements = Vec<Vec<Requirement>>;

/// Why a requirement string was rejected.
#[derive(Clone, Copy, PartialEq, Eq, Structural, Debug)]
pub enum RequirementParseError {
    UnknownForm,
}

impl RequirementParseError {
    /// The closed grammar a requirement string must match.
    pub fn message(&self) -> (r: &'static str)
    {
        "expected \"Ring\", \"Charm\", \"Shield\", \"Swords.<u8>\", \"Gems.<u8>\" or \"<map>.<x>.<y>\""
    }
}

pub open spec fn is_ring_lit(s: Seq<u8>) -> bool {
    s.len() == 4 && s[0] == 82 && s[1] == 105 && s[2] == 110 && s[3] == 103
}

pub open spec fn is_charm_lit(s: Seq<u8>) -> bool {
    s.len() == 5 && s[0] == 67 && s[1] == 104 && s[2] == 97 && s[3] == 114 && s[4] == 109
}

pub open spec fn is_shield_lit(s: Seq<u8>) -> bool {
    s.len() == 6 && s[0] == 83 && s[1] == 104 && s[2] == 105 && s[3] == 101 && s[4] == 108
        && s[5] == 100
}

pub open spec fn is_swords_prefix(s: Seq<u8>) -> bool {
    s.len() >= 7 && s[0] == 83 && s[1] == 119 && s[2] == 111 && s[3] == 114 && s[4] == 100
        && s[5] == 115 && s[6] == 46
}

pub open spec fn is_gems_prefix(s: Seq<u8>) -> bool {
    s.len() >= 5 && s[0] == 71 && s[1] == 101 && s[2] == 109 && s[3] == 115 && s[4] == 46
}

/// The requirement a byte string denotes: one of the keyword forms, a
/// keyword with a count, or a bare location reference.
pub open spec fn spec_parse_requirement(s: Seq<u8>) -> Option<Requirement> {
    if is_ring_lit(s) {
        Some(Requirement::Ring)
    } else if is_charm_lit(s) {
        Some(Requirement::Charm)
    } else if is_shield_lit(s) {
        Some(Requirement::Shield)
    } else if is_swords_prefix(s) {
        if all_dec_digits(s.skip(7)) && dec_val(s.skip(7)) <= u8::MAX {
            Some(Requirement::Swords(dec_val(s.skip(7)) as u8))
        } else {
            None
        }
    } else if is_gems_prefix(s) {
        if all_dec_digits(s.skip(5)) && dec_val(s.skip(5)) <= u8::MAX {
            Some(Requirement::Gems(dec_val(s.skip(5)) as u8))
        } else {
            None
        }
    } else {
        match spec_parse_id(s) {
            Some(id) => Some(Requirement::Id(id)),
            None => None,
        }
    }
}

impl Requirement {
    /// Reads a requirement from its string form, as `spec_parse_requirement`
    /// names it.
    pub fn parse(s: &str) -> (r: Result<Requirement, RequirementParseError>)
        ensures
            match r {
                Ok(req) => spec_parse_requirement(s.spec_bytes()) == Some(req),
                Err(_) => spec_parse_requirement(s.spec_bytes()) is None,
            },
    {
        let b = s.as_bytes();
        let n = b.len();
        if n == 4 && b[0] == 82 && b[1] == 105 && b[2] == 110 && b[3] == 103 {
            return Ok(Requirement::Ring);
        }
        if n == 5 && b[0] == 67 && b[1] == 104 && b[2] == 97 && b[3] == 114 && b[4] == 109 {
            return Ok(Requirement::Charm);
        }
        if n == 6 && b[0] == 83 && b[1] == 104 && b[2] == 105 && b[3] == 101 && b[4] == 108
            && b[5] == 100 {
            return Ok(Requirement::Shield);
        }
        if n >= 7 && b[0] == 83 && b[1] == 119 && b[2] == 111 && b[3] == 114 && b[4] == 100
            && b[5] == 115 && b[6] == 46 {
            proof {
                assert(b@.skip(7) =~= s.spec_bytes().subrange(7, n as int));
            }
            return match crate::id::parse_dec(b, 7, n, 255) {
                Some(v) => Ok(Requirement::Swords(v as u8)),
                None => Err(RequirementParseError::UnknownForm),
            };
        }
        if n >= 5 && b[0] == 71 && b[1] == 101 && b[2] == 109 && b[3] == 115 && b[4] == 46 {
            proof {
                assert(b@.skip(5) =~= s.spec_bytes().subrange(5, n as int));
            }
            return match crate::id::parse_dec(b, 5, n, 255) {
                Some(v) => Ok(Requirement::Gems(v as u8)),
                None => Err(RequirementParseError::UnknownForm),
            };
        }
        match Id::parse(s) {
            Ok(id) => Ok(Requirement::Id(id)),
            Err(_) => Err(RequirementParseError::UnknownForm),
        }
    }
}

/// A named node of the logic graph. Paths name their target areas by index
/// into the owning `Logic`'s area list.
pub struct Area {
    pub name: String,
    pub items: Vec<(Id, Requirements)>,
    pub paths: Vec<(usize, Requirements)>,
    pub transfers: Vec<Id>,
}

/// The whole area graph, rooted at the Spawn area.
pub struct Logic {
    pub areas: Vec<Area>,
    pub spawn: usize,
}

impl Logic {
    /// Every item location the graph declares, area by area, in order.
    pub open spec fn spec_item_ids(self) -> Seq<Id> {
        self.areas@.map_values(
            |a: Area| a.items@.map_values(|e: (Id, Requirements)| e.0),
        ).flatten()
    }

    /// Every transfer slot the graph declares, area by area, in order.
    pub open spec fn spec_transfer_ids(self) -> Seq<Id> {
        self.areas@.map_values(|a: Area| a.transfers@).flatten()
    }

    /// A graph the generator can run on: the spawn index in range, every
    /// path target in range, and no location declared twice.
    pub open spec fn wf(self) -> bool {
        &&& self.spawn < self.areas@.len()
        &&& forall|a: int, p: int|
            0 <= a < self.areas@.len() && 0 <= p < self.areas@[a].paths@.len() ==> (
            #[trigger] self.areas@[a].paths@[p]).0 < self.areas@.len()
        &&& self.spec_item_ids().no_duplicates()
        &&& self.spec_transfer_ids().no_duplicates()
    }

    pub fn get_area(&self, a: usize) -> (r: &Area)
        requires
            a < self.areas@.len(),
        ensures
            r == self.areas@[a as int],
    {
        &self.areas[a]
    }

    /// Every Id registered as a placeable item location across all areas,
    /// used to size the pool and to check per-item reachability.
    pub fn items(&self) -> (r: Vec<Id>)
        ensures
            r@ == self.spec_item_ids(),
    {
        let ghost rows = self.areas@.map_values(
            |a: Area| a.items@.map_values(|e: (Id, Requirements)| e.0),
        );
        let mut out: Vec<Id> = Vec::new();
        let mut a: usize = 0;
        while a < self.areas.len()
            invariant
                a <= self.areas@.len(),
                rows == self.areas@.map_values(
                    |ar: Area| ar.items@.map_values(|e: (Id, Requirements)| e.0),
                ),
                out@ == rows.take(a as int).flatten(),
            decreases self.areas@.len() - a,
        {
            let area = &self.areas[a];
            let mut i: usize = 0;
            while i < area.items.len()
                invariant
                    i <= area.items@.len(),
                    a < self.areas@.len(),
                    area == self.areas@[a as int],
                    rows == self.areas@.map_values(
                        |ar: Area| ar.items@.map_values(|e: (Id, Requirements)| e.0),
                    ),
                    out@ == rows.take(a as int).flatten() + rows[a as int].take(i as int),
                decreases area.items@.len() - i,
            {
                out.push(area.items[i].0);
                proof {
                    assert(rows[a as int].take(i + 1) =~= rows[a as int].take(i as int).push(
                        rows[a as int][i as int],
                    ));
                }
                i = i + 1;
            }
            proof {
                assert(rows[a as int].take(area.items@.len() as int) =~= rows[a as int]);
                assert(rows.take(a + 1).drop_last() =~= rows.take(a as int));
                rows.take(a as int).lemma_flatten_and_flatten_alt_are_equivalent();
                rows.take(a + 1).lemma_flatten_and_flatten_alt_are_equivalent();
                assert(rows.take(a + 1).flatten() =~= rows.take(a as int).flatten()
                    + rows[a as int]);
            }
            a = a + 1;
        }
        proof {
            assert(rows.take(rows.len() as int) =~= rows);
        }
        out
    }

    /// Every transfer slot, area by area.
    pub fn transfer_ids(&self) -> (r: Vec<Id>)
        ensures
            r@ == self.spec_transfer_ids(),
    {
        let ghost rows = self.areas@.map_values(|a: Area| a.transfers@);
        let mut out: Vec<Id> = Vec::new();
        let mut a: usize = 0;
        while a < self.areas.len()
            invariant
                a <= self.areas@.len(),
                rows == self.areas@.map_values(|ar: Area| ar.transfers@),
                out@ == rows.take(a as int).flatten(),
            decreases self.areas@.len() - a,
        {
            let area = &self.areas[a];
            let mut i: usize = 0;
            while i < area.transfers.len()
                invariant
                    i <= area.transfers@.len(),
                    a < self.areas@.len(),
                    area == self.areas@[a as int],
                    rows == self.areas@.map_values(|ar: Area| ar.transfers@),
                    out@ == rows.take(a as int).flatten() + rows[a as int].take(i as int),
                decreases area.transfers@.len() - i,
            {
                out.push(area.transfers[i]);
                proof {
                    assert(rows[a as int].take(i + 1) =~= rows[a as int].take(i as int).push(
                        rows[a as int][i as int],
                    ));
                }
                i = i + 1;
            }
            proof {
                assert(rows[a as int].take(area.transfers@.len() as int) =~= rows[a as int]);
                assert(rows.take(a + 1).drop_last() =~= rows.take(a as int));
                rows.take(a as int).lemma_flatten_and_flatten_alt_are_equivalent();
                rows.take(a + 1).lemma_flatten_and_flatten_alt_are_equivalent();
                assert(rows.take(a + 1).flatten() =~= rows.take(a as int).flatten()
                    + rows[a as int]);
            }
            a = a + 1;
        }
        proof {
            assert(rows.take(rows.len() as int) =~= rows);
        }
        out
    }

    /// Whether the generator can run on this graph, as `wf` names it.
    pub fn validate(&self) -> (r: bool)
        ensures
            r == self.wf(),
    {
        if !(self.spawn < self.areas.len()) {
            return false;
        }
        let mut a: usize = 0;
        while a < self.areas.len()
            invariant
                a <= self.areas@.len(),
                forall|b: int, p: int|
                    0 <= b < a && 0 <= p < self.areas@[b].paths@.len() ==> (
                    #[trigger] self.areas@[b].paths@[p]).0 < self.areas@.len(),
            decreases self.areas@.len() - a,
        {
            let area = &self.areas[a];
            let mut p: usize = 0;
            while p < area.paths.len()
                invariant
                    p <= area.paths@.len(),
                    a < self.areas@.len(),
                    area == self.areas@[a as int],
                    forall|q: int| 0 <= q < p ==> (#[trigger] area.paths@[q]).0
                        < self.areas@.len(),
                decreases area.paths@.len() - p,
            {
                if !(area.paths[p].0 < self.areas.len()) {
                    return false;
                }
                p = p + 1;
            }
            a = a + 1;
        }
        let item_ids = self.items();
        if !ids_distinct(&item_ids) {
            return false;
        }
        let transfer_ids = self.transfer_ids();
        if !ids_distinct(&transfer_ids) {
            return false;
        }
        true
    }
}

/// The world holds a true item at this declared item location.
pub open spec fn purge_keeps(maps: Seq<crate::world::MapView>, id: Id) -> bool {
    match id.spec_sprite(maps) {
        Some(sd) => Sprite::spec_of_kind(sd.0).spec_is_item(),
        None => false,
    }
}

/// The world holds a shuffled gate at this declared item location: such an
/// entry is a logic obstacle, not a placement target.
pub open spec fn purge_drops(maps: Seq<crate::world::MapView>, id: Id) -> bool {
    match id.spec_sprite(maps) {
        Some(sd) => Sprite::spec_of_kind(sd.0) == Sprite::Door(crate::sprite::Door::Gold)
            || Sprite::spec_of_kind(sd.0) == Sprite::Door(crate::sprite::Door::Silver)
            || Sprite::spec_of_kind(sd.0) == Sprite::Door(crate::sprite::Door::Boulder),
        None => false,
    }
}

/// Every declared item location resolves to a true item or a shuffled gate;
/// anything else marks a logic-document/world-data mismatch.
pub open spec fn purge_consistent(maps: Seq<crate::world::MapView>, logic: Logic) -> bool {
    forall|a: int, i: int|
        0 <= a < logic.areas@.len() && 0 <= i < logic.areas@[a].items@.len() ==> purge_keeps(
            maps,
            (#[trigger] logic.areas@[a].items@[i]).0,
        ) || purge_drops(maps, logic.areas@[a].items@[i].0)
}

/// A world/logic mismatch that re-randomizing cannot repair.
#[derive(Clone, Copy, PartialEq, Eq, Structural, Debug)]
pub enum WorldMismatch {
    /// A declared location names a map the collection does not hold, or an
    /// empty cell.
    UnresolvedLocation,
    /// A declared item location holds neither an item nor a shuffled gate.
    UnexpectedSprite,
    /// A transfer slot does not resolve to a transfer record with a target.
    BadTransfer,
}

impl Logic {
    /// Removes from every area's item map the entries whose world sprite is
    /// a gate rather than a true item; any other unexpected sprite kind is a
    /// fatal mismatch between the logic document and the world data.
    pub fn purge_doors(&mut self, maps: &Vec<WorldMap>) -> (r: Result<(), WorldMismatch>)
        ensures
            r is Ok <==> purge_consistent(maps_view(maps@), *old(self)),
            r is Ok ==> {
                &&& final(self).spawn == old(self).spawn
                &&& final(self).areas@.len() == old(self).areas@.len()
                &&& forall|a: int| 0 <= a < old(self).areas@.len() ==> {
                    &&& (#[trigger] final(self).areas@[a]).name == old(self).areas@[a].name
                    &&& final(self).areas@[a].paths == old(self).areas@[a].paths
                    &&& final(self).areas@[a].transfers == old(self).areas@[a].transfers
                    &&& final(self).areas@[a].items@ == old(self).areas@[a].items@.filter(
                        |e: (Id, Requirements)| purge_keeps(maps_view(maps@), e.0),
                    )
                }
            },
    {
        let ghost mapsv = maps_view(maps@);
        let ghost orig = self.areas@;
        let n = self.areas.len();
        let mut a: usize = 0;
        while a < n
            invariant
                n == self.areas@.len() == orig.len(),
                a <= n,
                orig == old(self).areas@,
                mapsv == maps_view(maps@),
                self.spawn == old(self).spawn,
                forall|b: int| a <= b < n ==> self.areas@[b] == orig[b],
                forall|b: int| 0 <= b < a ==> {
                    &&& (#[trigger] self.areas@[b]).name == orig[b].name
                    &&& self.areas@[b].paths == orig[b].paths
                    &&& self.areas@[b].transfers == orig[b].transfers
                    &&& self.areas@[b].items@ == orig[b].items@.filter(
                        |e: (Id, Requirements)| purge_keeps(mapsv, e.0),
                    )
                },
                forall|b: int, i: int|
                    0 <= b < a && 0 <= i < orig[b].items@.len() ==> purge_keeps(
                        mapsv,
                        (#[trigger] orig[b].items@[i]).0,
                    ) || purge_drops(mapsv, orig[b].items@[i].0),
            decreases n - a,
        {
            let mut area = self.areas.remove(a);
            proof {
                assert(area == orig[a as int]);
            }
            let ghost entries = area.items@;
            let mut rest = area.items;
            area.items = Vec::new();
            let mut kept: Vec<(Id, Requirements)> = Vec::new();
            let ghost mut i: int = 0;
            while rest.len() > 0
                invariant
                    0 <= i <= entries.len(),
                    a < n <= orig.len(),
                    orig == old(self).areas@,
                    entries == orig[a as int].items@,
                    rest@ == entries.skip(i),
                    mapsv == maps_view(maps@),
                    kept@ == entries.take(i).filter(
                        |e: (Id, Requirements)| purge_keeps(mapsv, e.0),
                    ),
                    forall|k: int| 0 <= k < i ==> purge_keeps(mapsv, (#[trigger] entries[k]).0)
                        || purge_drops(mapsv, entries[k].0),
                decreases rest@.len(),
            {
                let e = rest.remove(0);
                proof {
                    assert(e == entries[i]);
                    assert(rest@ =~= entries.skip(i + 1));
                }
                let id = e.0;
                let keep = match crate::world::find_map(maps, id.map) {
                    Some(_) => match id.sprite(maps) {
                        Some(sd) => {
                            let sprite = Sprite::of_kind(sd.kind);
                            if sprite.is_item() {
                                true
                            } else {
                                match sprite {
                                    Sprite::Door(crate::sprite::Door::Gold)
                                    | Sprite::Door(crate::sprite::Door::Silver)
                                    | Sprite::Door(crate::sprite::Door::Boulder) => false,
                                    _ => {
                                        proof {
                                            assert(orig[a as int].items@[i].0 == id);
                                            assert(!purge_keeps(mapsv, id) && !purge_drops(
                                                mapsv,
                                                id,
                                            ));
                                        }
                                        return Err(WorldMismatch::UnexpectedSprite);
                                    },
                                }
                            }
                        },
                        None => {
                            proof {
                                assert(orig[a as int].items@[i].0 == id);
                                assert(!purge_keeps(mapsv, id) && !purge_drops(mapsv, id));
                            }
                            return Err(WorldMismatch::UnresolvedLocation);
                        },
                    },
                    None => {
                        proof {
                            assert(orig[a as int].items@[i].0 == id);
                            assert(!purge_keeps(mapsv, id) && !purge_drops(mapsv, id));
                        }
                        return Err(WorldMismatch::UnresolvedLocation);
                    },
                };
                proof {
                    reveal(Seq::filter);
                    assert(entries.take(i + 1).drop_last() =~= entries.take(i));
                    assert(entries.take(i + 1).last() == entries[i]);
                }
                proof {
                    if keep {
                        assert(purge_keeps(mapsv, id));
                    } else {
                        assert(purge_drops(mapsv, id));
                    }
                }
                if keep {
                    kept.push(e);
                }
                proof {
                    i = i + 1;
                }
            }
            proof {
                assert(entries.take(entries.len() as int) =~= entries);
                assert(entries.skip(i).len() == 0);
            }
            area.items = kept;
            self.areas.insert(a, area);
            a = a + 1;
        }
        Ok(())
    }
}

/// Every declared item location holds a true item in the world: what a
/// purged logic document and consistent world data guarantee.
pub open spec fn items_ok(maps: Seq<crate::world::MapView>, logic: Logic) -> bool {
    forall|id: Id| logic.spec_item_ids().contains(id) ==> purge_keeps(maps, id)
}

/// Whether every item location holds an item, as `items_ok` names it.
pub fn validate_items(maps: &Vec<WorldMap>, logic: &Logic) -> (r: bool)
    ensures
        r == items_ok(maps_view(maps@), *logic),
{
    let ids = logic.items();
    let mut i: usize = 0;
    while i < ids.len()
        invariant
            i <= ids@.len(),
            ids@ == logic.spec_item_ids(),
            forall|k: int| 0 <= k < i ==> purge_keeps(maps_view(maps@), ids@[k]),
        decreases ids@.len() - i,
    {
        let id = ids[i];
        let ok = match crate::world::find_map(maps, id.map) {
            Some(_) => match id.sprite(maps) {
                Some(sd) => Sprite::of_kind(sd.kind).is_item(),
                None => false,
            },
            None => false,
        };
        if !ok {
            proof {
                assert(ids@.contains(ids@[i as int]));
                assert(!purge_keeps(maps_view(maps@), id));
            }
            return false;
        }
        i = i + 1;
    }
    proof {
        assert forall|id: Id| logic.spec_item_ids().contains(id) implies purge_keeps(
            maps_view(maps@),
            id,
        ) by {
            let k = choose|k: int| 0 <= k < ids@.len() && ids@[k] == id;
            assert(purge_keeps(maps_view(maps@), ids@[k]));
        }
    }
    true
}

/// Whether no location appears twice in the list.
pub fn ids_distinct(ids: &Vec<Id>) -> (r: bool)
    ensures
        r == ids@.no_duplicates(),
{
    let mut i: usize = 0;
    while i < ids.len()
        invariant
            i <= ids@.len(),
            forall|k1: int, k2: int| 0 <= k1 < k2 < ids@.len() && k1 < i ==> ids@[k1] != ids@[k2],
        decreases ids@.len() - i,
    {
        let mut j: usize = i + 1;
        while j < ids.len()
            invariant
                i < j <= ids@.len(),
                i < ids@.len(),
                forall|k2: int| i < k2 < j ==> ids@[i as int] != ids@[k2],
            decreases ids@.len() - j,
        {
            if ids[i] == ids[j] {
                return false;
            }
            j = j + 1;
        }
        i = i + 1;
    }
    true
}

/// A flattened list places `ls[b][j]` somewhere, so it contains it.
pub proof fn lemma_flatten_contains<A>(ls: Seq<Seq<A>>, b: int, j: int)
    requires
        0 <= b < ls.len(),
        0 <= j < ls[b].len(),
    ensures
        ls.flatten().contains(ls[b][j]),
    decreases ls.len(),
{
    let flat = ls.flatten();
    assert(flat == ls.first() + ls.drop_first().flatten());
    if b == 0 {
        assert(flat[j] == ls[0][j]);
    } else {
        lemma_flatten_contains(ls.drop_first(), b - 1, j);
        let rest = ls.drop_first().flatten();
        let k = choose|k: int| 0 <= k < rest.len() && rest[k] == ls.drop_first()[b - 1][j];
        assert(flat[ls.first().len() + k] == rest[k]);
        assert(ls.drop_first()[b - 1] == ls[b]);
    }
}

/// Distinct positions of a flattened list without duplicates hold distinct
/// values.
pub proof fn lemma_flatten_cross_distinct<A>(ls: Seq<Seq<A>>, a: int, i: int, b: int, j: int)
    requires
        ls.flatten().no_duplicates(),
        0 <= a < ls.len(),
        0 <= i < ls[a].len(),
        0 <= b < ls.len(),
        0 <= j < ls[b].len(),
        a != b || i != j,
    ensures
        ls[a][i] != ls[b][j],
    decreases ls.len(),
{
    let flat = ls.flatten();
    assert(flat == ls.first() + ls.drop_first().flatten());
    let head = ls.first();
    let rest = ls.drop_first().flatten();
    if a == 0 && b == 0 {
        assert(flat[i] == head[i] && flat[j] == head[j]);
    } else if a == 0 {
        lemma_flatten_contains(ls.drop_first(), b - 1, j);
        let k = choose|k: int| 0 <= k < rest.len() && rest[k] == ls.drop_first()[b - 1][j];
        assert(flat[i] == head[i]);
        assert(flat[head.len() + k] == rest[k]);
        assert(ls.drop_first()[b - 1] == ls[b]);
    } else if b == 0 {
        lemma_flatten_contains(ls.drop_first(), a - 1, i);
        let k = choose|k: int| 0 <= k < rest.len() && rest[k] == ls.drop_first()[a - 1][i];
        assert(flat[j] == head[j]);
        assert(flat[head.len() + k] == rest[k]);
        assert(ls.drop_first()[a - 1] == ls[a]);
    } else {
        assert forall|k1: int, k2: int| 0 <= k1 < rest.len() && 0 <= k2 < rest.len() && k1 != k2
            implies rest[k1] != rest[k2] by {
            assert(flat[head.len() + k1] == rest[k1]);
            assert(flat[head.len() + k2] == rest[k2]);
        }
        lemma_flatten_cross_distinct(ls.drop_first(), a - 1, i, b - 1, j);
        assert(ls.drop_first()[a - 1] == ls[a]);
        assert(ls.drop_first()[b - 1] == ls[b]);
    }
}

} // verus!
