//! Location identity: a `(map, x, y)` triple that keys the logic graph and
//! resolves to a sprite cell of the world-map collection. Its string form is
//! `<map>.<x>.<y>`, three dot-separated decimal parts and nothing more.

use vstd::prelude::*;
use vstd::string::StringSliceAdditionalSpecFns;

use crate::sprite::SpriteData;
use crate::world::{
    find_map, has_map, maps_view, spec_cell, spec_find_map, spec_sprite_at, MapView, WorldMap,
};

verus! {

/// An immutable triple identifying one world location.
#[derive(Clone, Copy, PartialEq, Eq, Structural, Debug, Hash)]
pub struct Id {
    pub map: u8,
    pub x: usize,
    pub y: usize,
}

/// Why an identifier string was rejected.
#[derive(Clone, Copy, PartialEq, Eq, Structural, Debug)]
pub enum IdParseError {
    /// Fewer than three parts.
    MissingPart,
    /// A part that is not a decimal number fitting its range.
    InvalidPart,
    /// Content after the third part.
    Trailing,
}

impl IdParseError {
    /// A short account for the reader of a rejected document.
    pub fn message(&self) -> (r: &'static str)
    {
        match self {
            IdParseError::MissingPart => "expected string with format <map>.<x>.<y>",
            IdParseError::InvalidPart => "invalid part in location identifier",
            IdParseError::Trailing => "trailing symbols in location identifier",
        }
    }
}

/// The first index at or after `from` holding byte `b`, or -1.
pub open spec fn find_byte(s: Seq<u8>, from: int, b: u8) -> int
    decreases s.len() - from,
{
    if from < 0 || from >= s.len() {
        -1
    } else if s[from] == b {
        from
    } else {
        find_byte(s, from + 1, b)
    }
}

/// What `find_byte` returns: the least index at or after `from` holding `b`,
/// or -1 when none does.
pub proof fn lemma_find_byte(s: Seq<u8>, from: int, b: u8)
    requires
        0 <= from,
    ensures
        find_byte(s, from, b) >= 0 ==> {
            let i = find_byte(s, from, b);
            &&& from <= i < s.len()
            &&& s[i] == b
            &&& forall|j: int| from <= j < i ==> s[j] != b
        },
        find_byte(s, from, b) < 0 ==> forall|j: int| from <= j < s.len() ==> s[j] != b,
    decreases s.len() - from,
{
    if from < s.len() && s[from] != b {
        lemma_find_byte(s, from + 1, b);
    }
}

pub open spec fn is_dec_digit(b: u8) -> bool {
    48 <= b <= 57
}

pub open spec fn all_dec_digits(s: Seq<u8>) -> bool {
    s.len() > 0 && forall|i: int| 0 <= i < s.len() ==> is_dec_digit(#[trigger] s[i])
}

/// The value of a string of decimal digits.
pub open spec fn dec_val(s: Seq<u8>) -> nat
    decreases s.len(),
{
    if s.len() == 0 {
        0
    } else {
        dec_val(s.drop_last()) * 10 + (s.last() - 48) as nat
    }
}

/// Dropping trailing digits never grows the value.
pub proof fn lemma_dec_val_prefix(s: Seq<u8>, i: int)
    requires
        0 <= i <= s.len(),
        forall|k: int| 0 <= k < s.len() ==> is_dec_digit(#[trigger] s[k]),
    ensures
        dec_val(s.take(i)) <= dec_val(s),
    decreases s.len(),
{
    if i < s.len() {
        assert(s.take(i) =~= s.drop_last().take(i));
        lemma_dec_val_prefix(s.drop_last(), i);
        assert(dec_val(s) == dec_val(s.drop_last()) * 10 + (s.last() - 48) as nat);
    } else {
        assert(s.take(i) =~= s);
    }
}

/// Reads the decimal number in `s[start..end]`, refusing anything that is
/// not all digits or whose value is above `max`.
pub fn parse_dec(s: &[u8], start: usize, end: usize, max: u128) -> (r: Option<u128>)
    requires
        start <= end <= s@.len(),
        max <= 0xFFFF_FFFF_FFFF_FFFF,
    ensures
        match r {
            Some(v) => all_dec_digits(s@.subrange(start as int, end as int))
                && dec_val(s@.subrange(start as int, end as int)) <= max
                && v == dec_val(s@.subrange(start as int, end as int)),
            None => !(all_dec_digits(s@.subrange(start as int, end as int))
                && dec_val(s@.subrange(start as int, end as int)) <= max),
        },
{
    let ghost part = s@.subrange(start as int, end as int);
    if start == end {
        return None;
    }
    let mut value: u128 = 0;
    let mut i: usize = start;
    while i < end
        invariant
            start <= i <= end <= s@.len(),
            part == s@.subrange(start as int, end as int),
            forall|k: int| 0 <= k < i - start ==> is_dec_digit(#[trigger] part[k]),
            value == dec_val(part.take(i - start)),
            value <= max,
            max <= 0xFFFF_FFFF_FFFF_FFFF,
        decreases end - i,
    {
        let b = s[i];
        if !(48 <= b && b <= 57) {
            proof {
                assert(part[i - start] == s@[i as int]);
                assert(!all_dec_digits(part));
            }
            return None;
        }
        let next: u128 = value * 10 + (b - 48) as u128;
        proof {
            assert(part.take(i - start + 1).drop_last() =~= part.take(i - start));
            assert(part.take(i - start + 1).last() == part[i - start]);
            assert(part[i - start] == s@[i as int]);
        }
        if next > max {
            proof {
                if all_dec_digits(part) {
                    lemma_dec_val_prefix(part, i - start + 1);
                }
            }
            return None;
        }
        value = next;
        i = i + 1;
    }
    proof {
        assert(part.take(end - start) =~= part);
    }
    Some(value)
}

/// The identifier a byte string denotes: three dot-separated decimal parts,
/// the first fitting `u8`, the others `usize`, with no fourth part.
pub open spec fn spec_parse_id(s: Seq<u8>) -> Option<Id> {
    let i = find_byte(s, 0, 46);
    let j = if i < 0 { -1 } else { find_byte(s, i + 1, 46) };
    let k = if j < 0 { -1 } else { find_byte(s, j + 1, 46) };
    if i < 0 || j < 0 || k >= 0 {
        None
    } else {
        let p1 = s.take(i);
        let p2 = s.subrange(i + 1, j);
        let p3 = s.subrange(j + 1, s.len() as int);
        if all_dec_digits(p1) && dec_val(p1) <= u8::MAX && all_dec_digits(p2) && dec_val(p2)
            <= usize::MAX && all_dec_digits(p3) && dec_val(p3) <= usize::MAX {
            Some(
                Id {
                    map: dec_val(p1) as u8,
                    x: dec_val(p2) as usize,
                    y: dec_val(p3) as usize,
                },
            )
        } else {
            None
        }
    }
}

impl Id {
    pub fn new(map: u8, x: usize, y: usize) -> (r: Id)
        ensures
            r == (Id { map, x, y }),
    {
        Id { map, x, y }
    }

    /// The fixed tiles of the terminal sequence that never take part in the
    /// randomization: the inner-castle guard pair, the final transfer pair
    /// and the final guard pair.
    pub open spec fn spec_is_excluded(self) -> bool {
        self.map == 43 && ((self.x == 45 && self.y == 56) || (self.x == 46 && self.y == 56) || (
        self.x == 31 && self.y == 1) || (self.x == 32 && self.y == 1) || (self.x == 31 && self.y
            == 3) || (self.x == 32 && self.y == 3))
    }

    pub fn is_excluded(self) -> (r: bool)
        ensures
            r == self.spec_is_excluded(),
    {
        self.map == 43 && ((self.x == 45 && self.y == 56) || (self.x == 46 && self.y == 56) || (
        self.x == 31 && self.y == 1) || (self.x == 32 && self.y == 1) || (self.x == 31 && self.y
            == 3) || (self.x == 32 && self.y == 3))
    }

    /// Reads an identifier from its string form, as `spec_parse_id` names it.
    pub fn parse(s: &str) -> (r: Result<Id, IdParseError>)
        ensures
            match r {
                Ok(id) => spec_parse_id(s.spec_bytes()) == Some(id),
                Err(_) => spec_parse_id(s.spec_bytes()) is None,
            },
    {
        let bytes = s.as_bytes();
        let n = bytes.len();
        proof {
            lemma_find_byte(bytes@, 0, 46);
        }
        let i = match find_byte_from(bytes, 0) {
            Some(i) => i,
            None => {
                return Err(IdParseError::MissingPart);
            },
        };
        proof {
            lemma_find_byte(bytes@, i + 1, 46);
        }
        let j = match find_byte_from(bytes, i + 1) {
            Some(j) => j,
            None => {
                return Err(IdParseError::MissingPart);
            },
        };
        proof {
            lemma_find_byte(bytes@, j + 1, 46);
        }
        let map = match parse_dec(bytes, 0, i, 255) {
            Some(v) => v as u8,
            None => {
                return Err(IdParseError::InvalidPart);
            },
        };
        let x = match parse_dec(bytes, i + 1, j, usize::MAX as u128) {
            Some(v) => v as usize,
            None => {
                return Err(IdParseError::InvalidPart);
            },
        };
        let k = find_byte_from(bytes, j + 1);
        let end = match k {
            Some(k) => k,
            None => n,
        };
        let y = match parse_dec(bytes, j + 1, end, usize::MAX as u128) {
            Some(v) => v as usize,
            None => {
                return Err(IdParseError::InvalidPart);
            },
        };
        if let Some(_) = k {
            return Err(IdParseError::Trailing);
        }
        Ok(Id { map, x, y })
    }

    /// This location's sprite record in the map collection.
    pub open spec fn spec_sprite(self, maps: Seq<MapView>) -> Option<(u8, Seq<u8>)> {
        spec_sprite_at(maps, self.map, self.x as int, self.y as int)
    }

    /// The map this location lives on. The logic document and the world data
    /// must agree that it exists; a miss is an authoring error.
    pub fn expect_map<'a>(self, maps: &'a Vec<WorldMap>) -> (r: &'a WorldMap)
        requires
            has_map(maps_view(maps@), self.map),
        ensures
            r == maps@[spec_find_map(maps_view(maps@), self.map)],
            r@.identifier == self.map,
    {
        match find_map(maps, self.map) {
            Some(i) => &maps[i],
            None => unreached(),
        }
    }

    /// The position of this location's map inside the collection, for a
    /// caller that must mutate the map in place.
    pub fn expect_map_mut(self, maps: &mut Vec<WorldMap>) -> (r: usize)
        requires
            has_map(maps_view(old(maps)@), self.map),
        ensures
            final(maps)@ == old(maps)@,
            r == spec_find_map(maps_view(old(maps)@), self.map),
    {
        match find_map(maps, self.map) {
            Some(i) => i,
            None => unreached(),
        }
    }

    /// This location's sprite record, `None` where the cell is empty or
    /// outside its map's grid.
    pub fn sprite<'a>(self, maps: &'a Vec<WorldMap>) -> (r: Option<&'a SpriteData>)
        requires
            has_map(maps_view(maps@), self.map),
        ensures
            match r {
                Some(sd) => self.spec_sprite(maps_view(maps@)) == Some(sd@),
                None => self.spec_sprite(maps_view(maps@)) is None,
            },
    {
        let m = self.expect_map(maps);
        proof {
            crate::world::lemma_find_map(maps_view(maps@), self.map);
            let i = spec_find_map(maps_view(maps@), self.map);
            assert(maps_view(maps@)[i] == maps@[i]@);
        }
        m.sprite(self.x, self.y)
    }

    /// This location's sprite record, which logic and world data must agree
    /// exists.
    pub fn expect_sprite<'a>(self, maps: &'a Vec<WorldMap>) -> (r: &'a SpriteData)
        requires
            has_map(maps_view(maps@), self.map),
            self.spec_sprite(maps_view(maps@)) is Some,
        ensures
            Some(r@) == self.spec_sprite(maps_view(maps@)),
    {
        match self.sprite(maps) {
            Some(sd) => sd,
            None => unreached(),
        }
    }

    /// Overwrites this location's sprite record where the cell is occupied;
    /// answers whether it was.
    pub fn sprite_mut(self, maps: &mut Vec<WorldMap>, sd: SpriteData) -> (r: bool)
        requires
            has_map(maps_view(old(maps)@), self.map),
        ensures
            maps_view(final(maps)@) == spec_place(maps_view(old(maps)@), self, sd@),
            r == (self.spec_sprite(maps_view(old(maps)@)) is Some),
    {
        let ghost before = maps_view(maps@);
        let mi = match find_map(maps, self.map) {
            Some(i) => i,
            None => unreached(),
        };
        let occupied = match maps[mi].sprite(self.x, self.y) {
            Some(_) => true,
            None => false,
        };
        if !occupied {
            proof {
                assert(maps_view(maps@) =~= spec_place(before, self, sd@));
            }
            return false;
        }
        let mut m = maps.remove(mi);
        m.set_sprite(self.x, self.y, sd);
        maps.insert(mi, m);
        proof {
            assert(maps_view(maps@) =~= spec_place(before, self, sd@));
        }
        true
    }

    /// Overwrites this location's sprite record, which logic and world data
    /// must agree exists.
    pub fn expect_sprite_mut(self, maps: &mut Vec<WorldMap>, sd: SpriteData)
        requires
            has_map(maps_view(old(maps)@), self.map),
            self.spec_sprite(maps_view(old(maps)@)) is Some,
        ensures
            maps_view(final(maps)@) == spec_place(maps_view(old(maps)@), self, sd@),
    {
        let wrote = self.sprite_mut(maps, sd);
    }
}

/// The collection after writing `sd` at `id`: the occupied cell of the first
/// map bearing `id.map` is replaced, everything else stays; a collection
/// that does not resolve `id` stays whole.
pub open spec fn spec_place(maps: Seq<MapView>, id: Id, sd: (u8, Seq<u8>)) -> Seq<MapView> {
    let i = spec_find_map(maps, id.map);
    if i >= 0 && spec_cell(maps[i], id.x as int, id.y as int) is Some {
        maps.update(
            i,
            MapView {
                identifier: maps[i].identifier,
                tiles: maps[i].tiles,
                sprites: maps[i].sprites.update(
                    id.y as int,
                    maps[i].sprites[id.y as int].update(id.x as int, Some(sd)),
                ),
            },
        )
    } else {
        maps
    }
}

/// Finds the next dot of an identifier string.
fn find_byte_from(s: &[u8], from: usize) -> (r: Option<usize>)
    ensures
        match r {
            Some(i) => i == find_byte(s@, from as int, 46),
            None => find_byte(s@, from as int, 46) < 0,
        },
{
    let mut i: usize = from;
    while i < s.len()
        invariant
            from <= i,
            forall|j: int| from <= j < i ==> s@[j] != 46,
        decreases s@.len() - i,
    {
        if s[i] == 46 {
            proof {
                lemma_find_byte_at(s@, from as int, 46, i as int);
            }
            return Some(i);
        }
        i = i + 1;
    }
    proof {
        lemma_find_byte(s@, from as int, 46);
        if find_byte(s@, from as int, 46) >= 0 {
            assert(s@[find_byte(s@, from as int, 46)] == 46);
        }
    }
    None
}

/// An index holding `b`, before which none at or after `from` does, is
/// exactly what `find_byte` returns.
pub proof fn lemma_find_byte_at(s: Seq<u8>, from: int, b: u8, i: int)
    requires
        0 <= from <= i < s.len(),
        s[i] == b,
        forall|j: int| from <= j < i ==> s[j] != b,
    ensures
        find_byte(s, from, b) == i,
    decreases i - from,
{
    if from < i {
        lemma_find_byte_at(s, from + 1, b, i);
    }
}

} // verus!

