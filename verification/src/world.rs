//! World maps: a grid of tiles and a grid of optional sprite records, keyed
//! by a one-byte map identifier. The randomizer reads sprites during
//! generation and writes them back once, when a seed is applied.

use vstd::prelude::*;

use crate::sprite::SpriteData;

verus! {

/// The mathematical value of one world map.
pub struct MapView {
    pub identifier: u8,
    pub tiles: Seq<Seq<u8>>,
    pub sprites: Seq<Seq<Option<(u8, Seq<u8>)>>>,
}

/// One level of the game: its identifier, its tile grid and its sprite grid,
/// both indexed as `[y][x]`.
pub struct WorldMap {
    pub identifier: u8,
    pub tiles: Vec<Vec<u8>>,
    pub sprites: Vec<Vec<Option<SpriteData>>>,
}

impl View for WorldMap {
    type V = MapView;

    open spec fn view(&self) -> MapView {
        MapView {
            identifier: self.identifier,
            tiles: self.tiles@.map_values(|row: Vec<u8>| row@),
            sprites: self.sprites@.map_values(
                |row: Vec<Option<SpriteData>>|
                    row@.map_values(
                        |cell: Option<SpriteData>| match cell {
                            Some(sd) => Some(sd@),
                            None => None,
                        },
                    ),
            ),
        }
    }
}

/// The views of a map collection, in order.
pub open spec fn maps_view(maps: Seq<WorldMap>) -> Seq<MapView> {
    maps.map_values(|m: WorldMap| m@)
}

/// The sprite cell of `m` at `(x, y)`, `None` outside the grid.
pub open spec fn spec_cell(m: MapView, x: int, y: int) -> Option<(u8, Seq<u8>)> {
    if 0 <= y < m.sprites.len() && 0 <= x < m.sprites[y].len() {
        m.sprites[y][x]
    } else {
        None
    }
}

/// The index of the first map with the given identifier, or -1.
pub open spec fn spec_find_map(maps: Seq<MapView>, identifier: u8) -> int
    decreases maps.len(),
{
    if maps.len() == 0 {
        -1
    } else if maps[0].identifier == identifier {
        0
    } else {
        let rest = spec_find_map(maps.drop_first(), identifier);
        if rest < 0 {
            -1
        } else {
            rest + 1
        }
    }
}

pub open spec fn has_map(maps: Seq<MapView>, identifier: u8) -> bool {
    spec_find_map(maps, identifier) >= 0
}

/// What `spec_find_map` returns: the least index bearing the identifier,
/// or -1 when no map bears it.
pub proof fn lemma_find_map(maps: Seq<MapView>, identifier: u8)
    ensures
        spec_find_map(maps, identifier) >= 0 ==> {
            let i = spec_find_map(maps, identifier);
            &&& i < maps.len()
            &&& maps[i].identifier == identifier
            &&& forall|j: int| 0 <= j < i ==> maps[j].identifier != identifier
        },
        spec_find_map(maps, identifier) < 0 ==> forall|j: int|
            0 <= j < maps.len() ==> maps[j].identifier != identifier,
    decreases maps.len(),
{
    if maps.len() > 0 && maps[0].identifier != identifier {
        lemma_find_map(maps.drop_first(), identifier);
        assert forall|j: int| 1 <= j < maps.len() implies maps[j]
            == maps.drop_first()[j - 1] by {}
    }
}

/// Finds the map bearing `identifier`, as `spec_find_map` names it.
pub fn find_map(maps: &Vec<WorldMap>, identifier: u8) -> (r: Option<usize>)
    ensures
        match r {
            Some(i) => i == spec_find_map(maps_view(maps@), identifier) && i < maps@.len()
                && maps@[i as int]@.identifier == identifier,
            None => !has_map(maps_view(maps@), identifier),
        },
{
    proof {
        lemma_find_map(maps_view(maps@), identifier);
    }
    let mut i: usize = 0;
    while i < maps.len()
        invariant
            i <= maps@.len(),
            forall|j: int| 0 <= j < i ==> maps_view(maps@)[j].identifier != identifier,
        decreases maps@.len() - i,
    {
        if maps[i].identifier == identifier {
            proof {
                lemma_find_map_at(maps_view(maps@), identifier, i as int);
            }
            return Some(i);
        }
        i = i + 1;
    }
    None
}

/// An index that bears the identifier, before which none does, is exactly
/// what `spec_find_map` returns.
pub proof fn lemma_find_map_at(maps: Seq<MapView>, identifier: u8, i: int)
    requires
        0 <= i < maps.len(),
        maps[i].identifier == identifier,
        forall|j: int| 0 <= j < i ==> maps[j].identifier != identifier,
    ensures
        spec_find_map(maps, identifier) == i,
    decreases maps.len(),
{
    if i > 0 {
        assert forall|j: int| 0 <= j < i - 1 implies maps.drop_first()[j].identifier
            != identifier by {
            assert(maps.drop_first()[j] == maps[j + 1]);
        }
        lemma_find_map_at(maps.drop_first(), identifier, i - 1);
    }
}

/// The occupied sprite cells of a map, row-major.
pub open spec fn spec_sprites_row_major(m: MapView) -> Seq<(u8, Seq<u8>)> {
    m.sprites.map_values(
        |row: Seq<Option<(u8, Seq<u8>)>>| row.filter(|c: Option<(u8, Seq<u8>)>| c is Some)
            .map_values(|c: Option<(u8, Seq<u8>)>| c->Some_0),
    ).flatten()
}

/// The sprite at `id`'s cell in the map collection: the cell of the first
/// map bearing `id.map`, `None` when no map does or the cell is empty.
pub open spec fn spec_sprite_at(maps: Seq<MapView>, m: u8, x: int, y: int) -> Option<(
    u8,
    Seq<u8>,
)> {
    let i = spec_find_map(maps, m);
    if i >= 0 {
        spec_cell(maps[i], x, y)
    } else {
        None
    }
}

impl WorldMap {
    /// The sprite cell at `(x, y)`, `None` outside the grid or where empty.
    pub fn sprite(&self, x: usize, y: usize) -> (r: Option<&SpriteData>)
        ensures
            match r {
                Some(sd) => spec_cell(self@, x as int, y as int) == Some(sd@),
                None => spec_cell(self@, x as int, y as int) is None,
            },
    {
        if y < self.sprites.len() {
            let row = &self.sprites[y];
            if x < row.len() {
                return row[x].as_ref();
            }
        }
        None
    }

    /// Overwrites the sprite cell at `(x, y)`.
    pub fn set_sprite(&mut self, x: usize, y: usize, sd: SpriteData)
        requires
            y < old(self).sprites@.len(),
            x < old(self).sprites@[y as int]@.len(),
        ensures
            final(self)@.identifier == old(self)@.identifier,
            final(self)@.tiles == old(self)@.tiles,
            final(self)@.sprites == old(self)@.sprites.update(
                y as int,
                old(self)@.sprites[y as int].update(x as int, Some(sd@)),
            ),
    {
        let ghost before = self@;
        self.sprites[y][x] = Some(sd);
        proof {
            assert(self@.sprites[y as int] =~= before.sprites[y as int].update(
                x as int,
                Some(sd@),
            ));
            assert(self@.sprites =~= before.sprites.update(
                y as int,
                before.sprites[y as int].update(x as int, Some(sd@)),
            ));
            assert(self@.tiles =~= before.tiles);
        }
    }

    /// Every tile of the grid, row-major.
    pub fn tiles(&self) -> (r: Vec<u8>)
        ensures
            r@ == self@.tiles.flatten(),
    {
        let mut out: Vec<u8> = Vec::new();
        let mut y: usize = 0;
        while y < self.tiles.len()
            invariant
                y <= self.tiles@.len(),
                out@ == self@.tiles.take(y as int).flatten(),
            decreases self.tiles@.len() - y,
        {
            let row = &self.tiles[y];
            let mut x: usize = 0;
            while x < row.len()
                invariant
                    x <= row@.len(),
                    row@ == self@.tiles[y as int],
                    y < self.tiles@.len(),
                    out@ == self@.tiles.take(y as int).flatten() + row@.take(x as int),
                decreases row@.len() - x,
            {
                out.push(row[x]);
                proof {
                    assert(row@.take(x + 1) =~= row@.take(x as int).push(row@[x as int]));
                }
                x = x + 1;
            }
            proof {
                let t = self@.tiles;
                assert(row@.take(row@.len() as int) =~= row@);
                assert(t.take(y + 1).drop_last() =~= t.take(y as int));
                assert(t.take(y + 1).last() == t[y as int]);
                t.take(y as int).lemma_flatten_and_flatten_alt_are_equivalent();
                t.take(y + 1).lemma_flatten_and_flatten_alt_are_equivalent();
                assert(t.take(y + 1).flatten() =~= t.take(y as int).flatten() + t[y as int]);
            }
            y = y + 1;
        }
        proof {
            assert(self@.tiles.take(self.tiles@.len() as int) =~= self@.tiles);
        }
        out
    }

    /// Every tile with its grid position, as `(x, y, tile)`, row-major.
    pub fn tiles_with_positions(&self) -> (r: Vec<(usize, usize, u8)>)
        ensures
            forall|k: int| 0 <= k < r@.len() ==> {
                let (x, y, t) = #[trigger] r@[k];
                0 <= y < self@.tiles.len() && 0 <= x < self@.tiles[y as int].len()
                    && t == self@.tiles[y as int][x as int]
            },
            forall|x: int, y: int|
                0 <= y < self@.tiles.len() && 0 <= x < self@.tiles[y].len()
                    ==> #[trigger] r@.contains(
                    (x as usize, y as usize, self@.tiles[y][x]),
                ),
            forall|k1: int, k2: int|
                0 <= k1 < k2 < r@.len() ==> (#[trigger] r@[k1]).1 < (#[trigger] r@[k2]).1 || (
                r@[k1].1 == r@[k2].1 && r@[k1].0 < r@[k2].0),
    {
        let mut out: Vec<(usize, usize, u8)> = Vec::new();
        let mut y: usize = 0;
        while y < self.tiles.len()
            invariant
                y <= self.tiles@.len(),
                forall|k: int| 0 <= k < out@.len() ==> {
                    let (x, yy, t) = #[trigger] out@[k];
                    0 <= yy < self@.tiles.len() && 0 <= x < self@.tiles[yy as int].len()
                        && t == self@.tiles[yy as int][x as int]
                },
                forall|k: int| 0 <= k < out@.len() ==> (#[trigger] out@[k]).1 < y,
                forall|k1: int, k2: int|
                    0 <= k1 < k2 < out@.len() ==> (#[trigger] out@[k1]).1 < (
                    #[trigger] out@[k2]).1 || (out@[k1].1 == out@[k2].1 && out@[k1].0
                        < out@[k2].0),
                forall|x: int, yy: int|
                    0 <= yy < y && 0 <= x < self@.tiles[yy].len() ==> #[trigger] out@.contains(
                        (x as usize, yy as usize, self@.tiles[yy][x]),
                    ),
            decreases self.tiles@.len() - y,
        {
            let row = &self.tiles[y];
            let mut x: usize = 0;
            while x < row.len()
                invariant
                    x <= row@.len(),
                    row@ == self@.tiles[y as int],
                    y < self.tiles@.len(),
                    forall|k: int| 0 <= k < out@.len() ==> {
                        let (xx, yy, t) = #[trigger] out@[k];
                        0 <= yy < self@.tiles.len() && 0 <= xx < self@.tiles[yy as int].len()
                            && t == self@.tiles[yy as int][xx as int]
                    },
                    forall|xx: int, yy: int|
                        0 <= yy < y && 0 <= xx < self@.tiles[yy].len()
                            ==> #[trigger] out@.contains(
                            (xx as usize, yy as usize, self@.tiles[yy][xx]),
                        ),
                    forall|xx: int|
                        0 <= xx < x ==> #[trigger] out@.contains(
                            (xx as usize, y as usize, self@.tiles[y as int][xx]),
                        ),
                    forall|k: int| 0 <= k < out@.len() ==> (#[trigger] out@[k]).1 < y || (
                    out@[k].1 == y && out@[k].0 < x),
                    forall|k1: int, k2: int|
                        0 <= k1 < k2 < out@.len() ==> (#[trigger] out@[k1]).1 < (
                        #[trigger] out@[k2]).1 || (out@[k1].1 == out@[k2].1 && out@[k1].0
                            < out@[k2].0),
                decreases row@.len() - x,
            {
                let ghost prev = out@;
                out.push((x, y, row[x]));
                proof {
                    assert forall|xx: int, yy: int|
                        0 <= yy < y && 0 <= xx < self@.tiles[yy].len() implies #[trigger]
                        out@.contains((xx as usize, yy as usize, self@.tiles[yy][xx])) by {
                        let e = (xx as usize, yy as usize, self@.tiles[yy][xx]);
                        assert(prev.contains(e));
                        let k = choose|k: int| 0 <= k < prev.len() && prev[k] == e;
                        assert(out@[k] == e);
                    }
                    assert forall|xx: int| 0 <= xx < x + 1 implies #[trigger] out@.contains(
                        (xx as usize, y as usize, self@.tiles[y as int][xx]),
                    ) by {
                        let e = (xx as usize, y as usize, self@.tiles[y as int][xx]);
                        if xx < x {
                            assert(prev.contains(e));
                            let k = choose|k: int| 0 <= k < prev.len() && prev[k] == e;
                            assert(out@[k] == e);
                        } else {
                            assert(out@[prev.len() as int] == e);
                        }
                    }
                }
                x = x + 1;
            }
            y = y + 1;
        }
        out
    }

    /// Every occupied sprite cell's record, row-major: exactly the grid's
    /// occupied cells, each once, rows in order and cells in order inside
    /// each row.
    pub fn sprites(&self) -> (r: Vec<SpriteData>)
        ensures
            r@.map_values(|sd: SpriteData| sd@) == spec_sprites_row_major(self@),
    {
        let ghost rows = self@.sprites.map_values(
            |row: Seq<Option<(u8, Seq<u8>)>>| row.filter(|c: Option<(u8, Seq<u8>)>| c is Some)
                .map_values(|c: Option<(u8, Seq<u8>)>| c->Some_0),
        );
        let mut out: Vec<SpriteData> = Vec::new();
        let mut y: usize = 0;
        proof {
            reveal(Seq::filter);
        }
        while y < self.sprites.len()
            invariant
                y <= self.sprites@.len(),
                rows == self@.sprites.map_values(
                    |row: Seq<Option<(u8, Seq<u8>)>>| row.filter(
                        |c: Option<(u8, Seq<u8>)>| c is Some,
                    ).map_values(|c: Option<(u8, Seq<u8>)>| c->Some_0),
                ),
                out@.map_values(|sd: SpriteData| sd@) == rows.take(y as int).flatten(),
            decreases self.sprites@.len() - y,
        {
            let row = &self.sprites[y];
            let mut x: usize = 0;
            while x < row.len()
                invariant
                    x <= row@.len(),
                    y < self.sprites@.len(),
                    row@.map_values(
                        |cell: Option<SpriteData>| match cell {
                            Some(sd) => Some(sd@),
                            None => None,
                        },
                    ) == self@.sprites[y as int],
                    rows == self@.sprites.map_values(
                        |r2: Seq<Option<(u8, Seq<u8>)>>| r2.filter(
                            |c: Option<(u8, Seq<u8>)>| c is Some,
                        ).map_values(|c: Option<(u8, Seq<u8>)>| c->Some_0),
                    ),
                    out@.map_values(|sd: SpriteData| sd@) == rows.take(y as int).flatten()
                        + self@.sprites[y as int].take(x as int).filter(
                        |c: Option<(u8, Seq<u8>)>| c is Some,
                    ).map_values(|c: Option<(u8, Seq<u8>)>| c->Some_0),
                decreases row@.len() - x,
            {
                proof {
                    reveal(Seq::filter);
                    let vrow = self@.sprites[y as int];
                    assert(vrow.take(x + 1).drop_last() =~= vrow.take(x as int));
                    assert(vrow.take(x + 1).last() == vrow[x as int]);
                    assert(vrow[x as int] == (match row@[x as int] {
                        Some(sd) => Some(sd@),
                        None => None,
                    }));
                }
                if let Some(sd) = &row[x] {
                    let ghost prev = out@;
                    out.push(sd.duplicate());
                    proof {
                        let vrow = self@.sprites[y as int];
                        assert(out@.map_values(|s: SpriteData| s@) =~= prev.map_values(
                            |s: SpriteData| s@,
                        ).push(sd@));
                        assert(vrow.take(x + 1).filter(
                            |c: Option<(u8, Seq<u8>)>| c is Some,
                        ).map_values(|c: Option<(u8, Seq<u8>)>| c->Some_0) =~= vrow.take(
                            x as int,
                        ).filter(|c: Option<(u8, Seq<u8>)>| c is Some).map_values(
                            |c: Option<(u8, Seq<u8>)>| c->Some_0,
                        ).push(sd@));
                    }
                }
                x = x + 1;
            }
            proof {
                let vrow = self@.sprites[y as int];
                assert(vrow.take(vrow.len() as int) =~= vrow);
                assert(rows[y as int] == vrow.filter(
                    |c: Option<(u8, Seq<u8>)>| c is Some,
                ).map_values(|c: Option<(u8, Seq<u8>)>| c->Some_0));
                assert(rows.take(y + 1).drop_last() =~= rows.take(y as int));
                assert(rows.take(y + 1).last() == rows[y as int]);
                rows.take(y as int).lemma_flatten_and_flatten_alt_are_equivalent();
                rows.take(y + 1).lemma_flatten_and_flatten_alt_are_equivalent();
                assert(rows.take(y + 1).flatten() =~= rows.take(y as int).flatten()
                    + rows[y as int]);
            }
            y = y + 1;
        }
        proof {
            assert(rows.take(rows.len() as int) =~= rows);
        }
        out
    }

    /// Every occupied sprite cell, as `(x, y, record)`, row-major. Distinct
    /// entries name distinct cells, each entry reads its cell, and every
    /// occupied cell has an entry.
    pub fn sprites_with_positions(&self) -> (r: Vec<(usize, usize, SpriteData)>)
        ensures
            forall|k: int| 0 <= k < r@.len() ==> {
                let (x, y, sd) = #[trigger] r@[k];
                spec_cell(self@, x as int, y as int) == Some(sd@)
            },
            forall|k1: int, k2: int| 0 <= k1 < k2 < r@.len()
                ==> !(#[trigger] r@[k1].0 == #[trigger] r@[k2].0 && r@[k1].1 == r@[k2].1),
            forall|x: int, y: int| (#[trigger] spec_cell(self@, x, y)) is Some ==> exists|k: int|
                0 <= k < r@.len() && r@[k].0 == x && r@[k].1 == y,
    {
        let mut out: Vec<(usize, usize, SpriteData)> = Vec::new();
        let mut y: usize = 0;
        while y < self.sprites.len()
            invariant
                y <= self.sprites@.len(),
                forall|k: int| 0 <= k < out@.len() ==> {
                    let (xx, yy, sd) = #[trigger] out@[k];
                    spec_cell(self@, xx as int, yy as int) == Some(sd@) && yy < y
                },
                forall|k1: int, k2: int| 0 <= k1 < k2 < out@.len()
                    ==> !(#[trigger] out@[k1].0 == #[trigger] out@[k2].0
                        && out@[k1].1 == out@[k2].1),
                forall|k1: int, k2: int|
                    0 <= k1 < k2 < out@.len() ==> (#[trigger] out@[k1]).1 < (
                    #[trigger] out@[k2]).1 || (out@[k1].1 == out@[k2].1 && out@[k1].0
                        < out@[k2].0),
                forall|xx: int, yy: int|
                    0 <= yy < y && (#[trigger] spec_cell(self@, xx, yy)) is Some
                        ==> exists|k: int|
                        0 <= k < out@.len() && out@[k].0 == xx && out@[k].1 == yy,
            decreases self.sprites@.len() - y,
        {
            let row = &self.sprites[y];
            let mut x: usize = 0;
            while x < row.len()
                invariant
                    x <= row@.len(),
                    y < self.sprites@.len(),
                    row@.map_values(
                        |cell: Option<SpriteData>| match cell {
                            Some(sd) => Some(sd@),
                            None => None,
                        },
                    ) == self@.sprites[y as int],
                    forall|k: int| 0 <= k < out@.len() ==> {
                        let (xx, yy, sd) = #[trigger] out@[k];
                        spec_cell(self@, xx as int, yy as int) == Some(sd@)
                            && (yy < y || (yy == y && xx < x))
                    },
                    forall|k1: int, k2: int| 0 <= k1 < k2 < out@.len()
                        ==> !(#[trigger] out@[k1].0 == #[trigger] out@[k2].0
                            && out@[k1].1 == out@[k2].1),
                    forall|k1: int, k2: int|
                        0 <= k1 < k2 < out@.len() ==> (#[trigger] out@[k1]).1 < (
                        #[trigger] out@[k2]).1 || (out@[k1].1 == out@[k2].1 && out@[k1].0
                            < out@[k2].0),
                    forall|xx: int, yy: int|
                        0 <= yy < y && (#[trigger] spec_cell(self@, xx, yy)) is Some
                            ==> exists|k: int|
                            0 <= k < out@.len() && out@[k].0 == xx && out@[k].1 == yy,
                    forall|xx: int|
                        0 <= xx < x && (#[trigger] spec_cell(self@, xx, y as int)) is Some
                            ==> exists|k: int|
                            0 <= k < out@.len() && out@[k].0 == xx && out@[k].1 == y,
                decreases row@.len() - x,
            {
                let ghost prev = out@;
                if let Some(sd) = &row[x] {
                    out.push((x, y, sd.duplicate()));
                }
                proof {
                    assert(self@.sprites[y as int][x as int] == (match row@[x as int] {
                        Some(sd) => Some(sd@),
                        None => None,
                    }));
                    assert forall|xx: int, yy: int|
                        (0 <= yy < y || (yy == y && 0 <= xx < x)) && (#[trigger] spec_cell(
                            self@,
                            xx,
                            yy,
                        )) is Some implies exists|k: int|
                        0 <= k < out@.len() && out@[k].0 == xx && out@[k].1 == yy by {
                        let k = choose|k: int|
                            0 <= k < prev.len() && prev[k].0 == xx && prev[k].1 == yy;
                        assert(out@[k].0 == xx && out@[k].1 == yy);
                    }
                    if row@[x as int] is Some {
                        assert(out@[prev.len() as int].0 == x
                            && out@[prev.len() as int].1 == y);
                    }
                }
                x = x + 1;
            }
            y = y + 1;
        }
        out
    }
}

/// How many records of a row-major sprite listing decode to this kind.
pub open spec fn spec_kind_count(s: Seq<(u8, Seq<u8>)>, target: crate::sprite::Sprite) -> nat
    decreases s.len(),
{
    if s.len() == 0 {
        0
    } else {
        spec_kind_count(s.drop_last(), target) + (
        if crate::sprite::Sprite::spec_of_kind(s.last().0) == target {
            1nat
        } else {
            0nat
        })
    }
}

/// The tally a stats list records for this many occurrences: it saturates
/// at the largest byte.
pub open spec fn spec_stat_value(n: nat) -> u8 {
    if n < 255 {
        n as u8
    } else {
        255u8
    }
}

/// The list holds exactly the saturated tally of this collectible: no entry
/// when the map has none, and one entry bearing the tally otherwise.
pub open spec fn collectible_tally_ok(
    entries: Seq<(crate::sprite::Collectible, u8)>,
    s: Seq<(u8, Seq<u8>)>,
    c: crate::sprite::Collectible,
) -> bool {
    let n = spec_kind_count(s, crate::sprite::Sprite::Collectible(c));
    &&& (n == 0 <==> forall|i: int| 0 <= i < entries.len() ==> (#[trigger] entries[i]).0 != c)
    &&& (n > 0 ==> exists|i: int|
        0 <= i < entries.len() && #[trigger] entries[i] == (c, spec_stat_value(n)))
}

/// The list holds exactly the saturated tally of this gear item.
pub open spec fn gear_tally_ok(
    entries: Seq<(crate::sprite::Gear, u8)>,
    s: Seq<(u8, Seq<u8>)>,
    g: crate::sprite::Gear,
) -> bool {
    let n = spec_kind_count(s, crate::sprite::Sprite::Gear(g));
    &&& (n == 0 <==> forall|i: int| 0 <= i < entries.len() ==> (#[trigger] entries[i]).0 != g)
    &&& (n > 0 ==> exists|i: int|
        0 <= i < entries.len() && #[trigger] entries[i] == (g, spec_stat_value(n)))
}

/// The list holds exactly the saturated tally of this enemy.
pub open spec fn enemy_tally_ok(
    entries: Seq<(crate::sprite::Enemy, u8)>,
    s: Seq<(u8, Seq<u8>)>,
    e: crate::sprite::Enemy,
) -> bool {
    let n = spec_kind_count(s, crate::sprite::Sprite::Enemy(e));
    &&& (n == 0 <==> forall|i: int| 0 <= i < entries.len() ==> (#[trigger] entries[i]).0 != e)
    &&& (n > 0 ==> exists|i: int|
        0 <= i < entries.len() && #[trigger] entries[i] == (e, spec_stat_value(n)))
}

/// One record extends the tally of its own kind and of no other.
proof fn lemma_kind_count_step(s: Seq<(u8, Seq<u8>)>, k: int, target: crate::sprite::Sprite)
    requires
        0 <= k < s.len(),
    ensures
        spec_kind_count(s.take(k + 1), target) == spec_kind_count(s.take(k), target) + (
        if crate::sprite::Sprite::spec_of_kind(s[k].0) == target {
            1nat
        } else {
            0nat
        }),
{
    assert(s.take(k + 1).drop_last() =~= s.take(k));
    assert(s.take(k + 1).last() == s[k]);
}

/// Per-kind sprite counts of one map, each kind listed once.
pub struct SpriteStats {
    pub collectibles: Vec<(crate::sprite::Collectible, u8)>,
    pub gear: Vec<(crate::sprite::Gear, u8)>,
    pub enemies: Vec<(crate::sprite::Enemy, u8)>,
}

/// The position of a collectible key in a count list.
fn find_collectible(
    v: &Vec<(crate::sprite::Collectible, u8)>,
    key: crate::sprite::Collectible,
) -> (r: Option<usize>)
    ensures
        match r {
            Some(i) => i < v@.len() && v@[i as int].0 == key,
            None => forall|a: int| 0 <= a < v@.len() ==> (#[trigger] v@[a]).0 != key,
        },
{
    let mut i: usize = 0;
    while i < v.len()
        invariant
            i <= v@.len(),
            forall|a: int| 0 <= a < i ==> (#[trigger] v@[a]).0 != key,
        decreases v@.len() - i,
    {
        if v[i].0 == key {
            return Some(i);
        }
        i = i + 1;
    }
    None
}

/// The position of a gear key in a count list.
fn find_gear(v: &Vec<(crate::sprite::Gear, u8)>, key: crate::sprite::Gear) -> (r: Option<usize>)
    ensures
        match r {
            Some(i) => i < v@.len() && v@[i as int].0 == key,
            None => forall|a: int| 0 <= a < v@.len() ==> (#[trigger] v@[a]).0 != key,
        },
{
    let mut i: usize = 0;
    while i < v.len()
        invariant
            i <= v@.len(),
            forall|a: int| 0 <= a < i ==> (#[trigger] v@[a]).0 != key,
        decreases v@.len() - i,
    {
        if v[i].0 == key {
            return Some(i);
        }
        i = i + 1;
    }
    None
}

/// The position of an enemy key in a count list.
fn find_enemy(
    v: &Vec<(crate::sprite::Enemy, u8)>,
    key: crate::sprite::Enemy,
) -> (r: Option<usize>)
    ensures
        match r {
            Some(i) => i < v@.len() && v@[i as int].0 == key,
            None => forall|a: int| 0 <= a < v@.len() ==> (#[trigger] v@[a]).0 != key,
        },
{
    let mut i: usize = 0;
    while i < v.len()
        invariant
            i <= v@.len(),
            forall|a: int| 0 <= a < i ==> (#[trigger] v@[a]).0 != key,
        decreases v@.len() - i,
    {
        if v[i].0 == key {
            return Some(i);
        }
        i = i + 1;
    }
    None
}

impl WorldMap {
    /// Counts this map's collectibles, gear and enemies by kind; counts
    /// saturate at the field width.
    pub fn stats(&self) -> (r: SpriteStats)
        ensures
            forall|i: int, j: int|
                0 <= i < j < r.collectibles@.len() ==> (#[trigger] r.collectibles@[i]).0 != (
                #[trigger] r.collectibles@[j]).0,
            forall|i: int, j: int|
                0 <= i < j < r.gear@.len() ==> (#[trigger] r.gear@[i]).0 != (
                #[trigger] r.gear@[j]).0,
            forall|i: int, j: int|
                0 <= i < j < r.enemies@.len() ==> (#[trigger] r.enemies@[i]).0 != (
                #[trigger] r.enemies@[j]).0,
            forall|c: crate::sprite::Collectible| #[trigger] collectible_tally_ok(
                r.collectibles@,
                spec_sprites_row_major(self@),
                c,
            ),
            forall|g: crate::sprite::Gear| #[trigger] gear_tally_ok(
                r.gear@,
                spec_sprites_row_major(self@),
                g,
            ),
            forall|e: crate::sprite::Enemy| #[trigger] enemy_tally_ok(
                r.enemies@,
                spec_sprites_row_major(self@),
                e,
            ),
    {
        let records = self.sprites();
        let ghost rmv = spec_sprites_row_major(self@);
        let mut collectibles: Vec<(crate::sprite::Collectible, u8)> = Vec::new();
        let mut gear: Vec<(crate::sprite::Gear, u8)> = Vec::new();
        let mut enemies: Vec<(crate::sprite::Enemy, u8)> = Vec::new();
        let mut k: usize = 0;
        while k < records.len()
            invariant
                k <= records@.len(),
                records@.map_values(|sd: SpriteData| sd@) == rmv,
                rmv == spec_sprites_row_major(self@),
                forall|i: int, j: int|
                    0 <= i < j < collectibles@.len() ==> (#[trigger] collectibles@[i]).0 != (
                    #[trigger] collectibles@[j]).0,
                forall|i: int, j: int|
                    0 <= i < j < gear@.len() ==> (#[trigger] gear@[i]).0 != (
                    #[trigger] gear@[j]).0,
                forall|i: int, j: int|
                    0 <= i < j < enemies@.len() ==> (#[trigger] enemies@[i]).0 != (
                    #[trigger] enemies@[j]).0,
                forall|c: crate::sprite::Collectible| #[trigger] collectible_tally_ok(
                    collectibles@,
                    rmv.take(k as int),
                    c,
                ),
                forall|g2: crate::sprite::Gear| #[trigger] gear_tally_ok(
                    gear@,
                    rmv.take(k as int),
                    g2,
                ),
                forall|e2: crate::sprite::Enemy| #[trigger] enemy_tally_ok(
                    enemies@,
                    rmv.take(k as int),
                    e2,
                ),
            decreases records@.len() - k,
        {
            proof {
                assert(rmv[k as int] == records@[k as int]@);
            }
            let ghost coll0 = collectibles@;
            let ghost gear0 = gear@;
            let ghost enem0 = enemies@;
            match crate::sprite::Sprite::of_kind(records[k].kind) {
                crate::sprite::Sprite::Collectible(c) => {
                    match find_collectible(&collectibles, c) {
                        Some(i) => {
                            let n = collectibles[i].1;
                            let bumped = if n < 255 { n + 1 } else { n };
                            collectibles[i] = (c, bumped);
                            proof {
                                assert forall|a: int, b: int|
                                    0 <= a < b < collectibles@.len() implies (
                                #[trigger] collectibles@[a]).0 != (
                                #[trigger] collectibles@[b]).0 by {
                                    assert(coll0[a].0 != coll0[b].0);
                                }
                                assert forall|d: crate::sprite::Collectible|
                                    #[trigger] collectible_tally_ok(
                                    collectibles@,
                                    rmv.take(k as int + 1),
                                    d,
                                ) by {
                                    lemma_kind_count_step(
                                        rmv,
                                        k as int,
                                        crate::sprite::Sprite::Collectible(d),
                                    );
                                    let n0 = spec_kind_count(
                                        rmv.take(k as int),
                                        crate::sprite::Sprite::Collectible(d),
                                    );
                                    assert(collectible_tally_ok(coll0, rmv.take(k as int), d));
                                    if d == c {
                                        assert(coll0[i as int].0 == c);
                                        assert(n0 > 0);
                                        let iw = choose|iw: int|
                                            0 <= iw < coll0.len() && #[trigger] coll0[iw] == (
                                            c,
                                            spec_stat_value(n0),
                                        );
                                        if iw != i {
                                            if iw < i {
                                                assert(coll0[iw].0 != coll0[i as int].0);
                                            } else {
                                                assert(coll0[i as int].0 != coll0[iw].0);
                                            }
                                        }
                                        assert(coll0[i as int].1 == spec_stat_value(n0));
                                        assert(collectibles@[i as int] == (c, bumped));
                                        assert(bumped == spec_stat_value(n0 + 1));
                                    } else {
                                        assert(collectibles@.len() == coll0.len());
                                        assert(collectibles@[i as int].0 == c);
                                        if n0 > 0 {
                                            let iw = choose|iw: int|
                                                0 <= iw < coll0.len() && #[trigger] coll0[iw]
                                                    == (d, spec_stat_value(n0));
                                            assert(iw != i);
                                            assert(collectibles@[iw] == (
                                                d,
                                                spec_stat_value(n0),
                                            ));
                                        } else {
                                            assert forall|a: int|
                                                0 <= a < collectibles@.len() implies (
                                            #[trigger] collectibles@[a]).0 != d by {
                                                if a != i {
                                                    assert(collectibles@[a] == coll0[a]);
                                                    assert(coll0[a].0 != d);
                                                }
                                            }
                                        }
                                    }
                                }
                            }
                        },
                        None => {
                            collectibles.push((c, 1));
                            proof {
                                assert forall|d: crate::sprite::Collectible|
                                    #[trigger] collectible_tally_ok(
                                    collectibles@,
                                    rmv.take(k as int + 1),
                                    d,
                                ) by {
                                    lemma_kind_count_step(
                                        rmv,
                                        k as int,
                                        crate::sprite::Sprite::Collectible(d),
                                    );
                                    let n0 = spec_kind_count(
                                        rmv.take(k as int),
                                        crate::sprite::Sprite::Collectible(d),
                                    );
                                    assert(collectible_tally_ok(coll0, rmv.take(k as int), d));
                                    assert(collectibles@ == coll0.push((c, 1u8)));
                                    if d == c {
                                        assert(n0 == 0);
                                        assert(collectibles@[coll0.len() as int] == (c, 1u8));
                                        assert(spec_stat_value(1) == 1u8);
                                    } else {
                                        if n0 > 0 {
                                            let iw = choose|iw: int|
                                                0 <= iw < coll0.len() && #[trigger] coll0[iw]
                                                    == (d, spec_stat_value(n0));
                                            assert(collectibles@[iw] == coll0[iw]);
                                        } else {
                                            assert forall|a: int|
                                                0 <= a < collectibles@.len() implies (
                                            #[trigger] collectibles@[a]).0 != d by {
                                                if a < coll0.len() {
                                                    assert(collectibles@[a] == coll0[a]);
                                                    assert(coll0[a].0 != d);
                                                } else {
                                                    assert(collectibles@[a] == (c, 1u8));
                                                }
                                            }
                                        }
                                    }
                                }
                            }
                        },
                    }
                    proof {
                        assert forall|g2: crate::sprite::Gear| #[trigger] gear_tally_ok(
                            gear@,
                            rmv.take(k as int + 1),
                            g2,
                        ) by {
                            lemma_kind_count_step(
                                rmv,
                                k as int,
                                crate::sprite::Sprite::Gear(g2),
                            );
                            assert(gear_tally_ok(gear@, rmv.take(k as int), g2));
                        }
                        assert forall|e2: crate::sprite::Enemy| #[trigger] enemy_tally_ok(
                            enemies@,
                            rmv.take(k as int + 1),
                            e2,
                        ) by {
                            lemma_kind_count_step(
                                rmv,
                                k as int,
                                crate::sprite::Sprite::Enemy(e2),
                            );
                            assert(enemy_tally_ok(enemies@, rmv.take(k as int), e2));
                        }
                    }
                },
                crate::sprite::Sprite::Gear(g) => {
                    match find_gear(&gear, g) {
                        Some(i) => {
                            let n = gear[i].1;
                            let bumped = if n < 255 { n + 1 } else { n };
                            gear[i] = (g, bumped);
                            proof {
                                assert forall|a: int, b: int|
                                    0 <= a < b < gear@.len() implies (#[trigger] gear@[a]).0
                                    != (#[trigger] gear@[b]).0 by {
                                    assert(gear0[a].0 != gear0[b].0);
                                }
                                assert forall|d: crate::sprite::Gear| #[trigger] gear_tally_ok(
                                    gear@,
                                    rmv.take(k as int + 1),
                                    d,
                                ) by {
                                    lemma_kind_count_step(
                                        rmv,
                                        k as int,
                                        crate::sprite::Sprite::Gear(d),
                                    );
                                    let n0 = spec_kind_count(
                                        rmv.take(k as int),
                                        crate::sprite::Sprite::Gear(d),
                                    );
                                    assert(gear_tally_ok(gear0, rmv.take(k as int), d));
                                    if d == g {
                                        assert(gear0[i as int].0 == g);
                                        assert(n0 > 0);
                                        let iw = choose|iw: int|
                                            0 <= iw < gear0.len() && #[trigger] gear0[iw] == (
                                            g,
                                            spec_stat_value(n0),
                                        );
                                        if iw != i {
                                            if iw < i {
                                                assert(gear0[iw].0 != gear0[i as int].0);
                                            } else {
                                                assert(gear0[i as int].0 != gear0[iw].0);
                                            }
                                        }
                                        assert(gear0[i as int].1 == spec_stat_value(n0));
                                        assert(gear@[i as int] == (g, bumped));
                                        assert(bumped == spec_stat_value(n0 + 1));
                                    } else {
                                        assert(gear@.len() == gear0.len());
                                        assert(gear@[i as int].0 == g);
                                        if n0 > 0 {
                                            let iw = choose|iw: int|
                                                0 <= iw < gear0.len() && #[trigger] gear0[iw]
                                                    == (d, spec_stat_value(n0));
                                            assert(iw != i);
                                            assert(gear@[iw] == (d, spec_stat_value(n0)));
                                        } else {
                                            assert forall|a: int|
                                                0 <= a < gear@.len() implies (
                                            #[trigger] gear@[a]).0 != d by {
                                                if a != i {
                                                    assert(gear@[a] == gear0[a]);
                                                    assert(gear0[a].0 != d);
                                                }
                                            }
                                        }
                                    }
                                }
                            }
                        },
                        None => {
                            gear.push((g, 1));
                            proof {
                                assert forall|d: crate::sprite::Gear| #[trigger] gear_tally_ok(
                                    gear@,
                                    rmv.take(k as int + 1),
                                    d,
                                ) by {
                                    lemma_kind_count_step(
                                        rmv,
                                        k as int,
                                        crate::sprite::Sprite::Gear(d),
                                    );
                                    let n0 = spec_kind_count(
                                        rmv.take(k as int),
                                        crate::sprite::Sprite::Gear(d),
                                    );
                                    assert(gear_tally_ok(gear0, rmv.take(k as int), d));
                                    assert(gear@ == gear0.push((g, 1u8)));
                                    if d == g {
                                        assert(n0 == 0);
                                        assert(gear@[gear0.len() as int] == (g, 1u8));
                                        assert(spec_stat_value(1) == 1u8);
                                    } else {
                                        if n0 > 0 {
                                            let iw = choose|iw: int|
                                                0 <= iw < gear0.len() && #[trigger] gear0[iw]
                                                    == (d, spec_stat_value(n0));
                                            assert(gear@[iw] == gear0[iw]);
                                        } else {
                                            assert forall|a: int|
                                                0 <= a < gear@.len() implies (
                                            #[trigger] gear@[a]).0 != d by {
                                                if a < gear0.len() {
                                                    assert(gear@[a] == gear0[a]);
                                                    assert(gear0[a].0 != d);
                                                } else {
                                                    assert(gear@[a] == (g, 1u8));
                                                }
                                            }
                                        }
                                    }
                                }
                            }
                        },
                    }
                    proof {
                        assert forall|d: crate::sprite::Collectible|
                            #[trigger] collectible_tally_ok(
                            collectibles@,
                            rmv.take(k as int + 1),
                            d,
                        ) by {
                            lemma_kind_count_step(
                                rmv,
                                k as int,
                                crate::sprite::Sprite::Collectible(d),
                            );
                            assert(collectible_tally_ok(collectibles@, rmv.take(k as int), d));
                        }
                        assert forall|e2: crate::sprite::Enemy| #[trigger] enemy_tally_ok(
                            enemies@,
                            rmv.take(k as int + 1),
                            e2,
                        ) by {
                            lemma_kind_count_step(
                                rmv,
                                k as int,
                                crate::sprite::Sprite::Enemy(e2),
                            );
                            assert(enemy_tally_ok(enemies@, rmv.take(k as int), e2));
                        }
                    }
                },
                crate::sprite::Sprite::Enemy(e) => {
                    match find_enemy(&enemies, e) {
                        Some(i) => {
                            let n = enemies[i].1;
                            let bumped = if n < 255 { n + 1 } else { n };
                            enemies[i] = (e, bumped);
                            proof {
                                assert forall|a: int, b: int|
                                    0 <= a < b < enemies@.len() implies (
                                #[trigger] enemies@[a]).0 != (#[trigger] enemies@[b]).0 by {
                                    assert(enem0[a].0 != enem0[b].0);
                                }
                                assert forall|d: crate::sprite::Enemy| #[trigger] enemy_tally_ok(
                                    enemies@,
                                    rmv.take(k as int + 1),
                                    d,
                                ) by {
                                    lemma_kind_count_step(
                                        rmv,
                                        k as int,
                                        crate::sprite::Sprite::Enemy(d),
                                    );
                                    let n0 = spec_kind_count(
                                        rmv.take(k as int),
                                        crate::sprite::Sprite::Enemy(d),
                                    );
                                    assert(enemy_tally_ok(enem0, rmv.take(k as int), d));
                                    if d == e {
                                        assert(enem0[i as int].0 == e);
                                        assert(n0 > 0);
                                        let iw = choose|iw: int|
                                            0 <= iw < enem0.len() && #[trigger] enem0[iw] == (
                                            e,
                                            spec_stat_value(n0),
                                        );
                                        if iw != i {
                                            if iw < i {
                                                assert(enem0[iw].0 != enem0[i as int].0);
                                            } else {
                                                assert(enem0[i as int].0 != enem0[iw].0);
                                            }
                                        }
                                        assert(enem0[i as int].1 == spec_stat_value(n0));
                                        assert(enemies@[i as int] == (e, bumped));
                                        assert(bumped == spec_stat_value(n0 + 1));
                                    } else {
                                        assert(enemies@.len() == enem0.len());
                                        assert(enemies@[i as int].0 == e);
                                        if n0 > 0 {
                                            let iw = choose|iw: int|
                                                0 <= iw < enem0.len() && #[trigger] enem0[iw]
                                                    == (d, spec_stat_value(n0));
                                            assert(iw != i);
                                            assert(enemies@[iw] == (d, spec_stat_value(n0)));
                                        } else {
                                            assert forall|a: int|
                                                0 <= a < enemies@.len() implies (
                                            #[trigger] enemies@[a]).0 != d by {
                                                if a != i {
                                                    assert(enemies@[a] == enem0[a]);
                                                    assert(enem0[a].0 != d);
                                                }
                                            }
                                        }
                                    }
                                }
                            }
                        },
                        None => {
                            enemies.push((e, 1));
                            proof {
                                assert forall|d: crate::sprite::Enemy| #[trigger] enemy_tally_ok(
                                    enemies@,
                                    rmv.take(k as int + 1),
                                    d,
                                ) by {
                                    lemma_kind_count_step(
                                        rmv,
                                        k as int,
                                        crate::sprite::Sprite::Enemy(d),
                                    );
                                    let n0 = spec_kind_count(
                                        rmv.take(k as int),
                                        crate::sprite::Sprite::Enemy(d),
                                    );
                                    assert(enemy_tally_ok(enem0, rmv.take(k as int), d));
                                    assert(enemies@ == enem0.push((e, 1u8)));
                                    if d == e {
                                        assert(n0 == 0);
                                        assert(enemies@[enem0.len() as int] == (e, 1u8));
                                        assert(spec_stat_value(1) == 1u8);
                                    } else {
                                        if n0 > 0 {
                                            let iw = choose|iw: int|
                                                0 <= iw < enem0.len() && #[trigger] enem0[iw]
                                                    == (d, spec_stat_value(n0));
                                            assert(enemies@[iw] == enem0[iw]);
                                        } else {
                                            assert forall|a: int|
                                                0 <= a < enemies@.len() implies (
                                            #[trigger] enemies@[a]).0 != d by {
                                                if a < enem0.len() {
                                                    assert(enemies@[a] == enem0[a]);
                                                    assert(enem0[a].0 != d);
                                                } else {
                                                    assert(enemies@[a] == (e, 1u8));
                                                }
                                            }
                                        }
                                    }
                                }
                            }
                        },
                    }
                    proof {
                        assert forall|d: crate::sprite::Collectible|
                            #[trigger] collectible_tally_ok(
                            collectibles@,
                            rmv.take(k as int + 1),
                            d,
                        ) by {
                            lemma_kind_count_step(
                                rmv,
                                k as int,
                                crate::sprite::Sprite::Collectible(d),
                            );
                            assert(collectible_tally_ok(collectibles@, rmv.take(k as int), d));
                        }
                        assert forall|g2: crate::sprite::Gear| #[trigger] gear_tally_ok(
                            gear@,
                            rmv.take(k as int + 1),
                            g2,
                        ) by {
                            lemma_kind_count_step(
                                rmv,
                                k as int,
                                crate::sprite::Sprite::Gear(g2),
                            );
                            assert(gear_tally_ok(gear@, rmv.take(k as int), g2));
                        }
                    }
                },
                _ => {
                    proof {
                        assert forall|d: crate::sprite::Collectible|
                            #[trigger] collectible_tally_ok(
                            collectibles@,
                            rmv.take(k as int + 1),
                            d,
                        ) by {
                            lemma_kind_count_step(
                                rmv,
                                k as int,
                                crate::sprite::Sprite::Collectible(d),
                            );
                            assert(collectible_tally_ok(collectibles@, rmv.take(k as int), d));
                        }
                        assert forall|g2: crate::sprite::Gear| #[trigger] gear_tally_ok(
                            gear@,
                            rmv.take(k as int + 1),
                            g2,
                        ) by {
                            lemma_kind_count_step(
                                rmv,
                                k as int,
                                crate::sprite::Sprite::Gear(g2),
                            );
                            assert(gear_tally_ok(gear@, rmv.take(k as int), g2));
                        }
                        assert forall|e2: crate::sprite::Enemy| #[trigger] enemy_tally_ok(
                            enemies@,
                            rmv.take(k as int + 1),
                            e2,
                        ) by {
                            lemma_kind_count_step(
                                rmv,
                                k as int,
                                crate::sprite::Sprite::Enemy(e2),
                            );
                            assert(enemy_tally_ok(enemies@, rmv.take(k as int), e2));
                        }
                    }
                },
            }
            k = k + 1;
        }
        proof {
            assert(rmv.take(records@.len() as int) =~= spec_sprites_row_major(self@));
            assert forall|c: crate::sprite::Collectible| #[trigger] collectible_tally_ok(
                collectibles@,
                spec_sprites_row_major(self@),
                c,
            ) by {
                assert(collectible_tally_ok(collectibles@, rmv.take(k as int), c));
            }
            assert forall|g2: crate::sprite::Gear| #[trigger] gear_tally_ok(
                gear@,
                spec_sprites_row_major(self@),
                g2,
            ) by {
                assert(gear_tally_ok(gear@, rmv.take(k as int), g2));
            }
            assert forall|e2: crate::sprite::Enemy| #[trigger] enemy_tally_ok(
                enemies@,
                spec_sprites_row_major(self@),
                e2,
            ) by {
                assert(enemy_tally_ok(enemies@, rmv.take(k as int), e2));
            }
        }
        SpriteStats { collectibles, gear, enemies }
    }
}

/// Encodes one map back into its byte form: a three-byte header, the tile
/// grid packed seven bits per tile with the per-byte bit scramble the game
/// expects, then every sprite record with its position.
pub fn encode_map(map: &WorldMap) -> (r: Vec<u8>)
    requires
        0 < map.tiles@.len() <= 255,
        forall|y: int| 0 <= y < map.tiles@.len() ==> (#[trigger] map.tiles@[y])@.len()
            == map.tiles@[0]@.len(),
        map.tiles@[0]@.len() <= 255,
        map.sprites@.len() <= 255,
        forall|y: int| 0 <= y < map.sprites@.len() ==> (#[trigger] map.sprites@[y])@.len() <= 255,
    ensures
        r@.len() >= 3,
        r@[0] == map@.identifier,
        r@[1] == map.tiles@[0]@.len() as u8,
        r@[2] == map.tiles@.len() as u8,
{
    let mut bytes: Vec<u8> = Vec::new();
    bytes.push(map.identifier);
    let width = map.tiles[0].len();
    let height = map.tiles.len();
    bytes.push(width as u8);
    bytes.push(height as u8);
    let flat = map.tiles();
    proof {
        crate::world::lemma_uniform_flatten_len(map@.tiles);
        assert(map.tiles@.len() * map.tiles@[0]@.len() <= 65025) by (nonlinear_arith)
            requires
                map.tiles@.len() <= 255,
                map.tiles@[0]@.len() <= 255,
        ;
        assert(map@.tiles.len() == map.tiles@.len());
        assert(map@.tiles[0] == map.tiles@[0]@);
        assert(flat@.len() <= 65025);
    }
    let mut bits: Vec<bool> = Vec::new();
    let mut t: usize = 0;
    while t < flat.len()
        invariant
            t <= flat@.len(),
            flat@.len() <= 65025,
            bits@.len() == 7 * t,
        decreases flat@.len() - t,
    {
        let tile = flat[t];
        let mut b: usize = 0;
        while b < 7
            invariant
                b <= 7,
                t < flat@.len() <= 65025,
                bits@.len() == 7 * t + b,
            decreases 7 - b,
        {
            let shift: u8 = (6 - b) as u8;
            bits.push((tile >> shift) & 1 == 1);
            b = b + 1;
        }
        t = t + 1;
    }
    let total = bits.len();
    let mut index: usize = 0;
    let ghost header = bytes@;
    while index * 8 < total
        invariant
            index <= total,
            total == bits@.len() <= 455175,
            bytes@.len() >= 3,
            bytes@[0] == header[0] && bytes@[1] == header[1] && bytes@[2] == header[2],
            header.len() == 3,
        decreases total + 8 - index * 8,
    {
        let mut chunk: Vec<bool> = Vec::new();
        let mut b: usize = 0;
        while b < 8
            invariant
                b <= 8,
                chunk@.len() == b,
                index * 8 < total == bits@.len(),
            decreases 8 - b,
        {
            let at = index * 8 + b;
            chunk.push(
                if at < bits.len() {
                    bits[at]
                } else {
                    false
                },
            );
            b = b + 1;
        }
        let mut byte: u8 = 0;
        let mut remaining: usize = 8;
        while remaining > 0
            invariant
                remaining <= 8,
                chunk@.len() == remaining,
                index * 8 < total <= 455175,
            decreases remaining,
        {
            let bit_index = remaining - 1;
            let position = ((10963 * (map.identifier as usize)) + index * 8) % (1 + bit_index);
            let bit = chunk.remove(position);
            if bit {
                byte = byte | ((1u8) << (bit_index as u8));
            }
            remaining = remaining - 1;
        }
        bytes.push(byte);
        index = index + 1;
    }
    let cells = map.sprites_with_positions();
    let mut c: usize = 0;
    while c < cells.len()
        invariant
            bytes@.len() >= 3,
            bytes@[0] == header[0] && bytes@[1] == header[1] && bytes@[2] == header[2],
            header.len() == 3,
            forall|k: int| 0 <= k < cells@.len() ==> {
                let (x, y, sd) = #[trigger] cells@[k];
                spec_cell(map@, x as int, y as int) == Some(sd@)
            },
        decreases cells@.len() - c,
    {
        let (x, y, sd) = &cells[c];
        bytes.push(sd.kind);
        proof {
            assert(spec_cell(map@, cells@[c as int].0 as int, cells@[c as int].1 as int)
                is Some);
        }
        bytes.push((*x) as u8);
        bytes.push((*y) as u8);
        let mut e: usize = 0;
        while e < sd.extra_bytes.len()
            invariant
                bytes@.len() >= 3,
                bytes@[0] == header[0] && bytes@[1] == header[1] && bytes@[2] == header[2],
                header.len() == 3,
            decreases sd.extra_bytes@.len() - e,
        {
            bytes.push(sd.extra_bytes[e]);
            e = e + 1;
        }
        c = c + 1;
    }
    bytes
}

/// A uniform grid flattens to rows times columns entries.
pub proof fn lemma_uniform_flatten_len(rows: Seq<Seq<u8>>)
    requires
        forall|y: int| 0 <= y < rows.len() ==> (#[trigger] rows[y]).len() == rows[0].len(),
    ensures
        rows.len() > 0 ==> rows.flatten().len() == rows.len() * rows[0].len(),
        rows.len() == 0 ==> rows.flatten().len() == 0,
    decreases rows.len(),
{
    if rows.len() > 0 {
        assert(rows.flatten() == rows.first() + rows.drop_first().flatten());
        if rows.len() == 1 {
            assert(rows.drop_first().len() == 0);
            assert(rows.drop_first().flatten().len() == 0);
            assert(rows.flatten().len() == rows[0].len());
            let w = rows[0].len();
            assert(1 * w == w) by (nonlinear_arith);
        } else {
            assert forall|y: int| 0 <= y < rows.drop_first().len() implies (
            #[trigger] rows.drop_first()[y]).len() == rows.drop_first()[0].len() by {
                assert(rows.drop_first()[y] == rows[y + 1]);
                assert(rows.drop_first()[0] == rows[1]);
            }
            lemma_uniform_flatten_len(rows.drop_first());
            assert(rows.drop_first()[0].len() == rows[0].len());
            assert(rows.flatten().len() == rows[0].len() + (rows.len() - 1) * rows[0].len());
            let w = rows[0].len();
            let n = rows.len();
            assert(w + (n - 1) * w == n * w) by (nonlinear_arith);
        }
    }
}

/// The human name of a map identifier; identifiers without a defined name
/// read as unknown.
pub fn map_name(identifier: u8) -> (r: &'static str)
    ensures
        identifier == 1 ==> r@ == "DustShelf"@,
        identifier == 2 ==> r@ == "ThroneRoom"@,
        identifier == 4 ==> r@ == "ExplodingThroneRoom"@,
        identifier == 5 ==> r@ == "CastleRuins"@,
        identifier == 6 ==> r@ == "NorthMundeman"@,
        identifier == 7 ==> r@ == "SouthMundeman"@,
        identifier == 8 ==> r@ == "VerdantCoast"@,
        identifier == 9 ==> r@ == "OtherworldArena"@,
        identifier == 10 ==> r@ == "CastleGrounds"@,
        identifier == 11 ==> r@ == "Sanctuary"@,
        identifier == 12 ==> r@ == "TheTunnels"@,
        identifier == 13 ==> r@ == "Glitch"@,
        identifier == 14 ==> r@ == "Luddershore"@,
        identifier == 15 ==> r@ == "TheTundra"@,
        identifier == 16 ==> r@ == "FrozenShore"@,
        identifier == 17 ==> r@ == "HallowGround"@,
        identifier == 18 ==> r@ == "SouthernSwamp"@,
        identifier == 19 ==> r@ == "DragonsLair"@,
        identifier == 20 ==> r@ == "CorruptedCastle"@,
        identifier == 21 ==> r@ == "CastleMonillud"@,
        identifier == 22 ==> r@ == "ThroneRoomConfrontation"@,
        identifier == 23 ==> r@ == "TheUnderworld"@,
        identifier == 24 ==> r@ == "Otherworld"@,
        identifier == 26 ==> r@ == "MoltenCavern"@,
        identifier == 27 ==> r@ == "TheDungeons"@,
        identifier == 28 ==> r@ == "ItemShop"@,
        identifier == 29 ==> r@ == "Convergence"@,
        identifier == 30 ==> r@ == "TrialOfReality"@,
        identifier == 33 ==> r@ == "FallenWorld"@,
        identifier == 34 ==> r@ == "RoadToHell"@,
        identifier == 35 ==> r@ == "HauntedManse"@,
        identifier == 36 ==> r@ == "Moonwell"@,
        identifier == 37 ==> r@ == "BetweenWorlds"@,
        identifier == 38 ==> r@ == "HerosSprint"@,
        identifier == 39 ==> r@ == "Mundeman"@,
        identifier == 40 ==> r@ == "SmugglersRoad"@,
        identifier == 41 ==> r@ == "SmugglersRuin"@,
        identifier == 42 ==> r@ == "HaphyCastleGrounds"@,
        identifier == 43 ==> r@ == "HaphyCastleMonillud"@,
        identifier == 44 ==> r@ == "HaphyStrangeArea"@,
        identifier == 45 ==> r@ == "HaphyTheUnderworld"@,
        identifier == 46 ==> r@ == "HaphyThroneRoom"@,
        (identifier != 1 && identifier != 2 && identifier != 4 && identifier != 5 && identifier != 6 && identifier != 7 && identifier != 8 && identifier != 9 && identifier != 10 && identifier != 11 && identifier != 12 && identifier != 13 && identifier != 14 && identifier != 15 && identifier != 16 && identifier != 17 && identifier != 18 && identifier != 19 && identifier != 20 && identifier != 21 && identifier != 22 && identifier != 23 && identifier != 24 && identifier != 26 && identifier != 27 && identifier != 28 && identifier != 29 && identifier != 30 && identifier != 33 && identifier != 34 && identifier != 35 && identifier != 36 && identifier != 37 && identifier != 38 && identifier != 39 && identifier != 40 && identifier != 41 && identifier != 42 && identifier != 43 && identifier != 44 && identifier != 45 && identifier != 46) ==> r@ == "Unknown"@,
{
    if identifier == 1 { "DustShelf" }
    else if identifier == 2 { "ThroneRoom" }
    else if identifier == 4 { "ExplodingThroneRoom" }
    else if identifier == 5 { "CastleRuins" }
    else if identifier == 6 { "NorthMundeman" }
    else if identifier == 7 { "SouthMundeman" }
    else if identifier == 8 { "VerdantCoast" }
    else if identifier == 9 { "OtherworldArena" }
    else if identifier == 10 { "CastleGrounds" }
    else if identifier == 11 { "Sanctuary" }
    else if identifier == 12 { "TheTunnels" }
    else if identifier == 13 { "Glitch" }
    else if identifier == 14 { "Luddershore" }
    else if identifier == 15 { "TheTundra" }
    else if identifier == 16 { "FrozenShore" }
    else if identifier == 17 { "HallowGround" }
    else if identifier == 18 { "SouthernSwamp" }
    else if identifier == 19 { "DragonsLair" }
    else if identifier == 20 { "CorruptedCastle" }
    else if identifier == 21 { "CastleMonillud" }
    else if identifier == 22 { "ThroneRoomConfrontation" }
    else if identifier == 23 { "TheUnderworld" }
    else if identifier == 24 { "Otherworld" }
    else if identifier == 26 { "MoltenCavern" }
    else if identifier == 27 { "TheDungeons" }
    else if identifier == 28 { "ItemShop" }
    else if identifier == 29 { "Convergence" }
    else if identifier == 30 { "TrialOfReality" }
    else if identifier == 33 { "FallenWorld" }
    else if identifier == 34 { "RoadToHell" }
    else if identifier == 35 { "HauntedManse" }
    else if identifier == 36 { "Moonwell" }
    else if identifier == 37 { "BetweenWorlds" }
    else if identifier == 38 { "HerosSprint" }
    else if identifier == 39 { "Mundeman" }
    else if identifier == 40 { "SmugglersRoad" }
    else if identifier == 41 { "SmugglersRuin" }
    else if identifier == 42 { "HaphyCastleGrounds" }
    else if identifier == 43 { "HaphyCastleMonillud" }
    else if identifier == 44 { "HaphyStrangeArea" }
    else if identifier == 45 { "HaphyTheUnderworld" }
    else if identifier == 46 { "HaphyThroneRoom" }
    else { "Unknown" }
}

} // verus!
