//! The bit-packed graphics codec and the fixed 16-pixel tile assemblies.
//! Each 8-pixel tile is stored as two bytes per pixel column, one bit plane
//! each; a 16-pixel tile names four 8-pixel tiles with flip flags.

use vstd::prelude::*;

use crate::data::{
    SPRITE_TILE_BITS, SPRITE_TILE_BIT_TABLE, SPRITE_TILE_FLIPS, SPRITE_TILE_FLIP_TABLE, TILE_16S,
};

verus! {

/// One 8-pixel tile reference inside a 16-pixel assembly.
#[derive(Clone, Copy, PartialEq, Eq, Structural, Debug)]
pub struct Tile8 {
    pub index: u16,
    pub flip_x: bool,
    pub flip_y: bool,
    pub rotate: bool,
}

impl Default for Tile8 {
    fn default() -> (r: Tile8)
        ensures
            r == (Tile8 { index: 0, flip_x: false, flip_y: false, rotate: false }),
    {
        Tile8 { index: 0, flip_x: false, flip_y: false, rotate: false }
    }
}

impl Tile8 {
    /// A plain, unflipped reference.
    pub fn of_index(index: u16) -> (r: Tile8)
        ensures
            r == (Tile8 { index, flip_x: false, flip_y: false, rotate: false }),
    {
        Tile8 { index, flip_x: false, flip_y: false, rotate: false }
    }
}

/// A 16-pixel tile: its four 8-pixel quarters, row-major.
pub type Tile16 = [Tile8; 4];

/// The pixel rows of one decoded 8-pixel tile; every pixel is a two-bit
/// palette index.
pub type Tile8Data = Vec<Vec<u8>>;

/// The decoded graphics plus the fixed tile assemblies.
pub struct TileData {
    pub tile8_list: Vec<Tile8Data>,
    pub map_tile16_list: Vec<Tile16>,
    pub sprite_tile16_list: Vec<Tile16>,
}

impl TileData {
    /// Bundles decoded graphics bytes with the fixed assemblies.
    pub fn from_bytes(bytes: &Vec<u8>) -> (r: TileData)
        ensures
            r.map_tile16_list@.len() == 66,
            r.sprite_tile16_list@.len() == 114,
    {
        TileData {
            tile8_list: decode_graphics(bytes),
            map_tile16_list: map_tile16_list(),
            sprite_tile16_list: sprite_tile16_list(),
        }
    }
}

/// Builds one sprite assembly from the fixed tables.
fn build_sprite_tile(id: usize) -> (r: Tile16)
    requires
        id < 114,
{
    let bit_index = (SPRITE_TILE_BIT_TABLE[id] as usize) * 4;
    let flip_index = (SPRITE_TILE_FLIP_TABLE[id] as usize) * 12;
    let mut quarters = [Tile8::of_index(0); 4];
    let mut t: usize = 0;
    while t < 4
        invariant
            t <= 4,
            bit_index <= 1020,
            flip_index <= 3060,
        decreases 4 - t,
    {
        let by_three = t * 3;
        let index = if bit_index + t < 228 {
            SPRITE_TILE_BITS[bit_index + t]
        } else {
            0
        };
        let flip_x = if flip_index + by_three < 72 {
            SPRITE_TILE_FLIPS[flip_index + by_three]
        } else {
            false
        };
        let flip_y = if flip_index + by_three + 1 < 72 {
            SPRITE_TILE_FLIPS[flip_index + by_three + 1]
        } else {
            false
        };
        let rotate = if flip_index + by_three + 2 < 72 {
            SPRITE_TILE_FLIPS[flip_index + by_three + 2]
        } else {
            false
        };
        quarters[t] = Tile8 { index, flip_x, flip_y, rotate };
        t = t + 1;
    }
    quarters
}

/// The fixed 16-pixel assemblies of every sprite frame.
pub fn sprite_tile16_list() -> (r: Vec<Tile16>)
    ensures
        r@.len() == 114,
{
    let mut out: Vec<Tile16> = Vec::new();
    let mut id: usize = 0;
    while id < 114
        invariant
            id <= 114,
            out@.len() == id,
        decreases 114 - id,
    {
        out.push(build_sprite_tile(id));
        id = id + 1;
    }
    out
}

/// The fixed 16-pixel assemblies of the terrain tiles. A few entries mirror
/// one 8-pixel tile into all four quarters instead of naming four tiles.
pub fn map_tile16_list() -> (r: Vec<Tile16>)
    ensures
        r@.len() == 66,
{
    let mut out: Vec<Tile16> = Vec::new();
    let mut id: usize = 0;
    while id < 66
        invariant
            id <= 66,
            out@.len() == id,
        decreases 66 - id,
    {
        let quad = TILE_16S[id];
        out.push(
            [
                Tile8::of_index(quad[0]),
                Tile8::of_index(quad[1]),
                Tile8::of_index(quad[2]),
                Tile8::of_index(quad[3]),
            ],
        );
        id = id + 1;
    }
    let mirrored3 = mirror_tile(239);
    out[3] = mirrored3;
    let mirrored6 = mirror_tile(92);
    out[6] = mirrored6;
    out[26] = [
        Tile8 { index: 81, flip_x: true, flip_y: true, rotate: true },
        Tile8 { index: 65, flip_x: true, flip_y: true, rotate: true },
        Tile8 { index: 80, flip_x: true, flip_y: true, rotate: true },
        Tile8 { index: 64, flip_x: true, flip_y: true, rotate: true },
    ];
    let mirrored28 = mirror_tile(93);
    out[28] = mirrored28;
    out
}

/// One 8-pixel tile mirrored into all four quarters.
fn mirror_tile(index: u16) -> (r: Tile16)
{
    [
        Tile8::of_index(index),
        Tile8 { index, flip_x: true, flip_y: false, rotate: false },
        Tile8 { index, flip_x: false, flip_y: true, rotate: false },
        Tile8 { index, flip_x: true, flip_y: true, rotate: false },
    ]
}

/// Decodes graphics bytes: every 16 bytes hold one 8-pixel tile, two bytes
/// per pixel column carrying the low and high bit planes. Every decoded
/// pixel is a two-bit palette index.
pub fn decode_graphics(bytes: &Vec<u8>) -> (r: Vec<Tile8Data>)
    ensures
        forall|t: int, y: int, x: int|
            0 <= t < r@.len() && 0 <= y < r@[t]@.len() && 0 <= x < r@[t]@[y]@.len()
                ==> #[trigger] r@[t]@[y]@[x] < 4,
{
    let mut out: Vec<Tile8Data> = Vec::new();
    let mut at: usize = 0;
    while at < bytes.len() && bytes.len() - at >= 16
        invariant
            at <= bytes@.len(),
            forall|t: int, y: int, x: int|
                0 <= t < out@.len() && 0 <= y < out@[t]@.len() && 0 <= x < out@[t]@[y]@.len()
                    ==> #[trigger] out@[t]@[y]@[x] < 4,
        decreases bytes@.len() - at,
    {
        let mut tile: Tile8Data = Vec::new();
        let mut col: usize = 0;
        while col < 8
            invariant
                col <= 8,
                at <= bytes@.len() && bytes@.len() - at >= 16,
                bytes@.len() <= usize::MAX,
                forall|y: int, x: int|
                    0 <= y < tile@.len() && 0 <= x < tile@[y]@.len() ==> #[trigger] tile@[y]@[x]
                        < 4,
            decreases 8 - col,
        {
            proof {
                assert(2 * col + 1 <= 15);
                assert(at + 2 * col + 1 < bytes@.len());
            }
            let low = bytes[at + 2 * col];
            let high = bytes[at + 2 * col + 1];
            let mut row: Vec<u8> = Vec::new();
            let mut px: usize = 0;
            while px < 8
                invariant
                    px <= 8,
                    forall|x: int| 0 <= x < row@.len() ==> #[trigger] row@[x] < 4,
                decreases 8 - px,
            {
                let shift: u8 = (7 - px) as u8;
                let low_bit: u8 = if (low >> shift) & 1 == 1 {
                    1
                } else {
                    0
                };
                let high_bit: u8 = if (high >> shift) & 1 == 1 {
                    2
                } else {
                    0
                };
                row.push(low_bit + high_bit);
                px = px + 1;
            }
            tile.push(row);
            col = col + 1;
        }
        out.push(tile);
        at = at + 16;
    }
    out
}

/// Encodes decoded tiles back into the two-plane byte form: two bytes per
/// pixel column, low plane first.
pub fn encode_graphics(tile8_list: &Vec<Tile8Data>) -> (r: Vec<u8>)
    ensures
        r@.len() % 2 == 0,
{
    let mut out: Vec<u8> = Vec::new();
    let mut t: usize = 0;
    while t < tile8_list.len()
        invariant
            out@.len() % 2 == 0,
        decreases tile8_list@.len() - t,
    {
        let tile = &tile8_list[t];
        let mut col: usize = 0;
        while col < tile.len()
            invariant
                out@.len() % 2 == 0,
            decreases tile@.len() - col,
        {
            let row = &tile[col];
            let mut low: u8 = 0;
            let mut high: u8 = 0;
            let mut px: usize = 0;
            while px < row.len()
                invariant
                    px <= row@.len(),
                decreases row@.len() - px,
            {
                if px < 8 {
                    let shift: u8 = (7 - px) as u8;
                    let pixel = row[px];
                    low = low | (((pixel & 1)) << shift);
                    high = high | (((pixel >> 1) & 1) << shift);
                }
                px = px + 1;
            }
            out.push(low);
            out.push(high);
            col = col + 1;
        }
        t = t + 1;
    }
    out
}

} // verus!
