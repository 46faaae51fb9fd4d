use vstd::prelude::*;

verus! {

/// One pixel record of a raster buffer: four 8-bit normalized channels.
#[derive(Clone, Copy, Debug, PartialEq, Eq, Structural)]
pub struct Pixel {
    pub r: u8,
    pub g: u8,
    pub b: u8,
    pub a: u8,
}

/// Largest coordinate (exclusive) that one 8-bit channel can carry.
pub const COORD_LIMIT: u32 = 256;

/// Channel value of the validity flag of an encoded seed.
pub const VALID: u8 = 255;

/// The seed coordinate a pixel record holds, if its validity channel is set.
pub open spec fn decode_spec(p: Pixel) -> Option<(int, int)> {
    if p.a == VALID {
        Some((p.r as int, p.g as int))
    } else {
        None
    }
}

/// The record that marks "no seed".
pub open spec fn no_seed_spec() -> Pixel {
    Pixel { r: 0, g: 0, b: 0, a: 0 }
}

/// The record that stores the seed coordinate `(x, y)`, each axis taken
/// modulo 256.
pub open spec fn encode_spec(x: int, y: int) -> Pixel {
    Pixel { r: x as u8, g: y as u8, b: 0, a: VALID }
}

/// Packs a coordinate into a seed record. Each axis keeps its low 8 bits, so
/// a coordinate outside the supported range wraps.
pub fn encode(x: u32, y: u32) -> (p: Pixel)
    ensures
        p == encode_spec(x as int, y as int),
        x < COORD_LIMIT && y < COORD_LIMIT ==> decode_spec(p) == Some((x as int, y as int)),
{
    Pixel { r: x as u8, g: y as u8, b: 0, a: VALID }
}

/// The "no seed" record.
pub fn no_seed() -> (p: Pixel)
    ensures
        p == no_seed_spec(),
        decode_spec(p) is None,
{
    Pixel { r: 0, g: 0, b: 0, a: 0 }
}

/// Unpacks a seed record: the stored coordinate, or `None` for "no seed".
pub fn decode(p: Pixel) -> (r: Option<(u32, u32)>)
    ensures
        r matches Some(c) ==> decode_spec(p) == Some((c.0 as int, c.1 as int)),
        r is None <==> decode_spec(p) is None,
        r matches Some(c) ==> c.0 < COORD_LIMIT && c.1 < COORD_LIMIT,
{
    if p.a == VALID {
        Some((p.r as u32, p.g as u32))
    } else {
        None
    }
}

/// Encoding then decoding gives back every coordinate of the supported range.
pub proof fn lemma_round_trip(x: int, y: int)
    requires
        0 <= x < COORD_LIMIT,
        0 <= y < COORD_LIMIT,
    ensures
        decode_spec(encode_spec(x, y)) == Some((x, y)),
{
}

} // verus!
