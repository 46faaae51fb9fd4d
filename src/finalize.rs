use vstd::prelude::*;
use crate::codec::{Pixel, decode, decode_spec};
use crate::raster::{Raster, lemma_coord_of_index};
use crate::propagate::{MAX_DIST2, dist2, dist2_spec};
use vstd::arithmetic::div_mod::lemma_fundamental_div_mod_converse;

verus! {

/// Top of the 8-bit scale on which glow levels and colours are expressed.
pub const LEVELS: u32 = 255;

/// Colour of a pixel that is itself a seed: opaque white.
pub open spec fn marker_spec() -> Pixel {
    Pixel { r: 255, g: 255, b: 255, a: 255 }
}

/// Colour of a pixel with no seed, or beyond the radius when the cutoff holds:
/// fully transparent.
pub open spec fn background_spec() -> Pixel {
    Pixel { r: 0, g: 0, b: 0, a: 0 }
}

/// Colour of a pixel that is itself a seed.
pub fn marker() -> (p: Pixel)
    ensures
        p == marker_spec(),
{
    Pixel { r: 255, g: 255, b: 255, a: 255 }
}

/// Colour of a pixel left empty.
pub fn background() -> (p: Pixel)
    ensures
        p == background_spec(),
{
    Pixel { r: 0, g: 0, b: 0, a: 0 }
}

/// Parameters of the Field Finalizer.
#[derive(Clone, Copy, Debug, PartialEq, Eq, Structural)]
pub struct FinalizeParams {
    /// Distance at which the glow has faded out.
    pub radius: u16,
    /// Colour next to a seed.
    pub inner: Pixel,
    /// Colour at the radius.
    pub outer: Pixel,
    /// Whether pixels at or beyond the radius are left as background; when
    /// false they take the outer colour, however far they are.
    pub cutoff: bool,
}

/// Glow level `l` (out of 255) fits distance `sqrt(d2)` and radius `r`:
/// `255 * sqrt(d2) <= r * (255 - l)`, squared to stay in integers.
pub open spec fn glow_fits(d2: int, r: int, l: int) -> bool {
    LEVELS * LEVELS * d2 <= (r * (LEVELS - l)) * (r * (LEVELS - l))
}

/// The largest level up to `l` that fits, or 0 when none does: the linear
/// falloff `255 * (r - len) / r`, rounded down and floored at 0.
pub open spec fn glow_level_spec(d2: int, r: int, l: nat) -> nat
    decreases l,
{
    if l == 0 || glow_fits(d2, r, l as int) {
        l
    } else {
        glow_level_spec(d2, r, (l - 1) as nat)
    }
}

/// Smoothstep of level `l` on the 0..=255 scale: `t * t * (3 - 2 * t)` with
/// `t = l / 255`, rounded down.
pub open spec fn smooth_spec(l: int) -> int {
    l * l * (3 * LEVELS - 2 * l) / (LEVELS * LEVELS)
}

/// One channel blended from `outer` towards `inner` by weight `s` out of 255.
pub open spec fn blend_channel_spec(outer: u8, inner: u8, s: int) -> int {
    (outer as int * (LEVELS - s) + inner as int * s) / LEVELS as int
}

/// The colour of glow level `l`.
pub open spec fn glow_color_spec(params: FinalizeParams, l: int) -> Pixel {
    let s = smooth_spec(l);
    Pixel {
        r: blend_channel_spec(params.outer.r, params.inner.r, s) as u8,
        g: blend_channel_spec(params.outer.g, params.inner.g, s) as u8,
        b: blend_channel_spec(params.outer.b, params.inner.b, s) as u8,
        a: blend_channel_spec(params.outer.a, params.inner.a, s) as u8,
    }
}

/// The colour for a pixel whose nearest seed lies at squared distance `d2`.
pub open spec fn field_color_spec(d2: int, params: FinalizeParams) -> Pixel {
    let r = params.radius as int;
    if d2 == 0 {
        marker_spec()
    } else if params.cutoff && d2 >= r * r {
        background_spec()
    } else {
        glow_color_spec(params, glow_level_spec(d2, r, LEVELS as nat) as int)
    }
}

/// What the finalizer writes for seed record `p` found at `(x, y)`.
pub open spec fn finalize_cell(p: Pixel, x: int, y: int, params: FinalizeParams) -> Pixel {
    match decode_spec(p) {
        None => background_spec(),
        Some(c) => field_color_spec(dist2_spec(x, y, c), params),
    }
}

/// The output buffer for row-major seed storage `px` of a grid `w` wide.
pub open spec fn finalize_spec(px: Seq<Pixel>, w: int, params: FinalizeParams) -> Seq<Pixel> {
    Seq::new(px.len(), |i: int| finalize_cell(px[i], i % w, i / w, params))
}

/// Neither glow colour is the seed marker, so that seeds stay distinct.
pub open spec fn distinct_from_marker(params: FinalizeParams) -> bool {
    params.inner != marker_spec() && params.outer != marker_spec()
}

proof fn lemma_smooth_bounds(l: int)
    requires
        0 <= l <= LEVELS,
    ensures
        0 <= smooth_spec(l) <= LEVELS,
{
    let num = l * l * (3 * LEVELS - 2 * l);
    assert(0 <= num <= 255 * 255 * 255) by (nonlinear_arith)
        requires num == l * l * (3 * LEVELS - 2 * l), 0 <= l <= 255;
    vstd::arithmetic::div_mod::lemma_div_is_ordered(num, (255 * 255 * 255) as int, (255 * 255) as int);
    vstd::arithmetic::div_mod::lemma_div_pos_is_pos(num, (255 * 255) as int);
}

/// With weight 0 a blend is the outer channel; with a positive weight and an
/// inner channel below full, it stays below full.
proof fn lemma_blend_channel(o: u8, i: u8, s: int)
    requires
        0 <= s <= LEVELS,
    ensures
        s == 0 ==> blend_channel_spec(o, i, s) == o as int,
        0 < s && i < 255 ==> blend_channel_spec(o, i, s) < 255,
{
    if s == 0 {
        assert(o as int * (LEVELS - s) + i as int * s == 255 * o as int);
        vstd::arithmetic::div_mod::lemma_div_multiples_vanish(o as int, 255);
    }
    if 0 < s && i < 255 {
        let num = o as int * (LEVELS - s) + i as int * s;
        assert(0 <= num <= 65024) by (nonlinear_arith)
            requires num == o as int * (255 - s) + i as int * s, 0 <= o <= 255, 0 <= i <= 254, 0 < s <= 255;
        vstd::arithmetic::div_mod::lemma_div_is_ordered(num, 65024, 255);
    }
}

proof fn lemma_glow_level_bound(d2: int, r: int, l: nat)
    ensures
        glow_level_spec(d2, r, l) <= l,
    decreases l,
{
    if l > 0 {
        lemma_glow_level_bound(d2, r, (l - 1) as nat);
    }
}

/// Under distinct glow colours, only a pixel at distance zero from its
/// recorded seed is coloured as a seed.
pub proof fn lemma_marker_only_at_seeds(d2: int, params: FinalizeParams)
    requires
        d2 != 0,
        distinct_from_marker(params),
    ensures
        field_color_spec(d2, params) != marker_spec(),
{
    let r = params.radius as int;
    if !(params.cutoff && d2 >= r * r) {
        let l = glow_level_spec(d2, r, LEVELS as nat) as int;
        lemma_glow_level_bound(d2, r, LEVELS as nat);
        lemma_smooth_bounds(l);
        let s = smooth_spec(l);
        let g = glow_color_spec(params, l);
        let (o, i) = (params.outer, params.inner);
        lemma_blend_channel(o.r, i.r, s);
        lemma_blend_channel(o.g, i.g, s);
        lemma_blend_channel(o.b, i.b, s);
        lemma_blend_channel(o.a, i.a, s);
        if s == 0 {
            assert(g == o);
        } else {
            assert(g.r < 255 || g.g < 255 || g.b < 255 || g.a < 255);
        }
    }
}

/// Whether neither glow colour is the seed marker.
pub fn distinct_from_marker_colours(params: FinalizeParams) -> (r: bool)
    ensures
        r == distinct_from_marker(params),
{
    params.inner != marker() && params.outer != marker()
}

/// Glow level for squared distance `d2` and the given radius.
pub fn glow_level(d2: u128, radius: u16) -> (l: u32)
    requires
        d2 <= MAX_DIST2,
    ensures
        l as int == glow_level_spec(d2 as int, radius as int, LEVELS as nat),
        l <= LEVELS,
{
    assert(65025 * d2 <= 65025 * MAX_DIST2) by (nonlinear_arith)
        requires d2 <= MAX_DIST2;
    let lhs: u128 = 65025u128 * d2;
    let mut l: u32 = LEVELS;
    loop
        invariant
            l <= LEVELS,
            lhs as int == LEVELS * LEVELS * d2,
            glow_level_spec(d2 as int, radius as int, LEVELS as nat)
                == glow_level_spec(d2 as int, radius as int, l as nat),
        decreases l,
    {
        assert(radius as int * (LEVELS - l) <= 65535 * 255) by (nonlinear_arith)
            requires radius <= 65535, LEVELS - l <= 255, l <= LEVELS;
        let span: u128 = (radius as u128) * ((LEVELS - l) as u128);
        assert(span * span <= 65535 * 255 * 65535 * 255) by (nonlinear_arith)
            requires span <= 65535 * 255;
        if l == 0 || lhs <= span * span {
            return l;
        }
        l = l - 1;
    }
}

/// Smoothstep of level `l` on the 0..=255 scale.
pub fn smooth(l: u32) -> (s: u32)
    requires
        l <= LEVELS,
    ensures
        s as int == smooth_spec(l as int),
        s <= LEVELS,
{
    assert(l * l * (3 * LEVELS - 2 * l) <= 255 * 255 * 255) by (nonlinear_arith)
        requires l <= 255;
    assert(0 <= l * l * (3 * LEVELS - 2 * l)) by (nonlinear_arith)
        requires l <= 255;
    assert(l * l <= 255 * 255) by (nonlinear_arith)
        requires l <= 255;
    let sq: u32 = l * l;
    assert(sq * (3 * LEVELS - 2 * l) <= 255 * 255 * 255) by (nonlinear_arith)
        requires sq == l * l, l * l * (3 * LEVELS - 2 * l) <= 255 * 255 * 255;
    let num: u32 = sq * (3 * LEVELS - 2 * l);
    proof {
        vstd::arithmetic::div_mod::lemma_div_is_ordered(num as int, (255 * 255 * 255) as int, (255 * 255) as int);
    }
    num / (LEVELS * LEVELS)
}

/// One channel blended from `outer` towards `inner` by weight `s` out of 255.
pub fn blend_channel(outer: u8, inner: u8, s: u32) -> (c: u8)
    requires
        s <= LEVELS,
    ensures
        c as int == blend_channel_spec(outer, inner, s as int),
{
    assert(outer as int * (LEVELS - s) + inner as int * s <= 255 * 255) by (nonlinear_arith)
        requires outer <= 255, inner <= 255, s <= 255;
    assert(0 <= outer as int * (LEVELS - s)) by (nonlinear_arith)
        requires s <= 255;
    assert(0 <= inner as int * s) by (nonlinear_arith);
    let v: u32 = ((outer as u32) * (LEVELS - s) + (inner as u32) * s) / LEVELS;
    v as u8
}

/// The colour for a pixel whose nearest seed lies at squared distance `d2`.
pub fn field_color(d2: u128, params: FinalizeParams) -> (p: Pixel)
    requires
        d2 <= MAX_DIST2,
        distinct_from_marker(params),
    ensures
        p == field_color_spec(d2 as int, params),
        p == marker_spec() <==> d2 == 0,
{
    let r: u128 = params.radius as u128;
    proof {
        if d2 != 0 {
            lemma_marker_only_at_seeds(d2 as int, params);
        }
    }
    assert(r * r <= 65535 * 65535) by (nonlinear_arith)
        requires r <= 65535;
    if d2 == 0 {
        marker()
    } else if params.cutoff && d2 >= r * r {
        background()
    } else {
        let s: u32 = smooth(glow_level(d2, params.radius));
        Pixel {
            r: blend_channel(params.outer.r, params.inner.r, s),
            g: blend_channel(params.outer.g, params.inner.g, s),
            b: blend_channel(params.outer.b, params.inner.b, s),
            a: blend_channel(params.outer.a, params.inner.a, s),
        }
    }
}

/// Field Finalizer: colours every pixel by the distance to its recorded
/// nearest seed.
pub fn finalize(seeds: &Raster, params: FinalizeParams) -> (r: Raster)
    requires
        seeds.wf(),
        distinct_from_marker(params),
    ensures
        r.wf(),
        r.width == seeds.width,
        r.height == seeds.height,
        r.pixels@ == finalize_spec(seeds.pixels@, seeds.width as int, params),
{
    let n: usize = seeds.pixels.len();
    let w: u32 = seeds.width;
    let ghost h = seeds.height as int;
    let mut out: Vec<Pixel> = Vec::with_capacity(n);
    let mut i: usize = 0;
    let mut x: u32 = 0;
    let mut y: u32 = 0;
    while i < n
        invariant
            n == seeds.pixels@.len(),
            n == w as int * h,
            w == seeds.width,
            h == seeds.height,
            0 < w,
            0 < h,
            distinct_from_marker(params),
            i <= n,
            out@.len() == i,
            x < w,
            i < n ==> x as int == i as int % w as int && y as int == i as int / w as int,
            forall|j: int| 0 <= j < i ==> out@[j] == finalize_cell(
                seeds.pixels@[j], j % w as int, j / w as int, params),
        decreases n - i,
    {
        proof {
            lemma_coord_of_index(w as int, h, i as int);
        }
        let q: Pixel = match decode(seeds.pixels[i]) {
            None => background(),
            Some(c) => {
                let d2: u128 = dist2(x, y, c.0, c.1);
                field_color(d2, params)
            },
        };
        out.push(q);
        proof {
            if x + 1 < w {
                lemma_fundamental_div_mod_converse(i as int + 1, w as int, y as int, x as int + 1);
            } else {
                assert(i as int + 1 == (y as int + 1) * w as int + 0) by (nonlinear_arith)
                    requires i as int == y as int * w as int + x as int, x as int + 1 == w as int;
                lemma_fundamental_div_mod_converse(i as int + 1, w as int, y as int + 1, 0);
            }
        }
        if x + 1 < w {
            x = x + 1;
        } else {
            x = 0;
            y = y + 1;
        }
        i = i + 1;
    }
    proof {
        assert(out@ =~= finalize_spec(seeds.pixels@, w as int, params));
    }
    Raster { width: seeds.width, height: seeds.height, pixels: out }
}

} // verus!
