use vstd::prelude::*;
use crate::codec::{Pixel, COORD_LIMIT, decode, decode_spec, encode, encode_spec, no_seed, no_seed_spec};
use crate::raster::{Raster, cell, sample_spec, lemma_coord_of_index};
use vstd::arithmetic::div_mod::lemma_fundamental_div_mod_converse;

verus! {

/// Largest squared distance between two `u32` coordinates: two axes of
/// `u32::MAX` each.
pub const MAX_DIST2: u128 = 0x1_ffff_fffc_0000_0002;

/// Number of neighbour samples a pass reads besides the pixel itself.
pub const NEIGHBOURS: u32 = 8;

/// Direction of the `k`-th neighbour sample, in the fixed evaluation order:
/// column offsets -1, 0, +1 in turn, and within each the row offsets -1, 0, +1,
/// the centre left out.
pub open spec fn direction_spec(k: int) -> (int, int) {
    if k == 0 {
        (-1, -1)
    } else if k == 1 {
        (-1, 0)
    } else if k == 2 {
        (-1, 1)
    } else if k == 3 {
        (0, -1)
    } else if k == 4 {
        (0, 1)
    } else if k == 5 {
        (1, -1)
    } else if k == 6 {
        (1, 0)
    } else {
        (1, 1)
    }
}

/// Squared Euclidean distance between pixel `(x, y)` and seed coordinate `c`.
/// Pixel centres sit half a unit off the grid lines on both sides, so the
/// offset cancels.
pub open spec fn dist2_spec(x: int, y: int, c: (int, int)) -> int {
    (x - c.0) * (x - c.0) + (y - c.1) * (y - c.1)
}

/// The better of the best seed so far and a candidate: the candidate wins only
/// when it is valid and strictly closer, so earlier candidates keep exact ties.
pub open spec fn consider(best: Option<(int, int)>, cand: Option<(int, int)>, x: int, y: int) -> Option<(int, int)> {
    match cand {
        None => best,
        Some(c) => match best {
            None => Some(c),
            Some(b) => if dist2_spec(x, y, c) < dist2_spec(x, y, b) {
                Some(c)
            } else {
                best
            },
        },
    }
}

/// Nearest known seed of pixel `(x, y)` after looking at its own value and the
/// first `k` neighbour samples at distance `step`.
pub open spec fn scan_spec(px: Seq<Pixel>, w: int, h: int, x: int, y: int, step: int, k: nat) -> Option<(int, int)>
    decreases k,
{
    if k == 0 {
        decode_spec(cell(px, w, x, y))
    } else {
        let d = direction_spec(k - 1);
        consider(
            scan_spec(px, w, h, x, y, step, (k - 1) as nat),
            decode_spec(sample_spec(px, w, h, x + d.0 * step, y + d.1 * step)),
            x,
            y,
        )
    }
}

/// Nearest known seed of pixel `(x, y)` after one pass with the given step.
pub open spec fn nearest_spec(px: Seq<Pixel>, w: int, h: int, x: int, y: int, step: int) -> Option<(int, int)> {
    scan_spec(px, w, h, x, y, step, NEIGHBOURS as nat)
}

/// The record written for an optional seed coordinate.
pub open spec fn record_spec(c: Option<(int, int)>) -> Pixel {
    match c {
        Some(c) => encode_spec(c.0, c.1),
        None => no_seed_spec(),
    }
}

/// What one pass writes at `(x, y)`.
pub open spec fn pass_cell(px: Seq<Pixel>, w: int, h: int, x: int, y: int, step: int) -> Pixel {
    record_spec(nearest_spec(px, w, h, x, y, step))
}

/// The buffer one pass with the given step writes from buffer `px`.
pub open spec fn pass_spec(px: Seq<Pixel>, w: int, h: int, step: int) -> Seq<Pixel> {
    Seq::new(px.len(), |i: int| pass_cell(px, w, h, i % w, i / w, step))
}

/// The buffer after one pass per step, in order.
pub open spec fn propagate_spec(px: Seq<Pixel>, w: int, h: int, steps: Seq<u32>) -> Seq<Pixel>
    decreases steps.len(),
{
    if steps.len() == 0 {
        px
    } else {
        pass_spec(propagate_spec(px, w, h, steps.drop_last()), w, h, steps.last() as int)
    }
}

/// Column and row offset of the `k`-th neighbour sample.
pub fn direction(k: u32) -> (d: (i64, i64))
    requires
        k < NEIGHBOURS,
    ensures
        d.0 as int == direction_spec(k as int).0,
        d.1 as int == direction_spec(k as int).1,
{
    if k == 0 {
        (-1, -1)
    } else if k == 1 {
        (-1, 0)
    } else if k == 2 {
        (-1, 1)
    } else if k == 3 {
        (0, -1)
    } else if k == 4 {
        (0, 1)
    } else if k == 5 {
        (1, -1)
    } else if k == 6 {
        (1, 0)
    } else {
        (1, 1)
    }
}

/// Squared distance between two coordinates.
pub fn dist2(x: u32, y: u32, cx: u32, cy: u32) -> (d: u128)
    ensures
        d as int == dist2_spec(x as int, y as int, (cx as int, cy as int)),
        d <= MAX_DIST2,
{
    let dx: u128 = if x >= cx { (x - cx) as u128 } else { (cx - x) as u128 };
    let dy: u128 = if y >= cy { (y - cy) as u128 } else { (cy - y) as u128 };
    assert(dx * dx <= 0xffff_fffe_0000_0001 && dy * dy <= 0xffff_fffe_0000_0001) by (nonlinear_arith)
        requires dx <= 0xffff_ffff, dy <= 0xffff_ffff;
    assert(dx as int * dx as int == (x - cx) * (x - cx)) by (nonlinear_arith)
        requires dx as int == x - cx || dx as int == cx - x;
    assert(dy as int * dy as int == (y - cy) * (y - cy)) by (nonlinear_arith)
        requires dy as int == y - cy || dy as int == cy - y;
    dx * dx + dy * dy
}

/// The nearest known seed of pixel `(x, y)`, reading its own value first and
/// then the eight samples at offset `step` in the fixed order.
pub fn nearest(src: &Raster, x: u32, y: u32, step: u32) -> (r: Option<(u32, u32)>)
    requires
        src.wf(),
        x < src.width,
        y < src.height,
    ensures
        match r {
            Some(c) => nearest_spec(src.pixels@, src.width as int, src.height as int, x as int, y as int, step as int)
                == Some((c.0 as int, c.1 as int)),
            None => nearest_spec(src.pixels@, src.width as int, src.height as int, x as int, y as int, step as int)
                is None,
        },
        r matches Some(c) ==> c.0 < COORD_LIMIT && c.1 < COORD_LIMIT,
{
    let ghost px = src.pixels@;
    let ghost w = src.width as int;
    let ghost h = src.height as int;
    let mut best: Option<(u32, u32)> = decode(src.get(x, y));
    let mut best_d: u128 = match best {
        Some(c) => dist2(x, y, c.0, c.1),
        None => 0,
    };
    let mut k: u32 = 0;
    while k < NEIGHBOURS
        invariant
            src.wf(),
            x < src.width,
            y < src.height,
            px == src.pixels@,
            w == src.width,
            h == src.height,
            k <= NEIGHBOURS,
            match best {
                Some(c) => scan_spec(px, w, h, x as int, y as int, step as int, k as nat)
                    == Some((c.0 as int, c.1 as int))
                    && c.0 < COORD_LIMIT && c.1 < COORD_LIMIT
                    && best_d as int == dist2_spec(x as int, y as int, (c.0 as int, c.1 as int)),
                None => scan_spec(px, w, h, x as int, y as int, step as int, k as nat) is None,
            },
        decreases NEIGHBOURS - k,
    {
        let d: (i64, i64) = direction(k);
        assert(-0xffff_ffff <= d.0 * step <= 0xffff_ffff && -0xffff_ffff <= d.1 * step <= 0xffff_ffff)
            by (nonlinear_arith)
            requires -1 <= d.0 <= 1, -1 <= d.1 <= 1, step <= 0xffff_ffff;
        let sx: i64 = x as i64 + d.0 * step as i64;
        let sy: i64 = y as i64 + d.1 * step as i64;
        let cand: Option<(u32, u32)> = decode(src.sample_clamped(sx, sy));
        match cand {
            Some(c) => {
                let cd: u128 = dist2(x, y, c.0, c.1);
                match best {
                    Some(_) => {
                        if cd < best_d {
                            best = Some(c);
                            best_d = cd;
                        }
                    },
                    None => {
                        best = Some(c);
                        best_d = cd;
                    },
                }
            },
            None => {},
        }
        k = k + 1;
    }
    best
}

/// One propagation pass from `src` into the distinct buffer `dst`: every pixel
/// of `dst` receives the nearest seed among its own value in `src` and the
/// eight samples of `src` at offset `step`.
pub fn jump_flood_pass_into(src: &Raster, step: u32, dst: &mut Raster)
    requires
        src.wf(),
        old(dst).wf(),
        old(dst).width == src.width,
        old(dst).height == src.height,
    ensures
        final(dst).wf(),
        final(dst).width == src.width,
        final(dst).height == src.height,
        final(dst).pixels@ == pass_spec(src.pixels@, src.width as int, src.height as int, step as int),
{
    let n: usize = src.pixels.len();
    let w: u32 = src.width;
    let ghost h = src.height as int;
    let mut i: usize = 0;
    let mut x: u32 = 0;
    let mut y: u32 = 0;
    while i < n
        invariant
            src.wf(),
            n == src.pixels@.len(),
            n == w as int * h,
            w == src.width,
            h == src.height,
            dst.wf(),
            dst.width == src.width,
            dst.height == src.height,
            i <= n,
            x < w,
            i < n ==> x as int == i as int % w as int && y as int == i as int / w as int,
            forall|j: int| 0 <= j < i ==> dst.pixels@[j] == pass_cell(
                src.pixels@, w as int, h, j % w as int, j / w as int, step as int),
        decreases n - i,
    {
        proof {
            lemma_coord_of_index(w as int, h, i as int);
        }
        let q: Pixel = match nearest(src, x, y, step) {
            Some(c) => encode(c.0, c.1),
            None => no_seed(),
        };
        dst.pixels.set(i, q);
        proof {
            if x + 1 < w {
                lemma_fundamental_div_mod_converse(i as int + 1, w as int, y as int, x as int + 1);
            } else {
                assert(i as int + 1 == (y as int + 1) * w as int + 0) by (nonlinear_arith)
                    requires i as int == y as int * w as int + x as int, x as int + 1 == w as int;
                lemma_fundamental_div_mod_converse(i as int + 1, w as int, y as int + 1, 0);
            }
        }
        if x + 1 < w {
            x = x + 1;
        } else {
            x = 0;
            y = y + 1;
        }
        i = i + 1;
    }
    proof {
        assert(dst.pixels@ =~= pass_spec(src.pixels@, w as int, h, step as int));
    }
}

/// One propagation pass into a freshly allocated buffer.
pub fn jump_flood_pass(src: &Raster, step: u32) -> (r: Raster)
    requires
        src.wf(),
    ensures
        r.wf(),
        r.width == src.width,
        r.height == src.height,
        r.pixels@ == pass_spec(src.pixels@, src.width as int, src.height as int, step as int),
{
    let _n: usize = src.pixels.len();
    let mut dst: Raster = Raster::new(src.width, src.height, no_seed());
    jump_flood_pass_into(src, step, &mut dst);
    dst
}

/// Runs one pass per step, in order, ping-ponging between two buffers: the
/// front slot is read and the back slot written, then the two trade places.
pub fn propagate(seeds: Raster, steps: &Vec<u32>) -> (r: Raster)
    requires
        seeds.wf(),
    ensures
        r.wf(),
        r.width == seeds.width,
        r.height == seeds.height,
        r.pixels@ == propagate_spec(seeds.pixels@, seeds.width as int, seeds.height as int, steps@),
{
    let ghost px = seeds.pixels@;
    let ghost w = seeds.width as int;
    let ghost h = seeds.height as int;
    let _n: usize = seeds.pixels.len();
    let mut back: Raster = Raster::new(seeds.width, seeds.height, no_seed());
    let mut front: Raster = seeds;
    let mut i: usize = 0;
    proof {
        assert(steps@.take(0) =~= Seq::<u32>::empty());
    }
    while i < steps.len()
        invariant
            i <= steps@.len(),
            front.wf(),
            back.wf(),
            front.width == w,
            front.height == h,
            back.width == w,
            back.height == h,
            front.pixels@ == propagate_spec(px, w, h, steps@.take(i as int)),
        decreases steps@.len() - i,
    {
        jump_flood_pass_into(&front, steps[i], &mut back);
        core::mem::swap(&mut front, &mut back);
        proof {
            assert(steps@.take(i as int + 1).drop_last() =~= steps@.take(i as int));
        }
        i = i + 1;
    }
    proof {
        assert(steps@.take(steps@.len() as int) =~= steps@);
    }
    front
}

} // verus!
