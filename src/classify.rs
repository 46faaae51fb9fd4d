use vstd::prelude::*;
use crate::codec::{Pixel, encode, encode_spec, no_seed, no_seed_spec};
use crate::raster::{Raster, lemma_coord_of_index};
use vstd::arithmetic::div_mod::lemma_fundamental_div_mod_converse;

verus! {

/// Threshold scale: a threshold is given in thousandths of full intensity.
pub const THRESHOLD_SCALE: u32 = 1000;

/// Full intensity of an 8-bit channel.
pub const FULL: u32 = 255;

/// A mask pixel is a seed when its intensity (the red channel, on a 0..1
/// scale) is strictly above `threshold_milli / 1000`.
pub open spec fn is_seed_spec(p: Pixel, threshold_milli: int) -> bool {
    p.r as int * THRESHOLD_SCALE > threshold_milli * FULL
}

/// What the classifier writes for the mask pixel `p` found at `(x, y)`.
pub open spec fn classify_cell(p: Pixel, x: int, y: int, threshold_milli: int) -> Pixel {
    if is_seed_spec(p, threshold_milli) {
        encode_spec(x, y)
    } else {
        no_seed_spec()
    }
}

/// The seed buffer for row-major mask storage `px` of a grid `w` wide.
pub open spec fn classify_spec(px: Seq<Pixel>, w: int, threshold_milli: int) -> Seq<Pixel> {
    Seq::new(px.len(), |i: int| classify_cell(px[i], i % w, i / w, threshold_milli))
}

/// Whether mask pixel `p` is above the threshold.
pub fn is_seed(p: Pixel, threshold_milli: u32) -> (r: bool)
    ensures
        r == is_seed_spec(p, threshold_milli as int),
{
    assert(threshold_milli as int * 255 <= 0xffff_ffff * 255) by (nonlinear_arith)
        requires threshold_milli <= 0xffff_ffff;
    assert(p.r as int * 1000 <= 255 * 1000) by (nonlinear_arith)
        requires p.r <= 255;
    (p.r as u64) * (THRESHOLD_SCALE as u64) > (threshold_milli as u64) * (FULL as u64)
}

/// Seed Classifier: marks every mask pixel above the threshold as a seed at
/// its own coordinate, and every other pixel as "no seed". On a grid wider or
/// taller than the encoding's range the stored coordinates wrap.
pub fn classify(mask: &Raster, threshold_milli: u32) -> (r: Raster)
    requires
        mask.wf(),
    ensures
        r.wf(),
        r.width == mask.width,
        r.height == mask.height,
        r.pixels@ == classify_spec(mask.pixels@, mask.width as int, threshold_milli as int),
{
    let n: usize = mask.pixels.len();
    let w: u32 = mask.width;
    let ghost h = mask.height as int;
    let mut out: Vec<Pixel> = Vec::with_capacity(n);
    let mut i: usize = 0;
    let mut x: u32 = 0;
    let mut y: u32 = 0;
    while i < n
        invariant
            n == mask.pixels@.len(),
            n == w as int * h,
            w == mask.width,
            h == mask.height,
            0 < w,
            0 < h,
            i <= n,
            out@.len() == i,
            x < w,
            i < n ==> x as int == i as int % w as int && y as int == i as int / w as int,
            forall|j: int| 0 <= j < i ==> out@[j] == classify_cell(
                mask.pixels@[j], j % w as int, j / w as int, threshold_milli as int),
        decreases n - i,
    {
        proof {
            lemma_coord_of_index(w as int, h, i as int);
        }
        let p: Pixel = mask.pixels[i];
        let q: Pixel = if is_seed(p, threshold_milli) {
            encode(x, y)
        } else {
            no_seed()
        };
        out.push(q);
        proof {
            if x + 1 < w {
                lemma_fundamental_div_mod_converse(i as int + 1, w as int, y as int, x as int + 1);
            } else {
                assert(i as int + 1 == (y as int + 1) * w as int + 0) by (nonlinear_arith)
                    requires i as int == y as int * w as int + x as int, x as int + 1 == w as int;
                lemma_fundamental_div_mod_converse(i as int + 1, w as int, y as int + 1, 0);
            }
        }
        if x + 1 < w {
            x = x + 1;
        } else {
            x = 0;
            y = y + 1;
        }
        i = i + 1;
    }
    proof {
        assert(out@ =~= classify_spec(mask.pixels@, w as int, threshold_milli as int));
    }
    Raster { width: mask.width, height: mask.height, pixels: out }
}

} // verus!
