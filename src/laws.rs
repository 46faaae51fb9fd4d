use vstd::prelude::*;
use crate::codec::{Pixel, COORD_LIMIT, decode_spec};
use crate::raster::{cell, lemma_coord_of_index};
use crate::classify::{classify_spec, is_seed_spec};
use crate::propagate::{dist2_spec, scan_spec, propagate_spec};
use crate::finalize::{FinalizeParams, finalize_spec, marker_spec};
use crate::pipeline::{seeds_after_spec, pipeline_spec};

verus! {

/// A squared distance is never negative, and is zero exactly at the point itself.
pub proof fn lemma_dist2_nonneg(x: int, y: int, c: (int, int))
    ensures
        dist2_spec(x, y, c) >= 0,
        dist2_spec(x, y, c) == 0 <==> c == (x, y),
{
    assert((x - c.0) * (x - c.0) >= 0) by (nonlinear_arith);
    assert((y - c.1) * (y - c.1) >= 0) by (nonlinear_arith);
    if dist2_spec(x, y, c) == 0 {
        assert((x - c.0) * (x - c.0) == 0);
        assert(x - c.0 == 0) by (nonlinear_arith)
            requires (x - c.0) * (x - c.0) == 0;
        assert(y - c.1 == 0) by (nonlinear_arith)
            requires (y - c.1) * (y - c.1) == 0;
        assert(c == (x, y));
    }
    if c == (x, y) {
        assert((x - c.0) * (x - c.0) == 0 && (y - c.1) * (y - c.1) == 0) by (nonlinear_arith)
            requires x - c.0 == 0, y - c.1 == 0;
    }
}

/// A pixel that holds its own coordinate keeps it through any scan: no
/// candidate is strictly closer than distance zero.
pub proof fn lemma_scan_keeps_own(px: Seq<Pixel>, w: int, h: int, x: int, y: int, step: int, k: nat)
    requires
        decode_spec(cell(px, w, x, y)) == Some((x, y)),
    ensures
        scan_spec(px, w, h, x, y, step, k) == Some((x, y)),
    decreases k,
{
    if k > 0 {
        lemma_scan_keeps_own(px, w, h, x, y, step, (k - 1) as nat);
        lemma_dist2_nonneg(x, y, (x, y));
        let d = crate::propagate::direction_spec(k - 1);
        let cand = decode_spec(crate::raster::sample_spec(px, w, h, x + d.0 * step, y + d.1 * step));
        if let Some(c) = cand {
            lemma_dist2_nonneg(x, y, c);
        }
    }
}

/// Propagation keeps the buffer's size.
pub proof fn lemma_propagate_len(px: Seq<Pixel>, w: int, h: int, steps: Seq<u32>)
    ensures
        propagate_spec(px, w, h, steps).len() == px.len(),
    decreases steps.len(),
{
    if steps.len() > 0 {
        lemma_propagate_len(px, w, h, steps.drop_last());
    }
}

/// A pixel whose record is its own coordinate keeps that record through every
/// propagation pass.
pub proof fn lemma_propagate_keeps_own(px: Seq<Pixel>, w: int, h: int, steps: Seq<u32>, i: int)
    requires
        0 < w <= COORD_LIMIT,
        0 < h <= COORD_LIMIT,
        px.len() == w * h,
        0 <= i < px.len(),
        decode_spec(px[i]) == Some((i % w, i / w)),
    ensures
        decode_spec(propagate_spec(px, w, h, steps)[i]) == Some((i % w, i / w)),
    decreases steps.len(),
{
    if steps.len() > 0 {
        let prev = propagate_spec(px, w, h, steps.drop_last());
        lemma_propagate_keeps_own(px, w, h, steps.drop_last(), i);
        lemma_propagate_len(px, w, h, steps.drop_last());
        lemma_coord_of_index(w, h, i);
        lemma_scan_keeps_own(prev, w, h, i % w, i / w, steps.last() as int, 8);
    }
}

/// Seed self-distance: after the full pipeline, a pixel that the classifier
/// marks as a seed records itself as its nearest seed, at distance zero, and
/// is finalized with the seed marker.
pub proof fn lemma_seed_self_distance(
    mask: Seq<Pixel>,
    w: int,
    h: int,
    threshold_milli: int,
    steps: Seq<u32>,
    params: FinalizeParams,
    i: int,
)
    requires
        0 < w <= COORD_LIMIT,
        0 < h <= COORD_LIMIT,
        mask.len() == w * h,
        0 <= i < mask.len(),
        is_seed_spec(mask[i], threshold_milli),
    ensures
        decode_spec(seeds_after_spec(mask, w, h, threshold_milli, steps)[i]) == Some((i % w, i / w)),
        dist2_spec(i % w, i / w, (i % w, i / w)) == 0,
        pipeline_spec(mask, w, h, threshold_milli, steps, params)[i] == marker_spec(),
{
    lemma_coord_of_index(w, h, i);
    let seeds = classify_spec(mask, w, threshold_milli);
    lemma_propagate_keeps_own(seeds, w, h, steps, i);
    lemma_propagate_len(seeds, w, h, steps);
    lemma_dist2_nonneg(i % w, i / w, (i % w, i / w));
}

/// Finalizing is a pure function of the seed buffer and the parameters: two
/// runs on the same input give identical output.
pub proof fn lemma_finalize_deterministic(px: Seq<Pixel>, w: int, params: FinalizeParams, first: Seq<Pixel>, second: Seq<Pixel>)
    requires
        first == finalize_spec(px, w, params),
        second == finalize_spec(px, w, params),
    ensures
        first == second,
{
}

} // verus!
