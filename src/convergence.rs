use vstd::prelude::*;
use vstd::arithmetic::div_mod::{lemma_fundamental_div_mod, lemma_fundamental_div_mod_converse};
use crate::codec::{Pixel, COORD_LIMIT, decode_spec};
use crate::raster::{cell, clamp_spec, index_of, sample_spec, lemma_coord_of_index, lemma_index_in_bounds};
use crate::classify::{classify_spec, is_seed_spec};
use crate::propagate::{direction_spec, scan_spec, nearest_spec, pass_spec, propagate_spec, record_spec};
use crate::pipeline::seeds_after_spec;

verus! {

/// Every valid record of `px` names the seed `s`.
pub open spec fn only_seed(px: Seq<Pixel>, s: (int, int)) -> bool {
    forall|i: int| 0 <= i < px.len() ==> (#[trigger] decode_spec(px[i]) is None || decode_spec(px[i]) == Some(s))
}

/// Every pixel whose offset from `s` is a multiple of `m` on both axes holds `s`.
pub open spec fn reached(px: Seq<Pixel>, w: int, h: int, s: (int, int), m: int) -> bool {
    forall|x: int, y: int| 0 <= x < w && 0 <= y < h && (x - s.0) % m == 0 && (y - s.1) % m == 0
        ==> #[trigger] decode_spec(cell(px, w, x, y)) == Some(s)
}

/// A step sequence that halves from pass to pass down to 1, and whose first
/// step, doubled, spans the larger side of a `w` × `h` grid. Its steps then sum
/// to at least that side less one.
pub open spec fn halving_cover(steps: Seq<u32>, w: int, h: int) -> bool {
    &&& steps.len() > 0
    &&& steps.last() == 1
    &&& forall|k: int| 0 <= k < steps.len() - 1 ==> #[trigger] steps[k] == 2 * steps[k + 1]
    &&& 2 * steps[0] >= w
    &&& 2 * steps[0] >= h
}

/// Every step of a covering halving sequence is at least 1.
proof fn lemma_steps_positive(steps: Seq<u32>, w: int, h: int, k: int)
    requires
        halving_cover(steps, w, h),
        0 <= k < steps.len(),
    ensures
        steps[k] >= 1,
    decreases steps.len() - k,
{
    if k < steps.len() - 1 {
        lemma_steps_positive(steps, w, h, k + 1);
        assert(steps[k] == 2 * steps[k + 1]);
    }
}

/// `n` is a power of two.
pub open spec fn is_pow2(n: int) -> bool
    decreases n,
{
    if n <= 1 {
        n == 1
    } else {
        n % 2 == 0 && is_pow2(n / 2)
    }
}

/// The halving step sequence for a `w` × `h` grid: from the smallest power of
/// two whose double reaches the larger side, down to 1.
pub fn halving_steps(w: u32, h: u32) -> (r: Vec<u32>)
    requires
        0 < w,
        0 < h,
    ensures
        halving_cover(r@, w as int, h as int),
        r@[0] == 1 || r@[0] < w || r@[0] < h,
{
    let side: u64 = if w >= h { w as u64 } else { h as u64 };
    let mut first: u64 = 1;
    while 2 * first < side
        invariant
            1 <= first <= side,
            first == 1 || first < side,
            side == w || side == h,
            side <= u32::MAX,
            is_pow2(first as int),
        decreases side - first,
    {
        first = 2 * first;
        assert((2 * (first / 2)) % 2 == 0 && (2 * (first / 2)) / 2 == first / 2);
    }
    let mut steps: Vec<u32> = Vec::new();
    steps.push(first as u32);
    let mut s: u64 = first;
    while s > 1
        invariant
            1 <= s <= first,
            first <= u32::MAX,
            first == 1 || first < w || first < h,
            is_pow2(s as int),
            steps@.len() > 0,
            steps@[0] == first,
            steps@.last() == s,
            forall|k: int| 0 <= k < steps@.len() - 1 ==> #[trigger] steps@[k] == 2 * steps@[k + 1],
        decreases s,
    {
        s = s / 2;
        steps.push(s as u32);
    }
    steps
}

/// An offset that is a multiple of `t` either is a multiple of `2t` already,
/// or one step of `t` towards zero makes it one.
proof fn lemma_halve_offset(d: int, t: int)
    requires
        t >= 1,
        d % t == 0,
    ensures
        d % (2 * t) == 0 || (d != 0 && (d > 0 ==> d >= t && (d - t) % (2 * t) == 0)
            && (d < 0 ==> d <= -t && (d + t) % (2 * t) == 0)),
{
    lemma_fundamental_div_mod(d, t);
    let q = d / t;
    assert(d == t * q);
    lemma_fundamental_div_mod(q, 2);
    let r = q / 2;
    let b = q % 2;
    if b == 0 {
        assert(d == (2 * t) * r) by (nonlinear_arith)
            requires d == t * q, q == 2 * r + b, b == 0;
        lemma_fundamental_div_mod_converse(d, 2 * t, r, 0);
    } else {
        assert(b == 1);
        assert(d - t == (2 * t) * r && d + t == (2 * t) * (r + 1)) by (nonlinear_arith)
            requires d == t * q, q == 2 * r + b, b == 1;
        lemma_fundamental_div_mod_converse(d - t, 2 * t, r, 0);
        lemma_fundamental_div_mod_converse(d + t, 2 * t, r + 1, 0);
        assert(d != 0 && (d > 0 ==> d >= t) && (d < 0 ==> d <= -t)) by (nonlinear_arith)
            requires d == t * (2 * r + 1), t >= 1;
    }
}

proof fn lemma_unit_mul(o: int, t: int)
    requires
        o == -1 || o == 0 || o == 1,
    ensures
        o * t == if o == 0 { 0 } else if o == -1 { -t } else { t },
{
    if o == -1 {
        assert(o * t == -t) by (nonlinear_arith) requires o == -1;
    } else if o == 1 {
        assert(o * t == t) by (nonlinear_arith) requires o == 1;
    } else {
        assert(o * t == 0) by (nonlinear_arith) requires o == 0;
    }
}

/// A multiple of `m` strictly between `-m` and `m` is zero.
proof fn lemma_small_multiple(d: int, m: int)
    requires
        m > 0,
        -m < d < m,
        d % m == 0,
    ensures
        d == 0,
{
    lemma_fundamental_div_mod(d, m);
    let q = d / m;
    assert(q == 0) by (nonlinear_arith)
        requires d == m * q, -m < d < m, m > 0;
}

/// A scan over a buffer that only names `s` finds nothing or `s`.
proof fn lemma_scan_only(px: Seq<Pixel>, w: int, h: int, s: (int, int), x: int, y: int, t: int, k: nat)
    requires
        0 < w,
        0 < h,
        px.len() == w * h,
        0 <= x < w,
        0 <= y < h,
        only_seed(px, s),
    ensures
        scan_spec(px, w, h, x, y, t, k) is None || scan_spec(px, w, h, x, y, t, k) == Some(s),
    decreases k,
{
    if k == 0 {
        lemma_index_in_bounds(w, h, x, y);
    } else {
        lemma_scan_only(px, w, h, s, x, y, t, (k - 1) as nat);
        let d = direction_spec(k - 1);
        let cx = clamp_spec(x + d.0 * t, w - 1);
        let cy = clamp_spec(y + d.1 * t, h - 1);
        lemma_index_in_bounds(w, h, cx, cy);
    }
}

/// Once the own value, or the `j`-th sample, holds `s`, a scan that has
/// looked at it ends at `s`.
proof fn lemma_scan_found(px: Seq<Pixel>, w: int, h: int, s: (int, int), x: int, y: int, t: int, j: int, k: nat)
    requires
        0 < w,
        0 < h,
        px.len() == w * h,
        0 <= x < w,
        0 <= y < h,
        only_seed(px, s),
        -1 <= j < k,
        j == -1 ==> decode_spec(cell(px, w, x, y)) == Some(s),
        j >= 0 ==> decode_spec(sample_spec(px, w, h, x + direction_spec(j).0 * t, y + direction_spec(j).1 * t))
            == Some(s),
    ensures
        scan_spec(px, w, h, x, y, t, k) == Some(s),
    decreases k,
{
    if k > 0 {
        let d = direction_spec(k - 1);
        let cx = clamp_spec(x + d.0 * t, w - 1);
        let cy = clamp_spec(y + d.1 * t, h - 1);
        lemma_index_in_bounds(w, h, cx, cy);
        if j < k - 1 {
            lemma_scan_found(px, w, h, s, x, y, t, j, (k - 1) as nat);
        } else {
            lemma_scan_only(px, w, h, s, x, y, t, (k - 1) as nat);
        }
    }
}

/// One pass over a buffer that only names `s` still only names `s`.
proof fn lemma_pass_only(px: Seq<Pixel>, w: int, h: int, s: (int, int), t: int)
    requires
        0 < w <= COORD_LIMIT,
        0 < h <= COORD_LIMIT,
        0 <= s.0 < w,
        0 <= s.1 < h,
        px.len() == w * h,
        only_seed(px, s),
    ensures
        pass_spec(px, w, h, t).len() == px.len(),
        only_seed(pass_spec(px, w, h, t), s),
{
    assert forall|i: int| 0 <= i < pass_spec(px, w, h, t).len() implies
        (#[trigger] decode_spec(pass_spec(px, w, h, t)[i]) is None
            || decode_spec(pass_spec(px, w, h, t)[i]) == Some(s)) by {
        lemma_coord_of_index(w, h, i);
        lemma_scan_only(px, w, h, s, i % w, i / w, t, 8);
    }
}

/// A pass with step `t` over a buffer in which every pixel at a multiple of
/// `2t` from the seed holds it brings the seed to every pixel at a multiple of
/// `t`.
proof fn lemma_pass_reaches(px: Seq<Pixel>, w: int, h: int, s: (int, int), t: int)
    requires
        0 < w <= COORD_LIMIT,
        0 < h <= COORD_LIMIT,
        0 <= s.0 < w,
        0 <= s.1 < h,
        t >= 1,
        px.len() == w * h,
        only_seed(px, s),
        reached(px, w, h, s, 2 * t),
    ensures
        reached(pass_spec(px, w, h, t), w, h, s, t),
{
    let out = pass_spec(px, w, h, t);
    assert forall|x: int, y: int| 0 <= x < w && 0 <= y < h && (x - s.0) % t == 0 && (y - s.1) % t == 0
        implies #[trigger] decode_spec(cell(out, w, x, y)) == Some(s) by {
        lemma_index_in_bounds(w, h, x, y);
        lemma_halve_offset(x - s.0, t);
        lemma_halve_offset(y - s.1, t);
        let ox: int = if (x - s.0) % (2 * t) == 0 { 0 } else if x - s.0 > 0 { -1 } else { 1 };
        let oy: int = if (y - s.1) % (2 * t) == 0 { 0 } else if y - s.1 > 0 { -1 } else { 1 };
        let qx: int = if ox == 0 { x } else if ox == -1 { x - t } else { x + t };
        let qy: int = if oy == 0 { y } else if oy == -1 { y - t } else { y + t };
        lemma_unit_mul(ox, t);
        lemma_unit_mul(oy, t);
        assert(0 <= qx < w && (qx - s.0) % (2 * t) == 0);
        assert(0 <= qy < h && (qy - s.1) % (2 * t) == 0);
        assert(decode_spec(cell(px, w, qx, qy)) == Some(s));
        if ox == 0 && oy == 0 {
            lemma_scan_found(px, w, h, s, x, y, t, -1, 8);
        } else {
            let idx = (ox + 1) * 3 + (oy + 1);
            let j = if idx < 4 { idx } else { idx - 1 };
            assert(direction_spec(j) == (ox, oy));
            assert(sample_spec(px, w, h, x + ox * t, y + oy * t) == cell(px, w, qx, qy));
            lemma_scan_found(px, w, h, s, x, y, t, j, 8);
        }
        assert(nearest_spec(px, w, h, x, y, t) == Some(s));
        assert(out[index_of(w, x, y)] == record_spec(Some(s)));
    }
}

/// After the first `i` passes of a covering halving sequence the buffer only
/// names `s`, and holds it at every pixel at a multiple of the last step from
/// it (of twice the first step, before any pass).
proof fn lemma_converge_prefix(px: Seq<Pixel>, w: int, h: int, s: (int, int), steps: Seq<u32>, i: int)
    requires
        0 < w <= COORD_LIMIT,
        0 < h <= COORD_LIMIT,
        0 <= s.0 < w,
        0 <= s.1 < h,
        px.len() == w * h,
        only_seed(px, s),
        decode_spec(cell(px, w, s.0, s.1)) == Some(s),
        halving_cover(steps, w, h),
        0 <= i <= steps.len(),
    ensures
        propagate_spec(px, w, h, steps.take(i)).len() == px.len(),
        only_seed(propagate_spec(px, w, h, steps.take(i)), s),
        reached(propagate_spec(px, w, h, steps.take(i)), w, h, s,
            if i == 0 { 2 * steps[0] } else { steps[i - 1] as int }),
    decreases i,
{
    if i == 0 {
        assert(steps.take(0) =~= Seq::<u32>::empty());
        let m = 2 * steps[0];
        assert forall|x: int, y: int| 0 <= x < w && 0 <= y < h && (x - s.0) % m == 0 && (y - s.1) % m == 0
            implies #[trigger] decode_spec(cell(px, w, x, y)) == Some(s) by {
            lemma_small_multiple(x - s.0, m);
            lemma_small_multiple(y - s.1, m);
        }
    } else {
        lemma_converge_prefix(px, w, h, s, steps, i - 1);
        let prev = propagate_spec(px, w, h, steps.take(i - 1));
        let t = steps[i - 1] as int;
        assert(steps.take(i).drop_last() =~= steps.take(i - 1));
        assert(steps.take(i).last() == steps[i - 1]);
        lemma_steps_positive(steps, w, h, i - 1);
        if i - 1 > 0 {
            assert(steps[i - 2] == 2 * steps[i - 1]);
        }
        lemma_pass_only(prev, w, h, s, t);
        lemma_pass_reaches(prev, w, h, s, t);
    }
}

/// Convergence of a single seed: on a mask whose only pixel above the
/// threshold is `(x0, y0)`, after classification and every pass of a step
/// sequence that halves down to 1 and spans the grid, every pixel records
/// `(x0, y0)` as its nearest seed.
pub proof fn lemma_single_seed_converges(
    mask: Seq<Pixel>,
    w: int,
    h: int,
    threshold_milli: int,
    steps: Seq<u32>,
    x0: int,
    y0: int,
)
    requires
        0 < w <= COORD_LIMIT,
        0 < h <= COORD_LIMIT,
        mask.len() == w * h,
        0 <= x0 < w,
        0 <= y0 < h,
        forall|i: int| 0 <= i < mask.len() ==> (#[trigger] is_seed_spec(mask[i], threshold_milli)
            <==> i == index_of(w, x0, y0)),
        halving_cover(steps, w, h),
    ensures
        seeds_after_spec(mask, w, h, threshold_milli, steps).len() == mask.len(),
        forall|i: int| 0 <= i < mask.len()
            ==> #[trigger] decode_spec(seeds_after_spec(mask, w, h, threshold_milli, steps)[i]) == Some((x0, y0)),
{
    let s = (x0, y0);
    let seeds = classify_spec(mask, w, threshold_milli);
    assert forall|i: int| 0 <= i < seeds.len() implies
        (#[trigger] decode_spec(seeds[i]) is None || decode_spec(seeds[i]) == Some(s)) by {
        lemma_coord_of_index(w, h, i);
        if is_seed_spec(mask[i], threshold_milli) {
            lemma_index_in_bounds(w, h, x0, y0);
        }
    }
    lemma_index_in_bounds(w, h, x0, y0);
    assert(decode_spec(cell(seeds, w, x0, y0)) == Some(s));
    lemma_converge_prefix(seeds, w, h, s, steps, steps.len() as int);
    assert(steps.take(steps.len() as int) =~= steps);
    let out = seeds_after_spec(mask, w, h, threshold_milli, steps);
    assert forall|i: int| 0 <= i < mask.len() implies #[trigger] decode_spec(out[i]) == Some(s) by {
        lemma_coord_of_index(w, h, i);
        assert((i % w - x0) % 1 == 0 && (i / w - y0) % 1 == 0);
        assert(decode_spec(cell(out, w, i % w, i / w)) == Some(s));
    }
}

} // verus!
