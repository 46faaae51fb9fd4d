use jump_flood::classify::{classify, is_seed};
use jump_flood::codec::{decode, encode, no_seed, Pixel};
use jump_flood::finalize::{background, field_color, finalize, glow_level, marker, smooth, FinalizeParams};
use jump_flood::convergence::halving_steps;
use jump_flood::pipeline::{check_config, encoding_overflows, nearest_seeds, run, ConfigError};
use jump_flood::propagate::{dist2, jump_flood_pass, propagate};
use jump_flood::raster::{clamp, Raster};

const WHITE: Pixel = Pixel { r: 255, g: 255, b: 255, a: 255 };
const BLACK: Pixel = Pixel { r: 0, g: 0, b: 0, a: 255 };
const GREEN: Pixel = Pixel { r: 0, g: 255, b: 0, a: 255 };

fn mask_with(w: u32, h: u32, seeds: &[(u32, u32)]) -> Raster {
    let mut m = Raster::new(w, h, BLACK);
    for &(x, y) in seeds {
        m.pixels[(y * w + x) as usize] = WHITE;
    }
    m
}

fn glow_params(radius: u16, cutoff: bool) -> FinalizeParams {
    FinalizeParams { radius, inner: GREEN, outer: BLACK, cutoff }
}

fn decoded(r: &Raster) -> Vec<Option<(u32, u32)>> {
    r.pixels.iter().map(|p| decode(*p)).collect()
}

#[test]
fn round_trip_every_coordinate() {
    for x in 0..256u32 {
        for y in 0..256u32 {
            assert_eq!(decode(encode(x, y)), Some((x, y)));
        }
    }
    assert_eq!(decode(no_seed()), None);
}

#[test]
fn threshold_is_strict() {
    // 0.3 of 255 is 76.5: 76 is below, 77 above.
    assert!(!is_seed(Pixel { r: 76, g: 0, b: 0, a: 255 }, 300));
    assert!(is_seed(Pixel { r: 77, g: 0, b: 0, a: 255 }, 300));
    assert!(!is_seed(WHITE, 1000));
    assert!(is_seed(Pixel { r: 1, g: 0, b: 0, a: 0 }, 0));
}

#[test]
fn single_seed_scenario() {
    let mask = mask_with(8, 8, &[(3, 3)]);
    let seeds = classify(&mask, 300);
    for y in 0..8u32 {
        for x in 0..8u32 {
            let expected = if (x, y) == (3, 3) { Some((3, 3)) } else { None };
            assert_eq!(decode(seeds.get(x, y)), expected);
        }
    }
    let steps = vec![4, 2, 1];
    let flooded = nearest_seeds(&mask, 300, &steps).unwrap().raster;
    assert!(decoded(&flooded).iter().all(|c| *c == Some((3, 3))));
    let out = run(&mask, 300, &steps, glow_params(4, true)).unwrap().raster;
    for y in 0..8u32 {
        for x in 0..8u32 {
            let d2 = (x as i32 - 3).pow(2) + (y as i32 - 3).pow(2);
            let p = out.get(x, y);
            if d2 == 0 {
                assert_eq!(p, marker());
            } else if d2 < 16 {
                assert_ne!(p, background());
                assert_ne!(p, marker());
            } else {
                assert_eq!(p, background());
            }
        }
    }
    assert_eq!(out.get(4, 3), Pixel { r: 0, g: 214, b: 0, a: 255 });
    assert_eq!(out.get(5, 3), Pixel { r: 0, g: 126, b: 0, a: 255 });
    assert_eq!(out.get(6, 3), Pixel { r: 0, g: 39, b: 0, a: 255 });
    assert_eq!(out.get(4, 4), Pixel { r: 0, g: 180, b: 0, a: 255 });
}

#[test]
fn empty_mask_scenario() {
    let mask = mask_with(8, 8, &[]);
    let seeds = classify(&mask, 300);
    assert!(decoded(&seeds).iter().all(|c| c.is_none()));
    let flooded = nearest_seeds(&mask, 300, &vec![4, 2, 1]).unwrap().raster;
    assert!(decoded(&flooded).iter().all(|c| c.is_none()));
    let out = run(&mask, 300, &vec![4, 2, 1], glow_params(4, false)).unwrap().raster;
    assert!(out.pixels.iter().all(|p| *p == background()));
}

#[test]
fn two_seeds_split_along_diagonal() {
    // Ties on the anti-diagonal x + y == 7 go to (0, 0): each pixel keeps its
    // own value first, then reads its neighbours in the fixed order, and only a
    // strictly closer candidate replaces the best so far.
    let mask = mask_with(8, 8, &[(0, 0), (7, 7)]);
    let flooded = nearest_seeds(&mask, 300, &vec![4, 2, 1]).unwrap().raster;
    for y in 0..8u32 {
        for x in 0..8u32 {
            let expected = if x + y <= 7 { (0, 0) } else { (7, 7) };
            assert_eq!(decode(flooded.get(x, y)), Some(expected), "pixel ({}, {})", x, y);
        }
    }
}

#[test]
fn clamped_sampling_reads_the_edge() {
    let mut g = Raster::new(4, 3, no_seed());
    for y in 0..3u32 {
        for x in 0..4u32 {
            g.pixels[(y * 4 + x) as usize] = encode(x, y);
        }
    }
    assert_eq!(g.sample_clamped(-3, 2), g.get(0, 2));
    assert_eq!(g.sample_clamped(9, 1), g.get(3, 1));
    assert_eq!(g.sample_clamped(2, -1), g.get(2, 0));
    assert_eq!(g.sample_clamped(2, 7), g.get(2, 2));
    assert_eq!(g.sample_clamped(-5, 40), g.get(0, 2));
    assert_eq!(clamp(-1, 5), 0);
    assert_eq!(clamp(6, 5), 5);
    assert_eq!(clamp(3, 5), 3);
}

#[test]
fn pass_clamps_instead_of_wrapping() {
    let seeds = classify(&mask_with(8, 8, &[(0, 0)]), 300);
    let next = jump_flood_pass(&seeds, 4);
    // (2, 2) samples (-2, -2), clamped to the seed's corner.
    assert_eq!(decode(next.get(2, 2)), Some((0, 0)));
    // (6, 6) samples (2, 2) and (10, 10) -> (7, 7); wrapping would not apply.
    assert_eq!(decode(next.get(6, 6)), None);
    assert_eq!(decode(next.get(0, 0)), Some((0, 0)));
}

#[test]
fn finalize_twice_is_identical() {
    let seeds = propagate(classify(&mask_with(8, 8, &[(1, 2), (6, 5)]), 300), &vec![4, 2, 1]);
    let a = finalize(&seeds, glow_params(3, true));
    let b = finalize(&seeds, glow_params(3, true));
    assert_eq!(a.pixels, b.pixels);
}

#[test]
fn convergence_on_larger_grid() {
    let mask = mask_with(16, 16, &[(13, 2)]);
    let flooded = nearest_seeds(&mask, 300, &vec![8, 4, 2, 1]).unwrap().raster;
    assert!(decoded(&flooded).iter().all(|c| *c == Some((13, 2))));
}

#[test]
fn seeds_keep_distance_zero() {
    let mask = mask_with(8, 8, &[(1, 1), (2, 1), (6, 6)]);
    let out = run(&mask, 300, &vec![4, 2, 1], glow_params(2, true)).unwrap().raster;
    assert_eq!(out.get(1, 1), marker());
    assert_eq!(out.get(2, 1), marker());
    assert_eq!(out.get(6, 6), marker());
}

#[test]
fn unbounded_glow_colours_far_pixels() {
    let mask = mask_with(8, 8, &[(0, 0)]);
    let out = run(&mask, 300, &vec![4, 2, 1], glow_params(2, false)).unwrap().raster;
    assert_eq!(out.get(7, 7), BLACK);
    let cut = run(&mask, 300, &vec![4, 2, 1], glow_params(2, true)).unwrap().raster;
    assert_eq!(cut.get(7, 7), background());
}

#[test]
fn glow_formulas() {
    assert_eq!(glow_level(1, 4), 191);
    assert_eq!(glow_level(4, 4), 127);
    assert_eq!(glow_level(15, 4), 8);
    assert_eq!(glow_level(16, 4), 0);
    assert_eq!(glow_level(100, 4), 0);
    assert_eq!(smooth(0), 0);
    assert_eq!(smooth(128), 128);
    assert_eq!(smooth(255), 255);
    assert_eq!(smooth(191), 214);
    assert_eq!(dist2(3, 3, 6, 7), 25);
    assert_eq!(dist2(7, 0, 0, 7), 98);
    assert_eq!(field_color(0, glow_params(4, true)), marker());
    assert_eq!(field_color(16, glow_params(4, true)), background());
    assert_eq!(field_color(4, glow_params(4, true)), Pixel { r: 0, g: 126, b: 0, a: 255 });
}

#[test]
fn configuration_errors() {
    let good = mask_with(8, 8, &[(3, 3)]);
    let steps = vec![4, 2, 1];
    assert_eq!(check_config(&good, 300, &steps), Ok(()));
    let empty = Raster { width: 0, height: 8, pixels: vec![] };
    assert_eq!(run(&empty, 300, &steps, glow_params(4, true)).err(), Some(ConfigError::EmptyGrid));
    let short = Raster { width: 8, height: 8, pixels: vec![BLACK; 10] };
    assert_eq!(check_config(&short, 300, &steps), Err(ConfigError::BufferSizeMismatch));
    assert_eq!(check_config(&good, 300, &vec![]), Err(ConfigError::EmptySteps));
    assert_eq!(nearest_seeds(&good, 300, &vec![4, 0, 1]).err(), Some(ConfigError::ZeroStep));
}

#[test]
fn oversized_grid_runs_with_warning() {
    let mask = mask_with(300, 1, &[(290, 0)]);
    let field = run(&mask, 300, &vec![1], glow_params(4, true)).unwrap();
    assert!(field.encoding_overflow);
    assert_eq!(field.raster.pixels.len(), 300);
    // The seed's column wraps to 290 - 256 = 34.
    let seeds = nearest_seeds(&mask, 300, &vec![1]).unwrap();
    assert!(seeds.encoding_overflow);
    assert_eq!(decode(seeds.raster.get(290, 0)), Some((34, 0)));
    assert!(encoding_overflows(257, 1));
    assert!(!encoding_overflows(256, 256));
    let small = run(&mask_with(8, 8, &[(3, 3)]), 300, &vec![4, 2, 1], glow_params(4, true)).unwrap();
    assert!(!small.encoding_overflow);
}

#[test]
fn threshold_above_full_marks_no_seed() {
    let mask = mask_with(8, 8, &[(3, 3)]);
    let seeds = nearest_seeds(&mask, 1001, &vec![4, 2, 1]).unwrap().raster;
    assert!(decoded(&seeds).iter().all(|c| c.is_none()));
}

#[test]
fn halving_step_sequences() {
    assert_eq!(halving_steps(8, 8), vec![4, 2, 1]);
    assert_eq!(halving_steps(128, 128), vec![64, 32, 16, 8, 4, 2, 1]);
    assert_eq!(halving_steps(16, 5), vec![8, 4, 2, 1]);
    assert_eq!(halving_steps(1, 1), vec![1]);
    assert_eq!(halving_steps(2, 1), vec![1]);
    assert_eq!(halving_steps(300, 1), vec![256, 128, 64, 32, 16, 8, 4, 2, 1]);
}

#[test]
fn glow_never_takes_marker_colour() {
    let near = FinalizeParams {
        radius: 8,
        inner: Pixel { r: 255, g: 255, b: 255, a: 254 },
        outer: Pixel { r: 255, g: 255, b: 254, a: 255 },
        cutoff: false,
    };
    for d2 in 1..100u128 {
        assert_ne!(field_color(d2, near), marker());
    }
}

#[test]
fn rgba_bytes_round_trip() {
    let bytes: Vec<u8> = (0..32u8).collect();
    let g = Raster::from_rgba(4, 2, &bytes).unwrap();
    assert_eq!(g.get(1, 0), Pixel { r: 4, g: 5, b: 6, a: 7 });
    assert_eq!(g.get(3, 1), Pixel { r: 28, g: 29, b: 30, a: 31 });
    assert_eq!(g.to_rgba(), bytes);
    assert!(Raster::from_rgba(4, 3, &bytes).is_none());
    assert!(Raster::from_rgba(0, 2, &bytes).is_none());
}
