use vstd::prelude::*;
use crate::codec::{Pixel, COORD_LIMIT};
use crate::raster::Raster;
use crate::classify::{classify, classify_spec};
use crate::propagate::{propagate, propagate_spec};
use crate::finalize::{FinalizeParams, distinct_from_marker, finalize, finalize_spec};

verus! {

/// Why an invocation was refused before any pass ran.
#[derive(Clone, Copy, Debug, PartialEq, Eq, Structural)]
pub enum ConfigError {
    /// Width or height is zero.
    EmptyGrid,
    /// The mask does not hold exactly width × height pixels.
    BufferSizeMismatch,
    /// The step sequence is empty.
    EmptySteps,
    /// A step is zero.
    ZeroStep,
}

/// The first configuration error of an invocation, checked in the order of the
/// variants of `ConfigError`, or `None` when the invocation may run.
pub open spec fn config_error_spec(mask: Raster, threshold_milli: int, steps: Seq<u32>) -> Option<ConfigError> {
    if mask.width == 0 || mask.height == 0 {
        Some(ConfigError::EmptyGrid)
    } else if mask.pixels@.len() != mask.width as int * mask.height as int {
        Some(ConfigError::BufferSizeMismatch)
    } else if steps.len() == 0 {
        Some(ConfigError::EmptySteps)
    } else if exists|k: int| 0 <= k < steps.len() && steps[k] == 0 {
        Some(ConfigError::ZeroStep)
    } else {
        None
    }
}

/// A grid wider or taller than the seed encoding can address: its stored
/// coordinates wrap, and the distances computed from them lose precision.
pub open spec fn overflows_spec(width: u32, height: u32) -> bool {
    width > COORD_LIMIT || height > COORD_LIMIT
}

/// The result of an invocation, with the precision-loss warning.
pub struct Field {
    /// The computed buffer.
    pub raster: Raster,
    /// Set when the grid exceeds the encoding's range: the computation still
    /// ran, on coordinates taken modulo 256.
    pub encoding_overflow: bool,
}

/// Whether a grid exceeds the encoding's range.
pub fn encoding_overflows(width: u32, height: u32) -> (r: bool)
    ensures
        r == overflows_spec(width, height),
{
    width > COORD_LIMIT || height > COORD_LIMIT
}

/// The seed buffer after classification and every propagation pass.
pub open spec fn seeds_after_spec(px: Seq<Pixel>, w: int, h: int, threshold_milli: int, steps: Seq<u32>) -> Seq<Pixel> {
    propagate_spec(classify_spec(px, w, threshold_milli), w, h, steps)
}

/// The output of a full invocation on mask storage `px`.
pub open spec fn pipeline_spec(
    px: Seq<Pixel>,
    w: int,
    h: int,
    threshold_milli: int,
    steps: Seq<u32>,
    params: FinalizeParams,
) -> Seq<Pixel> {
    finalize_spec(seeds_after_spec(px, w, h, threshold_milli, steps), w, params)
}

/// Checks an invocation's configuration.
#[verifier::loop_isolation(false)]
pub fn check_config(mask: &Raster, threshold_milli: u32, steps: &Vec<u32>) -> (r: Result<(), ConfigError>)
    ensures
        match r {
            Ok(_) => config_error_spec(*mask, threshold_milli as int, steps@) is None,
            Err(e) => config_error_spec(*mask, threshold_milli as int, steps@) == Some(e),
        },
{
    if mask.width == 0 || mask.height == 0 {
        return Err(ConfigError::EmptyGrid);
    }
    assert(mask.width as int * mask.height as int <= u64::MAX) by (nonlinear_arith)
        requires mask.width <= u32::MAX, mask.height <= u32::MAX;
    if (mask.width as u64) * (mask.height as u64) != mask.pixels.len() as u64 {
        return Err(ConfigError::BufferSizeMismatch);
    }
    if steps.len() == 0 {
        return Err(ConfigError::EmptySteps);
    }
    let mut k: usize = 0;
    while k < steps.len()
        invariant
            k <= steps@.len(),
            forall|j: int| 0 <= j < k ==> steps@[j] != 0,
        decreases steps@.len() - k,
    {
        if steps[k] == 0 {
            assert(steps@[k as int] == 0);
            return Err(ConfigError::ZeroStep);
        }
        k = k + 1;
    }
    Ok(())
}

/// Pipeline Driver: one full invocation. Classifies the mask, runs one
/// propagation pass per step and finalizes the last pass's output. A
/// configuration error is reported before any pass runs; a grid beyond the
/// encoding's range is computed all the same and flagged.
pub fn run(mask: &Raster, threshold_milli: u32, steps: &Vec<u32>, params: FinalizeParams) -> (r: Result<Field, ConfigError>)
    requires
        distinct_from_marker(params),
    ensures
        match r {
            Ok(_) => config_error_spec(*mask, threshold_milli as int, steps@) is None,
            Err(e) => config_error_spec(*mask, threshold_milli as int, steps@) == Some(e),
        },
        r matches Ok(f) ==> f.encoding_overflow == overflows_spec(mask.width, mask.height)
            && f.raster.wf() && f.raster.width == mask.width && f.raster.height == mask.height
            && f.raster.pixels@ == pipeline_spec(
                mask.pixels@, mask.width as int, mask.height as int, threshold_milli as int, steps@, params),
{
    match check_config(mask, threshold_milli, steps) {
        Err(e) => Err(e),
        Ok(()) => {
            let seeds: Raster = classify(mask, threshold_milli);
            let flooded: Raster = propagate(seeds, steps);
            Ok(Field {
                raster: finalize(&flooded, params),
                encoding_overflow: encoding_overflows(mask.width, mask.height),
            })
        },
    }
}

/// Classification and propagation alone: the seed buffer that `run` finalizes.
pub fn nearest_seeds(mask: &Raster, threshold_milli: u32, steps: &Vec<u32>) -> (r: Result<Field, ConfigError>)
    ensures
        match r {
            Ok(_) => config_error_spec(*mask, threshold_milli as int, steps@) is None,
            Err(e) => config_error_spec(*mask, threshold_milli as int, steps@) == Some(e),
        },
        r matches Ok(f) ==> f.encoding_overflow == overflows_spec(mask.width, mask.height)
            && f.raster.wf() && f.raster.width == mask.width && f.raster.height == mask.height
            && f.raster.pixels@ == seeds_after_spec(
                mask.pixels@, mask.width as int, mask.height as int, threshold_milli as int, steps@),
{
    match check_config(mask, threshold_milli, steps) {
        Err(e) => Err(e),
        Ok(()) => {
            let seeds: Raster = classify(mask, threshold_milli);
            Ok(Field {
                raster: propagate(seeds, steps),
                encoding_overflow: encoding_overflows(mask.width, mask.height),
            })
        },
    }
}

} // verus!
