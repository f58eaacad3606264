//! Runtime selection of a vector width from a fixed priority ladder.
//!
//! A kernel is written once against an abstract lane width and executed at
//! the widest width that both the build configuration enabled and the running
//! processor supports. Probing the processor is an environment effect, so the
//! embedder performs it and hands the result in as plain flags; everything
//! from there on — the ladder, the choice, the invocation — is verified here.

use vstd::prelude::*;

verus! {

/// One lane width from the fixed dispatch ladder. Each variant stands for a
/// vector extension whose registers hold a fixed number of 32-bit lanes.
#[derive(Clone, Copy, PartialEq, Eq, Structural, Debug)]
pub enum SimdWidth {
    /// 512-bit registers, 16 lanes.
    Width512,
    /// 256-bit registers, 8 lanes.
    Width256,
    /// 128-bit NEON registers, 4 lanes.
    WidthNeon,
    /// 128-bit WASM registers, 4 lanes.
    WidthWasm128,
    /// Single-lane fallback; always available and always correct.
    WidthScalar,
}

impl SimdWidth {
    /// Lane count of this width.
    pub open spec fn spec_lanes(self) -> nat {
        match self {
            SimdWidth::Width512 => 16,
            SimdWidth::Width256 => 8,
            SimdWidth::WidthNeon => 4,
            SimdWidth::WidthWasm128 => 4,
            SimdWidth::WidthScalar => 1,
        }
    }

    /// Lane count of this width.
    pub fn lanes(self) -> (n: usize)
        ensures
            n == self.spec_lanes(),
            1 <= n <= 16,
    {
        match self {
            SimdWidth::Width512 => 16,
            SimdWidth::Width256 => 8,
            SimdWidth::WidthNeon => 4,
            SimdWidth::WidthWasm128 => 4,
            SimdWidth::WidthScalar => 1,
        }
    }
}

/// A set of vector extensions: those a build enabled, or those the running
/// processor reports. The scalar fallback needs no flag; it is always there.
#[derive(Clone, Copy, PartialEq, Eq, Structural, Debug)]
pub struct SimdCaps {
    /// 512-bit extension (widest rung of the ladder).
    pub w512: bool,
    /// 256-bit extension together with fused multiply-add.
    pub w256: bool,
    /// 128-bit NEON extension.
    pub neon: bool,
    /// 128-bit WASM vector extension.
    pub wasm128: bool,
}

impl SimdCaps {
    /// The empty set: no extension available, so only scalar runs.
    pub fn none() -> (c: SimdCaps)
        ensures
            c == (SimdCaps { w512: false, w256: false, neon: false, wasm128: false }),
    {
        SimdCaps { w512: false, w256: false, neon: false, wasm128: false }
    }
}

/// The width the ladder selects for a build-enabled set and a detected set:
/// the first rung, widest first, present in both, else the scalar fallback.
pub open spec fn spec_select_width(enabled: SimdCaps, detected: SimdCaps) -> SimdWidth {
    if enabled.w512 && detected.w512 {
        SimdWidth::Width512
    } else if enabled.w256 && detected.w256 {
        SimdWidth::Width256
    } else if enabled.neon && detected.neon {
        SimdWidth::WidthNeon
    } else if enabled.wasm128 && detected.wasm128 {
        SimdWidth::WidthWasm128
    } else {
        SimdWidth::WidthScalar
    }
}

/// An operation that can be evaluated at any lane width of the ladder and
/// yields, for each width, one determined output.
pub trait SimdOp: Sized {
    /// Output type returned by the operation.
    type Output;

    /// The value the operation yields when run at the given width.
    spec fn spec_eval(self, width: SimdWidth) -> Self::Output;

    /// Evaluate the operation using the given lane width.
    fn eval(self, width: SimdWidth) -> (r: Self::Output)
        ensures
            r == self.spec_eval(width),
    ;

    /// Evaluate this operation at the width the ladder selects for the
    /// given build-enabled and detected extension sets.
    fn dispatch(self, enabled: SimdCaps, detected: SimdCaps) -> (r: Self::Output)
        ensures
            r == self.spec_eval(spec_select_width(enabled, detected)),
    {
        let dispatcher = SimdDispatcher::new(enabled, detected);
        let width = dispatcher.select_width();
        self.eval(width)
    }
}

/// Dispatches operations using the preferred lane width for the current
/// system: the widest extension both enabled at build time and reported by
/// the processor, with scalar as the guaranteed fallback.
#[derive(Clone, Copy, PartialEq, Eq, Structural, Debug)]
pub struct SimdDispatcher {
    /// Extensions the build configuration enabled.
    pub enabled: SimdCaps,
    /// Extensions the running processor reports.
    pub detected: SimdCaps,
}

impl SimdDispatcher {
    /// A dispatcher for a build-enabled set and a probed set.
    pub fn new(enabled: SimdCaps, detected: SimdCaps) -> (d: SimdDispatcher)
        ensures
            d == (SimdDispatcher { enabled, detected }),
    {
        SimdDispatcher { enabled, detected }
    }

    /// The width this dispatcher selects.
    pub open spec fn spec_width(self) -> SimdWidth {
        spec_select_width(self.enabled, self.detected)
    }

    /// Pick the widest lane width that is both enabled and detected,
    /// falling back to scalar.
    pub fn select_width(&self) -> (w: SimdWidth)
        ensures
            w == self.spec_width(),
    {
        if self.enabled.w512 && self.detected.w512 {
            SimdWidth::Width512
        } else if self.enabled.w256 && self.detected.w256 {
            SimdWidth::Width256
        } else if self.enabled.neon && self.detected.neon {
            SimdWidth::WidthNeon
        } else if self.enabled.wasm128 && self.detected.wasm128 {
            SimdWidth::WidthWasm128
        } else {
            SimdWidth::WidthScalar
        }
    }

    /// Evaluate `op` once, at the selected width.
    pub fn dispatch<Op: SimdOp>(&self, op: Op) -> (r: Op::Output)
        ensures
            r == op.spec_eval(self.spec_width()),
    {
        let width = self.select_width();
        op.eval(width)
    }
}

impl Default for SimdDispatcher {
    /// With no probed information every rung is absent, so the default
    /// dispatcher always selects the scalar fallback.
    fn default() -> (d: SimdDispatcher)
        ensures
            d.spec_width() == SimdWidth::WidthScalar,
    {
        SimdDispatcher { enabled: SimdCaps::none(), detected: SimdCaps::none() }
    }
}

/// Run `op` at the width selected for the given build-enabled and detected
/// extension sets. The sets arrive as plain flags from the embedder, which is
/// the only place processor probing happens.
pub fn dispatch<Op: SimdOp>(op: Op, enabled: SimdCaps, detected: SimdCaps) -> (r: Op::Output)
    ensures
        r == op.spec_eval(spec_select_width(enabled, detected)),
{
    SimdDispatcher::new(enabled, detected).dispatch(op)
}

/// The width selected is never one the ladder was not offered: either both
/// sets contain its rung, or it is the scalar fallback.
pub proof fn lemma_select_width_sound(enabled: SimdCaps, detected: SimdCaps)
    ensures
        spec_select_width(enabled, detected) == SimdWidth::Width512 ==> enabled.w512
            && detected.w512,
        spec_select_width(enabled, detected) == SimdWidth::Width256 ==> enabled.w256
            && detected.w256,
        spec_select_width(enabled, detected) == SimdWidth::WidthNeon ==> enabled.neon
            && detected.neon,
        spec_select_width(enabled, detected) == SimdWidth::WidthWasm128 ==> enabled.wasm128
            && detected.wasm128,
{
}

} // verus!
