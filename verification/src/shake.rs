//! Screen-shake feedback effect: a transient camera perturbation triggered by
//! a refused spawn. While active, the shake amount decays linearly from the
//! peak intensity to zero over a fixed duration; on expiry the camera offset
//! snaps back to exactly zero. Time is counted in milliseconds and offsets in
//! thousandths of a world unit, so the decay is exact integer arithmetic.

use vstd::prelude::*;

verus! {

/// How long a freshly triggered shake lasts, in milliseconds.
pub const SHAKE_DURATION_MS: u64 = 200;

/// Peak shake amount, in thousandths of a world unit.
pub const SHAKE_INTENSITY_MILLI: u64 = 5000;

/// Upper bound on durations and intensities that keeps the decay arithmetic
/// within `u64`.
pub const SHAKE_BOUND: u64 = 1000000;

#[derive(PartialEq, Eq, Structural, Clone, Copy)]
pub struct ScreenShake {
    /// Time left until the effect expires, in milliseconds.
    pub remaining_ms: u64,
    /// Full duration the effect was triggered with, in milliseconds.
    pub duration_ms: u64,
    /// Peak shake amount, in thousandths of a world unit.
    pub intensity_milli: u64,
}

impl ScreenShake {
    /// A live effect has time left, never more than its duration, and stays
    /// within the bounds that keep the decay arithmetic exact.
    pub open spec fn wf(&self) -> bool {
        &&& 1 <= self.duration_ms <= SHAKE_BOUND
        &&& 1 <= self.remaining_ms <= self.duration_ms
        &&& self.intensity_milli <= SHAKE_BOUND
    }

    /// Current shake amount: the peak intensity scaled by the fraction of the
    /// duration still remaining.
    pub open spec fn amount_spec(&self) -> int {
        self.intensity_milli * self.remaining_ms / (self.duration_ms as int)
    }

    /// The effect as triggered: full duration remaining, peak intensity.
    pub fn fresh() -> (s: ScreenShake)
        ensures
            s == Self::fresh_spec(),
            s.wf(),
    {
        ScreenShake {
            remaining_ms: SHAKE_DURATION_MS,
            duration_ms: SHAKE_DURATION_MS,
            intensity_milli: SHAKE_INTENSITY_MILLI,
        }
    }

    pub open spec fn fresh_spec() -> ScreenShake {
        ScreenShake {
            remaining_ms: SHAKE_DURATION_MS,
            duration_ms: SHAKE_DURATION_MS,
            intensity_milli: SHAKE_INTENSITY_MILLI,
        }
    }

    /// Current shake amount; never larger than the peak intensity.
    pub fn amount(&self) -> (a: u64)
        requires
            self.wf(),
        ensures
            a == self.amount_spec(),
            a <= self.intensity_milli,
    {
        proof {
            assert(self.intensity_milli * self.remaining_ms <= SHAKE_BOUND * SHAKE_BOUND)
                by (nonlinear_arith)
                requires
                    self.intensity_milli <= SHAKE_BOUND,
                    self.remaining_ms <= SHAKE_BOUND,
            ;
            assert(self.intensity_milli * self.remaining_ms <= self.intensity_milli
                * self.duration_ms) by (nonlinear_arith)
                requires
                    self.remaining_ms <= self.duration_ms,
            ;
            vstd::arithmetic::div_mod::lemma_div_is_ordered(
                self.intensity_milli * self.remaining_ms,
                self.intensity_milli * self.duration_ms,
                self.duration_ms as int,
            );
            vstd::arithmetic::div_mod::lemma_div_by_multiple(
                self.intensity_milli as int,
                self.duration_ms as int,
            );
        }
        self.intensity_milli * self.remaining_ms / self.duration_ms
    }
}

} // verus!
