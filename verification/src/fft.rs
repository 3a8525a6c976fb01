//! Which transforms a backend can plan.
//!
//! The transforms themselves work on floating-point numbers and are the
//! caller's; a plan says of which length and in which direction.

use vstd::prelude::*;

verus! {

/// Longest transform of the portable backend.
pub const MICRO_MAX: usize = 8192;

/// Shortest transform of the signal-processing library.
pub const ESP_MIN: usize = 4;

/// A power of two.
pub open spec fn is_pow2(n: int) -> bool
    decreases n,
{
    n == 1 || (n > 1 && n % 2 == 0 && is_pow2(n / 2))
}

/// Whether a number is a power of two.
pub fn is_power_of_two(n: usize) -> (yes: bool)
    ensures
        yes == is_pow2(n as int),
{
    let mut rest: usize = n;
    while rest > 1 && rest % 2 == 0
        invariant
            is_pow2(n as int) == is_pow2(rest as int),
        decreases rest,
    {
        rest = rest / 2;
    }
    rest == 1
}

/// A transform of one length in one direction.
#[derive(Clone, Copy, Debug, PartialEq, Eq, Structural)]
pub struct FftPlan {
    pub len: usize,
    pub forward: bool,
}

/// Lengths of the portable backend: powers of two from 2 to 8192.
pub open spec fn micro_supports(len: int) -> bool {
    is_pow2(len) && 2 <= len <= 8192
}

/// Plans transforms of the portable backend.
pub struct MicroFftPlanner;

impl MicroFftPlanner {
    /// A planner.
    pub fn new() -> (p: MicroFftPlanner)
        ensures
            p == MicroFftPlanner,
    {
        MicroFftPlanner
    }

    /// Whether a length can be planned.
    pub fn supports(&self, len: usize) -> (yes: bool)
        ensures
            yes == micro_supports(len as int),
    {
        is_power_of_two(len) && len >= 2 && len <= MICRO_MAX
    }

    /// Plan a forward transform.
    pub fn plan_forward(&mut self, len: usize) -> (plan: FftPlan)
        requires
            micro_supports(len as int),
        ensures
            plan == (FftPlan { len, forward: true }),
    {
        FftPlan { len, forward: true }
    }

    /// Plan an inverse transform.
    pub fn plan_inverse(&mut self, len: usize) -> (plan: FftPlan)
        requires
            micro_supports(len as int),
        ensures
            plan == (FftPlan { len, forward: false }),
    {
        FftPlan { len, forward: false }
    }
}

/// The lengths of the portable backend are thirteen.
pub proof fn law_micro_lengths(len: int)
    ensures
        micro_supports(len) <==> (len == 2 || len == 4 || len == 8 || len == 16 || len == 32 || len
            == 64 || len == 128 || len == 256 || len == 512 || len == 1024 || len == 2048 || len
            == 4096 || len == 8192),
{
    reveal_with_fuel(is_pow2, 15);
}

/// Plans transforms of the signal-processing library, which wants a table of
/// factors made once for the longest transform.
pub struct EspDspPlanner {
    /// Longest transform that the table serves; nought where there is none.
    pub initialised_max: usize,
}

/// A plan, and whether a table of its length has to be made first.
#[derive(Clone, Copy, Debug, PartialEq, Eq, Structural)]
pub struct EspDspPlan {
    pub plan: FftPlan,
    pub make_table: bool,
}

/// Lengths of the library: powers of two from 4 on.
pub open spec fn esp_supports(len: int) -> bool {
    is_pow2(len) && len >= 4
}

impl EspDspPlanner {
    /// A planner without a table.
    pub fn new() -> (p: EspDspPlanner)
        ensures
            p.initialised_max == 0,
    {
        EspDspPlanner { initialised_max: 0 }
    }

    /// Whether a length can be planned.
    pub fn supports(&self, len: usize) -> (yes: bool)
        ensures
            yes == esp_supports(len as int),
    {
        is_power_of_two(len) && len >= ESP_MIN
    }

    /// Whether a table of this length has to be made; it is taken as made.
    fn ensure_table(&mut self, len: usize) -> (make: bool)
        ensures
            make == (len > old(self).initialised_max),
            final(self).initialised_max == (if make {
                len
            } else {
                old(self).initialised_max
            }),
    {
        if len <= self.initialised_max {
            false
        } else {
            self.initialised_max = len;
            true
        }
    }

    /// Plan a forward transform.
    pub fn plan_forward(&mut self, len: usize) -> (plan: EspDspPlan)
        requires
            esp_supports(len as int),
        ensures
            plan.plan == (FftPlan { len, forward: true }),
            plan.make_table == (len > old(self).initialised_max),
            final(self).initialised_max >= len,
            final(self).initialised_max == (if plan.make_table {
                len
            } else {
                old(self).initialised_max
            }),
    {
        let make_table: bool = self.ensure_table(len);
        EspDspPlan { plan: FftPlan { len, forward: true }, make_table }
    }

    /// Plan an inverse transform.
    pub fn plan_inverse(&mut self, len: usize) -> (plan: EspDspPlan)
        requires
            esp_supports(len as int),
        ensures
            plan.plan == (FftPlan { len, forward: false }),
            plan.make_table == (len > old(self).initialised_max),
            final(self).initialised_max >= len,
            final(self).initialised_max == (if plan.make_table {
                len
            } else {
                old(self).initialised_max
            }),
    {
        let make_table: bool = self.ensure_table(len);
        EspDspPlan { plan: FftPlan { len, forward: false }, make_table }
    }
}

/// The lengths of the library are 4 and, with every length, twice that length.
pub proof fn law_library_lengths(len: int)
    ensures
        esp_supports(len) ==> len >= 4 && len % 4 == 0,
        esp_supports(2 * len) <==> len == 2 || esp_supports(len),
{
    reveal_with_fuel(is_pow2, 4);
    assert((2 * len) / 2 == len);
}

} // verus!
