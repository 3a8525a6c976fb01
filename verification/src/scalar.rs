//! Scalar abstraction for log-likelihood ratios and belief propagation.
//!
//! [`LlrScalar`] names the handful of operations that the min-sum decoder
//! needs. [`Q11i16`] is the integer implementation: a sixteen bit fixed-point
//! number with eleven fractional bits, a range of about +-16 and a resolution
//! of 1/2048. Sums run in a wider accumulator, so that adding three messages
//! to a channel value cannot wrap.

use core::cmp::Ordering;
use vstd::prelude::*;

verus! {

/// The nearest `i16` to an integer.
pub open spec fn clamp_i16(v: int) -> int {
    if v < i16::MIN {
        i16::MIN as int
    } else if v > i16::MAX {
        i16::MAX as int
    } else {
        v
    }
}

/// The nearest `i32` to an integer.
pub open spec fn clamp_i32(v: int) -> int {
    if v < i32::MIN {
        i32::MIN as int
    } else if v > i32::MAX {
        i32::MAX as int
    } else {
        v
    }
}

/// Saturating conversion to `i32`.
fn saturate_i32(v: i64) -> (r: i32)
    ensures
        r == clamp_i32(v as int),
{
    if v < i32::MIN as i64 {
        i32::MIN
    } else if v > i32::MAX as i64 {
        i32::MAX
    } else {
        v as i32
    }
}

/// Scalar used by the log-likelihood and belief-propagation code.
///
/// Each executable operation is tied to a specification function of the same
/// trait, so that a decoder generic over the scalar has an exact contract.
pub trait LlrScalar: Copy {
    /// Accumulator wide enough for a channel value plus its messages.
    type Wide: Copy;

    /// Representation of a normalisation factor.
    type Alpha: Copy;

    /// The additive identity.
    spec fn zero_value() -> Self;

    /// The value that no magnitude exceeds.
    spec fn sentinel_value() -> Self;

    spec fn negated(self) -> Self;

    spec fn magnitude(self) -> Self;

    spec fn negative(self) -> bool;

    /// Strict order of two values.
    spec fn below(self, other: Self) -> bool;

    /// The factors that [`Self::mul_alpha`] accepts.
    spec fn alpha_fits(alpha: Self::Alpha) -> bool;

    spec fn scaled(self, alpha: Self::Alpha) -> Self;

    spec fn wide(self) -> Self::Wide;

    spec fn wide_zero_value() -> Self::Wide;

    spec fn wide_sum(a: Self::Wide, b: Self::Wide) -> Self::Wide;

    spec fn wide_difference(a: Self::Wide, b: Self::Wide) -> Self::Wide;

    spec fn narrowed(w: Self::Wide) -> Self;

    spec fn wide_positive(w: Self::Wide) -> bool;

    /// Additive identity.
    fn zero() -> (r: Self)
        ensures
            r == Self::zero_value(),
    ;

    /// Largest representable value, the starting point of a minimum search.
    fn pos_inf_like() -> (r: Self)
        ensures
            r == Self::sentinel_value(),
    ;

    /// Saturating negation.
    fn neg_sat(self) -> (r: Self)
        ensures
            r == self.negated(),
    ;

    /// Saturating absolute value.
    fn abs_sat(self) -> (r: Self)
        ensures
            r == self.magnitude(),
    ;

    /// Sign predicate for the hard decision.
    fn is_negative(self) -> (b: bool)
        ensures
            b == self.negative(),
    ;

    /// Total-order comparison. Values neither of which is below the other
    /// compare as equal.
    fn cmp_total(self, other: Self) -> (o: Ordering)
        ensures
            (o == Ordering::Less) <==> self.below(other),
            (o == Ordering::Greater) <==> (!self.below(other) && other.below(self)),
    ;

    /// Strict comparison by the total order.
    fn lt_total(self, other: Self) -> (b: bool)
        ensures
            b == self.below(other),
    {
        matches!(self.cmp_total(other), Ordering::Less)
    }

    /// Multiply by a normalisation factor, saturating.
    fn mul_alpha(self, alpha: Self::Alpha) -> (r: Self)
        requires
            Self::alpha_fits(alpha),
        ensures
            r == self.scaled(alpha),
    ;

    /// Promote to the wide accumulator.
    fn to_wide(self) -> (w: Self::Wide)
        ensures
            w == self.wide(),
    ;

    /// Wide additive identity.
    fn wide_zero() -> (w: Self::Wide)
        ensures
            w == Self::wide_zero_value(),
    ;

    /// Wide sum.
    fn wide_add(a: Self::Wide, b: Self::Wide) -> (w: Self::Wide)
        ensures
            w == Self::wide_sum(a, b),
    ;

    /// Wide difference.
    fn wide_sub(a: Self::Wide, b: Self::Wide) -> (w: Self::Wide)
        ensures
            w == Self::wide_difference(a, b),
    ;

    /// Demote with saturation.
    fn from_wide_sat(w: Self::Wide) -> (r: Self)
        ensures
            r == Self::narrowed(w),
    ;

    /// Sign predicate on the wide accumulator.
    fn wide_is_positive(w: Self::Wide) -> (b: bool)
        ensures
            b == Self::wide_positive(w),
    ;
}

/// Fixed-point log-likelihood ratio: the inner value is the ratio times 2048.
#[derive(Clone, Copy, Debug, PartialEq, Eq, Structural, Default)]
pub struct Q11i16(pub i16);

/// One as a [`Q11i16`] inner value.
pub const Q11_ONE: i32 = 2048;

/// One as a normalisation factor of [`Q11i16`].
pub const ALPHA_ONE: i32 = 32768;

impl Q11i16 {
    /// The fixed-point value nearest to `v`, which counts in 1/2048.
    pub open spec fn nearest(v: int) -> Q11i16 {
        Q11i16(clamp_i16(v) as i16)
    }

    /// Saturating conversion from a count of 1/2048.
    pub fn from_count(v: i32) -> (r: Q11i16)
        ensures
            r == Q11i16::nearest(v as int),
    {
        if v < -32768 {
            Q11i16(-32768)
        } else if v > 32767 {
            Q11i16(32767)
        } else {
            Q11i16(v as i16)
        }
    }
}

/// A right shift by fifteen places rounds towards minus infinity.
pub proof fn lemma_shift_15(v: i32)
    ensures
        (v >> 15) as int == (v as int) / 32768,
{
    assert(v >> 15 == v / 32768) by (bit_vector);
}

impl LlrScalar for Q11i16 {
    type Wide = i32;

    /// Factor as a multiple of 1/32768.
    type Alpha = i32;

    open spec fn zero_value() -> Self {
        Q11i16(0)
    }

    open spec fn sentinel_value() -> Self {
        Q11i16(i16::MAX)
    }

    open spec fn negated(self) -> Self {
        Q11i16::nearest(-(self.0 as int))
    }

    open spec fn magnitude(self) -> Self {
        Q11i16::nearest(
            if self.0 < 0 {
                -(self.0 as int)
            } else {
                self.0 as int
            },
        )
    }

    open spec fn negative(self) -> bool {
        self.0 < 0
    }

    open spec fn below(self, other: Self) -> bool {
        self.0 < other.0
    }

    open spec fn alpha_fits(alpha: i32) -> bool {
        -65535 <= alpha <= 65536
    }

    open spec fn scaled(self, alpha: i32) -> Self {
        Q11i16::nearest((self.0 * alpha) / 32768)
    }

    open spec fn wide(self) -> i32 {
        self.0 as i32
    }

    open spec fn wide_zero_value() -> i32 {
        0
    }

    open spec fn wide_sum(a: i32, b: i32) -> i32 {
        clamp_i32(a + b) as i32
    }

    open spec fn wide_difference(a: i32, b: i32) -> i32 {
        clamp_i32(a - b) as i32
    }

    open spec fn narrowed(w: i32) -> Self {
        Q11i16::nearest(w as int)
    }

    open spec fn wide_positive(w: i32) -> bool {
        w > 0
    }

    fn zero() -> (r: Self) {
        Q11i16(0)
    }

    fn pos_inf_like() -> (r: Self) {
        Q11i16(i16::MAX)
    }

    fn neg_sat(self) -> (r: Self) {
        if self.0 == i16::MIN {
            Q11i16(i16::MAX)
        } else {
            Q11i16(-self.0)
        }
    }

    fn abs_sat(self) -> (r: Self) {
        if self.0 < 0 {
            self.neg_sat()
        } else {
            self
        }
    }

    fn is_negative(self) -> (b: bool) {
        self.0 < 0
    }

    fn cmp_total(self, other: Self) -> (o: Ordering) {
        if self.0 < other.0 {
            Ordering::Less
        } else if other.0 < self.0 {
            Ordering::Greater
        } else {
            Ordering::Equal
        }
    }

    fn mul_alpha(self, alpha: i32) -> (r: Self) {
        let ghost x = self.0 as int;
        assert(-2147483648 <= x * alpha <= 2147483647) by (nonlinear_arith)
            requires
                -32768 <= x <= 32767,
                -65535 <= alpha <= 65536,
        ;
        let product: i32 = (self.0 as i32) * alpha;
        proof {
            lemma_shift_15(product);
        }
        Q11i16::from_count(product >> 15)
    }

    fn to_wide(self) -> (w: i32) {
        self.0 as i32
    }

    fn wide_zero() -> (w: i32) {
        0
    }

    fn wide_add(a: i32, b: i32) -> (w: i32) {
        saturate_i32(a as i64 + b as i64)
    }

    fn wide_sub(a: i32, b: i32) -> (w: i32) {
        saturate_i32(a as i64 - b as i64)
    }

    fn from_wide_sat(w: i32) -> (r: Self) {
        Q11i16::from_count(w)
    }

    fn wide_is_positive(w: i32) -> (b: bool) {
        w > 0
    }
}

/// Negating twice gives the value back, except for the most negative value,
/// which saturates on the way.
pub proof fn law_negation_is_an_involution(q: Q11i16)
    requires
        q.0 != i16::MIN,
    ensures
        q.negated().negated() == q,
{
}

/// A scaled value keeps its sign and does not grow when the factor is between
/// nought and one.
pub proof fn law_scaling_shrinks(q: Q11i16, alpha: i32)
    requires
        0 <= alpha <= ALPHA_ONE,
    ensures
        q.0 >= 0 ==> 0 <= q.scaled(alpha).0 <= q.0,
        q.0 <= 0 ==> q.0 <= q.scaled(alpha).0 <= 0,
{
    let x = q.0 as int;
    let a = alpha as int;
    if x >= 0 {
        assert(0 <= x * a <= x * 32768) by (nonlinear_arith)
            requires
                x >= 0,
                0 <= a <= 32768,
        ;
        assert(0 <= (x * a) / 32768 <= x);
    } else {
        assert(x * 32768 <= x * a <= 0) by (nonlinear_arith)
            requires
                x < 0,
                0 <= a <= 32768,
        ;
        assert(x <= (x * a) / 32768 <= 0);
    }
}

/// Fixed-point arithmetic is that of the numbers, held at the ends of the range.
pub proof fn law_fixed_point_arithmetic(q: Q11i16, w: i32, v: i32)
    ensures
        q.0 > -32768 ==> q.negated().0 == -q.0,
        q.0 == -32768 ==> q.negated().0 == 32767,
        q.0 >= 0 ==> q.magnitude() == q,
        q.0 < 0 ==> q.magnitude() == q.negated(),
        q.wide() == q.0,
        -32768 <= w <= 32767 ==> Q11i16::narrowed(w).0 == w,
        w > 32767 ==> Q11i16::narrowed(w).0 == 32767,
        w < -32768 ==> Q11i16::narrowed(w).0 == -32768,
        -2147483648 <= w + v <= 2147483647 ==> Q11i16::wide_sum(w, v) == w + v,
        -2147483648 <= w - v <= 2147483647 ==> Q11i16::wide_difference(w, v) == w - v,
        Q11i16::wide_positive(w) <==> w > 0,
        Q11i16::zero_value().0 == 0,
{
}

} // verus!
