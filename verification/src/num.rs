//! The numbers that probabilities and expected values are made of.
//!
//! Everything in the solver that is computed with fractions is written over
//! [`Scalar`], an arithmetic whose operations are total and deterministic. The
//! contracts of the solver say which operations are applied to which numbers
//! and in which order, so they hold of exact arithmetic and of a rounding one
//! alike. [`Fixed`] is the arithmetic that this crate brings along: decimal
//! fixed point, the same on every machine.
use vstd::prelude::*;

verus! {

/// An arithmetic: what each operation means is stated by the function whose
/// name ends in `_spec`, and the operation computes it.
pub trait Scalar: Sized + Copy {
    spec fn plus_spec(self, rhs: Self) -> Self;

    spec fn minus_spec(self, rhs: Self) -> Self;

    spec fn times_spec(self, rhs: Self) -> Self;

    spec fn over_spec(self, rhs: Self) -> Self;

    spec fn less_spec(self, rhs: Self) -> bool;

    spec fn ratio_spec(num: i64, den: i64) -> Self;

    spec fn floor_spec(self) -> i64;

    /// The sum of two numbers.
    fn plus(self, rhs: Self) -> (r: Self)
        ensures
            r == self.plus_spec(rhs),
    ;

    /// The difference of two numbers.
    fn minus(self, rhs: Self) -> (r: Self)
        ensures
            r == self.minus_spec(rhs),
    ;

    /// The product of two numbers.
    fn times(self, rhs: Self) -> (r: Self)
        ensures
            r == self.times_spec(rhs),
    ;

    /// The quotient of two numbers.
    fn over(self, rhs: Self) -> (r: Self)
        ensures
            r == self.over_spec(rhs),
    ;

    /// Whether this number is the smaller one.
    fn less(self, rhs: Self) -> (r: bool)
        ensures
            r == self.less_spec(rhs),
    ;

    /// The number that stands for the fraction `num / den`.
    fn ratio(num: i64, den: i64) -> (r: Self)
        ensures
            r == Self::ratio_spec(num, den),
    ;

    /// The largest whole number that is not above this one.
    fn floor(self) -> (r: i64)
        ensures
            r == self.floor_spec(),
    ;
}

/// The whole number `n`.
pub open spec fn whole<N: Scalar>(n: i64) -> N {
    N::ratio_spec(n, 1)
}

/// The number zero.
pub open spec fn zero<N: Scalar>() -> N {
    whole::<N>(0)
}

/// The number one.
pub open spec fn one<N: Scalar>() -> N {
    whole::<N>(1)
}

/// The number minus one.
pub open spec fn minus_one<N: Scalar>() -> N {
    whole::<N>((-1) as i64)
}

/// The larger of two numbers, the first where neither is.
pub open spec fn larger<N: Scalar>(a: N, b: N) -> N {
    if a.less_spec(b) {
        b
    } else {
        a
    }
}

/// Neither below nor above zero.
pub open spec fn is_nil<N: Scalar>(x: N) -> bool {
    !x.less_spec(zero::<N>()) && !zero::<N>().less_spec(x)
}

/// The sum of a sequence, taken from the left and starting at zero.
pub open spec fn total<N: Scalar>(s: Seq<N>) -> N
    decreases s.len(),
{
    if s.len() == 0 {
        zero::<N>()
    } else {
        total(s.drop_last()).plus_spec(s.last())
    }
}

/// The whole number `n`.
pub fn from_whole<N: Scalar>(n: i64) -> (r: N)
    ensures
        r == whole::<N>(n),
{
    N::ratio(n, 1)
}

/// The larger of two numbers, the first where neither is.
pub fn max_of<N: Scalar>(a: N, b: N) -> (r: N)
    ensures
        r == larger(a, b),
{
    if a.less(b) {
        b
    } else {
        a
    }
}

/// Neither below nor above zero.
pub fn is_zero<N: Scalar>(x: N) -> (r: bool)
    ensures
        r == is_nil(x),
{
    let z: N = from_whole(0);
    !x.less(z) && !z.less(x)
}

/// How many units of [`Fixed`] make one.
pub const UNITS: i64 = 1_000_000_000;

/// A decimal fixed-point number with nine digits behind the point. Operations
/// whose exact result has more digits cut them off, and a result out of range
/// becomes the nearest number in range.
#[derive(Clone, Copy, PartialEq, Eq, Structural)]
pub struct Fixed {
    /// The number of billionths.
    pub raw: i64,
}

/// `x / d` with the digits behind the point cut off, and zero where `d` is zero.
pub open spec fn cut(x: int, d: int) -> int {
    if d == 0 {
        0
    } else if x >= 0 && d > 0 {
        x / d
    } else if x >= 0 {
        -(x / (-d))
    } else if d > 0 {
        -((-x) / d)
    } else {
        (-x) / (-d)
    }
}

/// The number in range that is nearest to `x` billionths.
pub open spec fn clamped(x: int) -> Fixed {
    Fixed {
        raw: if x > i64::MAX {
            i64::MAX
        } else if x < i64::MIN {
            i64::MIN
        } else {
            x as i64
        },
    }
}

fn clamp_raw(x: i128) -> (r: Fixed)
    ensures
        r == clamped(x as int),
{
    if x > i64::MAX as i128 {
        Fixed { raw: i64::MAX }
    } else if x < i64::MIN as i128 {
        Fixed { raw: i64::MIN }
    } else {
        Fixed { raw: x as i64 }
    }
}

fn magnitude(x: i128) -> (r: u128)
    requires
        x > i128::MIN,
    ensures
        r == if x >= 0 {
            x as int
        } else {
            -x
        },
{
    if x >= 0 {
        x as u128
    } else {
        (-x) as u128
    }
}

/// The quotient with the digits behind the point cut off.
fn cut_div(x: i128, d: i128) -> (r: i128)
    requires
        i128::MIN < x,
        i128::MIN < d,
    ensures
        r == cut(x as int, d as int),
{
    if d == 0 {
        return 0;
    }
    let mx: u128 = magnitude(x);
    let md: u128 = magnitude(d);
    let q: u128 = mx / md;
    assert(q <= mx) by (nonlinear_arith)
        requires
            q == mx / md,
            md > 0,
    ;
    if (x >= 0) == (d > 0) {
        q as i128
    } else {
        -(q as i128)
    }
}

impl Scalar for Fixed {
    open spec fn plus_spec(self, rhs: Self) -> Self {
        clamped(self.raw + rhs.raw)
    }

    open spec fn minus_spec(self, rhs: Self) -> Self {
        clamped(self.raw - rhs.raw)
    }

    open spec fn times_spec(self, rhs: Self) -> Self {
        clamped(cut(self.raw * rhs.raw, UNITS as int))
    }

    open spec fn over_spec(self, rhs: Self) -> Self {
        clamped(cut(self.raw * UNITS, rhs.raw as int))
    }

    open spec fn less_spec(self, rhs: Self) -> bool {
        self.raw < rhs.raw
    }

    open spec fn ratio_spec(num: i64, den: i64) -> Self {
        clamped(cut(num * UNITS, den as int))
    }

    open spec fn floor_spec(self) -> i64 {
        (self.raw as int / 1_000_000_000) as i64
    }

    fn plus(self, rhs: Self) -> (r: Self) {
        clamp_raw(self.raw as i128 + rhs.raw as i128)
    }

    fn minus(self, rhs: Self) -> (r: Self) {
        clamp_raw(self.raw as i128 - rhs.raw as i128)
    }

    fn times(self, rhs: Self) -> (r: Self) {
        let a: i128 = self.raw as i128;
        let b: i128 = rhs.raw as i128;
        assert(-0x4000_0000_0000_0000_0000_0000_0000_0000 <= a * b
            <= 0x4000_0000_0000_0000_0000_0000_0000_0000) by (nonlinear_arith)
            requires
                -0x8000_0000_0000_0000 <= a <= 0x8000_0000_0000_0000,
                -0x8000_0000_0000_0000 <= b <= 0x8000_0000_0000_0000,
        ;
        clamp_raw(cut_div(a * b, UNITS as i128))
    }

    fn over(self, rhs: Self) -> (r: Self) {
        let scaled: i128 = self.raw as i128 * 1_000_000_000;
        clamp_raw(cut_div(scaled, rhs.raw as i128))
    }

    fn less(self, rhs: Self) -> (r: bool) {
        self.raw < rhs.raw
    }

    fn ratio(num: i64, den: i64) -> (r: Self) {
        let scaled: i128 = num as i128 * 1_000_000_000;
        clamp_raw(cut_div(scaled, den as i128))
    }

    fn floor(self) -> (r: i64) {
        match self.raw.checked_div_euclid(1_000_000_000) {
            Some(q) => q,
            None => 0,
        }
    }
}

} // verus!
