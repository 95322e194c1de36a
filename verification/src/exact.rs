//! What it means that an arithmetic is exact.
//!
//! The contracts of this crate name the operations that are carried out. What
//! those come to, as numbers, is stated of an exact arithmetic: one whose
//! operations are those of the real numbers.
use crate::num::{total, whole, Scalar};
use vstd::prelude::*;

verus! {

/// Whether the arithmetic is exact when each number is read as the real number that
/// `val` gives.
pub open spec fn exact<N: Scalar>(val: spec_fn(N) -> real) -> bool {
    &&& forall|a: N, b: N| #[trigger] val(a.plus_spec(b)) == val(a) + val(b)
    &&& forall|a: N, b: N| #[trigger] val(a.minus_spec(b)) == val(a) - val(b)
    &&& forall|a: N, b: N| #[trigger] val(a.times_spec(b)) == val(a) * val(b)
    &&& forall|a: N, b: N| val(b) != 0real ==> #[trigger] val(a.over_spec(b)) == val(a) / val(b)
    &&& forall|a: N, b: N| #[trigger] a.less_spec(b) == (val(a) < val(b))
    &&& forall|num: i64, den: i64|
        den != 0 ==> #[trigger] val(N::ratio_spec(num, den)) == (num as int) as real / (den as int) as real
}

/// The sum of the numbers of a list.
pub open spec fn real_sum(s: Seq<real>) -> real
    decreases s.len(),
{
    if s.len() == 0 {
        0real
    } else {
        real_sum(s.drop_last()) + s.last()
    }
}

/// What the numbers of a list stand for.
pub open spec fn vals<N: Scalar>(val: spec_fn(N) -> real, s: Seq<N>) -> Seq<real> {
    Seq::new(s.len(), |i: int| val(s[i]))
}

/// A whole number stands for itself.
pub proof fn exact_whole<N: Scalar>(val: spec_fn(N) -> real, n: i64)
    requires
        exact(val),
    ensures
        val(whole::<N>(n)) == (n as int) as real,
{
    let x = (n as int) as real;
    assert(val(N::ratio_spec(n, 1)) == x / 1real);
    assert(x / 1real == x) by (nonlinear_arith);
}

/// A sum stands for the sum.
pub proof fn exact_total<N: Scalar>(val: spec_fn(N) -> real, s: Seq<N>)
    requires
        exact(val),
    ensures
        val(total(s)) == real_sum(vals(val, s)),
    decreases s.len(),
{
    exact_whole::<N>(val, 0);
    if s.len() > 0 {
        exact_total(val, s.drop_last());
        assert(vals(val, s).drop_last() =~= vals(val, s.drop_last()));
    }
}

/// Dividing every number of a list by one number divides the sum.
pub proof fn sum_of_quotients(s: Seq<real>, q: Seq<real>, d: real)
    requires
        s.len() == q.len(),
        d != 0real,
        forall|i: int| 0 <= i < s.len() ==> #[trigger] q[i] == s[i] / d,
    ensures
        real_sum(q) == real_sum(s) / d,
    decreases s.len(),
{
    if s.len() == 0 {
        assert(0real / d == 0real) by (nonlinear_arith)
            requires
                d != 0real,
        ;
    } else {
        sum_of_quotients(s.drop_last(), q.drop_last(), d);
        let a = real_sum(s.drop_last());
        let b = s.last();
        assert(q.last() == s.last() / d);
        assert(a / d + b / d == (a + b) / d) by (nonlinear_arith)
            requires
                d != 0real,
        ;
    }
}

/// A sum of numbers that are not negative is not negative, and none of them is
/// greater than it.
pub proof fn sum_is_large(s: Seq<real>)
    requires
        forall|i: int| 0 <= i < s.len() ==> #[trigger] s[i] >= 0real,
    ensures
        real_sum(s) >= 0real,
        forall|i: int| 0 <= i < s.len() ==> #[trigger] s[i] <= real_sum(s),
    decreases s.len(),
{
    if s.len() > 0 {
        let t = s.drop_last();
        assert forall|i: int| 0 <= i < t.len() implies #[trigger] t[i] >= 0real by {
            assert(s[i] >= 0real);
        }
        sum_is_large(t);
        assert(s.last() >= 0real);
        assert forall|i: int| 0 <= i < s.len() implies #[trigger] s[i] <= real_sum(s) by {
            if i < t.len() {
                assert(t[i] == s[i]);
            }
        }
    }
}

} // verus!
