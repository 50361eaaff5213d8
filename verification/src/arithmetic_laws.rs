//! What the arithmetic on 32-bit floating-point values gives.
use crate::binary32::{rounded, value_of, Binary32, Real32};
use crate::rounding::{
    distance, lemma_units_increase, magnitude_of, rounding_is_nearest, INFINITE_MAGNITUDE,
};
use vstd::arithmetic::power2::{lemma_pow2_pos, pow2};
use vstd::prelude::*;

verus! {

/// Whether a value is the one nearest to `n / d` units, with the given sign: no other value of
/// the format is nearer, the even one of two that are equally near is taken, and what lies
/// beyond the largest is infinite.
pub open spec fn is_nearest(value: Real32, negative: bool, n: nat, d: nat) -> bool {
    exists|m: nat|
        {
            &&& forall|other: nat|
                distance(n, d, m) <= #[trigger] distance(n, d, other) && (distance(n, d, m)
                    == distance(n, d, other) && other != m ==> m % 2 == 0)
            &&& value == (if m >= INFINITE_MAGNITUDE {
                Real32::Infinite { negative }
            } else {
                #[trigger] value_of(negative, m)
            })
        }
}

proof fn lemma_rounded_is_nearest(negative: bool, n: nat, d: nat)
    requires
        d > 0,
    ensures
        is_nearest(rounded(negative, n, d), negative, n, d),
{
    let m = magnitude_of(n, d);
    assert forall|other: nat|
        distance(n, d, m) <= #[trigger] distance(n, d, other) && (distance(n, d, m) == distance(
            n,
            d,
            other,
        ) && other != m ==> m % 2 == 0) by {
        rounding_is_nearest(n, d, other);
    }
    let v = value_of(negative, m);
}

/// Arithmetic on finite values is exact but for one rounding to the nearest value. A sum of zero
/// is positive unless both zeros are negative, and a zero divisor gives an infinity, or nothing
/// that is a number where the dividend is zero too.
pub proof fn finite_arithmetic_is_exact_but_for_one_rounding(
    a_negative: bool,
    a: nat,
    b_negative: bool,
    b: nat,
)
    ensures
        ({
            let x = Real32::Finite { negative: a_negative, units: a };
            let y = Real32::Finite { negative: b_negative, units: b };
            let opposite = a_negative != b_negative;
            let sum = (if a_negative {
                -a
            } else {
                a as int
            }) + (if b_negative {
                -b
            } else {
                b as int
            });
            &&& sum > 0 ==> is_nearest(x.plus(y), false, sum as nat, 1)
            &&& sum < 0 ==> is_nearest(x.plus(y), true, (-sum) as nat, 1)
            &&& sum == 0 ==> x.plus(y) == (Real32::Finite {
                negative: a_negative && b_negative,
                units: 0,
            })
            &&& is_nearest(x.times(y), opposite, a * b, pow2(149))
            &&& b > 0 ==> is_nearest(x.over(y), opposite, a * pow2(149), b)
            &&& b == 0 && a > 0 ==> x.over(y) == (Real32::Infinite { negative: opposite })
            &&& b == 0 && a == 0 ==> x.over(y) is NaN
        }),
{
    let x = Real32::Finite { negative: a_negative, units: a };
    let y = Real32::Finite { negative: b_negative, units: b };
    let sum = x.place() + y.place();
    lemma_pow2_pos(149);
    if sum > 0 {
        lemma_rounded_is_nearest(false, sum as nat, 1);
    } else if sum < 0 {
        lemma_rounded_is_nearest(true, (-sum) as nat, 1);
    }
    lemma_rounded_is_nearest(a_negative != b_negative, a * b, pow2(149));
    if b > 0 {
        lemma_rounded_is_nearest(a_negative != b_negative, a * pow2(149), b);
    }
}

/// Arithmetic with infinities: a sum keeps an infinity and has none where two cancel, a product
/// or quotient is infinite by its signs, a quotient by an infinity is zero, and what is not a
/// number makes the result not a number.
pub proof fn infinities_follow_their_signs(a: bool, b: bool, units: nat, x: Real32)
    ensures
        ({
            let inf = Real32::Infinite { negative: a };
            let other = Real32::Infinite { negative: b };
            let finite = Real32::Finite { negative: b, units };
            &&& inf.plus(finite) == inf && finite.plus(inf) == inf
            &&& a == b ==> inf.plus(other) == inf
            &&& a != b ==> inf.plus(other) is NaN
            &&& inf.times(other) == (Real32::Infinite { negative: a != b })
            &&& units > 0 ==> inf.times(finite) == (Real32::Infinite { negative: a != b })
            &&& units > 0 ==> finite.times(inf) == (Real32::Infinite { negative: a != b })
            &&& units == 0 ==> inf.times(finite) is NaN && finite.times(inf) is NaN
            &&& inf.over(other) is NaN
            &&& inf.over(finite) == (Real32::Infinite { negative: a != b })
            &&& finite.over(inf) == (Real32::Finite { negative: a != b, units: 0 })
            &&& Real32::NaN.plus(x) is NaN && x.plus(Real32::NaN) is NaN
            &&& Real32::NaN.times(x) is NaN && x.times(Real32::NaN) is NaN
            &&& Real32::NaN.over(x) is NaN && x.over(Real32::NaN) is NaN
        }),
{
}

/// A fraction and a count are the values nearest to them.
pub proof fn constants_are_the_nearest(n: nat, d: nat)
    requires
        d > 0,
    ensures
        is_nearest(Real32::fraction(n, d), false, n * pow2(149), d),
        is_nearest(Real32::count(n), false, n * pow2(149), 1),
        Real32::zero() == (Real32::Finite { negative: false, units: 0 }),
{
    lemma_rounded_is_nearest(false, n * pow2(149), d);
    lemma_rounded_is_nearest(false, n * pow2(149), 1);
}

/// Values are compared by their places on the line, on which the infinities stand beyond all
/// others. A comparison with what is not a number fails, and such a value is neither the larger
/// nor the smaller of two.
pub proof fn values_are_compared_by_their_places(x: Binary32, y: Binary32)
    ensures
        x@.below(y@) <==> x@ !is NaN && y@ !is NaN && x@.place() < y@.place(),
        x@.at_most(y@) <==> x@ !is NaN && y@ !is NaN && x@.place() <= y@.place(),
        x@ is NaN ==> x@.larger(y@) == y@ && x@.smaller(y@) == y@,
        x@ !is NaN && y@ is NaN ==> x@.larger(y@) == x@ && x@.smaller(y@) == x@,
        x@ !is NaN && y@ !is NaN && x@.place() < y@.place() ==> x@.larger(y@) == y@ && x@.smaller(
            y@,
        ) == x@,
        x@ !is NaN && y@ !is NaN && x@.place() > y@.place() ==> x@.larger(y@) == x@ && x@.smaller(
            y@,
        ) == y@,
        x@ is Finite && y@ == (Real32::Infinite { negative: true }) ==> y@.place() < x@.place(),
        x@ is Finite && y@ == (Real32::Infinite { negative: false }) ==> x@.place() < y@.place(),
        x@ matches Real32::Finite { negative, units } ==> x@.place() == (if negative {
            -units
        } else {
            units as int
        }),
{
    lemma_units_increase((INFINITE_MAGNITUDE - 1) as nat, INFINITE_MAGNITUDE as nat);
    if x@ is Finite {
        x.lemma_largest();
    }
}

} // verus!
