//! Arithmetic on 32-bit binary floating-point values, by their bits.
//!
//! `Real32` says what a value is; the operations on it are the exact ones followed
//! by one rounding to the nearest value of the format. `Binary32` is the executable
//! type, and each of its methods computes the operation of the same meaning.
use crate::rounding::{
    bit_length, lemma_magnitude_equal_quotients, lemma_magnitude_in_binade, lemma_magnitude_scaled,
    lemma_nearest_even_scaled, lemma_units_in_binade, lemma_units_increase,
    lemma_units_round_to_magnitude, magnitude_of, nearest_even, power_of_two, round_scaled,
    rounding_keeps_order, saturated, scaled_down, scaled_up, units_of, BINADE, INFINITE_MAGNITUDE,
};
use vstd::arithmetic::div_mod::lemma_fundamental_div_mod;
use vstd::arithmetic::power2::{
    lemma2_to64, lemma2_to64_rest, lemma_pow2_adds, lemma_pow2_pos, lemma_pow2_strictly_increases,
    pow2,
};
use vstd::prelude::*;

verus! {

/// The first bit pattern with the sign bit set.
pub const SIGN_BIT: u32 = 0x8000_0000;

/// The number of units in the value one.
pub open spec fn one_in_units() -> nat {
    pow2(149)
}

/// What a 32-bit floating-point value is.
pub enum Real32 {
    /// Not a number.
    NaN,
    /// One of the two infinities.
    Infinite { negative: bool },
    /// `units` times two to the power of minus 149, with its sign: zero has two.
    Finite { negative: bool, units: nat },
}

/// The value that `n / d` units round to, beyond the largest finite one to infinity.
pub open spec fn rounded(negative: bool, n: nat, d: nat) -> Real32 {
    let magnitude = magnitude_of(n, d);
    if magnitude >= INFINITE_MAGNITUDE {
        Real32::Infinite { negative }
    } else {
        Real32::Finite { negative, units: units_of(magnitude) }
    }
}

impl Real32 {
    /// Positive zero.
    pub open spec fn zero() -> Real32 {
        Real32::Finite { negative: false, units: 0 }
    }

    /// The largest finite value.
    pub open spec fn largest() -> Real32 {
        Real32::Finite { negative: false, units: units_of((INFINITE_MAGNITUDE - 1) as nat) }
    }

    /// The value nearest to the fraction `n / d`, as for a decimal literal.
    pub open spec fn fraction(n: nat, d: nat) -> Real32 {
        rounded(false, n * one_in_units(), d)
    }

    /// The value nearest to a count.
    pub open spec fn count(n: nat) -> Real32 {
        rounded(false, n * one_in_units(), 1)
    }

    /// The place of a number on the line, in units. The infinities stand just beyond
    /// the finite values.
    pub open spec fn place(self) -> int {
        match self {
            Real32::NaN => 0,
            Real32::Infinite { negative } => if negative {
                -units_of(INFINITE_MAGNITUDE as nat)
            } else {
                units_of(INFINITE_MAGNITUDE as nat) as int
            },
            Real32::Finite { negative, units } => if negative {
                -units
            } else {
                units as int
            },
        }
    }

    /// `self < other`: false where either is not a number.
    pub open spec fn below(self, other: Real32) -> bool {
        self !is NaN && other !is NaN && self.place() < other.place()
    }

    /// `self <= other`: false where either is not a number.
    pub open spec fn at_most(self, other: Real32) -> bool {
        self !is NaN && other !is NaN && self.place() <= other.place()
    }

    /// The larger of two, or the one that is a number.
    pub open spec fn larger(self, other: Real32) -> Real32 {
        if self is NaN || self.below(other) {
            other
        } else {
            self
        }
    }

    /// The smaller of two, or the one that is a number.
    pub open spec fn smaller(self, other: Real32) -> Real32 {
        if self is NaN || other.below(self) {
            other
        } else {
            self
        }
    }

    /// The nearest value between `low` and `high`; what is not a number stays so.
    pub open spec fn clamped(self, low: Real32, high: Real32) -> Real32 {
        if self.below(low) {
            low
        } else if high.below(self) {
            high
        } else {
            self
        }
    }

    /// The sum.
    pub open spec fn plus(self, other: Real32) -> Real32 {
        match (self, other) {
            (Real32::NaN, _) => Real32::NaN,
            (_, Real32::NaN) => Real32::NaN,
            (Real32::Infinite { negative: a }, Real32::Infinite { negative: b }) => if a == b {
                self
            } else {
                Real32::NaN
            },
            (Real32::Infinite { .. }, _) => self,
            (_, Real32::Infinite { .. }) => other,
            (Real32::Finite { negative: a, .. }, Real32::Finite { negative: b, .. }) => {
                let x = self.place() + other.place();
                if x == 0 {
                    Real32::Finite { negative: a && b, units: 0 }
                } else if x < 0 {
                    rounded(true, (-x) as nat, 1)
                } else {
                    rounded(false, x as nat, 1)
                }
            },
        }
    }

    /// The product.
    pub open spec fn times(self, other: Real32) -> Real32 {
        match (self, other) {
            (Real32::NaN, _) => Real32::NaN,
            (_, Real32::NaN) => Real32::NaN,
            (Real32::Infinite { negative: a }, Real32::Infinite { negative: b }) => Real32::Infinite {
                negative: a != b,
            },
            (Real32::Infinite { negative: a }, Real32::Finite { negative: b, units }) => if units
                == 0 {
                Real32::NaN
            } else {
                Real32::Infinite { negative: a != b }
            },
            (Real32::Finite { negative: a, units }, Real32::Infinite { negative: b }) => if units
                == 0 {
                Real32::NaN
            } else {
                Real32::Infinite { negative: a != b }
            },
            (
                Real32::Finite { negative: a, units: m },
                Real32::Finite { negative: b, units: n },
            ) => rounded(a != b, m * n, one_in_units()),
        }
    }

    /// The quotient.
    pub open spec fn over(self, other: Real32) -> Real32 {
        match (self, other) {
            (Real32::NaN, _) => Real32::NaN,
            (_, Real32::NaN) => Real32::NaN,
            (Real32::Infinite { .. }, Real32::Infinite { .. }) => Real32::NaN,
            (Real32::Infinite { negative: a }, Real32::Finite { negative: b, .. }) => Real32::Infinite {
                negative: a != b,
            },
            (Real32::Finite { negative: a, .. }, Real32::Infinite { negative: b }) => Real32::Finite {
                negative: a != b,
                units: 0,
            },
            (
                Real32::Finite { negative: a, units: m },
                Real32::Finite { negative: b, units: n },
            ) => if n == 0 {
                if m == 0 {
                    Real32::NaN
                } else {
                    Real32::Infinite { negative: a != b }
                }
            } else {
                rounded(a != b, m * one_in_units(), n)
            },
        }
    }
}

/// The value of a sign and a magnitude.
pub open spec fn value_of(negative: bool, magnitude: nat) -> Real32 {
    if magnitude > INFINITE_MAGNITUDE {
        Real32::NaN
    } else if magnitude == INFINITE_MAGNITUDE {
        Real32::Infinite { negative }
    } else {
        Real32::Finite { negative, units: units_of(magnitude) }
    }
}

/// A 32-bit floating-point value.
#[derive(Clone, Copy, Debug)]
pub struct Binary32 {
    bits: u32,
}

impl View for Binary32 {
    type V = Real32;

    closed spec fn view(&self) -> Real32 {
        value_of(self.bits >= SIGN_BIT, (self.bits % SIGN_BIT) as nat)
    }
}

/// The value that a bit pattern stands for.
pub open spec fn value_of_bits(bits: u32) -> Real32 {
    value_of(bits >= SIGN_BIT, (bits % SIGN_BIT) as nat)
}

impl Binary32 {
    /// The bits of the value.
    pub closed spec fn spec_bits(self) -> u32 {
        self.bits
    }

    /// The value with the given bits.
    pub fn from_bits(bits: u32) -> (r: Binary32)
        ensures
            r@ == value_of_bits(bits),
            r.spec_bits() == bits,
    {
        Binary32 { bits }
    }

    /// The bits of the value.
    pub fn to_bits(self) -> (bits: u32)
        ensures
            self@ == value_of_bits(bits),
            bits == self.spec_bits(),
    {
        self.bits
    }

    /// The sign bit of the value.
    pub closed spec fn spec_negative(self) -> bool {
        self.bits >= SIGN_BIT
    }

    /// Whether the sign bit is set.
    pub fn is_negative(self) -> (r: bool)
        ensures
            r == self.spec_negative(),
            self@ matches Real32::Infinite { negative } ==> r == negative,
            self@ matches Real32::Finite { negative, .. } ==> r == negative,
    {
        self.bits >= SIGN_BIT
    }

    fn magnitude(self) -> (r: u32)
        ensures
            r == self.bits % SIGN_BIT,
            self@ == value_of(self.bits >= SIGN_BIT, r as nat),
    {
        self.bits % SIGN_BIT
    }

    /// Whether the value is not a number.
    pub fn is_nan(self) -> (r: bool)
        ensures
            r == (self@ is NaN),
    {
        self.magnitude() > INFINITE_MAGNITUDE
    }

    /// Whether the value is a number and no infinity.
    pub fn is_finite(self) -> (r: bool)
        ensures
            r == (self@ is Finite),
    {
        self.magnitude() < INFINITE_MAGNITUDE
    }

    fn assemble(negative: bool, magnitude: u32) -> (r: Binary32)
        requires
            magnitude < SIGN_BIT,
        ensures
            r@ == value_of(negative, magnitude as nat),
    {
        if negative {
            Binary32 { bits: magnitude + SIGN_BIT }
        } else {
            Binary32 { bits: magnitude }
        }
    }

    /// A value that is not a number.
    pub fn nan() -> (r: Binary32)
        ensures
            r@ is NaN,
    {
        Binary32::assemble(false, 0x7fc0_0000)
    }

    /// Zero.
    pub fn zero() -> (r: Binary32)
        ensures
            r@ == Real32::zero(),
    {
        Binary32::assemble(false, 0)
    }

    /// Zero with the sign bit set.
    pub fn negative_zero() -> (r: Binary32)
        ensures
            r@ == (Real32::Finite { negative: true, units: 0 }),
    {
        Binary32::assemble(true, 0)
    }

    /// The largest finite value.
    pub fn largest() -> (r: Binary32)
        ensures
            r@ == Real32::largest(),
    {
        Binary32::assemble(false, INFINITE_MAGNITUDE - 1)
    }

    /// Positive infinity.
    pub fn infinity() -> (r: Binary32)
        ensures
            r@ == (Real32::Infinite { negative: false }),
    {
        Binary32::assemble(false, INFINITE_MAGNITUDE)
    }

    /// A signed integer that orders the numbers as their places do.
    fn order_key(self) -> (r: i64)
        ensures
            r == (if self.bits >= SIGN_BIT {
                -((self.bits % SIGN_BIT) as int)
            } else {
                (self.bits % SIGN_BIT) as int
            }),
    {
        let m: i64 = self.magnitude() as i64;
        if self.is_negative() {
            -m
        } else {
            m
        }
    }

    proof fn lemma_order_key(a: Binary32, b: Binary32, x: int, y: int)
        requires
            a@ !is NaN,
            b@ !is NaN,
            x == (if a.bits >= SIGN_BIT {
                -((a.bits % SIGN_BIT) as int)
            } else {
                (a.bits % SIGN_BIT) as int
            }),
            y == (if b.bits >= SIGN_BIT {
                -((b.bits % SIGN_BIT) as int)
            } else {
                (b.bits % SIGN_BIT) as int
            }),
        ensures
            x < y <==> a@.place() < b@.place(),
    {
        let m = (a.bits % SIGN_BIT) as nat;
        let n = (b.bits % SIGN_BIT) as nat;
        if m < n {
            lemma_units_increase(m, n);
        }
        if n < m {
            lemma_units_increase(n, m);
        }
        if 0 < m {
            lemma_units_increase(0, m);
        }
        if 0 < n {
            lemma_units_increase(0, n);
        }
    }

    /// `self < other`.
    pub fn lt(self, other: Binary32) -> (r: bool)
        ensures
            r == self@.below(other@),
    {
        if self.is_nan() || other.is_nan() {
            return false;
        }
        let x: i64 = self.order_key();
        let y: i64 = other.order_key();
        proof {
            Binary32::lemma_order_key(self, other, x as int, y as int);
        }
        x < y
    }

    /// `self <= other`.
    pub fn le(self, other: Binary32) -> (r: bool)
        ensures
            r == self@.at_most(other@),
    {
        if self.is_nan() || other.is_nan() {
            return false;
        }
        !other.lt(self)
    }

    /// The larger of two, or the one that is a number.
    pub fn max(self, other: Binary32) -> (r: Binary32)
        ensures
            r@ == self@.larger(other@),
    {
        if self.is_nan() || self.lt(other) {
            other
        } else {
            self
        }
    }

    /// The smaller of two, or the one that is a number.
    pub fn min(self, other: Binary32) -> (r: Binary32)
        ensures
            r@ == self@.smaller(other@),
    {
        if self.is_nan() || other.lt(self) {
            other
        } else {
            self
        }
    }

    /// The nearest value between `low` and `high`; what is not a number stays so.
    pub fn clamp(self, low: Binary32, high: Binary32) -> (r: Binary32)
        requires
            low@.at_most(high@),
        ensures
            r@ == self@.clamped(low@, high@),
    {
        if self.lt(low) {
            low
        } else if high.lt(self) {
            high
        } else {
            self
        }
    }

    /// The significand and the exponent of a finite value.
    pub(crate) fn parts(self) -> (r: (u32, u32))
        requires
            self@ is Finite,
        ensures
            self@->Finite_units == r.0 * pow2(r.1 as nat),
            r.0 < 0x100_0000,
            r.1 <= 253,
            r.1 > 0 ==> r.0 >= BINADE,
    {
        let m: u32 = self.magnitude();
        let binade: u32 = m / BINADE;
        let rest: u32 = m % BINADE;
        proof {
            lemma2_to64();
            assert(m * pow2(0) == m);
        }
        if binade == 0 {
            (m, 0)
        } else {
            (rest + BINADE, binade - 1)
        }
    }

    /// The sum of two finite values, the first with the larger exponent and the second
    /// taken away where `opposite`: whether it is negative, and its magnitude.
    fn sum_of(a: (u32, u32), b: (u32, u32), opposite: bool) -> (r: (bool, u32))
        requires
            a.0 < 0x100_0000,
            b.0 < 0x100_0000,
            b.1 <= a.1 <= 253,
            a.1 > 0 ==> a.0 >= BINADE,
        ensures
            ({
                let m = a.0 * pow2(a.1 as nat);
                let n = b.0 * pow2(b.1 as nat);
                let x = if opposite {
                    m - n
                } else {
                    m + n
                };
                let y = (if x < 0 {
                    -x
                } else {
                    x
                }) as nat;
                r.0 == (x < 0) && r.1 == saturated(magnitude_of(y, 1))
            }),
    {
        let ghost pa = pow2(a.1 as nat);
        let ghost pb = pow2(b.1 as nat);
        let gap: u32 = a.1 - b.1;
        proof {
            lemma2_to64();
            lemma2_to64_rest();
            lemma_pow2_pos(b.1 as nat);
            lemma_pow2_adds(gap as nat, b.1 as nat);
        }
        if gap <= 32 {
            let scale: u64 = power_of_two(gap);
            proof {
                if gap < 32 {
                    lemma_pow2_strictly_increases(gap as nat, 32);
                }
                assert(a.0 * scale <= 0x100_0000 * 0x1_0000_0000) by (nonlinear_arith)
                    requires
                        a.0 < 0x100_0000,
                        scale <= 0x1_0000_0000,
                ;
                assert(a.0 * (scale as nat * pb) == (a.0 * scale) * pb) by (nonlinear_arith);
            }
            let x: u64 = a.0 as u64 * scale;
            let y: u64 = b.0 as u64;
            let ghost xx = a.0 * pa;
            let ghost yy = b.0 * pb;
            assert(xx == x * pb && yy == y * pb);
            if opposite && x < y {
                proof {
                    assert(x * pb < y * pb) by (nonlinear_arith)
                        requires
                            x < y,
                            pb > 0,
                    ;
                    assert(((y - x) as nat) * pb == yy - xx) by (nonlinear_arith)
                        requires
                            xx == x * pb,
                            yy == y * pb,
                            x < y,
                    ;
                    assert(((y - x) as nat) * 1 + 0 == (y - x) as nat);
                    assert(1 * pow2(0) == 1);
                }
                (true, round_scaled(y - x, b.1 as i32, false, Ghost(0), Ghost(1)))
            } else {
                let z: u64 = if opposite {
                    x - y
                } else {
                    x + y
                };
                proof {
                    assert(z as nat * pb == (if opposite {
                        xx - yy
                    } else {
                        xx + yy
                    })) by (nonlinear_arith)
                        requires
                            xx == x * pb,
                            yy == y * pb,
                            opposite ==> z == x - y,
                            !opposite ==> z == x + y,
                    ;
                    assert(z as nat * pb >= 0) by (nonlinear_arith);
                    assert(z as nat * 1 + 0 == z as nat);
                    assert(1 * pow2(0) == 1);
                }
                (false, round_scaled(z, b.1 as i32, false, Ghost(0), Ghost(1)))
            }
        } else {
            (false, Binary32::far_sum_of(a, b, opposite))
        }
    }

    /// The same sum where the exponents lie so far apart that the second value only
    /// matters beyond the digits of the first.
    fn far_sum_of(a: (u32, u32), b: (u32, u32), opposite: bool) -> (r: u32)
        requires
            BINADE <= a.0 < 0x100_0000,
            b.0 < 0x100_0000,
            b.1 + 32 < a.1 <= 253,
        ensures
            ({
                let m = a.0 * pow2(a.1 as nat);
                let n = b.0 * pow2(b.1 as nat);
                let x = if opposite {
                    m - n
                } else {
                    m + n
                };
                x >= 0 && r == saturated(magnitude_of(x as nat, 1))
            }),
    {
        let cut: u32 = a.1 - b.1 - 32;
        let ghost d = pow2(cut as nat);
        let high: u32;
        let low: u32;
        proof {
            lemma2_to64();
            lemma2_to64_rest();
        }
        if cut >= 24 {
            high = 0;
            low = b.0;
            proof {
                if cut > 24 {
                    lemma_pow2_strictly_increases(24, cut as nat);
                }
                assert(0 * d == 0);
            }
        } else {
            let p: u64 = power_of_two(cut);
            proof {
                lemma_pow2_strictly_increases(cut as nat, 24);
                lemma_pow2_pos(cut as nat);
                lemma_fundamental_div_mod(b.0 as int, p as int);
            }
            high = b.0 / (p as u32);
            low = b.0 % (p as u32);
        }
        assert(b.0 == d * high + low && low < d);
        let whole: u64 = a.0 as u64 * 0x1_0000_0000;
        let m: u64;
        let ghost c: nat;
        if !opposite {
            m = whole + high as u64;
            proof {
                c = low as nat;
            }
        } else if low == 0 {
            m = whole - high as u64;
            proof {
                c = 0;
            }
        } else {
            m = whole - high as u64 - 1;
            proof {
                c = (d - low) as nat;
            }
        }
        proof {
            let s = if opposite {
                -1int
            } else {
                1int
            };
            let v = m as nat * d + c;
            assert(v == whole * d + s * b.0) by (nonlinear_arith)
                requires
                    v == m as nat * d + c,
                    b.0 == d * high + low,
                    s == 1 ==> m == whole + high && c == low,
                    s == -1 && low == 0 ==> m == whole - high && c == 0,
                    s == -1 && low > 0 ==> m == whole - high - 1 && c == d - low,
                    s == 1 || s == -1,
                    low >= 0,
            ;
            let e = (a.1 - 32) as nat;
            let pa = pow2(a.1 as nat);
            let pb = pow2(b.1 as nat);
            lemma_pow2_adds(32, e);
            lemma_pow2_adds(cut as nat, b.1 as nat);
            lemma_pow2_pos(e);
            lemma_pow2_pos(cut as nat);
            let x = a.0 * pa + s * (b.0 * pb);
            assert(v * pow2(e) == x * d) by (nonlinear_arith)
                requires
                    v == whole * d + s * b.0,
                    whole == a.0 * 0x1_0000_0000,
                    pa == 0x1_0000_0000 * pow2(e),
                    pow2(e) == d * pb,
                    x == a.0 * pa + s * (b.0 * pb),
            ;
            assert(x >= 0) by (nonlinear_arith)
                requires
                    v * pow2(e) == x * d,
                    v >= 0,
                    pow2(e) > 0,
                    d > 0,
            ;
            assert(s * (b.0 * pb) == (if opposite {
                -(b.0 * pb)
            } else {
                b.0 * pb
            }));
            assert(d * pow2(0) == d);
            assert(scaled_up(v, e as int) == v * pow2(e));
            assert(scaled_down(d, e as int) == d);
            assert((v * pow2(e)) * 1 == (x as nat) * d);
            lemma_magnitude_equal_quotients(v * pow2(e), d, x as nat, 1);
        }
        round_scaled(m, a.1 as i32 - 32, low != 0, Ghost(c), Ghost(d))
    }

    /// No finite value lies beyond the largest.
    pub proof fn lemma_largest(self)
        requires
            self@ is Finite,
        ensures
            -Real32::largest().place() <= self@.place() <= Real32::largest().place(),
    {
        let m = (self.bits % SIGN_BIT) as nat;
        let top = (INFINITE_MAGNITUDE - 1) as nat;
        if m < top {
            lemma_units_increase(m, top);
        }
    }

    /// The sum.
    pub fn add(self, other: Binary32) -> (r: Binary32)
        ensures
            r@ == self@.plus(other@),
    {
        if self.is_nan() || other.is_nan() {
            return Binary32::nan();
        }
        let neg_a: bool = self.is_negative();
        let neg_b: bool = other.is_negative();
        if self.magnitude() == INFINITE_MAGNITUDE {
            if other.magnitude() == INFINITE_MAGNITUDE && neg_a != neg_b {
                return Binary32::nan();
            }
            return self;
        }
        if other.magnitude() == INFINITE_MAGNITUDE {
            return other;
        }
        let a: (u32, u32) = self.parts();
        let b: (u32, u32) = other.parts();
        let opposite: bool = neg_a != neg_b;
        proof {
            assert(0 < INFINITE_MAGNITUDE);
            lemma_units_round_to_magnitude(0);
        }
        let negative: bool;
        let magnitude: u32;
        if a.1 >= b.1 {
            let s: (bool, u32) = Binary32::sum_of(a, b, opposite);
            negative = s.0 != neg_a;
            magnitude = s.1;
        } else {
            let s: (bool, u32) = Binary32::sum_of(b, a, opposite);
            negative = s.0 != neg_b;
            magnitude = s.1;
        }
        let ghost x = self@.place() + other@.place();
        if magnitude == 0 {
            proof {
                if x != 0 {
                    lemma_nonzero_magnitude((if x < 0 { -x } else { x }) as nat);
                }
            }
            Binary32::assemble(neg_a && neg_b, 0)
        } else {
            Binary32::assemble(negative, magnitude)
        }
    }

    /// The product.
    pub fn mul(self, other: Binary32) -> (r: Binary32)
        ensures
            r@ == self@.times(other@),
    {
        if self.is_nan() || other.is_nan() {
            return Binary32::nan();
        }
        let negative: bool = self.is_negative() != other.is_negative();
        let p: u32 = self.magnitude();
        let q: u32 = other.magnitude();
        proof {
            lemma_zero_units(p as nat);
            lemma_zero_units(q as nat);
        }
        if p == INFINITE_MAGNITUDE || q == INFINITE_MAGNITUDE {
            if p == 0 || q == 0 {
                return Binary32::nan();
            }
            return Binary32::assemble(negative, INFINITE_MAGNITUDE);
        }
        let a: (u32, u32) = self.parts();
        let b: (u32, u32) = other.parts();
        assert(a.0 * b.0 <= 0x100_0000 * 0x100_0000) by (nonlinear_arith)
            requires
                a.0 < 0x100_0000,
                b.0 < 0x100_0000,
        ;
        let m: u64 = a.0 as u64 * b.0 as u64;
        let e: i32 = a.1 as i32 + b.1 as i32 - 149;
        proof {
            let pa = pow2(a.1 as nat);
            let pb = pow2(b.1 as nat);
            let n = (a.0 * pa) as nat * (b.0 * pb) as nat;
            lemma_pow2_adds(a.1 as nat, b.1 as nat);
            lemma_scales(m as nat, 1, (a.1 + b.1) as nat, 149);
            assert(n == m as nat * pow2((a.1 + b.1) as nat)) by (nonlinear_arith)
                requires
                    n == (a.0 * pa) as nat * (b.0 * pb) as nat,
                    m == a.0 * b.0,
                    pow2((a.1 + b.1) as nat) == pa * pb,
            ;
            assert(1 * pow2(149) == pow2(149));
            assert(m as nat * 1 + 0 == m as nat);
        }
        Binary32::assemble(negative, round_scaled(m, e, false, Ghost(0), Ghost(1)))
    }

    /// The magnitude of `a / b * 2^e` units.
    fn quotient(a: u32, b: u32, e: i32) -> (r: u32)
        requires
            a < 0x100_0000,
            0 < b < 0x100_0000,
            -500 <= e <= 500,
        ensures
            r == saturated(magnitude_of(scaled_up(a as nat, e as int), scaled_down(b as nat, e as int))),
    {
        proof {
            lemma2_to64();
            lemma2_to64_rest();
        }
        if a == 0 {
            proof {
                lemma_zero_quotient(b as nat, e as int);
            }
            return 0;
        }
        let digits: u32 = bit_length(a as u64);
        proof {
            if digits > 24 {
                if digits > 25 {
                    lemma_pow2_strictly_increases(24, (digits - 1) as nat);
                }
            }
        }
        let s: u32 = 61 - digits;
        let scale: u64 = power_of_two(s);
        proof {
            lemma_pow2_adds(digits as nat, s as nat);
            lemma_pow2_adds((digits - 1) as nat, s as nat);
            lemma_pow2_pos(s as nat);
            assert(a * scale < 0x2000_0000_0000_0000 && a * scale >= 0x1000_0000_0000_0000)
                by (nonlinear_arith)
                requires
                    pow2((digits - 1) as nat) <= a < pow2(digits as nat),
                    scale == pow2(s as nat),
                    scale > 0,
                    pow2(digits as nat) * pow2(s as nat) == 0x2000_0000_0000_0000,
                    pow2((digits - 1) as nat) * pow2(s as nat) == 0x1000_0000_0000_0000,
            ;
        }
        let n: u64 = a as u64 * scale;
        let m: u64 = n / b as u64;
        let c: u64 = n % b as u64;
        proof {
            lemma_fundamental_div_mod(n as int, b as int);
            assert(0x200_0000 <= m <= n) by (nonlinear_arith)
                requires
                    n == b * m + c,
                    c < b,
                    0 < b < 0x100_0000,
                    n >= 0x1000_0000_0000_0000,
            ;
            let v = m as nat * b as nat + c as nat;
            assert(v == a as nat * pow2(s as nat)) by (nonlinear_arith)
                requires
                    v == m as nat * b as nat + c as nat,
                    n == b * m + c,
                    n == a * scale,
                    scale == pow2(s as nat),
            ;
            lemma_shifted_quotient(a as nat, b as nat, e as int, s as nat);
        }
        round_scaled(m, e - s as i32, c != 0, Ghost(c as nat), Ghost(b as nat))
    }

    /// The quotient.
    pub fn div(self, other: Binary32) -> (r: Binary32)
        ensures
            r@ == self@.over(other@),
    {
        if self.is_nan() || other.is_nan() {
            return Binary32::nan();
        }
        let negative: bool = self.is_negative() != other.is_negative();
        let p: u32 = self.magnitude();
        let q: u32 = other.magnitude();
        proof {
            lemma_zero_units(p as nat);
            lemma_zero_units(q as nat);
        }
        if p == INFINITE_MAGNITUDE {
            if q == INFINITE_MAGNITUDE {
                return Binary32::nan();
            }
            return Binary32::assemble(negative, INFINITE_MAGNITUDE);
        }
        if q == INFINITE_MAGNITUDE {
            return Binary32::assemble(negative, 0);
        }
        if q == 0 {
            if p == 0 {
                return Binary32::nan();
            }
            return Binary32::assemble(negative, INFINITE_MAGNITUDE);
        }
        let a: (u32, u32) = self.parts();
        let b: (u32, u32) = other.parts();
        proof {
            assert(0 * pow2(b.1 as nat) == 0);
            let m = a.0 * pow2(a.1 as nat);
            let n = b.0 * pow2(b.1 as nat);
            lemma_pow2_adds(a.1 as nat, 149);
            lemma_scales(a.0 as nat, b.0 as nat, (a.1 + 149) as nat, b.1 as nat);
            assert(a.0 as nat * pow2((a.1 + 149) as nat) == m as nat * pow2(149)) by (nonlinear_arith)
                requires
                    m == a.0 * pow2(a.1 as nat),
                    pow2((a.1 + 149) as nat) == pow2(a.1 as nat) * pow2(149),
            ;
        }
        let e: i32 = a.1 as i32 + 149 - b.1 as i32;
        Binary32::assemble(negative, Binary32::quotient(a.0, b.0, e))
    }

    /// The value nearest to the fraction `n / d`.
    pub fn fraction(n: u32, d: u32) -> (r: Binary32)
        requires
            n < 0x100_0000,
            0 < d < 0x100_0000,
        ensures
            r@ == Real32::fraction(n as nat, d as nat),
    {
        proof {
            lemma2_to64();
            assert(d as nat * pow2(0) == d);
        }
        Binary32::assemble(false, Binary32::quotient(n, d, 149))
    }

    /// The value nearest to a count.
    pub fn from_count(n: usize) -> (r: Binary32)
        ensures
            r@ == Real32::count(n as nat),
    {
        let x: u64 = n as u64;
        proof {
            lemma2_to64();
            assert(1 * pow2(0) == 1);
            assert(n as nat * 1 + 0 == n as nat);
        }
        if x < 0x4000_0000_0000_0000 {
            return Binary32::assemble(false, round_scaled(x, 149, false, Ghost(0), Ghost(1)));
        }
        let m: u64 = x / 4;
        let c: u64 = x % 4;
        proof {
            let v = m as nat * 4 + c as nat;
            assert(v == x);
            lemma_pow2_adds(149, 2);
            assert(4 * pow2(0) == 4);
            lemma_pow2_pos(149);
            assert((v * pow2(151)) * 1 == (n as nat * pow2(149)) * 4) by (nonlinear_arith)
                requires
                    v == n as nat,
                    pow2(151) == pow2(149) * 4,
            ;
            lemma_magnitude_equal_quotients(v * pow2(151), 4, n as nat * pow2(149), 1);
        }
        Binary32::assemble(false, round_scaled(m, 151, c != 0, Ghost(c as nat), Ghost(4)))
    }
}

/// A product of powers of two on both sides of a quotient is one scale.
proof fn lemma_scales(m: nat, d: nat, up: nat, down: nat)
    requires
        d > 0,
    ensures
        magnitude_of(m * pow2(up), d * pow2(down)) == magnitude_of(
            scaled_up(m, up - down),
            scaled_down(d, up - down),
        ),
{
    let e = up - down;
    lemma2_to64();
    lemma_pow2_pos(up);
    lemma_pow2_pos(down);
    assert(d * pow2(down) > 0) by (nonlinear_arith)
        requires
            d > 0,
            pow2(down) > 0,
    ;
    assert(m * pow2(0) == m && d * pow2(0) == d);
    if e >= 0 {
        lemma_pow2_adds(e as nat, down);
        assert((m * pow2(up)) * d == (m * pow2(e as nat)) * (d * pow2(down))) by (nonlinear_arith)
            requires
                pow2(up) == pow2(e as nat) * pow2(down),
        ;
        lemma_magnitude_equal_quotients(m * pow2(up), d * pow2(down), m * pow2(e as nat), d);
    } else {
        let f = (-e) as nat;
        lemma_pow2_adds(f, up);
        lemma_pow2_pos(f);
        assert((m * pow2(up)) * (d * pow2(f)) == m * (d * pow2(down))) by (nonlinear_arith)
            requires
                pow2(down) == pow2(f) * pow2(up),
        ;
        assert(d * pow2(f) > 0) by (nonlinear_arith)
            requires
                d > 0,
                pow2(f) > 0,
        ;
        lemma_magnitude_equal_quotients(m * pow2(up), d * pow2(down), m, d * pow2(f));
    }
}

/// Shifting a numerator and taking the shift back with the scale changes nothing.
proof fn lemma_shifted_quotient(a: nat, b: nat, e: int, s: nat)
    requires
        b > 0,
    ensures
        magnitude_of(scaled_up(a * pow2(s), e - s), scaled_down(b, e - s)) == magnitude_of(
            scaled_up(a, e),
            scaled_down(b, e),
        ),
{
    let up = if e >= 0 {
        e as nat
    } else {
        0
    };
    let down = (up - e) as nat;
    lemma2_to64();
    lemma_scales(a, b, up, down);
    lemma_scales(a * pow2(s), b, up, down + s);
    lemma_pow2_adds(down, s);
    lemma_pow2_pos(s);
    lemma_pow2_pos(down);
    assert((a * pow2(s)) * pow2(up) == (a * pow2(up)) * pow2(s)) by (nonlinear_arith);
    assert(b * pow2(down + s) == (b * pow2(down)) * pow2(s)) by (nonlinear_arith)
        requires
            pow2(down + s) == pow2(down) * pow2(s),
    ;
    assert(b * pow2(down) > 0) by (nonlinear_arith)
        requires
            b > 0,
            pow2(down) > 0,
    ;
    crate::rounding::lemma_magnitude_scaled(a * pow2(up), b * pow2(down), pow2(s));
}

/// Nothing divided by something is nothing.
proof fn lemma_zero_quotient(b: nat, e: int)
    requires
        b > 0,
    ensures
        magnitude_of(scaled_up(0, e), scaled_down(b, e)) == 0,
{
    assert(0 * pow2(e as nat) == 0);
    lemma_pow2_pos((-e) as nat);
    assert(b * pow2((-e) as nat) > 0) by (nonlinear_arith)
        requires
            b > 0,
            pow2((-e) as nat) > 0,
    ;
    let d = scaled_down(b, e);
    assert(magnitude_of(0, 1) == 0) by {
        lemma_units_round_to_magnitude(0);
    }
    lemma_magnitude_equal_quotients(0, d, 0, 1);
}

/// Only the magnitude zero has no units.
proof fn lemma_zero_units(magnitude: nat)
    ensures
        units_of(magnitude) == 0 <==> magnitude == 0,
{
    if magnitude > 0 {
        lemma_units_increase(0, magnitude);
    }
}

/// A fraction that lies from one up to two when it is doubled `j` times.
pub proof fn lemma_fraction_in_binade(n: nat, d: nat, j: nat)
    requires
        0 < d <= n * pow2(j) < 2 * d,
        j <= 125,
    ensures
        Real32::fraction(n, d) == (Real32::Finite {
            negative: false,
            units: nearest_even(n * pow2(j) * 0x80_0000, d) * pow2((126 - j) as nat),
        }),
{
    let k = (126 - j) as nat;
    let f = pow2(k);
    let g = pow2(j);
    lemma2_to64();
    lemma_pow2_pos(k);
    lemma_pow2_adds(24, k);
    lemma_pow2_adds(23, k);
    lemma_pow2_adds(23, j);
    lemma_pow2_adds((23 + j) as nat, k);
    let x = n * pow2(149);
    let y = n * g * 0x80_0000;
    assert(x == y * f) by (nonlinear_arith)
        requires
            x == n * pow2(149),
            y == n * g * 0x80_0000,
            pow2(149) == (0x80_0000 * g) * f,
    ;
    assert(x < d * pow2(24 + k)) by (nonlinear_arith)
        requires
            x == y * f,
            y == n * g * 0x80_0000,
            n * g < 2 * d,
            pow2(24 + k) == 0x100_0000 * f,
            f > 0,
    ;
    assert(x >= d * pow2((23 + k) as nat)) by (nonlinear_arith)
        requires
            x == y * f,
            y == n * g * 0x80_0000,
            n * g >= d,
            pow2((23 + k) as nat) == 0x80_0000 * f,
    ;
    lemma_magnitude_in_binade(x, d, k);
    lemma_nearest_even_scaled(y, d, f);
    let q = nearest_even(y, d);
    lemma_fundamental_div_mod(y as int, d as int);
    assert(0x80_0000 <= y / d < 0x100_0000) by (nonlinear_arith)
        requires
            y == d * (y / d) + y % d,
            0 <= y % d < d,
            y == n * g * 0x80_0000,
            d <= n * g < 2 * d,
    ;
    lemma_units_in_binade(k, q);
    assert(k * BINADE <= 126 * BINADE) by (nonlinear_arith)
        requires
            k <= 126,
    ;
}

/// A quotient that does not exceed a value of the format does not round above it.
pub proof fn lemma_rounded_at_most(negative: bool, n: nat, d: nat, bound: nat)
    requires
        d > 0,
        bound < INFINITE_MAGNITUDE,
        n <= units_of(bound) * d,
    ensures
        rounded(negative, n, d) is Finite,
        rounded(negative, n, d)->Finite_negative == negative,
        rounded(negative, n, d)->Finite_units <= units_of(bound),
{
    let u = units_of(bound);
    rounding_keeps_order(n, u * d, d);
    lemma_magnitude_scaled(u, 1, d);
    lemma_units_round_to_magnitude(bound);
    let m = magnitude_of(n, d);
    if m < bound {
        lemma_units_increase(m, bound);
    }
}

/// A quotient that is not less than a value of the format does not round below it.
pub proof fn lemma_rounded_at_least(n: nat, d: nat, bound: nat)
    requires
        d > 0,
        bound < INFINITE_MAGNITUDE,
        n >= units_of(bound) * d,
    ensures
        units_of(bound) <= rounded(false, n, d).place(),
        rounded(false, n, d) !is NaN,
{
    let u = units_of(bound);
    rounding_keeps_order(u * d, n, d);
    lemma_magnitude_scaled(u, 1, d);
    lemma_units_round_to_magnitude(bound);
    let m = magnitude_of(n, d);
    if bound < m && m < INFINITE_MAGNITUDE {
        lemma_units_increase(bound, m);
    }
    lemma_units_increase(bound, INFINITE_MAGNITUDE as nat);
}

/// The magnitude of the value one.
pub const ONE_MAGNITUDE: u32 = 0x3f80_0000;

/// The value one.
pub proof fn lemma_one()
    ensures
        units_of(ONE_MAGNITUDE as nat) == one_in_units(),
        Real32::count(1) == (Real32::Finite { negative: false, units: one_in_units() }),
{
    lemma2_to64();
    lemma_units_in_binade(126, BINADE as nat);
    lemma_pow2_adds(23, 126);
    lemma_units_round_to_magnitude(ONE_MAGNITUDE as nat);
    assert(1 * one_in_units() == one_in_units());
}

/// A whole positive number of units does not round to zero.
proof fn lemma_nonzero_magnitude(n: nat)
    requires
        n > 0,
    ensures
        magnitude_of(n, 1) > 0,
{
    if n < crate::rounding::SIGNIFICAND_END {
        assert(n / 1 == n);
    }
}

} // verus!
