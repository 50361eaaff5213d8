//! Rounding of exact quotients to the 32-bit binary floating-point format.
//!
//! Every finite value of the format is a whole number of *units*, one unit being
//! the smallest positive value, two to the power of minus 149. The magnitude of a
//! value (its bits without the sign) is an integer that grows with the value it
//! stands for: below `SIGNIFICAND_END` it is the number of units itself, and each
//! further `BINADE` magnitudes cover an interval twice as long, twice as coarsely.
use vstd::arithmetic::div_mod::lemma_fundamental_div_mod;
use vstd::arithmetic::div_mod::lemma_fundamental_div_mod_converse;
use vstd::arithmetic::power2::{
    lemma2_to64, lemma2_to64_rest, lemma_pow2_adds, lemma_pow2_pos, lemma_pow2_strictly_increases,
    lemma_pow2_unfold, pow2,
};
use vstd::bits::{lemma_u64_pow2_no_overflow, lemma_u64_shl_is_mul};
use vstd::prelude::*;

verus! {

/// The number of magnitudes in one binade: two to the power of 23.
pub const BINADE: u32 = 0x80_0000;

/// The first count of units that no longer fits a significand: two to the power of 24.
pub const SIGNIFICAND_END: u32 = 0x100_0000;

/// The magnitude of an infinity. The magnitudes above it are not numbers.
pub const INFINITE_MAGNITUDE: u32 = 0x7f80_0000;

/// The integer nearest to `n / d`, and the even one of two that are equally near.
pub open spec fn nearest_even(n: nat, d: nat) -> nat {
    let q = n / d;
    let r = n % d;
    if 2 * r > d || (2 * r == d && q % 2 == 1) {
        q + 1
    } else {
        q
    }
}

/// The magnitude that a value of `n / d` units rounds to, in a format without an
/// upper limit: as an integer where the value is below `SIGNIFICAND_END` units, and
/// otherwise one binade above the value half as large.
pub open spec fn magnitude_of(n: nat, d: nat) -> nat
    decreases (if d > 0 && n >= d * SIGNIFICAND_END { n - d * SIGNIFICAND_END + 1 } else { 0 }),
{
    if d == 0 {
        0
    } else if n < d * SIGNIFICAND_END {
        nearest_even(n, d)
    } else {
        BINADE as nat + magnitude_of(n, 2 * d)
    }
}

/// The units of a magnitude. An infinity counts as the value that would come next
/// after the largest finite one.
pub open spec fn units_of(magnitude: nat) -> nat {
    if magnitude < BINADE {
        magnitude
    } else {
        (magnitude % (BINADE as nat) + BINADE as nat) * pow2(
            (magnitude / (BINADE as nat) - 1) as nat,
        )
    }
}

proof fn lemma_nearest_even_unique(n: nat, d: nat, q: nat, r: nat)
    requires
        r < d,
        n == q * d + r,
    ensures
        nearest_even(n, d) == (if 2 * r > d || (2 * r == d && q % 2 == 1) {
            q + 1
        } else {
            q
        }),
{
    lemma_fundamental_div_mod_converse(n as int, d as int, q as int, r as int);
}

/// Scaling both sides of a quotient does not change the nearest integer.
pub proof fn lemma_nearest_even_scaled(n: nat, d: nat, a: nat)
    requires
        d > 0,
        a > 0,
    ensures
        nearest_even(n * a, d * a) == nearest_even(n, d),
{
    let q = n / d;
    let r = n % d;
    lemma_fundamental_div_mod(n as int, d as int);
    assert(n * a == q * (d * a) + r * a) by (nonlinear_arith)
        requires
            n == d * q + r,
    ;
    assert(r * a < d * a) by (nonlinear_arith)
        requires
            r < d,
            a > 0,
    ;
    assert(2 * (r * a) > d * a <==> 2 * r > d) by (nonlinear_arith)
        requires
            a > 0,
    ;
    assert(2 * (r * a) == d * a <==> 2 * r == d) by (nonlinear_arith)
        requires
            a > 0,
    ;
    lemma_nearest_even_unique(n * a, d * a, q, r * a);
}

/// Scaling both sides of a quotient does not change the magnitude it rounds to.
pub proof fn lemma_magnitude_scaled(n: nat, d: nat, a: nat)
    requires
        d > 0,
        a > 0,
    ensures
        magnitude_of(n * a, d * a) == magnitude_of(n, d),
    decreases (if n >= d * SIGNIFICAND_END { n - d * SIGNIFICAND_END + 1 } else { 0 }),
{
    assert(d * a > 0) by (nonlinear_arith)
        requires
            d > 0,
            a > 0,
    ;
    assert(n * a < (d * a) * SIGNIFICAND_END <==> n < d * SIGNIFICAND_END) by (nonlinear_arith)
        requires
            a > 0,
    ;
    if n < d * SIGNIFICAND_END {
        lemma_nearest_even_scaled(n, d, a);
    } else {
        lemma_magnitude_scaled(n, 2 * d, a);
        assert((2 * d) * a == 2 * (d * a)) by (nonlinear_arith);
    }
}

/// Equal quotients round to the same magnitude.
pub proof fn lemma_magnitude_equal_quotients(n: nat, d: nat, p: nat, q: nat)
    requires
        d > 0,
        q > 0,
        n * q == p * d,
    ensures
        magnitude_of(n, d) == magnitude_of(p, q),
{
    lemma_magnitude_scaled(n, d, q);
    lemma_magnitude_scaled(p, q, d);
    assert(d * q == q * d) by (nonlinear_arith);
}

/// The magnitude of a quotient whose binade is known.
pub proof fn lemma_magnitude_in_binade(n: nat, d: nat, k: nat)
    requires
        d > 0,
        n < d * pow2(24 + k),
        k > 0 ==> n >= d * pow2((23 + k) as nat),
    ensures
        magnitude_of(n, d) == k * BINADE + nearest_even(n, d * pow2(k)),
    decreases k,
{
    lemma2_to64();
    if k > 0 {
        let j = (k - 1) as nat;
        lemma_pow2_unfold(k);
        lemma_pow2_unfold(24 + k);
        assert(d * pow2(24 + k) == (2 * d) * pow2(24 + j)) by (nonlinear_arith)
            requires
                pow2(24 + k) == 2 * pow2(24 + j),
        ;
        assert(d * pow2(k) == (2 * d) * pow2(j)) by (nonlinear_arith)
            requires
                pow2(k) == 2 * pow2(j),
        ;
        assert(23 + k == 24 + j);
        if j > 0 {
            lemma_pow2_unfold(24 + j);
            assert(d * pow2(24 + j) == (2 * d) * pow2((23 + j) as nat)) by (nonlinear_arith)
                requires
                    pow2(24 + j) == 2 * pow2((23 + j) as nat),
            ;
            lemma_pow2_strictly_increases(24, 24 + j);
            assert(d * pow2(24 + j) >= d * pow2(24)) by (nonlinear_arith)
                requires
                    pow2(24 + j) >= pow2(24),
            ;
        }
        lemma_magnitude_in_binade(n, 2 * d, j);
        assert(magnitude_of(n, d) == BINADE as nat + magnitude_of(n, 2 * d));
        assert(k * BINADE == j * BINADE + BINADE) by (nonlinear_arith)
            requires
                k == j + 1,
        ;
    } else {
        assert(d * pow2(0) == d);
    }
}

/// The units of the magnitude `k * BINADE + q` of binade `k`.
pub proof fn lemma_units_in_binade(k: nat, q: nat)
    requires
        q <= SIGNIFICAND_END,
        k > 0 ==> q >= BINADE,
    ensures
        units_of((k * BINADE + q) as nat) == q * pow2(k),
{
    lemma2_to64();
    let m = (k * BINADE + q) as nat;
    assert(q * pow2(0) == q);
    if m >= BINADE {
        if q < BINADE {
            assert(k == 0);
            assert(m == q);
        } else if q < SIGNIFICAND_END {
            assert(m == (k + 1) * BINADE + (q - BINADE)) by (nonlinear_arith)
                requires
                    m == k * BINADE + q,
            ;
            lemma_fundamental_div_mod_converse(m as int, BINADE as int, (k + 1) as int, q - BINADE);
        } else {
            assert(m == (k + 2) * BINADE) by (nonlinear_arith)
                requires
                    m == k * BINADE + q,
                    q == 2 * BINADE,
            ;
            lemma_fundamental_div_mod_converse(m as int, BINADE as int, (k + 2) as int, 0);
            lemma_pow2_unfold(k + 1);
            assert(BINADE * pow2(k + 1) == q * pow2(k)) by (nonlinear_arith)
                requires
                    pow2(k + 1) == 2 * pow2(k),
                    q == 2 * BINADE,
            ;
        }
    }
}

/// The binade and the significand of a magnitude.
proof fn lemma_split_magnitude(m: nat) -> (kq: (nat, nat))
    ensures
        m == kq.0 * BINADE + kq.1,
        kq.1 < SIGNIFICAND_END,
        kq.0 > 0 ==> kq.1 >= BINADE,
        units_of(m) == kq.1 * pow2(kq.0),
{
    lemma_fundamental_div_mod(m as int, BINADE as int);
    let j = m / (BINADE as nat);
    let r = m % (BINADE as nat);
    if j <= 1 {
        assert(m == 0 * BINADE + m);
        assert(j == 0 ==> m == r);
        lemma_units_in_binade(0, m);
        (0, m)
    } else {
        let k = (j - 1) as nat;
        assert(m == k * BINADE + (r + BINADE)) by (nonlinear_arith)
            requires
                m == BINADE * j + r,
                k == j - 1,
        ;
        lemma_units_in_binade(k, (r + BINADE) as nat);
        (k, (r + BINADE) as nat)
    }
}

/// A value of the format rounds to itself.
pub proof fn lemma_units_round_to_magnitude(m: nat)
    ensures
        magnitude_of(units_of(m), 1) == m,
{
    let (k, q) = lemma_split_magnitude(m);
    let n = units_of(m);
    lemma2_to64();
    lemma_pow2_pos(k);
    lemma_pow2_adds(24, k);
    lemma_pow2_adds(23, k);
    assert(n < 1 * pow2(24 + k)) by (nonlinear_arith)
        requires
            n == q * pow2(k),
            q < 0x100_0000,
            pow2(24 + k) == 0x100_0000 * pow2(k),
            pow2(k) > 0,
    ;
    if k > 0 {
        assert(n >= 1 * pow2((23 + k) as nat)) by (nonlinear_arith)
            requires
                n == q * pow2(k),
                q >= 0x80_0000,
                pow2((23 + k) as nat) == 0x80_0000 * pow2(k),
        ;
    }
    lemma_magnitude_in_binade(n, 1, k);
    lemma_nearest_even_unique(n, pow2(k), q, 0);
    assert(1 * pow2(k) == pow2(k));
}

proof fn lemma_units_step(m: nat)
    ensures
        units_of(m) < units_of(m + 1),
{
    let (k, q) = lemma_split_magnitude(m);
    lemma_pow2_pos(k);
    lemma_units_in_binade(k, q + 1);
    assert(k * BINADE + (q + 1) == m + 1);
    assert(q * pow2(k) < (q + 1) * pow2(k)) by (nonlinear_arith)
        requires
            pow2(k) > 0,
    ;
}

/// A larger magnitude stands for a larger value.
pub proof fn lemma_units_increase(a: nat, b: nat)
    requires
        a < b,
    ensures
        units_of(a) < units_of(b),
    decreases b - a,
{
    lemma_units_step((b - 1) as nat);
    if a < b - 1 {
        lemma_units_increase(a, (b - 1) as nat);
    }
}

/// The binade of a quotient.
proof fn lemma_binade_of_quotient(n: nat, d: nat) -> (k: nat)
    requires
        d > 0,
    ensures
        n < d * pow2(24 + k),
        k > 0 ==> n >= d * pow2((23 + k) as nat),
    decreases (if n >= d * SIGNIFICAND_END { n - d * SIGNIFICAND_END + 1 } else { 0 }),
{
    lemma2_to64();
    if n < d * SIGNIFICAND_END {
        0
    } else {
        let j = lemma_binade_of_quotient(n, 2 * d);
        let k = j + 1;
        lemma_pow2_unfold(24 + k);
        assert(d * pow2(24 + k) == (2 * d) * pow2(24 + j)) by (nonlinear_arith)
            requires
                pow2(24 + k) == 2 * pow2(24 + j),
        ;
        assert(23 + k == 24 + j);
        if j > 0 {
            lemma_pow2_unfold(24 + j);
            assert(d * pow2(24 + j) == (2 * d) * pow2((23 + j) as nat)) by (nonlinear_arith)
                requires
                    pow2(24 + j) == 2 * pow2((23 + j) as nat),
            ;
        }
        k
    }
}

/// The distance of `n / d` units from the value of a magnitude, `d` times.
pub open spec fn distance(n: nat, d: nat, magnitude: nat) -> int {
    let gap = n - units_of(magnitude) * d;
    if gap < 0 {
        -gap
    } else {
        gap
    }
}

/// Rounding gives the nearest value of the format: no other magnitude is closer to
/// the exact quotient, and the result is even where another is equally close.
pub proof fn rounding_is_nearest(n: nat, d: nat, other: nat)
    requires
        d > 0,
    ensures
        distance(n, d, magnitude_of(n, d)) <= distance(n, d, other),
        distance(n, d, magnitude_of(n, d)) == distance(n, d, other) && other != magnitude_of(n, d)
            ==> magnitude_of(n, d) % 2 == 0,
{
    let k = lemma_binade_of_quotient(n, d);
    lemma_magnitude_in_binade(n, d, k);
    lemma2_to64();
    lemma_pow2_pos(k);
    lemma_pow2_adds(24, k);
    lemma_pow2_adds(23, k);
    let step = d * pow2(k);
    assert(step > 0) by (nonlinear_arith)
        requires
            step == d * pow2(k),
            d > 0,
            pow2(k) > 0,
    ;
    let q = n / step;
    let r = n % step;
    lemma_fundamental_div_mod(n as int, step as int);
    assert(q < 0x100_0000) by (nonlinear_arith)
        requires
            n == step * q + r,
            r >= 0,
            step > 0,
            step == d * pow2(k),
            n < d * pow2(24 + k),
            pow2(24 + k) == 0x100_0000 * pow2(k),
    ;
    if k > 0 {
        assert(q >= 0x80_0000) by (nonlinear_arith)
            requires
                n == step * q + r,
                r < step,
                step > 0,
                step == d * pow2(k),
                n >= d * pow2((23 + k) as nat),
                pow2((23 + k) as nat) == 0x80_0000 * pow2(k),
        ;
    }
    let low = (k * BINADE + q) as nat;
    lemma_units_in_binade(k, q);
    lemma_units_in_binade(k, q + 1);
    assert(low + 1 == k * BINADE + (q + 1));
    assert(units_of(low) * d == step * q) by (nonlinear_arith)
        requires
            units_of(low) == q * pow2(k),
            step == d * pow2(k),
    ;
    assert(units_of(low + 1) * d == step * q + step) by (nonlinear_arith)
        requires
            units_of(low + 1) == (q + 1) * pow2(k),
            step == d * pow2(k),
    ;
    assert(distance(n, d, low) == r);
    assert(distance(n, d, low + 1) == step - r);
    assert(k * BINADE % 2 == 0) by (nonlinear_arith)
        requires
            BINADE == 0x80_0000,
    ;
    if other < low {
        lemma_units_increase(other, low);
        assert(units_of(other) * d < units_of(low) * d) by (nonlinear_arith)
            requires
                units_of(other) < units_of(low),
                d > 0,
        ;
    } else if other > low + 1 {
        lemma_units_increase(low + 1, other);
        assert(units_of(other) * d > units_of(low + 1) * d) by (nonlinear_arith)
            requires
                units_of(other) > units_of(low + 1),
                d > 0,
        ;
    }
}

proof fn lemma_nearest_even_grows(a: nat, b: nat, d: nat)
    requires
        d > 0,
        a <= b,
    ensures
        nearest_even(a, d) <= nearest_even(b, d),
{
    let p = a / d;
    let q = b / d;
    lemma_fundamental_div_mod(a as int, d as int);
    lemma_fundamental_div_mod(b as int, d as int);
    assert(p <= q) by (nonlinear_arith)
        requires
            a == d * p + a % d,
            b == d * q + b % d,
            a <= b,
            0 <= a % d,
            b % d < d,
            d > 0,
    ;
    if p == q {
        assert(a % d <= b % d);
    }
}

/// A value of at least one binade does not round below it.
proof fn lemma_magnitude_at_least(n: nat, d: nat)
    requires
        d > 0,
        n >= d * BINADE,
    ensures
        magnitude_of(n, d) >= BINADE,
{
    if n < d * SIGNIFICAND_END {
        lemma_fundamental_div_mod(n as int, d as int);
        assert(n / d >= BINADE) by (nonlinear_arith)
            requires
                n == d * (n / d) + n % d,
                n % d < d,
                n >= d * BINADE,
                d > 0,
        ;
    }
}

/// A larger quotient does not round to a smaller magnitude.
pub proof fn rounding_keeps_order(a: nat, b: nat, d: nat)
    requires
        d > 0,
        a <= b,
    ensures
        magnitude_of(a, d) <= magnitude_of(b, d),
    decreases (if b >= d * SIGNIFICAND_END { b - d * SIGNIFICAND_END + 1 } else { 0 }),
{
    if b < d * SIGNIFICAND_END {
        lemma_nearest_even_grows(a, b, d);
    } else if a < d * SIGNIFICAND_END {
        lemma_nearest_even_grows(a, d * SIGNIFICAND_END as nat, d);
        lemma_nearest_even_unique(
            d * SIGNIFICAND_END as nat,
            d,
            SIGNIFICAND_END as nat,
            0,
        );
        assert(b >= (2 * d) * BINADE) by (nonlinear_arith)
            requires
                b >= d * SIGNIFICAND_END,
                SIGNIFICAND_END == 2 * BINADE,
        ;
        lemma_magnitude_at_least(b, 2 * d);
    } else {
        rounding_keeps_order(a, b, 2 * d);
    }
}

/// Two to the power of `e`.
pub fn power_of_two(e: u32) -> (r: u64)
    requires
        e < 64,
    ensures
        r == pow2(e as nat),
{
    proof {
        lemma2_to64();
        lemma2_to64_rest();
        lemma_u64_pow2_no_overflow(e as nat);
        lemma_u64_shl_is_mul(1, e as u64);
    }
    1u64 << e
}

/// The number of binary digits of `m`.
pub fn bit_length(m: u64) -> (b: u32)
    requires
        m > 0,
    ensures
        1 <= b <= 64,
        m < pow2(b as nat),
        m >= pow2((b - 1) as nat),
{
    proof {
        lemma2_to64();
    }
    let mut b: u32 = 1;
    while b < 64 && m >= power_of_two(b)
        invariant
            1 <= b <= 64,
            m >= pow2((b - 1) as nat),
        ensures
            1 <= b <= 64,
            m >= pow2((b - 1) as nat),
            b < 64 ==> m < pow2(b as nat),
        decreases 64 - b,
    {
        b = b + 1;
    }
    proof {
        lemma2_to64_rest();
    }
    b
}

/// A magnitude cut off at infinity.
pub open spec fn saturated(magnitude: nat) -> nat {
    if magnitude >= INFINITE_MAGNITUDE {
        INFINITE_MAGNITUDE as nat
    } else {
        magnitude
    }
}

/// `n` times two to the power of `e`, as far as that is a multiplication.
pub open spec fn scaled_up(n: nat, e: int) -> nat {
    if e >= 0 {
        n * pow2(e as nat)
    } else {
        n
    }
}

/// `d` divided by two to the power of `e`, as far as that is a multiplication.
pub open spec fn scaled_down(d: nat, e: int) -> nat {
    scaled_up(d, -e)
}

proof fn lemma_scaled_positive(d: nat, e: int)
    requires
        d > 0,
    ensures
        scaled_up(d, e) > 0,
{
    if e >= 0 {
        lemma_pow2_pos(e as nat);
        assert(d * pow2(e as nat) > 0) by (nonlinear_arith)
            requires
                d > 0,
                pow2(e as nat) > 0,
        ;
    }
}

/// The bounds on `(m + c / d) * 2^e` that its number of binary digits gives.
proof fn lemma_binade_of_scaled(m: nat, c: nat, d: nat, e: int, b: nat, k: nat)
    requires
        c < d,
        b >= 1,
        pow2((b - 1) as nat) <= m < pow2(b),
        b + e <= 24 ==> k == 0,
        b + e > 24 ==> k == b + e - 24,
    ensures
        scaled_up(m * d + c, e) < scaled_down(d, e) * pow2(24 + k),
        k > 0 ==> scaled_up(m * d + c, e) >= scaled_down(d, e) * pow2((23 + k) as nat),
{
    let up = if e >= 0 {
        e as nat
    } else {
        0
    };
    let down = if e < 0 {
        (-e) as nat
    } else {
        0
    };
    lemma2_to64();
    let v = m * d + c;
    let n = scaled_up(v, e);
    let dd = scaled_down(d, e);
    assert(v * pow2(0) == v && d * pow2(0) == d);
    assert(n == v * pow2(up));
    assert(dd == d * pow2(down));
    assert(v < pow2(b) * d) by (nonlinear_arith)
        requires
            v == m * d + c,
            c < d,
            m + 1 <= pow2(b),
    ;
    lemma_pow2_pos(up);
    lemma_pow2_pos(down);
    lemma_pow2_adds(b, up);
    lemma_pow2_adds(down, 24 + k);
    assert(b + up <= down + (24 + k));
    if b + up < down + (24 + k) {
        lemma_pow2_strictly_increases(b + up, down + (24 + k));
    }
    assert(v * pow2(up) < (pow2(b) * d) * pow2(up)) by (nonlinear_arith)
        requires
            v < pow2(b) * d,
            pow2(up) > 0,
    ;
    assert((pow2(b) * d) * pow2(up) == d * (pow2(b) * pow2(up))) by (nonlinear_arith);
    assert(d * pow2(b + up) <= d * pow2(down + (24 + k))) by (nonlinear_arith)
        requires
            pow2(b + up) <= pow2(down + (24 + k)),
    ;
    assert(d * (pow2(down) * pow2(24 + k)) == (d * pow2(down)) * pow2(24 + k)) by (nonlinear_arith);
    if k > 0 {
        let f = (b - 1) as nat;
        lemma_pow2_adds(f, up);
        lemma_pow2_adds(down, (23 + k) as nat);
        assert(f + up == down + (23 + k));
        assert(v * pow2(up) >= (d * pow2(f)) * pow2(up)) by (nonlinear_arith)
            requires
                v == m * d + c,
                m >= pow2(f),
        ;
        assert((d * pow2(f)) * pow2(up) == d * (pow2(f) * pow2(up))) by (nonlinear_arith);
        assert(d * (pow2(down) * pow2((23 + k) as nat)) == (d * pow2(down)) * pow2((23 + k) as nat))
            by (nonlinear_arith);
    }
}

/// Taking the scale out of the quotient that a significand is cut from.
proof fn lemma_significand_of_scaled(v: nat, d: nat, e: int, k: nat)
    requires
        d > 0,
    ensures
        k >= e ==> nearest_even(scaled_up(v, e), scaled_down(d, e) * pow2(k)) == nearest_even(
            v,
            d * pow2((k - e) as nat),
        ),
        k <= e ==> nearest_even(scaled_up(v, e), scaled_down(d, e) * pow2(k)) == nearest_even(
            v * pow2((e - k) as nat),
            d,
        ),
{
    lemma2_to64();
    lemma_pow2_pos(k);
    assert(d * pow2(0) == d);
    if e < 0 {
        let f = (-e) as nat;
        lemma_pow2_adds(f, k);
        assert(f + k == k - e);
        assert((d * pow2(f)) * pow2(k) == d * (pow2(f) * pow2(k))) by (nonlinear_arith);
    } else if k >= e {
        let f = e as nat;
        let t = (k - e) as nat;
        lemma_pow2_adds(t, f);
        lemma_pow2_pos(f);
        lemma_pow2_pos(t);
        assert(t + f == k);
        assert(d * (pow2(t) * pow2(f)) == (d * pow2(t)) * pow2(f)) by (nonlinear_arith);
        assert(d * pow2(t) > 0) by (nonlinear_arith)
            requires
                d > 0,
                pow2(t) > 0,
        ;
        lemma_nearest_even_scaled(v, d * pow2(t), pow2(f));
    }
    if 0 <= e && k <= e {
        let f = e as nat;
        let t = (e - k) as nat;
        lemma_pow2_adds(t, k);
        assert(t + k == f);
        assert(v * (pow2(t) * pow2(k)) == (v * pow2(t)) * pow2(k)) by (nonlinear_arith);
        lemma_nearest_even_scaled(v * pow2(t), d, pow2(k));
    }
}

/// The nearest integer to `(m + c / d) / 2^t`.
proof fn lemma_cut_significand(m: nat, c: nat, d: nat, t: nat, q: nat, rem: nat)
    requires
        c < d,
        t > 0,
        m == q * pow2(t) + rem,
        rem < pow2(t),
    ensures
        nearest_even(m * d + c, d * pow2(t)) == ({
            let half = pow2((t - 1) as nat);
            if rem > half || (rem == half && (c > 0 || q % 2 == 1)) {
                q + 1
            } else {
                q
            }
        }),
{
    let w = pow2(t);
    let half = pow2((t - 1) as nat);
    lemma_pow2_unfold(t);
    let r = rem * d + c;
    assert(m * d + c == q * (d * w) + r) by (nonlinear_arith)
        requires
            m == q * w + rem,
            r == rem * d + c,
    ;
    assert(r < d * w) by (nonlinear_arith)
        requires
            r == rem * d + c,
            rem + 1 <= w,
            c < d,
    ;
    assert(rem > half ==> 2 * r > d * w) by (nonlinear_arith)
        requires
            r == rem * d + c,
            w == 2 * half,
            d > 0,
    ;
    assert(rem == half ==> 2 * r == d * w + 2 * c) by (nonlinear_arith)
        requires
            r == rem * d + c,
            w == 2 * half,
    ;
    assert(rem < half ==> 2 * r < d * w) by (nonlinear_arith)
        requires
            r == rem * d + c,
            w == 2 * half,
            c < d,
    ;
    lemma_nearest_even_unique(m * d + c, d * w, q, r);
}

/// The integer nearest to `m + c / d` without its last `t` binary digits.
pub(crate) fn cut_digits(
    m: u64,
    t: u32,
    inexact: bool,
    Ghost(c): Ghost<nat>,
    Ghost(d): Ghost<nat>,
) -> (r: u64)
    requires
        m < 0x4000_0000_0000_0000,
        t > 0,
        c < d,
        inexact == (c > 0),
    ensures
        r == nearest_even(m as nat * d + c, d * pow2(t as nat)),
        r <= m as nat / pow2(t as nat) + 1,
{
    proof {
        lemma2_to64();
        lemma2_to64_rest();
        lemma_pow2_pos(t as nat);
    }
    if t >= 64 {
        proof {
            lemma_pow2_strictly_increases(62, (t - 1) as nat);
            lemma_pow2_strictly_increases(62, t as nat);
            lemma_cut_significand(m as nat, c, d, t as nat, 0, m as nat);
        }
        0
    } else {
        let cut: u64 = power_of_two(t);
        let half: u64 = power_of_two(t - 1);
        let q: u64 = m / cut;
        let rem: u64 = m % cut;
        proof {
            lemma_fundamental_div_mod(m as int, cut as int);
            assert(m as nat == q as nat * pow2(t as nat) + rem) by (nonlinear_arith)
                requires
                    m == cut * q + rem,
                    cut == pow2(t as nat),
            ;
            lemma_cut_significand(m as nat, c, d, t as nat, q as nat, rem as nat);
            assert(q <= m) by (nonlinear_arith)
                requires
                    m == cut * q + rem,
                    cut >= 1,
                    rem >= 0,
            ;
        }
        if rem > half || (rem == half && (inexact || q % 2 == 1)) {
            q + 1
        } else {
            q
        }
    }
}

/// The significand that is left of `m + c / d` when `t` binary digits are cut off its
/// end, or `-t` zeros put there.
fn significand(m: u64, t: i32, inexact: bool, Ghost(c): Ghost<nat>, Ghost(d): Ghost<nat>) -> (r: u32)
    requires
        m < 0x4000_0000_0000_0000,
        -24 <= t <= 2000,
        c < d,
        inexact == (c > 0),
        t <= 0 ==> c == 0 && m * pow2((-t) as nat) < 0x100_0000,
        t > 0 ==> m < pow2(t as nat) * 0x100_0000,
    ensures
        t > 0 ==> r == nearest_even(m as nat * d + c, d * pow2(t as nat)),
        t <= 0 ==> r == nearest_even((m as nat * d + c) * pow2((-t) as nat), d),
        r <= SIGNIFICAND_END,
{
    if t <= 0 {
        proof {
            let f = (-t) as nat;
            assert((m as nat * d) * pow2(f) == (m as nat * pow2(f)) * d) by (nonlinear_arith);
            lemma_nearest_even_unique((m as nat * d + c) * pow2(f), d, m as nat * pow2(f), 0);
        }
        let scale: u64 = power_of_two((-t) as u32);
        (m * scale) as u32
    } else {
        proof {
            let w = pow2(t as nat);
            lemma_pow2_pos(t as nat);
            lemma_fundamental_div_mod(m as int, w as int);
            assert(m as nat / w < 0x100_0000) by (nonlinear_arith)
                requires
                    m as nat == w * (m as nat / w) + m as nat % w,
                    m < w * 0x100_0000,
                    w > 0,
            ;
        }
        cut_digits(m, t as u32, inexact, Ghost(c), Ghost(d)) as u32
    }
}

/// A quotient from binade 254 on rounds to infinity.
proof fn lemma_high_binade(n: nat, d: nat, k: nat)
    requires
        d > 0,
        k >= 254,
        n < d * pow2(24 + k),
        n >= d * pow2((23 + k) as nat),
    ensures
        magnitude_of(n, d) >= INFINITE_MAGNITUDE,
{
    lemma_magnitude_in_binade(n, d, k);
    lemma2_to64();
    lemma_pow2_adds(23, k);
    lemma_pow2_pos(k);
    let dd = d * pow2(k);
    assert(dd > 0 && n >= dd * 0x80_0000) by (nonlinear_arith)
        requires
            n >= d * pow2((23 + k) as nat),
            pow2((23 + k) as nat) == 0x80_0000 * pow2(k),
            dd == d * pow2(k),
            d > 0,
            pow2(k) > 0,
    ;
    lemma_fundamental_div_mod(n as int, dd as int);
    assert(n / dd >= 0x80_0000) by (nonlinear_arith)
        requires
            n >= dd * 0x80_0000,
            n == dd * (n / dd) + n % dd,
            n % dd < dd,
            dd > 0,
    ;
    assert(k * BINADE >= 254 * BINADE) by (nonlinear_arith)
        requires
            k >= 254,
    ;
}

/// Rounds `(m + c / d) * 2^e` units, where the executable code knows of `c / d` only
/// whether it is zero.
pub(crate) fn round_scaled(
    m: u64,
    e: i32,
    inexact: bool,
    Ghost(c): Ghost<nat>,
    Ghost(d): Ghost<nat>,
) -> (magnitude: u32)
    requires
        m < 0x4000_0000_0000_0000,
        -1000 <= e <= 1000,
        c < d,
        inexact == (c > 0),
        inexact ==> m >= 0x200_0000,
    ensures
        magnitude == saturated(
            magnitude_of(scaled_up(m as nat * d + c, e as int), scaled_down(d, e as int)),
        ),
{
    let ghost n = scaled_up(m as nat * d + c, e as int);
    let ghost dd = scaled_down(d, e as int);
    proof {
        lemma2_to64();
        lemma2_to64_rest();
        lemma_scaled_positive(d, -e);
    }
    if m == 0 {
        proof {
            assert(0nat * d == 0);
            assert(0nat * pow2(e as nat) == 0);
            lemma_nearest_even_unique(0, dd, 0, 0);
            assert(dd * SIGNIFICAND_END > 0) by (nonlinear_arith)
                requires
                    dd > 0,
                    SIGNIFICAND_END == 0x100_0000,
            ;
        }
        return 0;
    }
    let b: u32 = bit_length(m);
    let top: i32 = b as i32 + e;
    let k: i32 = if top > 24 {
        top - 24
    } else {
        0
    };
    proof {
        lemma_binade_of_scaled(m as nat, c, d, e as int, b as nat, k as nat);
    }
    if k >= 254 {
        proof {
            lemma_high_binade(n, dd, k as nat);
        }
        return INFINITE_MAGNITUDE;
    }
    proof {
        lemma_magnitude_in_binade(n, dd, k as nat);
        lemma_significand_of_scaled(m as nat * d + c, d, e as int, k as nat);
        let t = k - e;
        if c > 0 && b < 26 {
            lemma_pow2_unfold(26);
            lemma_pow2_strictly_increases(b as nat, 26);
            assert(b == 25);
        }
        if t <= 0 {
            let f = (-t) as nat;
            lemma_pow2_adds(b as nat, f);
            lemma_pow2_pos(f);
            if b + f < 24 {
                lemma_pow2_strictly_increases(b as nat + f, 24);
            }
            assert(m * pow2(f) < 0x100_0000) by (nonlinear_arith)
                requires
                    m < pow2(b as nat),
                    pow2(f) > 0,
                    pow2(b as nat) * pow2(f) <= 0x100_0000,
            ;
        } else {
            lemma_pow2_adds(t as nat, 24);
            if b < t + 24 {
                lemma_pow2_strictly_increases(b as nat, t as nat + 24);
            }
        }
    }
    let digits: u32 = significand(m, k - e, inexact, Ghost(c), Ghost(d));
    let magnitude: u32 = digits + (k as u32) * BINADE;
    if magnitude > INFINITE_MAGNITUDE {
        INFINITE_MAGNITUDE
    } else {
        magnitude
    }
}

} // verus!
