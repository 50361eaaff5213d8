//! Numbers as text: counts in decimal, and floating-point values with a fixed number
//! of decimal places.
use crate::binary32::{one_in_units, Binary32, Real32};
use crate::rounding::{cut_digits, lemma_nearest_even_scaled, nearest_even};
use vstd::arithmetic::power::pow;
use vstd::arithmetic::power2::{
    lemma2_to64, lemma_pow2_adds, lemma_pow2_pos, lemma_pow2_strictly_increases,
    lemma_pow2_unfold, pow2,
};
use vstd::prelude::*;
use vstd::string::StringExecFns;

verus! {

/// `String::push` puts one character at the end of the text.
pub assume_specification[ String::push ](text: &mut String, c: char)
    ensures
        final(text)@ == old(text)@.push(c),
;

/// The character of a decimal digit.
pub open spec fn digit(n: nat) -> char {
    (48 + n) as char
}

/// A count in decimal, without leading zeros.
pub open spec fn decimal(n: nat) -> Seq<char>
    decreases n,
{
    if n < 10 {
        seq![digit(n)]
    } else {
        decimal(n / 10).push(digit(n % 10))
    }
}

/// The last `places` decimal digits of a count.
pub open spec fn last_digits(n: nat, places: nat) -> Seq<char>
    decreases places,
{
    if places == 0 {
        Seq::empty()
    } else {
        last_digits(n / 10, (places - 1) as nat).push(digit(n % 10))
    }
}

/// Ten to the power of `places`.
pub open spec fn ten_to(places: nat) -> nat
    decreases places,
{
    if places == 0 {
        1
    } else {
        10 * ten_to((places - 1) as nat)
    }
}

/// The sign in front of a number.
pub open spec fn sign_text(negative: bool) -> Seq<char> {
    if negative {
        "-"@
    } else {
        Seq::empty()
    }
}

/// A value with `places` decimal places, rounded to the nearest and to even between
/// two that are equally near.
pub open spec fn fixed(value: Real32, places: nat) -> Seq<char> {
    match value {
        Real32::NaN => "NaN"@,
        Real32::Infinite { negative } => sign_text(negative) + "inf"@,
        Real32::Finite { negative, units } => {
            let scaled = nearest_even(units * ten_to(places), one_in_units());
            sign_text(negative) + decimal(scaled / ten_to(places)) + "."@ + last_digits(
                scaled,
                places,
            )
        },
    }
}

fn digit_char(d: u8) -> (c: char)
    requires
        d < 10,
    ensures
        c == digit(d as nat),
{
    (48 + d) as char
}

/// Puts a count in decimal at the end of the text.
pub fn push_decimal(text: &mut String, n: u128)
    ensures
        final(text)@ == old(text)@ + decimal(n as nat),
    decreases n,
{
    if n >= 10 {
        push_decimal(text, n / 10);
    }
    text.push(digit_char((n % 10) as u8));
    assert(text@ =~= old(text)@ + decimal(n as nat));
}

/// Puts the last `places` decimal digits of a count at the end of the text.
fn push_last_digits(text: &mut String, n: u64, places: u32)
    ensures
        final(text)@ == old(text)@ + last_digits(n as nat, places as nat),
    decreases places,
{
    if places > 0 {
        push_last_digits(text, n / 10, places - 1);
        text.push(digit_char((n % 10) as u8));
    }
    assert(text@ =~= old(text)@ + last_digits(n as nat, places as nat));
}

/// Ten to the power of `places`.
fn power_of_ten(places: u32) -> (r: u64)
    requires
        places <= 6,
    ensures
        r == ten_to(places as nat),
        1 <= r <= 1_000_000,
{
    proof {
        reveal_with_fuel(ten_to, 7);
    }
    let mut r: u64 = 1;
    let mut i: u32 = 0;
    while i < places
        invariant
            i <= places <= 6,
            r == ten_to(i as nat),
        decreases places - i,
    {
        proof {
            reveal_with_fuel(ten_to, 7);
        }
        r = r * 10;
        i = i + 1;
    }
    r
}

/// `m` doubled `s` times.
fn doubled(m: u32, s: u32) -> (r: u128)
    requires
        m < 0x100_0000,
        s <= 104,
    ensures
        r == m * pow2(s as nat),
{
    proof {
        lemma2_to64();
        lemma_pow2_adds(64, 40);
    }
    let mut r: u128 = m as u128;
    let mut i: u32 = 0;
    assert(m * pow2(0) == m);
    while i < s
        invariant
            i <= s <= 104,
            m < 0x100_0000,
            r == m * pow2(i as nat),
        decreases s - i,
    {
        proof {
            lemma_pow2_unfold((i + 1) as nat);
            assert(m * pow2((i + 1) as nat) == 2 * (m * pow2(i as nat))) by (nonlinear_arith)
                requires
                    pow2((i + 1) as nat) == 2 * pow2(i as nat),
            ;
            lemma_pow2_unfold(128);
            lemma_pow2_adds(24, 104);
            lemma2_to64();
            lemma_pow2_adds(64, 64);
            lemma_pow2_pos((i + 1) as nat);
            if i + 1 < 104 {
                lemma_pow2_strictly_increases((i + 1) as nat, 104);
            }
            assert(m * pow2((i + 1) as nat) < 0x100_0000 * pow2(104)) by (nonlinear_arith)
                requires
                    m < 0x100_0000,
                    0 < pow2((i + 1) as nat) <= pow2(104),
            ;
        }
        r = r * 2;
        i = i + 1;
    }
    r
}

/// A whole number followed by zeros for its decimal places.
proof fn lemma_whole(n: nat, places: nat)
    ensures
        (n * ten_to(places)) / ten_to(places) == n,
        last_digits(n * ten_to(places), places) == last_digits(0, places),
    decreases places,
{
    let t = ten_to(places);
    lemma_ten_positive(places);
    vstd::arithmetic::div_mod::lemma_div_multiples_vanish(n as int, t as int);
    assert(n * t == t * n) by (nonlinear_arith);
    if places > 0 {
        let u = ten_to((places - 1) as nat);
        assert(n * (10 * u) == 10 * (n * u)) by (nonlinear_arith);
        lemma_whole(n, (places - 1) as nat);
    }
}

proof fn lemma_ten_positive(places: nat)
    ensures
        ten_to(places) > 0,
    decreases places,
{
    if places > 0 {
        lemma_ten_positive((places - 1) as nat);
    }
}

impl Binary32 {
    /// Puts the value with `places` decimal places at the end of the text.
    pub fn push_fixed(self, text: &mut String, places: u32)
        requires
            places <= 6,
        ensures
            final(text)@ == old(text)@ + fixed(self@, places as nat),
    {
        if self.is_nan() {
            text.append("NaN");
            return;
        }
        if self.is_negative() {
            text.append("-");
        }
        let ghost signed = text@;
        assert(signed =~= old(text)@ + sign_text(self.spec_negative()));
        if !self.is_finite() {
            text.append("inf");
            assert(text@ =~= old(text)@ + fixed(self@, places as nat));
            return;
        }
        let p: (u32, u32) = self.parts();
        let ten: u64 = power_of_ten(places);
        let ghost units = p.0 as nat * pow2(p.1 as nat);
        let ghost scaled = nearest_even(units * ten as nat, pow2(149));
        if p.1 >= 149 {
            let whole: u128 = doubled(p.0, p.1 - 149);
            proof {
                let s = (p.1 - 149) as nat;
                lemma_pow2_adds(s, 149);
                lemma_pow2_pos(149);
                assert(units * ten as nat == (whole as nat * ten as nat) * pow2(149))
                    by (nonlinear_arith)
                    requires
                        units == p.0 as nat * pow2(p.1 as nat),
                        pow2(p.1 as nat) == pow2(s) * pow2(149),
                        whole == p.0 * pow2(s),
                ;
                vstd::arithmetic::div_mod::lemma_fundamental_div_mod_converse(
                    (units * ten as nat) as int,
                    pow2(149) as int,
                    (whole as nat * ten as nat) as int,
                    0,
                );
                assert(scaled == whole as nat * ten as nat);
                lemma_whole(whole as nat, places as nat);
            }
            push_decimal(text, whole);
            text.append(".");
            push_last_digits(text, 0, places);
        } else {
            let s: u32 = 149 - p.1;
            assert(p.0 * ten <= 0x100_0000 * 1_000_000) by (nonlinear_arith)
                requires
                    p.0 < 0x100_0000,
                    ten <= 1_000_000,
            ;
            let m: u64 = p.0 as u64 * ten;
            let q: u64 = cut_digits(m, s, false, Ghost(0), Ghost(1));
            proof {
                lemma_pow2_adds(s as nat, p.1 as nat);
                lemma_pow2_pos(p.1 as nat);
                lemma_pow2_pos(s as nat);
                lemma_nearest_even_scaled(m as nat, pow2(s as nat), pow2(p.1 as nat));
                assert(m as nat * pow2(p.1 as nat) == units * ten as nat) by (nonlinear_arith)
                    requires
                        m == p.0 * ten,
                        units == p.0 as nat * pow2(p.1 as nat),
                ;
                assert(m as nat * 1 + 0 == m as nat);
                assert(1 * pow2(s as nat) == pow2(s as nat));
                assert(q == scaled);
            }
            push_decimal(text, (q / ten) as u128);
            text.append(".");
            push_last_digits(text, q, places);
        }
        assert(text@ =~= old(text)@ + fixed(self@, places as nat));
    }
}

/// The number that a text of decimal digits stands for.
pub open spec fn number_of(digits: Seq<char>) -> int
    decreases digits.len(),
{
    if digits.len() == 0 {
        0
    } else {
        10 * number_of(digits.drop_last()) + (digits.last() as int - '0' as int)
    }
}

/// Whether a text is decimal digits alone.
pub open spec fn are_digits(text: Seq<char>) -> bool {
    forall|i: int| 0 <= i < text.len() ==> '0' <= #[trigger] text[i] <= '9'
}

proof fn lemma_digit(n: nat)
    requires
        n < 10,
    ensures
        '0' <= digit(n) <= '9',
        digit(n) as int - '0' as int == n,
{
}

/// A count in decimal stands for that count: it is digits alone, without a leading zero but for
/// zero itself.
pub proof fn a_decimal_reads_back(n: nat)
    ensures
        decimal(n).len() > 0,
        are_digits(decimal(n)),
        number_of(decimal(n)) == n,
        decimal(n).len() > 1 ==> decimal(n)[0] != '0',
    decreases n,
{
    let text = decimal(n);
    lemma_digit(n % 10);
    if n >= 10 {
        a_decimal_reads_back(n / 10);
        let head = decimal(n / 10);
        assert(text.drop_last() =~= head);
        assert(text[0] == head[0]);
        if head.len() == 1 {
            assert(head.drop_last() =~= Seq::empty());
            assert(number_of(head) == head[0] as int - '0' as int) by {
                reveal_with_fuel(number_of, 2);
            }
        }
    } else {
        assert(text.drop_last() =~= Seq::empty());
        reveal_with_fuel(number_of, 2);
    }
}

proof fn lemma_split_digits(n: nat, places: nat)
    ensures
        last_digits(n, places).len() == places,
        are_digits(last_digits(n, places)),
        number_of(decimal(n / ten_to(places)) + last_digits(n, places)) == n,
        ten_to(places) == pow(10, places),
        ten_to(places) > 0,
    decreases places,
{
    reveal(pow);
    if places == 0 {
        a_decimal_reads_back(n);
        assert(n / 1 == n);
        assert(decimal(n) + last_digits(n, 0) =~= decimal(n));
    } else {
        let fewer = (places - 1) as nat;
        lemma_split_digits(n / 10, fewer);
        lemma_digit(n % 10);
        vstd::arithmetic::div_mod::lemma_div_denominator(n as int, 10, ten_to(fewer) as int);
        let head = decimal(n / ten_to(places)) + last_digits(n / 10, fewer);
        let all = decimal(n / ten_to(places)) + last_digits(n, places);
        assert(all.drop_last() =~= head);
        assert(all.last() == digit(n % 10));
    }
}

/// A finite value with a number of decimal places is its sign, digits without a leading zero, a
/// point, and as many digits as there are places. Read without the point the digits are the
/// integer nearest to the value times ten to the power of the places, and the even one of two
/// that are equally near. What is not finite is named.
pub proof fn fixed_places_are_the_nearest(value: Real32, places: nat) -> (r: (Seq<char>, Seq<char>))
    ensures
        value is NaN ==> fixed(value, places) == "NaN"@,
        value matches Real32::Infinite { negative } ==> fixed(value, places) == (if negative {
            "-inf"@
        } else {
            "inf"@
        }),
        value matches Real32::Finite { negative, units } ==> {
            let n = number_of(r.0 + r.1);
            let exact = units * pow(10, places);
            &&& fixed(value, places) == (if negative {
                seq!['-']
            } else {
                Seq::empty()
            }) + r.0 + seq!['.'] + r.1
            &&& r.0.len() > 0 && are_digits(r.0) && (r.0.len() > 1 ==> r.0[0] != '0')
            &&& r.1.len() == places && are_digits(r.1)
            &&& -pow2(149) <= 2 * (n * pow2(149) - exact) <= pow2(149)
            &&& (2 * (n * pow2(149) - exact) == pow2(149) || 2 * (n * pow2(149) - exact)
                == -pow2(149)) ==> n % 2 == 0
        },
{
    reveal_strlit("-");
    reveal_strlit(".");
    reveal_strlit("inf");
    reveal_strlit("-inf");
    assert("-"@ =~= seq!['-']);
    assert("."@ =~= seq!['.']);
    assert("-"@ + "inf"@ =~= "-inf"@);
    assert(Seq::<char>::empty() + "inf"@ =~= "inf"@);
    match value {
        Real32::Finite { negative, units } => {
            let t = ten_to(places);
            let d = one_in_units();
            let scaled = nearest_even(units * t, d);
            lemma_split_digits(scaled, places);
            a_decimal_reads_back(scaled / t);
            lemma_pow2_pos(149);
            lemma_nearest_even_is_nearest(units * t, d);
            assert(pow(10, places) * units == units * pow(10, places)) by (nonlinear_arith);
            (decimal(scaled / t), last_digits(scaled, places))
        },
        _ => (Seq::empty(), Seq::empty()),
    }
}

proof fn lemma_nearest_even_is_nearest(n: nat, d: nat)
    requires
        d > 0,
    ensures
        ({
            let gap = nearest_even(n, d) * d - n;
            &&& -d <= 2 * gap <= d
            &&& 2 * gap == d || 2 * gap == -d ==> nearest_even(n, d) % 2 == 0
        }),
{
    vstd::arithmetic::div_mod::lemma_fundamental_div_mod(n as int, d as int);
    let q = n / d;
    assert((q + 1) * d == q * d + d) by (nonlinear_arith);
    assert(d * q == q * d) by (nonlinear_arith);
}

} // verus!
