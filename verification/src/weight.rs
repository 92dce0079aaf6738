//! Weights in the binary64 format, and the channel arithmetic built on them.
//!
//! Everything here is integer arithmetic that gives, bit for bit, what
//! binary64 floating point gives: a quotient or a product is rounded to 53
//! significant bits, to the nearest value and on a tie to the even one.

use vstd::arithmetic::power2::{
    lemma2_to64, lemma2_to64_rest, lemma_pow2_adds, lemma_pow2_pos,
    lemma_pow2_strictly_increases, lemma_pow2_unfold, pow2,
};
use vstd::prelude::*;

verus! {

/// Two to the power 52: the least 53-bit significand.
pub const TWO_52: u64 = 0x10_0000_0000_0000;

/// Two to the power 53: one more than the greatest 53-bit significand.
pub const TWO_53: u64 = 0x20_0000_0000_0000;

/// The number `mantissa * 2^exponent`, negated where `negative` is set.
pub struct Binary {
    pub negative: bool,
    pub mantissa: int,
    pub exponent: int,
}

impl Binary {
    /// The number zero.
    pub open spec fn zero() -> Binary {
        Binary { negative: false, mantissa: 0, exponent: 0 }
    }

    /// The number multiplied by `2^by`.
    pub open spec fn shifted(self, by: int) -> Binary {
        Binary { negative: self.negative, mantissa: self.mantissa, exponent: self.exponent + by }
    }

    /// The number is a finite binary64 value.
    pub open spec fn is_binary64(self) -> bool {
        0 <= self.mantissa < TWO_53 && -1074 <= self.exponent <= 971
    }
}

/// The integer nearest to `n / d`; of two equally near, the even one.
pub open spec fn nearest_even(n: int, d: int) -> int {
    let q = n / d;
    let r = n % d;
    if 2 * r < d || (2 * r == d && q % 2 == 0) {
        q
    } else {
        q + 1
    }
}

/// How far `n / d` is from the range in which it is rounded.
pub open spec fn distance_from_window(n: int, d: int) -> int {
    if n < d * TWO_52 {
        d * TWO_52 - n
    } else if n >= d * TWO_53 {
        n - d * TWO_53 + 1
    } else {
        0
    }
}

/// The positive quotient `n / d` rounded to 53 significant bits, to the
/// nearest value and on a tie to the even one: the quotient is doubled or
/// halved until it lies between `2^52` and `2^53`, rounded to an integer
/// there, and scaled back. The significand of the result is at least `2^52`
/// and below `2^53`.
pub open spec fn round53(n: int, d: int) -> Binary
    decreases distance_from_window(n, d),
{
    if n <= 0 || d <= 0 {
        Binary::zero()
    } else if n < d * TWO_52 {
        round53(2 * n, d).shifted(-1)
    } else if n >= d * TWO_53 {
        round53(n, 2 * d).shifted(1)
    } else {
        let q = nearest_even(n, d);
        if q >= TWO_53 {
            Binary { negative: false, mantissa: TWO_52 as int, exponent: 1 }
        } else {
            Binary { negative: false, mantissa: q, exponent: 0 }
        }
    }
}

/// The integer part of `m * 2^e`, for `m` that is not negative.
pub open spec fn integer_part(m: int, e: int) -> int
    decreases (if e >= 0 { e } else { -e }),
{
    if m <= 0 {
        0
    } else if e == 0 {
        m
    } else if e > 0 {
        integer_part(2 * m, e - 1)
    } else {
        integer_part(m / 2, e + 1)
    }
}

/// A number cut down to a byte: its integer part, zero for a negative number
/// and 255 for any number of 256 and more.
pub open spec fn cut(x: Binary) -> u8 {
    let v = integer_part(x.mantissa, x.exponent);
    if x.negative || v <= 0 {
        0u8
    } else if v > 255 {
        255u8
    } else {
        v as u8
    }
}

/// The integer `i` as a binary64 value: rounded where it has more than 53
/// significant bits.
pub open spec fn binary_of(i: nat) -> Binary {
    round53(i as int, 1)
}

/// The binary64 quotient `a / b` of two binary64 values: the exact quotient,
/// rounded. The exponent is not bounded here, so this is the binary64
/// quotient wherever that is a normal number, as the quotient of two
/// integers below `2^64` is.
pub open spec fn quotient(a: Binary, b: Binary) -> Binary {
    if a.mantissa <= 0 {
        Binary::zero()
    } else {
        let r = round53(a.mantissa, b.mantissa).shifted(a.exponent - b.exponent);
        Binary { negative: a.negative != b.negative, mantissa: r.mantissa, exponent: r.exponent }
    }
}

/// The binary64 product of a channel and a weight: the exact product,
/// rounded. The exponent is not bounded here; where binary64 would overflow
/// or lose bits to a tiny exponent, the product is 256 or more, or below one,
/// either way, so that [`cut`] gives the same byte.
pub open spec fn product(ch: u8, w: Binary) -> Binary {
    if ch == 0 || w.mantissa <= 0 {
        Binary::zero()
    } else {
        let r = round53(ch as int * w.mantissa, 1).shifted(w.exponent);
        Binary { negative: w.negative, mantissa: r.mantissa, exponent: r.exponent }
    }
}

/// A channel multiplied by `w` in binary64 and cut down to a byte.
pub open spec fn scale_channel(ch: u8, w: Binary) -> u8 {
    cut(product(ch, w))
}

/// The weight `num / den` as binary64 computes it from two integers: both
/// are converted to binary64, then divided.
pub open spec fn ratio_weight(num: nat, den: nat) -> Binary {
    quotient(binary_of(num), binary_of(den))
}

/// The number one, as [`round53`] gives it.
pub open spec fn one() -> Binary {
    Binary { negative: false, mantissa: TWO_52 as int, exponent: -52 }
}

/// The number times `2^1128`, which is an integer for every binary64 value.
pub open spec fn scaled_value(x: Binary) -> int {
    let v = x.mantissa * pow2((x.exponent + 1128) as nat);
    if x.negative {
        -v
    } else {
        v
    }
}

/// The binary64 sum of the two numbers is exactly one: their exact sum lies
/// between `1 - 2^-54` and `1 + 2^-53`, the numbers that round to one.
pub open spec fn sums_to_one(a: Binary, b: Binary) -> bool {
    &&& a.is_binary64()
    &&& b.is_binary64()
    &&& pow2(1128) - pow2(1074) <= scaled_value(a) + scaled_value(b) <= pow2(1128) + pow2(1075)
}

/// A binary64 value: a finite number, an infinity, or no number at all.
pub enum Scalar {
    Finite(Binary),
    Infinite { negative: bool },
    NotANumber,
}

impl Scalar {
    /// Both values are finite and their binary64 sum is exactly one.
    pub open spec fn sums_to_one(self, other: Scalar) -> bool {
        match (self, other) {
            (Scalar::Finite(a), Scalar::Finite(b)) => sums_to_one(a, b),
            _ => false,
        }
    }
}

/// A channel multiplied by a binary64 value and cut down to a byte. A
/// channel above zero times plus infinity gives 255; minus infinity, zero
/// times infinity and no number give zero.
pub open spec fn scale_by(ch: u8, w: Scalar) -> u8 {
    match w {
        Scalar::Finite(x) => scale_channel(ch, x),
        Scalar::Infinite { negative } => if negative || ch == 0 {
            0u8
        } else {
            255u8
        },
        Scalar::NotANumber => 0u8,
    }
}

/// The binary64 quotient of two integers: both are converted to binary64,
/// then divided. A division by zero gives plus infinity, or no number where
/// the numerator is zero too.
pub open spec fn binary64_ratio(num: nat, den: nat) -> Scalar {
    if den > 0 {
        Scalar::Finite(ratio_weight(num, den))
    } else if num > 0 {
        Scalar::Infinite { negative: false }
    } else {
        Scalar::NotANumber
    }
}

/// The binary64 value with the given bit pattern: one sign bit, eleven bits
/// of exponent and 52 bits of fraction.
pub open spec fn binary64_of_bits(bits: u64) -> Scalar {
    let negative = bits / 0x8000_0000_0000_0000 == 1;
    let field = (bits / TWO_52) % 2048;
    let fraction = bits % TWO_52;
    if field == 2047 {
        if fraction == 0 {
            Scalar::Infinite { negative }
        } else {
            Scalar::NotANumber
        }
    } else if field == 0 {
        Scalar::Finite(Binary { negative, mantissa: fraction as int, exponent: -1074 })
    } else {
        Scalar::Finite(Binary { negative, mantissa: TWO_52 + fraction, exponent: field - 1075 })
    }
}

/// Which of the three kinds of binary64 value a weight is.
#[derive(Debug, Clone, Copy)]
enum Class {
    Finite,
    Infinite,
    NotANumber,
}

/// A binary64 value, used as a scalar for colours.
#[derive(Debug, Clone, Copy)]
pub struct Weight {
    class: Class,
    negative: bool,
    mantissa: u64,
    exponent: i32,
}

impl View for Weight {
    type V = Scalar;

    closed spec fn view(&self) -> Scalar {
        match self.class {
            Class::Finite => Scalar::Finite(
                Binary {
                    negative: self.negative,
                    mantissa: self.mantissa as int,
                    exponent: self.exponent as int,
                },
            ),
            Class::Infinite => Scalar::Infinite { negative: self.negative },
            Class::NotANumber => Scalar::NotANumber,
        }
    }
}

impl Weight {
    /// Every finite weight is a binary64 value.
    #[verifier::type_invariant]
    pub open spec fn wf(&self) -> bool {
        self@ matches Scalar::Finite(x) ==> x.is_binary64()
    }

    /// The weight `mantissa * 2^exponent`, negated where `negative` is set;
    /// `None` where that is no finite binary64 value.
    pub fn from_parts(negative: bool, mantissa: u64, exponent: i32) -> (w: Option<Weight>)
        ensures
            w is Some <==> mantissa < TWO_53 && -1074 <= exponent <= 971,
            w matches Some(x) ==> x@ == Scalar::Finite(
                Binary { negative, mantissa: mantissa as int, exponent: exponent as int },
            ),
    {
        if mantissa < TWO_53 && -1074 <= exponent && exponent <= 971 {
            Some(Weight { class: Class::Finite, negative, mantissa, exponent })
        } else {
            None
        }
    }

    /// The weight with the given binary64 bit pattern.
    pub fn from_bits(bits: u64) -> (w: Weight)
        ensures
            w@ == binary64_of_bits(bits),
    {
        let negative: bool = bits / 0x8000_0000_0000_0000 == 1;
        let field: u64 = (bits / TWO_52) % 2048;
        let fraction: u64 = bits % TWO_52;
        if field == 2047 {
            if fraction == 0 {
                Weight { class: Class::Infinite, negative, mantissa: 0, exponent: 0 }
            } else {
                Weight { class: Class::NotANumber, negative, mantissa: 0, exponent: 0 }
            }
        } else if field == 0 {
            Weight { class: Class::Finite, negative, mantissa: fraction, exponent: -1074 }
        } else {
            Weight {
                class: Class::Finite,
                negative,
                mantissa: TWO_52 + fraction,
                exponent: field as i32 - 1075,
            }
        }
    }

    /// The weight that binary64 gives for `num / den`.
    pub fn ratio(num: usize, den: usize) -> (w: Weight)
        ensures
            w@ == binary64_ratio(num as nat, den as nat),
    {
        if den == 0 {
            if num == 0 {
                Weight { class: Class::NotANumber, negative: false, mantissa: 0, exponent: 0 }
            } else {
                Weight { class: Class::Infinite, negative: false, mantissa: 0, exponent: 0 }
            }
        } else if num == 0 {
            Weight { class: Class::Finite, negative: false, mantissa: 0, exponent: 0 }
        } else {
            let a = round_to_53(num as u64, 1);
            let b = round_to_53(den as u64, 1);
            let q = round_to_53(a.0, b.0);
            Weight {
                class: Class::Finite,
                negative: false,
                mantissa: q.0,
                exponent: q.1 + a.1 - b.1,
            }
        }
    }

    /// Scales one channel by this weight, as binary64 does, and cuts the
    /// product down to a byte.
    pub fn scale(&self, ch: u8) -> (out: u8)
        ensures
            out == scale_by(ch, self@),
    {
        proof {
            use_type_invariant(self);
        }
        if self.negative || ch == 0 {
            return 0;
        }
        match self.class {
            Class::NotANumber => {
                return 0;
            },
            Class::Infinite => {
                return 255;
            },
            Class::Finite => {},
        }
        if self.mantissa == 0 {
            0
        } else {
            assert(0 < ch as int * self.mantissa as int <= 255 * TWO_53) by (nonlinear_arith)
                requires
                    0 < ch <= 255,
                    0 < self.mantissa < TWO_53,
            ;
            let r = round_to_53(ch as u64 * self.mantissa, 1);
            cut_parts(r.0, r.1 + self.exponent)
        }
    }
}

/// Rounds the quotient `n / d` to 53 significant bits.
fn round_to_53(n: u64, d: u64) -> (r: (u64, i32))
    requires
        0 < n,
        0 < d <= 2 * n,
    ensures
        round53(n as int, d as int) == (Binary {
            negative: false,
            mantissa: r.0 as int,
            exponent: r.1 as int,
        }),
        TWO_52 <= r.0 < TWO_53,
        -53 <= r.1 <= 12,
{
    let mut num: u128 = n as u128;
    let mut den: u128 = d as u128;
    let mut e: i32 = 0;
    proof {
        lemma2_to64();
        lemma2_to64_rest();
        assert(n * pow2(0) == n && d * pow2(0) == d) by (nonlinear_arith)
            requires
                pow2(0) == 1,
        ;
    }
    if num < den * 0x10_0000_0000_0000 {
        while num < den * 0x10_0000_0000_0000
            invariant
                den == d,
                0 < d <= 2 * n,
                -53 <= e <= 0,
                num == n * pow2((-e) as nat),
                0 < num < den * 0x20_0000_0000_0000,
                round53(n as int, d as int) == round53(num as int, den as int).shifted(e as int),
            decreases 53 + e,
        {
            proof {
                let k = (-e) as nat;
                lemma_pow2_unfold(k + 1);
                lemma2_to64();
                lemma2_to64_rest();
                assert(pow2(k) < pow2(53)) by (nonlinear_arith)
                    requires
                        n * pow2(k) < d * 0x10_0000_0000_0000,
                        0 < d <= 2 * n,
                        pow2(53) == 0x20_0000_0000_0000,
                ;
                if k >= 53 {
                    if k > 53 {
                        lemma_pow2_strictly_increases(53, k);
                    }
                }
                assert(n * pow2(k + 1) == 2 * (n * pow2(k))) by (nonlinear_arith)
                    requires
                        pow2(k + 1) == 2 * pow2(k),
                ;
            }
            num = num * 2;
            e = e - 1;
        }
    } else {
        while num >= den * 0x20_0000_0000_0000
            invariant
                num == n,
                0 < d,
                0 < den <= 2 * n,
                0 <= e <= 11,
                den == d * pow2(e as nat),
                num >= den * 0x10_0000_0000_0000,
                round53(n as int, d as int) == round53(num as int, den as int).shifted(e as int),
            decreases 11 - e,
        {
            proof {
                let k = e as nat;
                lemma_pow2_unfold(k + 1);
                lemma2_to64();
                assert(pow2(k) < pow2(11)) by (nonlinear_arith)
                    requires
                        d * pow2(k) * 0x20_0000_0000_0000 <= n,
                        n < 0x1_0000_0000_0000_0000,
                        0 < d,
                        pow2(11) == 0x800,
                ;
                if k >= 11 {
                    if k > 11 {
                        lemma_pow2_strictly_increases(11, k);
                    }
                }
                assert(d * pow2(k + 1) == 2 * (d * pow2(k))) by (nonlinear_arith)
                    requires
                        pow2(k + 1) == 2 * pow2(k),
                ;
            }
            den = den * 2;
            e = e + 1;
        }
    }
    let q: u128 = num / den;
    let r: u128 = num % den;
    assert(TWO_52 <= q < TWO_53) by (nonlinear_arith)
        requires
            q == num as int / den as int,
            den * 0x10_0000_0000_0000 <= num < den * 0x20_0000_0000_0000,
            den > 0,
    ;
    let up: bool = 2 * r > den || (2 * r == den && q % 2 == 1);
    let m: u64 = if up {
        (q + 1) as u64
    } else {
        q as u64
    };
    if m == TWO_53 {
        (TWO_52, e + 1)
    } else {
        (m, e)
    }
}

/// The integer part of a number that is at least doubled as often as its
/// exponent says is not below the number itself.
proof fn lemma_integer_part_grows(m: int, e: int)
    requires
        m > 0,
        e >= 0,
    ensures
        integer_part(m, e) >= m,
    decreases e,
{
    if e > 0 {
        lemma_integer_part_grows(2 * m, e - 1);
    }
}

/// Cuts `m * 2^e` down to a byte.
fn cut_parts(m: u64, e: i32) -> (out: u8)
    requires
        m <= TWO_53,
        -2000 <= e <= 2000,
    ensures
        out == cut(Binary { negative: false, mantissa: m as int, exponent: e as int }),
{
    let mut v: u64 = m;
    let mut k: i32 = e;
    while k > 0 && 0 < v && v <= 255
        invariant
            -2000 <= k <= 2000,
            e <= 0 ==> k == e && v == m,
            v <= TWO_53,
            integer_part(m as int, e as int) == integer_part(v as int, k as int),
        decreases k,
    {
        v = v * 2;
        k = k - 1;
    }
    while k < 0 && v > 0
        invariant
            -2000 <= k <= 2000,
            k > 0 ==> v > 255 || v == 0,
            integer_part(m as int, e as int) == integer_part(v as int, k as int),
        decreases -k,
    {
        v = v / 2;
        k = k + 1;
    }
    proof {
        if v > 0 && k > 0 {
            lemma_integer_part_grows(v as int, k as int);
            assert(integer_part(v as int, k as int) > 255);
        } else if v == 0 {
            assert(integer_part(v as int, k as int) == 0);
        } else {
            assert(k == 0);
            assert(integer_part(v as int, k as int) == v);
        }
    }
    if v > 255 {
        255
    } else {
        v as u8
    }
}

/// A rounded quotient has a significand of exactly 53 bits and no sign.
pub proof fn lemma_round53_normal(n: int, d: int)
    requires
        n > 0,
        d > 0,
    ensures
        TWO_52 <= round53(n, d).mantissa < TWO_53,
        !round53(n, d).negative,
    decreases distance_from_window(n, d),
{
    if n < d * TWO_52 {
        lemma_round53_normal(2 * n, d);
    } else if n >= d * TWO_53 {
        lemma_round53_normal(n, 2 * d);
    } else {
        let q = n / d;
        assert(0x10_0000_0000_0000 <= q < 0x20_0000_0000_0000) by (nonlinear_arith)
            requires
                q == n / d,
                d * 0x10_0000_0000_0000 <= n < d * 0x20_0000_0000_0000,
                d > 0,
        ;
    }
}

/// A quotient that is `q * 2^(b - a)` for a 53-bit `q` is not changed by
/// rounding.
pub proof fn lemma_round53_exact(n: int, d: int, q: int, a: nat, b: nat)
    requires
        n > 0,
        d > 0,
        TWO_52 <= q < TWO_53,
        n * pow2(a) == q * d * pow2(b),
    ensures
        round53(n, d) == (Binary { negative: false, mantissa: q, exponent: b - a }),
    decreases distance_from_window(n, d),
{
    lemma_pow2_pos(a);
    lemma_pow2_pos(b);
    if n < d * TWO_52 {
        lemma_pow2_unfold(b + 1);
        assert((2 * n) * pow2(a) == q * d * pow2(b + 1)) by (nonlinear_arith)
            requires
                n * pow2(a) == q * d * pow2(b),
                pow2(b + 1) == 2 * pow2(b),
        ;
        lemma_round53_exact(2 * n, d, q, a, b + 1);
    } else if n >= d * TWO_53 {
        lemma_pow2_unfold(a + 1);
        assert(n * pow2(a + 1) == q * (2 * d) * pow2(b)) by (nonlinear_arith)
            requires
                n * pow2(a) == q * d * pow2(b),
                pow2(a + 1) == 2 * pow2(a),
        ;
        lemma_round53_exact(n, 2 * d, q, a + 1, b);
    } else {
        if a < b {
            let k = (b - a) as nat;
            lemma_pow2_adds(a, k);
            lemma_pow2_pos(k);
            lemma_pow2_unfold(k);
            lemma_pow2_pos((k - 1) as nat);
            assert(false) by (nonlinear_arith)
                requires
                    n * pow2(a) == q * d * (pow2(a) * pow2(k)),
                    pow2(a) > 0,
                    pow2(k) >= 2,
                    n < d * 0x20_0000_0000_0000,
                    q >= 0x10_0000_0000_0000,
                    d > 0,
            ;
        }
        if a > b {
            let k = (a - b) as nat;
            lemma_pow2_adds(b, k);
            lemma_pow2_pos(k);
            lemma_pow2_unfold(k);
            lemma_pow2_pos((k - 1) as nat);
            assert(false) by (nonlinear_arith)
                requires
                    n * (pow2(b) * pow2(k)) == q * d * pow2(b),
                    pow2(b) > 0,
                    pow2(k) >= 2,
                    n >= d * 0x10_0000_0000_0000,
                    q < 0x20_0000_0000_0000,
                    d > 0,
            ;
        }
        assert(n == q * d) by (nonlinear_arith)
            requires
                n * pow2(a) == q * d * pow2(a),
                pow2(a) > 0,
        ;
        assert(n / d == q && n % d == 0) by (nonlinear_arith)
            requires
                n == q * d,
                d > 0,
        ;
    }
}

/// The integer part of `m * 2^k / 2^k` is `m`.
pub proof fn lemma_integer_part_exact(m: int, k: nat)
    requires
        m > 0,
    ensures
        integer_part(m * pow2(k), -(k as int)) == m,
    decreases k,
{
    lemma_pow2_pos(k);
    if k == 0 {
        lemma2_to64();
        assert(m * pow2(0) == m) by (nonlinear_arith)
            requires
                pow2(0) == 1,
        ;
    } else {
        lemma_pow2_unfold(k);
        lemma_pow2_pos((k - 1) as nat);
        assert(m * pow2(k) > 0 && (m * pow2(k)) / 2 == m * pow2((k - 1) as nat)) by (nonlinear_arith)
            requires
                pow2(k) == 2 * pow2((k - 1) as nat),
                pow2((k - 1) as nat) > 0,
                m > 0,
        ;
        lemma_integer_part_exact(m, (k - 1) as nat);
    }
}

/// A weight of zero gives the channel zero.
pub proof fn lemma_scale_by_zero(ch: u8, w: Binary)
    requires
        w.mantissa == 0,
    ensures
        scale_channel(ch, w) == 0,
{
}

/// Scaling by one, for a channel between `2^j` and `2^(j + 1)`.
proof fn lemma_scale_by_one_at(ch: u8, j: nat)
    requires
        j <= 7,
        pow2(j) <= ch < pow2(j + 1),
    ensures
        scale_channel(ch, one()) == ch,
{
    let k = (52 - j) as nat;
    let q = ch as int * pow2(k);
    lemma2_to64();
    lemma2_to64_rest();
    lemma_pow2_adds(j, k);
    lemma_pow2_adds(j + 1, k);
    lemma_pow2_pos(k);
    assert(0x10_0000_0000_0000 <= q < 0x20_0000_0000_0000) by (nonlinear_arith)
        requires
            q == ch as int * pow2(k),
            pow2(j) <= ch < pow2(j + 1),
            pow2(j) * pow2(k) == 0x10_0000_0000_0000,
            pow2(j + 1) * pow2(k) == 0x20_0000_0000_0000,
            pow2(k) > 0,
    ;
    assert((ch as int * 0x10_0000_0000_0000) * pow2(0) == q * 1 * pow2(j)) by (nonlinear_arith)
        requires
            q == ch as int * pow2(k),
            pow2(j) * pow2(k) == 0x10_0000_0000_0000,
            pow2(0) == 1,
    ;
    lemma_round53_exact(ch as int * 0x10_0000_0000_0000, 1, q, 0, j);
    lemma_integer_part_exact(ch as int, k);
}

/// A weight of one leaves the channel as it is.
pub proof fn lemma_scale_by_one(ch: u8)
    ensures
        scale_channel(ch, one()) == ch,
{
    lemma2_to64();
    if ch == 0 {
    } else if ch < 2 {
        lemma_scale_by_one_at(ch, 0);
    } else if ch < 4 {
        lemma_scale_by_one_at(ch, 1);
    } else if ch < 8 {
        lemma_scale_by_one_at(ch, 2);
    } else if ch < 16 {
        lemma_scale_by_one_at(ch, 3);
    } else if ch < 32 {
        lemma_scale_by_one_at(ch, 4);
    } else if ch < 64 {
        lemma_scale_by_one_at(ch, 5);
    } else if ch < 128 {
        lemma_scale_by_one_at(ch, 6);
    } else {
        lemma_scale_by_one_at(ch, 7);
    }
}

/// The binary64 quotient of zero and any integer is zero.
pub proof fn lemma_ratio_of_zero(den: nat)
    ensures
        ratio_weight(0, den).mantissa == 0,
{
}

/// The binary64 quotient of a positive integer and itself is one.
pub proof fn lemma_ratio_of_equals(n: nat)
    requires
        n > 0,
    ensures
        ratio_weight(n, n) == one(),
{
    let b = binary_of(n);
    lemma_round53_normal(n as int, 1);
    lemma2_to64();
    lemma2_to64_rest();
    assert(b.mantissa * pow2(52) == 0x10_0000_0000_0000 * b.mantissa * pow2(0)) by (nonlinear_arith)
        requires
            pow2(52) == 0x10_0000_0000_0000,
            pow2(0) == 1,
    ;
    lemma_round53_exact(b.mantissa, b.mantissa, 0x10_0000_0000_0000, 52, 0);
}

/// The quotient `n / d` times `2^s` is at least `num / den`.
pub open spec fn ratio_at_least(n: int, d: int, s: int, num: int, den: int) -> bool {
    if s >= 0 {
        n * pow2(s as nat) * den >= num * d
    } else {
        n * den >= num * d * pow2((-s) as nat)
    }
}

/// Doubling the numerator and halving the scale leaves the comparison as it
/// is.
proof fn lemma_ratio_double_numerator(n: int, d: int, s: int, num: int, den: int)
    ensures
        ratio_at_least(2 * n, d, s - 1, num, den) == ratio_at_least(n, d, s, num, den),
{
    lemma2_to64();
    if s >= 1 {
        lemma_pow2_unfold(s as nat);
        assert((2 * n) * pow2((s - 1) as nat) * den == n * pow2(s as nat) * den) by (nonlinear_arith)
            requires
                pow2(s as nat) == 2 * pow2((s - 1) as nat),
        ;
    } else {
        lemma_pow2_unfold((1 - s) as nat);
        assert(num * d * pow2((1 - s) as nat) == 2 * (num * d * pow2((-s) as nat))) by (nonlinear_arith)
            requires
                pow2((1 - s) as nat) == 2 * pow2((-s) as nat),
        ;
        assert((2 * n) * den == 2 * (n * den)) by (nonlinear_arith);
        if s == 0 {
            assert(n * pow2(0) * den == n * den && num * d * pow2(0) == num * d) by (nonlinear_arith)
                requires
                    pow2(0) == 1,
            ;
        }
    }
}

/// Doubling the denominator and doubling the scale leaves the comparison as
/// it is.
proof fn lemma_ratio_double_denominator(n: int, d: int, s: int, num: int, den: int)
    ensures
        ratio_at_least(n, 2 * d, s + 1, num, den) == ratio_at_least(n, d, s, num, den),
{
    lemma2_to64();
    if s >= 0 {
        lemma_pow2_unfold((s + 1) as nat);
        assert(n * pow2((s + 1) as nat) * den == 2 * (n * pow2(s as nat) * den)) by (nonlinear_arith)
            requires
                pow2((s + 1) as nat) == 2 * pow2(s as nat),
        ;
        assert(num * (2 * d) == 2 * (num * d)) by (nonlinear_arith);
    } else {
        lemma_pow2_unfold((-s) as nat);
        assert(num * (2 * d) * pow2((-s - 1) as nat) == num * d * pow2((-s) as nat)) by (nonlinear_arith)
            requires
                pow2((-s) as nat) == 2 * pow2((-s - 1) as nat),
        ;
        if s == -1 {
            assert(n * pow2(0) * den == n * den && num * (2 * d) * pow2(0) == num * (2 * d)) by (nonlinear_arith)
                requires
                    pow2(0) == 1,
            ;
        }
    }
}

/// If `m` is at least `j * 2^k`, the integer part of `m / 2^k` is at least
/// `j`.
proof fn lemma_integer_part_at_least(m: int, k: nat, j: int)
    requires
        j >= 1,
        m >= j * pow2(k),
    ensures
        integer_part(m, -(k as int)) >= j,
    decreases k,
{
    lemma_pow2_pos(k);
    assert(m >= 1) by (nonlinear_arith)
        requires
            j >= 1,
            pow2(k) >= 1,
            m >= j * pow2(k),
    ;
    if k == 0 {
        lemma2_to64();
        assert(j * pow2(0) == j) by (nonlinear_arith)
            requires
                pow2(0) == 1,
        ;
    } else {
        lemma_pow2_unfold(k);
        assert(m / 2 >= j * pow2((k - 1) as nat)) by (nonlinear_arith)
            requires
                m >= j * pow2(k),
                pow2(k) == 2 * pow2((k - 1) as nat),
        ;
        lemma_integer_part_at_least(m / 2, (k - 1) as nat, j);
    }
}

/// If `m` is below `j * 2^k`, the integer part of `m / 2^k` is below `j`.
proof fn lemma_integer_part_below(m: int, k: nat, j: int)
    requires
        j >= 1,
        m < j * pow2(k),
    ensures
        integer_part(m, -(k as int)) < j,
    decreases k,
{
    if m <= 0 {
    } else if k == 0 {
        lemma2_to64();
        assert(j * pow2(0) == j) by (nonlinear_arith)
            requires
                pow2(0) == 1,
        ;
    } else {
        lemma_pow2_unfold(k);
        assert(m / 2 < j * pow2((k - 1) as nat)) by (nonlinear_arith)
            requires
                m < j * pow2(k),
                pow2(k) == 2 * pow2((k - 1) as nat),
        ;
        lemma_integer_part_below(m / 2, (k - 1) as nat, j);
    }
}

/// In the range in which a quotient is rounded: a quotient of at least
/// `j * (1 - 2^-54)`, for an integer `j`, is rounded to `j` or more.
proof fn lemma_nearest_reaches(n: int, d: int, j: int)
    requires
        d > 0,
        d * 0x10_0000_0000_0000 <= n < d * 0x20_0000_0000_0000,
        j >= 1,
        n * 0x40_0000_0000_0000 >= j * 0x3f_ffff_ffff_ffff * d,
    ensures
        nearest_even(n, d) >= j,
{
    let q = n / d;
    let r = n % d;
    assert(n == q * d + r && 0 <= r < d) by (nonlinear_arith)
        requires
            q == n / d,
            r == n % d,
            d > 0,
    ;
    if q < j {
        let jd = j * d;
        let qd = q * d;
        assert(j <= 0x20_0000_0000_0000) by (nonlinear_arith)
            requires
                n * 0x40_0000_0000_0000 >= j * 0x3f_ffff_ffff_ffff * d,
                n < d * 0x20_0000_0000_0000,
                d > 0,
                j >= 1,
        ;
        assert(qd <= jd - d) by (nonlinear_arith)
            requires
                q <= j - 1,
                qd == q * d,
                jd == j * d,
                d > 0,
        ;
        assert(j * 0x3f_ffff_ffff_ffff * d == 0x3f_ffff_ffff_ffff * jd) by (nonlinear_arith)
            requires
                jd == j * d,
        ;
        assert(jd <= 0x20_0000_0000_0000 * d) by (nonlinear_arith)
            requires
                jd == j * d,
                j <= 0x20_0000_0000_0000,
                d > 0,
        ;
        // n = qd + r, with 2^54 * n >= (2^54 - 1) * jd and jd <= 2^53 * d
        assert(2 * r >= d);
        if q < j - 1 {
            assert(qd <= jd - 2 * d) by (nonlinear_arith)
                requires
                    q <= j - 2,
                    qd == q * d,
                    jd == j * d,
                    d > 0,
            ;
            assert(false);
        }
        if 2 * r == d {
            assert(jd >= 0x20_0000_0000_0000 * d);
            assert(j >= 0x20_0000_0000_0000) by (nonlinear_arith)
                requires
                    jd == j * d,
                    jd >= 0x20_0000_0000_0000 * d,
                    d > 0,
            ;
            assert(q % 2 == 1);
        }
    }
}

/// In the range in which a quotient is rounded: a quotient below
/// `j * (1 - 2^-53)`, for an integer `j`, is rounded to less than `j`.
proof fn lemma_nearest_stays_below(n: int, d: int, j: int)
    requires
        d > 0,
        d * 0x10_0000_0000_0000 <= n < d * 0x20_0000_0000_0000,
        j >= 1,
        n * 0x20_0000_0000_0000 < j * 0x1f_ffff_ffff_ffff * d,
    ensures
        nearest_even(n, d) < j,
{
    let q = n / d;
    let r = n % d;
    assert(n == q * d + r && 0 <= r < d) by (nonlinear_arith)
        requires
            q == n / d,
            r == n % d,
            d > 0,
    ;
    let jd = j * d;
    let qd = q * d;
    assert(j * 0x1f_ffff_ffff_ffff * d == 0x1f_ffff_ffff_ffff * jd) by (nonlinear_arith)
        requires
            jd == j * d,
    ;
    assert(j > 0x10_0000_0000_0000) by (nonlinear_arith)
        requires
            jd == j * d,
            n * 0x20_0000_0000_0000 < 0x1f_ffff_ffff_ffff * jd,
            d * 0x10_0000_0000_0000 <= n,
            d > 0,
    ;
    assert(jd >= 0x10_0000_0000_0001 * d) by (nonlinear_arith)
        requires
            jd == j * d,
            j >= 0x10_0000_0000_0001,
            d > 0,
    ;
    assert(q < j) by (nonlinear_arith)
        requires
            qd == q * d,
            jd == j * d,
            qd <= n,
            n < jd,
            d > 0,
    {
        assert(n * 0x20_0000_0000_0000 < 0x20_0000_0000_0000 * jd);
    }
    if q == j - 1 {
        assert(qd == jd - d) by (nonlinear_arith)
            requires
                q == j - 1,
                qd == q * d,
                jd == j * d,
        ;
        assert(2 * r < d);
    }
}

/// A quotient that, times `2^s`, is at least `j * (1 - 2^-54)` is rounded to
/// a number that, times `2^s`, has an integer part of `j` or more.
proof fn lemma_round_reaches(n: int, d: int, s: int, j: int)
    requires
        n > 0,
        d > 0,
        1 <= j <= 256,
        ratio_at_least(n, d, s, j * 0x3f_ffff_ffff_ffff, 0x40_0000_0000_0000),
    ensures
        integer_part(round53(n, d).mantissa, round53(n, d).exponent + s) >= j,
    decreases distance_from_window(n, d),
{
    if n < d * TWO_52 {
        lemma_ratio_double_numerator(n, d, s, j * 0x3f_ffff_ffff_ffff, 0x40_0000_0000_0000);
        lemma_round_reaches(2 * n, d, s - 1, j);
    } else if n >= d * TWO_53 {
        lemma_ratio_double_denominator(n, d, s, j * 0x3f_ffff_ffff_ffff, 0x40_0000_0000_0000);
        lemma_round_reaches(n, 2 * d, s + 1, j);
    } else {
        let r = round53(n, d);
        lemma_round53_normal(n, d);
        if r.exponent + s >= 0 {
            lemma_integer_part_grows(r.mantissa, r.exponent + s);
        } else {
            let k = (-s) as nat;
            let jp = j * pow2(k);
            lemma_pow2_pos(k);
            assert(jp >= 1) by (nonlinear_arith)
                requires
                    jp == j * pow2(k),
                    j >= 1,
                    pow2(k) >= 1,
            ;
            assert(jp * 0x3f_ffff_ffff_ffff * d == j * 0x3f_ffff_ffff_ffff * d * pow2(k)) by (nonlinear_arith)
                requires
                    jp == j * pow2(k),
            ;
            lemma_nearest_reaches(n, d, jp);
            let q = nearest_even(n, d);
            if q >= TWO_53 {
                lemma_pow2_unfold(k);
                assert(n / d < 0x20_0000_0000_0000) by (nonlinear_arith)
                    requires
                        n < d * 0x20_0000_0000_0000,
                        d > 0,
                ;
                assert(q == 0x20_0000_0000_0000);
                assert(0x10_0000_0000_0000 >= j * pow2((k - 1) as nat)) by (nonlinear_arith)
                    requires
                        0x20_0000_0000_0000 >= j * pow2(k),
                        pow2(k) == 2 * pow2((k - 1) as nat),
                ;
                lemma_integer_part_at_least(0x10_0000_0000_0000, (k - 1) as nat, j);
            } else {
                lemma_integer_part_at_least(q, k, j);
            }
        }
    }
}

/// A quotient that, times `2^s`, is below `j * (1 - 2^-53)` is rounded to a
/// number that, times `2^s`, has an integer part below `j`.
proof fn lemma_round_stays_below(n: int, d: int, s: int, j: int)
    requires
        n > 0,
        d > 0,
        1 <= j <= 256,
        !ratio_at_least(n, d, s, j * 0x1f_ffff_ffff_ffff, 0x20_0000_0000_0000),
    ensures
        integer_part(round53(n, d).mantissa, round53(n, d).exponent + s) < j,
    decreases distance_from_window(n, d),
{
    if n < d * TWO_52 {
        lemma_ratio_double_numerator(n, d, s, j * 0x1f_ffff_ffff_ffff, 0x20_0000_0000_0000);
        lemma_round_stays_below(2 * n, d, s - 1, j);
    } else if n >= d * TWO_53 {
        lemma_ratio_double_denominator(n, d, s, j * 0x1f_ffff_ffff_ffff, 0x20_0000_0000_0000);
        lemma_round_stays_below(n, 2 * d, s + 1, j);
    } else {
        if s >= 0 {
            lemma_pow2_pos(s as nat);
            assert(false) by (nonlinear_arith)
                requires
                    n * pow2(s as nat) * 0x20_0000_0000_0000 < j * 0x1f_ffff_ffff_ffff * d,
                    n >= d * 0x10_0000_0000_0000,
                    pow2(s as nat) >= 1,
                    1 <= j <= 256,
                    d > 0,
            ;
        } else {
            let k = (-s) as nat;
            let jp = j * pow2(k);
            lemma_pow2_pos(k);
            assert(jp >= 1) by (nonlinear_arith)
                requires
                    jp == j * pow2(k),
                    j >= 1,
                    pow2(k) >= 1,
            ;
            assert(jp * 0x1f_ffff_ffff_ffff * d == j * 0x1f_ffff_ffff_ffff * d * pow2(k)) by (nonlinear_arith)
                requires
                    jp == j * pow2(k),
            ;
            lemma_nearest_stays_below(n, d, jp);
            let q = nearest_even(n, d);
            if q >= TWO_53 {
                lemma_pow2_unfold(k);
                assert(0x10_0000_0000_0000 < j * pow2((k - 1) as nat)) by (nonlinear_arith)
                    requires
                        0x20_0000_0000_0000 < j * pow2(k),
                        pow2(k) == 2 * pow2((k - 1) as nat),
                ;
                lemma_integer_part_below(0x10_0000_0000_0000, (k - 1) as nat, j);
            } else {
                lemma_integer_part_below(q, k, j);
            }
        }
    }
}

/// Multiplying both sides by a positive number leaves a comparison as it is.
proof fn lemma_compare_scaled(x: int, y: int, w: int)
    by (nonlinear_arith)
    requires
        w > 0,
    ensures
        (x >= y) == (x * w >= y * w),
{
}

/// The comparison of `n * 2^s` with `j * (1 - 2^-b)`, written for numbers
/// times `2^1128`.
proof fn lemma_threshold_scaled(n: int, s: int, j: int, b: nat)
    requires
        -1074 <= s <= 971,
        53 <= b <= 54,
    ensures
        ratio_at_least(n, 1, s, j * (pow2(b) - 1), pow2(b) as int) == (n * pow2((s + 1128) as nat)
            >= j * (pow2(1128) - pow2((1128 - b) as nat))),
{
    let t = pow2(b) as int;
    let rest = pow2((1128 - b) as nat) as int;
    lemma_pow2_adds(b, (1128 - b) as nat);
    lemma_pow2_pos((1128 - b) as nat);
    assert(j * (pow2(1128) - rest) == (j * (t - 1)) * rest) by (nonlinear_arith)
        requires
            pow2(1128) == t * rest,
    ;
    if s >= 0 {
        let p = pow2(s as nat) as int;
        lemma_pow2_adds(s as nat, 1128);
        assert(n * pow2((s + 1128) as nat) == (n * p * t) * rest) by (nonlinear_arith)
            requires
                pow2((s + 1128) as nat) == p * pow2(1128),
                pow2(1128) == t * rest,
        ;
        assert((j * (t - 1)) * 1 == j * (t - 1)) by (nonlinear_arith);
        lemma_compare_scaled(n * p * t, j * (t - 1), rest);
    } else {
        let k = (-s) as nat;
        let p = pow2(k) as int;
        let w = pow2((1128 - b - k) as nat) as int;
        lemma_pow2_adds(b, (1128 - b - k) as nat);
        lemma_pow2_adds(k, (1128 - b - k) as nat);
        lemma_pow2_pos((1128 - b - k) as nat);
        assert(n * pow2((s + 1128) as nat) == (n * t) * w) by (nonlinear_arith)
            requires
                pow2((s + 1128) as nat) == t * w,
        ;
        assert((j * (t - 1)) * rest == (j * (t - 1) * 1 * p) * w) by (nonlinear_arith)
            requires
                rest == p * w,
        ;
        lemma_compare_scaled(n * t, j * (t - 1) * 1 * p, w);
    }
}

/// A channel that a weight scales to `j` or more: the exact product is at
/// least `j * (1 - 2^-53)`.
proof fn lemma_scaled_reached(c: u8, w: Binary, j: int)
    requires
        w.is_binary64(),
        !w.negative,
        1 <= j <= 255,
        scale_channel(c, w) >= j,
    ensures
        c * scaled_value(w) >= j * (pow2(1128) - pow2(1075)),
{
    let n = c as int * w.mantissa;
    assert(n > 0) by (nonlinear_arith)
        requires
            n == c as int * w.mantissa,
            c > 0,
            w.mantissa > 0,
    ;
    assert(c * scaled_value(w) == n * pow2((w.exponent + 1128) as nat)) by (nonlinear_arith)
        requires
            n == c as int * w.mantissa,
            scaled_value(w) == w.mantissa * pow2((w.exponent + 1128) as nat),
    ;
    lemma2_to64_rest();
    lemma_threshold_scaled(n, w.exponent, j, 53);
    if !ratio_at_least(n, 1, w.exponent, j * 0x1f_ffff_ffff_ffff, 0x20_0000_0000_0000) {
        lemma_round_stays_below(n, 1, w.exponent, j);
    }
}

/// A channel that a weight scales to less than `j`: the exact product is
/// below `j * (1 - 2^-54)`.
proof fn lemma_scaled_missed(c: u8, w: Binary, j: int)
    requires
        w.is_binary64(),
        !w.negative,
        1 <= j <= 255,
        scale_channel(c, w) < j,
    ensures
        c * scaled_value(w) < j * (pow2(1128) - pow2(1074)),
{
    lemma_pow2_strictly_increases(1074, 1128);
    if c == 0 || w.mantissa == 0 {
        assert(c * scaled_value(w) == 0) by (nonlinear_arith)
            requires
                c == 0 || w.mantissa == 0,
                scaled_value(w) == w.mantissa * pow2((w.exponent + 1128) as nat),
        ;
        assert(j * (pow2(1128) - pow2(1074)) > 0) by (nonlinear_arith)
            requires
                j >= 1,
                pow2(1128) - pow2(1074) > 0,
        ;
    } else {
        let n = c as int * w.mantissa;
        assert(n > 0) by (nonlinear_arith)
            requires
                n == c as int * w.mantissa,
                c > 0,
                w.mantissa > 0,
        ;
        assert(c * scaled_value(w) == n * pow2((w.exponent + 1128) as nat)) by (nonlinear_arith)
            requires
                n == c as int * w.mantissa,
                scaled_value(w) == w.mantissa * pow2((w.exponent + 1128) as nat),
        ;
        lemma2_to64_rest();
        lemma_threshold_scaled(n, w.exponent, j, 54);
        if ratio_at_least(n, 1, w.exponent, j * 0x3f_ffff_ffff_ffff, 0x40_0000_0000_0000) {
            lemma_round_reaches(n, 1, w.exponent, j);
        }
    }
}

/// One channel split between two weights that are not negative and sum to
/// one in binary64 comes back whole, or one short.
pub proof fn lemma_scaled_parts_rejoin(c: u8, a: Binary, b: Binary)
    requires
        !a.negative,
        !b.negative,
        sums_to_one(a, b),
    ensures
        c - 1 <= scale_channel(c, a) + scale_channel(c, b) <= c,
{
    let r1 = scale_channel(c, a) as int;
    let r2 = scale_channel(c, b) as int;
    let va = scaled_value(a);
    let vb = scaled_value(b);
    let unit = pow2(1128) as int;
    let p75 = pow2(1075) as int;
    let p74 = pow2(1074) as int;
    lemma2_to64_rest();
    lemma_pow2_adds(1075, 53);
    lemma_pow2_adds(1074, 54);
    lemma_pow2_pos(1075);
    lemma_pow2_pos(1074);
    lemma_pow2_pos((a.exponent + 1128) as nat);
    lemma_pow2_pos((b.exponent + 1128) as nat);
    assert(va >= 0 && vb >= 0) by (nonlinear_arith)
        requires
            va == a.mantissa * pow2((a.exponent + 1128) as nat),
            vb == b.mantissa * pow2((b.exponent + 1128) as nat),
            a.mantissa >= 0,
            b.mantissa >= 0,
            pow2((a.exponent + 1128) as nat) > 0,
            pow2((b.exponent + 1128) as nat) > 0,
    ;
    assert(c * va >= 0 && c * vb >= 0) by (nonlinear_arith)
        requires
            va >= 0,
            vb >= 0,
            c >= 0,
    ;
    if r1 + r2 >= c + 1 {
        let low = unit - p75;
        if r1 >= 1 {
            lemma_scaled_reached(c, a, r1);
        }
        if r2 >= 1 {
            lemma_scaled_reached(c, b, r2);
        }
        assert(c * va >= r1 * low && c * vb >= r2 * low) by (nonlinear_arith)
            requires
                r1 >= 1 ==> c * va >= r1 * low,
                r2 >= 1 ==> c * vb >= r2 * low,
                r1 >= 0,
                r2 >= 0,
                c * va >= 0,
                c * vb >= 0,
        ;
        assert(false) by (nonlinear_arith)
            requires
                c * va >= r1 * low,
                c * vb >= r2 * low,
                r1 + r2 >= c + 1,
                low == 0x1f_ffff_ffff_ffff * p75,
                va + vb <= 0x20_0000_0000_0001 * p75,
                p75 > 0,
                0 <= c <= 255,
        ;
    }
    if r1 + r2 <= c - 2 {
        let low = unit - p74;
        lemma_scaled_missed(c, a, r1 + 1);
        lemma_scaled_missed(c, b, r2 + 1);
        assert(false) by (nonlinear_arith)
            requires
                c * va < (r1 + 1) * low,
                c * vb < (r2 + 1) * low,
                r1 + r2 <= c - 2,
                va + vb >= low,
                low == 0x3f_ffff_ffff_ffff * p74,
                p74 > 0,
                0 <= c <= 255,
        ;
    }
}

/// Two channels scaled by weights that are not negative and sum to one in
/// binary64 never add up to more than 255.
pub proof fn lemma_scaled_sum_fits(x: u8, y: u8, a: Binary, b: Binary)
    requires
        !a.negative,
        !b.negative,
        sums_to_one(a, b),
    ensures
        scale_channel(x, a) + scale_channel(y, b) <= 255,
{
    let r1 = scale_channel(x, a) as int;
    let r2 = scale_channel(y, b) as int;
    let va = scaled_value(a);
    let vb = scaled_value(b);
    let p75 = pow2(1075) as int;
    let low = pow2(1128) - p75;
    lemma2_to64_rest();
    lemma_pow2_adds(1075, 53);
    lemma_pow2_pos(1075);
    lemma_pow2_pos((a.exponent + 1128) as nat);
    lemma_pow2_pos((b.exponent + 1128) as nat);
    assert(va >= 0 && vb >= 0) by (nonlinear_arith)
        requires
            va == a.mantissa * pow2((a.exponent + 1128) as nat),
            vb == b.mantissa * pow2((b.exponent + 1128) as nat),
            a.mantissa >= 0,
            b.mantissa >= 0,
            pow2((a.exponent + 1128) as nat) > 0,
            pow2((b.exponent + 1128) as nat) > 0,
    ;
    if r1 + r2 >= 256 {
        lemma_scaled_reached(x, a, r1);
        lemma_scaled_reached(y, b, r2);
        assert(255 * va >= r1 * low && 255 * vb >= r2 * low) by (nonlinear_arith)
            requires
                x * va >= r1 * low,
                y * vb >= r2 * low,
                va >= 0,
                vb >= 0,
                0 <= x <= 255,
                0 <= y <= 255,
        ;
        assert(false) by (nonlinear_arith)
            requires
                255 * va >= r1 * low,
                255 * vb >= r2 * low,
                r1 + r2 >= 256,
                low == 0x1f_ffff_ffff_ffff * p75,
                va + vb <= 0x20_0000_0000_0001 * p75,
                p75 > 0,
        ;
    }
}

} // verus!
