//! The colour value type and its arithmetic.

use rand::rngs::ThreadRng;
use vstd::prelude::*;
use vstd::std_specs::ops::AddSpecImpl;
use vstd::std_specs::ops::MulSpecImpl;
use vstd::string::StrSliceExecFns;
use vstd::string::StringExecFns;
use crate::hex::{
    byte_digits, decode_hex_byte, has_hex_prefix, hex_byte, hex_digit_str, lemma_byte_round_trip,
    lemma_digits_decode, regex_is_match, to_lower, HEX_PATTERN,
};
use crate::random::gen_range_inclusive;
use crate::weight::{
    lemma_scale_by_one, lemma_scale_by_zero, lemma_scaled_parts_rejoin, lemma_scaled_sum_fits, one,
    scale_by, scale_channel, sums_to_one, Binary, Scalar, Weight,
};

verus! {

/// The red, green and blue channels of a colour, in that order.
pub type Channels = (u8, u8, u8);

/// Channel-wise sum of two colours; a channel that passes 255 wraps around.
pub open spec fn wrapping_sum(a: Channels, b: Channels) -> Channels {
    (((a.0 + b.0) % 256) as u8, ((a.1 + b.1) % 256) as u8, ((a.2 + b.2) % 256) as u8)
}

/// Every channel of `c` scaled by `w`.
pub open spec fn scale_channels(c: Channels, w: Scalar) -> Channels {
    (scale_by(c.0, w), scale_by(c.1, w), scale_by(c.2, w))
}

/// The weighted sum `a * alpha + b * beta`, channel by channel: each channel
/// is scaled and cut down to a byte, then the two bytes are added.
pub open spec fn blend_channels(a: Channels, b: Channels, alpha: Scalar, beta: Scalar) -> Channels {
    wrapping_sum(scale_channels(a, alpha), scale_channels(b, beta))
}

/// The channels of each colour of a sequence.
pub open spec fn channels_of(colors: Seq<RGB>) -> Seq<Channels> {
    Seq::new(colors.len(), |i: int| colors[i]@)
}

/// The colour that a text with the prefix `#rrggbb` names: `rr`, `gg` and `bb`
/// are its red, green and blue channels.
pub open spec fn parse_hex(s: Seq<char>) -> Channels {
    (hex_byte(s[1], s[2]), hex_byte(s[3], s[4]), hex_byte(s[5], s[6]))
}

/// The notation `#rrggbb` of a colour, with lower-case digits.
pub open spec fn hex_notation(c: Channels) -> Seq<char> {
    seq!['#'] + byte_digits(c.0) + byte_digits(c.1) + byte_digits(c.2)
}

/// The text with every ASCII upper-case letter turned into lower case.
pub open spec fn lower_case(s: Seq<char>) -> Seq<char> {
    Seq::new(s.len(), |i: int| to_lower(s[i]))
}

/// An 8-bit-per-channel RGB colour.
#[derive(Debug, Copy, Clone, PartialEq, Eq, Structural)]
pub struct RGB {
    r: u8,
    g: u8,
    b: u8,
}

impl View for RGB {
    type V = Channels;

    closed spec fn view(&self) -> Channels {
        (self.r, self.g, self.b)
    }
}

impl RGB {
    /// The colour with the given channels.
    pub fn new(r: u8, g: u8, b: u8) -> (c: Self)
        ensures
            c@ == (r, g, b),
    {
        Self { r, g, b }
    }

    /// A colour drawn from the generator of the current thread. Whatever is
    /// drawn, each channel lies in the whole range of a byte.
    pub fn random() -> (c: Self)
        ensures
            0 <= c@.0 <= 255 && 0 <= c@.1 <= 255 && 0 <= c@.2 <= 255,
    {
        let mut rng = rand::thread_rng();
        Self::sample(&mut rng)
    }

    /// A colour drawn from `rng`: each channel is drawn on its own, red
    /// first, from the whole range of a byte.
    pub fn sample(rng: &mut ThreadRng) -> (c: Self)
        ensures
            0 <= c@.0 <= 255 && 0 <= c@.1 <= 255 && 0 <= c@.2 <= 255,
    {
        let r: u8 = gen_range_inclusive(rng, 0, 255);
        let g: u8 = gen_range_inclusive(rng, 0, 255);
        let b: u8 = gen_range_inclusive(rng, 0, 255);
        Self::new(r, g, b)
    }

    /// Black, the colour with every channel at zero.
    pub fn default() -> (c: Self)
        ensures
            c@ == (0u8, 0u8, 0u8),
    {
        Self::new(0, 0, 0)
    }

    /// The channels as a tuple.
    pub fn to_tuple(&self) -> (t: (u8, u8, u8))
        ensures
            t == self@,
    {
        (self.r, self.g, self.b)
    }

    /// The colour named by a text that starts with `#` and six hexadecimal
    /// digits, upper or lower case. Anything after the seventh character is
    /// ignored.
    pub fn from_hex_string(hex_string: &str) -> (c: Self)
        requires
            has_hex_prefix(hex_string@),
        ensures
            c@ == parse_hex(hex_string@),
    {
        RGB::new(
            decode_hex_byte(hex_string.get_char(1), hex_string.get_char(2)),
            decode_hex_byte(hex_string.get_char(3), hex_string.get_char(4)),
            decode_hex_byte(hex_string.get_char(5), hex_string.get_char(6)),
        )
    }

    /// As [`RGB::from_hex_string`], for any text: `None` when the text does
    /// not start with `#` and six hexadecimal digits.
    pub fn try_from_hex_string(hex_string: &str) -> (c: Option<Self>)
        ensures
            c is Some <==> has_hex_prefix(hex_string@),
            c matches Some(x) ==> x@ == parse_hex(hex_string@),
    {
        if regex_is_match(HEX_PATTERN, hex_string) {
            Some(RGB::from_hex_string(hex_string))
        } else {
            None
        }
    }

    /// The notation `#rrggbb`, two lower-case hexadecimal digits per channel.
    pub fn to_hex_string(&self) -> (s: String)
        ensures
            s@ == hex_notation(self@),
    {
        let mut s = String::from_str("#");
        proof {
            reveal_strlit("#");
        }
        s.append(hex_digit_str(self.r / 16));
        s.append(hex_digit_str(self.r % 16));
        s.append(hex_digit_str(self.g / 16));
        s.append(hex_digit_str(self.g % 16));
        s.append(hex_digit_str(self.b / 16));
        s.append(hex_digit_str(self.b % 16));
        assert(s@ =~= hex_notation(self@));
        s
    }

    /// The weighted sum `self * alpha + other * beta` of two colours whose
    /// weights sum to one in binary64.
    pub fn blend(&self, other: Self, alpha: Weight, beta: Weight) -> (c: Self)
        requires
            alpha@.sums_to_one(beta@),
        ensures
            c@ == blend_channels(self@, other@, alpha@, beta@),
    {
        *self * alpha + other * beta
    }
}

impl AddSpecImpl for RGB {
    open spec fn obeys_add_spec() -> bool {
        true
    }

    open spec fn add_req(self, other: RGB) -> bool {
        true
    }

    closed spec fn add_spec(self, other: RGB) -> RGB {
        RGB {
            r: ((self.r + other.r) % 256) as u8,
            g: ((self.g + other.g) % 256) as u8,
            b: ((self.b + other.b) % 256) as u8,
        }
    }
}

impl std::ops::Add for RGB {
    type Output = RGB;

    /// Channel-wise sum; a channel that passes 255 wraps around.
    fn add(self, other: RGB) -> (c: RGB)
        ensures
            c@ == wrapping_sum(self@, other@),
    {
        RGB {
            r: self.r.wrapping_add(other.r),
            g: self.g.wrapping_add(other.g),
            b: self.b.wrapping_add(other.b),
        }
    }
}

impl MulSpecImpl<Weight> for RGB {
    open spec fn obeys_mul_spec() -> bool {
        true
    }

    open spec fn mul_req(self, rhs: Weight) -> bool {
        true
    }

    closed spec fn mul_spec(self, rhs: Weight) -> RGB {
        RGB {
            r: scale_by(self.r, rhs@),
            g: scale_by(self.g, rhs@),
            b: scale_by(self.b, rhs@),
        }
    }
}

impl std::ops::Mul<Weight> for RGB {
    type Output = RGB;

    /// Every channel multiplied by `rhs` in binary64 and cut down to a byte.
    fn mul(self, rhs: Weight) -> (c: RGB)
        ensures
            c@ == scale_channels(self@, rhs@),
    {
        RGB { r: rhs.scale(self.r), g: rhs.scale(self.g), b: rhs.scale(self.b) }
    }
}

/// With weights that are not negative and sum to one in binary64, no channel
/// of a blend wraps around: each is the plain sum of the two scaled channels.
pub proof fn lemma_blend_is_plain_sum(a: Channels, b: Channels, alpha: Binary, beta: Binary)
    requires
        !alpha.negative,
        !beta.negative,
        sums_to_one(alpha, beta),
    ensures
        blend_channels(a, b, Scalar::Finite(alpha), Scalar::Finite(beta)).0 == scale_channel(a.0, alpha) + scale_channel(b.0, beta),
        blend_channels(a, b, Scalar::Finite(alpha), Scalar::Finite(beta)).1 == scale_channel(a.1, alpha) + scale_channel(b.1, beta),
        blend_channels(a, b, Scalar::Finite(alpha), Scalar::Finite(beta)).2 == scale_channel(a.2, alpha) + scale_channel(b.2, beta),
{
    lemma_scaled_sum_fits(a.0, b.0, alpha, beta);
    lemma_scaled_sum_fits(a.1, b.1, alpha, beta);
    lemma_scaled_sum_fits(a.2, b.2, alpha, beta);
}

/// Blending a colour with itself, with weights that are not negative and sum
/// to one in binary64, gives the colour back, up to one unit lost per channel
/// where a product was cut.
pub proof fn lemma_blend_with_itself(c: Channels, alpha: Binary, beta: Binary)
    requires
        !alpha.negative,
        !beta.negative,
        sums_to_one(alpha, beta),
    ensures
        c.0 - 1 <= blend_channels(c, c, Scalar::Finite(alpha), Scalar::Finite(beta)).0 <= c.0,
        c.1 - 1 <= blend_channels(c, c, Scalar::Finite(alpha), Scalar::Finite(beta)).1 <= c.1,
        c.2 - 1 <= blend_channels(c, c, Scalar::Finite(alpha), Scalar::Finite(beta)).2 <= c.2,
{
    lemma_scaled_parts_rejoin(c.0, alpha, beta);
    lemma_scaled_parts_rejoin(c.1, alpha, beta);
    lemma_scaled_parts_rejoin(c.2, alpha, beta);
}

/// With the weight zero on the first colour and one on the second, the blend
/// is the second colour.
pub proof fn lemma_blend_all_on_second(a: Channels, b: Channels, alpha: Binary, beta: Binary)
    requires
        alpha.mantissa == 0,
        beta == one(),
    ensures
        blend_channels(a, b, Scalar::Finite(alpha), Scalar::Finite(beta)) == b,
{
    lemma_scale_by_zero(a.0, alpha);
    lemma_scale_by_zero(a.1, alpha);
    lemma_scale_by_zero(a.2, alpha);
    lemma_scale_by_one(b.0);
    lemma_scale_by_one(b.1);
    lemma_scale_by_one(b.2);
}

/// With the weight one on the first colour and zero on the second, the blend
/// is the first colour.
pub proof fn lemma_blend_all_on_first(a: Channels, b: Channels, alpha: Binary, beta: Binary)
    requires
        alpha == one(),
        beta.mantissa == 0,
    ensures
        blend_channels(a, b, Scalar::Finite(alpha), Scalar::Finite(beta)) == a,
{
    lemma_scale_by_one(a.0);
    lemma_scale_by_one(a.1);
    lemma_scale_by_one(a.2);
    lemma_scale_by_zero(b.0, beta);
    lemma_scale_by_zero(b.1, beta);
    lemma_scale_by_zero(b.2, beta);
}

/// Parsing a text that starts with `#` and six hexadecimal digits, and
/// writing the colour again, gives the first seven characters of the text in
/// lower case.
pub proof fn lemma_parse_then_format(s: Seq<char>)
    requires
        has_hex_prefix(s),
    ensures
        hex_notation(parse_hex(s)) == lower_case(s.subrange(0, 7)),
        s.len() == 7 ==> hex_notation(parse_hex(s)) == lower_case(s),
{
    lemma_byte_round_trip(s[1], s[2]);
    lemma_byte_round_trip(s[3], s[4]);
    lemma_byte_round_trip(s[5], s[6]);
    assert(hex_notation(parse_hex(s)) =~= lower_case(s.subrange(0, 7)));
    if s.len() == 7 {
        assert(s.subrange(0, 7) =~= s);
    }
}

/// The notation of a colour is accepted by the parser and names that colour.
pub proof fn lemma_format_then_parse(c: Channels)
    ensures
        has_hex_prefix(hex_notation(c)),
        hex_notation(c).len() == 7,
        parse_hex(hex_notation(c)) == c,
{
    lemma_digits_decode(c.0);
    lemma_digits_decode(c.1);
    lemma_digits_decode(c.2);
    let t = hex_notation(c);
    assert(t[1] == byte_digits(c.0)[0] && t[2] == byte_digits(c.0)[1]);
    assert(t[3] == byte_digits(c.1)[0] && t[4] == byte_digits(c.1)[1]);
    assert(t[5] == byte_digits(c.2)[0] && t[6] == byte_digits(c.2)[1]);
}

} // verus!
