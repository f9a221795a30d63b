//! Packed RGB colours, blending between two of them, and gradients over an
//! ordered list of colour stops.

use vstd::prelude::*;
use vstd::arithmetic::div_mod::{lemma_fundamental_div_mod, lemma_fundamental_div_mod_converse};
use crate::ratio::{Frac, Ratio};

verus! {

/// A colour packed as `0xRRGGBB`.
#[derive(Clone, Copy, Debug, PartialEq, Eq, PartialOrd, Ord, Structural)]
pub struct Color(pub u32);

/// Three channel values packed into one word, red highest. A channel above
/// 255 spills into its neighbour, and bits above the word are lost.
pub open spec fn pack(r: u32, g: u32, b: u32) -> u32 {
    (r << 16) | (g << 8) | b
}

/// The channel value between `a` and `b` at the fraction `f`: the integer
/// nearest to `a * (1 - f) + b * f`, a half rounding up, held within the
/// range of a 32-bit word.
pub open spec fn blend(a: int, b: int, f: Frac) -> int {
    let n = a * (f.den - f.num) + b * f.num;
    let q = (2 * n + f.den) / (2 * f.den);
    if n <= 0 {
        0
    } else if q > u32::MAX {
        u32::MAX as int
    } else {
        q
    }
}

impl Color {
    /// The red channel.
    pub open spec fn red(self) -> u8 {
        ((self.0 as int / 0x1_0000) % 0x100) as u8
    }

    /// The green channel.
    pub open spec fn green(self) -> u8 {
        ((self.0 as int / 0x100) % 0x100) as u8
    }

    /// The blue channel.
    pub open spec fn blue(self) -> u8 {
        (self.0 as int % 0x100) as u8
    }

    /// The three channels in the order red, green, blue.
    pub open spec fn channels(self) -> Seq<u8> {
        seq![self.red(), self.green(), self.blue()]
    }

    /// The colour holds nothing above its 24 channel bits.
    pub open spec fn is_rgb(self) -> bool {
        self.0 <= 0xFF_FFFF
    }

    /// The colour between `self` and `other` at the fraction `f`, channel by
    /// channel.
    pub open spec fn lerp_spec(self, other: Color, f: Frac) -> Color {
        Color(
            pack(
                blend(self.red() as int, other.red() as int, f) as u32,
                blend(self.green() as int, other.green() as int, f) as u32,
                blend(self.blue() as int, other.blue() as int, f) as u32,
            ),
        )
    }

    /// Splits the colour into its red, green and blue channels.
    pub fn to_rgb(&self) -> (rgb: [u8; 3])
        ensures
            rgb@ == self.channels(),
    {
        let v: u32 = self.0;
        assert((v >> 16) & 0xff == (v / 0x1_0000) % 0x100) by (bit_vector);
        assert((v >> 8) & 0xff == (v / 0x100) % 0x100) by (bit_vector);
        assert(v & 0xff == v % 0x100) by (bit_vector);
        let rgb: [u8; 3] = [((v >> 16) & 0xff) as u8, ((v >> 8) & 0xff) as u8, (v & 0xff) as u8];
        assert(rgb@ =~= self.channels());
        rgb
    }

    /// Blends towards `other` by the fraction `f`: 0 keeps `self`, 1 gives
    /// `other`. A fraction outside 0..=1 extrapolates, and a channel that
    /// leaves 0..=255 that way spills as [`pack`] describes.
    pub fn lerp(&self, other: &Color, f: Ratio) -> (c: Color)
        ensures
            c == self.lerp_spec(*other, f@),
    {
        let c1 = self.to_rgb();
        let c2 = other.to_rgb();
        let r: u32 = blend_channel(c1[0], c2[0], f);
        let g: u32 = blend_channel(c1[1], c2[1], f);
        let b: u32 = blend_channel(c1[2], c2[2], f);
        Color(r << 16 | g << 8 | b)
    }
}

/// Computes [`blend`] for one channel.
fn blend_channel(a: u8, b: u8, f: Ratio) -> (c: u32)
    ensures
        c == blend(a as int, b as int, f@),
{
    let num: i128 = f.numer() as i128;
    let den: i128 = f.denom() as i128;
    let rest: i128 = den - num;
    assert(-0x100_0000_0000_0000_0000 <= (a as int) * (rest as int) <= 0x100_0000_0000_0000_0000)
        by (nonlinear_arith)
        requires
            0 <= a <= 255,
            -0x1_0000_0000_0000_0000 <= rest <= 0x1_0000_0000_0000_0000,
    ;
    assert(-0x100_0000_0000_0000_0000 <= (b as int) * (num as int) <= 0x100_0000_0000_0000_0000)
        by (nonlinear_arith)
        requires
            0 <= b <= 255,
            -0x1_0000_0000_0000_0000 <= num <= 0x1_0000_0000_0000_0000,
    ;
    let n: i128 = (a as i128) * rest + (b as i128) * num;
    if n <= 0 {
        0
    } else {
        let q: i128 = (2 * n + den) / (2 * den);
        if q > u32::MAX as i128 {
            u32::MAX
        } else {
            q as u32
        }
    }
}

/// A gradient: colour stops in order from the lowest value to the highest.
/// It is usable once it holds at least one stop.
#[derive(Clone, Debug)]
pub struct Gradient {
    pub colors: Vec<Color>,
}

/// The colour of the gradient `stops` at the position `v`: the first stop
/// below 0, the last stop from 1 on, and in between the blend of the two
/// stops around `(stops.len() - 1) * v`, by the distance from the lower one.
pub open spec fn sample_spec(stops: Seq<Color>, v: Frac) -> Color {
    let scaled = (stops.len() - 1) * v.num;
    let lower = scaled / v.den;
    let rest = scaled % v.den;
    let upper = if rest == 0 {
        lower
    } else {
        lower + 1
    };
    if v.num < 0 {
        stops[0]
    } else if v.num >= v.den {
        stops[stops.len() - 1]
    } else {
        stops[lower].lerp_spec(stops[upper], Frac { num: rest, den: v.den })
    }
}

impl Gradient {
    /// The stops as a sequence.
    pub open spec fn stops(self) -> Seq<Color> {
        self.colors@
    }

    /// The gradient holds at least one stop.
    pub open spec fn wf(self) -> bool {
        self.colors@.len() >= 1
    }

    /// The colour at position `v`, see [`sample_spec`].
    pub fn sample(&self, v: Ratio) -> (c: Color)
        requires
            self.wf(),
        ensures
            c == sample_spec(self.stops(), v@),
    {
        let num: i64 = v.numer();
        let den: i64 = v.denom();
        if num < 0 {
            return self.colors[0];
        }
        if num >= den {
            return self.colors[self.colors.len() - 1];
        }
        let last: usize = self.colors.len() - 1;
        assert(0 <= (last as int) * (num as int) <= (last as int) * (den as int) - (last as int)
            && (last as int) * (den as int) <= 0x1_0000_0000_0000_0000 * 0x8000_0000_0000_0000)
            by (nonlinear_arith)
            requires
                0 <= num < den <= 0x8000_0000_0000_0000,
                0 <= last <= 0x1_0000_0000_0000_0000,
        ;
        let scaled: u128 = (last as u128) * (num as u128);
        let lower: u128 = scaled / (den as u128);
        let rest: u128 = scaled % (den as u128);
        proof {
            let s = scaled as int;
            let d = den as int;
            assert(s == d * (s / d) + s % d) by {
                lemma_fundamental_div_mod(s, d);
            }
            assert(s / d < last || last == 0) by (nonlinear_arith)
                requires
                    s == d * (s / d) + s % d,
                    0 <= s % d < d,
                    0 <= s <= last * d - last,
                    d > 0,
                    last >= 0,
            ;
            assert(last == 0 ==> s == 0 && s / d == 0 && s % d == 0) by (nonlinear_arith)
                requires
                    s == d * (s / d) + s % d,
                    0 <= s % d < d,
                    0 <= s <= last * d - last,
                    d > 0,
                    last >= 0,
            ;
        }
        let lo: usize = lower as usize;
        let hi: usize = if rest == 0 {
            lo
        } else {
            lo + 1
        };
        let f = Ratio::known(rest as i64, den);
        self.colors[lo].lerp(&self.colors[hi], f)
    }
}

/// Packing three channels that each fit in a byte loses nothing: the colour
/// holds 24 bits and gives the same three channels back.
pub proof fn lemma_pack_channels(r: u32, g: u32, b: u32)
    requires
        r <= 255,
        g <= 255,
        b <= 255,
    ensures
        Color(pack(r, g, b)).is_rgb(),
        Color(pack(r, g, b)).red() == r,
        Color(pack(r, g, b)).green() == g,
        Color(pack(r, g, b)).blue() == b,
{
    let p = pack(r, g, b);
    assert(p == (r << 16) | (g << 8) | b);
    assert(((r << 16) | (g << 8) | b) <= 0xFF_FFFF && (((r << 16) | (g << 8) | b) / 0x1_0000) % 0x100
        == r && (((r << 16) | (g << 8) | b) / 0x100) % 0x100 == g && ((r << 16) | (g << 8) | b)
        % 0x100 == b) by (bit_vector)
        requires
            r <= 255,
            g <= 255,
            b <= 255,
    ;
}

/// A colour of 24 bits is the packing of its own channels.
pub proof fn lemma_pack_own_channels(c: Color)
    requires
        c.is_rgb(),
    ensures
        pack(c.red() as u32, c.green() as u32, c.blue() as u32) == c.0,
{
    let v = c.0;
    let r = ((v / 0x1_0000) % 0x100) as u32;
    let g = ((v / 0x100) % 0x100) as u32;
    let b = (v % 0x100) as u32;
    assert(c.red() as u32 == r && c.green() as u32 == g && c.blue() as u32 == b);
    assert(((((v / 0x1_0000) % 0x100) << 16) | (((v / 0x100) % 0x100) << 8) | (v % 0x100)) == v)
        by (bit_vector)
        requires
            v <= 0xFF_FFFF,
    ;
}

/// Within 0..=1 a blend lies between the two channel values, so a blend of
/// two bytes is a byte.
pub proof fn lemma_blend_between(a: int, b: int, f: Frac)
    requires
        0 <= a <= 255,
        0 <= b <= 255,
        f.den > 0,
        f.in_unit(),
    ensures
        a <= b ==> a <= blend(a, b, f) <= b,
        b <= a ==> b <= blend(a, b, f) <= a,
        0 <= blend(a, b, f) <= 255,
{
    let n = a * (f.den - f.num) + b * f.num;
    let d = f.den;
    let q = (2 * n + d) / (2 * d);
    let lo = if a <= b { a } else { b };
    let hi = if a <= b { b } else { a };
    assert(lo * d <= n <= hi * d) by (nonlinear_arith)
        requires
            n == a * (f.den - f.num) + b * f.num,
            d == f.den,
            0 <= f.num <= f.den,
            lo <= a <= hi,
            lo <= b <= hi,
    ;
    lemma_fundamental_div_mod(2 * n + d, 2 * d);
    assert(lo <= q <= hi) by (nonlinear_arith)
        requires
            2 * n + d == (2 * d) * q + (2 * n + d) % (2 * d),
            0 <= (2 * n + d) % (2 * d) < 2 * d,
            lo * d <= n <= hi * d,
            d > 0,
    ;
    if n <= 0 {
        assert(lo == 0) by (nonlinear_arith)
            requires
                lo * d <= n <= 0,
                0 <= lo,
                d > 0,
        ;
    }
}

/// Blending a channel value with itself gives it back, at any fraction.
pub proof fn lemma_blend_same(a: int, f: Frac)
    requires
        0 <= a <= 255,
        f.den > 0,
    ensures
        blend(a, a, f) == a,
{
    let n = a * (f.den - f.num) + a * f.num;
    let d = f.den;
    assert(n == a * d) by (nonlinear_arith)
        requires
            n == a * (f.den - f.num) + a * f.num,
            d == f.den,
    ;
    assert(2 * n + d == a * (2 * d) + d) by (nonlinear_arith)
        requires
            n == a * d,
    ;
    lemma_fundamental_div_mod_converse(2 * n + d, 2 * d, a, d);
    if n <= 0 {
        assert(a == 0) by (nonlinear_arith)
            requires
                a * d <= 0,
                a >= 0,
                d > 0,
        ;
    }
}

/// At the fraction 0 a blend is the first value, at 1 the second.
pub proof fn lemma_blend_ends(a: int, b: int, f: Frac)
    requires
        0 <= a <= 255,
        0 <= b <= 255,
        f.den > 0,
    ensures
        f.num == 0 ==> blend(a, b, f) == a,
        f.num == f.den ==> blend(a, b, f) == b,
{
    let d = f.den;
    if f.num == 0 {
        let n = a * (d - 0) + b * 0;
        assert(n == a * d && 2 * n + d == a * (2 * d) + d) by (nonlinear_arith)
            requires
                n == a * (d - 0) + b * 0,
        ;
        lemma_fundamental_div_mod_converse(2 * n + d, 2 * d, a, d);
        if n <= 0 {
            assert(a == 0) by (nonlinear_arith)
                requires
                    a * d <= 0,
                    a >= 0,
                    d > 0,
            ;
        }
    }
    if f.num == d {
        let n = a * (d - d) + b * d;
        assert(n == b * d && 2 * n + d == b * (2 * d) + d) by (nonlinear_arith)
            requires
                n == a * (d - d) + b * d,
        ;
        lemma_fundamental_div_mod_converse(2 * n + d, 2 * d, b, d);
        if n <= 0 {
            assert(b == 0) by (nonlinear_arith)
                requires
                    b * d <= 0,
                    b >= 0,
                    d > 0,
            ;
        }
    }
}

/// Within 0..=1 no channel spills: the blended colour holds 24 bits and each
/// of its channels is the blend of the two colours' channels.
pub proof fn lemma_lerp_within_unit(a: Color, b: Color, f: Frac)
    requires
        f.den > 0,
        f.in_unit(),
    ensures
        a.lerp_spec(b, f).is_rgb(),
        a.lerp_spec(b, f).red() == blend(a.red() as int, b.red() as int, f),
        a.lerp_spec(b, f).green() == blend(a.green() as int, b.green() as int, f),
        a.lerp_spec(b, f).blue() == blend(a.blue() as int, b.blue() as int, f),
{
    lemma_blend_between(a.red() as int, b.red() as int, f);
    lemma_blend_between(a.green() as int, b.green() as int, f);
    lemma_blend_between(a.blue() as int, b.blue() as int, f);
    lemma_pack_channels(
        blend(a.red() as int, b.red() as int, f) as u32,
        blend(a.green() as int, b.green() as int, f) as u32,
        blend(a.blue() as int, b.blue() as int, f) as u32,
    );
}

/// Blending a 24-bit colour with itself gives it back, at any fraction.
pub proof fn lemma_lerp_same(c: Color, f: Frac)
    requires
        c.is_rgb(),
        f.den > 0,
    ensures
        c.lerp_spec(c, f) == c,
{
    lemma_blend_same(c.red() as int, f);
    lemma_blend_same(c.green() as int, f);
    lemma_blend_same(c.blue() as int, f);
    lemma_pack_own_channels(c);
}

/// At the fraction 0 a blend of two 24-bit colours is the first colour, at
/// 1 the second.
pub proof fn lemma_lerp_ends(a: Color, b: Color, f: Frac)
    requires
        a.is_rgb(),
        b.is_rgb(),
        f.den > 0,
    ensures
        f.num == 0 ==> a.lerp_spec(b, f) == a,
        f.num == f.den ==> a.lerp_spec(b, f) == b,
{
    lemma_blend_ends(a.red() as int, b.red() as int, f);
    lemma_blend_ends(a.green() as int, b.green() as int, f);
    lemma_blend_ends(a.blue() as int, b.blue() as int, f);
    lemma_pack_own_channels(a);
    lemma_pack_own_channels(b);
}

/// At position 0 a gradient gives its first stop, where that stop holds 24
/// bits.
pub proof fn lemma_sample_at_zero(stops: Seq<Color>, v: Frac)
    requires
        stops.len() >= 1,
        stops[0].is_rgb(),
        v.den > 0,
        v.num == 0,
    ensures
        sample_spec(stops, v) == stops[0],
{
    let scaled = (stops.len() - 1) * v.num;
    assert(scaled == 0) by (nonlinear_arith)
        requires
            scaled == (stops.len() - 1) * v.num,
            v.num == 0,
    ;
    lemma_fundamental_div_mod_converse(scaled, v.den, 0, 0);
    lemma_lerp_same(stops[0], Frac { num: 0, den: v.den });
}

/// At position 1, and beyond it, a gradient gives its last stop.
pub proof fn lemma_sample_at_one(stops: Seq<Color>, v: Frac)
    requires
        stops.len() >= 1,
        v.den > 0,
        v.num >= v.den,
    ensures
        sample_spec(stops, v) == stops[stops.len() - 1],
{
}

/// Below position 0 a gradient gives its first stop.
pub proof fn lemma_sample_below_zero(stops: Seq<Color>, v: Frac)
    requires
        stops.len() >= 1,
        v.num < 0,
    ensures
        sample_spec(stops, v) == stops[0],
{
}

/// A gradient of one stop gives that stop at every position; between 0 and
/// 1, where the stop is blended with itself, this holds of a stop of 24 bits.
pub proof fn lemma_sample_single_stop(stops: Seq<Color>, v: Frac)
    requires
        stops.len() == 1,
        v.den > 0,
        stops[0].is_rgb() || v.num < 0 || v.num >= v.den,
    ensures
        sample_spec(stops, v) == stops[0],
{
    if 0 <= v.num < v.den {
        let scaled = (stops.len() - 1) * v.num;
        assert(scaled == 0) by (nonlinear_arith)
            requires
                scaled == (stops.len() - 1) * v.num,
                stops.len() == 1,
        ;
        lemma_fundamental_div_mod_converse(scaled, v.den, 0, 0);
        lemma_lerp_same(stops[0], Frac { num: 0, den: v.den });
    }
}

/// Half way along a gradient of two stops each channel is the average of
/// the two stops' channels, a half rounding up.
pub proof fn lemma_sample_midpoint(a: Color, b: Color, v: Frac)
    requires
        v.den > 0,
        2 * v.num == v.den,
    ensures
        sample_spec(seq![a, b], v).is_rgb(),
        sample_spec(seq![a, b], v).red() == (a.red() + b.red() + 1) / 2,
        sample_spec(seq![a, b], v).green() == (a.green() + b.green() + 1) / 2,
        sample_spec(seq![a, b], v).blue() == (a.blue() + b.blue() + 1) / 2,
{
    let stops = seq![a, b];
    let scaled = (stops.len() - 1) * v.num;
    assert(scaled == v.num) by (nonlinear_arith)
        requires
            scaled == (stops.len() - 1) * v.num,
            stops.len() == 2,
    ;
    lemma_fundamental_div_mod_converse(scaled, v.den, 0, v.num);
    let f = Frac { num: v.num, den: v.den };
    assert(sample_spec(stops, v) == a.lerp_spec(b, f));
    lemma_lerp_within_unit(a, b, f);
    lemma_blend_half(a.red() as int, b.red() as int, f);
    lemma_blend_half(a.green() as int, b.green() as int, f);
    lemma_blend_half(a.blue() as int, b.blue() as int, f);
}

/// At one half a blend of two bytes is their average, a half rounding up.
pub proof fn lemma_blend_half(a: int, b: int, f: Frac)
    requires
        0 <= a <= 255,
        0 <= b <= 255,
        f.den > 0,
        2 * f.num == f.den,
    ensures
        blend(a, b, f) == (a + b + 1) / 2,
{
    let k = f.num;
    let d = f.den;
    let n = a * (d - k) + b * k;
    let m = (a + b + 1) / 2;
    let r = (a + b + 1) % 2;
    assert(n == (a + b) * k) by (nonlinear_arith)
        requires
            n == a * (d - k) + b * k,
            d == 2 * k,
    ;
    assert(2 * n + d == m * (2 * d) + r * d) by (nonlinear_arith)
        requires
            n == (a + b) * k,
            d == 2 * k,
            a + b + 1 == 2 * m + r,
    ;
    assert(0 <= r * d < 2 * d) by (nonlinear_arith)
        requires
            0 <= r <= 1,
            d > 0,
    ;
    lemma_fundamental_div_mod_converse(2 * n + d, 2 * d, m, r * d);
    if n <= 0 {
        assert(a + b == 0) by (nonlinear_arith)
            requires
                (a + b) * k <= 0,
                a + b >= 0,
                k > 0,
        ;
    }
}

/// Two quotients of equal value have the same whole part.
pub proof fn lemma_div_by_value(x1: int, y1: int, x2: int, y2: int)
    requires
        y1 > 0,
        y2 > 0,
        x1 * y2 == x2 * y1,
    ensures
        x1 / y1 == x2 / y2,
        (x1 % y1 == 0) == (x2 % y2 == 0),
        (x1 % y1) * y2 == (x2 % y2) * y1,
{
    let q = x1 / y1;
    let r = x1 % y1;
    lemma_fundamental_div_mod(x1, y1);
    let r2 = x2 - q * y2;
    assert(r2 * y1 == r * y2) by (nonlinear_arith)
        requires
            x1 == y1 * q + r,
            r2 == x2 - q * y2,
            x1 * y2 == x2 * y1,
    ;
    assert(0 <= r2 < y2) by (nonlinear_arith)
        requires
            r2 * y1 == r * y2,
            0 <= r < y1,
            y1 > 0,
            y2 > 0,
    ;
    lemma_fundamental_div_mod_converse(x2, y2, q, r2);
    assert((r == 0) == (r2 == 0)) by (nonlinear_arith)
        requires
            r2 * y1 == r * y2,
            y1 > 0,
            y2 > 0,
    ;
}

/// A blend depends on the value of the fraction alone, not on the two
/// numbers that it is written with.
pub proof fn lemma_blend_by_value(a: int, b: int, f: Frac, g: Frac)
    requires
        f.den > 0,
        g.den > 0,
        f.same_value(g),
    ensures
        blend(a, b, f) == blend(a, b, g),
{
    let nf = a * (f.den - f.num) + b * f.num;
    let ng = a * (g.den - g.num) + b * g.num;
    assert(nf * g.den == ng * f.den) by (nonlinear_arith)
        requires
            nf == a * (f.den - f.num) + b * f.num,
            ng == a * (g.den - g.num) + b * g.num,
            f.num * g.den == g.num * f.den,
    ;
    assert((nf <= 0) == (ng <= 0)) by (nonlinear_arith)
        requires
            nf * g.den == ng * f.den,
            f.den > 0,
            g.den > 0,
    ;
    assert((2 * nf + f.den) * (2 * g.den) == (2 * ng + g.den) * (2 * f.den)) by (nonlinear_arith)
        requires
            nf * g.den == ng * f.den,
    ;
    lemma_div_by_value(2 * nf + f.den, 2 * f.den, 2 * ng + g.den, 2 * g.den);
}

/// The colour of a gradient at a position depends on the value of the
/// position alone, not on the two numbers that it is written with.
pub proof fn lemma_sample_by_value(stops: Seq<Color>, v: Frac, w: Frac)
    requires
        stops.len() >= 1,
        v.den > 0,
        w.den > 0,
        v.same_value(w),
    ensures
        sample_spec(stops, v) == sample_spec(stops, w),
{
    let last = stops.len() - 1;
    assert((v.num < 0) == (w.num < 0) && (v.num >= v.den) == (w.num >= w.den)) by (nonlinear_arith)
        requires
            v.num * w.den == w.num * v.den,
            v.den > 0,
            w.den > 0,
    ;
    if 0 <= v.num < v.den {
        let sv = last * v.num;
        let sw = last * w.num;
        assert(sv * w.den == sw * v.den) by (nonlinear_arith)
            requires
                sv == last * v.num,
                sw == last * w.num,
                v.num * w.den == w.num * v.den,
        ;
        lemma_div_by_value(sv, v.den, sw, w.den);
        let f = Frac { num: sv % v.den, den: v.den };
        let g = Frac { num: sw % w.den, den: w.den };
        let lower = stops[sv / v.den];
        let upper = stops[if sv % v.den == 0 {
            sv / v.den
        } else {
            sv / v.den + 1
        }];
        lemma_blend_by_value(lower.red() as int, upper.red() as int, f, g);
        lemma_blend_by_value(lower.green() as int, upper.green() as int, f, g);
        lemma_blend_by_value(lower.blue() as int, upper.blue() as int, f, g);
    }
}

} // verus!
