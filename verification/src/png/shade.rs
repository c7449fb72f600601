//! The proportion rule of the gradient strategy.
//!
//! A channel of a new color is the matching channel of the previous new
//! color times the ratio of the old channels, computed in double precision
//! and cut off toward zero. The two roundings of that computation are
//! carried out here in integers: a double holds 53 significant bits, and a
//! value between two doubles goes to the nearer one, to the even one on a
//! tie.
use vstd::prelude::*;
use vstd::arithmetic::div_mod::lemma_fundamental_div_mod;
use vstd::arithmetic::mul::lemma_mul_inequality;
use vstd::arithmetic::mul::lemma_mul_is_commutative;
use vstd::arithmetic::mul::lemma_mul_upper_bound;
use vstd::arithmetic::power2::lemma2_to64;
use vstd::arithmetic::power2::lemma2_to64_rest;
use vstd::arithmetic::power2::lemma_pow2_strictly_increases;
use vstd::arithmetic::power2::lemma_pow2_unfold;
use vstd::arithmetic::power2::pow2;
use crate::color::Color;

verus! {

/// `n / d` rounded to the nearest whole number, a tie to the even one.
pub open spec fn round_half_even(n: nat, d: nat) -> nat {
    let q = n / d;
    let r = n % d;
    if 2 * r > d || (2 * r == d && q % 2 == 1) {
        q + 1
    } else {
        q
    }
}

/// `n / d` fills a significand of 53 bits: `2^52 <= n / d < 2^53`.
pub open spec fn fills_significand(n: nat, d: nat) -> bool {
    pow2(52) * d <= n && n < pow2(53) * d
}

/// The number of binary places behind the point of the double nearest to
/// `n / d`: with so many places `n / d` fills the significand.
pub open spec fn places(n: nat, d: nat) -> nat {
    choose|t: nat| fills_significand(n * pow2(t), d)
}

/// The number of low bits that `n` has beyond a significand.
pub open spec fn surplus(n: nat) -> nat {
    choose|s: nat| fills_significand(n, pow2(s))
}

/// The channel of the next new color: `prev_new * (old / prev_old)` in
/// double precision, cut off toward zero and held at 255. Where
/// `prev_old` is zero the ratio counts as one.
pub open spec fn scaled_channel(prev_new: u8, old: u8, prev_old: u8) -> u8 {
    if prev_old == 0 {
        prev_new
    } else if old == 0 || prev_new == 0 {
        0
    } else {
        let t = places(old as nat, prev_old as nat);
        // ratio / 2^t is the double nearest to old / prev_old
        let ratio = round_half_even(old as nat * pow2(t), prev_old as nat);
        let product = prev_new as nat * ratio;
        let s = surplus(product);
        // rounded / 2^t is the double nearest to product / 2^t
        let rounded = round_half_even(product, pow2(s)) * pow2(s);
        let whole = rounded / pow2(t);
        if whole > 255 {
            255
        } else {
            whole as u8
        }
    }
}

/// The next new color: each channel scaled by the ratio of the old
/// channels.
pub open spec fn shaded(prev_new: Color, old: Color, prev_old: Color) -> Color {
    Color {
        red: scaled_channel(prev_new.red, old.red, prev_old.red),
        green: scaled_channel(prev_new.green, old.green, prev_old.green),
        blue: scaled_channel(prev_new.blue, old.blue, prev_old.blue),
    }
}

proof fn lemma_places_unique(n: nat, d: nat, t1: nat, t2: nat)
    requires
        d > 0,
        fills_significand(n * pow2(t1), d),
        fills_significand(n * pow2(t2), d),
    ensures
        t1 == t2,
{
    lemma2_to64_rest();
    if t1 < t2 {
        lemma_doubles(n, t1, t2);
    } else if t2 < t1 {
        lemma_doubles(n, t2, t1);
    }
}

/// With more places a number is at least twice as large.
proof fn lemma_doubles(n: nat, low: nat, high: nat)
    requires
        low < high,
    ensures
        n * pow2(high) >= 2 * (n * pow2(low)),
{
    lemma_pow2_unfold(low + 1);
    if low + 1 < high {
        lemma_pow2_strictly_increases(low + 1, high);
    }
    assert(pow2(high) >= 2 * pow2(low));
    lemma_mul_inequality(2 * pow2(low) as int, pow2(high) as int, n as int);
    lemma_mul_is_commutative(n as int, pow2(high) as int);
    lemma_mul_is_commutative(n as int, (2 * pow2(low)) as int);
    assert(n * (2 * pow2(low)) == 2 * (n * pow2(low))) by (nonlinear_arith);
}

proof fn lemma_surplus_unique(n: nat, s1: nat, s2: nat)
    requires
        fills_significand(n, pow2(s1)),
        fills_significand(n, pow2(s2)),
    ensures
        s1 == s2,
{
    lemma2_to64_rest();
    if s1 < s2 {
        lemma_doubles(pow2(52), s1, s2);
        assert(pow2(53) * pow2(s1) == 2 * (pow2(52) * pow2(s1))) by (nonlinear_arith)
            requires
                pow2(53) == 2 * pow2(52),
        ;
    } else if s2 < s1 {
        lemma_doubles(pow2(52), s2, s1);
        assert(pow2(53) * pow2(s2) == 2 * (pow2(52) * pow2(s2))) by (nonlinear_arith)
            requires
                pow2(53) == 2 * pow2(52),
        ;
    }
}

/// `n / d` rounded to the nearest whole number, a tie to the even one.
fn rounded_quotient(n: u128, d: u128) -> (res: u128)
    requires
        d > 0,
        n < 0x4000_0000_0000_0000_0000,
        d < 0x4000_0000_0000_0000_0000,
    ensures
        res == round_half_even(n as nat, d as nat),
        res == n / d || res == n / d + 1,
{
    let q = n / d;
    let r = n % d;
    if 2 * r > d || (2 * r == d && q % 2 == 1) {
        q + 1
    } else {
        q
    }
}

/// The channel of the next new color, given the matching channels of the
/// previous new color, of the old color and of the previous old color.
pub fn scale_channel(prev_new: u8, old: u8, prev_old: u8) -> (res: u8)
    ensures
        res == scaled_channel(prev_new, old, prev_old),
{
    if prev_old == 0 {
        return prev_new;
    }
    if old == 0 || prev_new == 0 {
        return 0;
    }
    let a = old as u128;
    let b = prev_old as u128;
    let p = prev_new as u128;
    proof {
        lemma2_to64();
        lemma2_to64_rest();
    }
    // The places of the ratio.
    let mut scale: u128 = 1;
    let ghost mut t: nat = 0;
    while a * scale < 0x10_0000_0000_0000 * b
        invariant
            1 <= a <= 255,
            1 <= b <= 255,
            scale == pow2(t),
            1 <= scale < 0x2000_0000_0000_0000,
            a * scale < 0x20_0000_0000_0000 * b,
        decreases 0x2000_0000_0000_0000 - scale,
    {
        proof {
            lemma_pow2_unfold(t + 1);
            assert(scale <= a * scale) by (nonlinear_arith)
                requires
                    1 <= a,
                    0 <= scale,
            ;
            assert(a * (scale * 2) == 2 * (a * scale)) by (nonlinear_arith);
            lemma_mul_upper_bound(a as int, 255, (scale * 2) as int, 0x2000_0000_0000_0000);
            t = t + 1;
        }
        scale = scale * 2;
    }
    let n = a * scale;
    proof {
        assert(fills_significand(old as nat * pow2(t), prev_old as nat));
        let chosen = places(old as nat, prev_old as nat);
        lemma_places_unique(old as nat, prev_old as nat, t, chosen);
        lemma_mul_upper_bound(a as int, 255, scale as int, 0x2000_0000_0000_0000);
    }
    let ratio = rounded_quotient(n, b);
    proof {
        lemma_fundamental_div_mod(n as int, b as int);
        // 2^52 <= n / b < 2^53
        assert(n / b >= 0x10_0000_0000_0000) by (nonlinear_arith)
            requires
                n >= 0x10_0000_0000_0000 * b,
                b > 0,
                n == b * (n / b) + n % b,
                0 <= n % b < b,
        ;
        assert(n / b < 0x20_0000_0000_0000) by (nonlinear_arith)
            requires
                n < 0x20_0000_0000_0000 * b,
                b > 0,
                n == b * (n / b) + n % b,
                0 <= n % b < b,
        ;
        lemma_mul_upper_bound(p as int, 255, ratio as int, 0x20_0000_0000_0000);
        lemma_mul_inequality(0x10_0000_0000_0000, ratio as int, p as int);
        assert(p * ratio >= ratio) by (nonlinear_arith)
            requires
                p >= 1,
                ratio >= 0,
        ;
    }
    let product = p * ratio;
    // The bits of the product beyond a significand.
    let mut unit: u128 = 1;
    let ghost mut s: nat = 0;
    while product >= 0x20_0000_0000_0000 * unit
        invariant
            unit == pow2(s),
            1 <= unit <= 0x200,
            0x10_0000_0000_0000 * unit <= product,
            product <= 255 * 0x20_0000_0000_0000,
        decreases 0x400 - unit,
    {
        proof {
            lemma_pow2_unfold(s + 1);
            s = s + 1;
        }
        unit = unit * 2;
    }
    proof {
        assert(pow2(52) * pow2(s) == 0x10_0000_0000_0000 * unit);
        assert(pow2(53) * pow2(s) == 0x20_0000_0000_0000 * unit);
        assert(fills_significand(product as nat, pow2(s)));
        lemma_surplus_unique(product as nat, s, surplus(product as nat));
    }
    let significand = rounded_quotient(product, unit);
    proof {
        lemma_fundamental_div_mod(product as int, unit as int);
        assert((product / unit) * unit <= product) by (nonlinear_arith)
            requires
                product == unit * (product / unit) + product % unit,
                0 <= product % unit,
        ;
        assert((product / unit + 1) * unit == (product / unit) * unit + unit)
            by (nonlinear_arith);
        assert(significand * unit <= product + unit) by (nonlinear_arith)
            requires
                significand == product / unit || significand == product / unit + 1,
                (product / unit) * unit <= product,
                (product / unit + 1) * unit == (product / unit) * unit + unit,
                unit >= 0,
        ;
    }
    let rounded = significand * unit;
    let whole = rounded / scale;
    if whole > 255 {
        255
    } else {
        whole as u8
    }
}

/// The next new color.
pub fn shade(prev_new: Color, old: Color, prev_old: Color) -> (next: Color)
    ensures
        next == shaded(prev_new, old, prev_old),
{
    Color {
        red: scale_channel(prev_new.red, old.red, prev_old.red),
        green: scale_channel(prev_new.green, old.green, prev_old.green),
        blue: scale_channel(prev_new.blue, old.blue, prev_old.blue),
    }
}

} // verus!
