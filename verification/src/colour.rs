//! Colours and levels: the sRGB decoding curve that turns an 8-bit channel into
//! a multi_intensity level, and the brightness scale.
//!
//! A channel byte `c` stands for the sRGB value `v = c / 255`. Its linear light is
//! `v / 12.92` when `v <= 0.04045`, else `((v + 0.055) / 1.055) ^ 2.4`; the level
//! written for an LED whose top is `maximum` is that light times `maximum`, rounded
//! to the nearest integer. The curve segment is decided with exact integer
//! arithmetic: `y = maximum * (x / 269025) ^ (12 / 5)` with `x = 1000 c + 14025`,
//! and `n` is the nearest integer to `y` exactly when
//! `(2n - 1)^5 * 269025^12 <= x^12 * (2 maximum)^5 < (2n + 1)^5 * 269025^12`.

use vstd::prelude::*;

use crate::natural::{capacity, Natural};

verus! {

/// `base` to the power `exp`.
pub open spec fn power(base: int, exp: nat) -> int
    decreases exp,
{
    if exp == 0 {
        1
    } else {
        base * power(base, (exp - 1) as nat)
    }
}

/// The denominator of the curve's base: `1.055 * 255 * 1000`.
pub open spec fn curve_denominator() -> int {
    269025
}

/// The numerator of the curve's base for channel `c`: `(c / 255 + 0.055) * 255 * 1000`.
pub open spec fn curve_numerator(c: u8) -> int {
    1000 * c + 14025
}

/// Whether channel `c` lies on the straight segment of the curve (`c / 255 <= 0.04045`).
pub open spec fn on_linear_segment(c: u8) -> bool {
    c * 100000 <= 4045 * 255
}

/// `maximum * (c / 255) / 12.92`, rounded to the nearest integer.
pub open spec fn linear_level(c: u8, maximum: u32) -> int {
    (2 * 100 * c * maximum + 255 * 1292) / (2 * 255 * 1292 as int)
}

/// Whether `n` is the integer nearest to `maximum * ((c / 255 + 0.055) / 1.055) ^ 2.4`.
pub open spec fn curve_rounds_to(c: u8, maximum: u32, n: int) -> bool {
    let lit = power(curve_numerator(c), 12) * power(2 * maximum, 5);
    &&& 0 <= n
    &&& lit < power(curve_denominator(), 12) * power(2 * n + 1, 5)
    &&& (n == 0 || power(curve_denominator(), 12) * power(2 * n - 1, 5) <= lit)
}

/// Whether `level` is the linear light of channel `c` on a scale whose top is `maximum`.
pub open spec fn is_gamma_level(c: u8, maximum: u32, level: int) -> bool {
    if on_linear_segment(c) {
        level == linear_level(c, maximum)
    } else {
        curve_rounds_to(c, maximum, level)
    }
}

/// The linear light of channel `c` on a scale whose top is `maximum`: the one level
/// that `is_gamma_level` admits (see `law_gamma_level_is_unique`).
pub open spec fn gamma_value(c: u8, maximum: u32) -> int {
    choose|level: int| is_gamma_level(c, maximum, level)
}

/// The brightness percentage `percent` on a scale whose top is `maximum`,
/// rounded to the nearest step (halves round up).
pub open spec fn scaled(percent: u8, maximum: u32) -> int {
    (percent * maximum + 50) / 100 as int
}

/// An 8-bit colour.
#[derive(Clone, Copy, Debug, PartialEq, Eq)]
pub struct Rgb {
    pub red: u8,
    pub green: u8,
    pub blue: u8,
}

/// One of the three colour channels of a multicolor LED.
#[derive(Clone, Copy, Debug, PartialEq, Eq)]
pub enum Channel {
    Red,
    Green,
    Blue,
}

impl Rgb {
    /// The byte of `channel`.
    pub open spec fn byte(self, channel: Channel) -> u8 {
        match channel {
            Channel::Red => self.red,
            Channel::Green => self.green,
            Channel::Blue => self.blue,
        }
    }
}

/// The level that `channel` of `rgb` gets on an LED whose top is `maximum`.
pub fn channel_value(channel: Channel, rgb: Rgb, maximum: u32) -> (level: u32)
    ensures
        level == gamma_value(rgb.byte(channel), maximum),
{
    match channel {
        Channel::Red => gamma(rgb.red, maximum),
        Channel::Green => gamma(rgb.green, maximum),
        Channel::Blue => gamma(rgb.blue, maximum),
    }
}

/// The linear light of the sRGB channel byte `channel`, on a scale whose top is `maximum`.
pub fn gamma(channel: u8, maximum: u32) -> (level: u32)
    ensures
        is_gamma_level(channel, maximum, level as int),
        level == gamma_value(channel, maximum),
        level <= maximum,
{
    let level: u32 = nearest_level(channel, maximum);
    proof {
        law_gamma_level_is_unique(channel, maximum, level as int, gamma_value(channel, maximum));
    }
    level
}

fn nearest_level(channel: u8, maximum: u32) -> (level: u32)
    ensures
        is_gamma_level(channel, maximum, level as int),
        level <= maximum,
{
    if (channel as u32) * 100000 <= 4045 * 255 {
        proof {
            assert(200 * channel * maximum <= 2000 * maximum) by (nonlinear_arith)
                requires
                    channel <= 10,
            ;
        }
        let wide: u64 = 200 * (channel as u64) * (maximum as u64) + 329460;
        return (wide / 658920) as u32;
    }
    if maximum == 0 {
        proof {
            lemma_power_positive(curve_denominator(), 12);
            assert(power(0, 5) == 0) by {
                reveal_with_fuel(power, 6);
            }
            assert(power(1, 5) == 1) by {
                reveal_with_fuel(power, 6);
            }
            let lit = power(curve_numerator(channel), 12) * power(2 * maximum, 5);
            assert(lit == 0) by (nonlinear_arith)
                requires
                    lit == power(curve_numerator(channel), 12) * power(2 * maximum, 5),
                    power(2 * maximum, 5) == 0,
            ;
            assert(power(curve_denominator(), 12) * power(1, 5) >= 1);
            assert(curve_rounds_to(channel, maximum, 0));
        }
        return 0;
    }
    let x: u64 = 1000 * (channel as u64) + 14025;
    let top: u64 = 2 * (maximum as u64);
    proof {
        lemma_curve_bounds();
        lemma_power_monotone(x as int, curve_denominator(), 12);
        lemma_power_monotone(top as int, 0x2_0000_0000, 5);
        lemma_power_nonnegative(x as int, 12);
        lemma_power_nonnegative(top as int, 5);
        lemma_power_positive(0x2_0000_0000, 5);
        assert(power(x as int, 12) * power(top as int, 5) <= power(curve_denominator(), 12)
            * power(0x2_0000_0000, 5)) by (nonlinear_arith)
            requires
                0 <= power(x as int, 12) <= power(curve_denominator(), 12),
                0 <= power(top as int, 5) <= power(0x2_0000_0000, 5),
        ;
        assert(power(x as int, 12) <= power(curve_denominator(), 12) * power(0x2_0000_0000, 5))
            by (nonlinear_arith)
            requires
                0 <= power(x as int, 12) <= power(curve_denominator(), 12),
                1 <= power(0x2_0000_0000, 5),
        ;
        assert(power(curve_denominator(), 12) * 1 <= power(curve_denominator(), 12) * power(
            0x2_0000_0000,
            5,
        )) by (nonlinear_arith)
            requires
                0 <= power(x as int, 12) <= power(curve_denominator(), 12),
                1 <= power(0x2_0000_0000, 5),
        ;
    }
    let one: Natural = Natural::small(1);
    let lit_base: Natural = times_power(&one, x, 12);
    let lit: Natural = times_power(&lit_base, top, 5);
    let scale: Natural = times_power(&one, 269025, 12);
    let mut low: u32 = 0;
    let mut high: u32 = maximum;
    proof {
        lemma_curve_top(channel, maximum);
    }
    while low < high
        invariant
            lit.wf(),
            scale.wf(),
            lit@ == power(curve_numerator(channel), 12) * power(2 * maximum, 5),
            scale@ == power(curve_denominator(), 12),
            low <= high <= maximum,
            lit@ < scale@ * power(2 * high + 1, 5),
            low == 0 || scale@ * power(2 * low - 1, 5) <= lit@,
        decreases high - low,
    {
        let middle: u32 = low + (high - low) / 2;
        if below_half_step(&lit, &scale, middle) {
            high = middle;
        } else {
            low = middle + 1;
        }
    }
    low
}

/// Whether `lit < scale * (2 n + 1)^5`, that is, whether the curve lies below `n + 1/2`.
fn below_half_step(lit: &Natural, scale: &Natural, n: u32) -> (below: bool)
    requires
        lit.wf(),
        scale.wf(),
        scale@ == power(curve_denominator(), 12),
    ensures
        below == (lit@ < scale@ * power(2 * n + 1, 5)),
{
    let step: u64 = 2 * (n as u64) + 1;
    proof {
        lemma_curve_bounds();
        lemma_power_monotone(step as int, 0x2_0000_0000, 5);
        lemma_power_nonnegative(step as int, 5);
        lemma_power_positive(curve_denominator(), 12);
        assert(scale@ * power(step as int, 5) <= power(curve_denominator(), 12) * power(
            0x2_0000_0000,
            5,
        )) by (nonlinear_arith)
            requires
                scale@ == power(curve_denominator(), 12),
                0 < power(curve_denominator(), 12),
                0 <= power(step as int, 5) <= power(0x2_0000_0000, 5),
        ;
    }
    let bound: Natural = times_power(scale, step, 5);
    lit.less_than(&bound)
}

/// `base * k ^ e`, where it stays below `capacity()`.
fn times_power(base: &Natural, k: u64, e: u64) -> (product: Natural)
    requires
        base.wf(),
        k >= 1,
        base@ * power(k as int, e as nat) < capacity(),
    ensures
        product.wf(),
        product@ == base@ * power(k as int, e as nat),
{
    proof {
        lemma_power_positive(k as int, e as nat);
        assert(base@ * 1 <= base@ * power(k as int, e as nat)) by (nonlinear_arith)
            requires
                power(k as int, e as nat) >= 1,
        ;
    }
    let mut product: Natural = base.times(1);
    let mut j: u64 = 0;
    while j < e
        invariant
            base.wf(),
            product.wf(),
            k >= 1,
            j <= e,
            product@ == base@ * power(k as int, j as nat),
            base@ * power(k as int, e as nat) < capacity(),
        decreases e - j,
    {
        proof {
            lemma_power_grows(k as int, (j + 1) as nat, e as nat);
            lemma_power_nonnegative(k as int, j as nat);
            assert(product@ * k == base@ * power(k as int, (j + 1) as nat)) by (nonlinear_arith)
                requires
                    product@ == base@ * power(k as int, j as nat),
                    power(k as int, (j + 1) as nat) == k * power(k as int, j as nat),
            ;
            assert(base@ * power(k as int, (j + 1) as nat) <= base@ * power(k as int, e as nat))
                by (nonlinear_arith)
                requires
                    power(k as int, (j + 1) as nat) <= power(k as int, e as nat),
            ;
        }
        product = product.times(k);
        j = j + 1;
    }
    product
}

/// The brightness percentage `percent` on a scale whose top is `maximum`.
pub fn scale(percent: u8, maximum: u32) -> (level: u32)
    ensures
        level == #[verifier::truncate] (scaled(percent, maximum) as u32),
        percent <= 100 ==> level == scaled(percent, maximum),
{
    proof {
        assert(percent * maximum <= 255 * 0xffff_ffff) by (nonlinear_arith)
            requires
                percent <= 255,
                maximum <= 0xffff_ffff,
        ;
    }
    let wide: u64 = (percent as u64) * (maximum as u64) + 50;
    let level: u32 = #[verifier::truncate] ((wide / 100) as u32);
    proof {
        if percent <= 100 {
            assert(percent * maximum <= 100 * maximum) by (nonlinear_arith)
                requires
                    percent <= 100,
            ;
        }
    }
    level
}

/// There is exactly one linear light for each channel and top: on the curve, only one
/// integer lies within half a step of `maximum * ((c / 255 + 0.055) / 1.055) ^ 2.4`.
pub proof fn law_gamma_level_is_unique(c: u8, maximum: u32, n1: int, n2: int)
    requires
        is_gamma_level(c, maximum, n1),
    ensures
        is_gamma_level(c, maximum, n2) ==> n1 == n2,
        gamma_value(c, maximum) == n1,
{
    assert forall|a: int, b: int|
        is_gamma_level(c, maximum, a) && is_gamma_level(c, maximum, b) implies a == b by {
        if !on_linear_segment(c) {
            if a < b {
                lemma_curve_rounding_order(c, maximum, a, b);
            }
            if b < a {
                lemma_curve_rounding_order(c, maximum, b, a);
            }
        }
    }
    assert(is_gamma_level(c, maximum, gamma_value(c, maximum)));
}

proof fn lemma_curve_rounding_order(c: u8, maximum: u32, low: int, high: int)
    requires
        low < high,
        curve_rounds_to(c, maximum, low),
    ensures
        !curve_rounds_to(c, maximum, high),
{
    let q = power(curve_denominator(), 12);
    lemma_power_positive(curve_denominator(), 12);
    lemma_power_monotone(2 * low + 1, 2 * high - 1, 5);
    assert(q * power(2 * low + 1, 5) <= q * power(2 * high - 1, 5)) by (nonlinear_arith)
        requires
            q >= 1,
            power(2 * low + 1, 5) <= power(2 * high - 1, 5),
    ;
}

/// A black channel gives no light, and a full channel the whole scale.
pub proof fn law_gamma_endpoints(maximum: u32)
    ensures
        gamma_value(0, maximum) == 0,
        gamma_value(255, maximum) == maximum,
{
    assert(linear_level(0, maximum) == 0) by (nonlinear_arith);
    assert(is_gamma_level(0, maximum, 0));
    law_gamma_level_is_unique(0, maximum, 0, 0);
    let top = 2 * maximum;
    lemma_power_positive(curve_denominator(), 12);
    lemma_power_strictly_monotone(top as int, top + 1, 5);
    if maximum > 0 {
        lemma_power_monotone(top - 1, top as int, 5);
    }
    let q = power(curve_denominator(), 12);
    assert(q * power(top as int, 5) < q * power(top + 1, 5)) by (nonlinear_arith)
        requires
            q >= 1,
            power(top as int, 5) < power(top + 1, 5),
    ;
    if maximum > 0 {
        assert(q * power(top - 1, 5) <= q * power(top as int, 5)) by (nonlinear_arith)
            requires
                q >= 1,
                power(top - 1, 5) <= power(top as int, 5),
        ;
    }
    assert(curve_numerator(255) == curve_denominator());
    assert(is_gamma_level(255, maximum, maximum as int));
    law_gamma_level_is_unique(255, maximum, maximum as int, maximum as int);
}

/// The brightness level is the percentage of the top rounded to the nearest step,
/// halves up: `100 * level` lies within half a hundred of `percent * maximum`.
pub proof fn law_scale_is_nearest(percent: u8, maximum: u32)
    requires
        percent <= 100,
    ensures
        100 * scaled(percent, maximum) <= percent * maximum + 50 < 100 * scaled(percent, maximum)
            + 100,
        0 <= scaled(percent, maximum) <= maximum,
{
    assert(percent * maximum <= 100 * maximum) by (nonlinear_arith)
        requires
            percent <= 100,
    ;
}

/// On the straight segment the level is the integer nearest to
/// `maximum * (c / 255) / 12.92`: `329460 * level` lies within half of 329460 of
/// `100 * c * maximum`.
pub proof fn law_linear_level_is_nearest(c: u8, maximum: u32)
    requires
        c * 100000 <= 4045 * 255,
    ensures
        2 * 329460 * gamma_value(c, maximum) <= 200 * c * maximum + 329460 < 2 * 329460
            * gamma_value(c, maximum) + 2 * 329460,
{
    law_gamma_level_exists(c, maximum);
    let a = 2 * 100 * c * maximum + 255 * 1292;
    let n = gamma_value(c, maximum);
    assert(n == a / 658920);
    assert(658920 * n <= a < 658920 * n + 658920) by (nonlinear_arith)
        requires
            n == a / 658920,
            a >= 0,
    ;
}

/// A full percentage gives the whole scale, and zero gives none; a larger percentage
/// never gives a lower level.
pub proof fn law_scale_endpoints_and_order(p1: u8, p2: u8, maximum: u32)
    requires
        p1 <= p2 <= 100,
    ensures
        scaled(100, maximum) == maximum,
        scaled(0, maximum) == 0,
        scaled(p1, maximum) <= scaled(p2, maximum),
{
    assert(p1 * maximum <= p2 * maximum) by (nonlinear_arith)
        requires
            p1 <= p2,
    ;
    assert((p1 * maximum + 50) / 100 <= (p2 * maximum + 50) / 100) by (nonlinear_arith)
        requires
            p1 * maximum <= p2 * maximum,
    ;
}

/// Every channel and top have a linear light: the curve segment has a nearest
/// integer.
pub proof fn law_gamma_level_exists(c: u8, maximum: u32)
    ensures
        is_gamma_level(c, maximum, gamma_value(c, maximum)),
{
    if !on_linear_segment(c) {
        lemma_curve_top(c, maximum);
        lemma_least_curve_level(c, maximum, 0);
    } else {
        assert(is_gamma_level(c, maximum, linear_level(c, maximum)));
    }
}

/// Some `n >= k` rounds the curve, where none below `k` lies above `n + 1/2`.
proof fn lemma_least_curve_level(c: u8, maximum: u32, k: nat)
    requires
        !on_linear_segment(c),
        k <= maximum,
        k == 0 || power(curve_denominator(), 12) * power(2 * k - 1, 5) <= power(
            curve_numerator(c),
            12,
        ) * power(2 * maximum, 5),
        power(curve_numerator(c), 12) * power(2 * maximum, 5) < power(curve_denominator(), 12)
            * power(2 * maximum + 1, 5),
    ensures
        exists|n: int| is_gamma_level(c, maximum, n),
    decreases maximum - k,
{
    if power(curve_numerator(c), 12) * power(2 * maximum, 5) < power(curve_denominator(), 12)
        * power(2 * k as int + 1, 5) {
        assert(is_gamma_level(c, maximum, k as int));
    } else {
        lemma_least_curve_level(c, maximum, k + 1);
    }
}

/// A brighter channel never gets a lower level.
pub proof fn law_gamma_never_dims(c1: u8, c2: u8, maximum: u32)
    requires
        c1 <= c2,
    ensures
        gamma_value(c1, maximum) <= gamma_value(c2, maximum),
{
    law_gamma_level_exists(c1, maximum);
    law_gamma_level_exists(c2, maximum);
    let n1 = gamma_value(c1, maximum);
    let n2 = gamma_value(c2, maximum);
    if on_linear_segment(c2) {
        assert(200 * c1 * maximum <= 200 * c2 * maximum) by (nonlinear_arith)
            requires
                c1 <= c2,
        ;
        let a1 = 2 * 100 * c1 * maximum + 255 * 1292;
        let a2 = 2 * 100 * c2 * maximum + 255 * 1292;
        assert(a1 / 658920 <= a2 / 658920) by (nonlinear_arith)
            requires
                0 <= a1 <= a2,
        ;
        assert(on_linear_segment(c1));
        assert(n1 == a1 / 658920);
        assert(n2 == a2 / 658920);
    } else if !on_linear_segment(c1) {
        if n1 > n2 {
            let q = power(curve_denominator(), 12);
            lemma_power_positive(curve_denominator(), 12);
            lemma_power_monotone(curve_numerator(c1), curve_numerator(c2), 12);
            lemma_power_nonnegative(curve_numerator(c1), 12);
            lemma_power_nonnegative(2 * maximum, 5);
            lemma_power_monotone(2 * n2 + 1, 2 * n1 - 1, 5);
            let l1 = power(curve_numerator(c1), 12) * power(2 * maximum, 5);
            let l2 = power(curve_numerator(c2), 12) * power(2 * maximum, 5);
            assert(l1 <= l2) by (nonlinear_arith)
                requires
                    0 <= power(curve_numerator(c1), 12) <= power(curve_numerator(c2), 12),
                    0 <= power(2 * maximum, 5),
                    l1 == power(curve_numerator(c1), 12) * power(2 * maximum, 5),
                    l2 == power(curve_numerator(c2), 12) * power(2 * maximum, 5),
            ;
            assert(q * power(2 * n2 + 1, 5) <= q * power(2 * n1 - 1, 5)) by (nonlinear_arith)
                requires
                    q >= 1,
                    power(2 * n2 + 1, 5) <= power(2 * n1 - 1, 5),
            ;
        }
    } else if maximum > 0 {
        lemma_linear_below_curve(c1, c2, maximum, n1, n2);
    } else {
        assert(2 * 100 * c1 * maximum == 0) by (nonlinear_arith)
            requires
                maximum == 0,
        ;
        assert(n1 == linear_level(c1, maximum));
        assert(linear_level(c1, maximum) == 329460int / 658920int);
    }
}

/// A larger top never gives a channel a lower level.
pub proof fn law_gamma_grows_with_maximum(c: u8, m1: u32, m2: u32)
    requires
        m1 <= m2,
    ensures
        gamma_value(c, m1) <= gamma_value(c, m2),
{
    law_gamma_level_exists(c, m1);
    law_gamma_level_exists(c, m2);
    let n1 = gamma_value(c, m1);
    let n2 = gamma_value(c, m2);
    if on_linear_segment(c) {
        let a1 = 2 * 100 * c * m1 + 255 * 1292;
        let a2 = 2 * 100 * c * m2 + 255 * 1292;
        assert(200 * c * m1 <= 200 * c * m2) by (nonlinear_arith)
            requires
                m1 <= m2,
        ;
        assert(a1 / 658920 <= a2 / 658920) by (nonlinear_arith)
            requires
                0 <= a1 <= a2,
        ;
        assert(n1 == a1 / 658920);
        assert(n2 == a2 / 658920);
    } else if n1 > n2 {
        let q = power(curve_denominator(), 12);
        let x = power(curve_numerator(c), 12);
        lemma_power_positive(curve_denominator(), 12);
        lemma_power_nonnegative(curve_numerator(c), 12);
        lemma_power_monotone(2 * m1, 2 * m2, 5);
        lemma_power_nonnegative(2 * m1, 5);
        lemma_power_monotone(2 * n2 + 1, 2 * n1 - 1, 5);
        assert(x * power(2 * m1, 5) <= x * power(2 * m2, 5)) by (nonlinear_arith)
            requires
                x >= 0,
                power(2 * m1, 5) <= power(2 * m2, 5),
        ;
        assert(q * power(2 * n2 + 1, 5) <= q * power(2 * n1 - 1, 5)) by (nonlinear_arith)
            requires
                q >= 1,
                power(2 * n2 + 1, 5) <= power(2 * n1 - 1, 5),
        ;
    }
}

/// The straight segment ends below where the curve starts: a level on the straight
/// segment never exceeds one on the curve.
proof fn lemma_linear_below_curve(c1: u8, c2: u8, maximum: u32, n1: int, n2: int)
    requires
        on_linear_segment(c1),
        !on_linear_segment(c2),
        maximum > 0,
        n1 == linear_level(c1, maximum),
        curve_rounds_to(c2, maximum, n2),
    ensures
        n1 <= n2,
{
    if n1 > n2 {
        let m = maximum as int;
        let a = 2 * n2 + 1;
        assert(658920 * n1 <= 200 * c1 * m + 329460) by (nonlinear_arith)
            requires
                n1 == (2 * 100 * c1 * m + 255 * 1292) / (2 * 255 * 1292 as int),
        ;
        assert(200 * c1 * m <= 2000 * m) by (nonlinear_arith)
            requires
                c1 <= 10,
                m > 0,
        ;
        assert(32946 * a <= 200 * m);
        let m5 = power(m, 5);
        let a5 = power(a, 5);
        let x5 = power(curve_numerator(c2), 12);
        let p1 = power(25025, 12);
        let p2 = power(32946, 5);
        let p3 = power(200, 5);
        let q = power(curve_denominator(), 12);
        lemma_power_monotone(32946 * a, 200 * m, 5);
        lemma_power_product(32946, a, 5);
        lemma_power_product(200, m, 5);
        lemma_power_product(2, m, 5);
        lemma_power_monotone(25025, curve_numerator(c2), 12);
        lemma_power_nonnegative(m, 5);
        lemma_power_nonnegative(a, 5);
        assert(power(2, 5) == 32) by {
            reveal_with_fuel(power, 6);
        }
        assert(p1 == 60323847561823900031596137289167165815830230712890625) by {
            reveal_with_fuel(power, 13);
        }
        assert(p2 == 38816240539539585074976) by {
            reveal_with_fuel(power, 6);
        }
        assert(p3 == 320000000000) by {
            reveal_with_fuel(power, 6);
        }
        assert(q == 143718170736715179673922499054650690394393835706770420074462890625) by {
            reveal_with_fuel(power, 13);
        }
        // The curve: x^12 (2m)^5 < q a^5; the straight segment: 32946^5 a^5 <= 200^5 m^5.
        assert(x5 * (32 * m5) < q * a5);
        assert(p2 * a5 <= p3 * m5);
        assert(p1 <= x5);
        assert(p2 * (x5 * (32 * m5)) < p2 * (q * a5)) by (nonlinear_arith)
            requires
                x5 * (32 * m5) < q * a5,
                p2 > 0,
        ;
        assert(p2 * (q * a5) <= q * (p3 * m5)) by (nonlinear_arith)
            requires
                p2 * a5 <= p3 * m5,
                q > 0,
        ;
        assert(q * (p3 * m5) <= 32 * p1 * p2 * m5) by (nonlinear_arith)
            requires
                q * p3 <= 32 * p1 * p2,
                m5 >= 0,
        ;
        assert(32 * p1 * p2 * m5 <= p2 * (x5 * (32 * m5))) by (nonlinear_arith)
            requires
                p1 <= x5,
                p2 > 0,
                m5 >= 0,
        ;
    }
}

/// The power of a product is the product of the powers.
proof fn lemma_power_product(a: int, b: int, exp: nat)
    ensures
        power(a * b, exp) == power(a, exp) * power(b, exp),
    decreases exp,
{
    if exp > 0 {
        let e = (exp - 1) as nat;
        lemma_power_product(a, b, e);
        assert(a * b * (power(a, e) * power(b, e)) == (a * power(a, e)) * (b * power(b, e)))
            by (nonlinear_arith);
    }
}

proof fn lemma_curve_bounds()
    ensures
        power(curve_denominator(), 12) * power(0x2_0000_0000, 5) < capacity(),
{
    reveal_with_fuel(power, 13);
    reveal_with_fuel(crate::natural::weight, 8);
    assert(power(curve_denominator(), 12)
        == 143718170736715179673922499054650690394393835706770420074462890625);
    assert(power(0x2_0000_0000, 5) == 46768052394588893382517914646921056628989841375232);
    assert(capacity()
        == 726838724295606890549323807888004534353641360687318060281490199180639288113397923326191050713763565560762521606266177933534601628614656);
}

proof fn lemma_power_nonnegative(base: int, exp: nat)
    requires
        base >= 0,
    ensures
        power(base, exp) >= 0,
    decreases exp,
{
    if exp > 0 {
        lemma_power_nonnegative(base, (exp - 1) as nat);
        assert(base * power(base, (exp - 1) as nat) >= 0) by (nonlinear_arith)
            requires
                base >= 0,
                power(base, (exp - 1) as nat) >= 0,
        ;
    }
}

proof fn lemma_power_positive(base: int, exp: nat)
    requires
        base >= 1,
    ensures
        power(base, exp) >= 1,
    decreases exp,
{
    if exp > 0 {
        lemma_power_positive(base, (exp - 1) as nat);
        assert(base * power(base, (exp - 1) as nat) >= 1) by (nonlinear_arith)
            requires
                base >= 1,
                power(base, (exp - 1) as nat) >= 1,
        ;
    }
}

/// A larger base gives a larger power.
proof fn lemma_power_monotone(a: int, b: int, exp: nat)
    requires
        0 <= a <= b,
    ensures
        power(a, exp) <= power(b, exp),
    decreases exp,
{
    if exp > 0 {
        let e = (exp - 1) as nat;
        lemma_power_monotone(a, b, e);
        lemma_power_nonnegative(a, e);
        assert(a * power(a, e) <= b * power(b, e)) by (nonlinear_arith)
            requires
                0 <= a <= b,
                0 <= power(a, e) <= power(b, e),
        ;
    }
}

/// A strictly larger base gives a strictly larger positive power.
proof fn lemma_power_strictly_monotone(a: int, b: int, exp: nat)
    requires
        0 <= a < b,
        exp >= 1,
    ensures
        power(a, exp) < power(b, exp),
    decreases exp,
{
    let e = (exp - 1) as nat;
    lemma_power_monotone(a, b, e);
    lemma_power_nonnegative(a, e);
    lemma_power_positive(b, e);
    assert(a * power(a, e) < b * power(b, e)) by (nonlinear_arith)
        requires
            0 <= a < b,
            0 <= power(a, e) <= power(b, e),
            power(b, e) >= 1,
    ;
}

/// A larger exponent of a base of at least one gives a larger power.
proof fn lemma_power_grows(base: int, e1: nat, e2: nat)
    requires
        base >= 1,
        e1 <= e2,
    ensures
        power(base, e1) <= power(base, e2),
    decreases e2,
{
    if e1 < e2 {
        let e = (e2 - 1) as nat;
        lemma_power_grows(base, e1, e);
        lemma_power_positive(base, e);
        assert(power(base, e) <= base * power(base, e)) by (nonlinear_arith)
            requires
                base >= 1,
                power(base, e) >= 1,
        ;
    }
}

/// At `maximum` itself the curve lies below `maximum + 1/2`.
proof fn lemma_curve_top(c: u8, maximum: u32)
    ensures
        power(curve_numerator(c), 12) * power(2 * maximum, 5) < power(curve_denominator(), 12)
            * power(2 * maximum + 1, 5),
{
    let p = power(curve_numerator(c), 12);
    let q = power(curve_denominator(), 12);
    let r = power(2 * maximum, 5);
    let s = power(2 * maximum + 1, 5);
    lemma_power_monotone(curve_numerator(c), curve_denominator(), 12);
    lemma_power_nonnegative(curve_numerator(c), 12);
    lemma_power_positive(curve_denominator(), 12);
    lemma_power_nonnegative(2 * maximum, 5);
    lemma_power_strictly_monotone(2 * maximum, 2 * maximum + 1, 5);
    assert(p * r < q * s) by (nonlinear_arith)
        requires
            0 <= p <= q,
            q >= 1,
            0 <= r < s,
    ;
}

} // verus!
