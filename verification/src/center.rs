//! Colors, cluster centers and exact squared distances.
//!
//! A center is a point of color space with rational coordinates: per channel a sum of channel
//! values over a common weight. The mean of a set of pixels is their channel sums over their
//! number, so no rounding ever takes place; distances are fractions and are ordered by cross
//! multiplication.

use vstd::prelude::*;
use crate::wide::{product_lt, product_eq};

verus! {

/// A pixel: red, green and blue, eight bits each.
pub type Color = [u8; 3];

/// The most pixels that one population may hold.
pub const MAX_PIXELS: usize = 0xFFFF_FFFF;

/// The greatest palette size.
pub const MAX_COLORS: usize = 256;

/// The greatest weight of a center: `MAX_PIXELS * MAX_COLORS`.
pub const MAX_WEIGHT: u64 = 0xFF_FFFF_FF00;

/// The point whose coordinate in channel `c` is `sum[c] / weight`.
#[derive(Clone, Copy, Debug)]
pub struct Center {
    pub sum: [u64; 3],
    pub weight: u64,
}

/// A squared distance: the fraction `num / den`.
#[derive(Clone, Copy, Debug)]
pub struct Distance {
    pub num: u128,
    pub den: u128,
}

/// The square of `x`.
pub open spec fn sq(x: int) -> int {
    x * x
}

impl Center {
    /// The weight is positive and bounded, and every coordinate lies in `0..=255`.
    pub open spec fn wf(self) -> bool {
        &&& 1 <= self.weight <= MAX_WEIGHT
        &&& self.sum[0] <= 255 * self.weight
        &&& self.sum[1] <= 255 * self.weight
        &&& self.sum[2] <= 255 * self.weight
    }

    /// `weight` times the signed distance from `p` to this point along channel `c`.
    pub open spec fn offset(self, p: Color, c: int) -> int {
        self.sum[c] - self.weight * p[c]
    }

    /// `weight` squared times the squared distance from `p` to this point.
    pub open spec fn spread(self, p: Color) -> int {
        sq(self.offset(p, 0)) + sq(self.offset(p, 1)) + sq(self.offset(p, 2))
    }

    /// The squared distance from `p` to this point.
    pub open spec fn distance_spec(self, p: Color) -> Distance {
        Distance { num: self.spread(p) as u128, den: (self.weight * self.weight) as u128 }
    }

    /// The two centers are the same point of color space.
    pub open spec fn same_point(self, other: Center) -> bool {
        &&& self.sum[0] * other.weight == other.sum[0] * self.weight
        &&& self.sum[1] * other.weight == other.sum[1] * self.weight
        &&& self.sum[2] * other.weight == other.sum[2] * self.weight
    }

    /// The color itself, as a center of weight one.
    pub open spec fn of_color(p: Color) -> Center {
        Center { sum: [p[0] as u64, p[1] as u64, p[2] as u64], weight: 1 }
    }

    /// The coordinates, each rounded down to a whole number.
    pub open spec fn floor(self) -> Seq<int> {
        seq![
            self.sum[0] as int / self.weight as int,
            self.sum[1] as int / self.weight as int,
            self.sum[2] as int / self.weight as int,
        ]
    }
}

/// The center `a` lies strictly nearer to the color `p` than the center `b` does.
pub open spec fn nearer(a: Center, b: Center, p: Color) -> bool {
    a.spread(p) * sq(b.weight as int) < b.spread(p) * sq(a.weight as int)
}

impl Distance {
    /// The denominator is positive.
    pub open spec fn wf(self) -> bool {
        self.den > 0
    }

    /// `self` is strictly less than `other`, as fractions.
    pub open spec fn less(self, other: Distance) -> bool {
        self.num * other.den < other.num * self.den
    }

    /// `self` and `other` are the same fraction.
    pub open spec fn same(self, other: Distance) -> bool {
        self.num * other.den == other.num * self.den
    }

    /// Whether `self` is strictly less than `other`.
    pub fn lt(&self, other: &Distance) -> (r: bool)
        ensures
            r == self.less(*other),
    {
        product_lt(self.num, other.den, other.num, self.den)
    }

    /// Whether the two distances are equal as fractions.
    pub fn eq(&self, other: &Distance) -> (r: bool)
        ensures
            r == self.same(*other),
    {
        product_eq(self.num, other.den, other.num, self.den)
    }
}

/// On distances with a positive denominator, `less` is a strict total order: it agrees with
/// the order of the fractions, so no distance is less than itself, of two that are not the
/// same fraction exactly one is less than the other, and `less` is transitive.
pub proof fn lemma_less_is_total_order(a: Distance, b: Distance, c: Distance)
    requires
        a.wf(),
        b.wf(),
        c.wf(),
    ensures
        !a.less(a),
        a.less(b) || b.less(a) || a.same(b),
        !(a.less(b) && b.less(a)),
        !(a.less(b) && a.same(b)),
        a.less(b) && b.less(c) ==> a.less(c),
        a.same(b) && b.less(c) ==> a.less(c),
        a.less(b) && b.same(c) ==> a.less(c),
        a.same(b) && b.same(c) ==> a.same(c),
{
    let (an, ad) = (a.num as int, a.den as int);
    let (bn, bd) = (b.num as int, b.den as int);
    let (cn, cd) = (c.num as int, c.den as int);
    let ac = an * cd;
    let ca = cn * ad;
    let ab = an * bd;
    let ba = bn * ad;
    let bc = bn * cd;
    let cb = cn * bd;
    // ac * bd == ab * cd,  ba * cd == bc * ad,  cb * ad == ca * bd
    assert(ac * bd == ab * cd) by (nonlinear_arith)
        requires
            ac == an * cd,
            ab == an * bd,
    ;
    assert(ba * cd == bc * ad) by (nonlinear_arith)
        requires
            ba == bn * ad,
            bc == bn * cd,
    ;
    assert(cb * ad == ca * bd) by (nonlinear_arith)
        requires
            cb == cn * bd,
            ca == cn * ad,
    ;
    assert(ab < ba ==> ab * cd < ba * cd) by (nonlinear_arith)
        requires
            cd > 0,
    ;
    assert(ab == ba ==> ab * cd == ba * cd) by (nonlinear_arith);
    assert(bc < cb ==> bc * ad < cb * ad) by (nonlinear_arith)
        requires
            ad > 0,
    ;
    assert(bc == cb ==> bc * ad == cb * ad) by (nonlinear_arith);
    assert(ac * bd < ca * bd ==> ac < ca) by (nonlinear_arith)
        requires
            bd > 0,
    ;
    assert(ac * bd == ca * bd ==> ac == ca) by (nonlinear_arith)
        requires
            bd > 0,
    ;
}

/// The square of `x`.
pub fn sqr(x: u64) -> (r: u128)
    ensures
        r == sq(x as int),
{
    assert(0 <= x * x <= 0xffff_ffff_ffff_ffff * 0xffff_ffff_ffff_ffff) by (nonlinear_arith)
        requires
            0 <= x <= 0xffff_ffff_ffff_ffff,
    ;
    (x as u128) * (x as u128)
}

proof fn lemma_sq_bound(x: int, bound: int)
    requires
        -bound <= x <= bound,
    ensures
        0 <= sq(x) <= bound * bound,
        sq(x) == sq(-x),
{
    assert(0 <= x * x <= bound * bound) by (nonlinear_arith)
        requires
            -bound <= x <= bound,
    ;
    assert(x * x == (-x) * (-x)) by (nonlinear_arith);
}

proof fn lemma_weighted_channel(w: int, p: int)
    requires
        0 <= w <= MAX_WEIGHT,
        0 <= p <= 255,
    ensures
        0 <= w * p <= 255 * w,
        255 * w <= 255 * MAX_WEIGHT,
{
    assert(0 <= w * p <= 255 * w) by (nonlinear_arith)
        requires
            0 <= w,
            0 <= p <= 255,
    ;
}

/// `weight` times the distance from `p` to the coordinate `sum / weight`, squared.
fn channel_spread(sum: u64, weight: u64, p: u8) -> (r: u128)
    requires
        weight <= MAX_WEIGHT,
        sum <= 255 * weight,
    ensures
        r == sq(sum - weight * p),
        r <= (255 * MAX_WEIGHT) * (255 * MAX_WEIGHT),
{
    proof {
        lemma_weighted_channel(weight as int, p as int);
        lemma_sq_bound(sum - weight * p, 255 * MAX_WEIGHT);
    }
    let at: u64 = weight * (p as u64);
    if sum >= at {
        sqr(sum - at)
    } else {
        sqr(at - sum)
    }
}

/// The spread of a valid center is at most three times the square of 255 weights.
pub proof fn lemma_spread_bound(m: Center, p: Color)
    requires
        m.wf(),
    ensures
        0 <= m.spread(p) <= 3 * ((255 * m.weight) * (255 * m.weight)),
{
    let b = 255 * m.weight;
    lemma_weighted_channel(m.weight as int, p[0] as int);
    lemma_weighted_channel(m.weight as int, p[1] as int);
    lemma_weighted_channel(m.weight as int, p[2] as int);
    lemma_sq_bound(m.offset(p, 0), b);
    lemma_sq_bound(m.offset(p, 1), b);
    lemma_sq_bound(m.offset(p, 2), b);
}

/// The squared distance from the color `c` to the center `fc`.
pub fn distance(fc: &Center, c: &Color) -> (d: Distance)
    requires
        fc.wf(),
    ensures
        d == fc.distance_spec(*c),
        d.wf(),
        d.num == fc.spread(*c),
        d.den == fc.weight * fc.weight,
{
    let r0 = channel_spread(fc.sum[0], fc.weight, c[0]);
    let r1 = channel_spread(fc.sum[1], fc.weight, c[1]);
    let r2 = channel_spread(fc.sum[2], fc.weight, c[2]);
    assert((255 * 0xFF_FFFF_FF00int) * (255 * 0xFF_FFFF_FF00int)
        <= 0x1_0000_0000_0000_0000_0000_0000);
    assert(1 <= fc.weight * fc.weight <= MAX_WEIGHT * MAX_WEIGHT) by (nonlinear_arith)
        requires
            1 <= fc.weight <= MAX_WEIGHT,
    ;
    Distance { num: r0 + r1 + r2, den: (fc.weight as u128) * (fc.weight as u128) }
}

impl Center {
    /// The center of weight one at the color `p`.
    pub fn from_color(p: &Color) -> (r: Center)
        ensures
            r == Center::of_color(*p),
            r.wf(),
            r.weight == 1,
            r.sum[0] == p[0],
            r.sum[1] == p[1],
            r.sum[2] == p[2],
    {
        Center { sum: [p[0] as u64, p[1] as u64, p[2] as u64], weight: 1 }
    }

    /// Whether the two centers are the same point.
    pub fn coincides(&self, other: &Center) -> (r: bool)
        ensures
            r == self.same_point(*other),
    {
        product_eq(self.sum[0] as u128, other.weight as u128, other.sum[0] as u128, self.weight as u128)
            && product_eq(
            self.sum[1] as u128,
            other.weight as u128,
            other.sum[1] as u128,
            self.weight as u128,
        ) && product_eq(
            self.sum[2] as u128,
            other.weight as u128,
            other.sum[2] as u128,
            self.weight as u128,
        )
    }

    /// The color at the coordinates rounded down.
    pub fn to_color(&self) -> (r: Color)
        requires
            self.wf(),
        ensures
            r[0] == self.floor()[0],
            r[1] == self.floor()[1],
            r[2] == self.floor()[2],
    {
        let c0 = channel_floor(self.sum[0], self.weight);
        let c1 = channel_floor(self.sum[1], self.weight);
        let c2 = channel_floor(self.sum[2], self.weight);
        [c0, c1, c2]
    }
}

fn channel_floor(sum: u64, weight: u64) -> (r: u8)
    requires
        weight >= 1,
        sum <= 255 * weight,
    ensures
        r == sum as int / weight as int,
{
    let q: u64 = sum / weight;
    assert(q <= 255) by (nonlinear_arith)
        requires
            weight >= 1,
            sum <= 255 * weight,
            q == sum as int / weight as int,
    ;
    q as u8
}

} // verus!
