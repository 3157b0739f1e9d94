//! Why the rounds come to an end.
//!
//! Every coordinate of every mean is a fraction whose denominator is at most `MAX_WEIGHT`, so
//! all of them are whole multiples of one small unit. Measured in that unit, the squared
//! distances from the pixels to their nearest means add up to a natural number, the potential.
//! A round that moves a mean makes it strictly smaller, so only finitely many rounds move one.

use vstd::prelude::*;
use vstd::arithmetic::div_mod::lemma_div_by_multiple;
use crate::center::{nearer, sq, Center, Color, MAX_PIXELS, MAX_WEIGHT};
use crate::iter_utils::{lemma_scan_pick_first_optimum, strict_weak_order_on};
use crate::kmeans::{
    all_wf, lemma_step_wf, lemma_tally_bounds, nearest, next_mean, settled, step, tally, total,
    yields_to,
};

verus! {

/// The product of the numbers from 1 to `n`.
pub open spec fn factorial(n: nat) -> nat
    decreases n,
{
    if n == 0 {
        1
    } else {
        n * factorial((n - 1) as nat)
    }
}

/// Every number from 1 to `n` divides the product of them all.
pub proof fn lemma_factorial_multiple(n: nat, w: int)
    requires
        1 <= w <= n,
    ensures
        factorial(n) >= 1,
        (factorial(n) as int / w) * w == factorial(n),
        factorial(n) as int / w >= 1,
    decreases n,
{
    let below = factorial((n - 1) as nat) as int;
    if n == 1 {
        assert(factorial(0) == 1);
        assert(factorial(1) == 1 * factorial(0));
    } else {
        if w < n {
            lemma_factorial_multiple((n - 1) as nat, w);
        } else {
            lemma_factorial_multiple((n - 1) as nat, 1);
        }
        assert(below >= 1);
    }
    let all = factorial(n) as int;
    assert(all == n * below);
    assert(all >= 1) by (nonlinear_arith)
        requires
            all == n * below,
            n >= 1,
            below >= 1,
    ;
    if w == n {
        lemma_div_by_multiple(below, w);
        assert(below * w == all) by (nonlinear_arith)
            requires
                all == n * below,
                w == n,
        ;
    } else {
        let q = below / w;
        assert(q * w == below);
        assert((n * q) * w == all) by (nonlinear_arith)
            requires
                q * w == below,
                all == n * below,
        ;
        assert(n * q >= 0) by (nonlinear_arith)
            requires
                n >= 1,
                q >= 1,
        ;
        lemma_div_by_multiple(n * q, w);
    }
    let q = all / w;
    assert(q >= 1) by (nonlinear_arith)
        requires
            q * w == all,
            all >= 1,
            w >= 1,
    ;
}

/// The number of units in one step of a channel: a common multiple of all weights.
pub open spec fn unit() -> int {
    factorial(MAX_WEIGHT as nat) as int
}

/// The number of units in a step of `1 / m.weight`.
pub open spec fn scale(m: Center) -> int {
    unit() / (m.weight as int)
}

/// The coordinate of `m` in channel `c`, in units.
pub open spec fn coord(m: Center, c: int) -> int {
    m.sum[c] * scale(m)
}

/// The squared distance from `p` to `m`, in units squared.
pub open spec fn reach(m: Center, p: Color) -> int {
    sq(coord(m, 0) - unit() * p[0]) + sq(coord(m, 1) - unit() * p[1]) + sq(
        coord(m, 2) - unit() * p[2],
    )
}

/// The scale of a valid center is a whole number of units: the unit is a multiple of every
/// weight.
pub proof fn lemma_scale(m: Center)
    requires
        m.wf(),
    ensures
        scale(m) >= 1,
        scale(m) * m.weight == unit(),
        unit() >= 1,
{
    lemma_factorial_multiple(MAX_WEIGHT as nat, m.weight as int);
}

proof fn lemma_gap(s: int, w: int, g: int, f: int, p: int)
    requires
        g * w == f,
    ensures
        s * g - f * p == (s - w * p) * g,
        sq(s * g - f * p) == sq(s - w * p) * sq(g),
{
    assert(s * g - (g * w) * p == (s - w * p) * g) by (nonlinear_arith);
    let d = s - w * p;
    assert((d * g) * (d * g) == (d * d) * (g * g)) by (nonlinear_arith);
}

/// Measured in units, the squared distance is the spread times the scale squared.
pub proof fn lemma_reach_is_scaled_spread(m: Center, p: Color)
    requires
        m.wf(),
    ensures
        reach(m, p) == m.spread(p) * sq(scale(m)),
        reach(m, p) >= 0,
{
    lemma_scale(m);
    let g = scale(m);
    let w = m.weight as int;
    lemma_gap(m.sum[0] as int, w, g, unit(), p[0] as int);
    lemma_gap(m.sum[1] as int, w, g, unit(), p[1] as int);
    lemma_gap(m.sum[2] as int, w, g, unit(), p[2] as int);
    let a = sq(m.offset(p, 0));
    let b = sq(m.offset(p, 1));
    let c = sq(m.offset(p, 2));
    let k = sq(g);
    assert((a + b + c) * k == a * k + b * k + c * k) by (nonlinear_arith);
    assert(a >= 0 && b >= 0 && c >= 0 && k >= 0) by (nonlinear_arith)
        requires
            a == sq(m.offset(p, 0)),
            b == sq(m.offset(p, 1)),
            c == sq(m.offset(p, 2)),
            k == sq(g),
    ;
    assert(a * k >= 0 && b * k >= 0 && c * k >= 0) by (nonlinear_arith)
        requires
            a >= 0,
            b >= 0,
            c >= 0,
            k >= 0,
    ;
}

/// Two fractions over the weights `wa` and `wb` compare as their numerators do once both are
/// brought over the common multiple `f` of the weights.
pub proof fn lemma_cross_order(x: int, y: int, wa: int, wb: int, ga: int, gb: int, f: int)
    requires
        ga * wa == f,
        gb * wb == f,
        ga >= 1,
        gb >= 1,
        f >= 1,
    ensures
        x * sq(wb) < y * sq(wa) <==> x * sq(ga) < y * sq(gb),
{
    let k = sq(ga) * sq(gb);
    assert(k >= 1) by (nonlinear_arith)
        requires
            k == (ga * ga) * (gb * gb),
            ga >= 1,
            gb >= 1,
    ;
    let ff = f * f;
    assert(ff >= 1) by (nonlinear_arith)
        requires
            ff == f * f,
            f >= 1,
    ;
    // x * wb^2 * ga^2 * gb^2 == (x * ga^2) * f^2
    assert((x * sq(wb)) * k == (x * sq(ga)) * ff) by (nonlinear_arith)
        requires
            k == (ga * ga) * (gb * gb),
            ff == f * f,
            gb * wb == f,
            sq(wb) == wb * wb,
            sq(ga) == ga * ga,
    ;
    assert((y * sq(wa)) * k == (y * sq(gb)) * ff) by (nonlinear_arith)
        requires
            k == (ga * ga) * (gb * gb),
            ff == f * f,
            ga * wa == f,
            sq(wa) == wa * wa,
            sq(gb) == gb * gb,
    ;
    let l = x * sq(wb);
    let r = y * sq(wa);
    let l2 = x * sq(ga);
    let r2 = y * sq(gb);
    assert(l < r <==> l * k < r * k) by (nonlinear_arith)
        requires
            k >= 1,
    ;
    assert(l2 < r2 <==> l2 * ff < r2 * ff) by (nonlinear_arith)
        requires
            ff >= 1,
    ;
}

/// One mean is nearer to a pixel than another exactly when its distance in units is less.
pub proof fn lemma_nearer_is_less_reach(a: Center, b: Center, p: Color)
    requires
        a.wf(),
        b.wf(),
    ensures
        nearer(a, b, p) <==> reach(a, p) < reach(b, p),
{
    lemma_scale(a);
    lemma_scale(b);
    lemma_reach_is_scaled_spread(a, p);
    lemma_reach_is_scaled_spread(b, p);
    lemma_cross_order(
        a.spread(p),
        b.spread(p),
        a.weight as int,
        b.weight as int,
        scale(a),
        scale(b),
        unit(),
    );
}

/// The nearest mean is a valid index, and no mean is nearer: ties go to the first.
pub proof fn lemma_nearest_optimal(means: Seq<Center>, p: Color)
    requires
        means.len() >= 1,
        all_wf(means),
    ensures
        0 <= nearest(means, p) < means.len(),
        forall|j: int|
            0 <= j < means.len() ==> reach(means[nearest(means, p)], p) <= reach(
                #[trigger] means[j],
                p,
            ),
        forall|j: int|
            0 <= j < nearest(means, p) ==> reach(means[nearest(means, p)], p) < reach(
                #[trigger] means[j],
                p,
            ),
{
    let beats = yields_to(p);
    assert forall|i: int, j: int| 0 <= i < means.len() && 0 <= j < means.len() implies (beats(
        means[i],
        means[j],
    ) <==> reach(means[j], p) < reach(means[i], p)) by {
        assert(means[i].wf() && means[j].wf());
        lemma_nearer_is_less_reach(means[j], means[i], p);
    }
    assert(strict_weak_order_on(means, beats));
    lemma_scan_pick_first_optimum(means, beats, means.len() - 1);
    let best = nearest(means, p);
    assert forall|j: int| 0 <= j < means.len() implies reach(means[best], p) <= reach(
        #[trigger] means[j],
        p,
    ) by {
        assert(!beats(means[best], means[j]));
    }
    assert forall|j: int| 0 <= j < best implies reach(means[best], p) < reach(
        #[trigger] means[j],
        p,
    ) by {
        assert(beats(means[j], means[best]));
    }
}

/// The sum, over the pixels, of the squared distance from each to the mean of `at` that has
/// the index of the mean of `means` nearest to it.
pub open spec fn held_cost(means: Seq<Center>, at: Seq<Center>, pixels: Seq<Color>) -> int
    decreases pixels.len(),
{
    if pixels.len() == 0 {
        0
    } else {
        held_cost(means, at, pixels.drop_last()) + reach(
            at[nearest(means, pixels.last())],
            pixels.last(),
        )
    }
}

/// The sum, over the pixels, of the squared distance from each to its nearest mean, in units
/// squared.
pub open spec fn potential(means: Seq<Center>, pixels: Seq<Color>) -> int {
    held_cost(means, means, pixels)
}

/// Pixels lie no farther from their nearest means than from any means chosen for them.
pub proof fn lemma_potential_least(means: Seq<Center>, at: Seq<Center>, pixels: Seq<Color>)
    requires
        means.len() >= 1,
        at.len() == means.len(),
        all_wf(means),
        all_wf(at),
    ensures
        0 <= potential(at, pixels) <= held_cost(means, at, pixels),
    decreases pixels.len(),
{
    if pixels.len() > 0 {
        lemma_potential_least(means, at, pixels.drop_last());
        let p = pixels.last();
        lemma_nearest_optimal(means, p);
        lemma_nearest_optimal(at, p);
        assert(at[nearest(at, p)].wf());
        lemma_reach_is_scaled_spread(at[nearest(at, p)], p);
        assert(reach(at[nearest(at, p)], p) <= reach(at[nearest(means, p)], p));
    }
}

/// What cluster `j` contributes in channel `c` to the cost saved by moving the means: `x` is
/// its coordinate before and `z` after, `t` the number of its pixels, and `fs` the sum of
/// their channel values, in units.
pub open spec fn saved_in_channel(x: int, z: int, t: int, fs: int) -> int {
    (x - z) * (t * (x + z) - 2 * fs)
}

/// What cluster `j` contributes to the cost saved by moving the means from `means` to `at`
/// while every pixel stays with the cluster it has under `means`.
pub open spec fn saved(means: Seq<Center>, at: Seq<Center>, pixels: Seq<Color>, j: int) -> int {
    saved_in_channel(
        coord(means[j], 0),
        coord(at[j], 0),
        tally(means, pixels, j),
        unit() * total(means, pixels, j, 0),
    ) + saved_in_channel(
        coord(means[j], 1),
        coord(at[j], 1),
        tally(means, pixels, j),
        unit() * total(means, pixels, j, 1),
    ) + saved_in_channel(
        coord(means[j], 2),
        coord(at[j], 2),
        tally(means, pixels, j),
        unit() * total(means, pixels, j, 2),
    )
}

/// The sum of `saved` over the clusters before index `k`.
pub open spec fn saved_upto(
    means: Seq<Center>,
    at: Seq<Center>,
    pixels: Seq<Color>,
    k: int,
) -> int
    decreases k,
{
    if k <= 0 {
        0
    } else {
        saved_upto(means, at, pixels, k - 1) + saved(means, at, pixels, k - 1)
    }
}

proof fn lemma_channel_push(x: int, z: int, t: int, s: int, v: int, f: int)
    ensures
        saved_in_channel(x, z, t + 1, f * (s + v)) == saved_in_channel(x, z, t, f * s) + sq(
            x - f * v,
        ) - sq(z - f * v),
        saved_in_channel(x, z, t, f * (s + 0)) == saved_in_channel(x, z, t, f * s),
{
    let fs = f * s;
    let fv = f * v;
    assert(f * (s + v) == fs + fv) by (nonlinear_arith)
        requires
            fs == f * s,
            fv == f * v,
    ;
    let d = x - z;
    let e = x + z;
    let te = t * e;
    assert((t + 1) * e == te + e) by (nonlinear_arith)
        requires
            te == t * e,
    ;
    assert(d * (te + e - 2 * (fs + fv)) == d * (te - 2 * fs) + d * (e - 2 * fv))
        by (nonlinear_arith);
    assert(d * (e - 2 * fv) == (x - fv) * (x - fv) - (z - fv) * (z - fv)) by (nonlinear_arith)
        requires
            d == x - z,
            e == x + z,
    ;
}

proof fn lemma_saved_push(means: Seq<Center>, at: Seq<Center>, pixels: Seq<Color>, j: int)
    requires
        pixels.len() > 0,
    ensures
        saved(means, at, pixels, j) == saved(means, at, pixels.drop_last(), j) + if nearest(
            means,
            pixels.last(),
        ) == j {
            reach(means[j], pixels.last()) - reach(at[j], pixels.last())
        } else {
            0
        },
{
    let rest = pixels.drop_last();
    let p = pixels.last();
    let t = tally(means, rest, j);
    let f = unit();
    if nearest(means, p) == j {
        lemma_channel_push(coord(means[j], 0), coord(at[j], 0), t, total(means, rest, j, 0), p[0] as int, f);
        lemma_channel_push(coord(means[j], 1), coord(at[j], 1), t, total(means, rest, j, 1), p[1] as int, f);
        lemma_channel_push(coord(means[j], 2), coord(at[j], 2), t, total(means, rest, j, 2), p[2] as int, f);
    } else {
        lemma_channel_push(coord(means[j], 0), coord(at[j], 0), t, total(means, rest, j, 0), 0, f);
        lemma_channel_push(coord(means[j], 1), coord(at[j], 1), t, total(means, rest, j, 1), 0, f);
        lemma_channel_push(coord(means[j], 2), coord(at[j], 2), t, total(means, rest, j, 2), 0, f);
    }
}

proof fn lemma_saved_upto_push(
    means: Seq<Center>,
    at: Seq<Center>,
    pixels: Seq<Color>,
    k: int,
)
    requires
        pixels.len() > 0,
        0 <= k,
        0 <= nearest(means, pixels.last()),
    ensures
        saved_upto(means, at, pixels, k) == saved_upto(means, at, pixels.drop_last(), k)
            + if nearest(means, pixels.last()) < k {
            reach(means[nearest(means, pixels.last())], pixels.last()) - reach(
                at[nearest(means, pixels.last())],
                pixels.last(),
            )
        } else {
            0
        },
    decreases k,
{
    if k > 0 {
        lemma_saved_upto_push(means, at, pixels, k - 1);
        lemma_saved_push(means, at, pixels, k - 1);
    }
}

proof fn lemma_saved_upto_empty(means: Seq<Center>, at: Seq<Center>, k: int)
    ensures
        saved_upto(means, at, Seq::<Color>::empty(), k) == 0,
    decreases k,
{
    if k > 0 {
        lemma_saved_upto_empty(means, at, k - 1);
        let none = Seq::<Color>::empty();
        assert(tally(means, none, k - 1) == 0);
        assert(total(means, none, k - 1, 0) == 0);
        assert(total(means, none, k - 1, 1) == 0);
        assert(total(means, none, k - 1, 2) == 0);
        assert(unit() * 0 == 0);
        assert(forall|x: int, z: int| saved_in_channel(x, z, 0, 0) == 0) by (nonlinear_arith);
    }
}

/// The cost saved by moving the means while every pixel stays with its cluster is the sum of
/// what the clusters contribute.
pub proof fn lemma_saved_total(means: Seq<Center>, at: Seq<Center>, pixels: Seq<Color>)
    requires
        means.len() >= 1,
        at.len() == means.len(),
        all_wf(means),
    ensures
        held_cost(means, means, pixels) - held_cost(means, at, pixels) == saved_upto(
            means,
            at,
            pixels,
            means.len() as int,
        ),
    decreases pixels.len(),
{
    if pixels.len() == 0 {
        assert(pixels =~= Seq::<Color>::empty());
        lemma_saved_upto_empty(means, at, means.len() as int);
    } else {
        lemma_saved_total(means, at, pixels.drop_last());
        lemma_nearest_optimal(means, pixels.last());
        lemma_saved_upto_push(means, at, pixels, means.len() as int);
    }
}

proof fn lemma_channel_at_mean(x: int, y: int, t: int, fs: int)
    requires
        fs == t * y,
        t >= 0,
    ensures
        saved_in_channel(x, y, t, fs) == t * sq(x - y),
        t * sq(x - y) >= 0,
        t > 0 && x != y ==> t * sq(x - y) > 0,
{
    let d = x - y;
    assert(d * (t * (x + y) - 2 * (t * y)) == t * (d * d)) by (nonlinear_arith)
        requires
            d == x - y,
    ;
    assert(d * d >= 0) by (nonlinear_arith);
    assert(d != 0 ==> d * d > 0) by (nonlinear_arith);
    let dd = d * d;
    assert(t * dd >= 0) by (nonlinear_arith)
        requires
            t >= 0,
            dd >= 0,
    ;
    assert(t > 0 && dd > 0 ==> t * dd > 0) by (nonlinear_arith);
}

proof fn lemma_same_ratio(sa: int, wa: int, ga: int, sb: int, wb: int, gb: int, f: int)
    requires
        ga * wa == f,
        gb * wb == f,
        f >= 1,
        sa * ga == sb * gb,
    ensures
        sa * wb == sb * wa,
{
    let l = sa * wb;
    let r = sb * wa;
    assert(l * f == (sa * ga) * (wa * wb)) by (nonlinear_arith)
        requires
            l == sa * wb,
            ga * wa == f,
    ;
    assert(r * f == (sb * gb) * (wa * wb)) by (nonlinear_arith)
        requires
            r == sb * wa,
            gb * wb == f,
    ;
    assert(l == r) by (nonlinear_arith)
        requires
            l * f == r * f,
            f >= 1,
    ;
}

/// Two means with the same coordinates are the same point.
pub proof fn lemma_coords_pin_point(a: Center, b: Center)
    requires
        a.wf(),
        b.wf(),
        coord(a, 0) == coord(b, 0),
        coord(a, 1) == coord(b, 1),
        coord(a, 2) == coord(b, 2),
    ensures
        a.same_point(b),
{
    lemma_scale(a);
    lemma_scale(b);
    lemma_same_ratio(a.sum[0] as int, a.weight as int, scale(a), b.sum[0] as int, b.weight as int, scale(b), unit());
    lemma_same_ratio(a.sum[1] as int, a.weight as int, scale(a), b.sum[1] as int, b.weight as int, scale(b), unit());
    lemma_same_ratio(a.sum[2] as int, a.weight as int, scale(a), b.sum[2] as int, b.weight as int, scale(b), unit());
}

proof fn lemma_mean_in_units(s: int, t: int, g: int, f: int)
    requires
        g * t == f,
    ensures
        f * s == t * (s * g),
{
    assert((g * t) * s == t * (s * g)) by (nonlinear_arith);
}

/// What a cluster contributes to the saving of a round: the number of its pixels times the
/// squared distance that its mean moves. It is positive where the mean moves at all.
proof fn lemma_saved_by_step(means: Seq<Center>, pixels: Seq<Color>, j: int)
    requires
        means.len() >= 1,
        all_wf(means),
        pixels.len() <= MAX_PIXELS,
        0 <= j < means.len(),
    ensures
        saved(means, step(means, pixels), pixels, j) >= 0,
        !means[j].same_point(next_mean(means, pixels, j)) ==> saved(
            means,
            step(means, pixels),
            pixels,
            j,
        ) > 0,
{
    let to = step(means, pixels);
    let t = tally(means, pixels, j);
    lemma_tally_bounds(means, pixels, j);
    lemma_step_wf(means, pixels);
    assert(means[j].wf());
    assert(to[j].wf());
    assert(to[j] == next_mean(means, pixels, j));
    let f = unit();
    if t > 0 {
        lemma_scale(to[j]);
        let g = scale(to[j]);
        assert(to[j].weight == t);
        assert(to[j].sum[0] == total(means, pixels, j, 0));
        assert(to[j].sum[1] == total(means, pixels, j, 1));
        assert(to[j].sum[2] == total(means, pixels, j, 2));
        lemma_mean_in_units(total(means, pixels, j, 0), t, g, f);
        lemma_mean_in_units(total(means, pixels, j, 1), t, g, f);
        lemma_mean_in_units(total(means, pixels, j, 2), t, g, f);
        lemma_channel_at_mean(coord(means[j], 0), coord(to[j], 0), t, f * total(means, pixels, j, 0));
        lemma_channel_at_mean(coord(means[j], 1), coord(to[j], 1), t, f * total(means, pixels, j, 1));
        lemma_channel_at_mean(coord(means[j], 2), coord(to[j], 2), t, f * total(means, pixels, j, 2));
        if !means[j].same_point(to[j]) {
            if coord(means[j], 0) == coord(to[j], 0) && coord(means[j], 1) == coord(to[j], 1)
                && coord(means[j], 2) == coord(to[j], 2) {
                lemma_coords_pin_point(means[j], to[j]);
            }
        }
    } else {
        assert(to[j] == means[j]);
        assert(f * 0 == 0);
        lemma_channel_at_mean(coord(means[j], 0), coord(to[j], 0), 0, 0);
        lemma_channel_at_mean(coord(means[j], 1), coord(to[j], 1), 0, 0);
        lemma_channel_at_mean(coord(means[j], 2), coord(to[j], 2), 0, 0);
    }
}

proof fn lemma_saved_upto_by_step(means: Seq<Center>, pixels: Seq<Color>, k: int)
    requires
        means.len() >= 1,
        all_wf(means),
        pixels.len() <= MAX_PIXELS,
        0 <= k <= means.len(),
    ensures
        saved_upto(means, step(means, pixels), pixels, k) >= 0,
        forall|j: int|
            0 <= j < k && !(#[trigger] means[j]).same_point(next_mean(means, pixels, j))
                ==> saved_upto(means, step(means, pixels), pixels, k) > 0,
    decreases k,
{
    if k > 0 {
        lemma_saved_upto_by_step(means, pixels, k - 1);
        lemma_saved_by_step(means, pixels, k - 1);
    }
}

/// A round that moves a mean makes the potential strictly smaller, and the potential is never
/// negative: so the rounds that move a mean are finitely many.
pub proof fn lemma_round_lowers_potential(means: Seq<Center>, pixels: Seq<Color>)
    requires
        means.len() >= 1,
        all_wf(means),
        pixels.len() <= MAX_PIXELS,
        !settled(means, pixels),
    ensures
        0 <= potential(step(means, pixels), pixels) < potential(means, pixels),
{
    let to = step(means, pixels);
    lemma_step_wf(means, pixels);
    lemma_potential_least(means, to, pixels);
    lemma_saved_total(means, to, pixels);
    lemma_saved_upto_by_step(means, pixels, means.len() as int);
}

} // verus!
