//! What holds of the rounds whatever the pixels: a round reads only the points that the means
//! stand for, and the means that the rounds end with are a fixed point.

use vstd::prelude::*;
use crate::center::{Center, Color, MAX_PIXELS};
use crate::iter_utils::scan_pick;
use crate::center::nearer;
use crate::kmeans::{
    all_wf, first_settled, is_pass, lemma_step_wf, nearest, next_mean, rounds, settled, step,
    tally, total, yields_to, Cluster,
};
use crate::potential::{
    lemma_nearest_optimal, lemma_potential_least, lemma_round_lowers_potential, potential,
};
use crate::potential::{lemma_nearer_is_less_reach, lemma_scale, reach, scale, unit};

verus! {

/// The nearest mean is the first of those that no mean is nearer than: no mean lies strictly
/// nearer to the pixel, and every mean before it lies strictly farther.
pub proof fn lemma_nearest_is_first(means: Seq<Center>, p: Color)
    requires
        means.len() >= 1,
        all_wf(means),
    ensures
        0 <= nearest(means, p) < means.len(),
        forall|j: int|
            0 <= j < means.len() ==> !nearer(#[trigger] means[j], means[nearest(means, p)], p),
        forall|j: int|
            0 <= j < nearest(means, p) ==> nearer(means[nearest(means, p)], #[trigger] means[j], p),
{
    lemma_nearest_optimal(means, p);
    let best = nearest(means, p);
    assert(means[best].wf());
    assert forall|j: int| 0 <= j < means.len() implies !nearer(#[trigger] means[j], means[best], p) by {
        assert(means[j].wf());
        lemma_nearer_is_less_reach(means[j], means[best], p);
    }
    assert forall|j: int| 0 <= j < best implies nearer(means[best], #[trigger] means[j], p) by {
        assert(means[j].wf());
        lemma_nearer_is_less_reach(means[best], means[j], p);
    }
}

/// A pass has one result, however the pixels were divided on the way: two results of a pass
/// over the same pixels from the same clusters agree in every count and every sum.
pub proof fn lemma_pass_is_unique(
    before: Seq<Cluster>,
    pixels: Seq<Color>,
    one: Seq<Cluster>,
    other: Seq<Cluster>,
)
    requires
        is_pass(before, pixels, one),
        is_pass(before, pixels, other),
    ensures
        one == other,
{
    assert forall|j: int| 0 <= j < one.len() implies one[j] == other[j] by {
        assert(one[j].mean == before[j].mean);
        assert(other[j].mean == before[j].mean);
        assert(one[j].centroid =~= other[j].centroid);
    }
    assert(one =~= other);
}

/// The means of `a` and of `b` are the same points, index by index.
pub open spec fn same_points(a: Seq<Center>, b: Seq<Center>) -> bool {
    &&& a.len() == b.len()
    &&& forall|j: int| 0 <= j < a.len() ==> (#[trigger] a[j]).same_point(b[j])
}

proof fn lemma_same_coord(sa: int, wa: int, ga: int, sb: int, wb: int, gb: int, f: int)
    requires
        ga * wa == f,
        gb * wb == f,
        wa >= 1,
        wb >= 1,
        sa * wb == sb * wa,
    ensures
        sa * ga == sb * gb,
{
    let l = sa * ga;
    let r = sb * gb;
    let ww = wa * wb;
    assert(l * ww == (sa * wb) * f) by (nonlinear_arith)
        requires
            l == sa * ga,
            ww == wa * wb,
            ga * wa == f,
    ;
    assert(r * ww == (sb * wa) * f) by (nonlinear_arith)
        requires
            r == sb * gb,
            ww == wa * wb,
            gb * wb == f,
    ;
    assert(ww >= 1) by (nonlinear_arith)
        requires
            ww == wa * wb,
            wa >= 1,
            wb >= 1,
    ;
    assert(l == r) by (nonlinear_arith)
        requires
            l * ww == r * ww,
            ww >= 1,
    ;
}

/// The same point lies at the same distance from every pixel.
pub proof fn lemma_same_point_same_reach(a: Center, b: Center, p: Color)
    requires
        a.wf(),
        b.wf(),
        a.same_point(b),
    ensures
        reach(a, p) == reach(b, p),
{
    lemma_scale(a);
    lemma_scale(b);
    lemma_same_coord(a.sum[0] as int, a.weight as int, scale(a), b.sum[0] as int, b.weight as int, scale(b), unit());
    lemma_same_coord(a.sum[1] as int, a.weight as int, scale(a), b.sum[1] as int, b.weight as int, scale(b), unit());
    lemma_same_coord(a.sum[2] as int, a.weight as int, scale(a), b.sum[2] as int, b.weight as int, scale(b), unit());
}

proof fn lemma_same_points_same_pick(a: Seq<Center>, b: Seq<Center>, p: Color, upto: int)
    requires
        all_wf(a),
        all_wf(b),
        same_points(a, b),
        0 <= upto < a.len(),
    ensures
        scan_pick(a, yields_to(p), upto) == scan_pick(b, yields_to(p), upto),
        0 <= scan_pick(a, yields_to(p), upto) <= upto,
    decreases upto,
{
    if upto > 0 {
        lemma_same_points_same_pick(a, b, p, upto - 1);
        let held = scan_pick(a, yields_to(p), upto - 1);
        assert(a[held].wf() && b[held].wf() && a[upto].wf() && b[upto].wf());
        assert(a[held].same_point(b[held]) && a[upto].same_point(b[upto]));
        lemma_same_point_same_reach(a[held], b[held], p);
        lemma_same_point_same_reach(a[upto], b[upto], p);
        lemma_nearer_is_less_reach(a[upto], a[held], p);
        lemma_nearer_is_less_reach(b[upto], b[held], p);
    }
}

/// Which mean is nearest to a pixel depends on the points only, not on the sums and weights
/// that stand for them.
pub proof fn lemma_same_points_same_nearest(a: Seq<Center>, b: Seq<Center>, p: Color)
    requires
        a.len() >= 1,
        all_wf(a),
        all_wf(b),
        same_points(a, b),
    ensures
        nearest(a, p) == nearest(b, p),
{
    lemma_same_points_same_pick(a, b, p, a.len() - 1);
}

/// The same points are given the same pixels.
pub proof fn lemma_same_points_same_tally(
    a: Seq<Center>,
    b: Seq<Center>,
    pixels: Seq<Color>,
    j: int,
    c: int,
)
    requires
        a.len() >= 1,
        all_wf(a),
        all_wf(b),
        same_points(a, b),
    ensures
        tally(a, pixels, j) == tally(b, pixels, j),
        total(a, pixels, j, c) == total(b, pixels, j, c),
    decreases pixels.len(),
{
    if pixels.len() > 0 {
        lemma_same_points_same_tally(a, b, pixels.drop_last(), j, c);
        lemma_same_points_same_nearest(a, b, pixels.last());
    }
}

/// Once a round has moved no mean, one more round changes nothing at all: the means that the
/// rounds end with are a fixed point, and a further pass over them moves none.
pub proof fn lemma_settled_is_fixed_point(means: Seq<Center>, pixels: Seq<Color>)
    requires
        means.len() >= 1,
        all_wf(means),
        pixels.len() <= MAX_PIXELS,
        settled(means, pixels),
    ensures
        step(step(means, pixels), pixels) == step(means, pixels),
        settled(step(means, pixels), pixels),
{
    let to = step(means, pixels);
    lemma_step_wf(means, pixels);
    assert(same_points(means, to)) by {
        assert forall|j: int| 0 <= j < means.len() implies (#[trigger] means[j]).same_point(to[j]) by {
            assert(to[j] == next_mean(means, pixels, j));
        }
    }
    assert forall|j: int| 0 <= j < to.len() implies next_mean(to, pixels, j) == #[trigger] to[j] by {
        lemma_same_points_same_tally(means, to, pixels, j, 0);
        lemma_same_points_same_tally(means, to, pixels, j, 1);
        lemma_same_points_same_tally(means, to, pixels, j, 2);
        assert(to[j] == next_mean(means, pixels, j));
        if tally(means, pixels, j) > 0 {
            assert(next_mean(to, pixels, j).sum =~= to[j].sum);
        }
    }
    assert(step(to, pixels) =~= to);
    assert forall|j: int| 0 <= j < to.len() implies (#[trigger] to[j]).same_point(
        next_mean(to, pixels, j),
    ) by {
        assert(next_mean(to, pixels, j) == to[j]);
    }
}

/// The means after the first settled round stay where they are under any number of further
/// rounds.
pub proof fn lemma_rounds_stay(seeds: Seq<Center>, pixels: Seq<Color>, n: nat, more: nat)
    requires
        seeds.len() >= 1,
        all_wf(seeds),
        pixels.len() <= MAX_PIXELS,
        first_settled(seeds, pixels, n),
    ensures
        rounds(seeds, pixels, n + 1 + more) == rounds(seeds, pixels, n + 1),
    decreases more,
{
    lemma_rounds_wf(seeds, pixels, n);
    lemma_settled_is_fixed_point(rounds(seeds, pixels, n), pixels);
    if more > 0 {
        lemma_rounds_stay(seeds, pixels, n, (more - 1) as nat);
        assert(rounds(seeds, pixels, n + 1 + more) == step(
            rounds(seeds, pixels, (n + 1 + more - 1) as nat),
            pixels,
        ));
        assert(rounds(seeds, pixels, n + 1) == step(rounds(seeds, pixels, n), pixels));
    }
}

/// Rounds keep the means valid and their number unchanged.
pub proof fn lemma_rounds_wf(seeds: Seq<Center>, pixels: Seq<Color>, n: nat)
    requires
        all_wf(seeds),
        pixels.len() <= MAX_PIXELS,
    ensures
        all_wf(rounds(seeds, pixels, n)),
        rounds(seeds, pixels, n).len() == seeds.len(),
    decreases n,
{
    if n > 0 {
        lemma_rounds_wf(seeds, pixels, (n - 1) as nat);
        lemma_step_wf(rounds(seeds, pixels, (n - 1) as nat), pixels);
    }
}

/// Rounds after a first round are rounds from the means that the first round gives.
pub proof fn lemma_rounds_shift(means: Seq<Center>, pixels: Seq<Color>, n: nat)
    ensures
        rounds(means, pixels, n + 1) == rounds(step(means, pixels), pixels, n),
    decreases n,
{
    if n > 0 {
        lemma_rounds_shift(means, pixels, (n - 1) as nat);
        assert(rounds(means, pixels, n + 1) == step(rounds(means, pixels, n), pixels));
    } else {
        assert(rounds(means, pixels, 1) == step(rounds(means, pixels, 0), pixels));
    }
}

proof fn lemma_settles_below(means: Seq<Center>, pixels: Seq<Color>, bound: nat)
    requires
        means.len() >= 1,
        all_wf(means),
        pixels.len() <= MAX_PIXELS,
        potential(means, pixels) <= bound,
    ensures
        exists|n: nat| settled(#[trigger] rounds(means, pixels, n), pixels),
    decreases bound,
{
    if settled(means, pixels) {
        assert(rounds(means, pixels, 0) == means);
    } else {
        lemma_round_lowers_potential(means, pixels);
        lemma_step_wf(means, pixels);
        let to = step(means, pixels);
        lemma_settles_below(to, pixels, (bound - 1) as nat);
        let m = choose|m: nat| settled(#[trigger] rounds(to, pixels, m), pixels);
        lemma_rounds_shift(means, pixels, m);
        assert(settled(rounds(means, pixels, m + 1), pixels));
    }
}

proof fn lemma_first_settled_upto(seeds: Seq<Center>, pixels: Seq<Color>, n: nat)
    requires
        settled(rounds(seeds, pixels, n), pixels),
    ensures
        exists|m: nat| m <= n && #[trigger] first_settled(seeds, pixels, m),
    decreases n,
{
    if exists|i: nat| i < n && settled(#[trigger] rounds(seeds, pixels, i), pixels) {
        let i = choose|i: nat| i < n && settled(#[trigger] rounds(seeds, pixels, i), pixels);
        lemma_first_settled_upto(seeds, pixels, i);
    } else {
        assert(first_settled(seeds, pixels, n));
    }
}

/// The first settled round is one round: the number of rounds that the algorithm takes, and
/// with it the means it ends with, is fixed by the seeds and the pixels.
pub proof fn lemma_first_settled_is_unique(seeds: Seq<Center>, pixels: Seq<Color>, n: nat, m: nat)
    requires
        first_settled(seeds, pixels, n),
        first_settled(seeds, pixels, m),
    ensures
        n == m,
{
    if n < m {
        assert(!settled(rounds(seeds, pixels, n), pixels));
    } else if m < n {
        assert(!settled(rounds(seeds, pixels, m), pixels));
    }
}

/// From any valid means the rounds settle: there is a first round that moves no mean.
pub proof fn lemma_rounds_settle(seeds: Seq<Center>, pixels: Seq<Color>)
    requires
        seeds.len() >= 1,
        all_wf(seeds),
        pixels.len() <= MAX_PIXELS,
    ensures
        exists|n: nat| #[trigger] first_settled(seeds, pixels, n),
{
    lemma_potential_least(seeds, seeds, pixels);
    lemma_settles_below(seeds, pixels, potential(seeds, pixels) as nat);
    let n = choose|n: nat| settled(#[trigger] rounds(seeds, pixels, n), pixels);
    lemma_first_settled_upto(seeds, pixels, n);
}

} // verus!
