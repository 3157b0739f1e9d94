//! Palette quantization by Lloyd's algorithm with farthest-point seeding.

use vstd::prelude::*;
use vstd::arithmetic::div_mod::lemma_fundamental_div_mod;
use rayon::iter::{IntoParallelRefIterator, ParallelIterator};
use crate::center::{
    distance, lemma_spread_bound, nearer, sq, Center, Color, Distance, MAX_COLORS, MAX_PIXELS,
    MAX_WEIGHT,
};
use crate::iter_utils::scan_pick;
use crate::potential::{
    lemma_cross_order, lemma_nearest_optimal, lemma_round_lowers_potential, potential,
};

verus! {

/// One cluster during a pass: its mean, which the pass only reads, and the channel sums and
/// the number of the pixels that the pass has assigned to it so far.
#[derive(Clone, Copy, Debug)]
pub struct Cluster {
    pub centroid: [u64; 3],
    pub mean: Center,
    pub size: usize,
}

impl Cluster {
    /// The state of a cluster before a pass: a valid mean and empty accumulators.
    pub open spec fn fresh(self) -> bool {
        &&& self.mean.wf()
        &&& self.size == 0
        &&& self.centroid[0] == 0
        &&& self.centroid[1] == 0
        &&& self.centroid[2] == 0
    }
}

/// The means of the clusters, in cluster order.
pub open spec fn means_of(clusters: Seq<Cluster>) -> Seq<Center> {
    Seq::new(clusters.len(), |j: int| clusters[j].mean)
}

/// Every mean is valid.
pub open spec fn all_wf(means: Seq<Center>) -> bool {
    forall|j: int| 0 <= j < means.len() ==> (#[trigger] means[j]).wf()
}

/// The test by which a scan over the means gives up the held mean for a later one: the later
/// one lies strictly nearer to `p`.
pub open spec fn yields_to(p: Color) -> spec_fn(Center, Center) -> bool {
    |held: Center, later: Center| nearer(later, held, p)
}

/// The index of the mean nearest to `p`; among equally near ones the first.
pub open spec fn nearest(means: Seq<Center>, p: Color) -> int {
    scan_pick(means, yields_to(p), means.len() - 1)
}

/// The number of the pixels whose nearest mean is the one at index `j`.
pub open spec fn tally(means: Seq<Center>, pixels: Seq<Color>, j: int) -> int
    decreases pixels.len(),
{
    if pixels.len() == 0 {
        0
    } else {
        tally(means, pixels.drop_last(), j) + if nearest(means, pixels.last()) == j {
            1int
        } else {
            0int
        }
    }
}

/// The sum of channel `c` over the pixels whose nearest mean is the one at index `j`.
pub open spec fn total(means: Seq<Center>, pixels: Seq<Color>, j: int, c: int) -> int
    decreases pixels.len(),
{
    if pixels.len() == 0 {
        0
    } else {
        total(means, pixels.drop_last(), j, c) + if nearest(means, pixels.last()) == j {
            pixels.last()[c] as int
        } else {
            0int
        }
    }
}

/// What a pass asks of its input: at least one cluster, all of them fresh, and no more pixels
/// than the sums have room for.
pub open spec fn pass_ready(clusters: Seq<Cluster>, pixels: Seq<Color>) -> bool {
    &&& clusters.len() >= 1
    &&& pixels.len() <= MAX_PIXELS
    &&& forall|j: int| 0 <= j < clusters.len() ==> (#[trigger] clusters[j]).fresh()
}

/// `after` is what a pass over `pixels` makes of the fresh clusters `before`: the means are
/// unchanged, and every cluster holds the number and the channel sums of the pixels nearest
/// to its mean.
pub open spec fn is_pass(before: Seq<Cluster>, pixels: Seq<Color>, after: Seq<Cluster>) -> bool {
    &&& after.len() == before.len()
    &&& forall|j: int|
        0 <= j < before.len() ==> {
            &&& (#[trigger] after[j]).mean == before[j].mean
            &&& after[j].size == tally(means_of(before), pixels, j)
            &&& after[j].centroid[0] == total(means_of(before), pixels, j, 0)
            &&& after[j].centroid[1] == total(means_of(before), pixels, j, 1)
            &&& after[j].centroid[2] == total(means_of(before), pixels, j, 2)
        }
}

/// A cluster holds at most every pixel, and a channel sum is at most 255 for each pixel held.
pub proof fn lemma_tally_bounds(means: Seq<Center>, pixels: Seq<Color>, j: int)
    ensures
        0 <= tally(means, pixels, j) <= pixels.len(),
        0 <= total(means, pixels, j, 0) <= 255 * tally(means, pixels, j),
        0 <= total(means, pixels, j, 1) <= 255 * tally(means, pixels, j),
        0 <= total(means, pixels, j, 2) <= 255 * tally(means, pixels, j),
    decreases pixels.len(),
{
    if pixels.len() > 0 {
        lemma_tally_bounds(means, pixels.drop_last(), j);
    }
}

/// Counts and sums over a population are those over its two parts added up, wherever it is
/// cut: the result of a pass does not depend on how the pixels are divided.
pub proof fn lemma_tally_split(
    means: Seq<Center>,
    left: Seq<Color>,
    right: Seq<Color>,
    j: int,
    c: int,
)
    ensures
        tally(means, left + right, j) == tally(means, left, j) + tally(means, right, j),
        total(means, left + right, j, c) == total(means, left, j, c) + total(means, right, j, c),
    decreases right.len(),
{
    if right.len() == 0 {
        assert(left + right == left);
    } else {
        assert((left + right).drop_last() == left + right.drop_last());
        assert((left + right).last() == right.last());
        lemma_tally_split(means, left, right.drop_last(), j, c);
    }
}

/// The index of the center nearest to `px`; among equally near ones the first.
pub fn nearest_center(centers: &Vec<Center>, px: &Color) -> (best: usize)
    requires
        centers.len() >= 1,
        all_wf(centers@),
    ensures
        best == nearest(centers@, *px),
        best < centers.len(),
{
    assert(centers@[0].wf());
    let mut best: usize = 0;
    let mut best_d: Distance = distance(&centers[0], px);
    let mut j: usize = 1;
    while j < centers.len()
        invariant
            1 <= j <= centers.len(),
            all_wf(centers@),
            best == scan_pick(centers@, yields_to(*px), j - 1),
            best < j,
            best_d.num == centers@[best as int].spread(*px),
            best_d.den == centers@[best as int].weight * centers@[best as int].weight,
        decreases centers.len() - j,
    {
        assert(centers@[j as int].wf());
        let d = distance(&centers[j], px);
        if d.lt(&best_d) {
            best = j;
            best_d = d;
        }
        j += 1;
    }
    best
}

/// The means of the clusters, in cluster order.
pub fn cluster_means(clusters: &Vec<Cluster>) -> (means: Vec<Center>)
    ensures
        means@ == means_of(clusters@),
{
    let mut means: Vec<Center> = Vec::with_capacity(clusters.len());
    let mut j: usize = 0;
    while j < clusters.len()
        invariant
            0 <= j <= clusters.len(),
            means@.len() == j,
            forall|i: int| 0 <= i < j ==> means@[i] == clusters@[i].mean,
        decreases clusters.len() - j,
    {
        means.push(clusters[j].mean);
        j += 1;
    }
    assert(means@ =~= means_of(clusters@));
    means
}

/// The longest run of pixels that a pass works through without dividing it.
pub const SEQUENTIAL_BLOCK_SIZE: usize = 1024;

/// One pass over `slice`, pixel by pixel: every pixel is added to the sums of the cluster whose
/// mean is nearest to it.
pub fn accumulate(mut clusters: Vec<Cluster>, slice: &[Color]) -> (r: Vec<Cluster>)
    requires
        pass_ready(clusters@, slice@),
    ensures
        is_pass(clusters@, slice@, r@),
{
    let ghost before = clusters@;
    let ghost means = means_of(before);
    let at = cluster_means(&clusters);
    let mut i: usize = 0;
    assert(slice@.take(0) =~= Seq::<Color>::empty());
    while i < slice.len()
        invariant
            0 <= i <= slice.len(),
            slice.len() <= MAX_PIXELS,
            before.len() >= 1,
            all_wf(means),
            means == means_of(before),
            at@ == means,
            is_pass(before, slice@.take(i as int), clusters@),
        decreases slice.len() - i,
    {
        let px = slice[i];
        let j = nearest_center(&at, &px);
        proof {
            let seen = slice@.take(i as int);
            let more = slice@.take(i + 1);
            assert(more.drop_last() == seen);
            assert(more.last() == px);
            lemma_tally_bounds(means, seen, j as int);
            assert(clusters@[j as int].size == tally(means, seen, j as int));
        }
        let mut held = clusters[j];
        held.centroid = [
            held.centroid[0] + px[0] as u64,
            held.centroid[1] + px[1] as u64,
            held.centroid[2] + px[2] as u64,
        ];
        held.size = held.size + 1;
        clusters.set(j, held);
        i += 1;
    }
    assert(slice@.take(slice.len() as int) == slice@);
    clusters
}

/// Runs the pass over `left` and the pass over `right` at the same time, each on a copy of
/// `clusters`, by `rayon::join`, which calls both closures and hands back what each returned.
#[verifier::external_body]
fn join_passes(clusters: &Vec<Cluster>, left: &[Color], right: &[Color]) -> (r: (
    Vec<Cluster>,
    Vec<Cluster>,
))
    requires
        pass_ready(clusters@, left@),
        pass_ready(clusters@, right@),
    ensures
        is_pass(clusters@, left@, r.0@),
        is_pass(clusters@, right@, r.1@),
{
    rayon::join(
        || compute_centroids(clusters.clone(), left),
        || compute_centroids(clusters.clone(), right),
    )
}

/// One pass over `slice`: a run of at most `SEQUENTIAL_BLOCK_SIZE` pixels is worked through
/// pixel by pixel; a longer one is cut in half, both halves are passed over at the same time
/// on copies of the clusters, and the sums and counts of the two are added up.
pub fn compute_centroids(mut clusters: Vec<Cluster>, slice: &[Color]) -> (r: Vec<Cluster>)
    requires
        pass_ready(clusters@, slice@),
    ensures
        is_pass(clusters@, slice@, r@),
{
    if slice.len() <= SEQUENTIAL_BLOCK_SIZE {
        accumulate(clusters, slice)
    } else {
        let ghost before = clusters@;
        let ghost means = means_of(before);
        let (sa, sb) = slice.split_at(slice.len() / 2);
        assert(sa@ + sb@ == slice@);
        let (ca, cb) = join_passes(&clusters, sa, sb);
        let mut i: usize = 0;
        while i < clusters.len()
            invariant
                0 <= i <= clusters.len(),
                clusters.len() == before.len(),
                ca.len() == before.len(),
                cb.len() == before.len(),
                means == means_of(before),
                sa@ + sb@ == slice@,
                slice.len() <= MAX_PIXELS,
                is_pass(before, sa@, ca@),
                is_pass(before, sb@, cb@),
                forall|j: int| i <= j < before.len() ==> clusters@[j] == before[j],
                forall|j: int|
                    0 <= j < i ==> {
                        &&& (#[trigger] clusters@[j]).mean == before[j].mean
                        &&& clusters@[j].size == tally(means, slice@, j)
                        &&& clusters@[j].centroid[0] == total(means, slice@, j, 0)
                        &&& clusters@[j].centroid[1] == total(means, slice@, j, 1)
                        &&& clusters@[j].centroid[2] == total(means, slice@, j, 2)
                    },
            decreases clusters.len() - i,
        {
            proof {
                lemma_tally_split(means, sa@, sb@, i as int, 0);
                lemma_tally_split(means, sa@, sb@, i as int, 1);
                lemma_tally_split(means, sa@, sb@, i as int, 2);
                lemma_tally_bounds(means, slice@, i as int);
                lemma_tally_bounds(means, sa@, i as int);
                lemma_tally_bounds(means, sb@, i as int);
                assert(ca@[i as int].size == tally(means, sa@, i as int));
                assert(cb@[i as int].size == tally(means, sb@, i as int));
            }
            let mut held = clusters[i];
            held.centroid = [
                ca[i].centroid[0] + cb[i].centroid[0],
                ca[i].centroid[1] + cb[i].centroid[1],
                ca[i].centroid[2] + cb[i].centroid[2],
            ];
            held.size = ca[i].size + cb[i].size;
            clusters.set(i, held);
            i += 1;
        }
        clusters
    }
}

/// The mean of cluster `j` after one round on `means`: the mean of the pixels nearest to it,
/// or the old mean where no pixel is.
pub open spec fn next_mean(means: Seq<Center>, pixels: Seq<Color>, j: int) -> Center {
    if tally(means, pixels, j) > 0 {
        Center {
            sum: [
                total(means, pixels, j, 0) as u64,
                total(means, pixels, j, 1) as u64,
                total(means, pixels, j, 2) as u64,
            ],
            weight: tally(means, pixels, j) as u64,
        }
    } else {
        means[j]
    }
}

/// The means after one round of assigning every pixel and moving every mean.
pub open spec fn step(means: Seq<Center>, pixels: Seq<Color>) -> Seq<Center> {
    Seq::new(means.len(), |j: int| next_mean(means, pixels, j))
}

/// A round on `means` moves no mean: every cluster that holds a pixel has its mean at the mean
/// of its pixels already.
pub open spec fn settled(means: Seq<Center>, pixels: Seq<Color>) -> bool {
    forall|j: int|
        0 <= j < means.len() ==> (#[trigger] means[j]).same_point(next_mean(means, pixels, j))
}

/// The means after `n` rounds.
pub open spec fn rounds(means: Seq<Center>, pixels: Seq<Color>, n: nat) -> Seq<Center>
    decreases n,
{
    if n == 0 {
        means
    } else {
        step(rounds(means, pixels, (n - 1) as nat), pixels)
    }
}

/// A round keeps the means valid.
pub proof fn lemma_step_wf(means: Seq<Center>, pixels: Seq<Color>)
    requires
        all_wf(means),
        pixels.len() <= MAX_PIXELS,
    ensures
        all_wf(step(means, pixels)),
        step(means, pixels).len() == means.len(),
{
    assert forall|j: int| 0 <= j < means.len() implies (#[trigger] step(means, pixels)[j]).wf() by {
        lemma_tally_bounds(means, pixels, j);
        assert(means[j].wf());
    }
}

/// The clusters are as a pass over `pixels` left them.
pub open spec fn passed(clusters: Seq<Cluster>, pixels: Seq<Color>) -> bool {
    &&& clusters.len() >= 1
    &&& pixels.len() <= MAX_PIXELS
    &&& all_wf(means_of(clusters))
    &&& forall|j: int|
        0 <= j < clusters.len() ==> {
            &&& (#[trigger] clusters[j]).size == tally(means_of(clusters), pixels, j)
            &&& clusters[j].centroid[0] == total(means_of(clusters), pixels, j, 0)
            &&& clusters[j].centroid[1] == total(means_of(clusters), pixels, j, 1)
            &&& clusters[j].centroid[2] == total(means_of(clusters), pixels, j, 2)
        }
}

impl Cluster {
    /// A valid mean, and sums that some pixels can have: at most 255 in each channel for each
    /// pixel held.
    pub open spec fn wf(self) -> bool {
        &&& self.mean.wf()
        &&& self.size <= MAX_PIXELS
        &&& self.centroid[0] <= 255 * self.size
        &&& self.centroid[1] <= 255 * self.size
        &&& self.centroid[2] <= 255 * self.size
    }

    /// Where the mean goes at the end of a round: to the mean of the pixels held, or nowhere
    /// where none is held.
    pub open spec fn moved_mean(self) -> Center {
        if self.size > 0 {
            Center { sum: self.centroid, weight: self.size as u64 }
        } else {
            self.mean
        }
    }
}

/// After a pass the mean of each cluster moves to where a round takes it.
pub proof fn lemma_moved_mean_is_next(clusters: Seq<Cluster>, pixels: Seq<Color>, j: int)
    requires
        passed(clusters, pixels),
        0 <= j < clusters.len(),
    ensures
        clusters[j].wf(),
        clusters[j].moved_mean() == next_mean(means_of(clusters), pixels, j),
{
    let means = means_of(clusters);
    lemma_tally_bounds(means, pixels, j);
    assert(means[j].wf());
    assert(clusters[j].size == tally(means, pixels, j));
    if clusters[j].size > 0 {
        assert(clusters[j].moved_mean().sum =~= next_mean(means, pixels, j).sum);
    }
}

/// Ends a round: every cluster that holds a pixel has its mean moved to the mean of its
/// pixels, and all sums and counts are emptied. Returns whether any mean changed its place.
pub fn move_means(clusters: &mut Vec<Cluster>) -> (moved: bool)
    requires
        forall|j: int| 0 <= j < old(clusters)@.len() ==> (#[trigger] old(clusters)@[j]).wf(),
    ensures
        final(clusters)@.len() == old(clusters)@.len(),
        forall|j: int|
            0 <= j < old(clusters)@.len() ==> (#[trigger] final(clusters)@[j]).fresh()
                && final(clusters)@[j].mean == old(clusters)@[j].moved_mean(),
        moved == exists|j: int|
            0 <= j < old(clusters)@.len() && !(#[trigger] old(clusters)@[j]).mean.same_point(
                old(clusters)@[j].moved_mean(),
            ),
{
    let ghost before = clusters@;
    let mut moved = false;
    let mut j: usize = 0;
    while j < clusters.len()
        invariant
            0 <= j <= clusters.len(),
            clusters.len() == before.len(),
            forall|i: int| 0 <= i < before.len() ==> (#[trigger] before[i]).wf(),
            forall|i: int| j <= i < before.len() ==> clusters@[i] == before[i],
            forall|i: int|
                0 <= i < j ==> (#[trigger] clusters@[i]).fresh() && clusters@[i].mean
                    == before[i].moved_mean(),
            moved == exists|i: int|
                0 <= i < j && !(#[trigger] before[i]).mean.same_point(before[i].moved_mean()),
        decreases clusters.len() - j,
    {
        assert(before[j as int].wf());
        let mut held = clusters[j];
        if held.size != 0 {
            let to = Center { sum: held.centroid, weight: held.size as u64 };
            if !held.mean.coincides(&to) {
                moved = true;
            }
            held.mean = to;
            held.centroid = [0, 0, 0];
            held.size = 0;
            clusters.set(j, held);
        }
        j += 1;
    }
    moved
}

/// Round number `n`, counted from zero, is the first that moves no mean.
pub open spec fn first_settled(seeds: Seq<Center>, pixels: Seq<Color>, n: nat) -> bool {
    &&& settled(rounds(seeds, pixels, n), pixels)
    &&& forall|i: nat| i < n ==> !settled(#[trigger] rounds(seeds, pixels, i), pixels)
}

/// What a pass leaves can have its means moved.
proof fn lemma_pass_wf(before: Seq<Cluster>, passed_over: Seq<Cluster>, pixels: Seq<Color>)
    requires
        pass_ready(before, pixels),
        is_pass(before, pixels, passed_over),
    ensures
        passed(passed_over, pixels),
        forall|j: int| 0 <= j < passed_over.len() ==> (#[trigger] passed_over[j]).wf(),
{
    let means = means_of(before);
    assert(means_of(passed_over) =~= means);
    assert forall|j: int| 0 <= j < means.len() implies (#[trigger] means[j]).wf() by {
        assert(before[j].fresh());
    }
    assert forall|j: int| 0 <= j < passed_over.len() implies (#[trigger] passed_over[j]).wf() by {
        lemma_moved_mean_is_next(passed_over, pixels, j);
    }
}

/// After a pass and the move of the means, the means are those of one more round, and a mean
/// has moved unless the round was settled.
proof fn lemma_round(before: Seq<Cluster>, passed_over: Seq<Cluster>, after: Seq<Cluster>, pixels: Seq<Color>)
    requires
        pass_ready(before, pixels),
        is_pass(before, pixels, passed_over),
        after.len() == passed_over.len(),
        forall|j: int|
            0 <= j < passed_over.len() ==> (#[trigger] after[j]).fresh() && after[j].mean
                == passed_over[j].moved_mean(),
    ensures
        passed(passed_over, pixels),
        means_of(after) == step(means_of(before), pixels),
        pass_ready(after, pixels),
        settled(means_of(before), pixels) <==> forall|j: int|
            0 <= j < passed_over.len() ==> (#[trigger] passed_over[j]).mean.same_point(
                passed_over[j].moved_mean(),
            ),
{
    let means = means_of(before);
    assert(means_of(passed_over) =~= means);
    assert forall|j: int| 0 <= j < means.len() implies (#[trigger] means[j]).wf() by {
        assert(before[j].fresh());
    }
    assert(passed(passed_over, pixels));
    assert forall|j: int| 0 <= j < passed_over.len() implies (#[trigger] passed_over[j]).moved_mean()
        == next_mean(means, pixels, j) by {
        lemma_moved_mean_is_next(passed_over, pixels, j);
    }
    assert(means_of(after) =~= step(means, pixels));
    if settled(means, pixels) {
        assert forall|j: int| 0 <= j < passed_over.len() implies (#[trigger] passed_over[j]).mean.same_point(
            passed_over[j].moved_mean(),
        ) by {
            assert(means[j].same_point(next_mean(means, pixels, j)));
        }
    }
    if forall|j: int|
        0 <= j < passed_over.len() ==> (#[trigger] passed_over[j]).mean.same_point(
            passed_over[j].moved_mean(),
        ) {
        assert forall|j: int| 0 <= j < means.len() implies (#[trigger] means[j]).same_point(
            next_mean(means, pixels, j),
        ) by {
            assert(passed_over[j].mean.same_point(passed_over[j].moved_mean()));
        }
    }
}

/// Lloyd's algorithm from the given means: rounds of a pass over the pixels and a move of the
/// means, up to and with the first round that moves no mean.
pub fn refine(mut clusters: Vec<Cluster>, pixels: &[Color]) -> (r: Vec<Cluster>)
    requires
        pass_ready(clusters@, pixels@),
    ensures
        pass_ready(r@, pixels@),
        r@.len() == clusters@.len(),
        exists|n: nat|
            first_settled(means_of(clusters@), pixels@, n) && means_of(r@) == #[trigger] rounds(
                means_of(clusters@),
                pixels@,
                n + 1,
            ),
{
    let ghost seeds = means_of(clusters@);
    let ghost count = clusters@.len();
    let ghost mut n: nat = 0;
    loop
        invariant_except_break
            means_of(clusters@) == rounds(seeds, pixels@, n),
        invariant
            pass_ready(clusters@, pixels@),
            clusters@.len() == count,
            forall|i: nat| i < n ==> !settled(#[trigger] rounds(seeds, pixels@, i), pixels@),
        ensures
            pass_ready(clusters@, pixels@),
            clusters@.len() == count,
            first_settled(seeds, pixels@, n),
            means_of(clusters@) == rounds(seeds, pixels@, n + 1),
        decreases potential(means_of(clusters@), pixels@),
    {
        let ghost before = clusters@;
        clusters = compute_centroids(clusters, pixels);
        let ghost passed_over = clusters@;
        proof {
            lemma_pass_wf(before, passed_over, pixels@);
        }
        let moved = move_means(&mut clusters);
        proof {
            lemma_round(before, passed_over, clusters@, pixels@);
            assert(rounds(seeds, pixels@, n + 1) == step(rounds(seeds, pixels@, n), pixels@));
            if moved {
                assert forall|j: int| 0 <= j < means_of(before).len() implies (#[trigger] means_of(
                    before,
                )[j]).wf() by {
                    assert(before[j].fresh());
                }
                lemma_round_lowers_potential(means_of(before), pixels@);
            }
        }
        if !moved {
            break ;
        }
        proof {
            n = n + 1;
        }
    }
    clusters
}

/// The sum of channel `c` over all pixels.
pub open spec fn channel_sum(pixels: Seq<Color>, c: int) -> int
    decreases pixels.len(),
{
    if pixels.len() == 0 {
        0
    } else {
        channel_sum(pixels.drop_last(), c) + pixels.last()[c]
    }
}

/// A channel sum is at most 255 for each pixel.
pub proof fn lemma_channel_sum_bound(pixels: Seq<Color>, c: int)
    requires
        0 <= c < 3,
    ensures
        0 <= channel_sum(pixels, c) <= 255 * pixels.len(),
    decreases pixels.len(),
{
    if pixels.len() > 0 {
        lemma_channel_sum_bound(pixels.drop_last(), c);
    }
}

/// Centers among which a farthest pixel can be sought: valid ones, whose weights all divide
/// the weight of the first.
pub open spec fn seed_ready(centers: Seq<Center>) -> bool {
    &&& centers.len() >= 1
    &&& all_wf(centers)
    &&& forall|j: int|
        0 <= j < centers.len() ==> centers[0].weight as int % (#[trigger] centers[j]).weight as int
            == 0
}

/// The squared distance from `p` to the nearest of the centers, as a multiple of one over the
/// square of the first center's weight.
pub open spec fn seed_key_spec(centers: Seq<Center>, p: Color) -> int {
    let near = centers[nearest(centers, p)];
    near.spread(p) * sq(centers[0].weight as int / near.weight as int)
}

/// The pixel `p` lies at least as far from its nearest center as `q` does from its own.
pub open spec fn not_nearer_home(centers: Seq<Center>, p: Color, q: Color) -> bool {
    let a = centers[nearest(centers, p)];
    let b = centers[nearest(centers, q)];
    b.spread(q) * sq(a.weight as int) <= a.spread(p) * sq(b.weight as int)
}

/// `p` is one of the pixels, and none of them lies farther from its nearest center.
pub open spec fn is_farthest(centers: Seq<Center>, pixels: Seq<Color>, p: Color) -> bool {
    &&& pixels.contains(p)
    &&& forall|i: int| 0 <= i < pixels.len() ==> not_nearer_home(centers, p, #[trigger] pixels[i])
}

/// The first seed of a population for `k` colors: the mean of the pixels divided by `k`.
pub open spec fn first_seed(pixels: Seq<Color>, k: int) -> Center {
    Center {
        sum: [
            channel_sum(pixels, 0) as u64,
            channel_sum(pixels, 1) as u64,
            channel_sum(pixels, 2) as u64,
        ],
        weight: (pixels.len() * k) as u64,
    }
}

/// The seed at index `i` is a pixel that lies farthest from the seeds before it.
pub open spec fn is_seed_at(pixels: Seq<Color>, seeds: Seq<Center>, i: int) -> bool {
    exists|p: Color|
        seeds[i] == #[trigger] Center::of_color(p) && is_farthest(seeds.take(i), pixels, p)
}

/// `seeds` are `k` starting centers for `pixels`: the mean of the pixels divided by `k`, and
/// then, one after the other, a pixel that lies farthest from the centers before it.
pub open spec fn is_seeding(pixels: Seq<Color>, k: int, seeds: Seq<Center>) -> bool {
    &&& seeds.len() == k
    &&& k >= 1
    &&& seeds[0] == first_seed(pixels, k)
    &&& forall|i: int| 1 <= i < k ==> #[trigger] is_seed_at(pixels, seeds, i)
}

proof fn lemma_divides(w: int, d: int)
    requires
        d >= 1,
        w >= 1,
        w % d == 0,
    ensures
        (w / d) * d == w,
        w / d >= 1,
{
    lemma_fundamental_div_mod(w, d);
    let q = w / d;
    assert(d * q == q * d) by (nonlinear_arith);
    assert(q >= 1) by (nonlinear_arith)
        requires
            q * d == w,
            w >= 1,
            d >= 1,
    ;
}

/// The keys of two pixels are ordered as their distances to their nearest centers are.
pub proof fn lemma_seed_key_order(centers: Seq<Center>, p: Color, q: Color)
    requires
        seed_ready(centers),
    ensures
        seed_key_spec(centers, q) <= seed_key_spec(centers, p) <==> not_nearer_home(centers, p, q),
{
    lemma_nearest_optimal(centers, p);
    lemma_nearest_optimal(centers, q);
    let a = centers[nearest(centers, p)];
    let b = centers[nearest(centers, q)];
    let w = centers[0].weight as int;
    assert(centers[0].wf() && a.wf() && b.wf());
    lemma_divides(w, a.weight as int);
    lemma_divides(w, b.weight as int);
    lemma_cross_order(
        a.spread(p),
        b.spread(q),
        a.weight as int,
        b.weight as int,
        w / (a.weight as int),
        w / (b.weight as int),
        w,
    );
}

proof fn lemma_key_bound(spread: int, w: int, g: int, f: int)
    requires
        0 <= spread <= 3 * ((255 * w) * (255 * w)),
        g * w == f,
        g >= 1,
        w >= 1,
        f <= MAX_WEIGHT,
    ensures
        0 <= spread * (g * g) <= 3 * ((255 * MAX_WEIGHT) * (255 * MAX_WEIGHT)),
        g <= MAX_WEIGHT,
        0 <= g * g <= MAX_WEIGHT * MAX_WEIGHT,
{
    assert(g <= f) by (nonlinear_arith)
        requires
            g * w == f,
            g >= 1,
            w >= 1,
    ;
    let gg = g * g;
    assert(0 <= gg <= MAX_WEIGHT * MAX_WEIGHT) by (nonlinear_arith)
        requires
            gg == g * g,
            1 <= g <= MAX_WEIGHT,
    ;
    let ww = (255 * w) * (255 * w);
    assert(ww * gg == (255 * f) * (255 * f)) by (nonlinear_arith)
        requires
            ww == (255 * w) * (255 * w),
            gg == g * g,
            g * w == f,
    ;
    assert((255 * f) * (255 * f) <= (255 * MAX_WEIGHT) * (255 * MAX_WEIGHT)) by (nonlinear_arith)
        requires
            1 <= f <= MAX_WEIGHT,
    ;
    assert(0 <= spread * gg <= (3 * ww) * gg) by (nonlinear_arith)
        requires
            0 <= spread <= 3 * ww,
            gg >= 0,
    ;
    assert((3 * ww) * gg == 3 * (ww * gg)) by (nonlinear_arith);
}

/// The key by which the farthest pixel is sought: the squared distance from `px` to the
/// nearest center, as a multiple of one over the square of the first center's weight.
pub fn seed_key(centers: &Vec<Center>, px: &Color) -> (key: u128)
    requires
        seed_ready(centers@),
    ensures
        key == seed_key_spec(centers@, *px),
{
    let j = nearest_center(centers, px);
    assert(centers@[j as int].wf() && centers@[0].wf());
    let near = &centers[j];
    let d = distance(near, px);
    let g: u64 = centers[0].weight / near.weight;
    proof {
        lemma_divides(centers@[0].weight as int, near.weight as int);
        lemma_spread_bound(*near, *px);
        lemma_key_bound(d.num as int, near.weight as int, g as int, centers@[0].weight as int);
        assert(3 * ((255 * 0xFF_FFFF_FF00int) * (255 * 0xFF_FFFF_FF00int))
            <= 0x4_0000_0000_0000_0000_0000_0000);
        assert(0xFF_FFFF_FF00int * 0xFF_FFFF_FF00int <= 0x1_0000_0000_0000_0000_0000);
    }
    d.num * ((g as u128) * (g as u128))
}

/// Channel sums of no pixels.
fn no_sums() -> (r: [u64; 3])
    ensures
        r[0] == 0,
        r[1] == 0,
        r[2] == 0,
{
    [0, 0, 0]
}

/// The channel sums of the one pixel `px`.
fn widen(px: &Color) -> (r: [u64; 3])
    ensures
        r[0] == px[0],
        r[1] == px[1],
        r[2] == px[2],
{
    [px[0] as u64, px[1] as u64, px[2] as u64]
}

/// The channel sums of two groups of pixels together.
fn add_sums(a: [u64; 3], b: [u64; 3]) -> (r: [u64; 3])
    requires
        a[0] + b[0] <= u64::MAX,
        a[1] + b[1] <= u64::MAX,
        a[2] + b[2] <= u64::MAX,
    ensures
        r[0] == a[0] + b[0],
        r[1] == a[1] + b[1],
        r[2] == a[2] + b[2],
{
    [a[0] + b[0], a[1] + b[1], a[2] + b[2]]
}

/// The channel sums of all pixels, by rayon's `map` and `reduce` over `par_iter()`: `reduce`
/// combines the items with an associative operation, in an order of its own choosing, and may
/// put in the identity anywhere; with addition, from zero, that is the sum. No part of the sum
/// exceeds the whole, which the bound on the length keeps within 64 bits.
#[verifier::external_body]
fn par_channel_sums(pixels: &[Color]) -> (r: [u64; 3])
    requires
        pixels@.len() <= MAX_PIXELS,
    ensures
        r[0] == channel_sum(pixels@, 0),
        r[1] == channel_sum(pixels@, 1),
        r[2] == channel_sum(pixels@, 2),
{
    pixels.par_iter().map(|px| widen(px)).reduce(|| no_sums(), |a, b| add_sums(a, b))
}

/// A pixel with the greatest key, by rayon's `max_by_key` over `par_iter()`: `None` for no
/// pixels, else one of the pixels whose key no other exceeds; which one of several with the
/// greatest key is left open.
#[verifier::external_body]
fn par_farthest(pixels: &[Color], centers: &Vec<Center>) -> (r: Option<Color>)
    requires
        seed_ready(centers@),
    ensures
        pixels@.len() == 0 ==> r is None,
        pixels@.len() > 0 ==> r is Some && pixels@.contains(r->0) && forall|i: int|
            0 <= i < pixels@.len() ==> seed_key_spec(centers@, #[trigger] pixels@[i])
                <= seed_key_spec(centers@, r->0),
{
    pixels.par_iter().max_by_key(|px| seed_key(centers, px)).copied()
}

/// Chooses `max_color_count` starting centers: first the mean of all pixels divided by
/// `max_color_count`, then one pixel after the other that lies farthest from the centers
/// chosen before it, where the distance of a pixel is that to its nearest center.
pub fn initialize(pixels: &[Color], max_color_count: usize) -> (centers: Vec<Center>)
    requires
        1 <= pixels@.len() <= MAX_PIXELS,
        1 <= max_color_count <= MAX_COLORS,
    ensures
        is_seeding(pixels@, max_color_count as int, centers@),
        all_wf(centers@),
{
    let mut centers: Vec<Center> = Vec::with_capacity(max_color_count);
    let acc = par_channel_sums(pixels);
    proof {
        lemma_channel_sum_bound(pixels@, 0);
        lemma_channel_sum_bound(pixels@, 1);
        lemma_channel_sum_bound(pixels@, 2);
        assert(pixels@.len() * max_color_count <= MAX_PIXELS * MAX_COLORS) by (nonlinear_arith)
            requires
                1 <= pixels@.len() <= MAX_PIXELS,
                1 <= max_color_count <= MAX_COLORS,
        ;
        assert(pixels@.len() <= pixels@.len() * max_color_count) by (nonlinear_arith)
            requires
                1 <= pixels@.len(),
                1 <= max_color_count,
        ;
    }
    let weight: u64 = (pixels.len() as u64) * (max_color_count as u64);
    let first = Center { sum: acc, weight };
    assert(first.sum =~= first_seed(pixels@, max_color_count as int).sum);
    centers.push(first);
    assert(first.weight as int % first.weight as int == 0) by (nonlinear_arith)
        requires
            first.weight >= 1,
    ;
    let mut i: usize = 1;
    while i < max_color_count
        invariant
            1 <= i <= max_color_count <= MAX_COLORS,
            centers@.len() == i,
            1 <= pixels@.len() <= MAX_PIXELS,
            seed_ready(centers@),
            centers@[0] == first_seed(pixels@, max_color_count as int),
            forall|j: int| 1 <= j < i ==> #[trigger] is_seed_at(pixels@, centers@, j),
        decreases max_color_count - i,
    {
        let ghost chosen = centers@;
        let new = par_farthest(pixels, &centers).unwrap();
        proof {
            assert forall|q: int| 0 <= q < pixels@.len() implies not_nearer_home(
                chosen,
                new,
                #[trigger] pixels@[q],
            ) by {
                lemma_seed_key_order(chosen, new, pixels@[q]);
            }
            assert(is_farthest(chosen, pixels@, new));
        }
        let next = Center::from_color(&new);
        centers.push(next);
        proof {
            assert(centers@.take(i as int) == chosen);
            assert forall|j: int| 1 <= j < i + 1 implies #[trigger] is_seed_at(
                pixels@,
                centers@,
                j,
            ) by {
                if j < i {
                    assert(is_seed_at(pixels@, chosen, j));
                    assert(centers@.take(j) == chosen.take(j));
                    assert(centers@[j] == chosen[j]);
                } else {
                    assert(centers@[j] == Center::of_color(new));
                }
            }
            assert(centers@[0].weight as int % 1 == 0);
            assert forall|j: int| 0 <= j < centers@.len() implies centers@[0].weight as int % (
            #[trigger] centers@[j]).weight as int == 0 by {
                if j < i {
                    assert(centers@[j] == chosen[j]);
                }
            }
            assert(all_wf(centers@)) by {
                assert forall|j: int| 0 <= j < centers@.len() implies (#[trigger] centers@[j]).wf() by {
                    if j < i {
                        assert(centers@[j] == chosen[j]);
                    }
                }
            }
        }
        i += 1;
    }
    centers
}

/// `palette` holds, in cluster order, the coordinates of every mean rounded down.
pub open spec fn is_palette(means: Seq<Center>, palette: Seq<Color>) -> bool {
    &&& palette.len() == means.len()
    &&& forall|j: int|
        0 <= j < means.len() ==> {
            &&& (#[trigger] palette[j])[0] == means[j].floor()[0]
            &&& palette[j][1] == means[j].floor()[1]
            &&& palette[j][2] == means[j].floor()[2]
        }
}

/// Reduces `pixels` to `max_color_count` colors: seeds that many centers, runs Lloyd's
/// algorithm from them until a round moves no mean, and returns the final means rounded down,
/// in cluster order. A cluster that no pixel ever joined keeps its seed and its place. The
/// pixels are left as they were.
pub fn quantize(pixels: &mut [Color], max_color_count: usize) -> (palette: Vec<Color>)
    requires
        1 <= old(pixels)@.len() <= MAX_PIXELS,
        2 <= max_color_count <= MAX_COLORS,
    ensures
        final(pixels)@ == old(pixels)@,
        palette@.len() == max_color_count,
        exists|seeds: Seq<Center>, n: nat|
            ({
                &&& is_seeding(old(pixels)@, max_color_count as int, seeds)
                &&& first_settled(seeds, old(pixels)@, n)
                &&& is_palette(#[trigger] rounds(seeds, old(pixels)@, n + 1), palette@)
            }),
{
    let centers = initialize(pixels, max_color_count);
    let mut clusters: Vec<Cluster> = Vec::with_capacity(max_color_count);
    let mut j: usize = 0;
    while j < centers.len()
        invariant
            0 <= j <= centers.len(),
            clusters@.len() == j,
            all_wf(centers@),
            forall|i: int|
                0 <= i < j ==> (#[trigger] clusters@[i]).fresh() && clusters@[i].mean == centers@[i],
        decreases centers.len() - j,
    {
        assert(centers@[j as int].wf());
        clusters.push(Cluster { centroid: [0, 0, 0], mean: centers[j], size: 0 });
        j += 1;
    }
    assert(means_of(clusters@) =~= centers@);
    let clusters = refine(clusters, pixels);
    let ghost means = means_of(clusters@);
    let mut palette: Vec<Color> = Vec::with_capacity(max_color_count);
    let mut j: usize = 0;
    while j < clusters.len()
        invariant
            0 <= j <= clusters.len(),
            palette@.len() == j,
            means == means_of(clusters@),
            all_wf(means),
            forall|i: int|
                0 <= i < j ==> {
                    &&& (#[trigger] palette@[i])[0] == means[i].floor()[0]
                    &&& palette@[i][1] == means[i].floor()[1]
                    &&& palette@[i][2] == means[i].floor()[2]
                },
        decreases clusters.len() - j,
    {
        assert(means[j as int].wf());
        palette.push(clusters[j].mean.to_color());
        j += 1;
    }
    palette
}

} // verus!
