//! The steps around the quantizer: which pixels of an image are sampled, and how an image is
//! repainted with a palette.

use vstd::prelude::*;
use vstd::std_specs::iter::IteratorSpec;
use vstd::std_specs::cmp::PartialOrdIs;
use crate::center::{Color, sq};
use crate::iter_utils::{
    keys_of, lemma_scan_pick_first_optimum, lemma_scan_pick_in_range, min_by_key_partial,
    scan_pick, strict_weak_order_on,
};

verus! {

/// A pixel is sampled unless it is nearly white (every channel above 250) or nearly black
/// (every channel below 5).
pub open spec fn is_sampled(px: Color) -> bool {
    &&& px[0] <= 250 || px[1] <= 250 || px[2] <= 250
    &&& px[0] >= 5 || px[1] >= 5 || px[2] >= 5
}

/// The pixels of an image that are sampled for the quantizer, in image order.
pub fn load_pixels(img: &[Color]) -> (pixels: Vec<Color>)
    ensures
        pixels@ == img@.filter(|px: Color| is_sampled(px)),
{
    let ghost keep = |px: Color| is_sampled(px);
    let mut pixels: Vec<Color> = Vec::new();
    let mut i: usize = 0;
    proof {
        reveal(Seq::filter);
        assert(img@.take(0) =~= Seq::<Color>::empty());
    }
    while i < img.len()
        invariant
            0 <= i <= img.len(),
            keep == |px: Color| is_sampled(px),
            pixels@ == img@.take(i as int).filter(keep),
        decreases img.len() - i,
    {
        let px = img[i];
        proof {
            reveal(Seq::filter);
            assert(img@.take(i + 1).drop_last() == img@.take(i as int));
            assert(img@.take(i + 1).last() == px);
        }
        if (px[0] <= 250 || px[1] <= 250 || px[2] <= 250) && (px[0] >= 5 || px[1] >= 5 || px[2]
            >= 5) {
            pixels.push(px);
        }
        i += 1;
    }
    assert(img@.take(img.len() as int) == img@);
    pixels
}

/// The squared distance between two colors.
pub open spec fn color_distance_spec(a: Color, b: Color) -> int {
    sq(a[0] - b[0]) + sq(a[1] - b[1]) + sq(a[2] - b[2])
}

proof fn lemma_channel_square(a: int, b: int)
    requires
        0 <= a <= 255,
        0 <= b <= 255,
    ensures
        0 <= sq(a - b) <= 65025,
        sq(a - b) == 0 <==> a == b,
{
    let d = a - b;
    assert(0 <= d * d <= 65025) by (nonlinear_arith)
        requires
            -255 <= d <= 255,
    ;
    assert(d * d == 0 <==> d == 0) by (nonlinear_arith);
}

/// Colors at distance zero are the same color.
pub proof fn lemma_color_distance(a: Color, b: Color)
    ensures
        0 <= color_distance_spec(a, b) <= 195075,
        color_distance_spec(a, b) == 0 <==> a == b,
{
    lemma_channel_square(a[0] as int, b[0] as int);
    lemma_channel_square(a[1] as int, b[1] as int);
    lemma_channel_square(a[2] as int, b[2] as int);
    if color_distance_spec(a, b) == 0 {
        assert(a =~= b);
    }
}

fn channel_square(a: u8, b: u8) -> (r: i32)
    ensures
        r == sq(a - b),
        0 <= r <= 65025,
{
    proof {
        lemma_channel_square(a as int, b as int);
    }
    let d: i32 = a as i32 - b as i32;
    assert(d * d == sq(a - b));
    d * d
}

/// The squared distance between two colors.
pub fn color_distance(a: &Color, b: &Color) -> (r: i32)
    ensures
        r == color_distance_spec(*a, *b),
{
    channel_square(a[0], b[0]) + channel_square(a[1], b[1]) + channel_square(a[2], b[2])
}

/// The distances from `p` to the colors of the palette, in palette order.
pub open spec fn color_distances(palette: Seq<Color>, p: Color) -> Seq<int> {
    Seq::new(palette.len(), |i: int| color_distance_spec(palette[i], p))
}

/// The index of the palette color nearest to `p`; among equally near ones the first.
pub open spec fn closest_index(palette: Seq<Color>, p: Color) -> int {
    scan_pick(color_distances(palette, p), |held: int, later: int| held > later, palette.len() - 1)
}

/// The palette color nearest to `p`; among equally near ones the first.
pub open spec fn closest_spec(palette: Seq<Color>, p: Color) -> Color {
    palette[closest_index(palette, p)]
}

proof fn lemma_same_pick(
    keys: Seq<i32>,
    beats: spec_fn(i32, i32) -> bool,
    dists: Seq<int>,
    upto: int,
)
    requires
        0 <= upto < keys.len(),
        keys.len() == dists.len(),
        forall|i: int| 0 <= i < keys.len() ==> #[trigger] keys[i] == dists[i],
        forall|m: i32, x: i32| #[trigger] beats(m, x) == (m > x),
    ensures
        scan_pick(keys, beats, upto) == scan_pick(
            dists,
            |held: int, later: int| held > later,
            upto,
        ),
        0 <= scan_pick(keys, beats, upto) <= upto,
    decreases upto,
{
    if upto > 0 {
        lemma_same_pick(keys, beats, dists, upto - 1);
    }
}

/// The palette color nearest to `px`; among equally near ones the first.
pub fn closest(palette: &Vec<Color>, px: &Color) -> (c: Color)
    requires
        palette@.len() > 0,
    ensures
        c == closest_spec(palette@, *px),
{
    broadcast use vstd::std_specs::slice::axiom_spec_slice_iter;

    let p = *px;
    let key = |c: &&Color| -> (k: i32)
        ensures
            k == color_distance_spec(**c, p),
        { color_distance(*c, &p) };
    let it = palette.iter();
    let ghost items = it.remaining();
    assert(items == palette@.as_ref());
    let found = min_by_key_partial(it, key);
    proof {
        let keys = choose|keys: Seq<i32>| #[trigger]
            keys_of(key, items, keys) && found->0 == items[scan_pick(
                keys,
                |m: i32, x: i32| m.is_gt(&x),
                items.len() - 1,
            )];
        let dists = color_distances(palette@, p);
        assert forall|i: int| 0 <= i < keys.len() implies #[trigger] keys[i] == dists[i] by {
            assert(key.ensures((&items[i],), keys[i]));
        }
        lemma_same_pick(keys, |m: i32, x: i32| m.is_gt(&x), dists, items.len() - 1);
    }
    *found.unwrap()
}

/// Repaints an image: every pixel becomes the palette color nearest to it, the first of them
/// where several are equally near.
pub fn posterize(img: &mut Vec<Color>, palette: &Vec<Color>)
    requires
        old(img)@.len() > 0 ==> palette@.len() > 0,
    ensures
        final(img)@.len() == old(img)@.len(),
        forall|i: int|
            0 <= i < old(img)@.len() ==> #[trigger] final(img)@[i] == closest_spec(
                palette@,
                old(img)@[i],
            ),
{
    let ghost before = img@;
    let mut i: usize = 0;
    while i < img.len()
        invariant
            0 <= i <= img.len(),
            img@.len() == before.len(),
            before.len() > 0 ==> palette@.len() > 0,
            forall|j: int| 0 <= j < i ==> #[trigger] img@[j] == closest_spec(palette@, before[j]),
            forall|j: int| i <= j < before.len() ==> #[trigger] img@[j] == before[j],
        decreases img.len() - i,
    {
        let px = img[i];
        let c = closest(palette, &px);
        img.set(i, c);
        i += 1;
    }
}

/// The image that `posterize` makes of `img`.
pub open spec fn posterized(img: Seq<Color>, palette: Seq<Color>) -> Seq<Color> {
    Seq::new(img.len(), |i: int| closest_spec(palette, img[i]))
}

/// A palette color is its own nearest palette color.
pub proof fn lemma_closest_of_palette_color(palette: Seq<Color>, i: int)
    requires
        0 <= i < palette.len(),
    ensures
        closest_spec(palette, palette[i]) == palette[i],
{
    let p = palette[i];
    let dists = color_distances(palette, p);
    let beats = |held: int, later: int| held > later;
    assert(strict_weak_order_on(dists, beats));
    lemma_scan_pick_first_optimum(dists, beats, palette.len() - 1);
    let best = closest_index(palette, p);
    assert(!beats(dists[best], dists[i]));
    lemma_color_distance(palette[i], p);
    lemma_color_distance(palette[best], p);
}

/// The nearest palette color is one of the palette.
pub proof fn lemma_closest_in_palette(palette: Seq<Color>, p: Color)
    requires
        palette.len() > 0,
    ensures
        0 <= closest_index(palette, p) < palette.len(),
{
    lemma_scan_pick_in_range(
        color_distances(palette, p),
        |held: int, later: int| held > later,
        palette.len() - 1,
    );
}

/// Repainting a repainted image with the same palette changes nothing.
pub proof fn lemma_posterize_idempotent(img: Seq<Color>, palette: Seq<Color>)
    requires
        img.len() > 0 ==> palette.len() > 0,
    ensures
        posterized(posterized(img, palette), palette) == posterized(img, palette),
{
    let once = posterized(img, palette);
    assert forall|i: int| 0 <= i < img.len() implies closest_spec(palette, #[trigger] once[i])
        == once[i] by {
        lemma_closest_in_palette(palette, img[i]);
        lemma_closest_of_palette_color(palette, closest_index(palette, img[i]));
    }
    assert(posterized(once, palette) =~= once);
}

} // verus!
