use posterize::processing::{
    color_from_bucket, generate_histogram, make_bucket, pack_rgb555, partition_by, quantize,
    split_bucket, to_rgb555,
};

fn noise(n: usize, seed: u64) -> Vec<[u8; 3]> {
    let mut out = Vec::with_capacity(n);
    let mut s = seed;
    for _ in 0..n {
        let mut px = [0u8; 3];
        for c in 0..3 {
            s = (s * 1103515245 + 12345) % (1 << 31);
            px[c] = ((s >> 16) & 255) as u8;
        }
        out.push(px);
    }
    out
}

fn sorted(mut palette: Vec<[u8; 3]>) -> Vec<[u8; 3]> {
    palette.sort();
    palette
}

#[test]
fn partition_puts_rejected_elements_first_in_their_order() {
    let mut arr = [1, 2, 3, 4, 5, 6];
    let n = partition_by(&mut arr, |x| x % 2 == 0);
    assert_eq!(n, 3);
    assert_eq!(arr, [1, 3, 5, 4, 2, 6]);
    let mut arr = [8, 1, 6, 3, 4, 5, 2];
    let n = partition_by(&mut arr, |x| x % 2 == 0);
    assert_eq!(n, 3);
    assert_eq!(arr, [1, 3, 5, 8, 4, 6, 2]);
}

#[test]
fn partition_of_one_kind_changes_nothing() {
    let mut arr = [3, 1, 2];
    assert_eq!(partition_by(&mut arr, |_| true), 0);
    assert_eq!(arr, [3, 1, 2]);
    assert_eq!(partition_by(&mut arr, |_| false), 3);
    assert_eq!(arr, [3, 1, 2]);
    let mut none: [u8; 0] = [];
    assert_eq!(partition_by(&mut none, |_| true), 0);
}

#[test]
fn partition_works_on_values_that_cannot_be_copied() {
    let mut arr = vec![String::from("bb"), String::from("a"), String::from("ccc"), String::from("d")];
    let n = partition_by(&mut arr, |s| s.len() > 1);
    assert_eq!(n, 2);
    assert_eq!(arr, vec!["a", "d", "ccc", "bb"]);
}

#[test]
fn channels_are_reduced_to_five_bits() {
    assert_eq!(to_rgb555([0, 7, 8]), [0, 0, 1]);
    assert_eq!(to_rgb555([255, 248, 247]), [31, 31, 30]);
    assert_eq!(to_rgb555([100, 16, 15]), [12, 2, 1]);
}

#[test]
fn five_bit_channels_are_packed_red_first() {
    assert_eq!(pack_rgb555([0, 0, 0]), 0);
    assert_eq!(pack_rgb555([31, 31, 31]), 32767);
    assert_eq!(pack_rgb555([1, 0, 0]), 1024);
    assert_eq!(pack_rgb555([0, 1, 0]), 32);
    assert_eq!(pack_rgb555([0, 0, 1]), 1);
    assert_eq!(pack_rgb555([12, 2, 1]), 12 * 1024 + 2 * 32 + 1);
}

#[test]
fn wider_channels_overlap_when_packed() {
    assert_eq!(pack_rgb555([0, 32, 0]), 1024);
    assert_eq!(pack_rgb555([0, 0, 33]), 33);
    assert_eq!(pack_rgb555([0, 1, 32]), 32);
    assert_eq!(pack_rgb555([64, 0, 0]), 0);
    assert_eq!(pack_rgb555([63, 0, 0]), 64512);
}

#[test]
fn histogram_counts_the_pixels_of_each_code() {
    let pixels = [[0, 0, 0], [7, 7, 7], [8, 0, 0], [255, 255, 255], [250, 249, 248], [0, 8, 0]];
    let histo = generate_histogram(&pixels);
    assert_eq!(histo[0], 2);
    assert_eq!(histo[1024], 1);
    assert_eq!(histo[32], 1);
    assert_eq!(histo[32767], 2);
    assert_eq!(histo.iter().sum::<usize>(), 6);
    assert_eq!(generate_histogram(&[]).iter().sum::<usize>(), 0);
}

#[test]
fn bucket_is_the_smallest_box_around_its_pixels() {
    let b = make_bucket(vec![[0, 0, 0], [8, 16, 24], [255, 100, 7], [100, 100, 100]]);
    assert_eq!(b.bounds, [0..32, 0..13, 0..13]);
    assert_eq!(b.volume, 5408);
    assert_eq!(b.pixels, vec![[0, 0, 0], [8, 16, 24], [255, 100, 7], [100, 100, 100]]);
    let b = make_bucket(vec![[9, 200, 77]]);
    assert_eq!(b.bounds, [1..2, 25..26, 9..10]);
    assert_eq!(b.volume, 1);
}

#[test]
fn bucket_color_is_the_mean_rounded_down() {
    let b = make_bucket(vec![[0, 0, 1], [1, 0, 1], [1, 255, 1]]);
    assert_eq!(color_from_bucket(b), [0, 85, 1]);
    let b = make_bucket(vec![[255, 254, 3], [255, 255, 4]]);
    assert_eq!(color_from_bucket(b), [255, 254, 3]);
}

#[test]
fn box_is_cut_along_its_longest_side_near_the_middle() {
    let pixels = vec![
        [10, 200, 30],
        [20, 10, 30],
        [200, 20, 100],
        [90, 220, 33],
        [250, 250, 250],
        [3, 3, 3],
        [120, 130, 140],
    ];
    let histo = generate_histogram(&pixels);
    let whole = make_bucket(pixels);
    assert_eq!(whole.bounds, [0..32, 0..32, 0..32]);
    let (upper, lower) = split_bucket(whole, &histo);
    let upper = upper.unwrap();
    let lower = lower.unwrap();
    assert_eq!(upper.pixels, vec![[200, 20, 100], [90, 220, 33], [250, 250, 250], [120, 130, 140]]);
    assert_eq!(upper.bounds, [11..32, 2..32, 4..32]);
    assert_eq!(upper.volume, 17640);
    assert_eq!(lower.pixels, vec![[10, 200, 30], [3, 3, 3], [20, 10, 30]]);
    assert_eq!(lower.bounds, [0..3, 0..26, 0..4]);
    assert_eq!(lower.volume, 312);
}

#[test]
fn box_of_one_color_comes_back_whole() {
    let pixels = vec![[5, 5, 5]; 7];
    let histo = generate_histogram(&pixels);
    let (first, second) = split_bucket(make_bucket(pixels.clone()), &histo);
    let first = first.unwrap();
    assert!(second.is_none());
    assert_eq!(first.pixels, pixels);
    assert_eq!(first.bounds, [0..1, 0..1, 0..1]);
    let one = vec![[77, 0, 200]];
    let histo = generate_histogram(&one);
    let (first, second) = split_bucket(make_bucket(one.clone()), &histo);
    assert_eq!(first.unwrap().pixels, one);
    assert!(second.is_none());
}

#[test]
fn halves_are_cut_with_the_histogram_of_the_whole_image() {
    let pixels = noise(600, 31337);
    let histo = generate_histogram(&pixels);
    let (upper, lower) = split_bucket(make_bucket(pixels.clone()), &histo);
    let (upper, lower) = (upper.unwrap(), lower.unwrap());
    assert_eq!(upper.pixels.len() + lower.pixels.len(), 600);
    let (a, b) = split_bucket(upper, &histo);
    let (c, d) = split_bucket(lower, &histo);
    let parts = [a.unwrap(), b.unwrap(), c.unwrap(), d.unwrap()];
    assert_eq!(parts.iter().map(|p| p.pixels.len()).sum::<usize>(), 600);
    let mut all: Vec<[u8; 3]> = parts.iter().flat_map(|p| p.pixels.iter().copied()).collect();
    let mut given = pixels;
    all.sort();
    given.sort();
    assert_eq!(all, given);
}

#[test]
fn two_colors_from_black_and_white() {
    let mut pixels = vec![[0, 0, 0]; 10];
    pixels.extend(vec![[255, 255, 255]; 20]);
    let given = pixels.clone();
    assert_eq!(quantize(&mut pixels, 2), vec![[255, 255, 255], [0, 0, 0]]);
    assert_eq!(pixels, given);
}

#[test]
fn one_color_cannot_be_cut() {
    let mut pixels = vec![[5, 5, 5]; 7];
    assert_eq!(quantize(&mut pixels, 4), vec![[5, 5, 5]]);
    let mut pixels = vec![[5, 5, 5], [5, 5, 5], [5, 5, 5], [200, 5, 5], [200, 5, 5], [200, 5, 5]];
    assert_eq!(sorted(quantize(&mut pixels, 4)), vec![[5, 5, 5], [200, 5, 5]]);
}

#[test]
fn cube_cutting_palettes() {
    let mut pixels = noise(600, 31337);
    assert_eq!(sorted(quantize(&mut pixels, 2)), vec![[61, 121, 132], [190, 116, 130]]);
    assert_eq!(
        sorted(quantize(&mut pixels, 4)),
        vec![[61, 183, 132], [62, 58, 133], [188, 175, 133], [191, 52, 126]]
    );
    assert_eq!(
        sorted(quantize(&mut pixels, 8)),
        vec![
            [58, 184, 197],
            [61, 63, 65],
            [63, 54, 197],
            [64, 182, 68],
            [185, 173, 64],
            [190, 52, 65],
            [191, 177, 199],
            [193, 53, 186]
        ]
    );
    assert_eq!(pixels, noise(600, 31337));
}

#[test]
fn cube_cutting_gives_at_most_the_colors_asked_for() {
    for k in [2usize, 3, 16, 100, 256] {
        let mut pixels = noise(900, 7);
        let palette = quantize(&mut pixels, k);
        assert!(1 <= palette.len() && palette.len() <= k);
    }
}
