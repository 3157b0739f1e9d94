use posterize::center::Center;
use posterize::kmeans::{
    accumulate, cluster_means, compute_centroids, initialize, move_means, nearest_center,
    quantize, refine, seed_key, Cluster,
};

fn fresh(mean: Center) -> Cluster {
    Cluster { centroid: [0, 0, 0], mean, size: 0 }
}

fn at(r: u8, g: u8, b: u8) -> Center {
    Center::from_color(&[r, g, b])
}

fn noise(n: usize, seed: u64) -> Vec<[u8; 3]> {
    let mut out = Vec::with_capacity(n);
    let mut s = seed;
    for _ in 0..n {
        let mut px = [0u8; 3];
        for c in 0..3 {
            s = (s * 1103515245 + 12345) % (1 << 31);
            px[c] = ((s >> 16) & 255) as u8;
        }
        out.push(px);
    }
    out
}

fn state(clusters: &[Cluster]) -> Vec<([u64; 3], usize, [u64; 3], u64)> {
    clusters.iter().map(|c| (c.centroid, c.size, c.mean.sum, c.mean.weight)).collect()
}

#[test]
fn nearest_center_breaks_ties_by_order() {
    let centers = vec![at(0, 0, 0), at(100, 100, 100), at(0, 0, 0)];
    assert_eq!(nearest_center(&centers, &[50, 50, 50]), 0);
    assert_eq!(nearest_center(&centers, &[51, 50, 50]), 1);
    assert_eq!(nearest_center(&centers, &[49, 50, 50]), 0);
    assert_eq!(nearest_center(&centers, &[100, 100, 100]), 1);
    let centers = vec![at(100, 100, 100), at(0, 0, 0), at(100, 100, 100)];
    assert_eq!(nearest_center(&centers, &[50, 50, 50]), 0);
    assert_eq!(nearest_center(&centers, &[49, 50, 50]), 1);
}

#[test]
fn nearest_center_compares_means_of_different_weights() {
    // (63.75, 63.75, 63.75) against (64, 64, 64) and (63.5, 63.5, 63.5).
    let clusters = vec![
        fresh(Center { sum: [128, 128, 128], weight: 2 }),
        fresh(Center { sum: [255, 255, 255], weight: 4 }),
        fresh(Center { sum: [127, 127, 127], weight: 2 }),
    ];
    let centers = cluster_means(&clusters);
    assert_eq!(centers.len(), 3);
    assert_eq!((centers[1].sum, centers[1].weight), ([255, 255, 255], 4));
    assert_eq!(nearest_center(&centers, &[64, 64, 64]), 0);
    assert_eq!(nearest_center(&centers, &[63, 63, 63]), 2);
    assert_eq!(nearest_center(&centers, &[64, 64, 63]), 1);
}

#[test]
fn accumulate_sums_each_pixel_into_its_nearest_cluster() {
    let clusters = vec![fresh(at(0, 0, 0)), fresh(at(100, 100, 100))];
    let pixels =
        [[10, 20, 30], [90, 80, 70], [50, 50, 50], [49, 50, 50], [51, 50, 50], [200, 0, 0]];
    let r = accumulate(clusters, &pixels);
    assert_eq!(r.len(), 2);
    assert_eq!((r[0].centroid, r[0].size), ([109, 120, 130], 3));
    assert_eq!((r[1].centroid, r[1].size), ([341, 130, 120], 3));
    assert_eq!((r[0].mean.sum, r[0].mean.weight), ([0, 0, 0], 1));
    assert_eq!((r[1].mean.sum, r[1].mean.weight), ([100, 100, 100], 1));
}

#[test]
fn accumulate_of_no_pixels_changes_nothing() {
    let clusters = vec![fresh(at(1, 2, 3)), fresh(at(4, 5, 6))];
    let r = accumulate(clusters.clone(), &[]);
    assert_eq!(state(&r), state(&clusters));
    let r = compute_centroids(clusters.clone(), &[]);
    assert_eq!(state(&r), state(&clusters));
}

#[test]
fn divided_pass_equals_undivided_pass() {
    let pixels = noise(5000, 777);
    assert_eq!(pixels[0], [228, 98, 165]);
    assert_eq!(pixels[4999], [248, 52, 33]);
    let clusters = vec![
        fresh(at(30, 40, 50)),
        fresh(at(200, 180, 90)),
        fresh(Center { sum: [255, 255, 255], weight: 2 }),
    ];
    let whole = accumulate(clusters.clone(), &pixels);
    let divided = compute_centroids(clusters, &pixels);
    assert_eq!(state(&whole), state(&divided));
    assert_eq!(divided[0].centroid, [43586, 48651, 57182]);
    assert_eq!(divided[1].centroid, [279258, 255097, 131990]);
    assert_eq!(divided[2].centroid, [318256, 346475, 441438]);
    assert_eq!((divided[0].size, divided[1].size, divided[2].size), (798, 1428, 2774));
}

#[test]
fn divided_pass_adds_up_at_every_cut() {
    let pixels = noise(4100, 99);
    let clusters = vec![fresh(at(10, 10, 10)), fresh(at(128, 128, 128)), fresh(at(250, 250, 250))];
    let whole = accumulate(clusters.clone(), &pixels);
    for cut in [0usize, 1, 1024, 1025, 2050, 4099, 4100] {
        let left = compute_centroids(clusters.clone(), &pixels[..cut]);
        let right = compute_centroids(clusters.clone(), &pixels[cut..]);
        for j in 0..3 {
            assert_eq!(left[j].size + right[j].size, whole[j].size);
            for c in 0..3 {
                assert_eq!(left[j].centroid[c] + right[j].centroid[c], whole[j].centroid[c]);
            }
        }
    }
}

#[test]
fn pass_at_the_block_size_and_just_above() {
    for n in [1023usize, 1024, 1025, 2048, 2049] {
        let pixels = noise(n, n as u64);
        let clusters = vec![fresh(at(60, 60, 60)), fresh(at(190, 190, 190))];
        let whole = accumulate(clusters.clone(), &pixels);
        let divided = compute_centroids(clusters, &pixels);
        assert_eq!(state(&whole), state(&divided));
        assert_eq!(divided[0].size + divided[1].size, n);
    }
}

#[test]
fn move_means_takes_means_to_the_mean_of_their_pixels() {
    let mut clusters = vec![
        Cluster { centroid: [109, 120, 130], mean: at(0, 0, 0), size: 3 },
        Cluster { centroid: [0, 0, 0], mean: at(7, 8, 9), size: 0 },
        Cluster { centroid: [200, 400, 600], mean: at(100, 200, 255), size: 2 },
    ];
    let moved = move_means(&mut clusters);
    assert!(moved);
    assert_eq!(
        state(&clusters),
        vec![
            ([0, 0, 0], 0, [109, 120, 130], 3),
            ([0, 0, 0], 0, [7, 8, 9], 1),
            ([0, 0, 0], 0, [200, 400, 600], 2),
        ]
    );
}

#[test]
fn move_means_reports_no_movement_for_the_same_points() {
    let mut clusters = vec![
        Cluster { centroid: [30, 60, 90], mean: at(10, 20, 30), size: 3 },
        Cluster { centroid: [0, 0, 0], mean: at(7, 8, 9), size: 0 },
        Cluster { centroid: [5, 5, 5], mean: Center { sum: [10, 10, 10], weight: 8 }, size: 4 },
    ];
    let moved = move_means(&mut clusters);
    assert!(!moved);
    assert_eq!(
        state(&clusters),
        vec![
            ([0, 0, 0], 0, [30, 60, 90], 3),
            ([0, 0, 0], 0, [7, 8, 9], 1),
            ([0, 0, 0], 0, [5, 5, 5], 4),
        ]
    );
}

#[test]
fn first_seed_is_the_mean_divided_by_the_count() {
    let pixels = [[0, 0, 0], [1, 1, 1], [2, 2, 2], [255, 255, 255], [254, 254, 254], [253, 253, 253]];
    let seeds = initialize(&pixels, 2);
    assert_eq!(seeds.len(), 2);
    assert_eq!((seeds[0].sum, seeds[0].weight), ([765, 765, 765], 12));
    assert_eq!((seeds[1].sum, seeds[1].weight), ([255, 255, 255], 1));
}

#[test]
fn later_seeds_are_the_two_extremes() {
    let pixels = [[0, 0, 0], [1, 1, 1], [2, 2, 2], [255, 255, 255], [254, 254, 254], [253, 253, 253]];
    let seeds = initialize(&pixels, 3);
    assert_eq!(seeds.len(), 3);
    assert_eq!((seeds[0].sum, seeds[0].weight), ([765, 765, 765], 18));
    assert_eq!((seeds[1].sum, seeds[1].weight), ([255, 255, 255], 1));
    assert_eq!((seeds[2].sum, seeds[2].weight), ([0, 0, 0], 1));
}

#[test]
fn a_seed_is_farthest_from_its_nearest_center_not_from_all() {
    // From the centers (20,0,0) and (100,0,0) the pixel (60,0,0) lies 40 away from its
    // nearest one, (0,0,0) only 20, though it is the farthest from the second center.
    let centers = vec![at(20, 0, 0), at(100, 0, 0)];
    assert_eq!(seed_key(&centers, &[60, 0, 0]), 1600);
    assert_eq!(seed_key(&centers, &[0, 0, 0]), 400);
    assert_eq!(seed_key(&centers, &[21, 0, 0]), 1);
    let pixels = [[1, 0, 0], [9, 0, 0], [5, 0, 0], [4, 0, 0]];
    // First seed (19/12, 0, 0), then 9, then 5: it lies 3.4 and 4 from the two, while 4 and
    // 1 lie nearer to the first seed.
    let seeds = initialize(&pixels, 3);
    assert_eq!((seeds[0].sum, seeds[0].weight), ([19, 0, 0], 12));
    assert_eq!((seeds[1].sum, seeds[1].weight), ([9, 0, 0], 1));
    assert_eq!((seeds[2].sum, seeds[2].weight), ([5, 0, 0], 1));
}

#[test]
fn seed_key_is_measured_in_the_first_weight() {
    // Nearest is the first center, (2.5, 0, 0): the key is 16 times the squared distance.
    let centers = vec![Center { sum: [10, 0, 0], weight: 4 }, at(200, 0, 0)];
    assert_eq!(seed_key(&centers, &[3, 0, 0]), 4);
    // Nearest is the second center, of weight one: again 16 times the squared distance.
    assert_eq!(seed_key(&centers, &[198, 0, 1]), 16 * 5);
}

#[test]
fn refine_stops_after_the_first_round_that_moves_nothing() {
    let pixels = [[0, 0, 0], [10, 0, 0], [100, 0, 0], [110, 0, 0]];
    let clusters = vec![fresh(at(0, 0, 0)), fresh(at(10, 0, 0))];
    // Round 1: {0} and {10, 100, 110}: means 0 and 220/3. Round 2: {0, 10} and {100, 110}:
    // means 5 and 105. Round 3 moves nothing.
    let r = refine(clusters, &pixels);
    assert_eq!(state(&r), vec![([0, 0, 0], 0, [10, 0, 0], 2), ([0, 0, 0], 0, [210, 0, 0], 2)]);
}

#[test]
fn one_more_round_on_the_final_means_moves_nothing() {
    let pixels = noise(3000, 12345);
    let seeds = initialize(&pixels, 5);
    let clusters: Vec<Cluster> = seeds.into_iter().map(fresh).collect();
    let settled = refine(clusters, &pixels);
    let before = state(&settled);
    let mut again = compute_centroids(settled, &pixels);
    assert_eq!(again.iter().map(|c| c.size).sum::<usize>(), 3000);
    let moved = move_means(&mut again);
    assert!(!moved);
    assert_eq!(state(&again), before);
    let colors: Vec<[u8; 3]> = again.iter().map(|c| c.mean.to_color()).collect();
    assert_eq!(
        colors,
        vec![[64, 66, 70], [177, 187, 192], [125, 58, 195], [196, 126, 59], [57, 194, 121]]
    );
}

#[test]
fn black_and_white_are_recovered() {
    let mut pixels: Vec<[u8; 3]> = Vec::new();
    for _ in 0..1000 {
        pixels.push([0, 0, 0]);
    }
    for _ in 0..1000 {
        pixels.push([255, 255, 255]);
    }
    let palette = quantize(&mut pixels, 2);
    assert_eq!(palette, vec![[0, 0, 0], [255, 255, 255]]);
}

#[test]
fn black_and_white_settle_in_the_round_after_the_first() {
    let mut pixels: Vec<[u8; 3]> = vec![[0, 0, 0]; 1000];
    pixels.extend(vec![[255, 255, 255]; 1000]);
    let seeds = initialize(&pixels, 2);
    assert_eq!((seeds[0].sum, seeds[0].weight), ([255000, 255000, 255000], 4000));
    assert_eq!((seeds[1].sum, seeds[1].weight), ([255, 255, 255], 1));
    let clusters: Vec<Cluster> = seeds.into_iter().map(fresh).collect();
    let mut first = compute_centroids(clusters, &pixels);
    assert_eq!((first[0].centroid, first[0].size), ([0, 0, 0], 1000));
    assert_eq!((first[1].centroid, first[1].size), ([255000, 255000, 255000], 1000));
    assert!(move_means(&mut first));
    let mut second = compute_centroids(first, &pixels);
    assert!(!move_means(&mut second));
    assert_eq!(second[0].mean.to_color(), [0, 0, 0]);
    assert_eq!(second[1].mean.to_color(), [255, 255, 255]);
}

#[test]
fn single_color_keeps_the_stale_seed() {
    let mut pixels: Vec<[u8; 3]> = vec![[10, 10, 10]; 300];
    let palette = quantize(&mut pixels, 2);
    assert_eq!(palette, vec![[5, 5, 5], [10, 10, 10]]);
    assert_eq!(pixels, vec![[10, 10, 10]; 300]);
}

#[test]
fn single_color_fills_one_cluster_and_leaves_the_other_empty() {
    let pixels: Vec<[u8; 3]> = vec![[10, 10, 10]; 300];
    let seeds = initialize(&pixels, 2);
    let clusters: Vec<Cluster> = seeds.into_iter().map(fresh).collect();
    let passed = compute_centroids(clusters, &pixels);
    assert_eq!((passed[0].centroid, passed[0].size), ([0, 0, 0], 0));
    assert_eq!((passed[1].centroid, passed[1].size), ([3000, 3000, 3000], 300));
    assert_eq!((passed[0].mean.sum, passed[0].mean.weight), ([3000, 3000, 3000], 600));
}

#[test]
fn single_pixel_population() {
    let mut pixels: Vec<[u8; 3]> = vec![[200, 100, 7]];
    let palette = quantize(&mut pixels, 3);
    assert_eq!(palette, vec![[66, 33, 2], [200, 100, 7], [200, 100, 7]]);
}

#[test]
fn palette_has_as_many_colors_as_asked_for() {
    for k in [2usize, 3, 7, 64, 256] {
        let mut pixels = noise(1500, 5);
        let palette = quantize(&mut pixels, k);
        assert_eq!(palette.len(), k);
        assert_eq!(pixels, noise(1500, 5));
    }
}

#[test]
fn quantize_is_reproducible() {
    let mut pixels = noise(3000, 12345);
    assert_eq!(&pixels[..3], &[[220, 4, 101], [170, 31, 173], [29, 90, 218]]);
    assert_eq!(quantize(&mut pixels, 2), vec![[130, 64, 125], [124, 191, 132]]);
    assert_eq!(quantize(&mut pixels, 3), vec![[135, 129, 51], [122, 194, 177], [124, 57, 173]]);
    assert_eq!(
        quantize(&mut pixels, 8),
        vec![
            [67, 57, 58],
            [197, 190, 178],
            [192, 53, 181],
            [203, 115, 49],
            [70, 201, 200],
            [86, 207, 54],
            [60, 58, 197],
            [84, 133, 127]
        ]
    );
}

#[test]
fn quantize_of_a_divided_population() {
    // More than two blocks of pixels, so the pass divides twice.
    let mut pixels = noise(2200, 2024);
    assert_eq!(
        quantize(&mut pixels, 4),
        vec![[136, 52, 73], [194, 132, 192], [56, 118, 183], [119, 195, 63]]
    );
    assert_eq!(
        quantize(&mut pixels, 16),
        vec![
            [54, 40, 58],
            [180, 213, 221],
            [51, 197, 209],
            [201, 126, 72],
            [215, 41, 203],
            [51, 214, 61],
            [143, 46, 123],
            [122, 193, 138],
            [198, 42, 47],
            [186, 213, 39],
            [40, 50, 194],
            [204, 131, 192],
            [215, 210, 127],
            [76, 136, 34],
            [122, 82, 214],
            [51, 119, 122]
        ]
    );
}
