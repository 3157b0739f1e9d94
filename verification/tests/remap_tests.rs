use posterize::remap::{closest, color_distance, load_pixels, posterize};

#[test]
fn near_white_and_near_black_are_not_sampled() {
    let img = [
        [255, 255, 255],
        [251, 251, 251],
        [250, 251, 251],
        [251, 250, 255],
        [255, 255, 250],
        [0, 0, 0],
        [4, 4, 4],
        [5, 4, 4],
        [4, 5, 0],
        [0, 0, 5],
        [128, 7, 250],
        [4, 4, 251],
    ];
    let pixels = load_pixels(&img);
    assert_eq!(
        pixels,
        vec![
            [250, 251, 251],
            [251, 250, 255],
            [255, 255, 250],
            [5, 4, 4],
            [4, 5, 0],
            [0, 0, 5],
            [128, 7, 250],
            [4, 4, 251]
        ]
    );
}

#[test]
fn sampling_keeps_order_and_repeats() {
    let img = [[9, 9, 9], [255, 255, 255], [9, 9, 9], [1, 2, 3], [8, 8, 8]];
    assert_eq!(load_pixels(&img), vec![[9, 9, 9], [9, 9, 9], [8, 8, 8]]);
    assert_eq!(load_pixels(&[]), Vec::<[u8; 3]>::new());
    assert_eq!(load_pixels(&[[2, 2, 2], [252, 253, 254]]), Vec::<[u8; 3]>::new());
}

#[test]
fn color_distance_is_the_sum_of_squared_differences() {
    assert_eq!(color_distance(&[0, 0, 0], &[255, 255, 255]), 195075);
    assert_eq!(color_distance(&[255, 255, 255], &[0, 0, 0]), 195075);
    assert_eq!(color_distance(&[10, 20, 30], &[13, 16, 30]), 25);
    assert_eq!(color_distance(&[7, 7, 7], &[7, 7, 7]), 0);
}

#[test]
fn closest_takes_the_first_of_equally_near_colors() {
    let palette = vec![[100, 0, 0], [0, 0, 0], [0, 100, 0], [0, 0, 0]];
    assert_eq!(closest(&palette, &[50, 0, 0]), [100, 0, 0]);
    assert_eq!(closest(&palette, &[49, 0, 0]), [0, 0, 0]);
    assert_eq!(closest(&palette, &[0, 51, 0]), [0, 100, 0]);
    assert_eq!(closest(&palette, &[50, 50, 0]), [100, 0, 0]);
    assert_eq!(closest(&vec![[1, 2, 3]], &[200, 200, 200]), [1, 2, 3]);
}

#[test]
fn posterize_repaints_every_pixel() {
    let palette = vec![[0, 0, 0], [255, 255, 255], [200, 30, 30]];
    let mut img = vec![[10, 10, 10], [250, 240, 230], [180, 40, 20], [128, 128, 128], [90, 90, 90]];
    // (128,128,128) lies 24392 from the red, 48387 from white and 49152 from black;
    // (90,90,90) lies 24300 from black and 19300 from the red.
    posterize(&mut img, &palette);
    assert_eq!(
        img,
        vec![[0, 0, 0], [255, 255, 255], [200, 30, 30], [200, 30, 30], [200, 30, 30]]
    );
}

#[test]
fn posterize_twice_is_posterize_once() {
    let palette = vec![[64, 66, 70], [177, 187, 192], [125, 58, 195], [196, 126, 59], [177, 187, 192]];
    let mut img: Vec<[u8; 3]> = Vec::new();
    let mut s: u64 = 41;
    for _ in 0..500 {
        let mut px = [0u8; 3];
        for c in 0..3 {
            s = (s * 1103515245 + 12345) % (1 << 31);
            px[c] = ((s >> 16) & 255) as u8;
        }
        img.push(px);
    }
    posterize(&mut img, &palette);
    let once = img.clone();
    assert!(once.iter().all(|px| palette.contains(px)));
    posterize(&mut img, &palette);
    assert_eq!(img, once);
}

#[test]
fn posterize_of_an_empty_image_needs_no_palette() {
    let mut img: Vec<[u8; 3]> = Vec::new();
    posterize(&mut img, &Vec::new());
    assert!(img.is_empty());
}
