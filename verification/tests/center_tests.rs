use posterize::center::{distance, sqr, Center, Distance, MAX_COLORS, MAX_PIXELS, MAX_WEIGHT};

#[test]
fn limits_fit_together() {
    assert_eq!(MAX_WEIGHT as u128, MAX_PIXELS as u128 * MAX_COLORS as u128);
    assert_eq!(MAX_COLORS, 256);
}

#[test]
fn sqr_is_exact_up_to_the_greatest_argument() {
    assert_eq!(sqr(0), 0);
    assert_eq!(sqr(12), 144);
    assert_eq!(sqr(u64::MAX), 0xffff_ffff_ffff_fffe_0000_0000_0000_0001);
}

#[test]
fn distance_to_a_color_center_is_the_sum_of_squares() {
    let c = Center::from_color(&[10, 20, 30]);
    assert_eq!(c.sum, [10, 20, 30]);
    assert_eq!(c.weight, 1);
    let d = distance(&c, &[13, 16, 30]);
    assert_eq!((d.num, d.den), (9 + 16, 1));
    let d = distance(&c, &[10, 20, 30]);
    assert_eq!((d.num, d.den), (0, 1));
}

#[test]
fn distance_to_a_fractional_center_keeps_the_denominator() {
    // The point (2.5, 0, 63.75).
    let c = Center { sum: [10, 0, 255], weight: 4 };
    let d = distance(&c, &[3, 1, 63]);
    // 16 * ((0.5)^2 + 1 + (0.75)^2) = 4 + 16 + 9
    assert_eq!((d.num, d.den), (29, 16));
}

#[test]
fn distance_at_the_greatest_weight_does_not_overflow() {
    let c = Center { sum: [0, 255 * MAX_WEIGHT, 0], weight: MAX_WEIGHT };
    let d = distance(&c, &[255, 0, 255]);
    let side = 255u128 * MAX_WEIGHT as u128;
    assert_eq!(d.num, 3 * side * side);
    assert_eq!(d.den, MAX_WEIGHT as u128 * MAX_WEIGHT as u128);
}

#[test]
fn distances_are_ordered_as_fractions() {
    let third = Distance { num: 1, den: 3 };
    let half = Distance { num: 2, den: 4 };
    let other_half = Distance { num: 1, den: 2 };
    assert!(third.lt(&half));
    assert!(!half.lt(&third));
    assert!(!half.lt(&other_half));
    assert!(!other_half.lt(&half));
    assert!(half.eq(&other_half));
    assert!(!third.eq(&half));
    assert!(!half.lt(&half));
}

#[test]
fn distances_beyond_128_bit_cross_products_are_ordered() {
    let a = Distance { num: (1 << 97) + 1, den: 1 << 80 };
    let b = Distance { num: 1 << 97, den: 1 << 80 };
    let c = Distance { num: 1 << 98, den: 1 << 81 };
    assert!(b.lt(&a));
    assert!(!a.lt(&b));
    assert!(b.eq(&c));
    assert!(c.lt(&a));
}

#[test]
fn coincides_compares_points_not_representations() {
    let a = Center { sum: [10, 20, 30], weight: 4 };
    let b = Center { sum: [5, 10, 15], weight: 2 };
    let c = Center { sum: [5, 10, 16], weight: 2 };
    assert!(a.coincides(&b));
    assert!(b.coincides(&a));
    assert!(a.coincides(&a));
    assert!(!a.coincides(&c));
    assert!(!c.coincides(&b));
}

#[test]
fn to_color_rounds_down() {
    assert_eq!(Center { sum: [10, 0, 255], weight: 4 }.to_color(), [2, 0, 63]);
    assert_eq!(Center { sum: [255, 254, 1], weight: 1 }.to_color(), [255, 254, 1]);
    assert_eq!(Center { sum: [2549, 2550, 9], weight: 10 }.to_color(), [254, 255, 0]);
}
