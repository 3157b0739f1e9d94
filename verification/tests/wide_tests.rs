use posterize::wide::{mul_wide, product_eq, product_lt};

#[test]
fn small_products_have_no_upper_half() {
    assert_eq!(mul_wide(0, 0), (0, 0));
    assert_eq!(mul_wide(7, 6), (0, 42));
    assert_eq!(mul_wide(u64::MAX as u128, u64::MAX as u128), (0, 0xffff_ffff_ffff_fffe_0000_0000_0000_0001));
}

#[test]
fn products_carry_into_the_upper_half() {
    assert_eq!(mul_wide(1 << 64, 1 << 64), (1, 0));
    assert_eq!(mul_wide(u128::MAX, 2), (1, u128::MAX - 1));
    assert_eq!(mul_wide(u128::MAX, u128::MAX), (u128::MAX - 1, 1));
    assert_eq!(mul_wide(1 << 127, 6), (3, 0));
    assert_eq!(
        mul_wide(0x1234_5678_9abc_def0_0fed_cba9_8765_4321, 0xffff_0000_ffff_0000_ffff_0000_ffff_0000),
        (0x1234_4444_5678_8877_8776_4433_4331_ffee, 0xeddc_bbaa_a998_7777_789a_bbbb_bcdf_0000)
    );
}

#[test]
fn product_lt_orders_products_beyond_128_bits() {
    let big = 1u128 << 100;
    assert!(product_lt(big, big, big, big + 1));
    assert!(!product_lt(big, big + 1, big, big));
    assert!(!product_lt(big, big, big, big));
    assert!(product_lt(3, 5, 4, 4));
    assert!(!product_lt(4, 4, 3, 5));
    assert!(product_lt(0, u128::MAX, 1, 1));
    // Equal upper halves, lower halves decide.
    assert!(product_lt(u128::MAX, 2, u128::MAX - 1, 2) == false);
    assert!(product_lt(u128::MAX - 1, 2, u128::MAX, 2));
}

#[test]
fn product_eq_compares_whole_products() {
    let big = 1u128 << 100;
    assert!(product_eq(big, big * 4, big * 2, big * 2));
    assert!(!product_eq(big, big, big, big + 1));
    assert!(product_eq(6, 4, 8, 3));
    assert!(product_eq(0, 9, 0, 1));
    // The lower halves agree, the upper ones do not.
    assert!(!product_eq(1 << 64, 1 << 64, 0, 5));
    assert!(!product_eq(1 << 64, 1 << 64, 1 << 65, 1 << 64));
}
