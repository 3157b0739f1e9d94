use posterize::iter_utils::{max_by_key_partial, max_partial, min_by_key_partial, optimum_select};

#[test]
fn min_by_key_takes_the_first_of_equal_minima() {
    let v = vec![(3, 'a'), (1, 'b'), (2, 'c'), (1, 'd')];
    let r = min_by_key_partial(v.iter(), |x| x.0);
    assert_eq!(r, Some(&(1, 'b')));
}

#[test]
fn max_by_key_takes_the_first_of_equal_maxima() {
    let v = vec![(3, 'a'), (7, 'b'), (2, 'c'), (7, 'd')];
    let r = max_by_key_partial(v.iter(), |x| x.0);
    assert_eq!(r, Some(&(7, 'b')));
}

#[test]
fn max_partial_takes_the_first_of_equal_maxima() {
    let v = vec![(1, 0), (5, 1), (5, 1), (4, 9)];
    let r = max_partial(v.iter());
    assert!(std::ptr::eq(r.unwrap(), &v[1]));
    let w = vec![2.5f64, 9.0, -1.0, 9.0];
    assert_eq!(max_partial(w.into_iter()), Some(9.0));
}

#[test]
fn empty_iterators_give_none() {
    let v: Vec<u32> = Vec::new();
    assert_eq!(min_by_key_partial(v.iter(), |x| **x), None);
    assert_eq!(max_by_key_partial(v.iter(), |x| **x), None);
    assert_eq!(max_partial(v.iter()), None);
    assert!(optimum_select(v.iter(), |x| **x, |_, m, _, x| m > x).is_none());
}

#[test]
fn single_element_is_its_own_optimum() {
    let v = vec![42u8];
    assert_eq!(min_by_key_partial(v.iter(), |x| **x), Some(&42));
    assert_eq!(max_by_key_partial(v.iter(), |x| **x), Some(&42));
    assert_eq!(max_partial(v.iter()), Some(&42));
}

#[test]
fn float_keys_are_ordered_as_numbers() {
    let v = vec![2.5f64, -1.0, 7.25, 0.0];
    assert_eq!(min_by_key_partial(v.iter(), |x| **x), Some(&-1.0));
    assert_eq!(max_by_key_partial(v.iter(), |x| **x), Some(&7.25));
}

#[test]
fn incomparable_key_never_replaces_the_held_element() {
    // NaN is neither less nor greater than any number, so the scan never moves to it and
    // never away from it.
    let v = vec![3.0f64, f64::NAN, 1.0, 2.0];
    assert_eq!(min_by_key_partial(v.iter(), |x| **x), Some(&1.0));
    assert_eq!(max_by_key_partial(v.iter(), |x| **x), Some(&3.0));
    let w = vec![f64::NAN, 1.0, 2.0];
    assert!(min_by_key_partial(w.iter(), |x| **x).unwrap().is_nan());
    assert!(max_by_key_partial(w.iter(), |x| **x).unwrap().is_nan());
}

#[test]
fn optimum_select_returns_element_and_key() {
    let v = vec![10i32, -4, 7, -4, 3];
    let r = optimum_select(v.iter(), |x| (**x) * (**x), |_, m, _, x| m < x);
    assert_eq!(r, Some((&10, 100)));
    let r = optimum_select(v.iter().enumerate(), |x| *x.1, |_, m, _, x| m > x);
    assert_eq!(r, Some(((1usize, &-4), -4)));
}

#[test]
fn optimum_select_test_sees_the_elements() {
    // Replace the held element whenever the later one is longer, whatever the keys are.
    let v = vec!["bb", "a", "cccc", "dddd", "e"];
    let r = optimum_select(v.iter(), |_| 0u8, |held, _, later, _| later.len() > held.len());
    assert_eq!(r, Some((&"cccc", 0u8)));
}

#[test]
fn key_is_computed_once_for_each_element() {
    let v = vec![5u32, 3, 9, 1];
    let mut calls = 0;
    let r = min_by_key_partial(v.iter(), |x| {
        calls += 1;
        **x
    });
    assert_eq!(r, Some(&1));
    assert_eq!(calls, 4);
}
