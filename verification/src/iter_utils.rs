//! Selection of an optimum from an iterator whose keys are only partially ordered.
//!
//! The scan keeps the element it holds until a later one beats it, so among elements that do
//! not beat each other the earliest stays.

use vstd::prelude::*;
use vstd::std_specs::iter::IteratorSpec;
use vstd::std_specs::cmp::{PartialOrdIs, PartialOrdSpec};

verus! {

/// The index that a left-to-right scan of `keys[0..=upto]` holds at its end, where the held
/// element is given up for a later one exactly when `beats(held, later)`.
pub open spec fn scan_pick<B>(keys: Seq<B>, beats: spec_fn(B, B) -> bool, upto: int) -> int
    decreases upto,
{
    if upto <= 0 {
        0
    } else {
        let held = scan_pick(keys, beats, upto - 1);
        if beats(keys[held], keys[upto]) {
            upto
        } else {
            held
        }
    }
}

/// `keys[i]` is a value that `f` may return for `items[i]`, for every `i`.
pub open spec fn keys_of<T, B, F: FnMut(&T) -> B>(f: F, items: Seq<T>, keys: Seq<B>) -> bool {
    &&& keys.len() == items.len()
    &&& forall|i: int| 0 <= i < items.len() ==> f.ensures((&items[i],), #[trigger] keys[i])
}

/// `held[i]` is the index that a scan with the test `beats` holds after it has seen
/// `items[0..=i]`: it moves to `i` exactly when `beats` answers `true` for the held element and
/// element `i`.
pub open spec fn scan_trace<T, B, P: FnMut(&T, &B, &T, &B) -> bool>(
    beats: P,
    items: Seq<T>,
    keys: Seq<B>,
    held: Seq<int>,
) -> bool {
    &&& keys.len() == items.len()
    &&& held.len() == items.len()
    &&& items.len() > 0 ==> held[0] == 0
    &&& forall|i: int|
        1 <= i < items.len() ==> {
            let h = held[i - 1];
            &&& 0 <= h < i
            &&& (#[trigger] held[i] == i || held[i] == h)
            &&& beats.ensures((&items[h], &keys[h], &items[i], &keys[i]), held[i] == i)
        }
}

/// Scans `it` once and returns the element held at the end together with its key, or `None`
/// for an empty iterator. The key of each element is computed once, by `f`; the held element is
/// given up for a later one exactly when `beats(held, held_key, later, later_key)` is `true`.
pub fn optimum_select<I, B, F, P>(mut it: I, mut f: F, mut beats: P) -> (r: Option<(I::Item, B)>)
    where
        I: Iterator,
        F: FnMut(&I::Item) -> B,
        P: FnMut(&I::Item, &B, &I::Item, &B) -> bool,
    requires
        it.obeys_prophetic_iter_laws(),
        it.decrease() is Some,
        forall|i: int|
            0 <= i < it.remaining().len() ==> f.requires((&#[trigger] it.remaining()[i],)),
        forall|i: int, j: int, a: B, b: B|
            0 <= i < j < it.remaining().len() && #[trigger] f.ensures((&it.remaining()[i],), a)
                && #[trigger] f.ensures((&it.remaining()[j],), b) ==> beats.requires(
                (&it.remaining()[i], &a, &it.remaining()[j], &b),
            ),
    ensures
        r is None <==> it.remaining().len() == 0,
        r matches Some((item, key)) ==> exists|keys: Seq<B>, held: Seq<int>|
            ({
                &&& keys_of(f, it.remaining(), keys)
                &&& #[trigger] scan_trace(beats, it.remaining(), keys, held)
                &&& item == it.remaining()[held.last()]
                &&& key == keys[held.last()]
            }),
{
    broadcast use vstd::function::group_function_axioms;

    let ghost items = it.remaining();
    let ghost f0 = f;
    let ghost b0 = beats;
    match it.next() {
        None => None,
        Some(first) => {
            let mut min = first;
            let mut min_val = f(&min);
            let ghost mut keys: Seq<B> = seq![min_val];
            let ghost mut held: Seq<int> = seq![0int];
            loop
                invariant
                    f == f0,
                    beats == b0,
                    it.obeys_prophetic_iter_laws(),
                    it.decrease() is Some,
                    forall|i: int| 0 <= i < items.len() ==> f.requires((&#[trigger] items[i],)),
                    forall|i: int, j: int, a: B, b: B|
                        0 <= i < j < items.len() && #[trigger] f.ensures((&items[i],), a)
                            && #[trigger] f.ensures((&items[j],), b) ==> beats.requires(
                            (&items[i], &a, &items[j], &b),
                        ),
                    1 <= keys.len() <= items.len(),
                    it.remaining() == items.skip(keys.len() as int),
                    keys_of(f, items.take(keys.len() as int), keys),
                    scan_trace(beats, items.take(keys.len() as int), keys, held),
                    min == items[held.last()],
                    min_val == keys[held.last()],
                    0 <= held.last() < keys.len(),
                ensures
                    f == f0,
                    beats == b0,
                    keys_of(f, items, keys),
                    scan_trace(beats, items, keys, held),
                    min == items[held.last()],
                    min_val == keys[held.last()],
                decreases it.decrease()->0,
            {
                let ghost n = keys.len() as int;
                match it.next() {
                    None => {
                        proof {
                            assert(items.take(n) == items);
                        }
                        break ;
                    },
                    Some(x) => {
                        assert(x == items[n]);
                        let x_val = f(&x);
                        proof {
                            let h = held.last();
                            assert(items.take(n)[h] == items[h]);
                            assert(f.ensures((&items.take(n)[h],), keys[h]));
                        }
                        let moved = beats(&min, &min_val, &x, &x_val);
                        proof {
                            assert(x == items[n]);
                            let h = held.last();
                            keys = keys.push(x_val);
                            held = held.push(if moved { n } else { h });
                            assert(items.skip(n).drop_first() == items.skip(n + 1));
                            assert forall|i: int| 0 <= i < n + 1 implies f.ensures(
                                (&items.take(n + 1)[i],),
                                #[trigger] keys[i],
                            ) by {
                                if i < n {
                                    assert(items.take(n)[i] == items.take(n + 1)[i]);
                                }
                            }
                            assert forall|i: int| 1 <= i < n + 1 implies ({
                                let h = held[i - 1];
                                &&& 0 <= h < i
                                &&& (#[trigger] held[i] == i || held[i] == h)
                                &&& beats.ensures(
                                    (
                                        &items.take(n + 1)[h],
                                        &keys[h],
                                        &items.take(n + 1)[i],
                                        &keys[i],
                                    ),
                                    held[i] == i,
                                )
                            }) by {
                                if i < n {
                                    let h = held[i - 1];
                                    assert(items.take(n)[i] == items.take(n + 1)[i]);
                                    assert(items.take(n)[h] == items.take(n + 1)[h]);
                                    assert(held[i] == held.drop_last()[i]);
                                }
                            }
                        }
                        if moved {
                            min_val = x_val;
                            min = x;
                        }
                    },
                }
            }
            Some((min, min_val))
        },
    }
}

/// On the keys of `keys`, `beats` is a strict weak order: no key beats itself, `beats` is
/// transitive, and so is its complement. Any total order taken strictly is one.
pub open spec fn strict_weak_order_on<B>(keys: Seq<B>, beats: spec_fn(B, B) -> bool) -> bool {
    &&& forall|i: int| 0 <= i < keys.len() ==> !beats(#[trigger] keys[i], keys[i])
    &&& forall|i: int, j: int, k: int|
        0 <= i < keys.len() && 0 <= j < keys.len() && 0 <= k < keys.len() && #[trigger] beats(
            keys[i],
            keys[j],
        ) && #[trigger] beats(keys[j], keys[k]) ==> beats(keys[i], keys[k])
    &&& forall|i: int, j: int, k: int|
        0 <= i < keys.len() && 0 <= j < keys.len() && 0 <= k < keys.len() && !#[trigger] beats(
            keys[i],
            keys[j],
        ) && !#[trigger] beats(keys[j], keys[k]) ==> !beats(keys[i], keys[k])
}

/// Under a strict weak order the scan holds an optimum, and the first of them: the held key
/// beats no key, and every earlier key beats the held one.
pub proof fn lemma_scan_pick_first_optimum<B>(keys: Seq<B>, beats: spec_fn(B, B) -> bool, upto: int)
    requires
        0 <= upto < keys.len(),
        strict_weak_order_on(keys, beats),
    ensures
        0 <= scan_pick(keys, beats, upto) <= upto,
        forall|j: int|
            0 <= j <= upto ==> !beats(keys[scan_pick(keys, beats, upto)], #[trigger] keys[j]),
        forall|j: int|
            0 <= j < scan_pick(keys, beats, upto) ==> beats(
                #[trigger] keys[j],
                keys[scan_pick(keys, beats, upto)],
            ),
    decreases upto,
{
    if upto > 0 {
        lemma_scan_pick_first_optimum(keys, beats, upto - 1);
        let held = scan_pick(keys, beats, upto - 1);
        if beats(keys[held], keys[upto]) {
            assert forall|j: int| 0 <= j <= upto implies !beats(keys[upto], #[trigger] keys[j]) by {
                if j < upto && beats(keys[upto], keys[j]) {
                    assert(beats(keys[held], keys[j]));
                }
            }
            assert forall|j: int| 0 <= j < upto implies beats(#[trigger] keys[j], keys[upto]) by {
                if j < held {
                    assert(beats(keys[j], keys[held]));
                } else if j > held {
                    assert(!beats(keys[held], keys[j]));
                    if !beats(keys[j], keys[upto]) {
                        assert(!beats(keys[held], keys[upto]));
                    }
                }
            }
        }
    }
}

/// The scan never leaves the range it has seen.
pub proof fn lemma_scan_pick_in_range<B>(keys: Seq<B>, beats: spec_fn(B, B) -> bool, upto: int)
    requires
        0 <= upto,
    ensures
        0 <= scan_pick(keys, beats, upto) <= upto,
    decreases upto,
{
    if upto > 0 {
        lemma_scan_pick_in_range(keys, beats, upto - 1);
    }
}

/// A trace whose test is `beats` on the keys alone ends where `scan_pick` says.
proof fn lemma_trace_is_scan_pick<T, B, P: FnMut(&T, &B, &T, &B) -> bool>(
    test: P,
    beats: spec_fn(B, B) -> bool,
    items: Seq<T>,
    keys: Seq<B>,
    held: Seq<int>,
    upto: int,
)
    requires
        0 <= upto < items.len(),
        scan_trace(test, items, keys, held),
        forall|a: &T, m: &B, c: &T, x: &B, r: bool|
            test.ensures((a, m, c, x), r) ==> r == beats(*m, *x),
    ensures
        held[upto] == scan_pick(keys, beats, upto),
    decreases upto,
{
    if upto > 0 {
        lemma_trace_is_scan_pick(test, beats, items, keys, held, upto - 1);
        let h = held[upto - 1];
        assert(test.ensures((&items[h], &keys[h], &items[upto], &keys[upto]), held[upto] == upto));
    }
}

/// The first element of `it` whose key, as `f` gives it, is least: the scan holds an element
/// until the key of a later one is strictly less. `None` for an empty iterator.
pub fn min_by_key_partial<I, B, F>(it: I, f: F) -> (r: Option<I::Item>)
    where
        I: Iterator,
        B: PartialOrd,
        F: FnMut(&I::Item) -> B,
    requires
        it.obeys_prophetic_iter_laws(),
        it.decrease() is Some,
        forall|i: int|
            0 <= i < it.remaining().len() ==> f.requires((&#[trigger] it.remaining()[i],)),
    ensures
        r is None <==> it.remaining().len() == 0,
        r matches Some(item) ==> it.remaining().contains(item),
        B::obeys_partial_cmp_spec() ==> (r matches Some(item) ==> exists|keys: Seq<B>|
            ({
                &&& #[trigger] keys_of(f, it.remaining(), keys)
                &&& item == it.remaining()[scan_pick(
                    keys,
                    |m: B, x: B| m.is_gt(&x),
                    it.remaining().len() - 1,
                )]
            })),
{
    let test = |_a: &I::Item, m: &B, _c: &I::Item, x: &B| -> (b: bool)
        ensures
            B::obeys_partial_cmp_spec() ==> b == m.is_gt(x),
        { *m > *x };
    match optimum_select(it, f, test) {
        None => None,
        Some((item, _key)) => {
            proof {
                let items = it.remaining();
                let (keys, held) = choose|keys: Seq<B>, held: Seq<int>|
                    {
                        &&& keys_of(f, items, keys)
                        &&& #[trigger] scan_trace(test, items, keys, held)
                        &&& item == items[held.last()]
                    };
                lemma_trace_in_range(test, items, keys, held, items.len() - 1);
                if B::obeys_partial_cmp_spec() {
                    lemma_trace_is_scan_pick(
                        test,
                        |m: B, x: B| m.is_gt(&x),
                        items,
                        keys,
                        held,
                        items.len() - 1,
                    );
                }
            }
            Some(item)
        },
    }
}

/// Every index of a trace lies in the range seen so far.
proof fn lemma_trace_in_range<T, B, P: FnMut(&T, &B, &T, &B) -> bool>(
    test: P,
    items: Seq<T>,
    keys: Seq<B>,
    held: Seq<int>,
    upto: int,
)
    requires
        0 <= upto < items.len(),
        scan_trace(test, items, keys, held),
    ensures
        0 <= held[upto] <= upto,
{
    if upto > 0 {
        let h = held[upto - 1];
        assert(held[upto] == upto || held[upto] == h);
    }
}

/// A trace whose test is `beats` on the items alone ends where `scan_pick` says.
proof fn lemma_item_trace_is_scan_pick<T, B, P: FnMut(&T, &B, &T, &B) -> bool>(
    test: P,
    beats: spec_fn(T, T) -> bool,
    items: Seq<T>,
    keys: Seq<B>,
    held: Seq<int>,
    upto: int,
)
    requires
        0 <= upto < items.len(),
        scan_trace(test, items, keys, held),
        forall|a: &T, m: &B, c: &T, x: &B, r: bool|
            test.ensures((a, m, c, x), r) ==> r == beats(*a, *c),
    ensures
        held[upto] == scan_pick(items, beats, upto),
    decreases upto,
{
    if upto > 0 {
        lemma_item_trace_is_scan_pick(test, beats, items, keys, held, upto - 1);
        let h = held[upto - 1];
        assert(test.ensures((&items[h], &keys[h], &items[upto], &keys[upto]), held[upto] == upto));
    }
}

/// The first of the greatest elements of `it`: the scan holds an element until a later one is
/// strictly greater. `None` for an empty iterator.
pub fn max_partial<I>(it: I) -> (r: Option<I::Item>)
    where
        I: Iterator,
        I::Item: PartialOrd,
    requires
        it.obeys_prophetic_iter_laws(),
        it.decrease() is Some,
    ensures
        r is None <==> it.remaining().len() == 0,
        r matches Some(item) ==> it.remaining().contains(item),
        <I::Item>::obeys_partial_cmp_spec() ==> (r matches Some(item) ==> item
            == it.remaining()[scan_pick(
            it.remaining(),
            |m: I::Item, x: I::Item| m.is_lt(&x),
            it.remaining().len() - 1,
        )]),
{
    let unit = |_a: &I::Item| -> (u: ()) { () };
    let test = |m: &I::Item, _b: &(), x: &I::Item, _d: &()| -> (b: bool)
        ensures
            <I::Item>::obeys_partial_cmp_spec() ==> b == m.is_lt(x),
        { *m < *x };
    match optimum_select(it, unit, test) {
        None => None,
        Some((item, _key)) => {
            proof {
                let items = it.remaining();
                let (keys, held) = choose|keys: Seq<()>, held: Seq<int>|
                    {
                        &&& keys_of(unit, items, keys)
                        &&& #[trigger] scan_trace(test, items, keys, held)
                        &&& item == items[held.last()]
                    };
                lemma_trace_in_range(test, items, keys, held, items.len() - 1);
                if <I::Item>::obeys_partial_cmp_spec() {
                    lemma_item_trace_is_scan_pick(
                        test,
                        |m: I::Item, x: I::Item| m.is_lt(&x),
                        items,
                        keys,
                        held,
                        items.len() - 1,
                    );
                }
            }
            Some(item)
        },
    }
}

/// The first element of `it` whose key, as `f` gives it, is greatest: the scan holds an element
/// until the key of a later one is strictly greater. `None` for an empty iterator.
pub fn max_by_key_partial<I, B, F>(it: I, f: F) -> (r: Option<I::Item>)
    where
        I: Iterator,
        B: PartialOrd,
        F: FnMut(&I::Item) -> B,
    requires
        it.obeys_prophetic_iter_laws(),
        it.decrease() is Some,
        forall|i: int|
            0 <= i < it.remaining().len() ==> f.requires((&#[trigger] it.remaining()[i],)),
    ensures
        r is None <==> it.remaining().len() == 0,
        r matches Some(item) ==> it.remaining().contains(item),
        B::obeys_partial_cmp_spec() ==> (r matches Some(item) ==> exists|keys: Seq<B>|
            ({
                &&& #[trigger] keys_of(f, it.remaining(), keys)
                &&& item == it.remaining()[scan_pick(
                    keys,
                    |m: B, x: B| m.is_lt(&x),
                    it.remaining().len() - 1,
                )]
            })),
{
    let test = |_a: &I::Item, m: &B, _c: &I::Item, x: &B| -> (b: bool)
        ensures
            B::obeys_partial_cmp_spec() ==> b == m.is_lt(x),
        { *m < *x };
    match optimum_select(it, f, test) {
        None => None,
        Some((item, _key)) => {
            proof {
                let items = it.remaining();
                let (keys, held) = choose|keys: Seq<B>, held: Seq<int>|
                    {
                        &&& keys_of(f, items, keys)
                        &&& #[trigger] scan_trace(test, items, keys, held)
                        &&& item == items[held.last()]
                    };
                lemma_trace_in_range(test, items, keys, held, items.len() - 1);
                if B::obeys_partial_cmp_spec() {
                    lemma_trace_is_scan_pick(
                        test,
                        |m: B, x: B| m.is_lt(&x),
                        items,
                        keys,
                        held,
                        items.len() - 1,
                    );
                }
            }
            Some(item)
        },
    }
}

} // verus!
