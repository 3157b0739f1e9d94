//! Palette quantization by cutting the color cube: the pixels are put into boxes of the
//! 15-bit color cube, and the fullest boxes are cut in two, along their longest side and as
//! evenly as the pixels allow, until there are as many boxes as colors are wanted.

use vstd::prelude::*;
use std::ops::Range;
use crate::center::{Color, MAX_PIXELS};
use crate::kmeans::{channel_sum, lemma_channel_sum_bound};
use crate::iter_utils::scan_pick;

verus! {

/// The number of pixels of every 15-bit color, by the color's packed code.
pub type Histogram = [usize; 32768];

/// A box of the 15-bit color cube with the pixels that lie in it.
pub struct Bucket {
    /// The number of 15-bit colors in the box.
    pub volume: usize,
    /// The range of each channel, in 5-bit values.
    pub bounds: [Range<usize>; 3],
    pub pixels: Vec<Color>,
}

/// std's `<[T]>::swap`: exchanges the elements at `a` and `b`, and panics where either index
/// is out of bounds.
pub assume_specification<E>[ <[E]>::swap ](slice: &mut [E], a: usize, b: usize)
    requires
        a < old(slice)@.len(),
        b < old(slice)@.len(),
    ensures
        final(slice)@ == old(slice)@.update(a as int, old(slice)@[b as int]).update(
            b as int,
            old(slice)@[a as int],
        ),
;

/// `marks[i]` is an answer that `f` may give for `s[i]`, for every `i`.
pub open spec fn answers_of<T, F: Fn(&T) -> bool>(f: F, s: Seq<T>, marks: Seq<bool>) -> bool {
    &&& marks.len() == s.len()
    &&& forall|i: int| 0 <= i < s.len() ==> f.ensures((&s[i],), #[trigger] marks[i])
}

/// For every element of `s`, whether `pred` holds of it.
pub open spec fn marks_of<T>(s: Seq<T>, pred: spec_fn(T) -> bool) -> Seq<bool> {
    Seq::new(s.len(), |i: int| pred(s[i]))
}

/// The two parts that a partition makes of `s`: first the unmarked elements, in their order,
/// then the marked ones. Each unmarked element takes the place of the first marked one so
/// far, which moves behind the last.
pub open spec fn parted<T>(s: Seq<T>, marks: Seq<bool>) -> (Seq<T>, Seq<T>)
    decreases s.len(),
{
    if s.len() == 0 {
        (Seq::empty(), Seq::empty())
    } else {
        let (no, yes) = parted(s.drop_last(), marks.drop_last());
        if marks[s.len() - 1] {
            (no, yes.push(s.last()))
        } else if yes.len() > 0 {
            (no.push(s.last()), yes.drop_first().push(yes[0]))
        } else {
            (no.push(s.last()), yes)
        }
    }
}

/// The number of elements of `s` that `q` holds of.
pub open spec fn count_of<T>(s: Seq<T>, q: spec_fn(T) -> bool) -> int
    decreases s.len(),
{
    if s.len() == 0 {
        0
    } else {
        count_of(s.drop_last(), q) + if q(s.last()) {
            1int
        } else {
            0int
        }
    }
}

/// One more element counts one more where `q` holds of it.
pub proof fn lemma_count_of_push<T>(s: Seq<T>, x: T, q: spec_fn(T) -> bool)
    ensures
        count_of(s.push(x), q) == count_of(s, q) + if q(x) {
            1int
        } else {
            0int
        },
        0 <= count_of(s, q) <= s.len(),
    decreases s.len(),
{
    assert(s.push(x).drop_last() == s);
    if s.len() > 0 {
        lemma_count_of_push(s.drop_last(), s.last(), q);
        assert(s.drop_last().push(s.last()) == s);
    }
}

/// Moving the first element behind the last changes no count.
pub proof fn lemma_count_of_rotate<T>(s: Seq<T>, q: spec_fn(T) -> bool)
    requires
        s.len() > 0,
    ensures
        count_of(s.drop_first().push(s[0]), q) == count_of(s, q),
        count_of(s, q) == count_of(s.drop_first(), q) + if q(s[0]) {
            1int
        } else {
            0int
        },
    decreases s.len(),
{
    lemma_count_of_push(s.drop_first(), s[0], q);
    if s.len() == 1 {
        assert(s.drop_first() =~= Seq::<T>::empty());
        assert(s.drop_last() =~= Seq::<T>::empty());
    } else {
        let mid = s.drop_last();
        lemma_count_of_rotate(mid, q);
        assert(mid.drop_first().push(s.last()) == s.drop_first());
        assert(mid[0] == s[0]);
        lemma_count_of_push(mid.drop_first(), s.last(), q);
    }
}

/// A partition by a predicate keeps every element: the second part holds what `pred`
/// accepts, the first what it rejects, and whatever is counted, the two parts together hold
/// as many as the whole.
pub proof fn lemma_parted<T>(s: Seq<T>, pred: spec_fn(T) -> bool, q: spec_fn(T) -> bool)
    ensures
        parted(s, marks_of(s, pred)).0.len() + parted(s, marks_of(s, pred)).1.len() == s.len(),
        parted(s, marks_of(s, pred)).1.len() == count_of(s, pred),
        forall|i: int|
            0 <= i < parted(s, marks_of(s, pred)).0.len() ==> !pred(
                #[trigger] parted(s, marks_of(s, pred)).0[i],
            ),
        forall|i: int|
            0 <= i < parted(s, marks_of(s, pred)).1.len() ==> pred(
                #[trigger] parted(s, marks_of(s, pred)).1[i],
            ),
        count_of(parted(s, marks_of(s, pred)).0, q) + count_of(parted(s, marks_of(s, pred)).1, q)
            == count_of(s, q),
    decreases s.len(),
{
    if s.len() > 0 {
        lemma_parted(s.drop_last(), pred, q);
        assert(marks_of(s, pred).drop_last() == marks_of(s.drop_last(), pred));
        let (no, yes) = parted(s.drop_last(), marks_of(s.drop_last(), pred));
        let x = s.last();
        if pred(x) {
            lemma_count_of_push(yes, x, q);
        } else {
            lemma_count_of_push(no, x, q);
            if yes.len() > 0 {
                lemma_count_of_rotate(yes, q);
            }
        }
    }
}

/// The elements that `pred` rejects keep their order.
pub proof fn lemma_parted_keeps_order<T>(s: Seq<T>, pred: spec_fn(T) -> bool)
    ensures
        parted(s, marks_of(s, pred)).0 == s.filter(|x: T| !pred(x)),
    decreases s.len(),
{
    reveal(Seq::filter);
    if s.len() > 0 {
        lemma_parted_keeps_order(s.drop_last(), pred);
        assert(marks_of(s, pred).drop_last() == marks_of(s.drop_last(), pred));
    }
}

/// Partitions by the given predicate: the elements for which `f` answers `false` are put
/// before those for which it answers `true`. Returns the number of the former.
pub fn partition_by<T, F>(arr: &mut [T], f: F) -> (begin: usize) where F: Fn(&T) -> bool
    requires
        forall|i: int| 0 <= i < old(arr)@.len() ==> f.requires((&#[trigger] old(arr)@[i],)),
    ensures
        exists|marks: Seq<bool>|
            ({
                &&& #[trigger] answers_of(f, old(arr)@, marks)
                &&& final(arr)@ == parted(old(arr)@, marks).0 + parted(old(arr)@, marks).1
                &&& begin == parted(old(arr)@, marks).0.len()
            }),
{
    let ghost before = arr@;
    let ghost mut marks: Seq<bool> = Seq::empty();
    let mut begin: usize = 0;
    let mut end: usize = 0;
    assert(before.take(0) =~= Seq::<T>::empty());
    while end < arr.len()
        invariant
            arr@.len() == before.len(),
            begin <= end <= before.len(),
            forall|i: int| 0 <= i < before.len() ==> f.requires((&#[trigger] before[i],)),
            answers_of(f, before.take(end as int), marks),
            arr@.subrange(0, begin as int) == parted(before.take(end as int), marks).0,
            arr@.subrange(begin as int, end as int) == parted(before.take(end as int), marks).1,
            arr@.subrange(end as int, before.len() as int) == before.subrange(
                end as int,
                before.len() as int,
            ),
        decreases before.len() - end,
    {
        let ghost seen = before.take(end as int);
        let ghost now = arr@;
        let ghost (no, yes) = parted(seen, marks);
        proof {
            assert(now[end as int] == now.subrange(end as int, before.len() as int)[0]);
            assert(now[end as int] == before[end as int]);
        }
        let answer = f(&arr[end]);
        proof {
            let old_marks = marks;
            marks = marks.push(answer);
            assert(marks.drop_last() == old_marks);
            assert(before.take(end + 1).drop_last() == seen);
            assert(before.take(end + 1).last() == before[end as int]);
            assert forall|i: int| 0 <= i < end + 1 implies f.ensures(
                (&before.take(end + 1)[i],),
                #[trigger] marks[i],
            ) by {
                if i < end {
                    assert(seen[i] == before.take(end + 1)[i]);
                    assert(old_marks[i] == marks[i]);
                }
            }
        }
        if !answer {
            arr.swap(begin, end);
            proof {
                assert(arr@.subrange(0, begin + 1) =~= no.push(before[end as int])) by {
                    assert forall|i: int| 0 <= i < begin implies arr@[i] == no[i] by {
                        assert(now.subrange(0, begin as int)[i] == now[i]);
                    }
                }
                if yes.len() > 0 {
                    assert(arr@.subrange(begin + 1, end + 1) =~= yes.drop_first().push(yes[0])) by {
                        assert forall|i: int| begin < i < end implies arr@[i] == yes[i - begin] by {
                            assert(now.subrange(begin as int, end as int)[i - begin] == now[i]);
                        }
                        assert(now.subrange(begin as int, end as int)[0] == now[begin as int]);
                    }
                } else {
                    assert(arr@.subrange(begin + 1, end + 1) =~= yes);
                }
                assert(arr@.subrange(end + 1, before.len() as int) =~= before.subrange(
                    end + 1,
                    before.len() as int,
                )) by {
                    assert forall|i: int| end < i < before.len() implies arr@[i] == before[i] by {
                        assert(now.subrange(end as int, before.len() as int)[i - end] == now[i]);
                    }
                }
            }
            begin += 1;
        } else {
            proof {
                assert(arr@.subrange(begin as int, end + 1) =~= yes.push(before[end as int])) by {
                    assert forall|i: int| begin <= i < end implies arr@[i] == yes[i - begin] by {
                        assert(now.subrange(begin as int, end as int)[i - begin] == now[i]);
                    }
                }
                assert(arr@.subrange(end + 1, before.len() as int) =~= before.subrange(
                    end + 1,
                    before.len() as int,
                )) by {
                    assert forall|i: int| end < i < before.len() implies arr@[i] == before[i] by {
                        assert(now.subrange(end as int, before.len() as int)[i - end] == now[i]);
                    }
                }
            }
        }
        end += 1;
    }
    proof {
        assert(before.take(before.len() as int) == before);
        assert(arr@ =~= arr@.subrange(0, begin as int) + arr@.subrange(
            begin as int,
            before.len() as int,
        ));
    }
    begin
}

/// The 5-bit value of channel `c` of the pixel: its upper five bits.
pub open spec fn cell(px: Color, c: int) -> int {
    px[c] as int / 8
}

/// The code of the 15-bit color of the pixel: five bits for each channel, red uppermost.
pub open spec fn code_of(px: Color) -> int {
    cell(px, 0) * 1024 + cell(px, 1) * 32 + cell(px, 2)
}

/// The pixels with the code `code`.
pub open spec fn has_code(code: int) -> spec_fn(Color) -> bool {
    |px: Color| code_of(px) == code
}

/// The three channels shifted to their places and joined bit by bit.
pub open spec fn pack_spec(color: Color) -> u16 {
    (color[0] as u16) << 10 | (color[1] as u16) << 5 | (color[2] as u16)
}

/// Reduces every channel to its upper five bits.
pub fn to_rgb555(color: Color) -> (r: Color)
    ensures
        r[0] == cell(color, 0),
        r[1] == cell(color, 1),
        r[2] == cell(color, 2),
{
    let c0 = color[0];
    let c1 = color[1];
    let c2 = color[2];
    assert(c0 >> 3 == c0 / 8) by (bit_vector);
    assert(c1 >> 3 == c1 / 8) by (bit_vector);
    assert(c2 >> 3 == c2 / 8) by (bit_vector);
    let r = color[0] >> 3;
    let g = color[1] >> 3;
    let b = color[2] >> 3;
    [r, g, b]
}

/// Packs three channels into one number: red from bit 10, green from bit 5, blue from bit 0.
/// Of channels below 32 that is a number below 32768, different for different colors.
pub fn pack_rgb555(color: Color) -> (r: u16)
    ensures
        r == pack_spec(color),
        color[0] < 32 && color[1] < 32 && color[2] < 32 ==> r == color[0] * 1024 + color[1] * 32
            + color[2],
{
    let c0 = color[0];
    let c1 = color[1];
    let c2 = color[2];
    assert(c0 < 32 && c1 < 32 && c2 < 32 ==> ((c0 as u16) << 10 | (c1 as u16) << 5 | (c2 as u16))
        == (c0 as u16) * 1024 + (c1 as u16) * 32 + (c2 as u16)) by (bit_vector);
    (color[0] as u16) << 10 | (color[1] as u16) << 5 | color[2] as u16
}

/// The packed code of the 15-bit color of a pixel.
fn code_index(px: Color) -> (i: usize)
    ensures
        i == code_of(px),
        i < 32768,
{
    pack_rgb555(to_rgb555(px)) as usize
}

/// Counts the pixels of every 15-bit color.
pub fn generate_histogram(pixels: &[Color]) -> (histo: Box<Histogram>)
    ensures
        forall|code: int|
            0 <= code < 32768 ==> #[trigger] histo[code] == count_of(pixels@, has_code(code)),
{
    let mut histo: Box<Histogram> = Box::new([0; 32768]);
    let mut i: usize = 0;
    assert(pixels@.take(0) =~= Seq::<Color>::empty());
    while i < pixels.len()
        invariant
            0 <= i <= pixels.len(),
            forall|code: int|
                0 <= code < 32768 ==> #[trigger] histo[code] == count_of(
                    pixels@.take(i as int),
                    has_code(code),
                ),
        decreases pixels.len() - i,
    {
        let at = code_index(pixels[i]);
        proof {
            assert(pixels@.take(i + 1) == pixels@.take(i as int).push(pixels@[i as int]));
            assert forall|code: int| 0 <= code < 32768 implies count_of(
                pixels@.take(i + 1),
                has_code(code),
            ) == count_of(pixels@.take(i as int), has_code(code)) + if code == at {
                1int
            } else {
                0int
            } by {
                lemma_count_of_push(pixels@.take(i as int), pixels@[i as int], has_code(code));
            }
            lemma_count_of_push(pixels@.take(i as int), pixels@[i as int], has_code(at as int));
        }
        histo[at] = histo[at] + 1;
        i += 1;
    }
    assert(pixels@.take(pixels.len() as int) == pixels@);
    histo
}

/// The least 5-bit value of channel `c` among the pixels.
pub open spec fn lowest(s: Seq<Color>, c: int) -> int
    decreases s.len(),
{
    if s.len() <= 1 {
        cell(s[0], c)
    } else if cell(s.last(), c) < lowest(s.drop_last(), c) {
        cell(s.last(), c)
    } else {
        lowest(s.drop_last(), c)
    }
}

/// The greatest 5-bit value of channel `c` among the pixels.
pub open spec fn highest(s: Seq<Color>, c: int) -> int
    decreases s.len(),
{
    if s.len() <= 1 {
        cell(s[0], c)
    } else if cell(s.last(), c) > highest(s.drop_last(), c) {
        cell(s.last(), c)
    } else {
        highest(s.drop_last(), c)
    }
}

/// `lowest` and `highest` are values of pixels, and every pixel lies between them.
pub proof fn lemma_extremes(s: Seq<Color>, c: int)
    requires
        s.len() > 0,
        0 <= c < 3,
    ensures
        0 <= lowest(s, c) <= highest(s, c) < 32,
        forall|i: int| 0 <= i < s.len() ==> lowest(s, c) <= cell(#[trigger] s[i], c) <= highest(s, c),
        exists|i: int| 0 <= i < s.len() && cell(s[i], c) == lowest(s, c),
        exists|i: int| 0 <= i < s.len() && cell(s[i], c) == highest(s, c),
    decreases s.len(),
{
    if s.len() > 1 {
        lemma_extremes(s.drop_last(), c);
        let rest = s.drop_last();
        let i = choose|i: int| 0 <= i < rest.len() && cell(rest[i], c) == lowest(rest, c);
        let j = choose|j: int| 0 <= j < rest.len() && cell(rest[j], c) == highest(rest, c);
        assert(s[i] == rest[i] && s[j] == rest[j]);
        assert(cell(s[s.len() - 1], c) == cell(s.last(), c));
        assert forall|k: int| 0 <= k < s.len() implies lowest(s, c) <= cell(#[trigger] s[k], c)
            <= highest(s, c) by {
            if k < rest.len() {
                assert(s[k] == rest[k]);
            }
        }
    } else {
        assert(cell(s[0], c) == lowest(s, c));
    }
}

/// The number of values in a range.
pub open spec fn extent(r: Range<usize>) -> int {
    r.end - r.start
}

impl Bucket {
    /// The box is the smallest that holds the pixels, of which there is at least one, and the
    /// volume is that of the box.
    pub open spec fn wf(self) -> bool {
        &&& self.pixels@.len() > 0
        &&& self.bounds[0].start == lowest(self.pixels@, 0)
        &&& self.bounds[1].start == lowest(self.pixels@, 1)
        &&& self.bounds[2].start == lowest(self.pixels@, 2)
        &&& self.bounds[0].end == highest(self.pixels@, 0) + 1
        &&& self.bounds[1].end == highest(self.pixels@, 1) + 1
        &&& self.bounds[2].end == highest(self.pixels@, 2) + 1
        &&& self.volume == extent(self.bounds[0]) * extent(self.bounds[1]) * extent(self.bounds[2])
    }
}

/// The range of the 5-bit values of channel `c` among the pixels.
fn channel_range(pixels: &Vec<Color>, c: usize) -> (r: Range<usize>)
    requires
        pixels@.len() > 0,
        c < 3,
    ensures
        r.start == lowest(pixels@, c as int),
        r.end == highest(pixels@, c as int) + 1,
        0 <= r.start < r.end <= 32,
{
    let first = pixels[0][c];
    assert(first >> 3 == first / 8) by (bit_vector);
    let mut min: u8 = pixels[0][c] >> 3;
    let mut max: u8 = pixels[0][c] >> 3;
    let mut i: usize = 1;
    assert(pixels@.take(1).len() == 1);
    while i < pixels.len()
        invariant
            1 <= i <= pixels.len(),
            c < 3,
            min == lowest(pixels@.take(i as int), c as int),
            max == highest(pixels@.take(i as int), c as int),
        decreases pixels.len() - i,
    {
        let v = pixels[i][c];
        assert(v >> 3 == v / 8) by (bit_vector);
        let at: u8 = pixels[i][c] >> 3;
        proof {
            assert(pixels@.take(i + 1).drop_last() == pixels@.take(i as int));
            assert(pixels@.take(i + 1).last() == pixels@[i as int]);
        }
        if at < min {
            min = at;
        }
        if at > max {
            max = at;
        }
        i += 1;
    }
    proof {
        assert(pixels@.take(pixels.len() as int) == pixels@);
        lemma_extremes(pixels@, c as int);
    }
    (min as usize)..((max + 1) as usize)
}

/// The smallest box that holds the pixels, with the pixels.
pub fn make_bucket(pixels: Vec<Color>) -> (b: Bucket)
    requires
        pixels@.len() > 0,
    ensures
        b.wf(),
        b.pixels@ == pixels@,
{
    let r0 = channel_range(&pixels, 0);
    let r1 = channel_range(&pixels, 1);
    let r2 = channel_range(&pixels, 2);
    let d0 = r0.end - r0.start;
    let d1 = r1.end - r1.start;
    let d2 = r2.end - r2.start;
    assert(d0 * d1 <= 32 * 32) by (nonlinear_arith)
        requires
            0 <= d0 <= 32,
            0 <= d1 <= 32,
    ;
    assert((d0 * d1) * d2 <= 32 * 32 * 32) by (nonlinear_arith)
        requires
            0 <= d0 * d1 <= 32 * 32,
            0 <= d2 <= 32,
    ;
    let volume = d0 * d1 * d2;
    Bucket { volume: volume, bounds: [r0, r1, r2], pixels: pixels }
}

/// The color of a box: the mean of its pixels, channel by channel, rounded down.
pub fn color_from_bucket(bucket: Bucket) -> (color: Color)
    requires
        0 < bucket.pixels@.len() <= MAX_PIXELS,
    ensures
        color[0] == channel_sum(bucket.pixels@, 0) / (bucket.pixels@.len() as int),
        color[1] == channel_sum(bucket.pixels@, 1) / (bucket.pixels@.len() as int),
        color[2] == channel_sum(bucket.pixels@, 2) / (bucket.pixels@.len() as int),
{
    let mut ret: [u64; 3] = [0, 0, 0];
    let mut i: usize = 0;
    assert(bucket.pixels@.take(0) =~= Seq::<Color>::empty());
    while i < bucket.pixels.len()
        invariant
            0 <= i <= bucket.pixels.len() <= MAX_PIXELS,
            ret[0] == channel_sum(bucket.pixels@.take(i as int), 0),
            ret[1] == channel_sum(bucket.pixels@.take(i as int), 1),
            ret[2] == channel_sum(bucket.pixels@.take(i as int), 2),
        decreases bucket.pixels.len() - i,
    {
        let c = bucket.pixels[i];
        proof {
            assert(bucket.pixels@.take(i + 1).drop_last() == bucket.pixels@.take(i as int));
            assert(bucket.pixels@.take(i + 1).last() == c);
            lemma_channel_sum_bound(bucket.pixels@.take(i as int), 0);
            lemma_channel_sum_bound(bucket.pixels@.take(i as int), 1);
            lemma_channel_sum_bound(bucket.pixels@.take(i as int), 2);
        }
        ret = [ret[0] + c[0] as u64, ret[1] + c[1] as u64, ret[2] + c[2] as u64];
        i += 1;
    }
    proof {
        assert(bucket.pixels@.take(bucket.pixels.len() as int) == bucket.pixels@);
        lemma_channel_sum_bound(bucket.pixels@, 0);
        lemma_channel_sum_bound(bucket.pixels@, 1);
        lemma_channel_sum_bound(bucket.pixels@, 2);
    }
    let n = bucket.pixels.len() as u64;
    let q0 = ret[0] / n;
    let q1 = ret[1] / n;
    let q2 = ret[2] / n;
    proof {
        lemma_mean_channel(ret[0] as int, n as int);
        lemma_mean_channel(ret[1] as int, n as int);
        lemma_mean_channel(ret[2] as int, n as int);
    }
    [q0 as u8, q1 as u8, q2 as u8]
}

proof fn lemma_mean_channel(sum: int, n: int)
    requires
        n >= 1,
        0 <= sum <= 255 * n,
    ensures
        0 <= sum / n <= 255,
{
    assert(0 <= sum / n <= 255) by (nonlinear_arith)
        requires
            n >= 1,
            0 <= sum <= 255 * n,
    ;
}

/// Where `q` is one of `q1` and `q2` and never both, on the elements of `s`, the elements
/// with `q` are those with `q1` and those with `q2`.
pub proof fn lemma_count_of_split<T>(
    s: Seq<T>,
    q: spec_fn(T) -> bool,
    q1: spec_fn(T) -> bool,
    q2: spec_fn(T) -> bool,
)
    requires
        forall|i: int|
            0 <= i < s.len() ==> (q(#[trigger] s[i]) <==> q1(s[i]) || q2(s[i])) && !(q1(s[i])
                && q2(s[i])),
    ensures
        count_of(s, q) == count_of(s, q1) + count_of(s, q2),
        0 <= count_of(s, q1),
        0 <= count_of(s, q2),
        count_of(s, q) <= s.len(),
    decreases s.len(),
{
    if s.len() > 0 {
        let rest = s.drop_last();
        assert forall|i: int| 0 <= i < rest.len() implies (q(#[trigger] rest[i]) <==> q1(rest[i])
            || q2(rest[i])) && !(q1(rest[i]) && q2(rest[i])) by {
            assert(rest[i] == s[i]);
        }
        lemma_count_of_split(rest, q, q1, q2);
        assert(s.last() == s[s.len() - 1]);
    }
}

/// Predicates that agree on the elements of `s` count the same.
pub proof fn lemma_count_of_same<T>(s: Seq<T>, q1: spec_fn(T) -> bool, q2: spec_fn(T) -> bool)
    requires
        forall|i: int| 0 <= i < s.len() ==> (q1(#[trigger] s[i]) <==> q2(s[i])),
    ensures
        count_of(s, q1) == count_of(s, q2),
        0 <= count_of(s, q1) <= s.len(),
    decreases s.len(),
{
    if s.len() > 0 {
        let rest = s.drop_last();
        assert forall|i: int| 0 <= i < rest.len() implies (q1(#[trigger] rest[i]) <==> q2(
            rest[i],
        )) by {
            assert(rest[i] == s[i]);
        }
        lemma_count_of_same(rest, q1, q2);
        assert(s.last() == s[s.len() - 1]);
    }
}

/// The place value of a channel in a code.
pub open spec fn place(axis: int) -> int {
    if axis == 0 {
        1024
    } else if axis == 1 {
        32
    } else {
        1
    }
}

/// The code of the 15-bit color with the 5-bit values `i`, `j` and `k` in the channels `x`,
/// `y` and `z`.
pub open spec fn code_at(x: int, y: int, z: int, i: int, j: int, k: int) -> int {
    i * place(x) + j * place(y) + k * place(z)
}

/// `x`, `y` and `z` are the three channels, in one of the orders in which a box is gone
/// through.
pub open spec fn is_order(x: int, y: int, z: int) -> bool {
    ||| (x == 0 && y == 1 && z == 2)
    ||| (x == 1 && y == 0 && z == 2)
    ||| (x == 2 && y == 0 && z == 1)
}

/// The pixels whose channel `x` has the 5-bit value `i`.
pub open spec fn on_plane(x: int, i: int) -> spec_fn(Color) -> bool {
    |p: Color| cell(p, x) == i
}

/// The pixels whose channel `x` has a 5-bit value below `i`.
pub open spec fn under(x: int, i: int) -> spec_fn(Color) -> bool {
    |p: Color| cell(p, x) < i
}

/// The pixels of the plane `i` of channel `x` whose channel `y` lies in `j_lo..j_hi` and whose
/// channel `z` lies in `k_lo..k_hi`.
pub open spec fn in_slab(
    x: int,
    y: int,
    z: int,
    i: int,
    j_lo: int,
    j_hi: int,
    k_lo: int,
    k_hi: int,
) -> spec_fn(Color) -> bool {
    |p: Color| cell(p, x) == i && j_lo <= cell(p, y) < j_hi && k_lo <= cell(p, z) < k_hi
}

/// The histogram entries of the codes `(i, j, k)` with `k` in `k_lo..k_hi`, added up.
pub open spec fn row_sum(
    h: Seq<usize>,
    x: int,
    y: int,
    z: int,
    i: int,
    j: int,
    k_lo: int,
    k_hi: int,
) -> int
    decreases k_hi - k_lo,
{
    if k_hi <= k_lo {
        0
    } else {
        row_sum(h, x, y, z, i, j, k_lo, k_hi - 1) + h[code_at(x, y, z, i, j, k_hi - 1)]
    }
}

/// The histogram entries of the codes `(i, j, k)` with `j` in `j_lo..j_hi` and `k` in
/// `k_lo..k_hi`, added up.
pub open spec fn slab_sum(
    h: Seq<usize>,
    x: int,
    y: int,
    z: int,
    i: int,
    j_lo: int,
    j_hi: int,
    k_lo: int,
    k_hi: int,
) -> int
    decreases j_hi - j_lo,
{
    if j_hi <= j_lo {
        0
    } else {
        slab_sum(h, x, y, z, i, j_lo, j_hi - 1, k_lo, k_hi) + row_sum(
            h,
            x,
            y,
            z,
            i,
            j_hi - 1,
            k_lo,
            k_hi,
        )
    }
}

/// The histogram counts the pixels of the box: for every code of the box, its entry is the
/// number of the pixels with that code.
pub open spec fn fits(h: Seq<usize>, bounds: [Range<usize>; 3], pixels: Seq<Color>) -> bool {
    &&& h.len() == 32768
    &&& forall|a: int, b: int, c: int|
        bounds[0].start <= a < bounds[0].end && bounds[1].start <= b < bounds[1].end
            && bounds[2].start <= c < bounds[2].end ==> h[#[trigger] code_at(0, 1, 2, a, b, c)]
            == count_of(pixels, has_code(code_at(0, 1, 2, a, b, c)))
}

/// The pixels of a box lie within its bounds, and the bounds within the cube.
pub proof fn lemma_bucket_box(b: Bucket, c: int)
    requires
        b.wf(),
        0 <= c < 3,
    ensures
        0 <= b.bounds[c].start < b.bounds[c].end <= 32,
        forall|i: int|
            0 <= i < b.pixels@.len() ==> b.bounds[c].start <= cell(#[trigger] b.pixels@[i], c)
                < b.bounds[c].end,
{
    lemma_extremes(b.pixels@, c);
}

proof fn lemma_code_at(x: int, y: int, z: int, i: int, j: int, k: int, p: Color)
    requires
        is_order(x, y, z),
        0 <= i < 32,
        0 <= j < 32,
        0 <= k < 32,
    ensures
        has_code(code_at(x, y, z, i, j, k))(p) <==> cell(p, x) == i && cell(p, y) == j && cell(
            p,
            z,
        ) == k,
        0 <= code_at(x, y, z, i, j, k) < 32768,
        x == 0 ==> code_at(x, y, z, i, j, k) == code_at(0, 1, 2, i, j, k),
        x == 1 ==> code_at(x, y, z, i, j, k) == code_at(0, 1, 2, j, i, k),
        x == 2 ==> code_at(x, y, z, i, j, k) == code_at(0, 1, 2, j, k, i),
{
}

/// The three bounds lie within the cube, and so do the pixels within the bounds.
pub open spec fn boxed(bounds: [Range<usize>; 3], pixels: Seq<Color>) -> bool {
    forall|c: int|
        0 <= c < 3 ==> 0 <= (#[trigger] bounds[c]).start <= bounds[c].end <= 32 && forall|i: int|
            0 <= i < pixels.len() ==> bounds[c].start <= cell(#[trigger] pixels[i], c)
                < bounds[c].end
}

/// The entries of a row of the box add up to the number of the pixels in the row.
proof fn lemma_row_counts(
    h: Seq<usize>,
    bounds: [Range<usize>; 3],
    pixels: Seq<Color>,
    x: int,
    y: int,
    z: int,
    i: int,
    j: int,
    k_hi: int,
)
    requires
        fits(h, bounds, pixels),
        boxed(bounds, pixels),
        is_order(x, y, z),
        bounds[x].start <= i < bounds[x].end,
        bounds[y].start <= j < bounds[y].end,
        bounds[z].start <= k_hi <= bounds[z].end,
    ensures
        row_sum(h, x, y, z, i, j, bounds[z].start as int, k_hi) == count_of(
            pixels,
            in_slab(x, y, z, i, j, j + 1, bounds[z].start as int, k_hi),
        ),
    decreases k_hi - bounds[z].start,
{
    let k_lo = bounds[z].start as int;
    let all = in_slab(x, y, z, i, j, j + 1, k_lo, k_hi);
    if k_hi <= k_lo {
        lemma_count_of_same(pixels, all, |p: Color| false);
        lemma_count_of_none(pixels);
    } else {
        lemma_row_counts(h, bounds, pixels, x, y, z, i, j, k_hi - 1);
        let code = code_at(x, y, z, i, j, k_hi - 1);
        let before = in_slab(x, y, z, i, j, j + 1, k_lo, k_hi - 1);
        assert(bounds[0].end <= 32 && bounds[1].end <= 32 && bounds[2].end <= 32);
        assert forall|n: int| 0 <= n < pixels.len() implies (all(#[trigger] pixels[n]) <==> before(
            pixels[n],
        ) || has_code(code)(pixels[n])) && !(before(pixels[n]) && has_code(code)(pixels[n])) by {
            lemma_code_at(x, y, z, i, j, k_hi - 1, pixels[n]);
        }
        lemma_count_of_split(pixels, all, before, has_code(code));
        lemma_code_at(x, y, z, i, j, k_hi - 1, pixels[0]);
        if x == 0 {
            assert(h[code_at(0, 1, 2, i, j, k_hi - 1)] == count_of(pixels, has_code(code)));
        } else if x == 1 {
            assert(h[code_at(0, 1, 2, j, i, k_hi - 1)] == count_of(pixels, has_code(code)));
        } else {
            assert(h[code_at(0, 1, 2, j, k_hi - 1, i)] == count_of(pixels, has_code(code)));
        }
    }
}

/// Nothing is counted by a predicate that never holds.
pub proof fn lemma_count_of_none<T>(s: Seq<T>)
    ensures
        count_of(s, |p: T| false) == 0,
    decreases s.len(),
{
    if s.len() > 0 {
        lemma_count_of_none(s.drop_last());
    }
}

/// The entries of a slab of the box add up to the number of the pixels in the slab.
proof fn lemma_slab_counts(
    h: Seq<usize>,
    bounds: [Range<usize>; 3],
    pixels: Seq<Color>,
    x: int,
    y: int,
    z: int,
    i: int,
    j_hi: int,
)
    requires
        fits(h, bounds, pixels),
        boxed(bounds, pixels),
        is_order(x, y, z),
        bounds[x].start <= i < bounds[x].end,
        bounds[y].start <= j_hi <= bounds[y].end,
    ensures
        slab_sum(
            h,
            x,
            y,
            z,
            i,
            bounds[y].start as int,
            j_hi,
            bounds[z].start as int,
            bounds[z].end as int,
        ) == count_of(
            pixels,
            in_slab(
                x,
                y,
                z,
                i,
                bounds[y].start as int,
                j_hi,
                bounds[z].start as int,
                bounds[z].end as int,
            ),
        ),
    decreases j_hi - bounds[y].start,
{
    let j_lo = bounds[y].start as int;
    let k_lo = bounds[z].start as int;
    let k_hi = bounds[z].end as int;
    let all = in_slab(x, y, z, i, j_lo, j_hi, k_lo, k_hi);
    if j_hi <= j_lo {
        lemma_count_of_same(pixels, all, |p: Color| false);
        lemma_count_of_none(pixels);
    } else {
        lemma_slab_counts(h, bounds, pixels, x, y, z, i, j_hi - 1);
        assert(bounds[z].start <= bounds[z].end);
        lemma_row_counts(h, bounds, pixels, x, y, z, i, j_hi - 1, k_hi);
        let before = in_slab(x, y, z, i, j_lo, j_hi - 1, k_lo, k_hi);
        let row = in_slab(x, y, z, i, j_hi - 1, j_hi, k_lo, k_hi);
        lemma_count_of_split(pixels, all, before, row);
    }
}

/// The entries of a plane of the box add up to the number of the pixels on the plane.
proof fn lemma_plane_counts(
    h: Seq<usize>,
    bounds: [Range<usize>; 3],
    pixels: Seq<Color>,
    x: int,
    y: int,
    z: int,
    i: int,
)
    requires
        fits(h, bounds, pixels),
        boxed(bounds, pixels),
        is_order(x, y, z),
        bounds[x].start <= i < bounds[x].end,
    ensures
        slab_sum(
            h,
            x,
            y,
            z,
            i,
            bounds[y].start as int,
            bounds[y].end as int,
            bounds[z].start as int,
            bounds[z].end as int,
        ) == count_of(pixels, on_plane(x, i)),
{
    assert(bounds[y].start <= bounds[y].end);
    lemma_slab_counts(h, bounds, pixels, x, y, z, i, bounds[y].end as int);
    lemma_count_of_same(
        pixels,
        in_slab(
            x,
            y,
            z,
            i,
            bounds[y].start as int,
            bounds[y].end as int,
            bounds[z].start as int,
            bounds[z].end as int,
        ),
        on_plane(x, i),
    );
}

/// The pixels below `i + 1` are those below `i` and those on the plane `i`.
pub proof fn lemma_under_step(pixels: Seq<Color>, x: int, i: int)
    ensures
        count_of(pixels, under(x, i + 1)) == count_of(pixels, under(x, i)) + count_of(
            pixels,
            on_plane(x, i),
        ),
        0 <= count_of(pixels, under(x, i)),
        0 <= count_of(pixels, on_plane(x, i)),
        count_of(pixels, under(x, i + 1)) <= pixels.len(),
{
    lemma_count_of_split(pixels, under(x, i + 1), under(x, i), on_plane(x, i));
}

/// How far a cut of channel `x` below the value `i` is from halving the pixels: the difference
/// between the numbers of pixels on its two sides.
pub open spec fn imbalance(pixels: Seq<Color>, x: int, i: int) -> int {
    let d = 2 * count_of(pixels, under(x, i)) - pixels.len();
    if d < 0 {
        -d
    } else {
        d
    }
}

/// The value below which channel `x` is cut: the first of the values from 0 to 31 with the
/// least imbalance.
pub open spec fn best_split(pixels: Seq<Color>, x: int) -> int {
    scan_pick(
        Seq::new(32, |i: int| imbalance(pixels, x, i)),
        |held: int, later: int| held > later,
        31,
    )
}

/// The number of 5-bit values that channel `c` of the pixels ranges over.
pub open spec fn span(pixels: Seq<Color>, c: int) -> int {
    highest(pixels, c) - lowest(pixels, c) + 1
}

/// The channel along which the box of the pixels is cut: the first of those with the
/// greatest span.
pub open spec fn axis_of(pixels: Seq<Color>) -> int {
    if span(pixels, 0) >= span(pixels, 1) && span(pixels, 0) >= span(pixels, 2) {
        0
    } else if span(pixels, 1) >= span(pixels, 2) {
        1
    } else {
        2
    }
}

/// The value below which the box of the pixels is cut.
pub open spec fn cut_of(pixels: Seq<Color>) -> int {
    best_split(pixels, axis_of(pixels))
}

/// The cut leaves pixels on both sides.
pub open spec fn can_split(pixels: Seq<Color>) -> bool {
    0 < count_of(pixels, under(axis_of(pixels), cut_of(pixels))) < pixels.len()
}

/// The pixels from the cut upwards, in their order, and the pixels below the cut.
pub open spec fn halves(pixels: Seq<Color>) -> (Seq<Color>, Seq<Color>) {
    parted(pixels, marks_of(pixels, under(axis_of(pixels), cut_of(pixels))))
}

/// The 5-bit value of channel `x` of the pixel.
fn cell_of(px: &Color, x: usize) -> (r: u8)
    requires
        x < 3,
    ensures
        r == cell(*px, x as int),
        r < 32,
{
    let v = px[x];
    assert(v >> 3 == v / 8) by (bit_vector);
    px[x] >> 3
}

/// The number of the pixels of the box whose channel `x` has the value `i`, from the
/// histogram.
fn plane_count(bucket: &Bucket, histogram: &Histogram, x: usize, y: usize, z: usize, i: usize) -> (sum:
    usize)
    requires
        bucket.wf(),
        fits(histogram@, bucket.bounds, bucket.pixels@),
        is_order(x as int, y as int, z as int),
        bucket.bounds[x as int].start <= i < bucket.bounds[x as int].end,
    ensures
        sum == count_of(bucket.pixels@, on_plane(x as int, i as int)),
{
    let ghost h = histogram@;
    let ghost bounds = bucket.bounds;
    let ghost pixels = bucket.pixels@;
    let ghost (xi, yi, zi) = (x as int, y as int, z as int);
    let ghost j_lo = bounds[yi].start as int;
    let ghost k_lo = bounds[zi].start as int;
    let ghost k_end = bounds[zi].end as int;
    proof {
        lemma_bucket_box(*bucket, 0);
        lemma_bucket_box(*bucket, 1);
        lemma_bucket_box(*bucket, 2);
        assert(boxed(bounds, pixels));
    }
    let mut px: Color = [0, 0, 0];
    px[x] = i as u8;
    let mut sum: usize = 0;
    let mut j: usize = bucket.bounds[y].start;
    while j < bucket.bounds[y].end
        invariant
            fits(h, bounds, pixels),
            boxed(bounds, pixels),
            h == histogram@,
            bounds == bucket.bounds,
            pixels == bucket.pixels@,
            (xi, yi, zi) == (x as int, y as int, z as int),
            is_order(xi, yi, zi),
            bounds[xi].start <= i < bounds[xi].end,
            j_lo == bounds[yi].start,
            k_lo == bounds[zi].start,
            k_end == bounds[zi].end,
            j_lo <= j <= bounds[yi].end,
            px[xi] == i,
            sum == slab_sum(h, xi, yi, zi, i as int, j_lo, j as int, k_lo, k_end),
        decreases bucket.bounds[y as int].end - j,
    {
        px[y] = j as u8;
        let mut k: usize = bucket.bounds[z].start;
        let ghost done = sum;
        while k < bucket.bounds[z].end
            invariant
                fits(h, bounds, pixels),
                boxed(bounds, pixels),
                h == histogram@,
                bounds == bucket.bounds,
                pixels == bucket.pixels@,
                (xi, yi, zi) == (x as int, y as int, z as int),
                is_order(xi, yi, zi),
                bounds[xi].start <= i < bounds[xi].end,
                j_lo == bounds[yi].start,
                k_lo == bounds[zi].start,
                k_end == bounds[zi].end,
                j_lo <= j < bounds[yi].end,
                k_lo <= k <= k_end,
                px[xi] == i,
                px[yi] == j,
                done == slab_sum(h, xi, yi, zi, i as int, j_lo, j as int, k_lo, k_end),
                sum == done + row_sum(h, xi, yi, zi, i as int, j as int, k_lo, k as int),
            decreases bucket.bounds[z as int].end - k,
        {
            px[z] = k as u8;
            let p = pack_rgb555(px);
            proof {
                lemma_code_at(xi, yi, zi, i as int, j as int, k as int, px);
                assert(px[xi] == i && px[yi] == j && px[zi] == k);
                assert(i < 32 && j < 32 && k < 32);
                assert(p == px[0] * 1024 + px[1] * 32 + px[2]);
                assert(p == code_at(xi, yi, zi, i as int, j as int, k as int)) by {
                    if xi == 0 {
                        assert(px[0] == i && px[1] == j && px[2] == k);
                    } else if xi == 1 {
                        assert(px[1] == i && px[0] == j && px[2] == k);
                    } else {
                        assert(px[2] == i && px[0] == j && px[1] == k);
                    }
                }
                lemma_slab_counts(h, bounds, pixels, xi, yi, zi, i as int, j as int);
                lemma_row_counts(h, bounds, pixels, xi, yi, zi, i as int, j as int, k + 1);
                let slab = in_slab(xi, yi, zi, i as int, j_lo, j as int, k_lo, k_end);
                let row = in_slab(xi, yi, zi, i as int, j as int, j + 1, k_lo, k + 1);
                lemma_count_of_split(pixels, |q: Color| slab(q) || row(q), slab, row);
                assert(row_sum(h, xi, yi, zi, i as int, j as int, k_lo, k + 1) == row_sum(
                    h,
                    xi,
                    yi,
                    zi,
                    i as int,
                    j as int,
                    k_lo,
                    k as int,
                ) + h[p as int]);
                assert(sum + h[p as int] <= pixels.len() == bucket.pixels.len());
            }
            sum += histogram[p as usize];
            k += 1;
        }
        j += 1;
    }
    proof {
        lemma_plane_counts(h, bounds, pixels, xi, yi, zi, i as int);
    }
    sum
}

/// For each value of channel `x`, the number of the pixels of the box that have it, and for
/// each value the number of those below it.
fn prefix_counts(bucket: &Bucket, histogram: &Histogram, x: usize, y: usize, z: usize) -> (prefix_sums:
    [usize; 32])
    requires
        bucket.wf(),
        fits(histogram@, bucket.bounds, bucket.pixels@),
        is_order(x as int, y as int, z as int),
    ensures
        forall|i: int|
            0 <= i < 32 ==> #[trigger] prefix_sums[i] == count_of(
                bucket.pixels@,
                under(x as int, i),
            ),
{
    let ghost pixels = bucket.pixels@;
    proof {
        lemma_bucket_box(*bucket, 0);
        lemma_bucket_box(*bucket, 1);
        lemma_bucket_box(*bucket, 2);
    }
    let mut buckets: [usize; 32] = [0; 32];
    let mut i: usize = bucket.bounds[x].start;
    while i < bucket.bounds[x].end
        invariant
            bucket.wf(),
            fits(histogram@, bucket.bounds, bucket.pixels@),
            is_order(x as int, y as int, z as int),
            bucket.bounds[x as int].start <= i <= bucket.bounds[x as int].end <= 32,
            forall|t: int| 0 <= t < 32 && !(bucket.bounds[x as int].start <= t < i) ==> buckets[t] == 0,
            forall|t: int|
                bucket.bounds[x as int].start <= t < i ==> #[trigger] buckets[t] == count_of(
                    bucket.pixels@,
                    on_plane(x as int, t),
                ),
        decreases bucket.bounds[x as int].end - i,
    {
        let sum = plane_count(bucket, histogram, x, y, z, i);
        buckets[i] = sum;
        i += 1;
    }
    let mut prefix_sums: [usize; 32] = [0; 32];
    proof {
        lemma_count_of_same(pixels, under(x as int, 0), |p: Color| false);
        lemma_count_of_none(pixels);
    }
    let mut i: usize = 1;
    while i < 32
        invariant
            1 <= i <= 32,
            pixels == bucket.pixels@,
            x < 3,
            0 <= bucket.bounds[x as int].start <= bucket.bounds[x as int].end <= 32,
            forall|n: int|
                0 <= n < pixels.len() ==> bucket.bounds[x as int].start <= cell(
                    #[trigger] pixels[n],
                    x as int,
                ) < bucket.bounds[x as int].end,
            forall|t: int|
                0 <= t < 32 && !(bucket.bounds[x as int].start <= t < bucket.bounds[x as int].end)
                    ==> buckets[t] == 0,
            forall|t: int|
                bucket.bounds[x as int].start <= t < bucket.bounds[x as int].end
                    ==> #[trigger] buckets[t] == count_of(pixels, on_plane(x as int, t)),
            forall|t: int|
                0 <= t < i ==> #[trigger] prefix_sums[t] == count_of(pixels, under(x as int, t)),
            forall|t: int| i <= t < 32 ==> prefix_sums[t] == 0,
        decreases 32 - i,
    {
        proof {
            let t = i - 1;
            lemma_under_step(pixels, x as int, t);
            if !(bucket.bounds[x as int].start <= t < bucket.bounds[x as int].end) {
                lemma_count_of_same(pixels, on_plane(x as int, t), |p: Color| false);
                lemma_count_of_none(pixels);
            }
            assert(buckets[t] == count_of(pixels, on_plane(x as int, t)));
            assert(prefix_sums[t] == count_of(pixels, under(x as int, t)));
            assert(prefix_sums[t] + buckets[t] <= pixels.len() == bucket.pixels.len());
        }
        prefix_sums[i] = prefix_sums[i - 1] + buckets[i - 1];
        i += 1;
    }
    prefix_sums
}

/// The imbalance of the cut below `i`, from the number of pixels below `i`.
fn imbalance_of(below: usize, len: usize) -> (r: i64)
    requires
        below <= len <= MAX_PIXELS,
    ensures
        r == if 2 * below - len < 0 {
            len - 2 * below
        } else {
            2 * below - len
        },
{
    let d: i64 = 2 * (below as i64) - (len as i64);
    if d < 0 {
        -d
    } else {
        d
    }
}

/// The first of the values from 0 to 31 with the least imbalance.
fn find_best_split(prefix_sums: &[usize; 32], len: usize, Ghost(pixels): Ghost<Seq<Color>>, Ghost(x): Ghost<int>) -> (best:
    usize)
    requires
        pixels.len() == len,
        len <= MAX_PIXELS,
        forall|i: int| 0 <= i < 32 ==> #[trigger] prefix_sums[i] == count_of(pixels, under(x, i)),
    ensures
        best == best_split(pixels, x),
        best < 32,
{
    let ghost keys = Seq::new(32, |i: int| imbalance(pixels, x, i));
    let ghost beats = |held: int, later: int| held > later;
    proof {
        lemma_count_of_same(pixels, under(x, 0), under(x, 0));
    }
    let mut best: usize = 0;
    let mut best_key: i64 = imbalance_of(prefix_sums[0], len);
    let mut i: usize = 1;
    while i < 32
        invariant
            1 <= i <= 32,
            pixels.len() == len,
            len <= MAX_PIXELS,
            forall|t: int| 0 <= t < 32 ==> #[trigger] prefix_sums[t] == count_of(pixels, under(x, t)),
            keys == Seq::new(32, |i: int| imbalance(pixels, x, i)),
            beats == |held: int, later: int| held > later,
            best == scan_pick(keys, beats, i - 1),
            best < i,
            best_key == keys[best as int],
        decreases 32 - i,
    {
        proof {
            lemma_count_of_same(pixels, under(x, i as int), under(x, i as int));
        }
        let key = imbalance_of(prefix_sums[i], len);
        if key < best_key {
            best = i;
            best_key = key;
        }
        i += 1;
    }
    best
}

/// Cuts a box in two along its longest side, below the value that comes nearest to halving
/// its pixels. Where that cut would leave one side without pixels the box comes back whole;
/// else the pixels from the cut upwards form the first new box, in their order, and the
/// pixels below the cut the second.
pub fn split_bucket(mut bucket: Bucket, histogram: &Histogram) -> (r: (Option<Bucket>, Option<Bucket>))
    requires
        bucket.wf(),
        bucket.pixels@.len() <= MAX_PIXELS,
        fits(histogram@, bucket.bounds, bucket.pixels@),
    ensures
        !can_split(bucket.pixels@) ==> r.0 == Some(bucket) && r.1 is None,
        can_split(bucket.pixels@) ==> ({
            &&& r.0 matches Some(upper)
            &&& r.1 matches Some(lower)
            &&& upper.wf()
            &&& lower.wf()
            &&& upper.pixels@ == halves(bucket.pixels@).0
            &&& lower.pixels@ == halves(bucket.pixels@).1
        }),
{
    let ghost pixels = bucket.pixels@;
    let ghost whole = bucket;
    let len = bucket.pixels.len();
    if len == 1 {
        return (Some(bucket), None);
    }
    proof {
        lemma_bucket_box(bucket, 0);
        lemma_bucket_box(bucket, 1);
        lemma_bucket_box(bucket, 2);
    }
    // Find the widest axis, and the traversal order
    let dx = bucket.bounds[0].end - bucket.bounds[0].start;
    let dy = bucket.bounds[1].end - bucket.bounds[1].start;
    let dz = bucket.bounds[2].end - bucket.bounds[2].start;
    let (x, y, z): (usize, usize, usize) = if dx >= dy && dx >= dz {
        (0, 1, 2)
    } else if dy >= dz {
        (1, 0, 2)
    } else {
        (2, 0, 1)
    };
    let prefix_sums = prefix_counts(&bucket, histogram, x, y, z);
    let best_split = find_best_split(&prefix_sums, len, Ghost(pixels), Ghost(x as int));
    if prefix_sums[best_split] == 0 || prefix_sums[best_split] == len {
        // Can't split into two non-empty buckets
        return (Some(bucket), None);
    }
    let cut = best_split as u8;
    let below = |c: &Color| -> (b: bool)
        ensures
            b == (cell(*c, x as int) < cut),
        { cell_of(c, x) < cut };
    let split_position = partition_by(bucket.pixels.as_mut_slice(), below);
    proof {
        let pred = under(x as int, best_split as int);
        let marks = choose|marks: Seq<bool>|
            {
                &&& #[trigger] answers_of(below, pixels, marks)
                &&& bucket.pixels@ == parted(pixels, marks).0 + parted(pixels, marks).1
                &&& split_position == parted(pixels, marks).0.len()
            };
        assert(marks =~= marks_of(pixels, pred)) by {
            assert forall|i: int| 0 <= i < pixels.len() implies marks[i] == pred(pixels[i]) by {
                assert(below.ensures((&pixels[i],), marks[i]));
            }
        }
        lemma_parted(pixels, pred, pred);
        let (no, yes) = parted(pixels, marks);
        assert(bucket.pixels@.subrange(0, split_position as int) =~= no);
        assert(bucket.pixels@.subrange(split_position as int, len as int) =~= yes);
    }
    let high = bucket.pixels.split_off(split_position);
    (Some(make_bucket(bucket.pixels)), Some(make_bucket(high)))
}

/// Where something is counted, there is an element that counts, and the other way round.
pub proof fn lemma_count_of_witness<T>(s: Seq<T>, q: spec_fn(T) -> bool)
    ensures
        count_of(s, q) > 0 <==> exists|i: int| 0 <= i < s.len() && q(s[i]),
        count_of(s, q) >= 0,
    decreases s.len(),
{
    if s.len() > 0 {
        let rest = s.drop_last();
        lemma_count_of_witness(rest, q);
        if count_of(rest, q) > 0 {
            let i = choose|i: int| 0 <= i < rest.len() && q(rest[i]);
            assert(q(s[i]));
        } else if q(s.last()) {
            assert(q(s[s.len() - 1]));
        } else if exists|i: int| 0 <= i < s.len() && q(s[i]) {
            let i = choose|i: int| 0 <= i < s.len() && q(s[i]);
            assert(i < rest.len());
            assert(q(rest[i]));
        }
    }
}

/// A half of a box again holds all pixels of the image that lie in its own box: where the
/// histogram counts the pixels of the whole, it counts those of each half too.
proof fn lemma_half_fits(h: Seq<usize>, parent: Bucket, child: Bucket, upper: bool)
    requires
        parent.wf(),
        fits(h, parent.bounds, parent.pixels@),
        can_split(parent.pixels@),
        child.wf(),
        child.pixels@ == if upper {
            halves(parent.pixels@).0
        } else {
            halves(parent.pixels@).1
        },
    ensures
        fits(h, child.bounds, child.pixels@),
        child.pixels@.len() <= parent.pixels@.len(),
{
    let s = parent.pixels@;
    let x = axis_of(s);
    let cut = cut_of(s);
    let pred = under(x, cut);
    let (no, yes) = parted(s, marks_of(s, pred));
    let own = child.pixels@;
    let other = if upper {
        yes
    } else {
        no
    };
    lemma_parted(s, pred, pred);
    lemma_bucket_box(parent, 0);
    lemma_bucket_box(parent, 1);
    lemma_bucket_box(parent, 2);
    lemma_bucket_box(child, 0);
    lemma_bucket_box(child, 1);
    lemma_bucket_box(child, 2);
    // The box of the child lies within the box of the parent.
    assert forall|c: int| 0 <= c < 3 implies parent.bounds[c].start <= child.bounds[c].start
        && child.bounds[c].end <= parent.bounds[c].end by {
        lemma_extremes(own, c);
        let lo = lowest(own, c);
        let hi = highest(own, c);
        lemma_parted(s, pred, on_plane(c, lo));
        lemma_parted(s, pred, on_plane(c, hi));
        lemma_count_of_witness(own, on_plane(c, lo));
        lemma_count_of_witness(own, on_plane(c, hi));
        lemma_count_of_witness(other, on_plane(c, lo));
        lemma_count_of_witness(other, on_plane(c, hi));
        lemma_count_of_witness(s, on_plane(c, lo));
        lemma_count_of_witness(s, on_plane(c, hi));
        let i = choose|i: int| 0 <= i < own.len() && cell(own[i], c) == lo;
        assert(on_plane(c, lo)(own[i]));
        let j = choose|j: int| 0 <= j < own.len() && cell(own[j], c) == hi;
        assert(on_plane(c, hi)(own[j]));
        let m = choose|m: int| 0 <= m < s.len() && on_plane(c, lo)(s[m]);
        let n = choose|n: int| 0 <= n < s.len() && on_plane(c, hi)(s[n]);
        assert(parent.bounds[c].start <= cell(s[m], c));
        assert(cell(s[n], c) < parent.bounds[c].end);
    }
    // The cut lies on the far side of the child's box.
    lemma_extremes(own, x);
    let edge = if upper {
        choose|i: int| 0 <= i < own.len() && cell(own[i], x) == lowest(own, x)
    } else {
        choose|i: int| 0 <= i < own.len() && cell(own[i], x) == highest(own, x)
    };
    if upper {
        assert(!pred(no[edge]));
        assert(cut <= child.bounds[x].start);
    } else {
        assert(pred(yes[edge]));
        assert(child.bounds[x].end <= cut);
    }
    assert forall|a: int, b: int, c: int|
        child.bounds[0].start <= a < child.bounds[0].end && child.bounds[1].start <= b
            < child.bounds[1].end && child.bounds[2].start <= c < child.bounds[2].end implies h[#[trigger] code_at(
        0,
        1,
        2,
        a,
        b,
        c,
    )] == count_of(own, has_code(code_at(0, 1, 2, a, b, c))) by {
        let code = code_at(0, 1, 2, a, b, c);
        assert(h[code] == count_of(s, has_code(code)));
        lemma_parted(s, pred, has_code(code));
        assert forall|i: int| 0 <= i < other.len() implies (has_code(code)(#[trigger] other[i])
            <==> false) by {
            lemma_code_at(0, 1, 2, a, b, c, other[i]);
            if upper {
                assert(pred(yes[i]));
            } else {
                assert(!pred(no[i]));
            }
        }
        lemma_count_of_same(other, has_code(code), |p: Color| false);
        lemma_count_of_none(other);
    }
}

/// The number of 15-bit colors in the smallest box that holds the pixels.
pub open spec fn volume_of(pixels: Seq<Color>) -> int {
    span(pixels, 0) * span(pixels, 1) * span(pixels, 2)
}

/// The key by which the next box to cut is chosen: the number of its pixels, or that number
/// times the volume of the box.
pub open spec fn key_of(pixels: Seq<Color>, by_volume: bool) -> int {
    if by_volume {
        pixels.len() * volume_of(pixels)
    } else {
        pixels.len() as int
    }
}

/// A box that the cutting can work on: the smallest around its pixels, not too many of them,
/// and the histogram counts them.
pub open spec fn cuttable(b: Bucket, h: Seq<usize>) -> bool {
    &&& b.wf()
    &&& b.pixels@.len() <= MAX_PIXELS
    &&& fits(h, b.bounds, b.pixels@)
}

/// The pixels of the boxes, box by box.
pub open spec fn contents(queue: Seq<Bucket>) -> Seq<Seq<Color>> {
    Seq::new(queue.len(), |i: int| queue[i].pixels@)
}

/// `after` holds the items of `before` in another order: item `i` of `after` is item
/// `from[i]` of `before`, and every item of `before` is taken once.
pub open spec fn reordered<T>(before: Seq<T>, after: Seq<T>, from: Seq<int>) -> bool {
    &&& after.len() == before.len()
    &&& from.len() == before.len()
    &&& forall|i: int| 0 <= i < from.len() ==> 0 <= #[trigger] from[i] < before.len()
    &&& forall|i: int, j: int|
        0 <= i < j < from.len() ==> #[trigger] from[i] != #[trigger] from[j]
    &&& forall|i: int| 0 <= i < from.len() ==> #[trigger] after[i] == before[from[i]]
}

/// No box has a greater key than a later one.
pub open spec fn rising(boxes: Seq<Seq<Color>>, by_volume: bool) -> bool {
    forall|i: int, j: int|
        0 <= i <= j < boxes.len() ==> key_of(#[trigger] boxes[i], by_volume) <= key_of(
            #[trigger] boxes[j],
            by_volume,
        )
}

/// What becomes of a box when it is cut: its two halves, or the box itself where the cut
/// would leave one side without pixels.
pub open spec fn pieces(pixels: Seq<Color>) -> Seq<Seq<Color>> {
    if can_split(pixels) {
        seq![halves(pixels).0, halves(pixels).1]
    } else {
        seq![pixels]
    }
}

/// One step of the cutting: the boxes are put in rising order of their keys, in one of the
/// ways in which that can be done, and the last of them gives way to its pieces.
pub open spec fn cut_step(before: Seq<Seq<Color>>, after: Seq<Seq<Color>>, by_volume: bool) -> bool {
    exists|sorted: Seq<Seq<Color>>, from: Seq<int>|
        {
            &&& #[trigger] reordered(before, sorted, from)
            &&& rising(sorted, by_volume)
            &&& after == sorted.drop_last() + pieces(sorted.last())
        }
}

/// `end` comes from `start` by `n` steps, each taken while there were fewer than `target`
/// boxes.
pub open spec fn reached(
    start: Seq<Seq<Color>>,
    end: Seq<Seq<Color>>,
    by_volume: bool,
    target: int,
    n: nat,
) -> bool
    decreases n,
{
    if n == 0 {
        end == start
    } else {
        exists|mid: Seq<Seq<Color>>|
            {
                &&& reached(start, mid, by_volume, target, (n - 1) as nat)
                &&& mid.len() < target
                &&& #[trigger] cut_step(mid, end, by_volume)
            }
    }
}

/// `end` comes from `start` by cutting until there are `target` boxes, or for a thousand
/// steps where that many do not come about.
pub open spec fn cut_until(
    start: Seq<Seq<Color>>,
    end: Seq<Seq<Color>>,
    by_volume: bool,
    target: int,
) -> bool {
    exists|n: nat|
        {
            &&& n <= 1000
            &&& #[trigger] reached(start, end, by_volume, target, n)
            &&& (n == 1000 || end.len() >= target)
        }
}

/// One more step, taken while there are fewer than `target` boxes, reaches further.
pub proof fn lemma_reached_step(
    start: Seq<Seq<Color>>,
    mid: Seq<Seq<Color>>,
    end: Seq<Seq<Color>>,
    by_volume: bool,
    target: int,
    n: nat,
)
    requires
        reached(start, mid, by_volume, target, n),
        mid.len() < target,
        cut_step(mid, end, by_volume),
    ensures
        reached(start, end, by_volume, target, n + 1),
{
    assert((n + 1 - 1) as nat == n);
}

/// The key of a box.
fn bucket_key(b: &Bucket, by_volume: bool) -> (key: u64)
    requires
        b.wf(),
        b.pixels@.len() <= MAX_PIXELS,
    ensures
        key == key_of(b.pixels@, by_volume),
{
    proof {
        lemma_bucket_box(*b, 0);
        lemma_bucket_box(*b, 1);
        lemma_bucket_box(*b, 2);
        let d0 = span(b.pixels@, 0);
        let d1 = span(b.pixels@, 1);
        let d2 = span(b.pixels@, 2);
        assert(0 <= d0 * d1 <= 32 * 32) by (nonlinear_arith)
            requires
                0 <= d0 <= 32,
                0 <= d1 <= 32,
        ;
        assert(0 <= (d0 * d1) * d2 <= 32 * 32 * 32) by (nonlinear_arith)
            requires
                0 <= d0 * d1 <= 32 * 32,
                0 <= d2 <= 32,
        ;
        assert(b.pixels@.len() * b.volume <= MAX_PIXELS * 32768) by (nonlinear_arith)
            requires
                0 <= b.pixels@.len() <= MAX_PIXELS,
                0 <= b.volume <= 32768,
        ;
    }
    if by_volume {
        (b.pixels.len() as u64) * (b.volume as u64)
    } else {
        b.pixels.len() as u64
    }
}

/// Puts the boxes in rising order of their keys, by std's `sort_unstable_by_key`: the boxes
/// are the same ones afterwards, each once, and none has a greater key than a later one. In
/// which order boxes of equal keys come is left open.
#[verifier::external_body]
fn sort_queue(queue: &mut Vec<Bucket>, by_volume: bool)
    requires
        forall|i: int|
            0 <= i < old(queue)@.len() ==> (#[trigger] old(queue)@[i]).wf() && old(
                queue,
            )@[i].pixels@.len() <= MAX_PIXELS,
    ensures
        exists|from: Seq<int>| #[trigger] reordered(old(queue)@, final(queue)@, from),
        rising(contents(final(queue)@), by_volume),
{
    queue.sort_unstable_by_key(|b| bucket_key(b, by_volume))
}

/// Cuts boxes until there are `target` of them, or for a thousand steps: in each step the
/// boxes are sorted by their keys and the last one gives way to its pieces.
fn cut_boxes(queue: &mut Vec<Bucket>, histogram: &Histogram, by_volume: bool, target: usize)
    requires
        old(queue)@.len() >= 1,
        forall|i: int| 0 <= i < old(queue)@.len() ==> cuttable(#[trigger] old(queue)@[i], histogram@),
    ensures
        final(queue)@.len() >= 1,
        final(queue)@.len() <= old(queue)@.len() || final(queue)@.len() <= target,
        forall|i: int|
            0 <= i < final(queue)@.len() ==> cuttable(#[trigger] final(queue)@[i], histogram@),
        cut_until(contents(old(queue)@), contents(final(queue)@), by_volume, target as int),
{
    let ghost start = contents(queue@);
    let ghost first_len = queue@.len();
    let mut n_color: usize = queue.len();
    let mut round: usize = 0;
    while round < 1000
        invariant
            round <= 1000,
            n_color == queue@.len(),
            queue@.len() >= 1,
            queue@.len() <= first_len || queue@.len() <= target,
            forall|i: int| 0 <= i < queue@.len() ==> cuttable(#[trigger] queue@[i], histogram@),
            reached(start, contents(queue@), by_volume, target as int, round as nat),
        ensures
            queue@.len() >= 1,
            queue@.len() <= first_len || queue@.len() <= target,
            forall|i: int| 0 <= i < queue@.len() ==> cuttable(#[trigger] queue@[i], histogram@),
            cut_until(start, contents(queue@), by_volume, target as int),
        decreases 1000 - round,
    {
        if n_color >= target {
            break ;
        }
        let ghost before = queue@;
        sort_queue(queue, by_volume);
        let ghost sorted = queue@;
        let ghost from = choose|from: Seq<int>| reordered(before, sorted, from);
        proof {
            assert forall|i: int| 0 <= i < sorted.len() implies cuttable(
                #[trigger] sorted[i],
                histogram@,
            ) by {
                assert(sorted[i] == before[from[i]]);
            }
            assert(reordered(contents(before), contents(sorted), from));
        }
        let b = queue.pop().unwrap();
        assert(b == sorted.last());
        assert(cuttable(b, histogram@));
        if b.pixels.len() == 0 {
            assert(b.wf());
            assert(false);
            queue.push(b);
            round += 1;
            continue ;
        }
        n_color -= 1;
        let ghost whole = b.pixels@;
        let (b0, b1) = split_bucket(b, histogram);
        proof {
            if can_split(whole) {
                lemma_half_fits(histogram@, b, b0->0, true);
                lemma_half_fits(histogram@, b, b1->0, false);
            }
        }
        match b0 {
            Some(piece) => {
                queue.push(piece);
                n_color += 1;
            },
            None => {},
        }
        match b1 {
            Some(piece) => {
                queue.push(piece);
                n_color += 1;
            },
            None => {},
        }
        proof {
            assert(contents(sorted).last() == whole);
            assert(contents(queue@) =~= contents(sorted).drop_last() + pieces(whole));
            assert(cut_step(contents(before), contents(queue@), by_volume));
            assert(reached(start, contents(before), by_volume, target as int, round as nat));
            assert(contents(before).len() < target);
            lemma_reached_step(
                start,
                contents(before),
                contents(queue@),
                by_volume,
                target as int,
                round as nat,
            );
        }
        round += 1;
    }
}

/// `palette` holds, box by box, the mean of the pixels of the box, rounded down.
pub open spec fn is_box_palette(boxes: Seq<Seq<Color>>, palette: Seq<Color>) -> bool {
    &&& palette.len() == boxes.len()
    &&& forall|i: int|
        0 <= i < boxes.len() ==> {
            &&& (#[trigger] palette[i])[0] == channel_sum(boxes[i], 0) / (boxes[i].len() as int)
            &&& palette[i][1] == channel_sum(boxes[i], 1) / (boxes[i].len() as int)
            &&& palette[i][2] == channel_sum(boxes[i], 2) / (boxes[i].len() as int)
        }
}

/// Reduces `pixels` to at most `max_color_count` colors by cutting the color cube: all pixels
/// start in one box; boxes are cut, the one with the most pixels first, until there are three
/// quarters of the colors wanted, and then the one with the greatest product of pixels and
/// volume first, until there are as many as wanted, each time for a thousand steps at most.
/// The palette holds the mean color of every box. The pixels are left as they were.
pub fn quantize(pixels: &mut [Color], max_color_count: usize) -> (palette: Vec<Color>)
    requires
        1 <= old(pixels)@.len() <= MAX_PIXELS,
        2 <= max_color_count <= 256,
    ensures
        final(pixels)@ == old(pixels)@,
        1 <= palette@.len() <= max_color_count,
        exists|mid: Seq<Seq<Color>>, boxes: Seq<Seq<Color>>|
            ({
                &&& #[trigger] cut_until(
                    seq![old(pixels)@],
                    mid,
                    false,
                    max_color_count as int * 3 / 4,
                )
                &&& #[trigger] cut_until(mid, boxes, true, max_color_count as int)
                &&& is_box_palette(boxes, palette@)
            }),
{
    let histogram = generate_histogram(pixels);
    let first = make_bucket(vstd::slice::slice_to_vec(pixels));
    proof {
        lemma_bucket_box(first, 0);
        lemma_bucket_box(first, 1);
        lemma_bucket_box(first, 2);
        assert forall|a: int, b: int, c: int|
            first.bounds[0].start <= a < first.bounds[0].end && first.bounds[1].start <= b
                < first.bounds[1].end && first.bounds[2].start <= c
                < first.bounds[2].end implies histogram@[#[trigger] code_at(0, 1, 2, a, b, c)]
            == count_of(first.pixels@, has_code(code_at(0, 1, 2, a, b, c))) by {
            let code = code_at(0, 1, 2, a, b, c);
            assert(0 <= code < 32768);
            assert(histogram[code] == count_of(pixels@, has_code(code)));
        }
    }
    let mut queue: Vec<Bucket> = Vec::new();
    queue.push(first);
    let ghost start = contents(queue@);
    assert(start =~= seq![pixels@]);
    cut_boxes(&mut queue, &histogram, false, max_color_count * 3 / 4);
    let ghost mid = contents(queue@);
    cut_boxes(&mut queue, &histogram, true, max_color_count);
    let ghost boxes = contents(queue@);
    let ghost settled = queue@;
    let mut palette: Vec<Color> = Vec::with_capacity(queue.len());
    for bucket in it: queue
        invariant
            it.seq() == settled,
            boxes == contents(settled),
            forall|i: int| 0 <= i < settled.len() ==> cuttable(#[trigger] settled[i], histogram@),
            palette@.len() == it.index(),
            forall|i: int|
                0 <= i < it.index() ==> {
                    &&& (#[trigger] palette@[i])[0] == channel_sum(boxes[i], 0) / (
                    boxes[i].len() as int)
                    &&& palette@[i][1] == channel_sum(boxes[i], 1) / (boxes[i].len() as int)
                    &&& palette@[i][2] == channel_sum(boxes[i], 2) / (boxes[i].len() as int)
                },
    {
        assert(cuttable(bucket, histogram@));
        palette.push(color_from_bucket(bucket));
    }
    palette
}

/// The number of pixels in all boxes together that `q` holds of.
pub open spec fn count_in_boxes(boxes: Seq<Seq<Color>>, q: spec_fn(Color) -> bool) -> int
    decreases boxes.len(),
{
    if boxes.len() == 0 {
        0
    } else {
        count_in_boxes(boxes.drop_last(), q) + count_of(boxes.last(), q)
    }
}

proof fn lemma_count_in_boxes_push(boxes: Seq<Seq<Color>>, last: Seq<Color>, q: spec_fn(Color) -> bool)
    ensures
        count_in_boxes(boxes.push(last), q) == count_in_boxes(boxes, q) + count_of(last, q),
{
    assert(boxes.push(last).drop_last() == boxes);
    assert(boxes.push(last).last() == last);
}

proof fn lemma_count_in_boxes_concat(
    a: Seq<Seq<Color>>,
    b: Seq<Seq<Color>>,
    q: spec_fn(Color) -> bool,
)
    ensures
        count_in_boxes(a + b, q) == count_in_boxes(a, q) + count_in_boxes(b, q),
    decreases b.len(),
{
    if b.len() == 0 {
        assert(a + b == a);
    } else {
        assert((a + b).drop_last() == a + b.drop_last());
        assert((a + b).last() == b.last());
        lemma_count_in_boxes_concat(a, b.drop_last(), q);
    }
}

proof fn lemma_count_in_boxes_remove(boxes: Seq<Seq<Color>>, k: int, q: spec_fn(Color) -> bool)
    requires
        0 <= k < boxes.len(),
    ensures
        count_in_boxes(boxes, q) == count_in_boxes(boxes.remove(k), q) + count_of(boxes[k], q),
    decreases boxes.len(),
{
    if k == boxes.len() - 1 {
        assert(boxes.remove(k) == boxes.drop_last());
    } else {
        lemma_count_in_boxes_remove(boxes.drop_last(), k, q);
        assert(boxes.remove(k).drop_last() == boxes.drop_last().remove(k));
        assert(boxes.remove(k).last() == boxes.last());
    }
}

/// Boxes in another order hold the same pixels.
proof fn lemma_count_in_boxes_reordered(
    before: Seq<Seq<Color>>,
    after: Seq<Seq<Color>>,
    from: Seq<int>,
    q: spec_fn(Color) -> bool,
)
    requires
        reordered(before, after, from),
    ensures
        count_in_boxes(after, q) == count_in_boxes(before, q),
    decreases after.len(),
{
    if after.len() > 0 {
        let n = after.len() as int;
        let k = from[n - 1];
        let fewer = before.remove(k);
        let rest = after.drop_last();
        let to = Seq::new(
            (n - 1) as nat,
            |i: int|
                if from[i] > k {
                    from[i] - 1
                } else {
                    from[i]
                },
        );
        assert forall|i: int| 0 <= i < to.len() implies 0 <= #[trigger] to[i] < fewer.len()
            && rest[i] == fewer[to[i]] by {
            assert(from[i] != from[n - 1]);
            assert(after[i] == before[from[i]]);
        }
        assert forall|i: int, j: int| 0 <= i < j < to.len() implies #[trigger] to[i]
            != #[trigger] to[j] by {
            assert(from[i] != from[j]);
            assert(from[i] != from[n - 1]);
            assert(from[j] != from[n - 1]);
        }
        assert(reordered(fewer, rest, to));
        lemma_count_in_boxes_reordered(fewer, rest, to, q);
        lemma_count_in_boxes_remove(before, k, q);
        assert(after[n - 1] == before[from[n - 1]]);
    }
}

/// A step of the cutting loses no pixel and makes none: whatever is counted, the boxes
/// together hold as many afterwards as before. It makes at most one more box.
pub proof fn lemma_cut_step_keeps_pixels(
    before: Seq<Seq<Color>>,
    after: Seq<Seq<Color>>,
    by_volume: bool,
    q: spec_fn(Color) -> bool,
)
    requires
        before.len() >= 1,
        cut_step(before, after, by_volume),
    ensures
        count_in_boxes(after, q) == count_in_boxes(before, q),
        before.len() <= after.len() <= before.len() + 1,
{
    let (sorted, from) = choose|sorted: Seq<Seq<Color>>, from: Seq<int>|
        {
            &&& #[trigger] reordered(before, sorted, from)
            &&& rising(sorted, by_volume)
            &&& after == sorted.drop_last() + pieces(sorted.last())
        };
    lemma_count_in_boxes_reordered(before, sorted, from, q);
    let last = sorted.last();
    lemma_count_in_boxes_concat(sorted.drop_last(), pieces(last), q);
    let none = Seq::<Seq<Color>>::empty();
    lemma_count_in_boxes_push(none, last, q);
    assert(seq![last] =~= none.push(last));
    if can_split(last) {
        let (upper, lower) = halves(last);
        lemma_count_in_boxes_push(none, upper, q);
        lemma_count_in_boxes_push(none.push(upper), lower, q);
        assert(seq![upper, lower] =~= none.push(upper).push(lower));
        lemma_parted(last, under(axis_of(last), cut_of(last)), q);
    }
}

/// Steps of the cutting lose no pixel and make none, and there is always a box.
pub proof fn lemma_reached_keeps_pixels(
    start: Seq<Seq<Color>>,
    end: Seq<Seq<Color>>,
    by_volume: bool,
    target: int,
    n: nat,
    q: spec_fn(Color) -> bool,
)
    requires
        start.len() >= 1,
        reached(start, end, by_volume, target, n),
    ensures
        count_in_boxes(end, q) == count_in_boxes(start, q),
        end.len() >= start.len(),
    decreases n,
{
    if n > 0 {
        let mid = choose|mid: Seq<Seq<Color>>|
            {
                &&& reached(start, mid, by_volume, target, (n - 1) as nat)
                &&& mid.len() < target
                &&& #[trigger] cut_step(mid, end, by_volume)
            };
        lemma_reached_keeps_pixels(start, mid, by_volume, target, (n - 1) as nat, q);
        lemma_cut_step_keeps_pixels(mid, end, by_volume, q);
    }
}

/// The boxes that the cutting ends with hold the pixels it began with: whatever is counted,
/// the boxes together hold as many as there were at the start.
pub proof fn lemma_cut_until_keeps_pixels(
    start: Seq<Seq<Color>>,
    end: Seq<Seq<Color>>,
    by_volume: bool,
    target: int,
    q: spec_fn(Color) -> bool,
)
    requires
        start.len() >= 1,
        cut_until(start, end, by_volume, target),
    ensures
        count_in_boxes(end, q) == count_in_boxes(start, q),
        end.len() >= start.len(),
{
    let n = choose|n: nat|
        {
            &&& n <= 1000
            &&& #[trigger] reached(start, end, by_volume, target, n)
            &&& (n == 1000 || end.len() >= target)
        };
    lemma_reached_keeps_pixels(start, end, by_volume, target, n, q);
}

} // verus!
