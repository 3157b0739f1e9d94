//! Exact products of two 128-bit numbers, and the order of two such products.
//!
//! Squared distances to a mean are fractions; to order two of them without rounding their
//! cross products are compared, which need up to 256 bits.

use vstd::prelude::*;

verus! {

/// 2 to the 64.
pub open spec fn limb() -> int {
    0x1_0000_0000_0000_0000
}

/// The number that the two halves `(hi, lo)` stand for.
pub open spec fn wide_value(w: (u128, u128)) -> int {
    w.0 * limb() * limb() + w.1
}

proof fn lemma_split(a: u128)
    ensures
        a == (a / 0x1_0000_0000_0000_0000u128) * limb() + (a % 0x1_0000_0000_0000_0000u128),
        a / 0x1_0000_0000_0000_0000u128 < limb(),
        a % 0x1_0000_0000_0000_0000u128 < limb(),
{
}

proof fn lemma_limb_product(x: int, y: int)
    requires
        0 <= x < limb(),
        0 <= y < limb(),
    ensures
        0 <= x * y <= (limb() - 1) * (limb() - 1),
        (limb() - 1) * (limb() - 1) == 0xffff_ffff_ffff_fffe_0000_0000_0000_0001,
{
    assert(0 <= x * y <= (limb() - 1) * (limb() - 1)) by (nonlinear_arith)
        requires
            0 <= x <= limb() - 1,
            0 <= y <= limb() - 1,
    ;
    assert(0xffff_ffff_ffff_ffffint * 0xffff_ffff_ffff_ffffint
        == 0xffff_ffff_ffff_fffe_0000_0000_0000_0001);
}

proof fn lemma_recombine(
    a0: int,
    a1: int,
    b0: int,
    b1: int,
    l: int,
    q00: int,
    r00: int,
    q01: int,
    r01: int,
    q10: int,
    r10: int,
    qm: int,
    rm: int,
)
    requires
        a0 * b0 == q00 * l + r00,
        a0 * b1 == q01 * l + r01,
        a1 * b0 == q10 * l + r10,
        q00 + r01 + r10 == qm * l + rm,
    ensures
        (a1 * l + a0) * (b1 * l + b0) == (a1 * b1 + q01 + q10 + qm) * l * l + (rm * l + r00),
{
    let x = a1 * l;
    let y = b1 * l;
    assert((x + a0) * (y + b0) == x * y + x * b0 + a0 * y + a0 * b0) by (nonlinear_arith);
    assert(x * y == (a1 * b1) * l * l) by (nonlinear_arith)
        requires
            x == a1 * l,
            y == b1 * l,
    ;
    assert(x * b0 == (a1 * b0) * l) by (nonlinear_arith)
        requires
            x == a1 * l,
    ;
    assert(a0 * y == (a0 * b1) * l) by (nonlinear_arith)
        requires
            y == b1 * l,
    ;
    let p = a1 * b1;
    let s1 = q01 * l;
    let s2 = q10 * l;
    let s3 = qm * l;
    assert((p + q01 + q10 + qm) * l == p * l + s1 + s2 + s3) by (nonlinear_arith)
        requires
            s1 == q01 * l,
            s2 == q10 * l,
            s3 == qm * l,
    ;
    assert((p * l + s1 + s2 + s3) * l == p * l * l + s1 * l + s2 * l + s3 * l)
        by (nonlinear_arith);
    assert((p + q01 + q10 + qm) * l * l == ((p + q01 + q10 + qm) * l) * l);
    assert((a0 * b1) * l == s1 * l + r01 * l) by (nonlinear_arith)
        requires
            a0 * b1 == s1 + r01,
    ;
    assert((a1 * b0) * l == s2 * l + r10 * l) by (nonlinear_arith)
        requires
            a1 * b0 == s2 + r10,
    ;
    assert(q00 * l + r01 * l + r10 * l == s3 * l + rm * l) by (nonlinear_arith)
        requires
            q00 + r01 + r10 == s3 + rm,
    ;
}

/// The full product of `a` and `b`, as its upper and lower 128 bits.
pub fn mul_wide(a: u128, b: u128) -> (r: (u128, u128))
    ensures
        wide_value(r) == a * b,
{
    let a0: u128 = a % 0x1_0000_0000_0000_0000u128;
    let a1: u128 = a / 0x1_0000_0000_0000_0000u128;
    let b0: u128 = b % 0x1_0000_0000_0000_0000u128;
    let b1: u128 = b / 0x1_0000_0000_0000_0000u128;
    proof {
        lemma_split(a);
        lemma_split(b);
        lemma_limb_product(a0 as int, b0 as int);
        lemma_limb_product(a0 as int, b1 as int);
        lemma_limb_product(a1 as int, b0 as int);
        lemma_limb_product(a1 as int, b1 as int);
    }
    let ll: u128 = a0 * b0;
    let lh: u128 = a0 * b1;
    let hl: u128 = a1 * b0;
    let hh: u128 = a1 * b1;
    let q00: u128 = ll / 0x1_0000_0000_0000_0000u128;
    let r00: u128 = ll % 0x1_0000_0000_0000_0000u128;
    let q01: u128 = lh / 0x1_0000_0000_0000_0000u128;
    let r01: u128 = lh % 0x1_0000_0000_0000_0000u128;
    let q10: u128 = hl / 0x1_0000_0000_0000_0000u128;
    let r10: u128 = hl % 0x1_0000_0000_0000_0000u128;
    proof {
        lemma_split(ll);
        lemma_split(lh);
        lemma_split(hl);
    }
    let mid: u128 = q00 + r01 + r10;
    let qm: u128 = mid / 0x1_0000_0000_0000_0000u128;
    let rm: u128 = mid % 0x1_0000_0000_0000_0000u128;
    proof {
        lemma_split(mid);
        assert(qm <= 2);
        assert(q01 <= 0xffff_ffff_ffff_fffe);
        assert(q10 <= 0xffff_ffff_ffff_fffe);
        lemma_recombine(
            a0 as int,
            a1 as int,
            b0 as int,
            b1 as int,
            limb(),
            q00 as int,
            r00 as int,
            q01 as int,
            r01 as int,
            q10 as int,
            r10 as int,
            qm as int,
            rm as int,
        );
    }
    let hi: u128 = hh + q01 + q10 + qm;
    let lo: u128 = rm * 0x1_0000_0000_0000_0000u128 + r00;
    (hi, lo)
}

/// Whether `a * b < c * d`, computed without overflow.
pub fn product_lt(a: u128, b: u128, c: u128, d: u128) -> (r: bool)
    ensures
        r == (a * b < c * d),
{
    let x = mul_wide(a, b);
    let y = mul_wide(c, d);
    proof {
        assert(x.0 < y.0 ==> x.0 * limb() * limb() + limb() * limb() <= y.0 * limb() * limb())
            by (nonlinear_arith);
        assert(y.0 < x.0 ==> y.0 * limb() * limb() + limb() * limb() <= x.0 * limb() * limb())
            by (nonlinear_arith);
        assert(limb() * limb() == 0x1_0000_0000_0000_0000_0000_0000_0000_0000);
    }
    x.0 < y.0 || (x.0 == y.0 && x.1 < y.1)
}

/// Whether `a * b == c * d`, computed without overflow.
pub fn product_eq(a: u128, b: u128, c: u128, d: u128) -> (r: bool)
    ensures
        r == (a * b == c * d),
{
    let x = mul_wide(a, b);
    let y = mul_wide(c, d);
    proof {
        assert(x.0 < y.0 ==> x.0 * limb() * limb() + limb() * limb() <= y.0 * limb() * limb())
            by (nonlinear_arith);
        assert(y.0 < x.0 ==> y.0 * limb() * limb() + limb() * limb() <= x.0 * limb() * limb())
            by (nonlinear_arith);
        assert(limb() * limb() == 0x1_0000_0000_0000_0000_0000_0000_0000_0000);
    }
    x.0 == y.0 && x.1 == y.1
}

} // verus!
