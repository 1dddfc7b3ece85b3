//! Exact integer arithmetic for rating statistics: sums of rating
//! sequences and division rounded to the nearest integer (half away
//! from zero), used to carry averages as hundredths.

use vstd::prelude::*;
use crate::rating_in_range;

verus! {

/// Sum of a sequence of ratings, as a mathematical integer.
pub open spec fn seq_sum(s: Seq<i8>) -> int
    decreases s.len(),
{
    if s.len() == 0 {
        0
    } else {
        seq_sum(s.drop_last()) + s.last()
    }
}

/// Quotient of `n / d` rounded to the nearest integer, ties away from zero.
pub open spec fn rounded_div(n: int, d: int) -> int
    recommends
        d >= 1,
{
    if n >= 0 {
        (2 * n + d) / (2 * d)
    } else {
        -((2 * (-n) + d) / (2 * d))
    }
}

/// Mean of a non-empty rating sequence in hundredths, rounded half away
/// from zero.
pub open spec fn mean_hundredths(s: Seq<i8>) -> int
    recommends
        s.len() >= 1,
{
    rounded_div(100 * seq_sum(s), s.len() as int)
}

pub proof fn lemma_seq_sum_bounds(s: Seq<i8>, lo: int, hi: int)
    requires
        forall|i: int| 0 <= i < s.len() ==> lo <= #[trigger] s[i] <= hi,
        lo <= 0 <= hi,
    ensures
        lo * s.len() <= seq_sum(s) <= hi * s.len(),
    decreases s.len(),
{
    if s.len() == 0 {
    } else {
        lemma_seq_sum_bounds(s.drop_last(), lo, hi);
        assert(lo * s.len() == lo * (s.len() - 1) + lo) by (nonlinear_arith);
        assert(hi * s.len() == hi * (s.len() - 1) + hi) by (nonlinear_arith);
    }
}

/// Division by a positive divisor stays below a bound that the numerator
/// stays below.
proof fn lemma_div_le(a: int, d: int, c: int)
    requires
        d >= 1,
        0 <= a,
        0 <= c,
        a <= c * d + (d - 1),
    ensures
        a / d <= c,
{
    vstd::arithmetic::div_mod::lemma_fundamental_div_mod_converse(c * d + (d - 1), d, c, d - 1);
    vstd::arithmetic::div_mod::lemma_div_is_ordered(a, c * d + (d - 1), d);
}

proof fn lemma_div_nonneg(a: int, d: int)
    requires
        d >= 1,
        0 <= a,
    ensures
        0 <= a / d,
{
    vstd::arithmetic::div_mod::lemma_fundamental_div_mod_converse(0, d, 0, 0);
    vstd::arithmetic::div_mod::lemma_div_is_ordered(0, a, d);
}

/// The rounded quotient lies inside any bracket that the exact quotient
/// respects: `lo * d <= n <= hi * d` pins `rounded_div(n, d)` to `[lo, hi]`.
pub proof fn lemma_rounded_div_bounds(n: int, d: int, lo: int, hi: int)
    requires
        d >= 1,
        lo <= 0 <= hi,
        lo * d <= n <= hi * d,
    ensures
        lo <= rounded_div(n, d) <= hi,
{
    if n >= 0 {
        // 2n + d <= 2*hi*d + d <= hi*(2d) + (2d - 1)
        assert(2 * n + d <= hi * (2 * d) + (2 * d - 1)) by (nonlinear_arith)
            requires n <= hi * d && d >= 1;
        lemma_div_le(2 * n + d, 2 * d, hi);
        lemma_div_nonneg(2 * n + d, 2 * d);
    } else {
        assert(2 * (-n) + d <= (-lo) * (2 * d) + (2 * d - 1)) by (nonlinear_arith)
            requires lo * d <= n && d >= 1;
        lemma_div_le(2 * (-n) + d, 2 * d, -lo);
        lemma_div_nonneg(2 * (-n) + d, 2 * d);
    }
}

/// Executable rounded division on magnitudes that fit comfortably in
/// `u128`, matching [`rounded_div`] exactly.
pub fn rounded_div_i128(n: i128, d: i128) -> (r: i128)
    requires
        1 <= d <= 0x7fff_ffff_ffff_ffff_ffff,
        -0x7fff_ffff_ffff_ffff_ffff <= n <= 0x7fff_ffff_ffff_ffff_ffff,
    ensures
        r == rounded_div(n as int, d as int),
{
    let du: u128 = d as u128;
    if n >= 0 {
        let nu: u128 = n as u128;
        let q: u128 = (2 * nu + du) / (2 * du);
        proof {
            assert(2 * (n as int) + d <= (n as int + 1) * (2 * (d as int)) + (2 * (d as int) - 1))
                by (nonlinear_arith)
                requires n >= 0 && d >= 1;
            lemma_div_nonneg(2 * (n as int) + d, 2 * (d as int));
            lemma_div_le(2 * (n as int) + d, 2 * (d as int), n as int + 1);
        }
        q as i128
    } else {
        let ghost m: int = -(n as int);
        let nu: u128 = (-n) as u128;
        let q: u128 = (2 * nu + du) / (2 * du);
        proof {
            assert(2 * m + d <= (m + 1) * (2 * (d as int)) + (2 * (d as int) - 1))
                by (nonlinear_arith)
                requires m >= 0 && d >= 1;
            lemma_div_nonneg(2 * m + d, 2 * (d as int));
            lemma_div_le(2 * m + d, 2 * (d as int), m + 1);
        }
        -(q as i128)
    }
}

/// Sum of a rating vector whose entries all lie in `[-1, 4]`.
pub fn sum_ratings(v: &Vec<i8>) -> (s: i128)
    requires
        forall|i: int| 0 <= i < v@.len() ==> rating_in_range(#[trigger] v@[i]),
    ensures
        s == seq_sum(v@),
        -(v@.len() as int) <= s <= 4 * v@.len(),
{
    let mut s: i128 = 0;
    let mut i: usize = 0;
    proof {
        assert(v@.take(0int) =~= Seq::<i8>::empty());
    }
    while i < v.len()
        invariant
            0 <= i <= v@.len(),
            forall|j: int| 0 <= j < v@.len() ==> rating_in_range(#[trigger] v@[j]),
            s == seq_sum(v@.take(i as int)),
            -(i as int) <= s <= 4 * (i as int),
        decreases v@.len() - i,
    {
        proof {
            assert(v@.take(i + 1int).drop_last() =~= v@.take(i as int));
            assert(v@.take(i + 1int).last() == v@[i as int]);
        }
        s = s + v[i] as i128;
        i = i + 1;
    }
    proof {
        assert(v@.take(v@.len() as int) =~= v@);
    }
    s
}

/// Mean of a non-empty rating vector in hundredths.
pub fn mean_hundredths_of(v: &Vec<i8>) -> (m: i64)
    requires
        v@.len() >= 1,
        forall|i: int| 0 <= i < v@.len() ==> rating_in_range(#[trigger] v@[i]),
    ensures
        m == mean_hundredths(v@),
        -100 <= m <= 400,
{
    let s: i128 = sum_ratings(v);
    let n: i128 = v.len() as i128;
    let r: i128 = rounded_div_i128(100 * s, n);
    proof {
        assert((-100) * (n as int) <= 100 * seq_sum(v@) <= 400 * (n as int)) by (nonlinear_arith)
            requires
                n as int == v@.len() as int,
                n >= 1,
                -(v@.len() as int) <= seq_sum(v@) <= 4 * v@.len();
        lemma_rounded_div_bounds(100 * seq_sum(v@), n as int, -100, 400);
    }
    r as i64
}

} // verus!
