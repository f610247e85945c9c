//! Zero-mean normalized cross-correlation on gray images, in exact
//! integer arithmetic.
//!
//! For pixel sequences `a` and `b` of length `n`, with `S = sum`,
//! `Q = sum of squares` and `C = sum of products`, the correlation is
//! `(n C - S_a S_b) / sqrt((n Q_a - S_a^2)(n Q_b - S_b^2))`, a value in
//! `[-1, 1]`. This module computes it scaled by 1000 (milli-units) with a
//! floor square root, so a score of 1000 means identical up to a linear
//! brightness/contrast transform.

use crate::frame::GrayFrame;
use vstd::arithmetic::div_mod::lemma_div_multiples_vanish;
use vstd::arithmetic::div_mod::lemma_fundamental_div_mod;
use vstd::arithmetic::div_mod::lemma_mod_bound;
use vstd::prelude::*;

verus! {

/// Sum of the bytes of `s`.
pub open spec fn sum_of(s: Seq<u8>) -> int
    decreases s.len(),
{
    if s.len() == 0 {
        0
    } else {
        sum_of(s.drop_last()) + s.last()
    }
}

/// Sum of the squared bytes of `s`.
pub open spec fn sum_sq(s: Seq<u8>) -> int
    decreases s.len(),
{
    if s.len() == 0 {
        0
    } else {
        sum_sq(s.drop_last()) + s.last() * s.last()
    }
}

/// Sum of the pointwise products of `a` and `b` (over the shorter length).
pub open spec fn sum_cross(a: Seq<u8>, b: Seq<u8>) -> int
    decreases a.len(),
{
    if a.len() == 0 || b.len() == 0 {
        0
    } else {
        sum_cross(a.drop_last(), b.drop_last()) + a.last() * b.last()
    }
}

/// Scaled variance of `s`: `n * sum_sq - sum^2`, which is `n^2` times the
/// population variance. Zero exactly on constant sequences, proved by
/// `lemma_zero_variance_iff_constant`.
pub open spec fn den_of(s: Seq<u8>) -> int {
    s.len() * sum_sq(s) - sum_of(s) * sum_of(s)
}

/// Scaled covariance of `a` and `b`: `n * sum_cross - sum_a * sum_b`.
pub open spec fn num_of(a: Seq<u8>, b: Seq<u8>) -> int {
    a.len() * sum_cross(a, b) - sum_of(a) * sum_of(b)
}

/// `r` is the floor of the square root of `x`.
pub open spec fn is_sqrt_floor(x: int, r: int) -> bool {
    0 <= r && r * r <= x < (r + 1) * (r + 1)
}

/// The floor of the square root of a nonnegative integer.
pub open spec fn sqrt_floor(x: int) -> int {
    choose|r: int| is_sqrt_floor(x, r)
}

/// Truncating signed division by a positive divisor (what machine integer
/// division computes; ghost `/` rounds toward negative infinity instead).
pub open spec fn div_trunc(n: int, d: int) -> int {
    if n >= 0 {
        n / d
    } else {
        -((-n) / d)
    }
}

/// Normalized cross-correlation of `a` and `b`, in milli-units. Zero
/// when either input has (near-)zero variance. The value always lies in
/// `[-1000, 1000]`: see `lemma_ncc_of_in_range`, which rests on the
/// Cauchy-Schwarz inequality.
pub open spec fn ncc_of(a: Seq<u8>, b: Seq<u8>) -> int {
    if den_of(a) <= 0 || den_of(b) <= 0 {
        0
    } else {
        div_trunc(num_of(a, b) * 1000, sqrt_floor(den_of(a) * den_of(b)))
    }
}

/// A square-root floor exists for every nonnegative integer.
pub proof fn lemma_sqrt_floor_exists(x: int)
    requires
        0 <= x,
    ensures
        exists|r: int| #[trigger] is_sqrt_floor(x, r),
    decreases x,
{
    if x == 0 {
        assert(is_sqrt_floor(0, 0));
    } else {
        lemma_sqrt_floor_exists(x - 1);
        let r = choose|r: int| #[trigger] is_sqrt_floor(x - 1, r);
        if x < (r + 1) * (r + 1) {
            assert(is_sqrt_floor(x, r));
        } else {
            assert(x == (r + 1) * (r + 1));
            assert((r + 1) * (r + 1) < (r + 2) * (r + 2)) by (nonlinear_arith)
                requires
                    r >= 0,
            ;
            assert(is_sqrt_floor(x, r + 1));
        }
    }
}

/// The square-root floor is unique, so any witness pins `sqrt_floor`.
pub proof fn lemma_sqrt_floor_unique(x: int, r: int)
    requires
        is_sqrt_floor(x, r),
    ensures
        sqrt_floor(x) == r,
{
    lemma_sqrt_floor_exists(x);
    let s = sqrt_floor(x);
    assert(is_sqrt_floor(x, s));
    assert(s == r) by (nonlinear_arith)
        requires
            0 <= r,
            0 <= s,
            r * r <= x < (r + 1) * (r + 1),
            s * s <= x < (s + 1) * (s + 1),
    ;
}

/// Floor square root of `x`, by binary search.
pub fn isqrt(x: u128) -> (r: u64)
    requires
        x < 0x40000000000000000000000000000000,
    ensures
        (r as int) * (r as int) <= x < ((r as int) + 1) * ((r as int) + 1),
        r == sqrt_floor(x as int),
{
    let mut lo: u128 = 0;
    let mut hi: u128 = 0x8000000000000000;
    proof {
        assert(0x8000000000000000u128 * 0x8000000000000000u128
            == 0x40000000000000000000000000000000u128) by (nonlinear_arith);
    }
    while hi - lo > 1
        invariant
            0 <= lo < hi <= 0x8000000000000000,
            lo * lo <= x,
            x < hi * hi,
        decreases hi - lo,
    {
        let mid: u128 = lo + (hi - lo) / 2;
        assert(lo < mid < hi);
        proof {
            assert(mid * mid < 0x40000000000000000000000000000000u128) by (nonlinear_arith)
                requires
                    0 <= mid < 0x8000000000000000u128,
            ;
        }
        if mid * mid <= x {
            lo = mid;
        } else {
            hi = mid;
        }
    }
    proof {
        assert(hi == lo + 1);
        lemma_sqrt_floor_unique(x as int, lo as int);
    }
    lo as u64
}

/// `sum_of`, `sum_sq` and `sum_cross` over a one-longer prefix.
pub proof fn lemma_sums_take_succ(a: Seq<u8>, b: Seq<u8>, i: int)
    requires
        0 <= i < a.len(),
        a.len() == b.len(),
    ensures
        sum_of(a.take(i + 1)) == sum_of(a.take(i)) + a[i],
        sum_sq(a.take(i + 1)) == sum_sq(a.take(i)) + a[i] * a[i],
        sum_cross(a.take(i + 1), b.take(i + 1)) == sum_cross(a.take(i), b.take(i)) + a[i] * b[i],
{
    assert(a.take(i + 1).drop_last() =~= a.take(i));
    assert(b.take(i + 1).drop_last() =~= b.take(i));
    assert(a.take(i + 1).last() == a[i]);
    assert(b.take(i + 1).last() == b[i]);
}

/// Every moment of a byte sequence is bounded by its length.
pub proof fn lemma_sums_bounded(a: Seq<u8>, b: Seq<u8>)
    requires
        a.len() == b.len(),
    ensures
        0 <= sum_of(a) <= 255 * a.len(),
        0 <= sum_sq(a) <= 65025 * a.len(),
        0 <= sum_cross(a, b) <= 65025 * a.len(),
    decreases a.len(),
{
    if a.len() > 0 {
        lemma_sums_bounded(a.drop_last(), b.drop_last());
        assert(a.last() * a.last() <= 65025 && a.last() * b.last() <= 65025 && a.last() * b.last()
            >= 0 && a.last() * a.last() >= 0) by (nonlinear_arith)
            requires
                0 <= a.last() <= 255,
                0 <= b.last() <= 255,
        ;
    }
}

/// The three raw moments of a pair of equally long gray frames, computed
/// in one pass: `(sum_a, sum_sq_a, sum_b, sum_sq_b, sum_cross)`.
pub fn compute_moments(a: &GrayFrame, b: &GrayFrame) -> (r: (u64, u64, u64, u64, u64))
    requires
        a.wf(),
        b.wf(),
        a.data@.len() == b.data@.len(),
    ensures
        r.0 == sum_of(a.data@),
        r.1 == sum_sq(a.data@),
        r.2 == sum_of(b.data@),
        r.3 == sum_sq(b.data@),
        r.4 == sum_cross(a.data@, b.data@),
{
    proof {
        crate::frame::lemma_dims_bounded(a.width as int, a.height as int);
    }
    let n: usize = a.data.len();
    let mut sa: u64 = 0;
    let mut qa: u64 = 0;
    let mut sb: u64 = 0;
    let mut qb: u64 = 0;
    let mut cr: u64 = 0;
    let mut i: usize = 0;
    proof {
        assert(a.data@.take(0) =~= Seq::<u8>::empty());
        assert(b.data@.take(0) =~= Seq::<u8>::empty());
    }
    while i < n
        invariant
            0 <= i <= n,
            n == a.data@.len(),
            n == b.data@.len(),
            n <= 0x10000000,
            sa == sum_of(a.data@.take(i as int)),
            qa == sum_sq(a.data@.take(i as int)),
            sb == sum_of(b.data@.take(i as int)),
            qb == sum_sq(b.data@.take(i as int)),
            cr == sum_cross(a.data@.take(i as int), b.data@.take(i as int)),
        decreases n - i,
    {
        proof {
            lemma_sums_bounded(a.data@.take(i as int), b.data@.take(i as int));
            lemma_sums_bounded(b.data@.take(i as int), a.data@.take(i as int));
            lemma_sums_take_succ(a.data@, b.data@, i as int);
            lemma_sums_take_succ(b.data@, a.data@, i as int);
        }
        let x: u8 = a.data[i];
        let y: u8 = b.data[i];
        proof {
            assert((x as u64) * (x as u64) <= 65025 && (y as u64) * (y as u64) <= 65025 && (
            x as u64) * (y as u64) <= 65025) by (nonlinear_arith)
                requires
                    x <= 255,
                    y <= 255,
            ;
        }
        sa = sa + (x as u64);
        qa = qa + (x as u64) * (x as u64);
        sb = sb + (y as u64);
        qb = qb + (y as u64) * (y as u64);
        cr = cr + (x as u64) * (y as u64);
        i = i + 1;
    }
    proof {
        assert(a.data@.take(n as int) =~= a.data@);
        assert(b.data@.take(n as int) =~= b.data@);
    }
    (sa, qa, sb, qb, cr)
}

/// Normalized cross-correlation of two equally sized gray images, in
/// milli-units: 1000 means identical up to a linear brightness/contrast
/// transform, 0 means uncorrelated or (near-)uniform input.
pub fn ncc_milli(a: &GrayFrame, b: &GrayFrame) -> (r: i64)
    requires
        a.wf(),
        b.wf(),
        a.width == b.width,
        a.height == b.height,
        a.npix() <= 0x100000,
    ensures
        r == ncc_of(a.data@, b.data@),
        -1000 <= r <= 1000,
{
    let (sa, qa, sb, qb, cr) = compute_moments(a, b);
    let n: u64 = a.data.len() as u64;
    proof {
        lemma_sums_bounded(a.data@, b.data@);
        lemma_sums_bounded(b.data@, a.data@);
        lemma_moment_products_bounded(n as int, sa as int, sa as int, qa as int);
        lemma_moment_products_bounded(n as int, sb as int, sb as int, qb as int);
        lemma_moment_products_bounded(n as int, sa as int, sb as int, cr as int);
    }
    let den_a: i128 = (n as i128) * (qa as i128) - (sa as i128) * (sa as i128);
    let den_b: i128 = (n as i128) * (qb as i128) - (sb as i128) * (sb as i128);
    if den_a <= 0 || den_b <= 0 {
        return 0;
    }
    let num: i128 = (n as i128) * (cr as i128) - (sa as i128) * (sb as i128);
    proof {
        assert((den_a as int) * (den_b as int) < 0x40000000000000000000000000000000 && (
        den_a as int) * (den_b as int) >= 1) by (nonlinear_arith)
            requires
                0 < den_a < 0x200000000000000,
                0 < den_b < 0x200000000000000,
        ;
    }
    let prod: u128 = (den_a as u128) * (den_b as u128);
    let d: u64 = isqrt(prod);
    proof {
        if d == 0 {
            assert(prod < (0 + 1) * (0 + 1));
            assert(false);
        }
    }
    proof {
        lemma_sqrt_floor_unique(prod as int, d as int);
        assert(den_of(a.data@) == den_a && den_of(b.data@) == den_b && num_of(a.data@, b.data@)
            == num);
        lemma_num_sq_le_den_product(a.data@, b.data@);
        lemma_abs_le_sqrt(num as int, prod as int, d as int);
    }
    let v: i64 = if num >= 0 {
        let q: u128 = ((num as u128) * 1000) / (d as u128);
        proof {
            lemma_scaled_quotient_bounded(num as int, d as int);
        }
        q as i64
    } else {
        let q: u128 = (((-num) as u128) * 1000) / (d as u128);
        proof {
            lemma_scaled_quotient_bounded(-(num as int), d as int);
        }
        -(q as i64)
    };
    v
}

/// A number whose square is at most `x` is at most the floor square root
/// of `x` in absolute value.
proof fn lemma_abs_le_sqrt(num: int, x: int, d: int)
    requires
        num * num <= x,
        is_sqrt_floor(x, d),
    ensures
        -d <= num <= d,
{
    assert(-d <= num <= d) by (nonlinear_arith)
        requires
            num * num <= x,
            0 <= d,
            x < (d + 1) * (d + 1),
    ;
}

/// `num * 1000 / d <= 1000` whenever `0 <= num <= d`.
proof fn lemma_scaled_quotient_bounded(num: int, d: int)
    requires
        0 <= num <= d,
        d >= 1,
    ensures
        0 <= num * 1000 / d <= 1000,
{
    lemma_fundamental_div_mod(num * 1000, d);
    lemma_mod_bound(num * 1000, d);
    assert(num * 1000 <= d * 1000) by (nonlinear_arith)
        requires
            num <= d,
    ;
    assert(num * 1000 / d <= 1000 && num * 1000 / d >= 0) by (nonlinear_arith)
        requires
            d >= 1,
            num >= 0,
            d * (num * 1000 / d) + (num * 1000) % d == num * 1000,
            0 <= (num * 1000) % d < d,
            num * 1000 <= d * 1000,
    ;
}

/// The correlation always lies in `[-1000, 1000]`: its numerator is
/// bounded by the square root of the denominator product, by the
/// Cauchy-Schwarz inequality.
pub proof fn lemma_ncc_of_in_range(a: Seq<u8>, b: Seq<u8>)
    requires
        a.len() == b.len(),
    ensures
        -1000 <= ncc_of(a, b) <= 1000,
{
    if den_of(a) <= 0 || den_of(b) <= 0 {
    } else {
        let prod = den_of(a) * den_of(b);
        assert(prod >= 1) by (nonlinear_arith)
            requires
                den_of(a) >= 1,
                den_of(b) >= 1,
                prod == den_of(a) * den_of(b),
        ;
        lemma_sqrt_floor_exists(prod);
        let d = sqrt_floor(prod);
        assert(is_sqrt_floor(prod, d));
        assert(d >= 1) by (nonlinear_arith)
            requires
                d >= 0,
                prod >= 1,
                prod < (d + 1) * (d + 1),
        ;
        lemma_num_sq_le_den_product(a, b);
        lemma_abs_le_sqrt(num_of(a, b), prod, d);
        if num_of(a, b) >= 0 {
            lemma_scaled_quotient_bounded(num_of(a, b), d);
        } else {
            lemma_scaled_quotient_bounded(-num_of(a, b), d);
        }
    }
}

/// Correlating a sequence with itself crosses into its own squares.
pub proof fn lemma_cross_self(s: Seq<u8>)
    ensures
        sum_cross(s, s) == sum_sq(s),
    decreases s.len(),
{
    if s.len() > 0 {
        lemma_cross_self(s.drop_last());
    }
}

/// Self-similarity: the normalized cross-correlation of any non-uniform
/// image with itself is exactly 1 (1000 milli-units). `den_of(s) > 0`
/// says the image is not uniform: its pixels do not all share one value.
pub proof fn lemma_ncc_self_similarity(s: Seq<u8>)
    requires
        den_of(s) > 0,
    ensures
        ncc_of(s, s) == 1000,
{
    lemma_cross_self(s);
    let den = den_of(s);
    assert(num_of(s, s) == den);
    assert(is_sqrt_floor(den * den, den)) by (nonlinear_arith)
        requires
            den > 0,
    ;
    lemma_sqrt_floor_unique(den * den, den);
    lemma_div_multiples_vanish(1000, den);
    assert(den * 1000 == 1000 * den) by (nonlinear_arith);
    assert(div_trunc(num_of(s, s) * 1000, sqrt_floor(den * den)) == 1000);
}

/// Sums of a sequence that is a pointwise affine image of another.
pub proof fn lemma_affine_sums(q: Seq<u8>, t: Seq<u8>, a: int, b: int)
    requires
        q.len() == t.len(),
        forall|i: int| 0 <= i < q.len() ==> #[trigger] t[i] == a * q[i] + b,
    ensures
        sum_of(t) == a * sum_of(q) + b * q.len(),
        sum_sq(t) == a * a * sum_sq(q) + 2 * a * b * sum_of(q) + b * b * q.len(),
        sum_cross(q, t) == a * sum_sq(q) + b * sum_of(q),
    decreases q.len(),
{
    if q.len() == 0 {
    } else {
        let q1 = q.drop_last();
        let t1 = t.drop_last();
        assert(forall|i: int| 0 <= i < q1.len() ==> #[trigger] t1[i] == a * q1[i] + b);
        lemma_affine_sums(q1, t1, a, b);
        let x = q.last() as int;
        let y = t.last() as int;
        let n1 = q1.len() as int;
        assert(y == a * x + b);
        assert(sum_of(q) == sum_of(q1) + x && sum_sq(q) == sum_sq(q1) + x * x && sum_cross(q, t)
            == sum_cross(q1, t1) + x * y);
        assert(sum_of(t) == sum_of(t1) + y && sum_sq(t) == sum_sq(t1) + y * y);
        assert((a * sum_of(q1) + b * n1) + y == a * (sum_of(q1) + x) + b * (n1 + 1))
            by (nonlinear_arith)
            requires
                y == a * x + b,
        ;
        assert(y * y == a * a * (x * x) + 2 * a * b * x + b * b) by (nonlinear_arith)
            requires
                y == a * x + b,
        ;
        assert(a * a * (sum_sq(q1) + x * x) == a * a * sum_sq(q1) + a * a * (x * x))
            by (nonlinear_arith);
        assert(2 * a * b * (sum_of(q1) + x) == 2 * a * b * sum_of(q1) + 2 * a * b * x)
            by (nonlinear_arith);
        assert(b * b * (n1 + 1) == b * b * n1 + b * b) by (nonlinear_arith);
        assert((a * sum_sq(q1) + b * sum_of(q1)) + x * y == a * (sum_sq(q1) + x * x) + b * (sum_of(
            q1,
        ) + x)) by (nonlinear_arith)
            requires
                y == a * x + b,
        ;
    }
}

/// Brightness/contrast invariance: an image and any positive affine
/// transform of it (`t[i] == a * q[i] + b` pointwise, `a >= 1`) correlate
/// at exactly 1 (1000 milli-units), provided the image is not uniform.
pub proof fn lemma_ncc_affine_invariant(q: Seq<u8>, t: Seq<u8>, a: int, b: int)
    requires
        q.len() == t.len(),
        a >= 1,
        forall|i: int| 0 <= i < q.len() ==> #[trigger] t[i] == a * q[i] + b,
        den_of(q) > 0,
    ensures
        ncc_of(q, t) == 1000,
{
    lemma_affine_sums(q, t, a, b);
    let n = q.len() as int;
    let s = sum_of(q);
    let qq = sum_sq(q);
    let dq = den_of(q);
    let u = a * s;
    let v = b * n;
    assert(sum_of(t) == u + v);
    assert((u + v) * (u + v) == u * u + 2 * (u * v) + v * v) by (nonlinear_arith);
    assert(u * u == a * a * (s * s)) by (nonlinear_arith)
        requires
            u == a * s,
    ;
    assert(u * v == a * b * (s * n)) by (nonlinear_arith)
        requires
            u == a * s,
            v == b * n,
    ;
    assert(v * v == b * b * (n * n)) by (nonlinear_arith)
        requires
            v == b * n,
    ;
    assert(n * (a * a * qq + 2 * a * b * s + b * b * n) == n * (a * a * qq) + n * (2 * a * b * s)
        + n * (b * b * n)) by (nonlinear_arith);
    assert(n * (a * a * qq) == a * a * (n * qq)) by (nonlinear_arith);
    assert(n * (2 * a * b * s) == 2 * (a * b * (s * n))) by (nonlinear_arith);
    assert(n * (b * b * n) == b * b * (n * n)) by (nonlinear_arith);
    assert(den_of(t) == a * a * (n * qq) - a * a * (s * s));
    assert(a * a * (n * qq) - a * a * (s * s) == a * a * dq) by (nonlinear_arith)
        requires
            dq == n * qq - s * s,
    ;
    assert(n * (a * qq + b * s) == a * (n * qq) + b * (s * n)) by (nonlinear_arith);
    assert(s * (u + v) == s * u + s * v) by (nonlinear_arith);
    assert(s * u == a * (s * s)) by (nonlinear_arith)
        requires
            u == a * s,
    ;
    assert(s * v == b * (s * n)) by (nonlinear_arith)
        requires
            v == b * n,
    ;
    assert(num_of(q, t) == a * (n * qq) - a * (s * s));
    assert(a * (n * qq) - a * (s * s) == a * dq) by (nonlinear_arith)
        requires
            dq == n * qq - s * s,
    ;
    assert(den_of(t) == a * a * dq && num_of(q, t) == a * dq);
    assert(den_of(t) > 0 && a * dq > 0) by (nonlinear_arith)
        requires
            den_of(t) == a * a * dq,
            a >= 1,
            dq > 0,
    ;
    assert(is_sqrt_floor(dq * (a * a * dq), a * dq)) by (nonlinear_arith)
        requires
            a >= 1,
            dq > 0,
    ;
    lemma_sqrt_floor_unique(dq * den_of(t), a * dq);
    lemma_div_multiples_vanish(1000, a * dq);
    assert(num_of(q, t) * 1000 == (a * dq) * 1000) by (nonlinear_arith)
        requires
            num_of(q, t) == a * dq,
    ;
    assert(div_trunc(num_of(q, t) * 1000, sqrt_floor(dq * den_of(t))) == 1000);
}

/// Products of raw moments with the pixel count stay far inside `i128`.
proof fn lemma_moment_products_bounded(n: int, s1: int, s2: int, q: int)
    requires
        0 <= n <= 0x100000,
        0 <= s1 <= 255 * n,
        0 <= s2 <= 255 * n,
        0 <= q <= 65025 * n,
    ensures
        0 <= n * q < 0x200000000000000,
        0 <= s1 * s2 < 0x200000000000000,
{
    assert(n * q <= 65025 * (n * n) && s1 * s2 <= 65025 * (n * n) && 65025 * (n * n)
        < 0x200000000000000) by (nonlinear_arith)
        requires
            0 <= n <= 0x100000,
            0 <= s1 <= 255 * n,
            0 <= s2 <= 255 * n,
            0 <= q <= 65025 * n,
    ;
}

/// Sum of an integer sequence.
pub open spec fn isum(s: Seq<int>) -> int
    decreases s.len(),
{
    if s.len() == 0 {
        0
    } else {
        isum(s.drop_last()) + s.last()
    }
}

/// Sum of the squares of an integer sequence.
pub open spec fn isumsq(s: Seq<int>) -> int
    decreases s.len(),
{
    if s.len() == 0 {
        0
    } else {
        isumsq(s.drop_last()) + s.last() * s.last()
    }
}

/// Sum of the pointwise products of two integer sequences.
pub open spec fn icross(a: Seq<int>, b: Seq<int>) -> int
    decreases a.len(),
{
    if a.len() == 0 || b.len() == 0 {
        0
    } else {
        icross(a.drop_last(), b.drop_last()) + a.last() * b.last()
    }
}

/// A sum of squares is never negative.
pub proof fn lemma_isumsq_nonneg(s: Seq<int>)
    ensures
        isumsq(s) >= 0,
    decreases s.len(),
{
    if s.len() > 0 {
        lemma_isumsq_nonneg(s.drop_last());
        assert(s.last() * s.last() >= 0) by (nonlinear_arith);
    }
}

/// A sequence with zero sum of squares is zero everywhere, so it crosses
/// to zero with anything.
pub proof fn lemma_isumsq_zero_cross(a: Seq<int>, b: Seq<int>)
    requires
        a.len() == b.len(),
        isumsq(a) == 0,
    ensures
        icross(a, b) == 0,
    decreases a.len(),
{
    if a.len() > 0 {
        lemma_isumsq_nonneg(a.drop_last());
        assert(a.last() * a.last() >= 0) by (nonlinear_arith);
        assert(a.last() * a.last() == 0);
        assert(a.last() == 0) by (nonlinear_arith)
            requires
                a.last() * a.last() == 0,
        ;
        lemma_isumsq_zero_cross(a.drop_last(), b.drop_last());
        assert(a.last() * b.last() == 0) by (nonlinear_arith)
            requires
                a.last() == 0,
        ;
    }
}

/// The Cauchy-Schwarz inequality over integer sequences: the squared
/// cross sum never exceeds the product of the sums of squares.
pub proof fn lemma_cauchy_schwarz(u: Seq<int>, v: Seq<int>)
    requires
        u.len() == v.len(),
    ensures
        icross(u, v) * icross(u, v) <= isumsq(u) * isumsq(v),
    decreases u.len(),
{
    if u.len() == 0 {
    } else {
        let u1 = u.drop_last();
        let v1 = v.drop_last();
        lemma_cauchy_schwarz(u1, v1);
        lemma_isumsq_nonneg(u1);
        lemma_isumsq_nonneg(v1);
        let c = icross(u1, v1);
        let p = isumsq(u1);
        let q = isumsq(v1);
        let x = u.last();
        let y = v.last();
        if p == 0 {
            lemma_isumsq_zero_cross(u1, v1);
            assert((0 + x * y) * (0 + x * y) <= (0 + x * x) * (q + y * y)) by (nonlinear_arith)
                requires
                    q >= 0,
            ;
        } else {
            // From (x c - y p)^2 >= 0 and c^2 <= p q, after multiplying
            // through by p > 0: 2 x y c <= x^2 q + y^2 p.
            assert((x * c - y * p) * (x * c - y * p) >= 0) by (nonlinear_arith);
            assert(2 * (x * y) * (c * p) <= (x * x) * (c * c) + (y * y) * (p * p))
                by (nonlinear_arith)
                requires
                    (x * c - y * p) * (x * c - y * p) >= 0,
            ;
            assert((x * x) * (c * c) <= (x * x) * (p * q)) by (nonlinear_arith)
                requires
                    c * c <= p * q,
            ;
            assert(2 * (x * y) * c <= (x * x) * q + (y * y) * p) by (nonlinear_arith)
                requires
                    p > 0,
                    2 * (x * y) * (c * p) <= (x * x) * (p * q) + (y * y) * (p * p),
            ;
            assert((c + x * y) * (c + x * y) == c * c + 2 * (x * y) * c + (x * y) * (x * y))
                by (nonlinear_arith);
            assert((p + x * x) * (q + y * y) == p * q + (y * y) * p + (x * x) * q + (x * x) * (y
                * y)) by (nonlinear_arith);
            assert((x * y) * (x * y) == (x * x) * (y * y)) by (nonlinear_arith);
            assert((c + x * y) * (c + x * y) <= (p + x * x) * (q + y * y));
        }
    }
}

/// The sequence `i -> m * s[i] - d`, the centering map the correlation
/// bound runs through.
pub open spec fn scaled_shifted(s: Seq<u8>, m: int, d: int) -> Seq<int> {
    Seq::new(s.len(), |i: int| m * s[i] - d)
}

/// Moments of a scaled and shifted byte sequence, in terms of the raw
/// moments.
pub proof fn lemma_scaled_shifted_moments(a: Seq<u8>, b: Seq<u8>, m: int, d: int, e: int)
    requires
        a.len() == b.len(),
    ensures
        isumsq(scaled_shifted(a, m, d)) == m * m * sum_sq(a) - 2 * m * d * sum_of(a) + d * d
            * a.len(),
        icross(scaled_shifted(a, m, d), scaled_shifted(b, m, e)) == m * m * sum_cross(a, b) - m * e
            * sum_of(a) - m * d * sum_of(b) + d * e * a.len(),
    decreases a.len(),
{
    if a.len() == 0 {
        assert(scaled_shifted(a, m, d).len() == 0);
        assert(scaled_shifted(b, m, e).len() == 0);
    } else {
        let a1 = a.drop_last();
        let b1 = b.drop_last();
        assert(scaled_shifted(a, m, d).drop_last() =~= scaled_shifted(a1, m, d));
        assert(scaled_shifted(b, m, e).drop_last() =~= scaled_shifted(b1, m, e));
        lemma_scaled_shifted_moments(a1, b1, m, d, e);
        let x = a.last() as int;
        let y = b.last() as int;
        assert(scaled_shifted(a, m, d).last() == m * x - d);
        assert(scaled_shifted(b, m, e).last() == m * y - e);
        assert((m * x - d) * (m * x - d) == (m * x) * (m * x) - 2 * d * (m * x) + d * d)
            by (nonlinear_arith);
        assert((m * x) * (m * x) == m * m * (x * x) && 2 * d * (m * x) == 2 * m * d * x)
            by (nonlinear_arith);
        assert((m * x - d) * (m * y - e) == (m * x) * (m * y) - e * (m * x) - d * (m * y) + d * e)
            by (nonlinear_arith);
        assert((m * x) * (m * y) == m * m * (x * y) && e * (m * x) == m * e * x && d * (m * y) == m
            * d * y) by (nonlinear_arith);
        assert(m * m * (sum_sq(a1) + x * x) == m * m * sum_sq(a1) + m * m * (x * x))
            by (nonlinear_arith);
        assert(2 * m * d * (sum_of(a1) + x) == 2 * m * d * sum_of(a1) + 2 * m * d * x)
            by (nonlinear_arith);
        assert(d * d * (a1.len() + 1) == d * d * a1.len() + d * d) by (nonlinear_arith);
        assert(m * m * (sum_cross(a1, b1) + x * y) == m * m * sum_cross(a1, b1) + m * m * (x * y))
            by (nonlinear_arith);
        assert(m * e * (sum_of(a1) + x) == m * e * sum_of(a1) + m * e * x) by (nonlinear_arith);
        assert(m * d * (sum_of(b1) + y) == m * d * sum_of(b1) + m * d * y) by (nonlinear_arith);
        assert(d * e * (a1.len() + 1) == d * e * a1.len() + d * e) by (nonlinear_arith);
    }
}

/// The correlation bound: the squared covariance never exceeds the
/// product of the scaled variances, so the normalized correlation lies
/// in [-1, 1].
pub proof fn lemma_num_sq_le_den_product(a: Seq<u8>, b: Seq<u8>)
    requires
        a.len() == b.len(),
    ensures
        num_of(a, b) * num_of(a, b) <= den_of(a) * den_of(b),
{
    let n = a.len() as int;
    let u = scaled_shifted(a, n, sum_of(a));
    let v = scaled_shifted(b, n, sum_of(b));
    lemma_cauchy_schwarz(u, v);
    lemma_scaled_shifted_moments(a, b, n, sum_of(a), sum_of(b));
    lemma_scaled_shifted_moments(b, a, n, sum_of(b), sum_of(a));
    let sa = sum_of(a);
    let sb = sum_of(b);
    assert(isumsq(u) == n * n * sum_sq(a) - 2 * n * sa * sa + sa * sa * n);
    assert(isumsq(v) == n * n * sum_sq(b) - 2 * n * sb * sb + sb * sb * n);
    assert(icross(u, v) == n * n * sum_cross(a, b) - n * sb * sa - n * sa * sb + sa * sb * n);
    assert(isumsq(u) == n * (n * sum_sq(a) - sa * sa)) by (nonlinear_arith)
        requires
            isumsq(u) == n * n * sum_sq(a) - 2 * n * sa * sa + sa * sa * n,
    ;
    assert(isumsq(v) == n * (n * sum_sq(b) - sb * sb)) by (nonlinear_arith)
        requires
            isumsq(v) == n * n * sum_sq(b) - 2 * n * sb * sb + sb * sb * n,
    ;
    assert(icross(u, v) == n * (n * sum_cross(a, b) - sa * sb)) by (nonlinear_arith)
        requires
            icross(u, v) == n * n * sum_cross(a, b) - n * sb * sa - n * sa * sb + sa * sb * n,
    ;
    let nm = num_of(a, b);
    let da = den_of(a);
    let db = den_of(b);
    assert((n * nm) * (n * nm) <= (n * da) * (n * db));
    if n > 0 {
        assert(nm * nm <= da * db) by (nonlinear_arith)
            requires
                n > 0,
                (n * nm) * (n * nm) <= (n * da) * (n * db),
        ;
    } else {
        assert(a.len() == 0);
        assert(nm == 0 && da == 0 && db == 0);
    }
}

/// A sequence of zero squares is zero at every index.
pub proof fn lemma_isumsq_zero_pointwise(s: Seq<int>)
    requires
        isumsq(s) == 0,
    ensures
        forall|i: int| 0 <= i < s.len() ==> s[i] == 0,
    decreases s.len(),
{
    if s.len() > 0 {
        lemma_isumsq_nonneg(s.drop_last());
        assert(s.last() * s.last() >= 0) by (nonlinear_arith);
        assert(s.last() * s.last() == 0);
        assert(s.last() == 0) by (nonlinear_arith)
            requires
                s.last() * s.last() == 0,
        ;
        lemma_isumsq_zero_pointwise(s.drop_last());
        assert forall|i: int| 0 <= i < s.len() implies s[i] == 0 by {
            if i < s.len() - 1 {
                assert(s.drop_last()[i] == 0);
            }
        }
    }
}

/// All elements of a constant sequence sum like multiples.
pub proof fn lemma_constant_moments(s: Seq<u8>, v: u8)
    requires
        forall|i: int| 0 <= i < s.len() ==> s[i] == v,
    ensures
        sum_of(s) == s.len() * v,
        sum_sq(s) == s.len() * (v * v),
    decreases s.len(),
{
    if s.len() > 0 {
        lemma_constant_moments(s.drop_last(), v);
        assert((s.len() - 1) * v + v == s.len() * v) by (nonlinear_arith);
        assert((s.len() - 1) * (v * v) + v * v == s.len() * (v * v)) by (nonlinear_arith);
    }
}

/// The scaled variance is zero exactly on constant sequences: every
/// pixel equals every other one iff `den_of` vanishes.
pub proof fn lemma_zero_variance_iff_constant(s: Seq<u8>)
    requires
        s.len() > 0,
    ensures
        den_of(s) == 0 <==> (forall|i: int, j: int|
            #![trigger s[i], s[j]]
            0 <= i < s.len() && 0 <= j < s.len() ==> s[i] == s[j]),
{
    let n = s.len() as int;
    if den_of(s) == 0 {
        let u = scaled_shifted(s, n, sum_of(s));
        lemma_scaled_shifted_moments(s, s, n, sum_of(s), sum_of(s));
        let sa = sum_of(s);
        assert(isumsq(u) == n * n * sum_sq(s) - 2 * n * sa * sa + sa * sa * n);
        assert(isumsq(u) == n * (n * sum_sq(s) - sa * sa)) by (nonlinear_arith)
            requires
                isumsq(u) == n * n * sum_sq(s) - 2 * n * sa * sa + sa * sa * n,
        ;
        assert(isumsq(u) == 0) by (nonlinear_arith)
            requires
                isumsq(u) == n * (n * sum_sq(s) - sa * sa),
                n * sum_sq(s) - sa * sa == 0,
        ;
        lemma_isumsq_zero_pointwise(u);
        assert forall|i: int, j: int|
            #![trigger s[i], s[j]]
            0 <= i < s.len() && 0 <= j < s.len() implies s[i] == s[j] by {
            assert(u[i] == 0 && u[j] == 0);
            assert(n * s[i] - sa == 0 && n * s[j] - sa == 0);
            assert(s[i] == s[j]) by (nonlinear_arith)
                requires
                    n > 0,
                    n * s[i] == sa,
                    n * s[j] == sa,
            ;
        }
    }
    if forall|i: int, j: int| #![trigger s[i], s[j]] 0 <= i < s.len() && 0 <= j < s.len() ==> s[i]
        == s[j] {
        let v = s[0];
        assert(forall|i: int| 0 <= i < s.len() ==> s[i] == v);
        lemma_constant_moments(s, v);
        assert(n * (n * (v * v)) - (n * v) * (n * v) == 0) by (nonlinear_arith);
    }
}

}
