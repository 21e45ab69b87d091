//! Fixed-point numbers: a value is an integer count of millionths.
//!
//! Division truncates toward zero, as the spec function [`div_trunc`]
//! defines; every executable division in the crate is specified against it.

use vstd::prelude::*;
use vstd::arithmetic::div_mod::{
    lemma_div_is_ordered, lemma_div_multiples_vanish, lemma_div_pos_is_pos,
    lemma_fundamental_div_mod,
};
use vstd::arithmetic::mul::lemma_mul_inequality;

verus! {

/// Number of fixed-point units per whole unit.
pub const SCALE: i128 = 1_000_000;

/// Largest magnitude (in raw units) accepted as an input value:
/// one billion whole units.
pub const FIXED_BOUND: i128 = 1_000_000_000 * 1_000_000;

/// A fixed-point number: `raw` counts millionths of a unit.
#[derive(Clone, Copy, Debug, PartialEq, Eq, Structural)]
pub struct Fixed {
    pub raw: i128,
}

/// Whether a raw fixed-point value is within the magnitude the
/// calculators accept without risk of overflow.
pub open spec fn in_range(x: int) -> bool {
    -(FIXED_BOUND as int) <= x <= FIXED_BOUND as int
}

/// Twice the plain input bound: the difference of two in-range values
/// stays within it, so derived streams (price changes, indicator
/// differences) remain summable.
pub open spec fn in_range_wide(x: int) -> bool {
    -2 * (FIXED_BOUND as int) <= x <= 2 * (FIXED_BOUND as int)
}

/// Division truncating toward zero (the rounding every division in this
/// crate performs), defined for positive divisors.
pub open spec fn div_trunc(a: int, b: int) -> int
    recommends
        b > 0,
{
    if a >= 0 {
        a / b
    } else {
        -((-a) / b)
    }
}

impl Fixed {
    /// The whole number `v`, as a fixed-point value.
    pub fn from_int(v: i64) -> (r: Fixed)
        ensures
            r.raw == v * SCALE,
    {
        proof {
            assert(i64::MIN * SCALE >= i128::MIN && i64::MAX * SCALE <= i128::MAX)
                by (nonlinear_arith);
            assert(i64::MIN * SCALE <= v * SCALE <= i64::MAX * SCALE) by (nonlinear_arith)
                requires
                    i64::MIN <= v <= i64::MAX,
            ;
        }
        Fixed { raw: (v as i128) * SCALE }
    }

    /// A fixed-point value from its raw count of millionths.
    pub fn from_scaled(raw: i128) -> (r: Fixed)
        ensures
            r.raw == raw,
    {
        Fixed { raw }
    }
}

/// Truncating division of `a` by a positive divisor `b`.
pub(crate) fn div_trunc_i128(a: i128, b: i128) -> (r: i128)
    requires
        b > 0,
        a > i128::MIN,
    ensures
        r == div_trunc(a as int, b as int),
{
    if a >= 0 {
        let q: u128 = (a as u128) / (b as u128);
        proof {
            lemma_div_pos_is_pos(a as int, b as int);
            lemma_div_is_ordered(0, a as int, b as int);
            lemma_div_nonincreasing_int(a as int, b as int);
        }
        q as i128
    } else {
        let m: u128 = (-a) as u128;
        let q: u128 = m / (b as u128);
        proof {
            lemma_div_pos_is_pos(m as int, b as int);
            lemma_div_nonincreasing_int(m as int, b as int);
        }
        -(q as i128)
    }
}

/// For nonnegative `a` and positive `b`, the quotient does not exceed `a`.
proof fn lemma_div_nonincreasing_int(a: int, b: int)
    requires
        a >= 0,
        b > 0,
    ensures
        0 <= a / b <= a,
{
    lemma_div_pos_is_pos(a, b);
    lemma_fundamental_div_mod(a, b);
    lemma_mul_inequality(1, b, a / b);
}

/// `a * b`, then truncating division by a positive `d`, in one step.
pub(crate) fn mul_div_trunc(a: i128, b: i128, d: i128) -> (r: i128)
    requires
        d > 0,
        -i128::MAX <= a * b <= i128::MAX,
    ensures
        r == div_trunc(a * b, d as int),
{
    let p: i128 = a * b;
    div_trunc_i128(p, d)
}

/// Bounds the magnitude of a truncating quotient: if `|a| <= b * m`,
/// then `|a / b|` (truncating) is at most `m`.
pub proof fn lemma_div_trunc_bound(a: int, b: int, m: int)
    requires
        b > 0,
        m >= 0,
        -(b * m) <= a <= b * m,
    ensures
        -m <= div_trunc(a, b) <= m,
{
    lemma_div_multiples_vanish(m, b);
    if a >= 0 {
        lemma_div_pos_is_pos(a, b);
        lemma_div_is_ordered(a, b * m, b);
    } else {
        lemma_div_pos_is_pos(-a, b);
        lemma_div_is_ordered(-a, b * m, b);
    }
}

/// The raw integer values of a sequence of fixed-point numbers.
pub open spec fn raws(s: Seq<Fixed>) -> Seq<int> {
    s.map_values(|f: Fixed| f.raw as int)
}

/// The sum of a sequence of integers.
pub open spec fn sum_seq(s: Seq<int>) -> int
    decreases s.len(),
{
    if s.len() == 0 {
        0
    } else {
        sum_seq(s.drop_last()) + s.last()
    }
}

/// A sequence whose entries all lie in `[lo, hi]` sums to within
/// `len * lo` and `len * hi`.
pub proof fn lemma_sum_seq_bound(s: Seq<int>, lo: int, hi: int)
    requires
        forall|i: int| 0 <= i < s.len() ==> lo <= #[trigger] s[i] <= hi,
    ensures
        s.len() * lo <= sum_seq(s) <= s.len() * hi,
    decreases s.len(),
{
    if s.len() == 0 {
    } else {
        lemma_sum_seq_bound(s.drop_last(), lo, hi);
        assert((s.len() - 1) * lo + lo == s.len() * lo) by (nonlinear_arith);
        assert((s.len() - 1) * hi + hi == s.len() * hi) by (nonlinear_arith);
    }
}

/// A sequence whose entries all equal `v` sums to `len * v`.
pub proof fn lemma_sum_seq_constant(s: Seq<int>, v: int)
    requires
        forall|i: int| 0 <= i < s.len() ==> #[trigger] s[i] == v,
    ensures
        sum_seq(s) == s.len() * v,
    decreases s.len(),
{
    if s.len() == 0 {
    } else {
        lemma_sum_seq_constant(s.drop_last(), v);
        assert((s.len() - 1) * v + v == s.len() * v) by (nonlinear_arith);
    }
}

/// Extending a sequence by one element adds that element to the sum.
pub proof fn lemma_sum_seq_take(s: Seq<int>, i: int)
    requires
        0 <= i < s.len(),
    ensures
        sum_seq(s.take(i + 1)) == sum_seq(s.take(i)) + s[i],
{
    assert(s.take(i + 1).drop_last() =~= s.take(i));
}

/// Sum of the raw values of a vector of fixed-point numbers.
pub(crate) fn sum_fixed(values: &Vec<Fixed>) -> (s: i128)
    requires
        forall|i: int| 0 <= i < values@.len() ==> in_range_wide((#[trigger] values@[i]).raw as int),
        values@.len() <= 100_000_000,
    ensures
        s == sum_seq(raws(values@)),
        -(values@.len() as int) * (2 * FIXED_BOUND) <= s <= (values@.len() as int) * (2
            * FIXED_BOUND),
{
    let ghost q = raws(values@);
    let mut acc: i128 = 0;
    let mut i: usize = 0;
    proof {
        assert(q.take(0) =~= Seq::<int>::empty());
    }
    while i < values.len()
        invariant
            forall|j: int|
                0 <= j < values@.len() ==> in_range_wide((#[trigger] values@[j]).raw as int),
            values@.len() <= 100_000_000,
            q == raws(values@),
            0 <= i <= values@.len(),
            acc == sum_seq(q.take(i as int)),
            -(i as int) * (2 * FIXED_BOUND) <= acc <= (i as int) * (2 * FIXED_BOUND),
        decreases values@.len() - i,
    {
        proof {
            lemma_sum_seq_take(q, i as int);
            assert(q[i as int] == values@[i as int].raw as int);
            let ii = i as int;
            let b = 2 * (FIXED_BOUND as int);
            assert(ii * b + b == (ii + 1) * b) by (nonlinear_arith);
            assert(-(ii * b) - b == -((ii + 1) * b)) by (nonlinear_arith);
            assert((ii + 1) * b <= 200_000_000_000_000_000_000_000int) by (nonlinear_arith)
                requires
                    0 <= ii + 1 <= 100_000_000int,
                    b == 2_000_000_000_000_000int,
            ;
        }
        acc = acc + values[i].raw;
        i += 1;
    }
    proof {
        assert(q.take(values@.len() as int) =~= q);
    }
    acc
}

/// Whether `r` is the integer square root (rounded down) of `n`.
pub open spec fn is_sqrt_floor(n: int, r: int) -> bool {
    0 <= r && r * r <= n && n < (r + 1) * (r + 1)
}

/// The integer square root, rounded down, of a nonnegative integer.
pub open spec fn sqrt_floor(n: int) -> int {
    choose|r: int| is_sqrt_floor(n, r)
}

/// The integer square root is unique, so any witness pins `sqrt_floor` down.
pub proof fn lemma_sqrt_floor_unique(n: int, r: int)
    requires
        is_sqrt_floor(n, r),
    ensures
        sqrt_floor(n) == r,
{
    let r2 = choose|r2: int| is_sqrt_floor(n, r2);
    assert(is_sqrt_floor(n, r2));
    assert(r2 == r) by (nonlinear_arith)
        requires
            is_sqrt_floor(n, r),
            is_sqrt_floor(n, r2),
    ;
}

/// The integer square root, rounded down.
pub(crate) fn isqrt_u128(n: u128) -> (r: u128)
    ensures
        is_sqrt_floor(n as int, r as int),
        r as int == sqrt_floor(n as int),
{
    let mut lo: u128 = 0;
    let mut hi: u128 = 0xFFFF_FFFF_FFFF_FFFF;
    proof {
        assert((hi + 1) * (hi + 1) > n as int) by (nonlinear_arith)
            requires
                hi == 0xFFFF_FFFF_FFFF_FFFFu128,
                n <= u128::MAX,
        ;
    }
    while lo < hi
        invariant
            lo <= hi <= 0xFFFF_FFFF_FFFF_FFFF,
            lo * lo <= n,
            (hi + 1) * (hi + 1) > n,
        decreases hi - lo,
    {
        let mid: u128 = lo + (hi - lo + 1) / 2;
        proof {
            lemma_div_nonincreasing_int((hi - lo + 1) as int, 2);
            lemma_div_pos_is_pos((hi - lo + 1) as int, 2);
            assert((hi - lo + 1) / 2 >= 1);
        }
        if mid <= n / mid {
            proof {
                let ni: int = n as int;
                let mi: int = mid as int;
                let q: int = ni / mi;
                lemma_fundamental_div_mod(ni, mi);
                lemma_mul_inequality(mi, q, mi);
                assert(q * mi <= ni) by (nonlinear_arith)
                    requires
                        mi > 0,
                        ni == mi * q + ni % mi,
                        ni % mi >= 0,
                ;
                assert(mid * mid <= n);
            }
            lo = mid;
        } else {
            proof {
                let ni: int = n as int;
                let mi: int = mid as int;
                let q: int = ni / mi;
                lemma_fundamental_div_mod(ni, mi);
                lemma_mul_inequality(q + 1, mi, mi);
                assert(ni < (q + 1) * mi) by (nonlinear_arith)
                    requires
                        mi > 0,
                        ni == mi * q + ni % mi,
                        ni % mi < mi,
                ;
                assert((mid as int) * (mid as int) > n as int);
            }
            hi = mid - 1;
        }
    }
    proof {
        lemma_sqrt_floor_unique(n as int, lo as int);
    }
    lo
}

} // verus!
