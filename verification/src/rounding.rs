//! The rounding accumulator: converts a sequence of fractional quantities
//! into integers whose sum equals the sum of the inputs, carrying the
//! residual rounding error forward so that no systematic bias accumulates.
//!
//! Fractions are exact rationals over one shared positive denominator, so the
//! accumulator is deterministic and the conservation law below is exact.

use vstd::arithmetic::div_mod::lemma_fundamental_div_mod;
use vstd::arithmetic::div_mod::lemma_mod_bound;
use vstd::prelude::*;

verus! {

/// Numerator magnitudes the accumulator accepts.
pub const MAX_ROUND_NUM: i64 = 0x4000_0000_0000_0000;

/// Denominators the accumulator accepts.
pub const MAX_ROUND_DEN: i128 = 0x1000_0000_0000_0000_0000;

/// The integer sequence a sequence of `i64` values denotes.
pub open spec fn to_ints(s: Seq<i64>) -> Seq<int> {
    s.map_values(|x: i64| x as int)
}

/// Sum of an integer sequence.
pub open spec fn seq_sum(s: Seq<int>) -> int
    decreases s.len(),
{
    if s.len() == 0 {
        0
    } else {
        seq_sum(s.drop_last()) + s.last()
    }
}

/// `n / d` rounded to the nearest integer, ties away from zero (`d > 0`).
pub open spec fn round_half_away(n: int, d: int) -> int {
    if n >= 0 {
        (2 * n + d) / (2 * d)
    } else {
        -((2 * (-n) + d) / (2 * d))
    }
}

/// Residual error (scaled by `den`) carried into item `i` of the
/// accumulator run over `nums / den`.
pub open spec fn err_before(nums: Seq<int>, den: int, i: int) -> int
    decreases i,
{
    if i <= 0 {
        0
    } else {
        let e = err_before(nums, den, i - 1);
        e + nums[i - 1] - round_half_away(nums[i - 1] + e, den) * den
    }
}

/// Item `i` of the accumulator's output.
pub open spec fn rounded_at(nums: Seq<int>, den: int, i: int) -> int {
    round_half_away(nums[i] + err_before(nums, den, i), den)
}

/// The whole output of the accumulator run over `nums / den`.
pub open spec fn spec_round(nums: Seq<int>, den: int) -> Seq<int> {
    Seq::new(nums.len(), |i: int| rounded_at(nums, den, i))
}

/// The rounded value is within half a denominator of its argument.
proof fn lemma_round_half_away_close(n: int, d: int)
    requires
        d >= 1,
    ensures
        -d <= 2 * (n - round_half_away(n, d) * d) <= d,
{
    if n >= 0 {
        let x = 2 * n + d;
        let q = x / (2 * d);
        let r = x % (2 * d);
        lemma_fundamental_div_mod(x, 2 * d);
        lemma_mod_bound(x, 2 * d);
        assert(round_half_away(n, d) == q);
        assert(-d <= 2 * (n - q * d) <= d) by (nonlinear_arith)
            requires
                x == 2 * n + d,
                x == (2 * d) * q + r,
                0 <= r < 2 * d,
                d >= 1,
        ;
    } else {
        let m = -n;
        let x = 2 * m + d;
        let q = x / (2 * d);
        let r = x % (2 * d);
        lemma_fundamental_div_mod(x, 2 * d);
        lemma_mod_bound(x, 2 * d);
        assert(round_half_away(n, d) == -q);
        assert(-d <= 2 * (n - (-q) * d) <= d) by (nonlinear_arith)
            requires
                n == -m,
                x == 2 * m + d,
                x == (2 * d) * q + r,
                0 <= r < 2 * d,
                d >= 1,
        ;
    }
}

/// The carried error never exceeds half a denominator in magnitude.
proof fn lemma_err_bound(nums: Seq<int>, den: int, i: int)
    requires
        den >= 1,
        0 <= i,
    ensures
        -den <= 2 * err_before(nums, den, i) <= den,
    decreases i,
{
    if i > 0 {
        lemma_err_bound(nums, den, i - 1);
        let e = err_before(nums, den, i - 1);
        lemma_round_half_away_close(nums[i - 1] + e, den);
    }
}

/// Each output item differs from its input quotient by at most one.
pub proof fn lemma_rounded_close(nums: Seq<int>, den: int, i: int)
    requires
        den >= 1,
        0 <= i,
    ensures
        den * (rounded_at(nums, den, i) - 1) <= nums[i] <= den * (rounded_at(nums, den, i) + 1),
{
    lemma_err_bound(nums, den, i);
    lemma_round_half_away_close(nums[i] + err_before(nums, den, i), den);
    let r = rounded_at(nums, den, i);
    assert(den * (r - 1) == den * r - den && den * (r + 1) == den * r + den) by (nonlinear_arith);
}

/// Running conservation: the carried error is exactly the difference between
/// the input prefix sum and `den` times the output prefix sum.
proof fn lemma_prefix_conservation(nums: Seq<int>, den: int, i: int)
    requires
        den >= 1,
        0 <= i <= nums.len(),
    ensures
        seq_sum(nums.take(i)) - den * seq_sum(spec_round(nums, den).take(i))
            == err_before(nums, den, i),
    decreases i,
{
    if i > 0 {
        lemma_prefix_conservation(nums, den, i - 1);
        assert(nums.take(i).drop_last() =~= nums.take(i - 1));
        assert(spec_round(nums, den).take(i).drop_last() =~= spec_round(nums, den).take(i - 1));
        let s = seq_sum(spec_round(nums, den).take(i - 1));
        let r = rounded_at(nums, den, i - 1);
        assert(seq_sum(nums.take(i)) == seq_sum(nums.take(i - 1)) + nums[i - 1]);
        assert(spec_round(nums, den).take(i).last() == r);
        assert(seq_sum(spec_round(nums, den).take(i)) == s + r);
        assert(den * (s + r) == den * s + den * r) by (nonlinear_arith);
        assert(err_before(nums, den, i)
            == err_before(nums, den, i - 1) + nums[i - 1]
                - round_half_away(nums[i - 1] + err_before(nums, den, i - 1), den) * den);
    }
}

/// Conservation law of the accumulator: when the input fractions sum to an
/// integer, the output integers sum to exactly that integer.
pub proof fn lemma_round_preserves_sum(nums: Seq<int>, den: int)
    requires
        den >= 1,
        seq_sum(nums) % den == 0,
    ensures
        den * seq_sum(spec_round(nums, den)) == seq_sum(nums),
{
    let n = nums.len() as int;
    lemma_prefix_conservation(nums, den, n);
    lemma_err_bound(nums, den, n);
    assert(nums.take(n) =~= nums);
    assert(spec_round(nums, den).take(n) =~= spec_round(nums, den));
    let s = seq_sum(spec_round(nums, den));
    let e = seq_sum(nums) - den * s;
    let q = seq_sum(nums) / den;
    lemma_fundamental_div_mod(seq_sum(nums), den);
    assert(seq_sum(nums) == den * q);
    assert(e == den * (q - s)) by (nonlinear_arith)
        requires
            e == den * q - den * s,
    ;
    let k = q - s;
    assert(k == 0) by (nonlinear_arith)
        requires
            e == den * k,
            -den <= 2 * e <= den,
            den >= 1,
    ;
}

/// Error-diffusion rounding of the fractions `nums[i] / den` to integers:
/// each item is rounded to the nearest integer (ties away from zero) after
/// adding the rounding error carried over from the items before it.
pub fn round(nums: &Vec<i64>, den: i128) -> (r: Vec<i64>)
    requires
        1 <= den <= MAX_ROUND_DEN,
        forall|i: int| 0 <= i < nums@.len() ==> -MAX_ROUND_NUM <= #[trigger] nums@[i] <= MAX_ROUND_NUM,
    ensures
        r@.len() == nums@.len(),
        to_ints(r@) == spec_round(to_ints(nums@), den as int),
        forall|i: int| 0 <= i < r@.len()
            ==> (den as int) * (#[trigger] r@[i] - 1) <= nums@[i] <= (den as int) * (r@[i] + 1),
{
    let ghost gnums = to_ints(nums@);
    let ghost gden = den as int;
    let mut out: Vec<i64> = Vec::new();
    let mut err: i128 = 0;
    let mut i: usize = 0;
    while i < nums.len()
        invariant
            1 <= den <= MAX_ROUND_DEN,
            forall|j: int| 0 <= j < nums@.len()
                ==> -MAX_ROUND_NUM <= #[trigger] nums@[j] <= MAX_ROUND_NUM,
            gnums == to_ints(nums@),
            gden == den as int,
            0 <= i <= nums@.len(),
            out@.len() == i,
            forall|j: int| 0 <= j < i
                ==> #[trigger] out@[j] as int == rounded_at(gnums, gden, j),
            err as int == err_before(gnums, gden, i as int),
            -den <= 2 * err <= den,
        decreases nums@.len() - i,
    {
        let x: i128 = nums[i] as i128 + err;
        let q: i128 = if x >= 0 {
            (2 * x + den) / (2 * den)
        } else {
            -((2 * (-x) + den) / (2 * den))
        };
        proof {
            assert(q == round_half_away(x as int, gden));
            assert(x as int == gnums[i as int] + err_before(gnums, gden, i as int));
            lemma_rounded_close(gnums, gden, i as int);
            assert(gden * (q - 1) <= gnums[i as int] <= gden * (q + 1));
            assert(-MAX_ROUND_NUM - 1 <= q <= MAX_ROUND_NUM + 1) by (nonlinear_arith)
                requires
                    gden >= 1,
                    gden * (q - 1) <= gnums[i as int] <= gden * (q + 1),
                    -MAX_ROUND_NUM <= gnums[i as int] <= MAX_ROUND_NUM;
            lemma_round_half_away_close(x as int, gden);
        }
        let new_err: i128 = x - q * den;
        out.push(q as i64);
        err = new_err;
        i = i + 1;
        proof {
            assert(err as int == err_before(gnums, gden, i as int));
        }
    }
    proof {
        assert(to_ints(out@) =~= spec_round(gnums, gden));
        assert forall|j: int| 0 <= j < out@.len()
            implies gden * (#[trigger] out@[j] - 1) <= nums@[j] <= gden * (out@[j] + 1) by {
            lemma_rounded_close(gnums, gden, j);
            assert(out@[j] as int == rounded_at(gnums, gden, j));
            assert(gnums[j] == nums@[j] as int);
        }
    }
    out
}

} // verus!
