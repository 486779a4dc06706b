//! Integer helpers shared by the other modules: flooring division on signed
//! operands and clamping into a machine range.

use vstd::prelude::*;

verus! {

/// `x` limited to the closed interval from `lo` to `hi`.
pub open spec fn clamp_int(x: int, lo: int, hi: int) -> int {
    if x < lo {
        lo
    } else if x > hi {
        hi
    } else {
        x
    }
}

/// Whether an integer fits in an `i64`.
pub open spec fn fits_i64(x: int) -> bool {
    i64::MIN <= x <= i64::MAX
}

/// A quotient by a positive divisor lies between zero and the dividend.
pub proof fn lemma_floor_div_bounds(a: int, b: int)
    requires
        b > 0,
    ensures
        a >= 0 ==> 0 <= a / b <= a,
        a < 0 ==> a <= a / b < 0,
{
    assert(a >= 0 ==> 0 <= a / b <= a) by (nonlinear_arith)
        requires
            b > 0,
    ;
    assert(a < 0 ==> a <= a / b < 0) by (nonlinear_arith)
        requires
            b > 0,
    ;
}

/// Flooring division of `a` by a positive `b`.
pub fn floor_div(a: i128, b: i128) -> (q: i128)
    requires
        b > 0,
        a > i128::MIN,
    ensures
        q == a as int / b as int,
        a >= 0 ==> 0 <= q <= a,
        a < 0 ==> a <= q < 0,
{
    proof {
        lemma_floor_div_bounds(a as int, b as int);
    }
    if a >= 0 {
        a / b
    } else {
        let n: i128 = -a;
        let k: i128 = (n - 1) / b;
        proof {
            let ai = a as int;
            let bi = b as int;
            let ki = k as int;
            assert(ki == (-ai - 1) / bi);
            assert(ai / bi == -ki - 1) by (nonlinear_arith)
                requires
                    bi > 0,
                    ai < 0,
                    ki == (-ai - 1) / bi,
            ;
        }
        -k - 1
    }
}

/// Limits a wide value to the range of `i64`.
pub fn clamp_to_i64(x: i128) -> (r: i64)
    ensures
        r == clamp_int(x as int, i64::MIN as int, i64::MAX as int),
{
    if x < i64::MIN as i128 {
        i64::MIN
    } else if x > i64::MAX as i128 {
        i64::MAX
    } else {
        x as i64
    }
}

/// Ten to the power `k`.
pub open spec fn pow10(k: nat) -> nat
    decreases k,
{
    if k == 0 {
        1
    } else {
        10 * pow10((k - 1) as nat)
    }
}

/// Powers of ten grow with the exponent.
pub proof fn lemma_pow10_grows(j: nat, k: nat)
    requires
        j <= k,
    ensures
        1 <= pow10(j) <= pow10(k),
    decreases k,
{
    if k == 0 {
    } else if j == k {
        lemma_pow10_grows((j - 1) as nat, (k - 1) as nat);
    } else {
        lemma_pow10_grows(j, (k - 1) as nat);
    }
}

/// Ten to the 18th.
pub proof fn lemma_pow10_18()
    ensures
        pow10(18) == 1_000_000_000_000_000_000,
{
    reveal_with_fuel(pow10, 19);
}

/// A quotient by a positive divisor, times the divisor, is at most the
/// dividend and falls short of it by less than the divisor.
pub proof fn lemma_floor(p: int, d: int)
    requires
        d > 0,
    ensures
        d * (p / d) <= p < d * (p / d) + d,
{
    vstd::arithmetic::div_mod::lemma_fundamental_div_mod(p, d);
}

} // verus!
