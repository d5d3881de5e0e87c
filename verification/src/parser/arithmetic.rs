//! Arithmetic on 32-bit operands.
//!
//! No operation detects overflow.  Each one computes the exact integer result
//! and keeps its low 32 bits, read as a two's complement number.
use vstd::prelude::*;

verus! {

/// The number of values of an `i32`.
pub open spec fn modulus() -> int {
    0x1_0000_0000
}

/// The `i32` that differs from `x` by a multiple of `2^32`.
pub open spec fn wrap(x: int) -> i32 {
    let low = x % modulus();
    if low > i32::MAX {
        (low - modulus()) as i32
    } else {
        low as i32
    }
}

/// The quotient of `a` by `b` rounded toward zero, for `b != 0`.
pub open spec fn truncated_quotient(a: int, b: int) -> int {
    if a >= 0 {
        a / b
    } else {
        -((-a) / b)
    }
}

/// `wrap` changes nothing in the range of `i32`, and elsewhere moves by a
/// multiple of `2^32`.
pub proof fn lemma_wrap(x: int)
    ensures
        (wrap(x) - x) % modulus() == 0,
        i32::MIN <= x <= i32::MAX ==> wrap(x) == x,
{
}

/// Appending a digit to a number that was wrapped before gives what wrapping
/// the longer number gives.
pub proof fn lemma_wrap_append_digit(number: int, digit: int)
    ensures
        wrap(wrap(wrap(number) * 10) + digit) == wrap(number * 10 + digit),
{
    let kept = wrap(number) as int;
    let shifted = wrap(kept * 10) as int;
    lemma_wrap(number);
    lemma_wrap(kept * 10);
    lemma_wrap(shifted + digit);
    lemma_wrap(number * 10 + digit);
}

/// Euclid's division: the remainder is never negative and smaller than the
/// divisor in magnitude.
proof fn lemma_euclid(a: int, b: int)
    requires
        b != 0,
    ensures
        a == (a / b) * b + a % b,
        0 <= a % b,
        b > 0 ==> a % b < b,
        b < 0 ==> a % b < -b,
{
    assert(a == (a / b) * b + a % b && 0 <= a % b && (b > 0 ==> a % b < b) && (b < 0 ==> a % b
        < -b)) by (nonlinear_arith)
        requires
            b != 0,
    ;
}

/// The truncated quotient is the integer `q` for which the remainder
/// `a - q * b` is smaller than `b` in magnitude and has no sign opposite to
/// that of `a`.
pub proof fn lemma_truncated_quotient(a: int, b: int)
    requires
        b != 0,
    ensures
        ({
            let r = a - truncated_quotient(a, b) * b;
            &&& a >= 0 ==> 0 <= r
            &&& a <= 0 ==> r <= 0
            &&& b > 0 ==> -b < r < b
            &&& b < 0 ==> b < r < -b
        }),
{
    if a >= 0 {
        lemma_euclid(a, b);
        if a == 0 {
            assert(0int / b == 0) by (nonlinear_arith)
                requires
                    b != 0,
            ;
        }
    } else {
        lemma_euclid(-a, b);
        assert((-((-a) / b)) * b == -(((-a) / b) * b)) by (nonlinear_arith);
    }
}

/// A truncated quotient is no larger in magnitude than the dividend, and
/// smaller unless the divisor is `1` or `-1` or the dividend is zero.
pub proof fn lemma_truncated_quotient_bounds(a: int, b: int)
    requires
        b != 0,
    ensures
        ({
            let q = truncated_quotient(a, b);
            &&& a >= 0 ==> -a <= q <= a
            &&& a <= 0 ==> a <= q <= -a
            &&& a > 0 && b != -1 ==> -a < q
            &&& a < 0 && b != -1 ==> q < -a
            &&& b == -1 ==> q == -a
        }),
{
    let m = if a >= 0 { a } else { -a };
    let q = m / b;
    lemma_euclid(m, b);
    assert(-m <= q <= m && (m > 0 && b != -1 ==> -m < q) && (b == -1 ==> q == -m))
        by (nonlinear_arith)
        requires
            m >= 0,
            b != 0,
            m == q * b + m % b,
            0 <= m % b,
            b > 0 ==> m % b < b,
            b < 0 ==> m % b < -b,
    ;
}

/// `first + second`, wrapped.
pub fn wrapping_sum(first: i32, second: i32) -> (sum: i32)
    ensures
        sum == wrap(first + second),
{
    first.wrapping_add(second)
}

/// `first - second`, wrapped.
pub fn wrapping_difference(first: i32, second: i32) -> (difference: i32)
    ensures
        difference == wrap(first - second),
{
    first.wrapping_sub(second)
}

/// `first * second`, wrapped.
pub fn wrapping_product(first: i32, second: i32) -> (product: i32)
    ensures
        product == wrap(first * second),
{
    first.wrapping_mul(second)
}

/// `first / second` rounded toward zero, wrapped.  Only `i32::MIN / -1` has a
/// quotient outside the range; it wraps to `i32::MIN`.
pub fn wrapping_quotient(first: i32, second: i32) -> (quotient: i32)
    requires
        second != 0,
    ensures
        quotient == wrap(truncated_quotient(first as int, second as int)),
{
    proof {
        lemma_truncated_quotient_bounds(first as int, second as int);
    }
    if second == -1 {
        0i32.wrapping_sub(first)
    } else {
        first / second
    }
}

} // verus!
