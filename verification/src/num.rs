//! The element type's arithmetic, as the arrays use it.
//!
//! Elements are `i32`. Sums, differences and products that leave the range of
//! `i32` are refused by the operations' preconditions (in Rust they panic in a
//! debug build). Division truncates toward zero, as Rust's `/` does.
use vstd::prelude::*;

verus! {

/// `x` is a value of `i32`.
pub open spec fn fits(x: int) -> bool {
    i32::MIN <= x <= i32::MAX
}

/// Rust's integer division, which rounds toward zero.
pub open spec fn div_trunc(a: int, b: int) -> int {
    if a == 0 {
        0
    } else if a > 0 && b > 0 {
        a / b
    } else if a < 0 && b < 0 {
        (-a) / (-b)
    } else if a < 0 {
        -((-a) / b)
    } else {
        -(a / (-b))
    }
}

/// `a / b` is defined on `i32`: no division by zero and no overflow.
pub open spec fn div_ok(a: i32, b: i32) -> bool {
    b != 0 && !(a == i32::MIN && b == -1)
}

/// Absolute value.
pub open spec fn abs_int(x: int) -> int {
    if x < 0 {
        -x
    } else {
        x
    }
}

/// For `0 <= x` and `1 <= d`, the quotient `x / d` lies in `0..=x`, and below `x` once `d > 1`.
proof fn lemma_quotient_bounds(x: int, d: int)
    requires
        0 <= x,
        1 <= d,
    ensures
        0 <= x / d <= x,
        d > 1 && x > 0 ==> x / d < x,
{
    vstd::arithmetic::div_mod::lemma_div_pos_is_pos(x, d);
    vstd::arithmetic::div_mod::lemma_fundamental_div_mod(x, d);
    vstd::arithmetic::div_mod::lemma_mod_bound(x, d);
    let q = x / d;
    assert(q <= x && (d > 1 && x > 0 ==> q < x)) by (nonlinear_arith)
        requires
            x == d * q + x % d,
            0 <= x % d < d,
            0 <= q,
            1 <= d,
    ;
}

/// The quotient of `a` by `b`, rounded toward zero, as an element.
pub(crate) fn div_elem(a: i32, b: i32) -> (r: i32)
    requires
        div_ok(a, b),
    ensures
        r == div_trunc(a as int, b as int),
{
    proof {
        let x = a as int;
        let d = b as int;
        if x > 0 && d > 0 {
            lemma_quotient_bounds(x, d);
        } else if x < 0 && d < 0 {
            lemma_quotient_bounds(-x, -d);
        } else if x < 0 && d > 0 {
            lemma_quotient_bounds(-x, d);
        } else if x > 0 && d < 0 {
            lemma_quotient_bounds(x, -d);
        }
    }
    match a.checked_div(b) {
        Some(q) => q,
        None => 0,
    }
}

/// `num_traits::Signed::abs` on `i32`: the absolute value (the source negates
/// a negative number, which overflows, and panics in a debug build, on `i32::MIN`).
#[verifier::external_body]
pub(crate) fn signed_abs(x: i32) -> (r: i32)
    requires
        x != i32::MIN,
    ensures
        r == abs_int(x as int),
{
    num_traits::Signed::abs(&x)
}

/// `num_traits::Bounded::min_value` on `i32`: the smallest `i32`.
#[verifier::external_body]
pub(crate) fn lowest() -> (r: i32)
    ensures
        r == i32::MIN,
{
    <i32 as num_traits::Bounded>::min_value()
}

/// `num_traits::Bounded::max_value` on `i32`: the largest `i32`.
#[verifier::external_body]
pub(crate) fn highest() -> (r: i32)
    ensures
        r == i32::MAX,
{
    <i32 as num_traits::Bounded>::max_value()
}

} // verus!
