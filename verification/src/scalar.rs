//! The numbers that a computation graph holds.
//!
//! The engine never looks inside a number. It asks the number type for each
//! arithmetic step, and its contracts say which step produced which result.
//! Nothing about the arithmetic itself is taken for granted: the predicates
//! below hold of a result exactly when the named operation can return it on
//! the given operands.
use vstd::prelude::*;

verus! {

/// The arithmetic that the engine needs from a number type.
///
/// The methods carry no contract. A caller learns of a result only that the
/// method returned it, which is what the `is_*` predicates record.
pub trait Scalar: Copy {
    /// The number that stands for the integer `n`.
    fn from_int(n: i64) -> Self;

    /// `self + rhs`.
    fn add(&self, rhs: &Self) -> Self;

    /// `self - rhs`.
    fn sub(&self, rhs: &Self) -> Self;

    /// `self * rhs`.
    fn mul(&self, rhs: &Self) -> Self;

    /// `self / rhs`.
    fn div(&self, rhs: &Self) -> Self;

    /// `-self`.
    fn neg(&self) -> Self;

    /// `e` raised to `self`.
    fn exp(&self) -> Self;

    /// `self` raised to `exponent`.
    fn powf(&self, exponent: &Self) -> Self;

    /// The hyperbolic tangent of `self`.
    fn tanh(&self) -> Self;

    /// Whether `self < rhs`.
    fn less_than(&self, rhs: &Self) -> bool;

    /// How the number is written in a label.
    fn text(&self) -> String;
}

/// `r` stands for the integer `n`.
pub open spec fn is_int<S: Scalar>(n: i64, r: S) -> bool {
    call_ensures(S::from_int, (n,), r)
}

/// `r` is `a + b`.
pub open spec fn is_sum<S: Scalar>(a: S, b: S, r: S) -> bool {
    call_ensures(S::add, (&a, &b), r)
}

/// `r` is `a - b`.
pub open spec fn is_difference<S: Scalar>(a: S, b: S, r: S) -> bool {
    call_ensures(S::sub, (&a, &b), r)
}

/// `r` is `a * b`.
pub open spec fn is_product<S: Scalar>(a: S, b: S, r: S) -> bool {
    call_ensures(S::mul, (&a, &b), r)
}

/// `r` is `a / b`.
pub open spec fn is_quotient<S: Scalar>(a: S, b: S, r: S) -> bool {
    call_ensures(S::div, (&a, &b), r)
}

/// `r` is `-a`.
pub open spec fn is_negation<S: Scalar>(a: S, r: S) -> bool {
    call_ensures(S::neg, (&a,), r)
}

/// `r` is `e` raised to `a`.
pub open spec fn is_exponential<S: Scalar>(a: S, r: S) -> bool {
    call_ensures(S::exp, (&a,), r)
}

/// `r` is `a` raised to `exponent`.
pub open spec fn is_power<S: Scalar>(a: S, exponent: S, r: S) -> bool {
    call_ensures(S::powf, (&a, &exponent), r)
}

/// `r` is the hyperbolic tangent of `a`.
pub open spec fn is_tanh<S: Scalar>(a: S, r: S) -> bool {
    call_ensures(S::tanh, (&a,), r)
}

/// `r` answers whether `a < b`.
pub open spec fn is_less<S: Scalar>(a: S, b: S, r: bool) -> bool {
    call_ensures(S::less_than, (&a, &b), r)
}

/// `r` is how `a` is written in a label.
pub open spec fn is_text<S: Scalar>(a: S, r: Seq<char>) -> bool {
    exists|s: String| call_ensures(S::text, (&a,), s) && s@ == r
}

/// `r` is the logistic function of `x`, computed as `1 / (1 + exp(-x))`.
pub open spec fn is_sigmoid<S: Scalar>(x: S, r: S) -> bool {
    exists|one: S, n: S, e: S, d: S|
        is_int(1, one) && is_negation(x, n) && is_exponential(n, e) && is_sum(one, e, d)
            && is_quotient(one, d, r)
}

/// `r` is `x` rectified: zero where `x < 0`, and `x` itself otherwise.
pub open spec fn is_rectified<S: Scalar>(x: S, r: S) -> bool {
    exists|zero: S, below: bool|
        is_int(0, zero) && is_less(x, zero, below) && r == if below {
            zero
        } else {
            x
        }
}

/// `d` is the slope of `v ^ e` in `v`, computed as `e * v ^ (e - 1)`.
pub open spec fn is_power_slope<S: Scalar>(v: S, e: S, d: S) -> bool {
    exists|one: S, lower: S, p: S|
        is_int(1, one) && is_difference(e, one, lower) && is_power(v, lower, p) && is_product(
            e,
            p,
            d,
        )
}

/// `d` is the slope of the hyperbolic tangent where its result is `y`,
/// computed as `1 - y ^ 2`.
pub open spec fn is_tanh_slope<S: Scalar>(y: S, d: S) -> bool {
    exists|two: S, square: S, one: S|
        is_int(2, two) && is_power(y, two, square) && is_int(1, one) && is_difference(
            one,
            square,
            d,
        )
}

/// `d` is the slope of the logistic function where its result is `y`,
/// computed as `y * (1 - y)`.
pub open spec fn is_sigmoid_slope<S: Scalar>(y: S, d: S) -> bool {
    exists|one: S, rest: S| is_int(1, one) && is_difference(one, y, rest) && is_product(y, rest, d)
}

/// `c` is what a rectifier whose result is `y` lets through of `upstream`:
/// all of it where `0 < y`, and zero otherwise.
pub open spec fn is_gated<S: Scalar>(y: S, upstream: S, c: S) -> bool {
    exists|zero: S, open: bool|
        is_int(0, zero) && is_less(zero, y, open) && c == if open {
            upstream
        } else {
            zero
        }
}

/// Computes `1 / (1 + exp(-x))`.
pub fn sigmoid<S: Scalar>(x: S) -> (r: S)
    ensures
        is_sigmoid(x, r),
{
    let one = S::from_int(1);
    let n = x.neg();
    let e = n.exp();
    let d = one.add(&e);
    let r = one.div(&d);
    assert(is_int(1i64, one) && is_negation(x, n) && is_exponential(n, e) && is_sum(one, e, d)
        && is_quotient(one, d, r));
    r
}

/// Rectifies `x`: zero where `x < 0`, and `x` itself otherwise.
pub fn rectified<S: Scalar>(x: S) -> (r: S)
    ensures
        is_rectified(x, r),
{
    let zero = S::from_int(0);
    let below = x.less_than(&zero);
    let r = if below {
        zero
    } else {
        x
    };
    assert(is_int(0i64, zero) && is_less(x, zero, below));
    r
}

/// Computes `e * v ^ (e - 1)`.
pub fn power_slope<S: Scalar>(v: S, e: S) -> (d: S)
    ensures
        is_power_slope(v, e, d),
{
    let one = S::from_int(1);
    let lower = e.sub(&one);
    let p = v.powf(&lower);
    let d = e.mul(&p);
    assert(is_int(1i64, one) && is_difference(e, one, lower) && is_power(v, lower, p)
        && is_product(e, p, d));
    d
}

/// Computes `1 - y ^ 2`.
pub fn tanh_slope<S: Scalar>(y: S) -> (d: S)
    ensures
        is_tanh_slope(y, d),
{
    let two = S::from_int(2);
    let square = y.powf(&two);
    let one = S::from_int(1);
    let d = one.sub(&square);
    assert(is_int(2i64, two) && is_power(y, two, square) && is_int(1i64, one) && is_difference(
        one,
        square,
        d,
    ));
    d
}

/// Computes `y * (1 - y)`.
pub fn sigmoid_slope<S: Scalar>(y: S) -> (d: S)
    ensures
        is_sigmoid_slope(y, d),
{
    let one = S::from_int(1);
    let rest = one.sub(&y);
    let d = y.mul(&rest);
    assert(is_int(1i64, one) && is_difference(one, y, rest) && is_product(y, rest, d));
    d
}

/// What a rectifier whose result is `y` lets through of `upstream`.
pub fn gated<S: Scalar>(y: S, upstream: S) -> (c: S)
    ensures
        is_gated(y, upstream, c),
{
    let zero = S::from_int(0);
    let open = zero.less_than(&y);
    let c = if open {
        upstream
    } else {
        zero
    };
    assert(is_int(0i64, zero) && is_less(zero, y, open));
    c
}

} // verus!
