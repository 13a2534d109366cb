//! The extended Euclidean algorithm on machine integers, with division that
//! rounds toward zero, and the facts about its result that the field
//! arithmetic relies on.

use vstd::arithmetic::div_mod::*;
use vstd::math::abs;
use vstd::prelude::*;

verus! {

/// Quotient of `a` by `b` rounded toward zero.
pub open spec fn trunc_div(a: int, b: int) -> int {
    if a >= 0 && b > 0 {
        a / b
    } else if a < 0 && b < 0 {
        (-a) / (-b)
    } else if a < 0 {
        -((-a) / b)
    } else {
        -(a / (-b))
    }
}

/// Remainder of `a` by `b` that goes with `trunc_div`: it has the sign of `a`.
pub open spec fn trunc_rem(a: int, b: int) -> int {
    if a >= 0 && b > 0 {
        a % b
    } else if a < 0 && b < 0 {
        -((-a) % (-b))
    } else if a < 0 {
        -((-a) % b)
    } else {
        a % (-b)
    }
}

/// `a == trunc_div(a, b) * b + trunc_rem(a, b)`, the remainder is smaller in
/// magnitude than the divisor, and nothing is lost in magnitude.
pub proof fn lemma_trunc_div_rem(a: int, b: int)
    requires
        b != 0,
    ensures
        a == trunc_div(a, b) * b + trunc_rem(a, b),
        abs(trunc_rem(a, b)) < abs(b),
        a >= 0 ==> trunc_rem(a, b) >= 0,
        a <= 0 ==> trunc_rem(a, b) <= 0,
        abs(a) == abs(trunc_div(a, b)) * abs(b) + abs(trunc_rem(a, b)),
        abs(trunc_div(a, b)) <= abs(a),
{
    let x: int = abs(a) as int;
    let d: int = abs(b) as int;
    lemma_fundamental_div_mod(x, d);
    lemma_mod_pos_bound(x, d);
    lemma_div_pos_is_pos(x, d);
    let q: int = x / d;
    let r: int = x % d;
    assert(x == d * q + r);
    assert(d * q == q * d) by (nonlinear_arith);
    assert((-q) * b == -(q * b)) by (nonlinear_arith);
    assert(q * (-b) == -(q * b)) by (nonlinear_arith);
    assert((-q) * (-b) == q * b) by (nonlinear_arith);
    assert(q <= x) by (nonlinear_arith)
        requires
            x == d * q + r,
            d >= 1,
            q >= 0,
            r >= 0,
    ;
}

/// The extended Euclidean algorithm as a recursion: `(a, 1, 0)` when `b` is
/// zero, and otherwise `(d, t, s - (a / b) * t)` where `(d, s, t)` is the
/// result for `(b, a mod b)`, with division rounding toward zero.
pub open spec fn egcd(a: int, b: int) -> (int, int, int)
    decreases abs(b),
    via egcd_decreases
{
    if b == 0 {
        (a, 1, 0)
    } else {
        let r = egcd(b, trunc_rem(a, b));
        (r.0, r.2, r.1 - trunc_div(a, b) * r.2)
    }
}

#[via_fn]
proof fn egcd_decreases(a: int, b: int) {
    if b != 0 {
        lemma_trunc_div_rem(a, b);
    }
}

/// Bezout's identity: the two coefficients combine `a` and `b` into the
/// first component.
pub proof fn lemma_egcd_bezout(a: int, b: int)
    ensures
        a * egcd(a, b).1 + b * egcd(a, b).2 == egcd(a, b).0,
    decreases abs(b),
{
    if b != 0 {
        let q = trunc_div(a, b);
        let r = trunc_rem(a, b);
        lemma_trunc_div_rem(a, b);
        lemma_egcd_bezout(b, r);
        let s = egcd(b, r).1;
        let t = egcd(b, r).2;
        assert(a * t + b * (s - q * t) == b * s + r * t) by (nonlinear_arith)
            requires
                a == q * b + r,
        ;
    }
}

/// How large the result can get: the first component is no larger in
/// magnitude than the larger argument, the coefficient of `a` no larger than
/// `b`, and the coefficient of `b` no larger than `a` (or 1).
pub proof fn lemma_egcd_bounds(a: int, b: int)
    ensures
        abs(egcd(a, b).0) <= abs(a) || abs(egcd(a, b).0) <= abs(b),
        b == 0 ==> egcd(a, b).1 == 1 && egcd(a, b).2 == 0,
        b != 0 ==> abs(egcd(a, b).1) <= abs(b),
        b != 0 ==> abs(egcd(a, b).2) <= abs(a) || abs(egcd(a, b).2) <= 1,
        b != 0 ==> abs(trunc_div(a, b) * egcd(b, trunc_rem(a, b)).2) <= abs(a),
    decreases abs(b),
{
    if b != 0 {
        let q = trunc_div(a, b);
        let r = trunc_rem(a, b);
        lemma_trunc_div_rem(a, b);
        lemma_egcd_bounds(b, r);
        let t = egcd(b, r).2;
        let aq: int = abs(q) as int;
        let at: int = abs(t) as int;
        let ab: int = abs(b) as int;
        assert(abs(q * t) == aq * at) by (nonlinear_arith)
            requires
                aq == abs(q),
                at == abs(t),
        ;
        assert(aq * at <= aq * ab) by (nonlinear_arith)
            requires
                0 <= aq,
                0 <= at <= ab,
        ;
    }
}

/// On arguments that are not negative and not both zero the first component
/// is a positive common divisor.
pub proof fn lemma_egcd_divides(a: int, b: int)
    requires
        a >= 0,
        b >= 0,
        a > 0 || b > 0,
    ensures
        egcd(a, b).0 > 0,
        a % egcd(a, b).0 == 0,
        b % egcd(a, b).0 == 0,
    decreases b,
{
    if b == 0 {
        lemma_mod_self_0(a);
        lemma_small_mod(0, a as nat);
    } else {
        let q = trunc_div(a, b);
        let r = trunc_rem(a, b);
        lemma_trunc_div_rem(a, b);
        lemma_egcd_divides(b, r);
        let d = egcd(b, r).0;
        let k = b / d;
        lemma_fundamental_div_mod(b, d);
        assert(q * b == d * (k * q)) by (nonlinear_arith)
            requires
                b == d * k,
        ;
        lemma_mod_multiples_vanish(k * q, r, d);
    }
}

/// Every positive common divisor of `a` and `b` divides the first component,
/// which with `lemma_egcd_divides` makes it the greatest one.
pub proof fn lemma_common_divisor_divides_egcd(a: int, b: int, c: int)
    requires
        c > 0,
        a % c == 0,
        b % c == 0,
    ensures
        egcd(a, b).0 % c == 0,
{
    let x = egcd(a, b).1;
    let y = egcd(a, b).2;
    lemma_egcd_bezout(a, b);
    lemma_fundamental_div_mod(a, c);
    lemma_fundamental_div_mod(b, c);
    let ka = a / c;
    let kb = b / c;
    assert(a * x + b * y == (ka * x + kb * y) * c) by (nonlinear_arith)
        requires
            a == c * ka,
            b == c * kb,
    ;
    lemma_mod_multiples_basic(ka * x + kb * y, c);
}

/// Some number above 1 divides both `v` and `m`.
pub open spec fn share_a_factor(v: int, m: int) -> bool {
    exists|d: int| d > 1 && #[trigger] (v % d) == 0 && m % d == 0
}

/// For a residue `v` and a modulus `m` the first component differs from 1
/// exactly when the two share a factor.
pub proof fn lemma_egcd_detects_common_factor(v: int, m: int)
    requires
        v >= 0,
        m > 0,
    ensures
        egcd(v, m).0 != 1 <==> share_a_factor(v, m),
{
    lemma_egcd_divides(v, m);
    let d = egcd(v, m).0;
    if d != 1 {
        assert(d > 1 && v % d == 0 && m % d == 0);
    }
    if share_a_factor(v, m) {
        let c = choose|c: int| c > 1 && #[trigger] (v % c) == 0 && m % c == 0;
        lemma_common_divisor_divides_egcd(v, m, c);
        lemma_small_mod(1, c as nat);
    }
}

/// `p` is at least 2 and nothing strictly between 1 and `p` divides it.
pub open spec fn is_prime(p: int) -> bool {
    &&& p >= 2
    &&& forall|d: int| 1 < d < p ==> #[trigger] (p % d) != 0
}

/// A prime shares no factor with the residues between 0 and itself, so for
/// those the first component is 1.
pub proof fn lemma_egcd_with_prime(v: int, p: int)
    requires
        is_prime(p),
        0 < v < p,
    ensures
        egcd(v, p).0 == 1,
{
    lemma_egcd_divides(v, p);
    let d = egcd(v, p).0;
    if d > v {
        lemma_small_mod(v as nat, d as nat);
    }
    if d > 1 {
        assert(p % d != 0);
    }
}

/// Namespace of the algorithm.
pub struct ExtendedEuclideanAlgorithm;

impl ExtendedEuclideanAlgorithm {
    /// Greatest common divisor and Bezout coefficients of `a` and `b`:
    /// `(d, x, y)` with `a * x + b * y == d`, by the recursion of `egcd`.
    /// Where neither argument is negative `d` is the greatest common
    /// divisor; a negative argument can make it the negative of that. The
    /// least 32-bit integer is left out, because its magnitude does not fit.
    pub fn extended_gcd(a: i32, b: i32) -> (r: (i32, i32, i32))
        requires
            a > i32::MIN,
            b > i32::MIN,
        ensures
            (r.0 as int, r.1 as int, r.2 as int) == egcd(a as int, b as int),
            a * r.1 + b * r.2 == r.0,
            a >= 0 && b >= 0 && (a > 0 || b > 0) ==> r.0 > 0 && a as int % r.0 as int == 0
                && b as int % r.0 as int == 0,
        decreases abs(b as int),
    {
        proof {
            lemma_egcd_bezout(a as int, b as int);
            if a >= 0 && b >= 0 && (a > 0 || b > 0) {
                lemma_egcd_divides(a as int, b as int);
            }
        }
        if b == 0 {
            return (a, 1, 0);
        }
        proof {
            lemma_trunc_div_rem(a as int, b as int);
            lemma_egcd_bounds(a as int, b as int);
        }
        let quotient: i32 = truncating_quotient(a, b);
        let remainder: i32 = truncating_remainder(a, b);
        let (d, s, t) = Self::extended_gcd(b, remainder);
        let product: i32 = quotient * t;
        (d, t, s - product)
    }
}

/// `a / b` of the machine, for operands on which it cannot overflow.
fn truncating_quotient(a: i32, b: i32) -> (q: i32)
    requires
        a > i32::MIN,
        b != 0,
    ensures
        q == trunc_div(a as int, b as int),
{
    a.checked_div(b).unwrap()
}

/// `a % b` of the machine, for operands on which it cannot overflow.
fn truncating_remainder(a: i32, b: i32) -> (r: i32)
    requires
        a > i32::MIN,
        b != 0,
    ensures
        r == trunc_rem(a as int, b as int),
{
    a.checked_rem(b).unwrap()
}

} // verus!
