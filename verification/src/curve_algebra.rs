//! Why the chord-and-tangent construction lands on the curve again: the
//! line through two points of `y^2 = x^3 + a x + b` meets the curve in a
//! third point whose coordinates are polynomials in the slope.

use crate::elliptic_curve::satisfies_equation;
use crate::extended_euclid::{egcd, is_prime, lemma_egcd_bezout, lemma_egcd_with_prime};
use crate::modular::{
    congruent, lemma_combination_vanishes, lemma_congruent_add,
    lemma_congruent_iff_difference_vanishes, lemma_congruent_mul,
    lemma_congruent_reduced_equal, lemma_congruent_sub, lemma_mod_congruent,
    lemma_multiple_congruent_zero,
};
use vstd::arithmetic::div_mod::*;
use vstd::prelude::*;

verus! {

/// What is left of `x^3 + a x + b - (s (x - x1) + y1)^2` after the factor
/// `x - x1` has been taken out; it vanishes at the abscissa of the second
/// point in which the line of slope `s` through `(x1, y1)` meets the curve.
pub open spec fn cofactor(a: int, s: int, x1: int, y1: int, x: int) -> int {
    x * x + x * x1 + x1 * x1 + a - s * s * (x - x1) - 2 * s * y1
}

/// The cubic minus the square of the line, at `x`.
pub open spec fn residual(a: int, b: int, s: int, x1: int, y1: int, x: int) -> int {
    x * x * x + a * x + b - (s * (x - x1) + y1) * (s * (x - x1) + y1)
}

/// The residual at `x` is its value at `x1`, which is
/// `x1^3 + a x1 + b - y1^2`, plus `x - x1` times the cofactor.
pub proof fn lemma_residual_factors(a: int, b: int, s: int, x1: int, y1: int, x: int)
    ensures
        residual(a, b, s, x1, y1, x1) == x1 * x1 * x1 + a * x1 + b - y1 * y1,
        residual(a, b, s, x1, y1, x) - residual(a, b, s, x1, y1, x1) == (x - x1) * cofactor(
            a,
            s,
            x1,
            y1,
            x,
        ),
{
    let d = x - x1;
    let cubes = x * x + x * x1 + x1 * x1;
    let lines = s * s * d + 2 * s * y1;
    assert((s * (x1 - x1) + y1) * (s * (x1 - x1) + y1) == y1 * y1) by (nonlinear_arith);
    assert(x * x * x - x1 * x1 * x1 == d * cubes) by (nonlinear_arith)
        requires
            d == x - x1,
            cubes == x * x + x * x1 + x1 * x1,
    ;
    assert(a * x - a * x1 == d * a) by (nonlinear_arith)
        requires
            d == x - x1,
    ;
    assert((s * d + y1) * (s * d + y1) - y1 * y1 == d * lines) by (nonlinear_arith)
        requires
            lines == s * s * d + 2 * s * y1,
    ;
    assert(d * cubes + d * a - d * lines == d * (cubes + a - lines)) by (nonlinear_arith);
}

/// If the cofactor vanishes at `x2`, then the point of abscissa
/// `s^2 - x1 - x2` on the mirrored line lies on the curve.
pub proof fn lemma_third_point_on_curve(
    a: int,
    b: int,
    p: int,
    x1: int,
    y1: int,
    x2: int,
    s: int,
    x3: int,
    y3: int,
)
    requires
        p > 0,
        satisfies_equation(a, b, p, x1, y1),
        congruent(cofactor(a, s, x1, y1, x2), 0, p),
        congruent(x3, s * s - x1 - x2, p),
        congruent(y3, s * (x1 - x3) - y1, p),
    ensures
        satisfies_equation(a, b, p, x3, y3),
{
    let h2 = cofactor(a, s, x1, y1, x2);
    let h3 = cofactor(a, s, x1, y1, x3);
    let g1 = residual(a, b, s, x1, y1, x1);
    let g3 = residual(a, b, s, x1, y1, x3);
    let line3 = s * (x3 - x1) + y1;
    // the cofactor at x3 differs from the one at x2 by a multiple of
    // x3 + x2 + x1 - s^2, which is congruent to zero
    let gap = x3 + x2 + x1 - s * s;
    assert(h3 - h2 == (x3 - x2) * gap) by (nonlinear_arith)
        requires
            h3 == x3 * x3 + x3 * x1 + x1 * x1 + a - s * s * (x3 - x1) - 2 * s * y1,
            h2 == x2 * x2 + x2 * x1 + x1 * x1 + a - s * s * (x2 - x1) - 2 * s * y1,
            gap == x3 + x2 + x1 - s * s,
    ;
    lemma_mod_equivalence(x3, s * s - x1 - x2, p);
    assert(congruent(gap, 0, p));
    lemma_congruent_mul(x3 - x2, x3 - x2, gap, 0, p);
    assert((x3 - x2) * 0 == 0);
    lemma_congruent_add(h2, 0, (x3 - x2) * gap, 0, p);
    assert(congruent(h3, 0, p));
    // the residual at x3 is the one at x1 plus (x3 - x1) times the cofactor
    lemma_residual_factors(a, b, s, x1, y1, x3);
    lemma_mod_equivalence(x1 * x1 * x1 + a * x1 + b, y1 * y1, p);
    assert(congruent(g1, 0, p));
    lemma_congruent_mul(x3 - x1, x3 - x1, h3, 0, p);
    assert((x3 - x1) * 0 == 0);
    lemma_congruent_add(g1, 0, (x3 - x1) * h3, 0, p);
    assert(congruent(g3, 0, p));
    lemma_mod_equivalence(x3 * x3 * x3 + a * x3 + b, line3 * line3, p);
    // y3 is congruent to the negative of the line at x3
    assert(s * (x1 - x3) - y1 == -line3) by (nonlinear_arith)
        requires
            line3 == s * (x3 - x1) + y1,
    ;
    lemma_congruent_mul(y3, -line3, y3, -line3, p);
    assert((-line3) * (-line3) == line3 * line3) by (nonlinear_arith);
}

/// The chord: the slope of the line through two points of different
/// abscissa makes the cofactor vanish at the second.
pub proof fn lemma_chord_on_curve(
    a: int,
    b: int,
    p: int,
    x1: int,
    y1: int,
    x2: int,
    y2: int,
    inverse: int,
    s: int,
    x3: int,
    y3: int,
)
    requires
        p > 0,
        satisfies_equation(a, b, p, x1, y1),
        satisfies_equation(a, b, p, x2, y2),
        congruent(inverse * (x2 - x1), 1, p),
        congruent(s * (x2 - x1), y2 - y1, p),
        congruent(x3, s * s - x1 - x2, p),
        congruent(y3, s * (x1 - x3) - y1, p),
    ensures
        satisfies_equation(a, b, p, x3, y3),
        congruent(cofactor(a, s, x1, y1, x2), 0, p),
{
    let h2 = cofactor(a, s, x1, y1, x2);
    let g1 = residual(a, b, s, x1, y1, x1);
    let g2 = residual(a, b, s, x1, y1, x2);
    let line2 = s * (x2 - x1) + y1;
    let dx = x2 - x1;
    // the line passes through the second point, so the residual vanishes there
    lemma_congruent_add(s * dx, y2 - y1, y1, y1, p);
    assert(congruent(line2, y2, p));
    lemma_congruent_mul(line2, y2, line2, y2, p);
    lemma_mod_equivalence(x2 * x2 * x2 + a * x2 + b, line2 * line2, p);
    assert(congruent(g2, 0, p));
    // and it is (x2 - x1) times the cofactor, up to the residual at x1
    lemma_residual_factors(a, b, s, x1, y1, x2);
    lemma_mod_equivalence(x1 * x1 * x1 + a * x1 + b, y1 * y1, p);
    assert(congruent(g1, 0, p));
    lemma_congruent_sub(g2, 0, g1, 0, p);
    assert(congruent(dx * h2, 0, p));
    // x2 - x1 has an inverse, which cancels it
    lemma_congruent_mul(inverse, inverse, dx * h2, 0, p);
    assert(inverse * 0 == 0);
    assert(inverse * (dx * h2) == (inverse * dx) * h2) by (nonlinear_arith);
    lemma_congruent_mul(inverse * dx, 1, h2, h2, p);
    assert(1 * h2 == h2);
    assert(congruent(h2, 0, p));
    lemma_third_point_on_curve(a, b, p, x1, y1, x2, s, x3, y3);
}

/// The tangent: the slope `(3 x^2 + a) / (2 y)` makes the cofactor vanish
/// at the point of tangency itself.
pub proof fn lemma_tangent_on_curve(
    a: int,
    b: int,
    p: int,
    x1: int,
    y1: int,
    s: int,
    x3: int,
    y3: int,
)
    requires
        p > 0,
        satisfies_equation(a, b, p, x1, y1),
        congruent(s * (2 * y1), 3 * x1 * x1 + a, p),
        congruent(x3, s * s - x1 - x1, p),
        congruent(y3, s * (x1 - x3) - y1, p),
    ensures
        satisfies_equation(a, b, p, x3, y3),
        congruent(cofactor(a, s, x1, y1, x1), 0, p),
{
    let h1 = cofactor(a, s, x1, y1, x1);
    assert(h1 == (3 * x1 * x1 + a) - s * (2 * y1)) by (nonlinear_arith)
        requires
            h1 == x1 * x1 + x1 * x1 + x1 * x1 + a - s * s * (x1 - x1) - 2 * s * y1,
    ;
    lemma_mod_equivalence(3 * x1 * x1 + a, s * (2 * y1), p);
    lemma_third_point_on_curve(a, b, p, x1, y1, x1, s, x3, y3);
}

/// The slope that field division computes for a fraction: where the
/// denominator is coprime to `p`, its Bezout coefficient is an inverse of
/// whatever the denominator is congruent to, and the slope times that is
/// congruent to the numerator.
pub proof fn lemma_slope_solves(
    p: int,
    numerator: int,
    denominator: int,
    rise: int,
    run: int,
)
    requires
        p > 0,
        egcd(denominator, p).0 == 1,
        congruent(numerator, rise, p),
        congruent(denominator, run, p),
    ensures
        congruent(egcd(denominator, p).1 * run, 1, p),
        congruent(((numerator * egcd(denominator, p).1) % p) * run, rise, p),
{
    let u = egcd(denominator, p).1;
    let v = egcd(denominator, p).2;
    let s = (numerator * u) % p;
    lemma_egcd_bezout(denominator, p);
    // u * denominator == 1 - p * v, which is congruent to 1
    lemma_multiple_congruent_zero(v, p);
    lemma_congruent_sub(1, 1, p * v, 0, p);
    assert(u * denominator == 1 - p * v) by (nonlinear_arith)
        requires
            denominator * u + p * v == 1,
    ;
    lemma_congruent_mul(u, u, denominator, run, p);
    assert(congruent(u * run, 1, p));
    // s * run is congruent to numerator * (u * run)
    lemma_mod_congruent(numerator * u, p);
    lemma_congruent_mul(s, numerator * u, run, run, p);
    assert((numerator * u) * run == numerator * (u * run)) by (nonlinear_arith);
    lemma_congruent_mul(numerator, rise, u * run, 1, p);
    assert(rise * 1 == rise);
}

/// A factor that has an inverse can be cancelled: if `s * run` and
/// `t * run` are congruent, so are `s` and `t`.
pub proof fn lemma_cancel_invertible(p: int, inverse: int, run: int, s: int, t: int)
    requires
        p > 0,
        congruent(inverse * run, 1, p),
        congruent(s * run, t * run, p),
    ensures
        congruent(s, t, p),
{
    lemma_congruent_mul(s * run, t * run, inverse, inverse, p);
    assert((s * run) * inverse == s * (inverse * run)) by (nonlinear_arith);
    assert((t * run) * inverse == t * (inverse * run)) by (nonlinear_arith);
    lemma_congruent_mul(s, s, inverse * run, 1, p);
    lemma_congruent_mul(t, t, inverse * run, 1, p);
    assert(s * 1 == s && t * 1 == t);
}

/// A prime that divides a product divides one of the factors.
pub proof fn lemma_prime_divides_factor(p: int, a: int, b: int)
    requires
        is_prime(p),
        congruent(a * b, 0, p),
    ensures
        congruent(a, 0, p) || congruent(b, 0, p),
{
    lemma_small_mod(0, p as nat);
    if a % p != 0 {
        let d = a % p;
        lemma_mod_congruent(a, p);
        lemma_egcd_with_prime(d, p);
        lemma_slope_solves(p, 0, d, 0, a);
        assert(b * a == a * b) by (nonlinear_arith);
        assert(0 * a == 0);
        lemma_cancel_invertible(p, egcd(d, p).1, a, b, 0);
    }
}

/// Modulo a prime a square has at most two roots: residues of equal
/// square are equal or add up to the modulus.
pub proof fn lemma_square_roots_modulo_prime(p: int, y1: int, y2: int)
    requires
        is_prime(p),
        0 <= y1 < p,
        0 <= y2 < p,
        congruent(y1 * y1, y2 * y2, p),
    ensures
        y2 == y1 || y1 + y2 == p,
{
    lemma_mod_equivalence(y2 * y2, y1 * y1, p);
    assert((y2 - y1) * (y2 + y1) == y2 * y2 - y1 * y1) by (nonlinear_arith);
    lemma_small_mod(0, p as nat);
    lemma_prime_divides_factor(p, y2 - y1, y2 + y1);
    if congruent(y2 - y1, 0, p) {
        lemma_mod_equivalence(y2, y1, p);
        lemma_congruent_reduced_equal(y2, y1, p);
    } else {
        // 0 <= y1 + y2 < 2 p is a multiple of p
        let total = y1 + y2;
        lemma_fundamental_div_mod(total, p);
        let k = total / p;
        assert(k == 0 || k == 1) by (nonlinear_arith)
            requires
                total == p * k,
                0 <= total < 2 * p,
                p > 0,
        ;
        assert(p * k == 0 || p * k == p) by (nonlinear_arith)
            requires
                k == 0 || k == 1,
        ;
    }
}

/// Where the line of slope `s` through `(x1, y1)` meets the curve in the
/// point of abscissa `x2` and the third abscissa `s^2 - x1 - x2` is `x2`
/// again, the line is the tangent there: `3 x2^2 + a` is twice the slope
/// times the ordinate of the line.
pub proof fn lemma_line_is_tangent_at_double_point(
    a: int,
    p: int,
    x1: int,
    y1: int,
    x2: int,
    s: int,
)
    requires
        p > 0,
        congruent(cofactor(a, s, x1, y1, x2), 0, p),
        congruent(s * s - x1 - x2, x2, p),
    ensures
        congruent(3 * (x2 * x2) + a, 2 * (s * (s * (x2 - x1) + y1)), p),
{
    let h2 = cofactor(a, s, x1, y1, x2);
    let gap = s * s - x1 - x2 - x2;
    let left = 3 * (x2 * x2) + a;
    let right = 2 * (s * (s * (x2 - x1) + y1));
    lemma_congruent_iff_difference_vanishes(s * s - x1 - x2, x2, p);
    assert(left - right == 1 * h2 + (x1 - x2) * gap) by (nonlinear_arith)
        requires
            h2 == x2 * x2 + x2 * x1 + x1 * x1 + a - s * s * (x2 - x1) - 2 * s * y1,
            gap == s * s - x1 - x2 - x2,
            left == 3 * (x2 * x2) + a,
            right == 2 * (s * (s * (x2 - x1) + y1)),
    ;
    lemma_combination_vanishes(1, h2, x1 - x2, gap, p);
    lemma_congruent_iff_difference_vanishes(left, right, p);
}

/// A curve whose discriminant `4 a^3 + 27 b^2` does not vanish has no
/// singular point: no abscissa at which the cubic and its derivative both
/// vanish.
pub proof fn lemma_no_singular_point(a: int, b: int, p: int, x: int)
    requires
        p > 0,
        !congruent(4 * (a * a * a) + 27 * (b * b), 0, p),
        congruent(x * x * x + a * x + b, 0, p),
    ensures
        !congruent(3 * (x * x) + a, 0, p),
{
    let cubic = x * x * x + a * x + b;
    let slope = 3 * (x * x) + a;
    if congruent(slope, 0, p) {
        let f = 3 * cubic - x * slope;
        assert(f == 2 * (a * x) + 3 * b) by (nonlinear_arith)
            requires
                f == 3 * cubic - x * slope,
                cubic == x * x * x + a * x + b,
                slope == 3 * (x * x) + a,
        ;
        lemma_combination_vanishes(3, cubic, -x, slope, p);
        assert(3 * cubic + (-x) * slope == f) by (nonlinear_arith)
            requires
                f == 3 * cubic - x * slope,
        ;
        let k = -3 * (2 * (a * x) - 3 * b);
        assert(4 * (a * a * a) + 27 * (b * b) == (4 * (a * a)) * slope + k * f)
            by (nonlinear_arith)
            requires
                slope == 3 * (x * x) + a,
                f == 2 * (a * x) + 3 * b,
                k == -3 * (2 * (a * x) - 3 * b),
        ;
        lemma_combination_vanishes(4 * (a * a), slope, k, f, p);
    }
}

} // verus!
