//! What holds of the group law: the point at infinity is neutral, a point
//! and its mirror image cancel, and over a field with an odd prime number
//! of elements the sum of two points always exists, lies on the curve and
//! does not depend on their order. On a curve without singular points,
//! adding a point and then its mirror image gives back what was there.

use crate::curve_algebra::{
    lemma_cancel_invertible, lemma_chord_on_curve, lemma_line_is_tangent_at_double_point,
    lemma_no_singular_point, lemma_slope_solves, lemma_square_roots_modulo_prime,
    lemma_tangent_on_curve,
};
use crate::curve_algebra::cofactor;
use crate::elliptic_curve::EllipticCurve;
use crate::error::CurveError;
use crate::extended_euclid::{egcd, lemma_egcd_with_prime};
use crate::finite_field_element::FiniteFieldElement;
use crate::modular::{
    congruent, lemma_combination_vanishes, lemma_congruent_iff_difference_vanishes,
    lemma_congruent_mul, lemma_congruent_reduced_equal, lemma_congruent_sub,
    lemma_mod_congruent,
};
use crate::point::Point;
use vstd::arithmetic::div_mod::*;
use vstd::prelude::*;

verus! {

/// The mirror image of a point of the curve is a point of the curve.
pub proof fn lemma_negation_is_on_curve(point: Point)
    requires
        point.wf(),
    ensures
        point.negation().wf(),
{
    if point.y is Some {
        let y = point.y->Some_0;
        let p = y.modulus as int;
        let mirrored = (-y.value) % p;
        lemma_mod_congruent(-y.value as int, p);
        lemma_congruent_mul(mirrored, -y.value as int, mirrored, -y.value as int, p);
        assert((-y.value) * (-y.value) == y.value * y.value) by (nonlinear_arith);
    }
}

/// The point at infinity is neutral on both sides: `P + O == P` and
/// `O + P == P`.
pub proof fn lemma_identity_is_neutral(point: Point)
    ensures
        point.sum(Point::identity(point.curve)) == Ok::<Point, CurveError>(point),
        Point::identity(point.curve).sum(point) == Ok::<Point, CurveError>(point),
{
}

/// A point and its mirror image add up to the point at infinity:
/// `P + (-P) == O`. Left out are the points with `2 y == p`, which are their
/// own mirror image without lying on the x-axis; they exist only where the
/// modulus is even.
pub proof fn lemma_point_plus_negation(point: Point)
    requires
        point.wf(),
        point.y matches Some(y) ==> 2 * y.value != y.modulus,
    ensures
        point.sum(point.negation()) == Ok::<Point, CurveError>(Point::identity(point.curve)),
{
    if point.y is Some {
        let y = point.y->Some_0;
        let p = y.modulus as int;
        if y.value != 0 {
            assert(-y.value == p * (-1) + (p - y.value));
            lemma_fundamental_div_mod_converse_mod(-y.value as int, p, -1, p - y.value);
        } else {
            lemma_small_mod(0, p as nat);
        }
    }
}

/// Both points are affine and the line through them is not vertical, so
/// that their sum goes by the tangent or the chord.
pub open spec fn joined_by_a_line(first: Point, second: Point) -> bool {
    let x1 = first.x->Some_0;
    let y1 = first.y->Some_0;
    let x2 = second.x->Some_0;
    let y2 = second.y->Some_0;
    !first.is_identity() && !second.is_identity() && !(x1 == x2 && (y1 != y2 || y1.value == 0))
}

/// The numerator of the slope of that line: `3 x^2 + a` for the tangent,
/// `y2 - y1` for the chord.
pub open spec fn rise(first: Point, second: Point) -> int {
    let x1 = first.x->Some_0;
    let y1 = first.y->Some_0;
    let x2 = second.x->Some_0;
    let y2 = second.y->Some_0;
    if x1 == x2 {
        3 * (x1.value * x1.value) + first.curve.a
    } else {
        y2.value - y1.value
    }
}

/// The denominator of the slope of that line: `2 y` for the tangent,
/// `x2 - x1` for the chord.
pub open spec fn run(first: Point, second: Point) -> int {
    let x1 = first.x->Some_0;
    let y1 = first.y->Some_0;
    let x2 = second.x->Some_0;
    if x1 == x2 {
        2 * y1.value
    } else {
        x2.value - x1.value
    }
}

/// The slope that the addition computes for that line.
pub open spec fn slope(first: Point, second: Point) -> int {
    let p = first.x->Some_0.modulus as int;
    ((rise(first, second) % p) * egcd(run(first, second) % p, p).1) % p
}

/// The affine point of coordinates `x` and `y` modulo `p` on `curve`.
pub open spec fn affine_point(curve: EllipticCurve, p: i32, x: int, y: int) -> Point {
    Point {
        x: Some(FiniteFieldElement { value: x as i32, modulus: p }),
        y: Some(FiniteFieldElement { value: y as i32, modulus: p }),
        curve,
    }
}

/// The point in which the line of slope `s` through `first` and `second`
/// meets the curve a third time, mirrored.
pub open spec fn third_point_by_slope(first: Point, second: Point, s: int) -> Point {
    let x1 = first.x->Some_0;
    let y1 = first.y->Some_0;
    let x2 = second.x->Some_0;
    let p = x1.modulus as int;
    let x3 = (s * s - x1.value - x2.value) % p;
    affine_point(first.curve, x1.modulus, x3, (s * (x1.value - x3) - y1.value) % p)
}

/// Over a field with an odd prime number of elements the slope of the line
/// through two points exists: the denominator has an inverse, the slope
/// times the denominator is congruent to the numerator, and the sum of the
/// two points is the third point of that slope, which lies on the curve.
pub proof fn lemma_slope_of_line(first: Point, second: Point)
    requires
        first.wf(),
        second.wf(),
        first.curve == second.curve,
        first.same_field(second),
        first.over_odd_prime_field(),
        joined_by_a_line(first, second),
    ensures
        0 <= slope(first, second) < first.x->Some_0.modulus,
        congruent(
            slope(first, second) * run(first, second),
            rise(first, second),
            first.x->Some_0.modulus as int,
        ),
        congruent(
            egcd(
                run(first, second) % (first.x->Some_0.modulus as int),
                first.x->Some_0.modulus as int,
            ).1 * run(first, second),
            1,
            first.x->Some_0.modulus as int,
        ),
        congruent(
            cofactor(
                first.curve.a as int,
                slope(first, second),
                first.x->Some_0.value as int,
                first.y->Some_0.value as int,
                second.x->Some_0.value as int,
            ),
            0,
            first.x->Some_0.modulus as int,
        ),
        first.sum(second) == Ok::<Point, CurveError>(
            third_point_by_slope(first, second, slope(first, second)),
        ),
        third_point_by_slope(first, second, slope(first, second)).wf(),
{
    let x1 = first.x->Some_0;
    let y1 = first.y->Some_0;
    let x2 = second.x->Some_0;
    let y2 = second.y->Some_0;
    let p = x1.modulus as int;
    let a = first.curve.a as int;
    let b = first.curve.b as int;
    let tangent = x1 == x2;
    let rise = rise(first, second);
    let run = run(first, second);
    let numerator = rise % p;
    let denominator = run % p;
    lemma_mod_congruent(rise, p);
    lemma_mod_congruent(run, p);
    // the denominator is a residue other than zero
    if denominator == 0 {
        lemma_small_mod(0, p as nat);
        if tangent {
            // 0 < 2 y < 2 p is a multiple of p, so it is p, which is odd
            lemma_fundamental_div_mod(run, p);
            let k = run / p;
            assert(k == 1) by (nonlinear_arith)
                requires
                    run == p * k,
                    0 < run < 2 * p,
                    p > 0,
            ;
            assert(p * k == p) by (nonlinear_arith)
                requires
                    k == 1,
            ;
            assert(p % 2 != 0);
            assert(p == 2 * y1.value);
            assert(false);
        } else {
            lemma_mod_equivalence(x2.value as int, x1.value as int, p);
            lemma_congruent_reduced_equal(x2.value as int, x1.value as int, p);
            assert(false);
        }
    }
    lemma_egcd_with_prime(denominator, p);
    lemma_slope_solves(p, numerator, denominator, rise, run);
    let inverse = egcd(denominator, p).1;
    let s = (numerator * inverse) % p;
    let x3 = (s * s - x1.value - x2.value) % p;
    let y3 = (s * (x1.value - x3) - y1.value) % p;
    lemma_mod_congruent(numerator * inverse, p);
    lemma_mod_congruent(s * s - x1.value - x2.value, p);
    lemma_mod_congruent(s * (x1.value - x3) - y1.value, p);
    if tangent {
        assert(3 * (x1.value * x1.value) == 3 * x1.value * x1.value) by (nonlinear_arith);
        lemma_tangent_on_curve(a, b, p, x1.value as int, y1.value as int, s, x3, y3);
    } else {
        lemma_chord_on_curve(
            a,
            b,
            p,
            x1.value as int,
            y1.value as int,
            x2.value as int,
            y2.value as int,
            inverse,
            s,
            x3,
            y3,
        );
    }
}

/// Over a field with an odd prime number of elements the sum of two points
/// of a curve always exists and is a point of that curve: no division fails
/// and the point constructed lies on the curve.
pub proof fn lemma_sum_is_closed(first: Point, second: Point)
    requires
        first.wf(),
        second.wf(),
        first.curve == second.curve,
        first.same_field(second),
        first.over_odd_prime_field(),
        second.over_odd_prime_field(),
    ensures
        first.sum(second) is Ok,
        first.sum(second)->Ok_0.wf(),
        first.sum(second)->Ok_0.curve == first.curve,
        first.sum(second)->Ok_0.over_odd_prime_field(),
        first.sum(second)->Ok_0.same_field(first),
        first.sum(second)->Ok_0.same_field(second),
{
    if joined_by_a_line(first, second) {
        lemma_slope_of_line(first, second);
    }
}

/// What the slope must satisfy settles the sum: for any `t` with
/// `t * run == rise` modulo `p`, the sum of the two points is the third
/// point of slope `t`.
pub proof fn lemma_sum_by_slope(first: Point, second: Point, t: int)
    requires
        first.wf(),
        second.wf(),
        first.curve == second.curve,
        first.same_field(second),
        first.over_odd_prime_field(),
        joined_by_a_line(first, second),
        congruent(t * run(first, second), rise(first, second), first.x->Some_0.modulus as int),
    ensures
        first.sum(second) == Ok::<Point, CurveError>(third_point_by_slope(first, second, t)),
{
    let x1 = first.x->Some_0.value as int;
    let y1 = first.y->Some_0.value as int;
    let x2 = second.x->Some_0.value as int;
    let p = first.x->Some_0.modulus as int;
    let s = slope(first, second);
    lemma_slope_of_line(first, second);
    let inverse = egcd(run(first, second) % p, p).1;
    lemma_cancel_invertible(p, inverse, run(first, second), s, t);
    // congruent slopes give one abscissa and one ordinate
    lemma_congruent_mul(s, t, s, t, p);
    lemma_congruent_sub(s * s, t * t, x1 + x2, x1 + x2, p);
    let x3 = (s * s - x1 - x2) % p;
    assert(x3 == (t * t - x1 - x2) % p);
    lemma_congruent_mul(s, t, x1 - x3, x1 - x3, p);
    lemma_congruent_sub(s * (x1 - x3), t * (x1 - x3), y1, y1, p);
}

/// Over a field with an odd prime number of elements the sum of two points
/// of a curve does not depend on their order: `P + Q == Q + P`.
pub proof fn lemma_sum_commutes(first: Point, second: Point)
    requires
        first.wf(),
        second.wf(),
        first.curve == second.curve,
        first.same_field(second),
        first.over_odd_prime_field(),
        second.over_odd_prime_field(),
    ensures
        first.sum(second) == second.sum(first),
{
    let x1 = first.x->Some_0;
    let y1 = first.y->Some_0;
    let x2 = second.x->Some_0;
    let y2 = second.y->Some_0;
    if !first.is_identity() && !second.is_identity() && x1 != x2 {
        let p = x1.modulus as int;
        lemma_sum_is_closed(first, second);
        lemma_sum_is_closed(second, first);
        let rise = y2.value - y1.value;
        let run = x2.value - x1.value;
        let forth = egcd(run % p, p).1;
        let back = egcd((-run) % p, p).1;
        let s = ((rise % p) * forth) % p;
        let t = (((-rise) % p) * back) % p;
        lemma_mod_congruent(rise, p);
        lemma_mod_congruent(run, p);
        lemma_mod_congruent(-rise, p);
        lemma_mod_congruent(-run, p);
        lemma_slope_solves(p, rise % p, run % p, rise, run);
        lemma_slope_solves(p, (-rise) % p, (-run) % p, -rise, -run);
        // both slopes solve s * run == rise, so they are one residue
        lemma_congruent_sub(0, 0, t * (-run), -rise, p);
        assert(0 - t * (-run) == t * run) by (nonlinear_arith);
        lemma_cancel_invertible(p, forth, run, s, t);
        lemma_mod_congruent((rise % p) * forth, p);
        lemma_mod_congruent(((-rise) % p) * back, p);
        lemma_congruent_reduced_equal(s, t, p);
        // the abscissa is symmetric in the two points, and the ordinates
        // differ by s * run - rise
        let x3 = (s * s - x1.value - x2.value) % p;
        assert(s * s - x2.value - x1.value == s * s - x1.value - x2.value);
        let from_first = s * (x1.value - x3) - y1.value;
        let from_second = s * (x2.value - x3) - y2.value;
        assert(from_second - from_first == s * run - rise) by (nonlinear_arith)
            requires
                from_first == s * (x1.value - x3) - y1.value,
                from_second == s * (x2.value - x3) - y2.value,
                run == x2.value - x1.value,
                rise == y2.value - y1.value,
        ;
        lemma_mod_equivalence(s * run, rise, p);
        lemma_mod_equivalence(from_second, from_first, p);
    }
}

/// On a curve without singular points over a field with an odd prime
/// number of elements, adding a point and then its mirror image gives back
/// what one started from: `(P + Q) + (-Q) == P`.
pub proof fn lemma_add_then_subtract(first: Point, second: Point)
    requires
        first.wf(),
        second.wf(),
        first.curve == second.curve,
        first.same_field(second),
        first.over_odd_prime_field(),
        second.over_odd_prime_field(),
        second.on_nonsingular_curve(),
    ensures
        first.sum(second) is Ok,
        first.sum(second)->Ok_0.sum(second.negation()) == Ok::<Point, CurveError>(first),
{
    lemma_sum_is_closed(first, second);
    lemma_negation_is_on_curve(second);
    let total = first.sum(second)->Ok_0;
    let mirrored = second.negation();
    if second.is_identity() {
    } else if first.is_identity() {
        let p = second.x->Some_0.modulus as int;
        assert(p % 2 != 0);
        lemma_point_plus_negation(second);
    } else if !joined_by_a_line(first, second) {
        // the two are on one vertical line, so the first is the mirror image
        // of the second
        let p = second.x->Some_0.modulus as int;
        let y1 = first.y->Some_0.value as int;
        let y2 = second.y->Some_0.value as int;
        lemma_mirrored_ordinate(p, y2);
        if y1 != y2 {
            lemma_square_roots_modulo_prime(p, y1, y2);
        }
        assert(mirrored == first);
    } else {
        let p = first.x->Some_0.modulus as int;
        let a = first.curve.a as int;
        let b = first.curve.b as int;
        let x1 = first.x->Some_0.value as int;
        let y1 = first.y->Some_0.value as int;
        let x2 = second.x->Some_0.value as int;
        let y2 = second.y->Some_0.value as int;
        let s = slope(first, second);
        lemma_slope_of_line(first, second);
        let x3 = (s * s - x1 - x2) % p;
        let y3 = (s * (x1 - x3) - y1) % p;
        let mirrored_y = (-y2) % p;
        lemma_mirrored_ordinate(p, y2);
        lemma_mod_congruent(s * s - x1 - x2, p);
        lemma_mod_congruent(s * (x1 - x3) - y1, p);
        lemma_mod_congruent(-y2, p);
        assert(total == affine_point(first.curve, first.x->Some_0.modulus, x3, y3));
        // the line takes the ordinate of the second point at its abscissa
        let line2 = s * (x2 - x1) + y1;
        let line3 = s * (x3 - x1) + y1;
        assert(congruent(line2, y2, p)) by {
            if first.x->Some_0 == second.x->Some_0 {
                assert(s * (x2 - x1) == 0) by (nonlinear_arith)
                    requires
                        x2 == x1,
                ;
            } else {
                lemma_congruent_iff_difference_vanishes(s * (x2 - x1), y2 - y1, p);
                lemma_congruent_iff_difference_vanishes(line2, y2, p);
            }
        }
        // y3 == -line3 and the mirrored ordinate is -y2
        assert(s * (x1 - x3) - y1 == -line3) by (nonlinear_arith)
            requires
                line3 == s * (x3 - x1) + y1,
        ;
        if x3 != x2 {
            // the chord through the sum and the mirror image has slope -s
            let t = -s;
            assert(t * (x2 - x3) - (mirrored_y - y3) == (-1) * (mirrored_y + y2) + 1 * (y3
                + line3) + 1 * (y2 - line2)) by (nonlinear_arith)
                requires
                    t == -s,
                    line2 == s * (x2 - x1) + y1,
                    line3 == s * (x3 - x1) + y1,
            ;
            lemma_congruent_iff_difference_vanishes(mirrored_y, -y2, p);
            lemma_congruent_iff_difference_vanishes(y3, -line3, p);
            lemma_congruent_iff_difference_vanishes(y2, line2, p);
            lemma_three_vanish(-1, mirrored_y + y2, 1, y3 + line3, 1, y2 - line2, p);
            lemma_congruent_iff_difference_vanishes(t * (x2 - x3), mirrored_y - y3, p);
            lemma_sum_by_slope(total, mirrored, t);
            // its third point is the first point
            let back_x = (t * t - x3 - x2) % p;
            assert(t * t == s * s) by (nonlinear_arith)
                requires
                    t == -s,
            ;
            lemma_congruent_iff_difference_vanishes(x3, s * s - x1 - x2, p);
            assert((t * t - x3 - x2) - x1 == (-1) * (x3 - (s * s - x1 - x2)));
            lemma_three_vanish(-1, x3 - (s * s - x1 - x2), 0, 0, 0, 0, p);
            lemma_congruent_iff_difference_vanishes(t * t - x3 - x2, x1, p);
            lemma_small_mod(x1 as nat, p as nat);
            assert(back_x == x1);
            assert((t * (x3 - x1) - y3) - y1 == (-1) * (y3 + line3)) by (nonlinear_arith)
                requires
                    t == -s,
                    line3 == s * (x3 - x1) + y1,
            ;
            lemma_three_vanish(-1, y3 + line3, 0, 0, 0, 0, p);
            lemma_congruent_iff_difference_vanishes(t * (x3 - x1) - y3, y1, p);
            lemma_small_mod(y1 as nat, p as nat);
        } else {
            // the sum is the mirror image of the second point, and the line
            // is the tangent at the second point
            assert(line3 == line2);
            lemma_congruent_iff_difference_vanishes(y3, -line3, p);
            lemma_congruent_iff_difference_vanishes(y2, line2, p);
            lemma_congruent_iff_difference_vanishes(mirrored_y, -y2, p);
            assert(y3 - mirrored_y == 1 * (y3 + line3) + (-1) * (mirrored_y + y2) + 1 * (y2
                - line2));
            lemma_three_vanish(1, y3 + line3, -1, mirrored_y + y2, 1, y2 - line2, p);
            lemma_congruent_iff_difference_vanishes(y3, mirrored_y, p);
            lemma_congruent_reduced_equal(y3, mirrored_y, p);
            assert(total == mirrored);
            let twice = 2 * (s * line2);
            if first.x->Some_0 == second.x->Some_0 {
                assert(s * (2 * y1) == 2 * (s * line2)) by (nonlinear_arith)
                    requires
                        line2 == s * (x2 - x1) + y1,
                        x2 == x1,
                ;
            } else {
                lemma_line_is_tangent_at_double_point(a, p, x1, y1, x2, s);
            }
            assert(congruent(3 * (x2 * x2) + a, twice, p));
            // 2 s line2 is congruent to 2 s y2
            assert(twice - 2 * (s * y2) == (-2 * s) * (y2 - line2)) by (nonlinear_arith)
                requires
                    twice == 2 * (s * line2),
            ;
            lemma_three_vanish(-2 * s, y2 - line2, 0, 0, 0, 0, p);
            lemma_congruent_iff_difference_vanishes(twice, 2 * (s * y2), p);
            if y3 == 0 {
                // the second point would lie on the x-axis with a tangent of
                // any slope: a singular point
                lemma_small_mod(0, p as nat);
                assert(y2 == 0);
                assert(2 * (s * y2) == 0) by (nonlinear_arith)
                    requires
                        y2 == 0,
                ;
                assert(y2 * y2 == 0) by (nonlinear_arith)
                    requires
                        y2 == 0,
                ;
                assert(4 * (first.curve.a * first.curve.a * first.curve.a) == 4 * (a * a * a));
                lemma_no_singular_point(a, b, p, x2);
                assert(false);
            } else {
                // the tangent at the mirror image has slope -s
                let t = -s;
                assert(t * (2 * y3) - (3 * (x3 * x3) + a) == (-2 * s) * (y3 + line3) + (-1) * (3
                    * (x2 * x2) + a - twice)) by (nonlinear_arith)
                    requires
                        t == -s,
                        twice == 2 * (s * line2),
                        line3 == line2,
                        x3 == x2,
                ;
                lemma_congruent_iff_difference_vanishes(3 * (x2 * x2) + a, twice, p);
                lemma_three_vanish(
                    -2 * s,
                    y3 + line3,
                    -1,
                    3 * (x2 * x2) + a - twice,
                    0,
                    0,
                    p,
                );
                lemma_congruent_iff_difference_vanishes(t * (2 * y3), 3 * (x3 * x3) + a, p);
                lemma_sum_by_slope(total, mirrored, t);
                // its third point is the first point
                assert(t * t == s * s) by (nonlinear_arith)
                    requires
                        t == -s,
                ;
                lemma_congruent_iff_difference_vanishes(x3, s * s - x1 - x2, p);
                assert((t * t - x3 - x3) - x1 == (-1) * (x3 - (s * s - x1 - x2)));
                lemma_three_vanish(-1, x3 - (s * s - x1 - x2), 0, 0, 0, 0, p);
                lemma_congruent_iff_difference_vanishes(t * t - x3 - x3, x1, p);
                lemma_small_mod(x1 as nat, p as nat);
                assert((t * t - x3 - x3) % p == x1);
                assert((t * (x3 - x1) - y3) - y1 == (-1) * (y3 + line3)) by (nonlinear_arith)
                    requires
                        t == -s,
                        line3 == s * (x3 - x1) + y1,
                ;
                lemma_three_vanish(-1, y3 + line3, 0, 0, 0, 0, p);
                lemma_congruent_iff_difference_vanishes(t * (x3 - x1) - y3, y1, p);
                lemma_small_mod(y1 as nat, p as nat);
            }
        }
    }
}

/// The mirrored ordinate `(-y) mod p` is zero when `y` is, and `p - y`
/// otherwise.
proof fn lemma_mirrored_ordinate(p: int, y: int)
    requires
        p > 0,
        0 <= y < p,
    ensures
        (-y) % p == (if y == 0 {
            0
        } else {
            p - y
        }),
{
    if y != 0 {
        assert(-y == p * (-1) + (p - y));
        lemma_fundamental_div_mod_converse_mod(-y, p, -1, p - y);
    } else {
        lemma_small_mod(0, p as nat);
    }
}

/// A combination of three numbers that are congruent to zero is congruent
/// to zero.
proof fn lemma_three_vanish(k1: int, z1: int, k2: int, z2: int, k3: int, z3: int, p: int)
    requires
        p > 0,
        congruent(z1, 0, p),
        congruent(z2, 0, p),
        congruent(z3, 0, p),
    ensures
        congruent(k1 * z1 + k2 * z2 + k3 * z3, 0, p),
{
    lemma_combination_vanishes(k1, z1, k2, z2, p);
    lemma_combination_vanishes(1, k1 * z1 + k2 * z2, k3, z3, p);
    assert(1 * (k1 * z1 + k2 * z2) == k1 * z1 + k2 * z2);
}

} // verus!
