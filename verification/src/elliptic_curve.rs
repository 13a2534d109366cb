//! Curves in short Weierstrass form, `y^2 = x^3 + a x + b`, over the field
//! of the coordinates that are handed to them.

use crate::extended_euclid::is_prime;
use crate::finite_field_element::FiniteFieldElement;
use crate::order::lemma_order_bounded;
use crate::text::{push_signed_term, signed_term};
use crate::modular::{
    congruent, lemma_congruent_add, lemma_congruent_mul, lemma_congruent_reduced_equal,
    lemma_mod_congruent,
};
use vstd::arithmetic::div_mod::lemma_small_mod;
use vstd::arithmetic::power::*;
use vstd::prelude::*;
use vstd::string::*;

verus! {

/// The coefficients `a` and `b` of `y^2 = x^3 + a x + b`.
#[derive(Debug, Clone, Copy, PartialEq, Eq, Structural)]
pub struct EllipticCurve {
    pub a: i32,
    pub b: i32,
}

/// `y^2` and `x^3 + a x + b` leave the same remainder modulo `p`.
pub open spec fn satisfies_equation(a: int, b: int, p: int, x: int, y: int) -> bool {
    congruent(y * y, x * x * x + a * x + b, p)
}

impl EllipticCurve {
    /// The curve of coefficients `a` and `b`.
    pub fn new(a: i32, b: i32) -> (r: EllipticCurve)
        ensures
            r.a == a,
            r.b == b,
    {
        EllipticCurve { a, b }
    }

    /// Two curves are the same when their coefficients are.
    pub fn eq(&self, other: &EllipticCurve) -> (r: bool)
        ensures
            r == (*self == *other),
    {
        self.a == other.a && self.b == other.b
    }

    /// `x` and `y` are of one modulus and satisfy the equation in it.
    pub open spec fn contains(self, x: FiniteFieldElement, y: FiniteFieldElement) -> bool {
        x.modulus == y.modulus && satisfies_equation(
            self.a as int,
            self.b as int,
            x.modulus as int,
            x.value as int,
            y.value as int,
        )
    }

    /// The discriminant `4 a^3 + 27 b^2` does not vanish modulo `p`, so that
    /// the curve has no singular point.
    pub open spec fn is_nonsingular(self, p: int) -> bool {
        !congruent(4 * (self.a * self.a * self.a) + 27 * (self.b * self.b), 0, p)
    }

    /// The affine points of the curve over the integers modulo `p`: the
    /// pairs of residues that satisfy the equation.
    pub open spec fn affine_points(self, p: int) -> Set<(int, int)> {
        Set::new(
            |point: (int, int)|
                0 <= point.0 < p && 0 <= point.1 < p && satisfies_equation(
                    self.a as int,
                    self.b as int,
                    p,
                    point.0,
                    point.1,
                ),
        )
    }

    /// The affine points that come before `(x, y)` when the pairs are gone
    /// through column by column.
    pub open spec fn affine_points_before(self, p: int, x: int, y: int) -> Set<(int, int)> {
        Set::new(
            |point: (int, int)|
                self.affine_points(p).contains(point) && (point.0 < x || (point.0 == x && point.1
                    < y)),
        )
    }

    /// The number of points of the curve over the integers modulo `p`, the
    /// point at infinity included.
    pub open spec fn order(self, p: int) -> nat {
        self.affine_points(p).len() + 1
    }

    /// The equation written out: `Elliptic Curve: y^2 = x^3 - 3x + 5`.
    pub open spec fn text(self) -> Seq<char> {
        "Elliptic Curve: y^2 = x^3 "@ + signed_term(self.a as int) + "x "@ + signed_term(
            self.b as int,
        )
    }

    /// Whether the point of coordinates `x` and `y` lies on the curve. The
    /// right-hand side is evaluated in the field of `x`, with the
    /// coefficients taken into it.
    pub fn check_point(&self, x: FiniteFieldElement, y: FiniteFieldElement) -> (r: bool)
        requires
            x.is_reduced(),
            y.is_reduced(),
        ensures
            r == self.contains(x, y),
    {
        let a_in_field = FiniteFieldElement::new(self.a, x.modulus);
        let b_in_field = FiniteFieldElement::new(self.b, x.modulus);
        let first = x.pow(3).unwrap();
        let second = x.mul(&a_in_field).unwrap();
        let right = first.add(&second).unwrap().add(&b_in_field).unwrap();
        let left = y.pow(2).unwrap();
        proof {
            let p = x.modulus as int;
            let xv = x.value as int;
            let yv = y.value as int;
            lemma_cube_is_pow3(xv);
            lemma_square_is_pow2(yv);
            lemma_mod_congruent(self.a as int, p);
            lemma_mod_congruent(self.b as int, p);
            // first + second + b_in_field is congruent to x^3 + a x + b
            lemma_mod_congruent(xv * xv * xv, p);
            lemma_congruent_mul(xv, xv, a_in_field.value as int, self.a as int, p);
            lemma_mod_congruent(xv * a_in_field.value, p);
            lemma_congruent_add(
                first.value as int,
                xv * xv * xv,
                second.value as int,
                xv * self.a,
                p,
            );
            lemma_mod_congruent(first.value + second.value, p);
            lemma_congruent_add(
                (first.value + second.value) % p,
                xv * xv * xv + xv * self.a,
                b_in_field.value as int,
                self.b as int,
                p,
            );
            lemma_mod_congruent((first.value + second.value) % p + b_in_field.value, p);
            assert(xv * self.a == self.a * xv) by (nonlinear_arith);
            assert(congruent(right.value as int, xv * xv * xv + self.a * xv + self.b, p));
            if x.modulus == y.modulus {
                lemma_mod_congruent(yv * yv, p);
                if congruent(yv * yv, xv * xv * xv + self.a * xv + self.b, p) {
                    lemma_congruent_reduced_equal(left.value as int, right.value as int, p);
                }
            }
        }
        right == left
    }

    /// The number of points of the curve over the integers modulo
    /// `modulus`, by trying every pair of residues; the point at infinity
    /// is counted too. Modulo a prime no abscissa has more than two points.
    pub fn count_points(&self, modulus: i32) -> (r: u64)
        requires
            modulus > 0,
        ensures
            r == self.order(modulus as int),
            is_prime(modulus as int) ==> r <= 2 * modulus + 1,
    {
        let ghost p = modulus as int;
        proof {
            if is_prime(p) {
                lemma_order_bounded(*self, p);
            }
        }
        let mut count: u64 = 0;
        let mut x: i32 = 0;
        proof {
            assert(self.affine_points_before(p, 0, 0) =~= Set::<(int, int)>::empty());
        }
        while x < modulus
            invariant
                0 <= x <= modulus,
                p == modulus,
                self.affine_points_before(p, x as int, 0).finite(),
                count == self.affine_points_before(p, x as int, 0).len(),
                count <= x * p,
            decreases modulus - x,
        {
            let mut y: i32 = 0;
            while y < modulus
                invariant
                    0 <= x < modulus,
                    0 <= y <= modulus,
                    p == modulus,
                    self.affine_points_before(p, x as int, y as int).finite(),
                    count == self.affine_points_before(p, x as int, y as int).len(),
                    count <= x * p + y,
                decreases modulus - y,
            {
                let on_curve = self.check_point(
                    FiniteFieldElement::new(x, modulus),
                    FiniteFieldElement::new(y, modulus),
                );
                proof {
                    lemma_small_mod(x as nat, p as nat);
                    lemma_small_mod(y as nat, p as nat);
                    let before = self.affine_points_before(p, x as int, y as int);
                    let after = self.affine_points_before(p, x as int, y + 1);
                    if on_curve {
                        assert(after =~= before.insert((x as int, y as int)));
                    } else {
                        assert(after =~= before);
                    }
                    assert(x * p + y + 1 <= (p - 1) * p + p) by (nonlinear_arith)
                        requires
                            0 <= x <= p - 1,
                            y + 1 <= p,
                            p > 0,
                    ;
                    assert((p - 1) * p + p <= 0x8000_0000 * 0x8000_0000) by (nonlinear_arith)
                        requires
                            0 < p <= 0x8000_0000,
                    ;
                }
                if on_curve {
                    count += 1;
                }
                y += 1;
            }
            proof {
                assert(self.affine_points_before(p, x as int, p) =~= self.affine_points_before(
                    p,
                    x + 1,
                    0,
                ));
                assert(x * p + p == (x + 1) * p) by (nonlinear_arith);
            }
            x += 1;
        }
        proof {
            assert(self.affine_points_before(p, p, 0) =~= self.affine_points(p));
            assert(p * p <= 0x8000_0000 * 0x8000_0000) by (nonlinear_arith)
                requires
                    0 < p <= 0x8000_0000,
            ;
        }
        count + 1
    }

    /// The equation written out, each coefficient with its sign in front.
    pub fn to_text(&self) -> (s: String)
        ensures
            s@ == self.text(),
    {
        let mut s = String::from_str("Elliptic Curve: y^2 = x^3 ");
        push_signed_term(&mut s, self.a);
        s.append("x ");
        push_signed_term(&mut s, self.b);
        s
    }
}

/// The third power is the product of three equal factors.
pub proof fn lemma_cube_is_pow3(x: int)
    ensures
        pow(x, 3) == x * x * x,
{
    reveal_with_fuel(pow, 4);
    assert(x * (x * (x * 1)) == x * x * x) by (nonlinear_arith);
}

} // verus!
