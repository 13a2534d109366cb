//! Residues modulo a fixed positive modulus and their arithmetic.

use crate::error::CurveError;
use crate::extended_euclid::{
    egcd, is_prime, lemma_egcd_bezout, lemma_egcd_detects_common_factor,
    lemma_egcd_with_prime, share_a_factor, ExtendedEuclideanAlgorithm,
};
use crate::text::{decimal, push_decimal};
use vstd::arithmetic::div_mod::*;
use vstd::arithmetic::power::*;
use vstd::prelude::*;
use vstd::string::*;

verus! {

/// An integer `value` taken modulo `modulus`.
#[derive(Debug, Clone, Copy, PartialEq, Eq, Structural)]
pub struct FiniteFieldElement {
    pub value: i32,
    pub modulus: i32,
}

/// The representative in `[0, modulus)` of the residue class of `n`.
pub open spec fn residue(n: int, modulus: i32) -> FiniteFieldElement {
    FiniteFieldElement { value: (n % (modulus as int)) as i32, modulus }
}

impl FiniteFieldElement {
    /// What every element satisfies that `new` or the arithmetic made: the
    /// modulus is positive and the value is the representative in
    /// `[0, modulus)` of its class.
    pub open spec fn is_reduced(self) -> bool {
        self.modulus > 0 && 0 <= self.value < self.modulus
    }

    /// `self + b`.
    pub open spec fn sum(self, b: FiniteFieldElement) -> Result<FiniteFieldElement, CurveError> {
        if self.modulus != b.modulus {
            Err(CurveError::ModulusMismatch)
        } else {
            Ok(residue(self.value + b.value, self.modulus))
        }
    }

    /// `self - b`.
    pub open spec fn difference(self, b: FiniteFieldElement) -> Result<
        FiniteFieldElement,
        CurveError,
    > {
        if self.modulus != b.modulus {
            Err(CurveError::ModulusMismatch)
        } else {
            Ok(residue(self.value - b.value, self.modulus))
        }
    }

    /// `self * b`.
    pub open spec fn product(self, b: FiniteFieldElement) -> Result<
        FiniteFieldElement,
        CurveError,
    > {
        if self.modulus != b.modulus {
            Err(CurveError::ModulusMismatch)
        } else {
            Ok(residue(self.value * b.value, self.modulus))
        }
    }

    /// `self / b`: the product of `self` with the inverse of `b` that the
    /// extended Euclidean algorithm finds for `b.value` and the modulus.
    pub open spec fn quotient(self, b: FiniteFieldElement) -> Result<
        FiniteFieldElement,
        CurveError,
    > {
        let bezout = egcd(b.value as int, self.modulus as int);
        if self.modulus != b.modulus {
            Err(CurveError::ModulusMismatch)
        } else if b.value == 0 {
            Err(CurveError::DivisionByZero)
        } else if bezout.0 != 1 {
            Err(CurveError::NotInvertible { value: self.value, modulus: self.modulus })
        } else {
            Ok(residue(self.value * bezout.1, self.modulus))
        }
    }

    /// `self` raised to the power `e`.
    pub open spec fn power(self, e: nat) -> FiniteFieldElement {
        residue(pow(self.value as int, e), self.modulus)
    }

    /// The element written out: `(value: 5,modulus: 7)`.
    pub open spec fn text(self) -> Seq<char> {
        "(value: "@ + decimal(self.value as int) + ",modulus: "@ + decimal(self.modulus as int)
            + ")"@
    }

    /// The element of `value` modulo `modulus`: the representative in
    /// `[0, modulus)` of the class of `value`, also where `value` is
    /// negative.
    pub fn new(value: i32, modulus: i32) -> (r: FiniteFieldElement)
        requires
            modulus > 0,
        ensures
            r == residue(value as int, modulus),
            r.modulus == modulus,
            r.is_reduced(),
    {
        FiniteFieldElement { value: reduce(value as i64, modulus), modulus }
    }

    /// Refuses a divisor whose value is zero.
    pub fn check_zero(&self, b: &FiniteFieldElement) -> (r: Result<(), CurveError>)
        ensures
            b.value == 0 ==> r == Err::<(), CurveError>(CurveError::DivisionByZero),
            b.value != 0 ==> r == Ok::<(), CurveError>(()),
    {
        if b.value == 0 {
            Err(CurveError::DivisionByZero)
        } else {
            Ok(())
        }
    }

    /// Refuses an operand of another modulus.
    pub fn check_modulus(&self, b: &FiniteFieldElement) -> (r: Result<(), CurveError>)
        ensures
            self.modulus != b.modulus ==> r == Err::<(), CurveError>(CurveError::ModulusMismatch),
            self.modulus == b.modulus ==> r == Ok::<(), CurveError>(()),
    {
        if self.modulus != b.modulus {
            Err(CurveError::ModulusMismatch)
        } else {
            Ok(())
        }
    }

    /// Sum of two elements of one modulus, reduced into `[0, modulus)`.
    pub fn add(&self, b: &FiniteFieldElement) -> (r: Result<FiniteFieldElement, CurveError>)
        requires
            self.is_reduced(),
            b.is_reduced(),
        ensures
            r == self.sum(*b),
            r is Ok <==> self.modulus == b.modulus,
            r is Ok ==> r->Ok_0.is_reduced(),
    {
        self.check_modulus(b)?;
        let total: i64 = self.value as i64 + b.value as i64;
        Ok(FiniteFieldElement { value: reduce(total, self.modulus), modulus: self.modulus })
    }

    /// Difference of two elements of one modulus, reduced into `[0, modulus)`.
    pub fn sub(&self, b: &FiniteFieldElement) -> (r: Result<FiniteFieldElement, CurveError>)
        requires
            self.is_reduced(),
            b.is_reduced(),
        ensures
            r == self.difference(*b),
            r is Ok <==> self.modulus == b.modulus,
            r is Ok ==> r->Ok_0.is_reduced(),
    {
        self.check_modulus(b)?;
        let total: i64 = self.value as i64 - b.value as i64;
        Ok(FiniteFieldElement { value: reduce(total, self.modulus), modulus: self.modulus })
    }

    /// Product of two elements of one modulus, reduced into `[0, modulus)`.
    pub fn mul(&self, b: &FiniteFieldElement) -> (r: Result<FiniteFieldElement, CurveError>)
        requires
            self.is_reduced(),
            b.is_reduced(),
        ensures
            r == self.product(*b),
            r is Ok <==> self.modulus == b.modulus,
            r is Ok ==> r->Ok_0.is_reduced(),
    {
        self.check_modulus(b)?;
        let total: i64 = widening_product(self.value, b.value);
        Ok(FiniteFieldElement { value: reduce(total, self.modulus), modulus: self.modulus })
    }

    /// Quotient of two elements of one modulus. A divisor of value zero is
    /// refused first, then one that shares a factor with the modulus, which
    /// no residue between 0 and a prime modulus does.
    pub fn div(&self, b: &FiniteFieldElement) -> (r: Result<FiniteFieldElement, CurveError>)
        requires
            self.is_reduced(),
            b.is_reduced(),
        ensures
            r == self.quotient(*b),
            self.modulus != b.modulus ==> r == Err::<FiniteFieldElement, CurveError>(
                CurveError::ModulusMismatch,
            ),
            self.modulus == b.modulus && b.value == 0 ==> r == Err::<
                FiniteFieldElement,
                CurveError,
            >(CurveError::DivisionByZero),
            self.modulus == b.modulus && b.value != 0 && egcd(
                b.value as int,
                self.modulus as int,
            ).0 != 1 ==> r == Err::<FiniteFieldElement, CurveError>(
                CurveError::NotInvertible { value: self.value, modulus: self.modulus },
            ),
            self.modulus == b.modulus && b.value != 0 ==> (r is Err <==> share_a_factor(
                b.value as int,
                self.modulus as int,
            )),
            self.modulus == b.modulus && is_prime(self.modulus as int) && 0 < b.value ==> r is Ok,
            r matches Ok(q) ==> q.is_reduced() && q.modulus == self.modulus && (q.value
                * b.value) % (self.modulus as int) == (self.value as int) % (self.modulus as int),
    {
        proof {
            lemma_egcd_detects_common_factor(b.value as int, self.modulus as int);
            if self.modulus == b.modulus && is_prime(self.modulus as int) && 0 < b.value {
                lemma_egcd_with_prime(b.value as int, self.modulus as int);
            }
        }
        self.check_modulus(b)?;
        self.check_zero(b)?;
        let (gcd, x, _) = ExtendedEuclideanAlgorithm::extended_gcd(b.value, self.modulus);
        if gcd != 1 {
            return Err(CurveError::NotInvertible { value: self.value, modulus: self.modulus });
        }
        proof {
            lemma_quotient_undoes_product(*self, *b);
        }
        let total: i64 = widening_product(self.value, x);
        Ok(FiniteFieldElement { value: reduce(total, self.modulus), modulus: self.modulus })
    }

    /// `self` raised to the power `b`, by squaring, with every intermediate
    /// product reduced.
    pub fn pow(&self, b: u32) -> (r: Result<FiniteFieldElement, CurveError>)
        requires
            self.is_reduced(),
        ensures
            r == Ok::<FiniteFieldElement, CurveError>(self.power(b as nat)),
            r->Ok_0.is_reduced(),
    {
        let modulus: i32 = self.modulus;
        let mut base: i32 = reduce(self.value as i64, modulus);
        let mut acc: i32 = reduce(1, modulus);
        let mut exponent: u32 = b;
        proof {
            let full = pow(self.value as int, b as nat);
            lemma_pow_mod_noop(self.value as int, b as nat, modulus as int);
            lemma_mul_mod_noop_general(1, pow(base as int, b as nat), modulus as int);
            lemma_mul_mod_noop_general(1, full, modulus as int);
            lemma_mod_twice(full, modulus as int);
            assert(1 * pow(base as int, b as nat) == pow(base as int, b as nat));
            assert(1 * full == full);
        }
        while exponent > 0
            invariant
                modulus > 0,
                modulus == self.modulus,
                0 <= base < modulus,
                0 <= acc < modulus,
                (acc * pow(base as int, exponent as nat)) % (modulus as int) == pow(
                    self.value as int,
                    b as nat,
                ) % (modulus as int),
            decreases exponent,
        {
            proof {
                lemma_square_and_multiply_step(
                    acc as int,
                    base as int,
                    exponent as nat,
                    modulus as int,
                );
            }
            if exponent % 2 == 1 {
                acc = reduce(widening_product(acc, base), modulus);
            }
            base = reduce(widening_product(base, base), modulus);
            exponent = exponent / 2;
        }
        proof {
            lemma_pow0(base as int);
            assert(acc * 1 == acc);
            lemma_small_mod(acc as nat, modulus as nat);
        }
        Ok(FiniteFieldElement { value: acc, modulus })
    }

    /// The element written out, value first.
    pub fn to_text(&self) -> (s: String)
        ensures
            s@ == self.text(),
    {
        let mut s = String::from_str("(value: ");
        push_decimal(&mut s, self.value);
        s.append(",modulus: ");
        push_decimal(&mut s, self.modulus);
        s.append(")");
        s
    }
}

/// The product of two 32-bit integers, which always fits in 64 bits.
fn widening_product(x: i32, y: i32) -> (r: i64)
    ensures
        r == x * y,
{
    let wide_x: i64 = x as i64;
    let wide_y: i64 = y as i64;
    assert(-0x4000_0000_0000_0000 <= wide_x * wide_y <= 0x4000_0000_0000_0000)
        by (nonlinear_arith)
        requires
            -0x8000_0000 <= wide_x < 0x8000_0000,
            -0x8000_0000 <= wide_y < 0x8000_0000,
    ;
    wide_x * wide_y
}

/// The remainder in `[0, modulus)` of `n`.
fn reduce(n: i64, modulus: i32) -> (r: i32)
    requires
        modulus > 0,
    ensures
        r == (n as int) % (modulus as int),
        0 <= r < modulus,
{
    proof {
        lemma_mod_bound(n as int, modulus as int);
    }
    let remainder: i64 = n.checked_rem_euclid(modulus as i64).unwrap();
    remainder as i32
}

/// One round of exponentiation by squaring keeps `acc * base^e` in its class.
proof fn lemma_square_and_multiply_step(acc: int, base: int, e: nat, m: int)
    requires
        m > 0,
        e > 0,
    ensures
        ((if e % 2 == 1 {
            (acc * base) % m
        } else {
            acc
        }) * pow((base * base) % m, e / 2)) % m == (acc * pow(base, e)) % m,
{
    let h: nat = e / 2;
    let square = base * base;
    let next_acc = if e % 2 == 1 {
        (acc * base) % m
    } else {
        acc
    };
    let carried = if e % 2 == 1 {
        acc * base
    } else {
        acc
    };
    // pow(base, e) in terms of the square
    lemma_square_is_pow2(base);
    lemma_pow_multiplies(base, 2, h);
    assert(pow(square, h) == pow(base, 2 * h));
    if e % 2 == 1 {
        lemma_pow_adds(base, 2 * h, 1);
        lemma_pow1(base);
        assert(e == 2 * h + 1);
        assert(pow(base, e) == pow(base, 2 * h) * base);
        assert(acc * (pow(base, 2 * h) * base) == (acc * base) * pow(base, 2 * h))
            by (nonlinear_arith);
    } else {
        assert(e == 2 * h);
    }
    assert(acc * pow(base, e) == carried * pow(square, h));
    // reducing either factor does not change the class of the product
    lemma_pow_mod_noop(square, h, m);
    lemma_mul_mod_noop_general(carried, pow(square % m, h), m);
    lemma_mul_mod_noop_general(carried, pow(square, h), m);
    lemma_mul_mod_noop_general(next_acc, pow(square % m, h), m);
    if e % 2 == 1 {
        lemma_mod_twice(acc * base, m);
    }
}

/// Where the division succeeds, multiplying the quotient by the divisor
/// gives back the class of the dividend.
pub proof fn lemma_quotient_undoes_product(a: FiniteFieldElement, b: FiniteFieldElement)
    requires
        a.modulus > 0,
        a.quotient(b) is Ok,
    ensures
        (a.quotient(b)->Ok_0.value * b.value) % (a.modulus as int) == (a.value as int) % (
            a.modulus as int),
        a.quotient(b)->Ok_0.is_reduced(),
        a.quotient(b)->Ok_0.modulus == a.modulus,
{
    let m = a.modulus as int;
    let x = egcd(b.value as int, m).1;
    let y = egcd(b.value as int, m).2;
    lemma_egcd_bezout(b.value as int, m);
    lemma_mod_bound(a.value * x, m);
    let q = (a.value * x) % m;
    assert((a.value * x) * b.value == m * (-(y * a.value)) + a.value) by (nonlinear_arith)
        requires
            b.value * x + m * y == 1,
    ;
    lemma_mul_mod_noop_general(a.value * x, b.value as int, m);
    lemma_mod_multiples_vanish(-(y * a.value), a.value as int, m);
}

/// Subtracting what was added gives back the element: `(a + b) - b == a`.
pub proof fn lemma_add_then_sub(a: FiniteFieldElement, b: FiniteFieldElement)
    requires
        a.is_reduced(),
        b.is_reduced(),
        a.modulus == b.modulus,
    ensures
        a.sum(b) is Ok,
        a.sum(b)->Ok_0.difference(b) == Ok::<FiniteFieldElement, CurveError>(a),
{
    let m = a.modulus as int;
    lemma_mod_bound(a.value + b.value, m);
    lemma_sub_mod_noop(a.value + b.value, b.value as int, m);
    lemma_small_mod(b.value as nat, m as nat);
    lemma_small_mod(a.value as nat, m as nat);
    lemma_mod_twice(a.value + b.value, m);
}

/// Multiplying by `b` and then by the inverse of `b` gives back the element:
/// `(a * b) * (1 / b) == a`, wherever `1 / b` exists.
pub proof fn lemma_mul_then_mul_by_inverse(a: FiniteFieldElement, b: FiniteFieldElement)
    requires
        a.is_reduced(),
        b.is_reduced(),
        a.modulus == b.modulus,
        residue(1, a.modulus).quotient(b) is Ok,
    ensures
        a.product(b) is Ok,
        a.product(b)->Ok_0.product(residue(1, a.modulus).quotient(b)->Ok_0) == Ok::<
            FiniteFieldElement,
            CurveError,
        >(a),
{
    let m = a.modulus as int;
    let one = residue(1, a.modulus);
    let inverse = one.quotient(b)->Ok_0;
    lemma_mod_bound(1, m);
    lemma_quotient_undoes_product(one, b);
    lemma_mod_twice(1, m);
    assert((inverse.value * b.value) % m == 1int % m);
    lemma_mod_bound(a.value * b.value, m);
    let ab = (a.value * b.value) % m;
    // (ab * inverse) % m == (a * (b * inverse)) % m == (a * 1) % m == a
    lemma_mul_mod_noop_general(a.value * b.value, inverse.value as int, m);
    assert((a.value * b.value) * inverse.value == a.value * (inverse.value * b.value))
        by (nonlinear_arith);
    lemma_mul_mod_noop_general(a.value as int, inverse.value * b.value, m);
    lemma_mul_mod_noop_general(a.value as int, 1, m);
    assert(a.value * 1 == a.value);
    lemma_small_mod(a.value as nat, m as nat);
}

} // verus!
