//! Points of a curve and the chord-and-tangent group law on them.

use crate::elliptic_curve::{satisfies_equation, EllipticCurve};
use crate::error::CurveError;
use crate::extended_euclid::{egcd, is_prime};
use crate::finite_field_element::{residue, FiniteFieldElement};
use crate::group_law::{lemma_negation_is_on_curve, lemma_sum_is_closed};
use crate::modular::lemma_mod_congruent;
use crate::multiples::{lemma_multiple_failure_persists, lemma_multiples_exist};
use crate::order::lemma_search_is_complete;
use vstd::arithmetic::div_mod::*;
use vstd::arithmetic::power::*;
use vstd::prelude::*;
use vstd::string::*;

verus! {

/// A point of `curve`: the point at infinity, which has no coordinates, or
/// an affine point with both.
#[derive(Debug, Clone, Copy, PartialEq, Eq, Structural)]
pub struct Point {
    pub x: Option<FiniteFieldElement>,
    pub y: Option<FiniteFieldElement>,
    pub curve: EllipticCurve,
}

/// Where the line through `(x1, y1)` and the point of abscissa `x2`, of
/// slope `numerator / denominator` modulo `p`, meets the curve a third time,
/// mirrored at the x-axis: `x3 = s^2 - x1 - x2`, `y3 = s (x1 - x3) - y1`.
pub open spec fn third_point(
    curve: EllipticCurve,
    p: i32,
    x1: int,
    y1: int,
    x2: int,
    numerator: int,
    denominator: int,
) -> Result<Point, CurveError> {
    let bezout = egcd(denominator, p as int);
    let slope = (numerator * bezout.1) % (p as int);
    let x3 = (slope * slope - x1 - x2) % (p as int);
    let y3 = (slope * (x1 - x3) - y1) % (p as int);
    if denominator == 0 {
        Err(CurveError::DivisionByZero)
    } else if bezout.0 != 1 {
        Err(CurveError::NotInvertible { value: numerator as i32, modulus: p })
    } else if !satisfies_equation(curve.a as int, curve.b as int, p as int, x3, y3) {
        Err(CurveError::PointNotOnCurve)
    } else {
        Ok(
            Point {
                x: Some(FiniteFieldElement { value: x3 as i32, modulus: p }),
                y: Some(FiniteFieldElement { value: y3 as i32, modulus: p }),
                curve,
            },
        )
    }
}

impl Point {
    /// The point at infinity of `curve`.
    pub open spec fn identity(curve: EllipticCurve) -> Point {
        Point { x: None, y: None, curve }
    }

    /// Both coordinates are absent.
    pub open spec fn is_identity(self) -> bool {
        self.x is None && self.y is None
    }

    /// The point is the one at infinity, or its coordinates are reduced
    /// elements of one field that satisfy the equation of its curve.
    pub open spec fn wf(self) -> bool {
        match (self.x, self.y) {
            (None, None) => true,
            (Some(x), Some(y)) => x.is_reduced() && y.is_reduced() && self.curve.contains(x, y),
            _ => false,
        }
    }

    /// The mirror image at the x-axis: the same abscissa and the ordinate
    /// `-y`. The point at infinity is its own.
    pub open spec fn negation(self) -> Point {
        match self.y {
            Some(y) => Point {
                x: self.x,
                y: Some(residue(-y.value, y.modulus)),
                curve: self.curve,
            },
            None => self,
        }
    }

    /// The point at infinity, or an affine point whose field has an odd
    /// prime number of elements.
    pub open spec fn over_odd_prime_field(self) -> bool {
        self.x matches Some(x) ==> is_prime(x.modulus as int) && x.modulus > 2
    }

    /// The point at infinity, or an affine point of a curve that has no
    /// singular point over the field of the coordinates.
    pub open spec fn on_nonsingular_curve(self) -> bool {
        self.x matches Some(x) ==> self.curve.is_nonsingular(x.modulus as int)
    }

    /// Both points are affine only if their coordinates are of one modulus.
    pub open spec fn same_field(self, other: Point) -> bool {
        self.x matches Some(x1) ==> (other.x matches Some(x2) ==> x1.modulus == x2.modulus)
    }

    /// The point written out: `Point: Infinity`, or the two coordinates in
    /// brackets.
    pub open spec fn text(self) -> Seq<char> {
        if self.is_identity() {
            "Point: Infinity"@
        } else {
            "Point: ("@ + self.x->Some_0.text() + ", "@ + self.y->Some_0.text() + ")"@
        }
    }

    /// What `new` makes of its arguments.
    pub open spec fn checked(
        x: Option<FiniteFieldElement>,
        y: Option<FiniteFieldElement>,
        curve: EllipticCurve,
    ) -> Result<Point, CurveError> {
        match (x, y) {
            (None, None) => Ok(Point { x, y, curve }),
            (Some(abscissa), Some(ordinate)) => if curve.contains(abscissa, ordinate) {
                Ok(Point { x, y, curve })
            } else {
                Err(CurveError::PointNotOnCurve)
            },
            _ => Err(CurveError::InvalidPoint),
        }
    }

    /// The group law. The point at infinity is neutral; two points on one
    /// vertical line (inverses of each other, or one point of ordinate zero
    /// taken twice) add up to it; a point added to itself goes by the
    /// tangent, of slope `(3 x^2 + a) / (2 y)`; two others by the chord, of
    /// slope `(y2 - y1) / (x2 - x1)`.
    pub open spec fn sum(self, other: Point) -> Result<Point, CurveError> {
        let x1 = self.x->Some_0;
        let y1 = self.y->Some_0;
        let x2 = other.x->Some_0;
        let y2 = other.y->Some_0;
        let p = x1.modulus;
        if self.curve != other.curve {
            Err(CurveError::CurveMismatch)
        } else if self.is_identity() {
            Ok(other)
        } else if other.is_identity() {
            Ok(self)
        } else if x1 == x2 && (y1 != y2 || y1.value == 0) {
            Ok(Point::identity(self.curve))
        } else if x1 == x2 {
            third_point(
                self.curve,
                p,
                x1.value as int,
                y1.value as int,
                x1.value as int,
                (3 * (x1.value * x1.value) + self.curve.a) % (p as int),
                (2 * y1.value) % (p as int),
            )
        } else if x2.modulus != p {
            Err(CurveError::ModulusMismatch)
        } else {
            third_point(
                self.curve,
                p,
                x1.value as int,
                y1.value as int,
                x2.value as int,
                (y2.value - y1.value) % (p as int),
                (x2.value - x1.value) % (p as int),
            )
        }
    }

    /// `k` times the point: the point at infinity with `self` added to it
    /// `k` times, or the failure of the first addition that fails.
    pub open spec fn multiple(self, k: nat) -> Result<Point, CurveError>
        decreases k,
    {
        if k == 0 {
            Ok(Point::identity(self.curve))
        } else {
            match self.multiple((k - 1) as nat) {
                Ok(partial) => partial.sum(self),
                Err(e) => Err(e),
            }
        }
    }

    /// What is wrong with a point that does not satisfy `wf`: its pair of
    /// coordinates is malformed, or it does not lie on its curve.
    pub open spec fn defect(self) -> CurveError {
        match (self.x, self.y) {
            (Some(x), Some(y)) => if x.is_reduced() && y.is_reduced() {
                CurveError::PointNotOnCurve
            } else {
                CurveError::InvalidPoint
            },
            _ => CurveError::InvalidPoint,
        }
    }

    /// `k` times the point where the point satisfies `wf`, and its defect
    /// where it does not.
    pub open spec fn checked_multiple(self, k: nat) -> Result<Point, CurveError> {
        if self.wf() {
            self.multiple(k)
        } else {
            Err(self.defect())
        }
    }

    /// `self`, `2 self`, ... up to `(k - 1) self` exist and none of them is
    /// `target`.
    pub open spec fn no_multiple_below(self, target: Point, k: nat) -> bool {
        forall|j: nat|
            1 <= j < k ==> (#[trigger] self.multiple(j)) is Ok && self.multiple(j) != Ok::<
                Point,
                CurveError,
            >(target)
    }

    /// No multiple `k self` with `k >= 1` is `target`.
    pub open spec fn has_no_multiple(self, target: Point) -> bool {
        forall|k: nat| k >= 1 ==> #[trigger] self.multiple(k) != Ok::<Point, CurveError>(target)
    }

    /// The result of looking through `self`, `2 self`, ..., `limit self` for
    /// `target`: the first factor that gives it, nothing when none does, or
    /// the failure of an addition that failed before it was found.
    pub open spec fn is_first_multiple(
        self,
        target: Point,
        limit: nat,
        found: Result<Option<u128>, CurveError>,
    ) -> bool {
        match found {
            Ok(Some(k)) => {
                &&& 1 <= k <= limit
                &&& self.multiple(k as nat) == Ok::<Point, CurveError>(target)
                &&& self.no_multiple_below(target, k as nat)
            },
            Ok(None) => self.no_multiple_below(target, limit + 1),
            Err(e) => exists|k: nat|
                1 <= k <= limit && #[trigger] self.multiple(k) == Err::<Point, CurveError>(e)
                    && self.no_multiple_below(target, k),
        }
    }

    /// How far `naive_factor` looks: `2 p + 1` for a point with coordinates
    /// modulo `p`, which is as many points as a curve can have when `p` is
    /// prime, and 1 for the point at infinity.
    pub open spec fn search_limit(self) -> nat {
        match self.x {
            Some(x) => (2 * x.modulus + 1) as nat,
            None => 1,
        }
    }

    /// The point of the given coordinates on `curve`: the point at infinity
    /// when both are absent, an affine point when both are present and
    /// satisfy the equation.
    pub fn new(
        x: Option<FiniteFieldElement>,
        y: Option<FiniteFieldElement>,
        curve: EllipticCurve,
    ) -> (r: Result<Point, CurveError>)
        requires
            x matches Some(abscissa) ==> abscissa.is_reduced(),
            y matches Some(ordinate) ==> ordinate.is_reduced(),
        ensures
            r == Point::checked(x, y, curve),
            x is None && y is None ==> r == Ok::<Point, CurveError>(Point::identity(curve)),
            x is None != y is None ==> r == Err::<Point, CurveError>(CurveError::InvalidPoint),
            r matches Ok(point) ==> point.x == x && point.y == y && point.curve == curve
                && point.wf(),
    {
        if x.is_none() && y.is_none() {
            return Ok(Point { x, y, curve });
        }
        if x.is_none() || y.is_none() {
            return Err(CurveError::InvalidPoint);
        }
        let abscissa = x.unwrap();
        let ordinate = y.unwrap();
        if !curve.check_point(abscissa, ordinate) {
            Err(CurveError::PointNotOnCurve)
        } else {
            Ok(Point { x: Some(abscissa), y: Some(ordinate), curve })
        }
    }

    /// Same curve and same coordinates.
    pub fn eq(&self, other: &Point) -> (r: bool)
        ensures
            r == (*self == *other),
    {
        self.x == other.x && self.y == other.y && self.curve.eq(&other.curve)
    }

    /// Whether this is the point at infinity.
    pub fn is_infinity(&self) -> (r: bool)
        ensures
            r == self.is_identity(),
    {
        self.x.is_none() && self.y.is_none()
    }

    /// The sum of two points of one curve, by the cases of `sum`. Points of
    /// different curves are refused. A division that fails on the way to
    /// the slope is handed on, and so is the refusal of a result that does
    /// not lie on the curve.
    pub fn add(&self, other: &Point) -> (r: Result<Point, CurveError>)
        requires
            self.wf(),
            other.wf(),
        ensures
            r == self.sum(*other),
            self.curve != other.curve ==> r == Err::<Point, CurveError>(
                CurveError::CurveMismatch,
            ),
            self.curve == other.curve && self.is_identity() ==> r == Ok::<Point, CurveError>(
                *other,
            ),
            self.curve == other.curve && other.is_identity() ==> r == Ok::<Point, CurveError>(
                *self,
            ),
            self.curve == other.curve && self.same_field(*other) && self.over_odd_prime_field()
                && other.over_odd_prime_field() ==> r is Ok,
            r matches Ok(point) ==> point.wf() && point.curve == self.curve,
    {
        proof {
            if self.curve == other.curve && self.same_field(*other)
                && self.over_odd_prime_field() && other.over_odd_prime_field() {
                lemma_sum_is_closed(*self, *other);
            }
        }
        if !self.curve.eq(&other.curve) {
            return Err(CurveError::CurveMismatch);
        }
        if self.is_infinity() {
            return Ok(*other);
        }
        if other.is_infinity() {
            return Ok(*self);
        }
        let x1 = self.x.unwrap();
        let y1 = self.y.unwrap();
        let x2 = other.x.unwrap();
        let y2 = other.y.unwrap();
        // the line through the two is vertical
        if x1 == x2 && (y1 != y2 || y1.value == 0) {
            return Point::new(None, None, self.curve);
        }
        if self.eq(other) {
            let two = FiniteFieldElement::new(2, x1.modulus);
            let three = FiniteFieldElement::new(3, x1.modulus);
            let a = FiniteFieldElement::new(self.curve.a, x1.modulus);
            let numerator = x1.pow(2)?.mul(&three)?.add(&a)?;
            let denominator = y1.mul(&two)?;
            proof {
                let p = x1.modulus as int;
                let xv = x1.value as int;
                let squared = (xv * xv) % p;
                let tripled = (squared * three.value) % p;
                lemma_square_is_pow2(xv);
                lemma_mul_mod_noop_general(xv * xv, 3, p);
                assert(tripled == (3 * (xv * xv)) % p);
                lemma_mod_congruent(self.curve.a as int, p);
                lemma_add_mod_noop_right(tripled, a.value as int, p);
                lemma_add_mod_noop(3 * (xv * xv), self.curve.a as int, p);
                assert(numerator.value == (3 * (xv * xv) + self.curve.a) % p);
                lemma_mul_mod_noop_general(y1.value as int, 2, p);
                assert(denominator.value == (2 * y1.value) % p);
            }
            return third_point_of_line(self.curve, x1, y1, x1, numerator, denominator);
        }
        let numerator = y2.sub(&y1)?;
        let denominator = x2.sub(&x1)?;
        third_point_of_line(self.curve, x1, y1, x2, numerator, denominator)
    }

    /// `scalar` times the point, by adding it to the point at infinity
    /// `scalar` times.
    pub fn scalar_mul(&self, scalar: u32) -> (r: Result<Point, CurveError>)
        requires
            self.wf(),
        ensures
            r == self.multiple(scalar as nat),
            scalar == 0 ==> r == Ok::<Point, CurveError>(Point::identity(self.curve)),
            self.over_odd_prime_field() ==> r is Ok,
            r matches Ok(point) ==> point.wf() && point.curve == self.curve,
    {
        proof {
            if self.over_odd_prime_field() {
                lemma_multiples_exist(*self, scalar as nat);
            }
        }
        let mut product = Point::new(None, None, self.curve)?;
        let mut i: u32 = 0;
        while i < scalar
            invariant
                i <= scalar,
                self.wf(),
                product.wf(),
                product.curve == self.curve,
                self.multiple(i as nat) == Ok::<Point, CurveError>(product),
            decreases scalar - i,
        {
            match product.add(self) {
                Ok(next) => {
                    product = next;
                },
                Err(e) => {
                    proof {
                        lemma_multiple_failure_persists(*self, (i + 1) as nat, scalar as nat);
                    }
                    return Err(e);
                },
            }
            i += 1;
        }
        Ok(product)
    }

    /// The discrete logarithm of `other` to the base `self` by exhaustive
    /// search: the least `k >= 1` with `k self == other`. The search stops
    /// after `search_limit` steps. Over a field with an odd prime number of
    /// elements that is far enough: no addition fails, and where nothing is
    /// found no multiple of `self` is `other`.
    pub fn naive_factor(&self, other: Point) -> (r: Result<Option<u128>, CurveError>)
        requires
            self.wf(),
        ensures
            self.is_first_multiple(other, self.search_limit(), r),
            self.over_odd_prime_field() ==> r is Ok,
            self.over_odd_prime_field() && r == Ok::<Option<u128>, CurveError>(None)
                ==> self.has_no_multiple(other),
    {
        let limit: u128 = match self.x {
            Some(x) => 2 * (x.modulus as u128) + 1,
            None => 1,
        };
        self.naive_factor_within(other, limit)
    }

    /// The least `k` with `1 <= k <= limit` and `k self == other`, if there
    /// is one. Over a field with an odd prime number of elements no
    /// addition fails, and with a limit of at least `search_limit` nothing
    /// found means that no multiple of `self` is `other`.
    pub fn naive_factor_within(
        &self,
        other: Point,
        limit: u128,
    ) -> (r: Result<Option<u128>, CurveError>)
        requires
            self.wf(),
        ensures
            self.is_first_multiple(other, limit as nat, r),
            self.over_odd_prime_field() ==> r is Ok,
            self.over_odd_prime_field() && limit >= self.search_limit() && r == Ok::<
                Option<u128>,
                CurveError,
            >(None) ==> self.has_no_multiple(other),
    {
        if limit == 0 {
            return Ok(None);
        }
        let mut i: u128 = 1;
        let mut generator = *self;
        proof {
            reveal_with_fuel(Point::multiple, 2);
        }
        while !generator.eq(&other)
            invariant
                1 <= i <= limit,
                self.wf(),
                generator.wf(),
                generator.curve == self.curve,
                self.multiple(i as nat) == Ok::<Point, CurveError>(generator),
                self.no_multiple_below(other, i as nat),
            decreases limit - i,
        {
            if i >= limit {
                proof {
                    if self.over_odd_prime_field() && limit >= self.search_limit() {
                        assert forall|k: nat| k >= 1 implies #[trigger] self.multiple(k) != Ok::<
                            Point,
                            CurveError,
                        >(other) by {
                            lemma_search_is_complete(*self, other, limit as nat, k);
                        }
                    }
                }
                return Ok(None);
            }
            match generator.add(self) {
                Ok(next) => {
                    generator = next;
                },
                Err(e) => {
                    proof {
                        assert(self.multiple((i + 1) as nat) == Err::<Point, CurveError>(e));
                        if self.over_odd_prime_field() {
                            lemma_multiples_exist(*self, (i + 1) as nat);
                        }
                    }
                    return Err(e);
                },
            }
            i += 1;
        }
        Ok(Some(i))
    }

    /// The inverse of the point in the group: its mirror image at the x-axis.
    pub fn negate(&self) -> (r: Point)
        requires
            self.wf(),
        ensures
            r == self.negation(),
            r.wf(),
    {
        match self.y {
            Some(y) => {
                let mirrored = FiniteFieldElement::new(0, y.modulus).sub(&y).unwrap();
                proof {
                    lemma_negation_is_on_curve(*self);
                }
                Point { x: self.x, y: Some(mirrored), curve: self.curve }
            },
            None => *self,
        }
    }

    /// Whether the point is what `wf` asks for: at infinity, or with two
    /// reduced coordinates of one field that satisfy the curve's equation.
    pub fn is_valid(&self) -> (r: bool)
        ensures
            r == self.wf(),
    {
        self.validate().is_ok()
    }

    /// Accepts the point if it is what `wf` asks for. Otherwise says what is
    /// wrong: a coordinate is missing or not reduced, or the point does not
    /// lie on its curve.
    pub fn validate(&self) -> (r: Result<(), CurveError>)
        ensures
            self.wf() ==> r == Ok::<(), CurveError>(()),
            !self.wf() ==> r == Err::<(), CurveError>(self.defect()),
    {
        match (self.x, self.y) {
            (None, None) => Ok(()),
            (Some(x), Some(y)) => {
                if !(x.modulus > 0 && 0 <= x.value && x.value < x.modulus && y.modulus > 0 && 0
                    <= y.value && y.value < y.modulus) {
                    Err(CurveError::InvalidPoint)
                } else if !self.curve.check_point(x, y) {
                    Err(CurveError::PointNotOnCurve)
                } else {
                    Ok(())
                }
            },
            _ => Err(CurveError::InvalidPoint),
        }
    }

    /// `scalar` times the point, for a point that may be anything: it is
    /// first made sure that it is a point of its curve.
    pub fn scalar_mul_checked(&self, scalar: u32) -> (r: Result<Point, CurveError>)
        ensures
            r == self.checked_multiple(scalar as nat),
    {
        match self.validate() {
            Ok(()) => self.scalar_mul(scalar),
            Err(e) => Err(e),
        }
    }

    /// The point written out. A point with one coordinate only has no text.
    pub fn to_text(&self) -> (s: String)
        requires
            self.x is Some == self.y is Some,
        ensures
            s@ == self.text(),
    {
        if self.is_infinity() {
            return String::from_str("Point: Infinity");
        }
        let x = self.x.unwrap().to_text();
        let y = self.y.unwrap().to_text();
        let mut s = String::from_str("Point: (");
        s.append(x.as_str());
        s.append(", ");
        s.append(y.as_str());
        s.append(")");
        s
    }
}

/// The third point of the curve on the line through `(x1, y1)` and the point
/// of abscissa `x2`, mirrored, for a slope given as a fraction.
fn third_point_of_line(
    curve: EllipticCurve,
    x1: FiniteFieldElement,
    y1: FiniteFieldElement,
    x2: FiniteFieldElement,
    numerator: FiniteFieldElement,
    denominator: FiniteFieldElement,
) -> (r: Result<Point, CurveError>)
    requires
        x1.is_reduced(),
        y1.is_reduced(),
        x2.is_reduced(),
        numerator.is_reduced(),
        denominator.is_reduced(),
        x1.modulus == y1.modulus == x2.modulus == numerator.modulus == denominator.modulus,
    ensures
        r == third_point(
            curve,
            x1.modulus,
            x1.value as int,
            y1.value as int,
            x2.value as int,
            numerator.value as int,
            denominator.value as int,
        ),
        r matches Ok(point) ==> point.wf(),
{
    let slope = numerator.div(&denominator)?;
    let x3 = slope.pow(2)?.sub(&x1.add(&x2)?)?;
    let y3 = slope.mul(&x1.sub(&x3)?)?.sub(&y1)?;
    proof {
        let p = x1.modulus as int;
        let s = slope.value as int;
        lemma_square_is_pow2(s);
        lemma_sub_mod_noop(s * s, x1.value + x2.value, p);
        assert(x3.value == (s * s - x1.value - x2.value) % p);
        lemma_mul_mod_noop_general(s, x1.value - x3.value, p);
        lemma_small_mod(y1.value as nat, p as nat);
        lemma_sub_mod_noop(s * (x1.value - x3.value), y1.value as int, p);
        assert(y3.value == (s * (x1.value - x3.value) - y1.value) % p);
    }
    Point::new(Some(x3), Some(y3), curve)
}

} // verus!
