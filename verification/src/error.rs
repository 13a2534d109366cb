//! The ways in which field and point arithmetic can fail.

use crate::text::{decimal, push_decimal};
use vstd::prelude::*;
use vstd::string::*;

verus! {

/// Why an operation on field elements or curve points was refused.
#[derive(Debug, Clone, Copy, PartialEq, Eq, Structural)]
pub enum CurveError {
    /// Two field elements of different moduli were combined.
    ModulusMismatch,
    /// The inverse of zero was asked for.
    DivisionByZero,
    /// The divisor shares a factor with the modulus. `value` is the
    /// dividend and `modulus` the modulus of the division that failed.
    NotInvertible { value: i32, modulus: i32 },
    /// Exactly one of the two coordinates of a point was given.
    InvalidPoint,
    /// The coordinates do not satisfy the curve's equation.
    PointNotOnCurve,
    /// Two points of different curves were combined.
    CurveMismatch,
}

impl CurveError {
    /// The failure in words.
    pub open spec fn text(self) -> Seq<char> {
        match self {
            CurveError::ModulusMismatch => "Modulus mismatch"@,
            CurveError::DivisionByZero => "Zero division"@,
            CurveError::NotInvertible { value, modulus } => decimal(value as int) + " and "@
                + decimal(modulus as int) + " are not coprimes"@,
            CurveError::InvalidPoint => "Point has only one coordinate"@,
            CurveError::PointNotOnCurve => "Point does not exist on the curve"@,
            CurveError::CurveMismatch => "Points are not on the same curve"@,
        }
    }

    /// The failure in words, for a caller to show.
    pub fn message(&self) -> (s: String)
        ensures
            s@ == self.text(),
    {
        match self {
            CurveError::ModulusMismatch => String::from_str("Modulus mismatch"),
            CurveError::DivisionByZero => String::from_str("Zero division"),
            CurveError::NotInvertible { value, modulus } => {
                let mut s = String::new();
                push_decimal(&mut s, *value);
                s.append(" and ");
                push_decimal(&mut s, *modulus);
                s.append(" are not coprimes");
                proof {
                    assert(Seq::<char>::empty() + decimal(*value as int) == decimal(
                        *value as int,
                    ));
                }
                s
            },
            CurveError::InvalidPoint => String::from_str("Point has only one coordinate"),
            CurveError::PointNotOnCurve => String::from_str("Point does not exist on the curve"),
            CurveError::CurveMismatch => String::from_str("Points are not on the same curve"),
        }
    }
}

} // verus!
