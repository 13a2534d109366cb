//! Arithmetic in prime fields and on short Weierstrass curves over them:
//! field elements, the chord-and-tangent group law, scalar multiplication by
//! repeated addition, a bounded brute-force discrete logarithm and the steps
//! of a two-party Diffie-Hellman exchange.
//!
//! The executable types are `FiniteFieldElement`, `EllipticCurve`, `Point`
//! and `DiffieHellman`; `CurveError` names the ways in which their
//! operations fail. Each operation is specified by a function on the
//! integers of the same meaning (`sum`, `quotient`, `multiple`, ...), and
//! the modules `group_law`, `multiples` and `order` prove what holds of
//! those: closure and commutativity of the addition over prime fields,
//! that a point can be cancelled from a sum on a curve without singular
//! points, the bound on the number of points, and that the search for a
//! discrete logarithm is complete and gives back the factor.

pub mod curve_algebra;
pub mod diffie_hellman;
pub mod elliptic_curve;
pub mod error;
pub mod extended_euclid;
pub mod finite_field_element;
pub mod group_law;
pub mod hasse;
pub mod modular;
pub mod multiples;
pub mod order;
pub mod point;
pub mod text;
