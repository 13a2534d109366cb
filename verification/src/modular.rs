//! Congruence modulo a positive integer: the few rules by which the proofs
//! about field and curve arithmetic move between integers and residues.

use vstd::arithmetic::div_mod::*;
use vstd::prelude::*;

verus! {

/// `x` and `y` leave the same remainder modulo `m`.
pub open spec fn congruent(x: int, y: int, m: int) -> bool {
    x % m == y % m
}

/// A remainder is congruent to what it is the remainder of.
pub proof fn lemma_mod_congruent(x: int, m: int)
    requires
        m > 0,
    ensures
        congruent(x % m, x, m),
        0 <= x % m < m,
{
    lemma_mod_twice(x, m);
    lemma_mod_bound(x, m);
}

/// Sums of congruent numbers are congruent.
pub proof fn lemma_congruent_add(x1: int, y1: int, x2: int, y2: int, m: int)
    requires
        m > 0,
        congruent(x1, y1, m),
        congruent(x2, y2, m),
    ensures
        congruent(x1 + x2, y1 + y2, m),
{
    lemma_add_mod_noop(x1, x2, m);
    lemma_add_mod_noop(y1, y2, m);
}

/// Differences of congruent numbers are congruent.
pub proof fn lemma_congruent_sub(x1: int, y1: int, x2: int, y2: int, m: int)
    requires
        m > 0,
        congruent(x1, y1, m),
        congruent(x2, y2, m),
    ensures
        congruent(x1 - x2, y1 - y2, m),
{
    lemma_sub_mod_noop(x1, x2, m);
    lemma_sub_mod_noop(y1, y2, m);
}

/// Products of congruent numbers are congruent.
pub proof fn lemma_congruent_mul(x1: int, y1: int, x2: int, y2: int, m: int)
    requires
        m > 0,
        congruent(x1, y1, m),
        congruent(x2, y2, m),
    ensures
        congruent(x1 * x2, y1 * y2, m),
{
    lemma_mul_mod_noop(x1, x2, m);
    lemma_mul_mod_noop(y1, y2, m);
}

/// A multiple of the modulus is congruent to zero.
pub proof fn lemma_multiple_congruent_zero(k: int, m: int)
    requires
        m > 0,
    ensures
        congruent(k * m, 0, m),
        congruent(m * k, 0, m),
{
    lemma_mod_multiples_basic(k, m);
    lemma_small_mod(0, m as nat);
    assert(k * m == m * k) by (nonlinear_arith);
}

/// Two numbers of `[0, m)` that are congruent are equal.
pub proof fn lemma_congruent_reduced_equal(x: int, y: int, m: int)
    requires
        m > 0,
        0 <= x < m,
        0 <= y < m,
        congruent(x, y, m),
    ensures
        x == y,
{
    lemma_small_mod(x as nat, m as nat);
    lemma_small_mod(y as nat, m as nat);
}

/// Numbers whose difference is congruent to zero are congruent, and the
/// other way round.
pub proof fn lemma_congruent_iff_difference_vanishes(x: int, y: int, m: int)
    requires
        m > 0,
    ensures
        congruent(x, y, m) <==> congruent(x - y, 0, m),
{
    lemma_mod_equivalence(x, y, m);
    lemma_small_mod(0, m as nat);
}

/// A combination of two numbers that are congruent to zero is congruent to
/// zero.
pub proof fn lemma_combination_vanishes(k1: int, z1: int, k2: int, z2: int, m: int)
    requires
        m > 0,
        congruent(z1, 0, m),
        congruent(z2, 0, m),
    ensures
        congruent(k1 * z1 + k2 * z2, 0, m),
{
    lemma_congruent_mul(k1, k1, z1, 0, m);
    lemma_congruent_mul(k2, k2, z2, 0, m);
    assert(k1 * 0 == 0 && k2 * 0 == 0);
    lemma_congruent_add(k1 * z1, 0, k2 * z2, 0, m);
}

} // verus!
