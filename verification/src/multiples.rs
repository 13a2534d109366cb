//! What holds of the multiples of a point: that they exist over a prime
//! field, what a search through them finds, and how they add up where the
//! addition is associative.

use crate::error::CurveError;
use crate::group_law::{lemma_identity_is_neutral, lemma_sum_commutes, lemma_sum_is_closed};
use crate::point::Point;
use vstd::prelude::*;

verus! {

/// Once an addition has failed, every larger multiple is that failure.
pub proof fn lemma_multiple_failure_persists(point: Point, j: nat, k: nat)
    requires
        j <= k,
        point.multiple(j) is Err,
    ensures
        point.multiple(k) == point.multiple(j),
    decreases k,
{
    if j < k {
        lemma_multiple_failure_persists(point, j, (k - 1) as nat);
    }
}

/// Over a field with an odd prime number of elements every multiple of a
/// point of a curve exists and is a point of that curve.
pub proof fn lemma_multiples_exist(g: Point, k: nat)
    requires
        g.wf(),
        g.over_odd_prime_field(),
    ensures
        g.multiple(k) is Ok,
        g.multiple(k)->Ok_0.wf(),
        g.multiple(k)->Ok_0.curve == g.curve,
        g.multiple(k)->Ok_0.over_odd_prime_field(),
        g.multiple(k)->Ok_0.same_field(g),
    decreases k,
{
    if k > 0 {
        lemma_multiples_exist(g, (k - 1) as nat);
        lemma_sum_is_closed(g.multiple((k - 1) as nat)->Ok_0, g);
    }
}

/// The search finds what scalar multiplication made: if `target` is `k g`
/// with `1 <= k <= limit`, the search through the first `limit` multiples
/// returns the least factor that gives `target`, which is at most `k`.
pub proof fn lemma_search_finds_multiple(
    g: Point,
    k: nat,
    limit: nat,
    found: Result<Option<u128>, CurveError>,
)
    requires
        1 <= k <= limit,
        g.multiple(k) is Ok,
        g.is_first_multiple(g.multiple(k)->Ok_0, limit, found),
    ensures
        found matches Ok(Some(least)) && 1 <= least <= k && g.multiple(least as nat)
            == g.multiple(k) && g.no_multiple_below(g.multiple(k)->Ok_0, least as nat),
{
    let target = g.multiple(k)->Ok_0;
    match found {
        Ok(Some(least)) => {
            if least > k {
                assert(g.multiple(k) != Ok::<Point, CurveError>(target));
            }
        },
        Ok(None) => {
            assert(g.multiple(k) != Ok::<Point, CurveError>(target));
        },
        Err(e) => {
            let failed = choose|j: nat|
                1 <= j <= limit && #[trigger] g.multiple(j) == Err::<Point, CurveError>(e)
                    && g.no_multiple_below(target, j);
            if failed <= k {
                lemma_multiple_failure_persists(g, failed, k);
            } else {
                assert(g.multiple(k) != Ok::<Point, CurveError>(target));
            }
        },
    }
}

/// Over a field with an odd prime number of elements, adding the point once
/// more on either side gives the next multiple:
/// `k g + g == (k + 1) g == g + k g`.
pub proof fn lemma_next_multiple(g: Point, k: nat)
    requires
        g.wf(),
        g.over_odd_prime_field(),
    ensures
        g.multiple(k) is Ok,
        g.multiple(1) == Ok::<Point, CurveError>(g),
        g.multiple(k)->Ok_0.sum(g) == g.multiple(k + 1),
        g.sum(g.multiple(k)->Ok_0) == g.multiple(k + 1),
{
    lemma_multiples_exist(g, k);
    lemma_sum_commutes(g.multiple(k)->Ok_0, g);
    assert(g.multiple(1) == Point::identity(g.curve).sum(g)) by {
        reveal_with_fuel(Point::multiple, 2);
    }
    assert(g.multiple(k + 1) == g.multiple(k)->Ok_0.sum(g));
}

/// `(j g + k g) + g == j g + (k g + g)`.
pub open spec fn associates(g: Point, j: nat, k: nat) -> bool {
    let left = g.multiple(j)->Ok_0;
    let right = g.multiple(k)->Ok_0;
    left.sum(right)->Ok_0.sum(g) == left.sum(right.sum(g)->Ok_0)
}

/// Addition is associative where a multiple of `g`, another one and `g`
/// itself are added.
pub open spec fn adds_associatively(g: Point) -> bool {
    forall|j: nat, k: nat| #[trigger] associates(g, j, k)
}

/// Where addition is associative on the multiples of `g`, scalar
/// multiplication is additive: `j g + k g == (j + k) g`.
pub proof fn lemma_multiples_add_where_associative(g: Point, j: nat, k: nat)
    requires
        g.wf(),
        g.over_odd_prime_field(),
        adds_associatively(g),
    ensures
        g.multiple(j) is Ok,
        g.multiple(k) is Ok,
        g.multiple(j)->Ok_0.sum(g.multiple(k)->Ok_0) == g.multiple(j + k),
    decreases k,
{
    lemma_multiples_exist(g, j);
    lemma_multiples_exist(g, k);
    let left = g.multiple(j)->Ok_0;
    if k == 0 {
        lemma_identity_is_neutral(left);
        assert(g.multiple(0) == Ok::<Point, CurveError>(Point::identity(left.curve)));
    } else {
        let before = (k - 1) as nat;
        let right = g.multiple(before)->Ok_0;
        lemma_multiples_exist(g, before);
        lemma_multiples_exist(g, j + before);
        lemma_multiples_add_where_associative(g, j, before);
        assert(associates(g, j, before));
        assert(g.multiple(k) == right.sum(g));
        assert((j + k - 1) as nat == j + before);
        assert(g.multiple(j + k) == g.multiple(j + before)->Ok_0.sum(g));
    }
}

/// Where addition is associative on the multiples of `g`, a multiple of a
/// multiple is a multiple: `n (r g) == (r n) g`.
pub proof fn lemma_multiple_of_multiple_where_associative(g: Point, r: nat, n: nat)
    requires
        g.wf(),
        g.over_odd_prime_field(),
        adds_associatively(g),
    ensures
        g.multiple(r) is Ok,
        g.multiple(r)->Ok_0.multiple(n) == g.multiple(r * n),
    decreases n,
{
    lemma_multiples_exist(g, r);
    let q = g.multiple(r)->Ok_0;
    if n == 0 {
        assert(r * 0 == 0);
        assert(q.multiple(0) == Ok::<Point, CurveError>(Point::identity(g.curve)));
    } else {
        let before = (n - 1) as nat;
        lemma_multiple_of_multiple_where_associative(g, r, before);
        lemma_multiples_exist(g, r * before);
        lemma_multiples_add_where_associative(g, r * before, r);
        assert(r * before + r == r * n) by (nonlinear_arith)
            requires
                before == n - 1,
        ;
        assert(q.multiple(n) == q.multiple(before)->Ok_0.sum(q));
    }
}

/// Where addition is associative on the multiples of `g`, the two sides of
/// a key exchange arrive at one point: `b (a g) == a (b g)`.
pub proof fn lemma_exchange_agrees_where_associative(g: Point, a: nat, b: nat)
    requires
        g.wf(),
        g.over_odd_prime_field(),
        adds_associatively(g),
    ensures
        g.multiple(a) is Ok,
        g.multiple(b) is Ok,
        g.multiple(a)->Ok_0.multiple(b) == g.multiple(b)->Ok_0.multiple(a),
        g.multiple(a)->Ok_0.multiple(b) is Ok,
{
    lemma_multiple_of_multiple_where_associative(g, a, b);
    lemma_multiple_of_multiple_where_associative(g, b, a);
    assert(a * b == b * a) by (nonlinear_arith);
    lemma_multiples_exist(g, a * b);
}

} // verus!
