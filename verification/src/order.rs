//! How many points a curve over a prime field can have, and why a search
//! through the multiples of a point need not go further than that number.

use crate::curve_algebra::lemma_square_roots_modulo_prime;
use crate::elliptic_curve::EllipticCurve;
use crate::error::CurveError;
use crate::extended_euclid::is_prime;
use crate::group_law::lemma_add_then_subtract;
use crate::multiples::{lemma_multiples_exist, lemma_search_finds_multiple};
use crate::point::Point;
use vstd::prelude::*;
use vstd::set_lib::*;

verus! {

/// The affine points of abscissa `x`.
pub open spec fn column(curve: EllipticCurve, p: int, x: int) -> Set<(int, int)> {
    Set::new(|point: (int, int)| curve.affine_points(p).contains(point) && point.0 == x)
}

/// Over a prime field at most two points of a curve share an abscissa.
pub proof fn lemma_column_has_two_points_at_most(curve: EllipticCurve, p: int, x: int)
    requires
        is_prime(p),
    ensures
        column(curve, p, x).finite(),
        column(curve, p, x).len() <= 2,
{
    let points = column(curve, p, x);
    if exists|y: int| points.contains((x, y)) {
        let y0 = choose|y: int| points.contains((x, y));
        let pair = Set::<(int, int)>::empty().insert((x, y0)).insert((x, p - y0));
        assert forall|point: (int, int)| points.contains(point) implies pair.contains(point) by {
            lemma_square_roots_modulo_prime(p, y0, point.1);
        }
        lemma_len_subset(points, pair);
    } else {
        assert(points =~= Set::<(int, int)>::empty());
    }
}

/// Over a prime field the affine points of abscissa below `x` are at most
/// `2 x`.
pub proof fn lemma_affine_points_bounded(curve: EllipticCurve, p: int, x: int)
    requires
        is_prime(p),
        0 <= x,
    ensures
        curve.affine_points_before(p, x, 0).finite(),
        curve.affine_points_before(p, x, 0).len() <= 2 * x,
    decreases x,
{
    if x == 0 {
        assert(curve.affine_points_before(p, 0, 0) =~= Set::<(int, int)>::empty());
    } else {
        lemma_affine_points_bounded(curve, p, x - 1);
        lemma_column_has_two_points_at_most(curve, p, x - 1);
        let earlier = curve.affine_points_before(p, x - 1, 0);
        let last = column(curve, p, x - 1);
        assert(curve.affine_points_before(p, x, 0) =~= earlier.union(last));
        lemma_len_union(earlier, last);
    }
}

/// A curve over a field of `p` elements, `p` prime, has at most `2 p + 1`
/// points.
pub proof fn lemma_order_bounded(curve: EllipticCurve, p: int)
    requires
        is_prime(p),
    ensures
        curve.affine_points(p).finite(),
        curve.order(p) <= 2 * p + 1,
{
    lemma_affine_points_bounded(curve, p, p);
    assert(curve.affine_points_before(p, p, 0) =~= curve.affine_points(p));
}

/// The coordinates of a point as integers; the point at infinity, which has
/// none, gets a pair that no affine point has.
pub open spec fn key(point: Point) -> (int, int) {
    match (point.x, point.y) {
        (Some(x), Some(y)) => (x.value as int, y.value as int),
        _ => (-1, -1),
    }
}

/// The keys of `g`, `2 g`, ..., `n g`.
pub open spec fn keys_of_multiples(g: Point, n: nat) -> Set<(int, int)>
    decreases n,
{
    if n == 0 {
        Set::empty()
    } else {
        keys_of_multiples(g, (n - 1) as nat).insert(key(g.multiple(n)->Ok_0))
    }
}

/// `g`, `2 g`, ..., `n g` are `n` different points.
pub open spec fn distinct_multiples(g: Point, n: nat) -> bool {
    forall|i: nat, j: nat|
        1 <= i < j <= n ==> #[trigger] g.multiple(i) != #[trigger] g.multiple(j)
}

/// The keys of the points of the curve of `g` over the field of `g`.
pub open spec fn keys_of_curve(g: Point) -> Set<(int, int)> {
    g.curve.affine_points(g.x->Some_0.modulus as int).insert((-1, -1))
}

/// The keys of the first `n` multiples are keys of points of the curve, each
/// is the key of one of those multiples, and where the multiples are all
/// different there are `n` of them.
proof fn lemma_keys_of_multiples(g: Point, n: nat)
    requires
        g.wf(),
        g.over_odd_prime_field(),
        !g.is_identity(),
    ensures
        keys_of_multiples(g, n).finite(),
        keys_of_multiples(g, n).subset_of(keys_of_curve(g)),
        forall|k: (int, int)| #[trigger]
            keys_of_multiples(g, n).contains(k) ==> exists|i: nat|
                1 <= i <= n && key(#[trigger] g.multiple(i)->Ok_0) == k,
        distinct_multiples(g, n) ==> keys_of_multiples(g, n).len() == n,
    decreases n,
{
    if n > 0 {
        let before = (n - 1) as nat;
        lemma_keys_of_multiples(g, before);
        lemma_multiples_exist(g, n);
        let last = g.multiple(n)->Ok_0;
        assert(keys_of_curve(g).contains(key(last)));
        assert forall|k: (int, int)| #[trigger]
            keys_of_multiples(g, n).contains(k) implies exists|i: nat|
            1 <= i <= n && key(#[trigger] g.multiple(i)->Ok_0) == k by {
            if k == key(last) {
                assert(key(g.multiple(n)->Ok_0) == k);
            } else {
                let i = choose|i: nat|
                    1 <= i <= before && key(#[trigger] g.multiple(i)->Ok_0) == k;
                assert(1 <= i <= n && key(g.multiple(i)->Ok_0) == k);
            }
        }
        if distinct_multiples(g, n) {
            assert(distinct_multiples(g, before));
            if keys_of_multiples(g, before).contains(key(last)) {
                let i = choose|i: nat|
                    1 <= i <= before && key(#[trigger] g.multiple(i)->Ok_0) == key(last);
                lemma_multiples_exist(g, i);
                assert(g.multiple(i)->Ok_0 == last);
                assert(g.multiple(i) != g.multiple(n));
            }
        }
    }
}

/// Among more multiples than the curve has points, two are one point.
proof fn lemma_some_multiple_repeats(g: Point, n: nat) -> (pair: (nat, nat))
    requires
        g.wf(),
        g.over_odd_prime_field(),
        !g.is_identity(),
        n > 2 * g.x->Some_0.modulus + 1,
    ensures
        1 <= pair.0 < pair.1 <= n,
        g.multiple(pair.0) == g.multiple(pair.1),
{
    let p = g.x->Some_0.modulus as int;
    lemma_order_bounded(g.curve, p);
    lemma_keys_of_multiples(g, n);
    lemma_len_subset(keys_of_multiples(g, n), keys_of_curve(g));
    assert(!distinct_multiples(g, n));
    choose|i: nat, j: nat|
        1 <= i < j <= n && #[trigger] g.multiple(i) == #[trigger] g.multiple(j)
}

/// Two multiples that are one point are followed by equal multiples.
proof fn lemma_multiples_repeat_in_step(g: Point, i: nat, j: nat, t: nat)
    requires
        g.multiple(i) == g.multiple(j),
    ensures
        g.multiple(i + t) == g.multiple(j + t),
    decreases t,
{
    if t > 0 {
        lemma_multiples_repeat_in_step(g, i, j, (t - 1) as nat);
        assert(g.multiple(i + t) == match g.multiple((i + t - 1) as nat) {
            Ok(partial) => partial.sum(g),
            Err(e) => Err(e),
        });
        assert(g.multiple(j + t) == match g.multiple((j + t - 1) as nat) {
            Ok(partial) => partial.sum(g),
            Err(e) => Err(e),
        });
    }
}

/// Every multiple of a point over a prime field of `p` elements is met
/// among its first `2 p + 1` multiples; every multiple of the point at
/// infinity is met at the first.
pub proof fn lemma_multiple_is_met_early(g: Point, k: nat) -> (early: nat)
    requires
        g.wf(),
        g.over_odd_prime_field(),
        k >= 1,
    ensures
        1 <= early <= g.search_limit(),
        early <= k,
        g.multiple(early) == g.multiple(k),
    decreases k,
{
    if g.is_identity() {
        lemma_multiples_of_identity(g, k);
        lemma_multiples_of_identity(g, 1);
        1
    } else if k <= g.search_limit() {
        k
    } else {
        let n = (g.search_limit() + 1) as nat;
        let pair = lemma_some_multiple_repeats(g, n);
        let t = (k - pair.1) as nat;
        lemma_multiples_repeat_in_step(g, pair.0, pair.1, t);
        lemma_multiple_is_met_early(g, pair.0 + t)
    }
}

/// The multiples of the point at infinity are the point at infinity.
pub proof fn lemma_multiples_of_identity(g: Point, k: nat)
    requires
        g.is_identity(),
    ensures
        g.multiple(k) == Ok::<Point, CurveError>(g),
    decreases k,
{
    if k > 0 {
        lemma_multiples_of_identity(g, (k - 1) as nat);
    }
}

/// A search that found nothing among the first `limit` multiples of a
/// point over a prime field, with `limit` at least `search_limit`, has
/// missed nothing: no multiple at all is the target.
pub proof fn lemma_search_is_complete(g: Point, target: Point, limit: nat, k: nat)
    requires
        g.wf(),
        g.over_odd_prime_field(),
        limit >= g.search_limit(),
        g.no_multiple_below(target, limit + 1),
        k >= 1,
    ensures
        g.multiple(k) != Ok::<Point, CurveError>(target),
{
    let early = lemma_multiple_is_met_early(g, k);
    assert(g.multiple(early) != Ok::<Point, CurveError>(target));
}

/// The search undoes scalar multiplication: over a field with an odd prime
/// number of elements, looking for `k g` with `k >= 1` among at least
/// `search_limit` multiples of `g` finds the least factor that gives
/// `k g`, which is at most `k`.
pub proof fn lemma_search_undoes_scalar_multiplication(
    g: Point,
    k: nat,
    limit: nat,
    found: Result<Option<u128>, CurveError>,
)
    requires
        g.wf(),
        g.over_odd_prime_field(),
        k >= 1,
        limit >= g.search_limit(),
        g.multiple(k) matches Ok(target) && g.is_first_multiple(target, limit, found),
    ensures
        found matches Ok(Some(least)) && 1 <= least <= k && g.multiple(least as nat)
            == g.multiple(k) && g.no_multiple_below(g.multiple(k)->Ok_0, least as nat),
{
    let early = lemma_multiple_is_met_early(g, k);
    lemma_search_finds_multiple(g, early, limit, found);
}

/// On a curve without singular points over a field with an odd prime
/// number of elements a point can be cancelled from a sum: `A + G == B + G`
/// only if `A == B`.
pub proof fn lemma_sum_cancels(first: Point, second: Point, g: Point)
    requires
        first.wf(),
        second.wf(),
        g.wf(),
        first.curve == g.curve,
        second.curve == g.curve,
        first.same_field(g),
        second.same_field(g),
        first.over_odd_prime_field(),
        second.over_odd_prime_field(),
        g.over_odd_prime_field(),
        g.on_nonsingular_curve(),
        first.sum(g) == second.sum(g),
    ensures
        first == second,
{
    lemma_add_then_subtract(first, g);
    lemma_add_then_subtract(second, g);
}

/// Two multiples that are one point come from multiples that are one point:
/// if `i g == j g` then `0 g == (j - i) g`.
pub proof fn lemma_equal_multiples_differ_by_a_period(g: Point, i: nat, j: nat)
    requires
        g.wf(),
        g.over_odd_prime_field(),
        g.on_nonsingular_curve(),
        i <= j,
        g.multiple(i) == g.multiple(j),
    ensures
        g.multiple((j - i) as nat) == Ok::<Point, CurveError>(Point::identity(g.curve)),
    decreases i,
{
    if i > 0 {
        let before_i = (i - 1) as nat;
        let before_j = (j - 1) as nat;
        lemma_multiples_exist(g, before_i);
        lemma_multiples_exist(g, before_j);
        assert(g.multiple(i) == g.multiple(before_i)->Ok_0.sum(g));
        assert(g.multiple(j) == g.multiple(before_j)->Ok_0.sum(g));
        lemma_sum_cancels(g.multiple(before_i)->Ok_0, g.multiple(before_j)->Ok_0, g);
        lemma_equal_multiples_differ_by_a_period(g, before_i, before_j);
    }
}

/// `k` is at most the order of `g`: no multiple `j g` with `1 <= j < k` is
/// the point at infinity.
pub open spec fn within_order(g: Point, k: nat) -> bool {
    forall|j: nat|
        1 <= j < k ==> #[trigger] g.multiple(j) != Ok::<Point, CurveError>(
            Point::identity(g.curve),
        )
}

/// The search gives back the factor: on a curve without singular points
/// over a field with an odd prime number of elements, looking for `k g`
/// among at least `search_limit` multiples of `g` finds `k` itself, for
/// every `k >= 1` up to the order of `g`.
pub proof fn lemma_search_gives_back_the_factor(
    g: Point,
    k: nat,
    limit: nat,
    found: Result<Option<u128>, CurveError>,
)
    requires
        g.wf(),
        g.over_odd_prime_field(),
        g.on_nonsingular_curve(),
        k >= 1,
        within_order(g, k),
        limit >= g.search_limit(),
        g.multiple(k) matches Ok(target) && g.is_first_multiple(target, limit, found),
    ensures
        found matches Ok(Some(least)) && least == k,
{
    lemma_search_undoes_scalar_multiplication(g, k, limit, found);
    let least = found->Ok_0->Some_0 as nat;
    if least < k {
        lemma_equal_multiples_differ_by_a_period(g, least, k);
        assert(g.multiple((k - least) as nat) != Ok::<Point, CurveError>(
            Point::identity(g.curve),
        ));
    }
}

} // verus!
