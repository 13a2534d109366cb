//! Hasse's bound on the number `n` of points of a curve over a field of `p`
//! elements, `|n - (p + 1)| <= 2 sqrt(p)`, in integers.

use vstd::prelude::*;

verus! {

/// `count` lies in Hasse's interval `[p + 1 - 2 sqrt(p), p + 1 + 2 sqrt(p)]`,
/// said without the square root: `(count - (p + 1))^2 <= 4 p`.
pub open spec fn in_hasse_interval(count: int, p: int) -> bool {
    (count - (p + 1)) * (count - (p + 1)) <= 4 * p
}

/// Whether a number of points is one that Hasse's theorem allows for a curve
/// over a field of `modulus` elements.
pub fn within_hasse_interval(count: u64, modulus: i32) -> (r: bool)
    requires
        modulus > 0,
    ensures
        r == in_hasse_interval(count as int, modulus as int),
{
    let centre: u64 = modulus as u64 + 1;
    let distance: u64 = if count >= centre {
        count - centre
    } else {
        centre - count
    };
    let bound: u64 = 4 * (modulus as u64);
    proof {
        let gap = count - centre;
        assert(gap * gap == distance * distance) by (nonlinear_arith)
            requires
                distance == gap || distance == -gap,
        ;
        if distance >= 0x1_0000_0000 {
            assert(distance * distance >= 0x1_0000_0000 * 0x1_0000_0000) by (nonlinear_arith)
                requires
                    distance >= 0x1_0000_0000,
            ;
        } else {
            assert(distance * distance < 0x1_0000_0000 * 0x1_0000_0000) by (nonlinear_arith)
                requires
                    0 <= distance < 0x1_0000_0000,
            ;
        }
    }
    distance < 0x1_0000_0000 && distance * distance <= bound
}

} // verus!
