//! Exact integer arithmetic for the grid: rounded division and weighted means.

use vstd::prelude::*;
use vstd::arithmetic::div_mod::lemma_hoist_over_denominator;
use crate::grid::{coord_in_range, COORD_LIMIT};

verus! {

/// `n / d` rounded to the nearest integer, a half rounded up. Meant for
/// positive `d`.
pub open spec fn round_div(n: int, d: int) -> int {
    (2 * n + d) / (2 * d)
}

/// A quotient that lies between two bounds times the divisor lies between
/// the bounds.
pub proof fn lemma_round_div_between(n: int, d: int, low: int, high: int)
    requires
        d > 0,
        low * d <= n <= high * d,
    ensures
        low <= round_div(n, d) <= high,
{
    let q = round_div(n, d);
    let r = (2 * n + d) % (2 * d);
    vstd::arithmetic::div_mod::lemma_fundamental_div_mod(2 * n + d, 2 * d);
    vstd::arithmetic::div_mod::lemma_mod_bound(2 * n + d, 2 * d);
    assert(2 * n + d == (2 * d) * q + r);
    assert(0 <= r < 2 * d);
    assert(low <= q) by (nonlinear_arith)
        requires
            d > 0,
            low * d <= n,
            2 * n + d == (2 * d) * q + r,
            r < 2 * d,
    ;
    assert(q <= high) by (nonlinear_arith)
        requires
            d > 0,
            n <= high * d,
            2 * n + d == (2 * d) * q + r,
            0 <= r,
    ;
}

/// The place where a line from `a` to `b` meets a plane that lies `da` from
/// `a` and `db` from `b`, rounded to the grid: the mean of `a` and `b`, each
/// weighed by the distance of the other.
pub open spec fn blend(a: int, b: int, da: int, db: int) -> int {
    round_div(a * db + b * da, da + db)
}

/// The mean does not depend on which end is named first.
pub proof fn lemma_blend_symmetric(a: int, b: int, da: int, db: int)
    ensures
        blend(a, b, da, db) == blend(b, a, db, da),
{
    assert(a * db + b * da == b * da + a * db);
    assert(da + db == db + da);
}

/// The mean of two coordinates lies between them.
pub proof fn lemma_blend_between(a: int, b: int, da: int, db: int)
    requires
        da > 0,
        db > 0,
    ensures
        a <= blend(a, b, da, db) <= b || b <= blend(a, b, da, db) <= a,
{
    let n = a * db + b * da;
    let d = da + db;
    if a <= b {
        assert(a * d <= n <= b * d) by (nonlinear_arith)
            requires
                n == a * db + b * da,
                d == da + db,
                a <= b,
                da > 0,
                db > 0,
        ;
        lemma_round_div_between(n, d, a, b);
    } else {
        assert(b * d <= n <= a * d) by (nonlinear_arith)
            requires
                n == a * db + b * da,
                d == da + db,
                b <= a,
                da > 0,
                db > 0,
        ;
        lemma_round_div_between(n, d, b, a);
    }
}

/// Computes `blend` for coordinates within range and distances that two such
/// coordinates can have.
pub fn blend_coords(a: i64, b: i64, da: i64, db: i64) -> (r: i64)
    requires
        coord_in_range(a as int),
        coord_in_range(b as int),
        0 < da <= 2 * COORD_LIMIT,
        0 < db <= 2 * COORD_LIMIT,
    ensures
        r == blend(a as int, b as int, da as int, db as int),
        a <= r <= b || b <= r <= a,
{
    let shifted_a: u128 = (a + COORD_LIMIT) as u128;
    let shifted_b: u128 = (b + COORD_LIMIT) as u128;
    let wa: u128 = db as u128;
    let wb: u128 = da as u128;
    let den: u128 = wa + wb;
    assert(shifted_a * wa <= 4_000_000_000_000_000_000_000_000) by (nonlinear_arith)
        requires
            shifted_a <= 2_000_000_000_000,
            wa <= 2_000_000_000_000,
    ;
    assert(shifted_b * wb <= 4_000_000_000_000_000_000_000_000) by (nonlinear_arith)
        requires
            shifted_b <= 2_000_000_000_000,
            wb <= 2_000_000_000_000,
    ;
    let num: u128 = shifted_a * wa + shifted_b * wb;
    let q: u128 = (2 * num + den) / (2 * den);
    proof {
        let n = a * db + b * da;
        let d = da + db;
        assert(num == n + COORD_LIMIT * d) by (nonlinear_arith)
            requires
                num == (a + COORD_LIMIT) * db + (b + COORD_LIMIT) * da,
                n == a * db + b * da,
                d == da + db,
        ;
        assert(2 * num + den == (2 * n + d) + COORD_LIMIT * (2 * d));
        lemma_hoist_over_denominator(2 * n + d, COORD_LIMIT as int, (2 * d) as nat);
        assert(q == round_div(n, d) + COORD_LIMIT);
        lemma_blend_between(a as int, b as int, da as int, db as int);
    }
    (q as i64) - COORD_LIMIT
}

} // verus!
