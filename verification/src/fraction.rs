//! Exact comparison of fractions of 128-bit numbers.

use vstd::arithmetic::div_mod::{lemma_fundamental_div_mod, lemma_mod_pos_bound};
use vstd::prelude::*;

verus! {

/// How one fraction stands to another.
#[derive(Debug, Clone, Copy, PartialEq, Eq, Structural)]
pub enum Rank {
    Lower,
    Same,
    Higher,
}

/// How `n1 / d1` stands to `n2 / d2`, for positive `d1` and `d2`.
pub open spec fn fraction_rank(n1: int, d1: int, n2: int, d2: int) -> Rank {
    if n1 * d2 < n2 * d1 {
        Rank::Lower
    } else if n1 * d2 == n2 * d1 {
        Rank::Same
    } else {
        Rank::Higher
    }
}

/// Taking the same whole number off both fractions leaves their difference, and
/// so does turning both remainders upside down and swapping them.
proof fn lemma_step(a: int, b: int, c: int, d: int, q1: int, r1: int, q2: int, r2: int)
    requires
        a == b * q1 + r1,
        c == d * q2 + r2,
        b > 0,
        d > 0,
        0 <= r1 < b,
        0 <= r2 < d,
    ensures
        q1 == q2 ==> a * d - c * b == d * r1 - b * r2,
        q1 > q2 ==> a * d - c * b > 0,
        q1 < q2 ==> a * d - c * b < 0,
{
    assert(a * d - c * b == (q1 - q2) * (b * d) + (d * r1 - b * r2)) by (nonlinear_arith)
        requires
            a == b * q1 + r1,
            c == d * q2 + r2,
    ;
    assert(d * r1 < b * d && b * r2 < b * d && d * r1 >= 0 && b * r2 >= 0) by (nonlinear_arith)
        requires
            b > 0,
            d > 0,
            0 <= r1 < b,
            0 <= r2 < d,
    ;
    if q1 > q2 {
        assert((q1 - q2) * (b * d) >= b * d) by (nonlinear_arith)
            requires
                q1 - q2 >= 1,
                b * d >= 0,
        ;
    }
    if q1 < q2 {
        assert((q1 - q2) * (b * d) <= -(b * d)) by (nonlinear_arith)
            requires
                q1 - q2 <= -1,
                b * d >= 0,
        ;
    }
    if q1 == q2 {
        assert((q1 - q2) * (b * d) == 0) by (nonlinear_arith)
            requires
                q1 == q2,
        ;
    }
}

/// Compares `n1 / d1` with `n2 / d2` without leaving 128 bits: whole parts first,
/// then the remainders, turned upside down.
pub fn rank_fractions(n1: u128, d1: u128, n2: u128, d2: u128) -> (rank: Rank)
    requires
        d1 > 0,
        d2 > 0,
    ensures
        rank == fraction_rank(n1 as int, d1 as int, n2 as int, d2 as int),
{
    let mut a: u128 = n1;
    let mut b: u128 = d1;
    let mut c: u128 = n2;
    let mut d: u128 = d2;
    loop
        invariant
            b > 0,
            d > 0,
            a * d - c * b == n1 * d2 - n2 * d1,
        decreases b + d,
    {
        let q1: u128 = a / b;
        let r1: u128 = a % b;
        let q2: u128 = c / d;
        let r2: u128 = c % d;
        proof {
            lemma_fundamental_div_mod(a as int, b as int);
            lemma_fundamental_div_mod(c as int, d as int);
            lemma_mod_pos_bound(a as int, b as int);
            lemma_mod_pos_bound(c as int, d as int);
            lemma_step(
                a as int,
                b as int,
                c as int,
                d as int,
                q1 as int,
                r1 as int,
                q2 as int,
                r2 as int,
            );
        }
        if q1 > q2 {
            return Rank::Higher;
        }
        if q1 < q2 {
            return Rank::Lower;
        }
        if r1 == 0 || r2 == 0 {
            proof {
                assert(d * r1 >= 0 && b * r2 >= 0) by (nonlinear_arith)
                    requires
                        b > 0,
                        d > 0,
                        r1 >= 0,
                        r2 >= 0,
                ;
                assert(r1 > 0 ==> d * r1 > 0) by (nonlinear_arith)
                    requires
                        d > 0,
                ;
                assert(r2 > 0 ==> b * r2 > 0) by (nonlinear_arith)
                    requires
                        b > 0,
                ;
                assert(r1 == 0 ==> d * r1 == 0) by (nonlinear_arith);
                assert(r2 == 0 ==> b * r2 == 0) by (nonlinear_arith);
            }
            return if r1 == 0 && r2 == 0 {
                Rank::Same
            } else if r1 == 0 {
                Rank::Lower
            } else {
                Rank::Higher
            };
        }
        a = d;
        c = b;
        b = r2;
        d = r1;
    }
}

} // verus!
