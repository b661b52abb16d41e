//! Fixed-point plane geometry.
//!
//! World coordinates are measured in integer subunits: `SUBUNITS` subunits
//! make one world unit, so a position keeps 8 fractional bits of a world
//! unit while every operation on it stays exact integer arithmetic.

use vstd::prelude::*;

verus! {

use vstd::arithmetic::div_mod::lemma_div_is_ordered;
use vstd::arithmetic::div_mod::lemma_fundamental_div_mod;
use vstd::arithmetic::div_mod::lemma_fundamental_div_mod_converse;
use vstd::arithmetic::div_mod::lemma_mod_bound;

/// Subunits per world unit.
pub const SUBUNITS: i64 = 256;

/// A plane vector in world subunits.
#[derive(Copy, Clone, Debug, PartialEq, Eq, Structural)]
pub struct Vector {
    pub x: i64,
    pub y: i64,
}

impl Vector {
    pub fn new(x: i64, y: i64) -> (v: Vector)
        ensures
            v.x == x,
            v.y == y,
    {
        Vector { x, y }
    }
}

/// Floor division on mathematical integers; with a positive divisor the
/// spec-mode `/` (Euclidean division) is exactly the floor.
pub open spec fn floor_div_spec(a: int, b: int) -> int {
    a / b
}

proof fn lemma_floor_div_neg(a: int, b: int)
    requires
        b >= 1,
        a < 0,
    ensures
        a / b == -((-a + b - 1) / b),
{
    let na = -a;
    let q = na / b;
    let r = na % b;
    lemma_fundamental_div_mod(na, b);
    lemma_mod_bound(na, b);
    assert(na == b * q + r);
    if r == 0 {
        assert(na + b - 1 == q * b + (b - 1)) by (nonlinear_arith)
            requires
                na == b * q + r,
                r == 0,
        ;
        lemma_fundamental_div_mod_converse(na + b - 1, b, q, b - 1);
        assert(a == (-q) * b + 0) by (nonlinear_arith)
            requires
                a == -na,
                na == b * q + r,
                r == 0,
        ;
        lemma_fundamental_div_mod_converse(a, b, -q, 0);
    } else {
        assert(na + b - 1 == (q + 1) * b + (r - 1)) by (nonlinear_arith)
            requires
                na == b * q + r,
        ;
        lemma_fundamental_div_mod_converse(na + b - 1, b, q + 1, r - 1);
        assert(a == (-(q + 1)) * b + (b - r)) by (nonlinear_arith)
            requires
                a == -na,
                na == b * q + r,
        ;
        lemma_fundamental_div_mod_converse(a, b, -(q + 1), b - r);
    }
}

/// Quotient of `a` by `b`, rounded toward negative infinity.
pub fn floor_div(a: i64, b: i64) -> (q: i64)
    requires
        1 <= b,
        i64::MIN < a,
    ensures
        q == floor_div_spec(a as int, b as int),
{
    if a >= 0 {
        let q = ((a as u64) / (b as u64)) as i64;
        assert(q == a as int / b as int);
        q
    } else {
        let na = (-a) as u64;
        let qm = (na + (b as u64) - 1) / (b as u64);
        proof {
            let ni = na as int;
            let bi = b as int;
            lemma_floor_div_neg(a as int, b as int);
            assert(ni + bi - 1 <= bi * ni + bi - 1) by (nonlinear_arith)
                requires
                    ni >= 1,
                    bi >= 1,
            ;
            lemma_fundamental_div_mod_converse(bi * ni + bi - 1, bi, ni, bi - 1);
            lemma_div_is_ordered(ni + bi - 1, bi * ni + bi - 1, bi);
        }
        -(qm as i64)
    }
}

} // verus!
