//! Integer helpers of the ravine carver: ravines are drawn per region of
//! 12 x 12 chunks, found by flooring division of chunk coordinates.

use vstd::prelude::*;

verus! {

/// Chunks per side of a ravine region.
pub const REGION_CHUNKS: i32 = 12;

/// Floor of a / b (rounding towards negative infinity).
pub open spec fn floor_div(a: int, b: int) -> int {
    if b > 0 {
        a / b
    } else {
        (-a) / (-b)
    }
}

fn floor_div_pos(a: i64, b: i64) -> (q: i64)
    requires
        b > 0,
        -0x1_0000_0000 <= a <= 0x1_0000_0000,
        b <= 0x1_0000_0000,
    ensures
        q == a / b,
{
    if a >= 0 {
        a / b
    } else {
        let n = -a;
        let t = (n + b - 1) / b;
        proof {
            vstd::arithmetic::div_mod::lemma_fundamental_div_mod(n + b - 1, b as int);
            let m = (n + b - 1) % (b as int);
            assert(n + b - 1 == b * t + m);
            assert(a == (-t) * b + (b - 1 - m)) by (nonlinear_arith)
                requires
                    n + b - 1 == b * t + m,
                    a == -n,
            ;
            vstd::arithmetic::div_mod::lemma_fundamental_div_mod_converse(
                a as int,
                b as int,
                -t,
                b - 1 - m,
            );
        }
        -t
    }
}

/// a / b rounded towards negative infinity (Rust's `/` rounds towards zero).
pub fn div_floor(a: i32, b: i32) -> (q: i32)
    requires
        b != 0,
        !(a == i32::MIN && b == -1),
    ensures
        q == floor_div(a as int, b as int),
{
    if b > 0 {
        let q = floor_div_pos(a as i64, b as i64);
        assert(i32::MIN <= q <= i32::MAX) by {
            if a >= 0 {
                vstd::arithmetic::div_mod::lemma_div_is_ordered_by_denominator(a as int, 1, b as int);
                vstd::arithmetic::div_mod::lemma_div_pos_is_pos(a as int, b as int);
            } else {
                vstd::arithmetic::div_mod::lemma_fundamental_div_mod(a as int, b as int);
                assert(q * b <= a);
                assert(a < q * b + b);
                assert(q >= a) by (nonlinear_arith)
                    requires
                        a < q * b + b,
                        b >= 1,
                        a < 0,
                        q * b <= a,
                ;
            }
        }
        q as i32
    } else {
        let q = floor_div_pos(-(a as i64), -(b as i64));
        assert(i32::MIN <= q <= i32::MAX) by {
            let na = -(a as int);
            let nb = -(b as int);
            vstd::arithmetic::div_mod::lemma_fundamental_div_mod(na, nb);
            assert(q * nb <= na);
            assert(na < q * nb + nb);
            if na >= 0 {
                vstd::arithmetic::div_mod::lemma_div_pos_is_pos(na, nb);
                assert(q <= na) by (nonlinear_arith)
                    requires
                        q * nb <= na,
                        nb >= 1,
                        q >= 0,
                ;
                if nb >= 2 {
                    assert(q * 2 <= na) by (nonlinear_arith)
                        requires
                            q * nb <= na,
                            nb >= 2,
                            q >= 0,
                    ;
                }
            } else {
                assert(q >= na && q < 0) by (nonlinear_arith)
                    requires
                        na < q * nb + nb,
                        nb >= 1,
                        na < 0,
                        q * nb <= na,
                ;
            }
        }
        q as i32
    }
}

} // verus!
