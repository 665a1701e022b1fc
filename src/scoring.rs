//! The distance score of a frontier cell, computed exactly in integers.
//!
//! For a cell at distance `d` from the seed, in bounds whose diagonal is `D`,
//! the score is `10 * (D - d) / D` rounded half up. Both lengths are square
//! roots, so the score is characterised through their squares.

use vstd::prelude::*;

verus! {

/// Whether `r` is `10 * (D - d) / D` rounded half up, where `d * d == dsq`
/// and `D * D == diag_sq`. With `t == 10 - r`, that holds exactly when
/// `t - 1/2 < 10 * d / D <= t + 1/2`.
pub open spec fn is_distance_score(r: int, dsq: int, diag_sq: int) -> bool {
    let t = 10 - r;
    &&& t >= 0
    &&& 400 * dsq <= (2 * t + 1) * (2 * t + 1) * diag_sq
    &&& (t == 0 || (2 * t - 1) * (2 * t - 1) * diag_sq < 400 * dsq)
}

/// A distance score is determined by the two squared lengths.
pub proof fn lemma_distance_score_unique(r1: int, r2: int, dsq: int, diag_sq: int)
    requires
        diag_sq > 0,
        is_distance_score(r1, dsq, diag_sq),
        is_distance_score(r2, dsq, diag_sq),
    ensures
        r1 == r2,
{
    let t1 = 10 - r1;
    let t2 = 10 - r2;
    if t1 < t2 {
        lemma_square_mono(2 * t1 + 1, 2 * t2 - 1, diag_sq);
    } else if t2 < t1 {
        lemma_square_mono(2 * t2 + 1, 2 * t1 - 1, diag_sq);
    }
}

proof fn lemma_square_mono(a: int, b: int, m: int)
    requires
        0 <= a <= b,
        m >= 0,
    ensures
        a * a * m <= b * b * m,
{
    assert(a * a <= b * b) by (nonlinear_arith)
        requires
            0 <= a <= b,
    ;
    assert(a * a * m <= b * b * m) by (nonlinear_arith)
        requires
            a * a <= b * b,
            m >= 0,
    ;
}

/// The distance score of a cell whose squared distance from the seed is
/// `dsq`, in bounds whose squared diagonal is `diag_sq`.
pub fn distance_score(dsq: u128, diag_sq: u128) -> (r: i64)
    requires
        dsq < 0x8000_0000_0000_0000,
        1 <= diag_sq < 0x2_0000_0000_0000_0000,
    ensures
        is_distance_score(r as int, dsq as int, diag_sq as int),
        -0x8_0000_0000 <= r <= 10,
{
    let q: u128 = 400 * dsq;
    let mut t: u128 = 0;
    loop
        invariant
            q == 400 * dsq,
            q < 0x100_0000_0000_0000_0000,
            1 <= diag_sq < 0x2_0000_0000_0000_0000,
            t <= 0x8_0000_0000,
            t == 0 || (2 * t - 1) * (2 * t - 1) * diag_sq < q,
        ensures
            t <= 0x8_0000_0000,
            q <= (2 * t + 1) * (2 * t + 1) * diag_sq,
            t == 0 || (2 * t - 1) * (2 * t - 1) * diag_sq < q,
        decreases 0x8_0000_0000 - t,
    {
        let a: u128 = 2 * t + 1;
        proof {
            if t > 0 {
                lemma_square_mono(a as int, 3 * (2 * t - 1), diag_sq as int);
                assert(3 * (2 * t - 1) * (3 * (2 * t - 1)) * diag_sq == 9 * ((2 * t - 1) * (2 * t
                    - 1) * diag_sq)) by (nonlinear_arith);
            } else {
                assert(a == 1);
                assert(a * a * diag_sq == diag_sq) by (nonlinear_arith)
                    requires
                        a == 1,
                ;
            }
        }
        assert(a * a * diag_sq < 0x900_0000_0000_0000_0000);
        assert(a * a <= a * a * diag_sq) by (nonlinear_arith)
            requires
                diag_sq >= 1,
        ;
        let lhs = a * a * diag_sq;
        if lhs >= q {
            break;
        }
        assert(a < 0x10_0000_0000) by (nonlinear_arith)
            requires
                a * a * diag_sq < 0x100_0000_0000_0000_0000,
                diag_sq >= 1,
                a >= 0,
        {
            if a >= 0x10_0000_0000 {
                assert(a * a >= 0x10_0000_0000 * a);
                assert(a * a * diag_sq >= a * a);
            }
        }
        t = t + 1;
    }
    let r = 10 - t as i64;
    assert(is_distance_score(r as int, dsq as int, diag_sq as int));
    r
}

} // verus!
