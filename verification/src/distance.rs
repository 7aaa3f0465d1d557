//! Squared Euclidean distance on integer coordinate vectors.

use vstd::prelude::*;
use crate::error::IndexError;

verus! {

/// Largest squared difference of two `i32` coordinates.
pub open spec fn max_sq_diff() -> nat {
    18446744065119617025
}

/// The squared difference of two coordinates.
pub open spec fn sq_diff(a: i32, b: i32) -> nat {
    ((a - b) * (a - b)) as nat
}

/// The squared Euclidean distance of two coordinate sequences, summed over
/// the positions that both have.
pub open spec fn dist_sq_spec(x: Seq<i32>, y: Seq<i32>) -> nat
    decreases x.len(),
{
    if x.len() == 0 || y.len() == 0 {
        0
    } else {
        dist_sq_spec(x.drop_last(), y.drop_last()) + sq_diff(x.last(), y.last())
    }
}

/// A squared difference is bounded and symmetric, and zero on equal coordinates.
pub proof fn lemma_sq_diff_bound(a: i32, b: i32)
    ensures
        sq_diff(a, b) <= max_sq_diff(),
        sq_diff(a, b) == sq_diff(b, a),
        sq_diff(a, a) == 0,
{
    let d: int = a - b;
    assert(-4294967295 <= d <= 4294967295);
    assert(d * d <= 4294967295 * 4294967295) by (nonlinear_arith)
        requires
            -4294967295 <= d <= 4294967295,
    ;
    assert(d * d >= 0) by (nonlinear_arith);
    assert((a - b) * (a - b) == (b - a) * (b - a)) by (nonlinear_arith);
}

/// The distance of equally long vectors is bounded by their length.
pub proof fn lemma_dist_sq_bound(x: Seq<i32>, y: Seq<i32>)
    requires
        x.len() == y.len(),
    ensures
        dist_sq_spec(x, y) <= x.len() * max_sq_diff(),
    decreases x.len(),
{
    if x.len() > 0 {
        lemma_dist_sq_bound(x.drop_last(), y.drop_last());
        lemma_sq_diff_bound(x.last(), y.last());
        assert((x.len() - 1) * max_sq_diff() + max_sq_diff() == x.len() * max_sq_diff())
            by (nonlinear_arith);
    }
}

/// The squared Euclidean distance of two vectors of one length.
pub(crate) fn sum_sq_diff(x: &Vec<i32>, y: &Vec<i32>) -> (d: u128)
    requires
        x.len() == y.len(),
    ensures
        d == dist_sq_spec(x@, y@),
{
    let mut acc: u128 = 0;
    let mut i: usize = 0;
    while i < x.len()
        invariant
            i <= x.len(),
            x.len() == y.len(),
            acc == dist_sq_spec(x@.take(i as int), y@.take(i as int)),
        decreases x.len() - i,
    {
        let a: i64 = x[i] as i64;
        let b: i64 = y[i] as i64;
        let d: u64 = if a >= b { (a - b) as u64 } else { (b - a) as u64 };
        proof {
            lemma_sq_diff_bound(x[i as int], y[i as int]);
            lemma_dist_sq_bound(x@.take(i as int), y@.take(i as int));
            assert(x@.take(i + 1).drop_last() == x@.take(i as int));
            assert(y@.take(i + 1).drop_last() == y@.take(i as int));
            assert(d * d == sq_diff(x[i as int], y[i as int])) by (nonlinear_arith)
                requires
                    d == a - b || d == b - a,
                    a == x[i as int],
                    b == y[i as int],
            ;
            assert(i * max_sq_diff() + max_sq_diff() <= u128::MAX) by (nonlinear_arith)
                requires
                    i < usize::MAX,
                    usize::MAX <= 18446744073709551615,
                    max_sq_diff() == 18446744065119617025,
            ;
        }
        let s: u128 = (d as u128) * (d as u128);
        acc = acc + s;
        i = i + 1;
    }
    proof {
        assert(x@.take(x.len() as int) == x@);
        assert(y@.take(y.len() as int) == y@);
    }
    acc
}

/// The squared Euclidean distance of two vectors. Vectors of two lengths
/// have no distance: that is a dimension mismatch.
pub fn dist_sq(x: &Vec<i32>, y: &Vec<i32>) -> (r: Result<u128, IndexError>)
    ensures
        x@.len() == y@.len() ==> r.is_ok() && r.unwrap() == dist_sq_spec(x@, y@),
        x@.len() != y@.len() ==> r == Err::<u128, IndexError>(IndexError::DimensionMismatch),
{
    if x.len() != y.len() {
        Err(IndexError::DimensionMismatch)
    } else {
        Ok(sum_sq_diff(x, y))
    }
}

} // verus!
