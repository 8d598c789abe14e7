use vstd::prelude::*;

use crate::distance_measure::{spec_arith_mean, DistanceMeasure, arithmetic_mean};
use crate::utils::{
    coords_ok, isqrt_u128, lemma_isqrt_small, row_ok, COORD_LIMIT, DIM_LIMIT, OPT_LIMIT,
    ROWS_LIMIT,
};

verus! {

/// The square of an integer.
pub open spec fn sq(x: int) -> int {
    x * x
}

/// The largest value one squared coordinate difference can take.
pub const SQ_TERM_LIMIT: i128 = 4_000_000_000_000_000_000;

/// The squared Euclidean distance between two rows, summed over the
/// common prefix of their coordinates.
pub open spec fn spec_sq_dist(a: Seq<i64>, b: Seq<i64>) -> int
    decreases a.len(),
{
    if a.len() == 0 || b.len() == 0 {
        0
    } else {
        spec_sq_dist(a.drop_last(), b.drop_last()) + sq(a.last() - b.last())
    }
}

pub proof fn lemma_sq_nonneg(x: int)
    ensures
        sq(x) >= 0,
{
    assert(x * x >= 0) by (nonlinear_arith);
}

pub proof fn lemma_sq_term_bound(x: int, y: int)
    requires
        -COORD_LIMIT <= x <= COORD_LIMIT,
        -COORD_LIMIT <= y <= COORD_LIMIT,
    ensures
        0 <= sq(x - y) <= SQ_TERM_LIMIT,
{
    assert(0 <= (x - y) * (x - y) <= SQ_TERM_LIMIT) by (nonlinear_arith)
        requires
            -COORD_LIMIT <= x <= COORD_LIMIT,
            -COORD_LIMIT <= y <= COORD_LIMIT,
    ;
}

pub proof fn lemma_sq_dist_nonneg(a: Seq<i64>, b: Seq<i64>)
    ensures
        spec_sq_dist(a, b) >= 0,
    decreases a.len(),
{
    if a.len() != 0 && b.len() != 0 {
        lemma_sq_dist_nonneg(a.drop_last(), b.drop_last());
        lemma_sq_nonneg(a.last() - b.last());
    }
}

pub proof fn lemma_sq_dist_self_zero(a: Seq<i64>)
    ensures
        spec_sq_dist(a, a) == 0,
    decreases a.len(),
{
    if a.len() != 0 {
        lemma_sq_dist_self_zero(a.drop_last());
    }
}

pub proof fn lemma_sq_dist_bound(a: Seq<i64>, b: Seq<i64>)
    requires
        coords_ok(a),
        coords_ok(b),
        a.len() <= b.len(),
    ensures
        spec_sq_dist(a, b) <= a.len() * SQ_TERM_LIMIT,
    decreases a.len(),
{
    if a.len() != 0 && b.len() != 0 {
        assert(coords_ok(a.drop_last()));
        assert(coords_ok(b.drop_last()));
        lemma_sq_dist_bound(a.drop_last(), b.drop_last());
        lemma_sq_term_bound(a.last() as int, b.last() as int);
    }
}

/// The squared Euclidean distance of two equally long rows, computed in
/// `i128`.
pub fn sq_dist(a: &Vec<i64>, b: &Vec<i64>) -> (r: i128)
    requires
        a@.len() == b@.len(),
        row_ok(a@),
        row_ok(b@),
    ensures
        r == spec_sq_dist(a@, b@),
        0 <= r <= OPT_LIMIT,
{
    let n = a.len();
    let mut acc: i128 = 0;
    let mut i: usize = 0;
    while i < n
        invariant
            n == a@.len() == b@.len(),
            row_ok(a@),
            row_ok(b@),
            0 <= i <= n,
            acc == spec_sq_dist(a@.take(i as int), b@.take(i as int)),
            0 <= acc <= i as int * SQ_TERM_LIMIT,
        decreases n - i,
    {
        let d = a[i] as i128 - b[i] as i128;
        proof {
            assert(a@.take(i + 1).drop_last() =~= a@.take(i as int));
            assert(b@.take(i + 1).drop_last() =~= b@.take(i as int));
            lemma_sq_term_bound(a@[i as int] as int, b@[i as int] as int);
        }
        acc = acc + d * d;
        i += 1;
    }
    proof {
        assert(a@.take(n as int) =~= a@);
        assert(b@.take(n as int) =~= b@);
    }
    acc
}

/// The Euclidean strategy; its optimized distance is the squared
/// Euclidean distance.
#[derive(Copy, Clone, Default)]
pub struct Euclidean;

impl DistanceMeasure for Euclidean {
    open spec fn spec_optimized(a: Seq<i64>, b: Seq<i64>) -> int {
        spec_sq_dist(a, b)
    }

    open spec fn squared() -> bool {
        true
    }

    open spec fn spec_mean_of(points: Seq<Seq<i64>>) -> Seq<i64> {
        spec_arith_mean(points)
    }

    open spec fn spec_name() -> Seq<char> {
        "minkowski"@
    }

    proof fn lemma_optimized_nonneg(a: Seq<i64>, b: Seq<i64>) {
        lemma_sq_dist_nonneg(a, b);
    }

    proof fn lemma_optimized_self_zero(a: Seq<i64>) {
        lemma_sq_dist_self_zero(a);
    }

    proof fn lemma_optimized_bound(a: Seq<i64>, b: Seq<i64>) {
        if a.len() <= b.len() {
            lemma_sq_dist_bound(a, b);
        } else {
            lemma_sq_dist_swap(a, b);
            lemma_sq_dist_bound(b, a);
        }
        assert(a.len() * SQ_TERM_LIMIT <= DIM_LIMIT * SQ_TERM_LIMIT) by (nonlinear_arith)
            requires
                a.len() <= DIM_LIMIT,
        ;
        assert(b.len() * SQ_TERM_LIMIT <= DIM_LIMIT * SQ_TERM_LIMIT) by (nonlinear_arith)
            requires
                b.len() <= DIM_LIMIT,
        ;
    }

    proof fn lemma_mean_of_props(points: Seq<Seq<i64>>, d: int) {
        crate::distance_measure::lemma_arith_mean_props(points, d);
    }

    fn optimized(a: &Vec<i64>, b: &Vec<i64>) -> (r: i128) {
        sq_dist(a, b)
    }

    fn distance_slice(a: &Vec<i64>, b: &Vec<i64>) -> (r: i64) {
        let o = sq_dist(a, b);
        proof {
            lemma_isqrt_small(o as int);
        }
        isqrt_u128(o as u128) as i64
    }

    fn is_squared() -> (b: bool) {
        true
    }

    fn mean(points: &Vec<Vec<i64>>) -> (r: Vec<i64>) {
        arithmetic_mean(points)
    }

    fn name() -> (s: String) {
        "minkowski".to_owned()
    }
}

/// Swapping the arguments does not change the squared distance.
pub proof fn lemma_sq_dist_swap(a: Seq<i64>, b: Seq<i64>)
    ensures
        spec_sq_dist(a, b) == spec_sq_dist(b, a),
    decreases a.len(),
{
    if a.len() != 0 && b.len() != 0 {
        lemma_sq_dist_swap(a.drop_last(), b.drop_last());
        assert(sq(a.last() - b.last()) == sq(b.last() - a.last())) by (nonlinear_arith);
    }
}

} // verus!
