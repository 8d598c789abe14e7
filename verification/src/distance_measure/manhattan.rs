use vstd::prelude::*;

use crate::distance_measure::{spec_arith_mean, DistanceMeasure, arithmetic_mean};
use crate::utils::{coords_ok, row_ok, DIM_LIMIT, OPT_LIMIT};

verus! {

/// The absolute difference of two integers.
pub open spec fn abs_diff(x: int, y: int) -> int {
    if x >= y {
        x - y
    } else {
        y - x
    }
}

/// The largest value one absolute coordinate difference can take.
pub const ABS_TERM_LIMIT: i128 = 2_000_000_000;

/// The Manhattan distance between two rows, summed over the common prefix
/// of their coordinates.
pub open spec fn spec_manhattan_dist(a: Seq<i64>, b: Seq<i64>) -> int
    decreases a.len(),
{
    if a.len() == 0 || b.len() == 0 {
        0
    } else {
        spec_manhattan_dist(a.drop_last(), b.drop_last()) + abs_diff(a.last() as int, b.last() as int)
    }
}

pub proof fn lemma_manhattan_nonneg(a: Seq<i64>, b: Seq<i64>)
    ensures
        spec_manhattan_dist(a, b) >= 0,
    decreases a.len(),
{
    if a.len() != 0 && b.len() != 0 {
        lemma_manhattan_nonneg(a.drop_last(), b.drop_last());
    }
}

pub proof fn lemma_manhattan_self_zero(a: Seq<i64>)
    ensures
        spec_manhattan_dist(a, a) == 0,
    decreases a.len(),
{
    if a.len() != 0 {
        lemma_manhattan_self_zero(a.drop_last());
    }
}

pub proof fn lemma_manhattan_bound(a: Seq<i64>, b: Seq<i64>)
    requires
        coords_ok(a),
        coords_ok(b),
        a.len() <= b.len(),
    ensures
        spec_manhattan_dist(a, b) <= a.len() * ABS_TERM_LIMIT,
    decreases a.len(),
{
    if a.len() != 0 && b.len() != 0 {
        assert(coords_ok(a.drop_last()));
        assert(coords_ok(b.drop_last()));
        lemma_manhattan_bound(a.drop_last(), b.drop_last());
    }
}

pub proof fn lemma_manhattan_swap(a: Seq<i64>, b: Seq<i64>)
    ensures
        spec_manhattan_dist(a, b) == spec_manhattan_dist(b, a),
    decreases a.len(),
{
    if a.len() != 0 && b.len() != 0 {
        lemma_manhattan_swap(a.drop_last(), b.drop_last());
    }
}

/// The Manhattan distance of two equally long rows, computed in `i128`.
pub fn manhattan_dist(a: &Vec<i64>, b: &Vec<i64>) -> (r: i128)
    requires
        a@.len() == b@.len(),
        row_ok(a@),
        row_ok(b@),
    ensures
        r == spec_manhattan_dist(a@, b@),
        0 <= r <= OPT_LIMIT,
{
    let n = a.len();
    let mut acc: i128 = 0;
    let mut i: usize = 0;
    while i < n
        invariant
            n == a@.len() == b@.len(),
            row_ok(a@),
            row_ok(b@),
            0 <= i <= n,
            acc == spec_manhattan_dist(a@.take(i as int), b@.take(i as int)),
            0 <= acc <= i as int * ABS_TERM_LIMIT,
        decreases n - i,
    {
        let x = a[i] as i128;
        let y = b[i] as i128;
        let d = if x >= y {
            x - y
        } else {
            y - x
        };
        proof {
            assert(a@.take(i + 1).drop_last() =~= a@.take(i as int));
            assert(b@.take(i + 1).drop_last() =~= b@.take(i as int));
        }
        acc = acc + d;
        i += 1;
    }
    proof {
        assert(a@.take(n as int) =~= a@);
        assert(b@.take(n as int) =~= b@);
    }
    acc
}

/// The Manhattan strategy; its optimized distance is the true distance.
#[derive(Copy, Clone, Default)]
pub struct Manhattan;

impl DistanceMeasure for Manhattan {
    open spec fn spec_optimized(a: Seq<i64>, b: Seq<i64>) -> int {
        spec_manhattan_dist(a, b)
    }

    open spec fn squared() -> bool {
        false
    }

    open spec fn spec_mean_of(points: Seq<Seq<i64>>) -> Seq<i64> {
        spec_arith_mean(points)
    }

    open spec fn spec_name() -> Seq<char> {
        "manhattan"@
    }

    proof fn lemma_optimized_nonneg(a: Seq<i64>, b: Seq<i64>) {
        lemma_manhattan_nonneg(a, b);
    }

    proof fn lemma_optimized_self_zero(a: Seq<i64>) {
        lemma_manhattan_self_zero(a);
    }

    proof fn lemma_optimized_bound(a: Seq<i64>, b: Seq<i64>) {
        if a.len() <= b.len() {
            lemma_manhattan_bound(a, b);
        } else {
            lemma_manhattan_swap(a, b);
            lemma_manhattan_bound(b, a);
        }
        // the Manhattan distance is a true distance, well below the
        // bandwidth range
        assert(a.len() * ABS_TERM_LIMIT <= DIM_LIMIT * ABS_TERM_LIMIT) by (nonlinear_arith)
            requires
                a.len() <= DIM_LIMIT,
        ;
        assert(b.len() * ABS_TERM_LIMIT <= DIM_LIMIT * ABS_TERM_LIMIT) by (nonlinear_arith)
            requires
                b.len() <= DIM_LIMIT,
        ;
    }

    proof fn lemma_mean_of_props(points: Seq<Seq<i64>>, d: int) {
        crate::distance_measure::lemma_arith_mean_props(points, d);
    }

    fn optimized(a: &Vec<i64>, b: &Vec<i64>) -> (r: i128) {
        manhattan_dist(a, b)
    }

    fn distance_slice(a: &Vec<i64>, b: &Vec<i64>) -> (r: i64) {
        let o = manhattan_dist(a, b);
        proof {
            lemma_manhattan_bound(a@, b@);
            assert(a@.len() * ABS_TERM_LIMIT <= DIM_LIMIT * ABS_TERM_LIMIT) by (nonlinear_arith)
                requires
                    a@.len() <= DIM_LIMIT,
            ;
        }
        o as i64
    }

    fn is_squared() -> (b: bool) {
        false
    }

    fn mean(points: &Vec<Vec<i64>>) -> (r: Vec<i64>) {
        arithmetic_mean(points)
    }

    fn name() -> (s: String) {
        "manhattan".to_owned()
    }
}

} // verus!
