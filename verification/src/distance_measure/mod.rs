use vstd::prelude::*;

pub mod dtw;
pub mod euclidean;
pub mod manhattan;

pub use dtw::DTW;
pub use euclidean::Euclidean;
pub use manhattan::Manhattan;

use crate::utils::{coords_ok, row_ok, spec_isqrt, COORD_LIMIT, OPT_LIMIT, ROWS_LIMIT};

verus! {

/// Upper bound on an optimized distance when the optimized domain is not
/// squared (a true distance under the machine limits).
pub const LINEAR_LIMIT: i128 = 400_000_000_000_000;

/// A distance strategy: a distance in an "optimized" domain (possibly the
/// square of the true distance), a centroid, and a stable name used for
/// strategy selection.
///
/// When `squared()` holds, `spec_optimized` is the square of the true
/// distance, so a radius `r` corresponds to `r * r` in the optimized domain
/// and the true distance is the integer square root of the optimized value.
pub trait DistanceMeasure: Sized {
    /// The distance between two rows, in the optimized domain.
    spec fn spec_optimized(a: Seq<i64>, b: Seq<i64>) -> int;

    /// Whether the optimized domain is the square of the true distance.
    spec fn squared() -> bool;

    /// The centroid of a non-empty set of rows.
    spec fn spec_mean_of(points: Seq<Seq<i64>>) -> Seq<i64>;

    /// The strategy's name.
    spec fn spec_name() -> Seq<char>;

    /// Distances are never negative.
    proof fn lemma_optimized_nonneg(a: Seq<i64>, b: Seq<i64>)
        ensures
            Self::spec_optimized(a, b) >= 0,
    ;

    /// The distance from a row to itself is zero.
    proof fn lemma_optimized_self_zero(a: Seq<i64>)
        ensures
            Self::spec_optimized(a, a) == 0,
    ;

    /// Under the machine limits the optimized distance stays in range;
    /// when the optimized domain is not squared it is a true distance and
    /// stays below the bandwidth range.
    proof fn lemma_optimized_bound(a: Seq<i64>, b: Seq<i64>)
        requires
            row_ok(a),
            row_ok(b),
        ensures
            Self::spec_optimized(a, b) <= OPT_LIMIT,
            !Self::squared() ==> Self::spec_optimized(a, b) <= LINEAR_LIMIT,
    ;

    /// The centroid of well-formed rows has their dimension and stays in
    /// the coordinate range.
    proof fn lemma_mean_of_props(points: Seq<Seq<i64>>, d: int)
        requires
            0 < points.len() <= ROWS_LIMIT,
            forall|i: int|
                0 <= i < points.len() ==> (#[trigger] points[i]).len() == d && row_ok(points[i]),
        ensures
            Self::spec_mean_of(points).len() == d,
            row_ok(Self::spec_mean_of(points)),
    ;

    /// The distance between two rows of equal dimension, in the optimized
    /// domain.
    fn optimized(a: &Vec<i64>, b: &Vec<i64>) -> (r: i128)
        requires
            a@.len() == b@.len(),
            row_ok(a@),
            row_ok(b@),
        ensures
            r == Self::spec_optimized(a@, b@),
    ;

    /// The true distance between two rows of equal dimension, floored to an
    /// integer.
    fn distance_slice(a: &Vec<i64>, b: &Vec<i64>) -> (r: i64)
        requires
            a@.len() == b@.len(),
            row_ok(a@),
            row_ok(b@),
        ensures
            r == spec_true_distance_of(Self::spec_optimized(a@, b@), Self::squared()),
    ;

    /// Whether radius thresholds must be squared for this strategy.
    fn is_squared() -> (b: bool)
        ensures
            b == Self::squared(),
    ;

    /// The centroid of a non-empty rectangular set of rows.
    fn mean(points: &Vec<Vec<i64>>) -> (r: Vec<i64>)
        requires
            0 < points@.len() <= ROWS_LIMIT,
            forall|i: int|
                0 <= i < points@.len() ==> (#[trigger] points@[i])@.len() == points@[0]@.len()
                    && row_ok(points@[i]@),
        ensures
            r@ == Self::spec_mean_of(points.deep_view()),
            r@.len() == points@[0]@.len(),
            row_ok(r@),
    ;

    /// The strategy's name.
    fn name() -> (s: String)
        ensures
            s@ == Self::spec_name(),
    ;
}

/// The true distance derived from an optimized value: its integer square
/// root when the optimized domain is squared, the value itself otherwise.
pub open spec fn spec_true_distance_of(o: int, squared: bool) -> int {
    if squared {
        spec_isqrt(o)
    } else {
        o
    }
}

/// The radius in the optimized domain that corresponds to the true radius
/// `bw`.
pub open spec fn spec_radius(bw: int, squared: bool) -> int {
    if squared {
        bw * bw
    } else {
        bw
    }
}

/// Whether an optimized distance `o` is below one thousandth of the
/// bandwidth, the mode seeker's convergence threshold, compared exactly.
pub open spec fn spec_below_threshold(o: int, bw: int, squared: bool) -> bool {
    if squared {
        1_000_000 * o < bw * bw
    } else {
        1_000 * o < bw
    }
}

/// The radius threshold in the optimized domain, computed in `i128`.
pub fn radius_threshold(bw: i64, squared: bool) -> (r: i128)
    requires
        0 <= bw <= crate::utils::BANDWIDTH_LIMIT,
    ensures
        r == spec_radius(bw as int, squared),
{
    if squared {
        proof {
            assert((bw as int) * (bw as int) <= 1_000_000_000_000_000_000_000_000_000_000)
                by (nonlinear_arith)
                requires
                    0 <= bw <= 1_000_000_000_000_000,
            ;
        }
        (bw as i128) * (bw as i128)
    } else {
        bw as i128
    }
}

/// The convergence test, computed exactly in `i128`.
pub fn below_threshold(o: i128, bw: i64, squared: bool) -> (r: bool)
    requires
        0 <= o <= OPT_LIMIT,
        0 <= bw <= crate::utils::BANDWIDTH_LIMIT,
    ensures
        r == spec_below_threshold(o as int, bw as int, squared),
{
    if squared {
        proof {
            assert((bw as int) * (bw as int) <= 1_000_000_000_000_000_000_000_000_000_000)
                by (nonlinear_arith)
                requires
                    0 <= bw <= 1_000_000_000_000_000,
            ;
        }
        1_000_000 * o < (bw as i128) * (bw as i128)
    } else {
        1_000 * o < bw as i128
    }
}

/// Truncating integer division (toward zero), for a positive divisor.
pub open spec fn div_trunc(a: int, b: int) -> int {
    if a == 0 {
        0
    } else if a > 0 {
        a / b
    } else {
        ((a * -1) / b) * -1
    }
}

/// The sum of column `col` over all rows.
pub open spec fn spec_col_sum(points: Seq<Seq<i64>>, col: int) -> int
    decreases points.len(),
{
    if points.len() == 0 {
        0
    } else {
        spec_col_sum(points.drop_last(), col) + points.last()[col]
    }
}

/// One coordinate of the arithmetic mean of the rows.
pub open spec fn spec_mean_val(points: Seq<Seq<i64>>, col: int) -> int {
    div_trunc(spec_col_sum(points, col), points.len() as int)
}

/// The arithmetic mean of the rows, coordinate by coordinate.
pub open spec fn spec_arith_mean(points: Seq<Seq<i64>>) -> Seq<i64> {
    Seq::new(points[0].len(), |col: int| spec_mean_val(points, col) as i64)
}

proof fn lemma_col_sum_bound(points: Seq<Seq<i64>>, d: int, col: int)
    requires
        0 <= col < d,
        forall|i: int|
            0 <= i < points.len() ==> (#[trigger] points[i]).len() == d && coords_ok(points[i]),
    ensures
        -(points.len() as int * COORD_LIMIT) <= spec_col_sum(points, col) <= points.len() as int
            * COORD_LIMIT,
    decreases points.len(),
{
    if points.len() > 0 {
        let rest = points.drop_last();
        assert forall|i: int|
            0 <= i < rest.len() implies (#[trigger] rest[i]).len() == d && coords_ok(rest[i]) by {
            assert(rest[i] == points[i]);
        }
        lemma_col_sum_bound(rest, d, col);
        assert(points.last() == points[points.len() - 1]);
        assert(-COORD_LIMIT <= points.last()[col] <= COORD_LIMIT);
    }
}

pub proof fn lemma_mean_val_bound(points: Seq<Seq<i64>>, d: int, col: int)
    requires
        points.len() > 0,
        0 <= col < d,
        forall|i: int|
            0 <= i < points.len() ==> (#[trigger] points[i]).len() == d && coords_ok(points[i]),
    ensures
        -COORD_LIMIT <= spec_mean_val(points, col) <= COORD_LIMIT,
{
    let n = points.len() as int;
    let s = spec_col_sum(points, col);
    lemma_col_sum_bound(points, d, col);
    if s > 0 {
        vstd::arithmetic::div_mod::lemma_div_is_ordered(s, n * COORD_LIMIT, n);
        vstd::arithmetic::div_mod::lemma_div_multiples_vanish(COORD_LIMIT as int, n);
        vstd::arithmetic::div_mod::lemma_div_pos_is_pos(s, n);
    } else if s < 0 {
        vstd::arithmetic::div_mod::lemma_div_is_ordered(s * -1, n * COORD_LIMIT, n);
        vstd::arithmetic::div_mod::lemma_div_multiples_vanish(COORD_LIMIT as int, n);
        vstd::arithmetic::div_mod::lemma_div_pos_is_pos(s * -1, n);
    }
}

/// The arithmetic mean of a non-empty rectangular set of rows, each
/// coordinate truncated toward zero.
pub fn arithmetic_mean(points: &Vec<Vec<i64>>) -> (r: Vec<i64>)
    requires
        0 < points@.len() <= ROWS_LIMIT,
        forall|i: int|
            0 <= i < points@.len() ==> (#[trigger] points@[i])@.len() == points@[0]@.len()
                && row_ok(points@[i]@),
    ensures
        r@ == spec_arith_mean(points.deep_view()),
        r@.len() == points@[0]@.len(),
        row_ok(r@),
{
    let n = points.len();
    let d = points[0].len();
    let pdv = Ghost(points.deep_view());
    proof {
        assert forall|i: int| 0 <= i < pdv@.len() implies pdv@[i] == points@[i]@ by {}
    }
    let mut r: Vec<i64> = Vec::new();
    let mut col: usize = 0;
    while col < d
        invariant
            n == points@.len(),
            0 < n <= ROWS_LIMIT,
            d == points@[0]@.len(),
            pdv@ == points.deep_view(),
            pdv@.len() == n,
            forall|i: int| 0 <= i < n ==> pdv@[i] == points@[i]@,
            forall|i: int|
                0 <= i < n ==> (#[trigger] points@[i])@.len() == d && row_ok(points@[i]@),
            0 <= col <= d,
            r@.len() == col,
            forall|c: int| 0 <= c < col ==> r@[c] == spec_mean_val(pdv@, c),
            forall|c: int| 0 <= c < col ==> -COORD_LIMIT <= #[trigger] r@[c] <= COORD_LIMIT,
        decreases d - col,
    {
        let mut sum: i128 = 0;
        let mut i: usize = 0;
        while i < n
            invariant
                n == points@.len(),
                0 < n <= ROWS_LIMIT,
                d == points@[0]@.len(),
                pdv@ == points.deep_view(),
                pdv@.len() == n,
                forall|ii: int| 0 <= ii < n ==> pdv@[ii] == points@[ii]@,
                forall|ii: int|
                    0 <= ii < n ==> (#[trigger] points@[ii])@.len() == d && row_ok(points@[ii]@),
                0 <= col < d,
                0 <= i <= n,
                sum == spec_col_sum(pdv@.take(i as int), col as int),
                -(i as int * COORD_LIMIT) <= sum <= i as int * COORD_LIMIT,
            decreases n - i,
        {
            let x = points[i][col];
            proof {
                assert(pdv@.take(i + 1).drop_last() =~= pdv@.take(i as int));
                assert(pdv@.take(i + 1).last() == pdv@[i as int]);
                assert(coords_ok(points@[i as int]@));
            }
            sum = sum + x as i128;
            i += 1;
        }
        proof {
            assert(pdv@.take(n as int) =~= pdv@);
            lemma_mean_val_bound(pdv@, d as int, col as int);
        }
        let m = match sum.checked_div(n as i128) {
            Some(q) => q,
            None => 0,
        };
        proof {
            assert(m == spec_mean_val(pdv@, col as int));
        }
        r.push(m as i64);
        col += 1;
    }
    proof {
        assert(r@ =~= spec_arith_mean(points.deep_view()));
    }
    r
}


/// The arithmetic mean of well-formed rows has their dimension and stays
/// in the coordinate range.
pub proof fn lemma_arith_mean_props(points: Seq<Seq<i64>>, d: int)
    requires
        0 < points.len() <= ROWS_LIMIT,
        forall|i: int|
            0 <= i < points.len() ==> (#[trigger] points[i]).len() == d && row_ok(points[i]),
    ensures
        spec_arith_mean(points).len() == d,
        row_ok(spec_arith_mean(points)),
{
    assert(points[0].len() == d);
    assert forall|c: int|
        0 <= c < spec_arith_mean(points).len() implies -COORD_LIMIT <= #[trigger] spec_arith_mean(
        points,
    )[c] <= COORD_LIMIT by {
        assert(spec_arith_mean(points)[c] == spec_mean_val(points, c) as i64);
        lemma_mean_val_bound(points, d, c);
    }
}

} // verus!
