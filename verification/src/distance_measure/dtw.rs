use vstd::prelude::*;

use crate::distance_measure::manhattan::{abs_diff, ABS_TERM_LIMIT};
use crate::distance_measure::{spec_arith_mean, DistanceMeasure, arithmetic_mean};
use crate::utils::{coords_ok, row_ok, DIM_LIMIT, OPT_LIMIT};

verus! {

/// The least of three values.
pub open spec fn min3(x: int, y: int, z: int) -> int {
    if x <= y && x <= z {
        x
    } else if y <= z {
        y
    } else {
        z
    }
}

/// The cost of the cheapest warping path from cell `(0, 0)` to cell
/// `(i, j)`: each visited cell `(p, q)` contributes the absolute
/// difference of `a[p]` and `b[q]`, and a path may step down, right, or
/// diagonally.
pub open spec fn spec_dtw(a: Seq<i64>, b: Seq<i64>, i: nat, j: nat) -> int
    decreases i + j,
{
    let c = abs_diff(a[i as int] as int, b[j as int] as int);
    if i == 0 && j == 0 {
        c
    } else if i == 0 {
        c + spec_dtw(a, b, 0, (j - 1) as nat)
    } else if j == 0 {
        c + spec_dtw(a, b, (i - 1) as nat, 0)
    } else {
        c + min3(
            spec_dtw(a, b, (i - 1) as nat, j),
            spec_dtw(a, b, i, (j - 1) as nat),
            spec_dtw(a, b, (i - 1) as nat, (j - 1) as nat),
        )
    }
}

/// The dynamic-time-warping distance of two sequences: the cheapest total
/// warping cost; zero when either sequence is empty.
pub open spec fn spec_dtw_cost(a: Seq<i64>, b: Seq<i64>) -> int {
    if a.len() == 0 || b.len() == 0 {
        0
    } else {
        spec_dtw(a, b, (a.len() - 1) as nat, (b.len() - 1) as nat)
    }
}

pub proof fn lemma_dtw_nonneg(a: Seq<i64>, b: Seq<i64>, i: nat, j: nat)
    ensures
        spec_dtw(a, b, i, j) >= 0,
    decreases i + j,
{
    if i == 0 && j == 0 {
    } else if i == 0 {
        lemma_dtw_nonneg(a, b, 0, (j - 1) as nat);
    } else if j == 0 {
        lemma_dtw_nonneg(a, b, (i - 1) as nat, 0);
    } else {
        lemma_dtw_nonneg(a, b, (i - 1) as nat, j);
        lemma_dtw_nonneg(a, b, i, (j - 1) as nat);
        lemma_dtw_nonneg(a, b, (i - 1) as nat, (j - 1) as nat);
    }
}

pub proof fn lemma_dtw_self_zero(a: Seq<i64>, i: nat)
    ensures
        spec_dtw(a, a, i, i) == 0,
    decreases i,
{
    if i > 0 {
        lemma_dtw_self_zero(a, (i - 1) as nat);
        lemma_dtw_nonneg(a, a, (i - 1) as nat, i);
        lemma_dtw_nonneg(a, a, i, (i - 1) as nat);
    }
}

pub proof fn lemma_dtw_bound(a: Seq<i64>, b: Seq<i64>, i: nat, j: nat)
    requires
        coords_ok(a),
        coords_ok(b),
        i < a.len(),
        j < b.len(),
    ensures
        spec_dtw(a, b, i, j) <= (i + j + 1) * ABS_TERM_LIMIT,
    decreases i + j,
{
    if i == 0 && j == 0 {
    } else if i == 0 {
        lemma_dtw_bound(a, b, 0, (j - 1) as nat);
    } else if j == 0 {
        lemma_dtw_bound(a, b, (i - 1) as nat, 0);
    } else {
        lemma_dtw_bound(a, b, (i - 1) as nat, j);
        lemma_dtw_bound(a, b, i, (j - 1) as nat);
        lemma_dtw_bound(a, b, (i - 1) as nat, (j - 1) as nat);
    }
}

/// The dynamic-time-warping distance of two sequences, computed by the
/// usual cumulative-cost table.
pub fn dtw(a: &Vec<i64>, b: &Vec<i64>) -> (r: i128)
    requires
        row_ok(a@),
        row_ok(b@),
    ensures
        r == spec_dtw_cost(a@, b@),
        0 <= r <= OPT_LIMIT,
{
    let n = a.len();
    let m = b.len();
    if n == 0 || m == 0 {
        return 0;
    }
    let mut row: Vec<i128> = Vec::new();
    let c0 = abs_diff_i128(a[0], b[0]);
    row.push(c0);
    let mut j: usize = 1;
    while j < m
        invariant
            n == a@.len(),
            m == b@.len(),
            0 < n <= DIM_LIMIT,
            0 < m <= DIM_LIMIT,
            row_ok(a@),
            row_ok(b@),
            1 <= j <= m,
            row@.len() == j,
            forall|q: int| 0 <= q < j ==> row@[q] == spec_dtw(a@, b@, 0, q as nat),
        decreases m - j,
    {
        let c = abs_diff_i128(a[0], b[j]);
        proof {
            lemma_dtw_nonneg(a@, b@, 0, (j - 1) as nat);
            lemma_dtw_bound(a@, b@, 0, (j - 1) as nat);
            assert((j as int) * ABS_TERM_LIMIT <= 2 * DIM_LIMIT * ABS_TERM_LIMIT)
                by (nonlinear_arith)
                requires
                    0 <= j as int <= DIM_LIMIT,
            ;
        }
        let v = c + row[j - 1];
        row.push(v);
        j += 1;
    }
    let mut i: usize = 1;
    while i < n
        invariant
            n == a@.len(),
            m == b@.len(),
            0 < n <= DIM_LIMIT,
            0 < m <= DIM_LIMIT,
            row_ok(a@),
            row_ok(b@),
            1 <= i <= n,
            row@.len() == m,
            forall|q: int| 0 <= q < m ==> row@[q] == spec_dtw(a@, b@, (i - 1) as nat, q as nat),
        decreases n - i,
    {
        let mut new_row: Vec<i128> = Vec::new();
        let c = abs_diff_i128(a[i], b[0]);
        proof {
            lemma_dtw_nonneg(a@, b@, (i - 1) as nat, 0);
            lemma_dtw_bound(a@, b@, (i - 1) as nat, 0);
            assert((i as int) * ABS_TERM_LIMIT <= 2 * DIM_LIMIT * ABS_TERM_LIMIT)
                by (nonlinear_arith)
                requires
                    0 <= i as int <= DIM_LIMIT,
            ;
        }
        new_row.push(c + row[0]);
        let mut j2: usize = 1;
        while j2 < m
            invariant
                n == a@.len(),
                m == b@.len(),
                0 < n <= DIM_LIMIT,
                0 < m <= DIM_LIMIT,
                row_ok(a@),
                row_ok(b@),
                1 <= i < n,
                1 <= j2 <= m,
                row@.len() == m,
                forall|q: int| 0 <= q < m ==> row@[q] == spec_dtw(a@, b@, (i - 1) as nat, q as nat),
                new_row@.len() == j2,
                forall|q: int| 0 <= q < j2 ==> new_row@[q] == spec_dtw(a@, b@, i as nat, q as nat),
            decreases m - j2,
        {
            let c2 = abs_diff_i128(a[i], b[j2]);
            proof {
                lemma_dtw_nonneg(a@, b@, (i - 1) as nat, j2 as nat);
                lemma_dtw_nonneg(a@, b@, i as nat, (j2 - 1) as nat);
                lemma_dtw_nonneg(a@, b@, (i - 1) as nat, (j2 - 1) as nat);
                lemma_dtw_bound(a@, b@, (i - 1) as nat, j2 as nat);
                lemma_dtw_bound(a@, b@, i as nat, (j2 - 1) as nat);
                lemma_dtw_bound(a@, b@, (i - 1) as nat, (j2 - 1) as nat);
                assert((i + j2 + 1) * ABS_TERM_LIMIT <= 2 * DIM_LIMIT * ABS_TERM_LIMIT)
                    by (nonlinear_arith)
                    requires
                        0 <= i as int <= DIM_LIMIT - 1,
                        0 <= j2 as int <= DIM_LIMIT - 1,
                ;
            }
            let up = row[j2];
            let left = new_row[j2 - 1];
            let diag = row[j2 - 1];
            let mn = if up <= left && up <= diag {
                up
            } else if left <= diag {
                left
            } else {
                diag
            };
            new_row.push(c2 + mn);
            j2 += 1;
        }
        row = new_row;
        i += 1;
    }
    proof {
        lemma_dtw_nonneg(a@, b@, (n - 1) as nat, (m - 1) as nat);
        lemma_dtw_bound(a@, b@, (n - 1) as nat, (m - 1) as nat);
        assert((n - 1 + (m - 1) + 1) * ABS_TERM_LIMIT <= 2 * DIM_LIMIT * ABS_TERM_LIMIT)
            by (nonlinear_arith)
            requires
                0 < n <= DIM_LIMIT,
                0 < m <= DIM_LIMIT,
        ;
    }
    row[m - 1]
}

/// The absolute difference of two coordinates, widened to `i128`.
fn abs_diff_i128(x: i64, y: i64) -> (r: i128)
    ensures
        r == abs_diff(x as int, y as int),
{
    let a = x as i128;
    let b = y as i128;
    if a >= b {
        a - b
    } else {
        b - a
    }
}

/// The dynamic-time-warping strategy; its distance is the cheapest
/// total warping cost under absolute-difference cell costs.
#[derive(Copy, Clone, Default)]
pub struct DTW;

impl DistanceMeasure for DTW {
    open spec fn spec_optimized(a: Seq<i64>, b: Seq<i64>) -> int {
        spec_dtw_cost(a, b)
    }

    open spec fn squared() -> bool {
        false
    }

    open spec fn spec_mean_of(points: Seq<Seq<i64>>) -> Seq<i64> {
        spec_arith_mean(points)
    }

    open spec fn spec_name() -> Seq<char> {
        "dtw"@
    }

    proof fn lemma_optimized_nonneg(a: Seq<i64>, b: Seq<i64>) {
        if a.len() != 0 && b.len() != 0 {
            lemma_dtw_nonneg(a, b, (a.len() - 1) as nat, (b.len() - 1) as nat);
        }
    }

    proof fn lemma_optimized_self_zero(a: Seq<i64>) {
        if a.len() != 0 {
            lemma_dtw_self_zero(a, (a.len() - 1) as nat);
        }
    }

    proof fn lemma_optimized_bound(a: Seq<i64>, b: Seq<i64>) {
        if a.len() != 0 && b.len() != 0 {
            lemma_dtw_bound(a, b, (a.len() - 1) as nat, (b.len() - 1) as nat);
            assert((a.len() - 1 + (b.len() - 1) + 1) * ABS_TERM_LIMIT <= 2 * DIM_LIMIT
                * ABS_TERM_LIMIT) by (nonlinear_arith)
                requires
                    0 < a.len() <= DIM_LIMIT,
                    0 < b.len() <= DIM_LIMIT,
            ;
        }
    }

    proof fn lemma_mean_of_props(points: Seq<Seq<i64>>, d: int) {
        crate::distance_measure::lemma_arith_mean_props(points, d);
    }

    fn optimized(a: &Vec<i64>, b: &Vec<i64>) -> (r: i128) {
        dtw(a, b)
    }

    fn distance_slice(a: &Vec<i64>, b: &Vec<i64>) -> (r: i64) {
        let o = dtw(a, b);
        proof {
            DTW::lemma_optimized_bound(a@, b@);
        }
        o as i64
    }

    fn is_squared() -> (b: bool) {
        false
    }

    fn mean(points: &Vec<Vec<i64>>) -> (r: Vec<i64>) {
        arithmetic_mean(points)
    }

    fn name() -> (s: String) {
        "dtw".to_owned()
    }
}

} // verus!
