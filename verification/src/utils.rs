use vstd::prelude::*;

verus! {

// The library works on fixed-point coordinates: every coordinate is an `i64`
// holding a scaled real value.  The limits below keep all intermediate
// arithmetic (squared distances, sums of rows, radius comparisons) inside
// `i128`; they are machine limits, not algorithmic ones.

/// Largest magnitude a single coordinate may have.
pub const COORD_LIMIT: i64 = 1_000_000_000;

/// Largest number of coordinates in one row.
pub const DIM_LIMIT: usize = 100_000;

/// Largest number of rows in one dataset.
pub const ROWS_LIMIT: usize = 1_000_000_000;

/// Largest bandwidth a caller may supply.
pub const BANDWIDTH_LIMIT: i64 = 1_000_000_000_000_000;

/// Upper bound on every distance value in the "optimized" domain
/// (squared Euclidean, Manhattan sum, or a warping-path cost).
pub const OPT_LIMIT: i128 = 1_000_000_000_000_000_000_000_000;

/// All coordinates of a row are within the fixed-point range.
pub open spec fn coords_ok(s: Seq<i64>) -> bool {
    forall|i: int| 0 <= i < s.len() ==> -COORD_LIMIT <= #[trigger] s[i] <= COORD_LIMIT
}

/// A row obeys both the dimension and the coordinate limits.
pub open spec fn row_ok(s: Seq<i64>) -> bool {
    s.len() <= DIM_LIMIT && coords_ok(s)
}

/// The dataset is rectangular with `d` columns.
pub open spec fn rectangular(data: Seq<Seq<i64>>, d: int) -> bool {
    forall|i: int| 0 <= i < data.len() ==> (#[trigger] data[i]).len() == d
}

/// Lexicographic comparison of two equally long coordinate rows:
/// the first differing coordinate decides.
pub open spec fn spec_lex_cmp(a: Seq<i64>, b: Seq<i64>) -> core::cmp::Ordering
    decreases a.len(),
{
    if a.len() == 0 || b.len() == 0 {
        core::cmp::Ordering::Equal
    } else if a[0] < b[0] {
        core::cmp::Ordering::Less
    } else if a[0] > b[0] {
        core::cmp::Ordering::Greater
    } else {
        spec_lex_cmp(a.skip(1), b.skip(1))
    }
}

/// On equal rows the comparison is `Equal`.
pub proof fn lemma_lex_cmp_self(a: Seq<i64>)
    ensures
        spec_lex_cmp(a, a) == core::cmp::Ordering::Equal,
    decreases a.len(),
{
    if a.len() != 0 {
        lemma_lex_cmp_self(a.skip(1));
    }
}

/// `Equal` is only returned for equal rows (when the lengths agree).
pub proof fn lemma_lex_cmp_equal(a: Seq<i64>, b: Seq<i64>)
    requires
        a.len() == b.len(),
        spec_lex_cmp(a, b) == core::cmp::Ordering::Equal,
    ensures
        a =~= b,
    decreases a.len(),
{
    if a.len() != 0 {
        lemma_lex_cmp_equal(a.skip(1), b.skip(1));
        assert forall|i: int| 0 <= i < a.len() implies a[i] == b[i] by {
            if i > 0 {
                assert(a.skip(1)[i - 1] == a[i]);
                assert(b.skip(1)[i - 1] == b[i]);
            }
        }
    }
}

/// Swapping the arguments reverses the comparison.
pub proof fn lemma_lex_cmp_flip(a: Seq<i64>, b: Seq<i64>)
    ensures
        spec_lex_cmp(b, a) == (match spec_lex_cmp(a, b) {
            core::cmp::Ordering::Less => core::cmp::Ordering::Greater,
            core::cmp::Ordering::Equal => core::cmp::Ordering::Equal,
            core::cmp::Ordering::Greater => core::cmp::Ordering::Less,
        }),
    decreases a.len(),
{
    if a.len() != 0 && b.len() != 0 && a[0] == b[0] {
        lemma_lex_cmp_flip(a.skip(1), b.skip(1));
    }
}

/// `Less` chains across equally long rows.
pub proof fn lemma_lex_cmp_trans_less(a: Seq<i64>, b: Seq<i64>, c: Seq<i64>)
    requires
        a.len() == b.len() == c.len(),
        spec_lex_cmp(a, b) == core::cmp::Ordering::Less,
        spec_lex_cmp(b, c) == core::cmp::Ordering::Less,
    ensures
        spec_lex_cmp(a, c) == core::cmp::Ordering::Less,
    decreases a.len(),
{
    if a.len() != 0 {
        if a[0] == b[0] && b[0] == c[0] {
            lemma_lex_cmp_trans_less(a.skip(1), b.skip(1), c.skip(1));
        }
    }
}

/// Comparing two equally long prefixes that agree pointwise reduces to
/// comparing the remainders.
proof fn lemma_lex_cmp_skip(a: Seq<i64>, b: Seq<i64>, i: int)
    requires
        a.len() == b.len(),
        0 <= i <= a.len(),
        forall|j: int| 0 <= j < i ==> a[j] == b[j],
    ensures
        spec_lex_cmp(a, b) == spec_lex_cmp(a.skip(i), b.skip(i)),
    decreases i,
{
    if i > 0 {
        assert(a.len() > 0 && a[0] == b[0]);
        assert(forall|j: int| 0 <= j < i - 1 ==> a.skip(1)[j] == b.skip(1)[j]);
        lemma_lex_cmp_skip(a.skip(1), b.skip(1), i - 1);
        assert(a.skip(1).skip(i - 1) =~= a.skip(i));
        assert(b.skip(1).skip(i - 1) =~= b.skip(i));
        assert(spec_lex_cmp(a, b) == spec_lex_cmp(a.skip(1), b.skip(1)));
    } else {
        assert(a.skip(0) =~= a);
        assert(b.skip(0) =~= b);
    }
}

/// Rows that can be compared element by element.
pub trait SliceComp {
    /// When the comparison is meaningful.
    spec fn cmp_wf(&self, other: &Self) -> bool;

    /// What the comparison returns.
    spec fn cmp_spec(&self, other: &Self) -> core::cmp::Ordering;

    fn slice_cmp(&self, other: &Self) -> (r: core::cmp::Ordering)
        requires
            self.cmp_wf(other),
        ensures
            r == self.cmp_spec(other),
    ;
}

impl SliceComp for Vec<i64> {
    open spec fn cmp_wf(&self, other: &Self) -> bool {
        self@.len() == other@.len()
    }

    open spec fn cmp_spec(&self, other: &Self) -> core::cmp::Ordering {
        spec_lex_cmp(self@, other@)
    }

    fn slice_cmp(&self, other: &Self) -> (r: core::cmp::Ordering) {
        let n = self.len();
        let mut i: usize = 0;
        while i < n
            invariant
                n == self@.len() == other@.len(),
                0 <= i <= n,
                forall|j: int| 0 <= j < i ==> self@[j] == other@[j],
            decreases n - i,
        {
            if self[i] < other[i] {
                proof {
                    lemma_lex_cmp_skip(self@, other@, i as int);
                }
                return core::cmp::Ordering::Less;
            }
            if self[i] > other[i] {
                proof {
                    lemma_lex_cmp_skip(self@, other@, i as int);
                }
                return core::cmp::Ordering::Greater;
            }
            i += 1;
        }
        proof {
            lemma_lex_cmp_skip(self@, other@, n as int);
        }
        core::cmp::Ordering::Equal
    }
}

/// A `(key, value)` pair ordered by its key; used to put results that may
/// arrive out of order back into key order.
#[derive(Clone, Copy, PartialEq, Eq, Structural)]
pub struct SortedElement {
    pub key: usize,
    pub value: usize,
}

impl SortedElement {
    pub fn new(key: usize, value: usize) -> (r: Self)
        ensures
            r.key == key,
            r.value == value,
    {
        Self { key, value }
    }
}

/// The elements are sorted by key, ascending.
pub open spec fn sorted_by_key(s: Seq<SortedElement>) -> bool {
    forall|i: int, j: int| 0 <= i < j < s.len() ==> s[i].key <= s[j].key
}

/// Insert an element into a key-sorted vector, before any element with a
/// strictly greater key and after everything else.
pub fn insert_sorted(v: &mut Vec<SortedElement>, e: SortedElement)
    requires
        sorted_by_key(old(v)@),
    ensures
        sorted_by_key(final(v)@),
        final(v)@ == old(v)@.take(insert_pos(old(v)@, e.key)).push(e) + old(v)@.skip(
            insert_pos(old(v)@, e.key),
        ),
{
    let n = v.len();
    let mut i: usize = 0;
    while i < n && v[i].key <= e.key
        invariant
            n == v@.len(),
            0 <= i <= n,
            forall|j: int| 0 <= j < i ==> v@[j].key <= e.key,
        decreases n - i,
    {
        i += 1;
    }
    proof {
        lemma_insert_pos_unique(v@, e.key, i as int);
    }
    v.insert(i, e);
    proof {
        let s = old(v)@;
        let p = i as int;
        let t = s.take(p).push(e) + s.skip(p);
        assert(final(v)@ =~= t);
        assert forall|x: int, y: int| 0 <= x < y < t.len() implies t[x].key <= t[y].key by {
            if x < p {
                assert(t[x] == s[x]);
            } else if x == p {
                assert(t[x] == e);
            } else {
                assert(t[x] == s[x - 1]);
            }
            if y < p {
                assert(t[y] == s[y]);
            } else if y == p {
                assert(t[y] == e);
            } else {
                assert(t[y] == s[y - 1]);
                assert(p < s.len());
                assert(s[p].key > e.key);
                assert(p <= y - 1 < s.len());
                assert(s[p].key <= s[y - 1].key);
            }
        }
    }
}

/// The position where a key belongs in a key-sorted sequence: after every
/// element whose key is less than or equal to it.
pub open spec fn insert_pos(s: Seq<SortedElement>, key: usize) -> int
    decreases s.len(),
{
    if s.len() == 0 {
        0
    } else if s[0].key > key {
        0
    } else {
        1 + insert_pos(s.skip(1), key)
    }
}

proof fn lemma_insert_pos_props(s: Seq<SortedElement>, key: usize)
    ensures
        0 <= insert_pos(s, key) <= s.len(),
        forall|j: int| 0 <= j < insert_pos(s, key) ==> s[j].key <= key,
        insert_pos(s, key) < s.len() ==> s[insert_pos(s, key)].key > key,
    decreases s.len(),
{
    if s.len() != 0 && s[0].key <= key {
        lemma_insert_pos_props(s.skip(1), key);
        let p = insert_pos(s, key);
        assert forall|j: int| 0 <= j < p implies s[j].key <= key by {
            if j > 0 {
                assert(s.skip(1)[j - 1] == s[j]);
            }
        }
        if p < s.len() {
            assert(s.skip(1)[p - 1] == s[p]);
        }
    }
}

proof fn lemma_insert_pos_unique(s: Seq<SortedElement>, key: usize, p: int)
    requires
        0 <= p <= s.len(),
        forall|j: int| 0 <= j < p ==> s[j].key <= key,
        p < s.len() ==> s[p].key > key,
    ensures
        insert_pos(s, key) == p,
{
    lemma_insert_pos_props(s, key);
    let q = insert_pos(s, key);
    if q < p {
        assert(s[q].key <= key);
    } else if p < q {
        assert(s[p].key <= key);
    }
}

/// Integer square root: `spec_isqrt(n)` is the largest `r` with `r * r <= n`.
pub open spec fn spec_isqrt(n: int) -> int
    decreases n,
{
    if n <= 0 {
        0
    } else {
        let r = 2 * spec_isqrt(n / 4);
        if (r + 1) * (r + 1) <= n {
            r + 1
        } else {
            r
        }
    }
}

pub proof fn lemma_isqrt_bounds(n: int)
    requires
        n >= 0,
    ensures
        spec_isqrt(n) >= 0,
        spec_isqrt(n) * spec_isqrt(n) <= n,
        n < (spec_isqrt(n) + 1) * (spec_isqrt(n) + 1),
    decreases n,
{
    if n > 0 {
        let m = n / 4;
        lemma_isqrt_bounds(m);
        let s = spec_isqrt(m);
        let r = 2 * s;
        assert(r * r <= n) by (nonlinear_arith)
            requires
                s * s <= m,
                r == 2 * s,
                m == n / 4,
                n > 0,
        {
            assert(4 * m <= n);
        }
        assert(n < (r + 2) * (r + 2)) by (nonlinear_arith)
            requires
                m < (s + 1) * (s + 1),
                r == 2 * s,
                m == n / 4,
                n > 0,
        {
            assert(n <= 4 * m + 3);
        }
    }
}

/// The square root is monotone.
pub proof fn lemma_isqrt_monotone(a: int, b: int)
    requires
        0 <= a <= b,
    ensures
        spec_isqrt(a) <= spec_isqrt(b),
{
    lemma_isqrt_bounds(a);
    lemma_isqrt_bounds(b);
    let ra = spec_isqrt(a);
    let rb = spec_isqrt(b);
    if ra > rb {
        assert(false) by (nonlinear_arith)
            requires
                ra * ra <= a,
                b < (rb + 1) * (rb + 1),
                a <= b,
                ra > rb,
                ra >= 0,
                rb >= 0,
        ;
    }
}

/// The square root of a perfect square is exact.
pub proof fn lemma_isqrt_exact_square(b: int)
    requires
        b >= 0,
    ensures
        spec_isqrt(b * b) == b,
{
    assert(b * b >= 0) by (nonlinear_arith)
        requires
            b >= 0,
    ;
    lemma_isqrt_bounds(b * b);
    let r = spec_isqrt(b * b);
    if r < b {
        assert(false) by (nonlinear_arith)
            requires
                b * b < (r + 1) * (r + 1),
                0 <= r < b,
        ;
    } else if r > b {
        assert(false) by (nonlinear_arith)
            requires
                r * r <= b * b,
                r > b >= 0,
        ;
    }
}

/// In the distance domain the square root stays well inside `i64`.
pub proof fn lemma_isqrt_small(n: int)
    requires
        0 <= n <= OPT_LIMIT,
    ensures
        0 <= spec_isqrt(n) <= 2_000_000_000_000,
{
    lemma_isqrt_bounds(n);
    assert(spec_isqrt(n) <= 2_000_000_000_000) by (nonlinear_arith)
        requires
            spec_isqrt(n) * spec_isqrt(n) <= n,
            n <= OPT_LIMIT,
            spec_isqrt(n) >= 0,
    ;
}

/// Exact integer square root on `u128`, limited to the distance domain.
pub fn isqrt_u128(n: u128) -> (r: u128)
    requires
        n <= OPT_LIMIT,
    ensures
        r == spec_isqrt(n as int),
    decreases n,
{
    if n == 0 {
        0
    } else {
        proof {
            lemma_isqrt_bounds(n as int);
            lemma_isqrt_bounds(n as int / 4);
            lemma_isqrt_monotone(n as int / 4, n as int);
            assert(spec_isqrt(n as int) <= 2_000_000_000_000) by (nonlinear_arith)
                requires
                    spec_isqrt(n as int) * spec_isqrt(n as int) <= n as int,
                    n as int <= OPT_LIMIT,
                    spec_isqrt(n as int) >= 0,
            ;
        }
        let s = isqrt_u128(n / 4);
        proof {
            assert((2 * s + 1) * (2 * s + 1) <= 100_000_000_000_000_000_000_000_000)
                by (nonlinear_arith)
                requires
                    0 <= s <= 2_000_000_000_000,
            ;
        }
        let r = 2 * s;
        if (r + 1) * (r + 1) <= n {
            r + 1
        } else {
            r
        }
    }
}

} // verus!
