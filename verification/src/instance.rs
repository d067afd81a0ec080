//! Problem instances: a symmetric, non-negative integer cost matrix, built
//! either from an explicit matrix or from planar coordinates with the
//! round-to-nearest Euclidean distance.

use vstd::prelude::*;

use crate::sums::view2;
use crate::COORD_LIMIT;
use crate::MAX_COST;
use crate::MAX_N;

verus! {

broadcast use crate::sums::lemma_view2_index;

/// The two ways a solve can fail.
#[derive(Clone, Copy, Debug, PartialEq, Eq, Structural)]
pub enum SolveError {
    /// The input has the wrong shape: fewer than three nodes, a non-square or
    /// asymmetric matrix, an entry out of range, or a non-zero diagonal.
    InvalidInstance,
    /// The exclusion set of a subproblem admits no 1-tree at all.  A solve
    /// surfaces this only when the whole search space is infeasible.
    InfeasibleRelaxation,
}

/// A well-shaped cost matrix: square of side `n` with `3 <= n <= MAX_N`,
/// entries in `[0, MAX_COST]`, symmetric, zero on the diagonal.
pub open spec fn valid_cost_matrix(n: int, m: Seq<Seq<i64>>) -> bool {
    &&& 3 <= n <= MAX_N
    &&& m.len() == n
    &&& forall|i: int| 0 <= i < n ==> #[trigger] m[i].len() == n
    &&& forall|i: int, j: int| 0 <= i < n && 0 <= j < n ==> 0 <= #[trigger] m[i][j] <= MAX_COST
    &&& forall|i: int, j: int| 0 <= i < n && 0 <= j < n ==> #[trigger] m[i][j] == m[j][i]
    &&& forall|i: int| 0 <= i < n ==> #[trigger] m[i][i] == 0
}

/// An immutable instance of the symmetric travelling salesman problem.
pub struct TspInstance {
    /// Number of nodes.
    pub n: usize,
    /// Symmetric non-negative cost matrix, `n` rows of `n` entries.
    pub cost: Vec<Vec<i64>>,
}

impl TspInstance {
    /// The cost matrix as a mathematical value.
    pub open spec fn matrix(self) -> Seq<Seq<i64>> {
        view2(self.cost@)
    }

    /// Shape invariant of an instance.
    pub open spec fn wf(self) -> bool {
        valid_cost_matrix(self.n as int, self.matrix())
    }

    /// Number of nodes.
    pub fn node_count(&self) -> (r: usize)
        ensures
            r == self.n,
    {
        self.n
    }

    /// One entry of the cost matrix.
    pub fn cost_between(&self, i: usize, j: usize) -> (r: i64)
        requires
            self.wf(),
            i < self.n,
            j < self.n,
        ensures
            r == self.matrix()[i as int][j as int],
    {
        proof {
            assert(self.matrix()[i as int].len() == self.n);
        }
        self.cost[i][j]
    }

    /// Builds an instance from an explicit cost matrix, rejecting any input
    /// that is not a well-shaped symmetric matrix.
    pub fn from_matrix(m: Vec<Vec<i64>>) -> (r: Result<TspInstance, SolveError>)
        ensures
            match r {
                Ok(t) => {
                    &&& t.wf()
                    &&& t.n == m@.len()
                    &&& t.matrix() == view2(m@)
                    &&& valid_cost_matrix(m@.len() as int, view2(m@))
                },
                Err(e) => {
                    &&& e == SolveError::InvalidInstance
                    &&& !valid_cost_matrix(m@.len() as int, view2(m@))
                },
            },
    {
        let n = m.len();
        if n < 3 || n > MAX_N {
            return Err(SolveError::InvalidInstance);
        }
        let mut i: usize = 0;
        while i < n
            invariant
                n == m@.len(),
                3 <= n <= MAX_N,
                i <= n,
                forall|a: int| 0 <= a < i ==> #[trigger] view2(m@)[a].len() == n,
                forall|a: int, b: int| 0 <= a < i && 0 <= b < n
                    ==> 0 <= #[trigger] view2(m@)[a][b] <= MAX_COST,
                forall|a: int| 0 <= a < i ==> #[trigger] view2(m@)[a][a] == 0,
            decreases n - i,
        {
            if m[i].len() != n {
                proof {
                    assert(view2(m@)[i as int].len() != n);
                }
                return Err(SolveError::InvalidInstance);
            }
            let mut j: usize = 0;
            while j < n
                invariant
                    n == m@.len(),
                    i < n,
                    j <= n,
                    m@[i as int]@.len() == n,
                    forall|b: int| 0 <= b < j
                        ==> 0 <= #[trigger] view2(m@)[i as int][b] <= MAX_COST,
                    j > i ==> view2(m@)[i as int][i as int] == 0,
                decreases n - j,
            {
                let c = m[i][j];
                if c < 0 || c > MAX_COST {
                    proof {
                        assert(view2(m@)[i as int][j as int] == c);
                    }
                    return Err(SolveError::InvalidInstance);
                }
                if i == j && c != 0 {
                    proof {
                        assert(view2(m@)[i as int][i as int] == c);
                    }
                    return Err(SolveError::InvalidInstance);
                }
                j += 1;
            }
            i += 1;
        }
        // Symmetry check, once the shape is known to be square.
        let mut i: usize = 0;
        while i < n
            invariant
                n == m@.len(),
                3 <= n <= MAX_N,
                i <= n,
                forall|a: int| 0 <= a < n ==> #[trigger] view2(m@)[a].len() == n,
                forall|a: int, b: int| 0 <= a < n && 0 <= b < n
                    ==> 0 <= #[trigger] view2(m@)[a][b] <= MAX_COST,
                forall|a: int| 0 <= a < n ==> #[trigger] view2(m@)[a][a] == 0,
                forall|a: int, b: int| 0 <= a < i && 0 <= b < n
                    ==> #[trigger] view2(m@)[a][b] == view2(m@)[b][a],
            decreases n - i,
        {
            let mut j: usize = 0;
            while j < n
                invariant
                    n == m@.len(),
                    i < n,
                    j <= n,
                    forall|a: int| 0 <= a < n ==> #[trigger] view2(m@)[a].len() == n,
                    forall|b: int| 0 <= b < j
                        ==> #[trigger] view2(m@)[i as int][b] == view2(m@)[b][i as int],
                decreases n - j,
            {
                proof {
                    assert(view2(m@)[i as int].len() == n);
                    assert(view2(m@)[j as int].len() == n);
                }
                if m[i][j] != m[j][i] {
                    proof {
                        assert(view2(m@)[i as int][j as int] != view2(m@)[j as int][i as int]);
                    }
                    return Err(SolveError::InvalidInstance);
                }
                j += 1;
            }
            i += 1;
        }
        Ok(TspInstance { n, cost: m })
    }

    /// Builds an instance from planar node coordinates.  Each off-diagonal
    /// entry of the resulting matrix is the Euclidean distance between the
    /// two nodes, rounded to the nearest integer (half away from zero).
    pub fn from_coords(coords: &Vec<(i64, i64)>) -> (r: Result<TspInstance, SolveError>)
        ensures
            match r {
                Ok(t) => {
                    &&& t.wf()
                    &&& t.n == coords@.len()
                    &&& valid_coords(coords@)
                    &&& forall|i: int, j: int|
                        0 <= i < coords@.len() && 0 <= j < coords@.len()
                            ==> is_rounded_sqrt(
                                dist_sq(coords@[i], coords@[j]),
                                #[trigger] t.matrix()[i][j] as int,
                            )
                },
                Err(e) => {
                    &&& e == SolveError::InvalidInstance
                    &&& !valid_coords(coords@)
                },
            },
    {
        let n = coords.len();
        if n < 3 || n > MAX_N {
            return Err(SolveError::InvalidInstance);
        }
        let mut k: usize = 0;
        while k < n
            invariant
                n == coords@.len(),
                k <= n,
                forall|a: int| 0 <= a < k
                    ==> -COORD_LIMIT <= (#[trigger] coords@[a]).0 <= COORD_LIMIT
                        && -COORD_LIMIT <= coords@[a].1 <= COORD_LIMIT,
            decreases n - k,
        {
            let (x, y) = coords[k];
            if x < -COORD_LIMIT || x > COORD_LIMIT || y < -COORD_LIMIT || y > COORD_LIMIT {
                return Err(SolveError::InvalidInstance);
            }
            k += 1;
        }
        let mut cost: Vec<Vec<i64>> = Vec::new();
        let mut i: usize = 0;
        while i < n
            invariant
                n == coords@.len(),
                3 <= n <= MAX_N,
                valid_coords(coords@),
                i <= n,
                cost@.len() == i,
                forall|a: int| 0 <= a < i ==> (#[trigger] cost@[a])@.len() == n,
                forall|a: int, b: int| 0 <= a < i && 0 <= b < n
                    ==> 0 <= #[trigger] cost@[a]@[b] <= MAX_COST,
                forall|a: int| 0 <= a < i ==> #[trigger] cost@[a]@[a as int] == 0,
                forall|a: int, b: int| 0 <= a < i && 0 <= b < n
                    ==> is_rounded_sqrt(
                        dist_sq(coords@[a], coords@[b]),
                        #[trigger] cost@[a]@[b] as int,
                    ),
            decreases n - i,
        {
            let mut row: Vec<i64> = Vec::new();
            let mut j: usize = 0;
            while j < n
                invariant
                    n == coords@.len(),
                    3 <= n <= MAX_N,
                    valid_coords(coords@),
                    i < n,
                    j <= n,
                    row@.len() == j,
                    forall|b: int| 0 <= b < j ==> 0 <= #[trigger] row@[b] <= MAX_COST,
                    i < j ==> row@[i as int] == 0,
                    forall|b: int| 0 <= b < j
                        ==> is_rounded_sqrt(
                            dist_sq(coords@[i as int], coords@[b]),
                            #[trigger] row@[b] as int,
                        ),
                decreases n - j,
            {
                if i == j {
                    proof {
                        lemma_dist_sq_zero(coords@[i as int]);
                        lemma_rounded_sqrt_zero();
                    }
                    row.push(0);
                    proof {
                        assert(row@[j as int] == 0);
                        assert(is_rounded_sqrt(
                            dist_sq(coords@[i as int], coords@[j as int]),
                            row@[j as int] as int,
                        ));
                    }
                } else {
                    let (xi, yi) = coords[i];
                    let (xj, yj) = coords[j];
                    let d = rounded_dist(xi - xj, yi - yj);
                    proof {
                        assert(dist_sq(coords@[i as int], coords@[j as int])
                            == (xi - xj) * (xi - xj) + (yi - yj) * (yi - yj));
                    }
                    row.push(d);
                    proof {
                        assert(row@[j as int] == d);
                        assert(is_rounded_sqrt(
                            dist_sq(coords@[i as int], coords@[j as int]),
                            row@[j as int] as int,
                        ));
                    }
                }
                j += 1;
            }
            cost.push(row);
            i += 1;
        }
        let t = TspInstance { n, cost };
        proof {
            let mm = t.matrix();
            let cs = coords@;
            assert forall|a: int| 0 <= a < n implies #[trigger] mm[a].len() == n by {
                assert(mm[a] == t.cost@[a]@);
            }
            assert forall|a: int, b: int| 0 <= a < n && 0 <= b < n implies 0 <= #[trigger] mm[a][b]
                <= MAX_COST && is_rounded_sqrt(dist_sq(cs[a], cs[b]), mm[a][b] as int) by {
                assert(mm[a] == t.cost@[a]@);
            }
            assert forall|a: int| 0 <= a < n implies #[trigger] mm[a][a] == 0 by {
                assert(mm[a] == t.cost@[a]@);
            }
            assert forall|a: int, b: int| 0 <= a < n && 0 <= b < n implies #[trigger] mm[a][b]
                == mm[b][a] by {
                lemma_dist_sq_symm(cs[a], cs[b]);
                lemma_rounded_sqrt_unique(dist_sq(cs[a], cs[b]), mm[a][b] as int, mm[b][a] as int);
            }
        }
        Ok(t)
    }
}

/// A well-shaped coordinate list: between 3 and `MAX_N` nodes, every
/// coordinate within `COORD_LIMIT` in magnitude.
pub open spec fn valid_coords(cs: Seq<(i64, i64)>) -> bool {
    &&& 3 <= cs.len() <= MAX_N
    &&& forall|k: int| 0 <= k < cs.len()
        ==> -COORD_LIMIT <= (#[trigger] cs[k]).0 <= COORD_LIMIT
            && -COORD_LIMIT <= cs[k].1 <= COORD_LIMIT
}

/// Squared Euclidean distance between two points.
pub open spec fn dist_sq(p: (i64, i64), q: (i64, i64)) -> int {
    (p.0 - q.0) * (p.0 - q.0) + (p.1 - q.1) * (p.1 - q.1)
}

/// `r` is the square root of `d`, rounded to the nearest integer with halves
/// rounded up.  For non-negative `d` exactly one `r` satisfies this.
pub open spec fn is_rounded_sqrt(d: int, r: int) -> bool {
    &&& 0 <= r
    &&& r == 0 ==> d == 0
    &&& r >= 1 ==> (2 * r - 1) * (2 * r - 1) <= 4 * d
    &&& 4 * d < (2 * r + 1) * (2 * r + 1)
}

/// The rounded square root is unique.
pub proof fn lemma_rounded_sqrt_unique(d: int, r1: int, r2: int)
    requires
        0 <= d,
        is_rounded_sqrt(d, r1),
        is_rounded_sqrt(d, r2),
    ensures
        r1 == r2,
{
    if r1 < r2 {
        assert(2 * r1 + 1 <= 2 * r2 - 1);
        assert((2 * r2 - 1) * (2 * r2 - 1) <= 4 * d);
        assert(false) by (nonlinear_arith)
            requires
                0 <= 2 * r1 + 1 <= 2 * r2 - 1,
                (2 * r2 - 1) * (2 * r2 - 1) <= 4 * d,
                4 * d < (2 * r1 + 1) * (2 * r1 + 1),
        ;
    }
    if r2 < r1 {
        assert(2 * r2 + 1 <= 2 * r1 - 1);
        assert(false) by (nonlinear_arith)
            requires
                0 <= 2 * r2 + 1 <= 2 * r1 - 1,
                (2 * r1 - 1) * (2 * r1 - 1) <= 4 * d,
                4 * d < (2 * r2 + 1) * (2 * r2 + 1),
        ;
    }
}

/// Zero is the rounded square root of zero.
pub proof fn lemma_rounded_sqrt_zero()
    ensures
        is_rounded_sqrt(0, 0),
{
    assert((2 * 0 + 1) * (2 * 0 + 1) == 1) by (nonlinear_arith);
}

/// A point is at distance zero from itself.
pub proof fn lemma_dist_sq_zero(p: (i64, i64))
    ensures
        dist_sq(p, p) == 0,
{
    assert((p.0 - p.0) * (p.0 - p.0) == 0) by (nonlinear_arith);
    assert((p.1 - p.1) * (p.1 - p.1) == 0) by (nonlinear_arith);
}

/// Squared distance does not depend on the order of its endpoints.
pub proof fn lemma_dist_sq_symm(p: (i64, i64), q: (i64, i64))
    ensures
        dist_sq(p, q) == dist_sq(q, p),
{
    assert((p.0 - q.0) * (p.0 - q.0) == (q.0 - p.0) * (q.0 - p.0)) by (nonlinear_arith);
    assert((p.1 - q.1) * (p.1 - q.1) == (q.1 - p.1) * (q.1 - p.1)) by (nonlinear_arith);
}

/// Integer square root, rounded down.
fn floor_sqrt(x: u64) -> (r: u64)
    requires
        x <= 4400000000000,
    ensures
        r * r <= x < (r + 1) * (r + 1),
        r <= 2200000,
{
    let mut lo: u64 = 0;
    let mut hi: u64 = 2200000;
    proof {
        assert((2200000u64 as int) * (2200000u64 as int) > 4400000000000) by (nonlinear_arith);
    }
    while hi - lo > 1
        invariant
            lo < hi <= 2200000,
            lo * lo <= x,
            x < hi * hi,
        decreases hi - lo,
    {
        let mid = lo + (hi - lo) / 2;
        proof {
            assert((mid as int) * (mid as int) <= (2200000u64 as int) * (2200000u64 as int))
                by (nonlinear_arith)
                requires
                    0 <= mid as int <= 2200000,
            ;
        }
        if mid * mid <= x {
            lo = mid;
        } else {
            hi = mid;
        }
    }
    lo
}

/// Euclidean length of the vector `(dx, dy)`, rounded to the nearest
/// integer with halves rounded up.
fn rounded_dist(dx: i64, dy: i64) -> (r: i64)
    requires
        -2 * COORD_LIMIT <= dx <= 2 * COORD_LIMIT,
        -2 * COORD_LIMIT <= dy <= 2 * COORD_LIMIT,
    ensures
        is_rounded_sqrt(dx * dx + dy * dy, r as int),
        0 <= r <= MAX_COST,
{
    proof {
        assert(COORD_LIMIT == 262144);
        lemma_square_bound(dx as int, 524288);
        lemma_square_bound(dy as int, 524288);
        assert(524288 * 524288 == 274877906944int) by (nonlinear_arith);
    }
    let d: u64 = (dx * dx + dy * dy) as u64;
    let s = floor_sqrt(4 * d);
    let r = ((s + 1) / 2) as i64;
    proof {
        let di = d as int;
        let si = s as int;
        let ri = r as int;
        assert(2 * ri <= si + 1 && si <= 2 * ri);
        if ri == 0 {
            assert(si == 0);
            assert((si + 1) * (si + 1) == 1) by (nonlinear_arith)
                requires
                    si == 0,
            ;
            assert(di == 0);
        } else {
            assert(0 <= 2 * ri - 1 <= si);
            assert((2 * ri - 1) * (2 * ri - 1) <= si * si) by (nonlinear_arith)
                requires
                    0 <= 2 * ri - 1 <= si,
            ;
        }
        assert((si + 1) * (si + 1) <= (2 * ri + 1) * (2 * ri + 1)) by (nonlinear_arith)
            requires
                0 <= si + 1 <= 2 * ri + 1,
        ;
        if ri > MAX_COST {
            assert(2097153 <= 2 * ri - 1);
            assert((2 * ri - 1) * (2 * ri - 1) > 4 * di) by (nonlinear_arith)
                requires
                    2097153 <= 2 * ri - 1,
                    4 * di <= 2199023255552,
            ;
        }
    }
    r
}

/// The square of a value bounded by `b` in magnitude lies in `[0, b * b]`.
proof fn lemma_square_bound(x: int, b: int)
    requires
        -b <= x <= b,
        0 <= b,
    ensures
        0 <= x * x <= b * b,
{
    assert(0 <= x * x <= b * b) by (nonlinear_arith)
        requires
            -b <= x <= b,
            0 <= b,
    ;
}

} // verus!
