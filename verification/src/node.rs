//! Branch-and-bound subproblems.  A `Node` carries the edge exclusions that
//! define its subproblem, the Lagrangian multipliers of its relaxation, and
//! the 1-tree most recently computed for it.

use vstd::prelude::*;

use crate::sums::int_seq;
use crate::sums::lemma_sum_const;
use crate::sums::view2;
use crate::MAX_N;
use crate::PI_LIMIT;

verus! {

broadcast use crate::sums::lemma_view2_index, crate::sums::lemma_int_seq_index;

/// One subproblem of the search: a set of forbidden edges together with the
/// state of its Held–Karp relaxation.
pub struct Node {
    /// `excluded[i][j]` forbids edge `(i, j)` from any 1-tree of this
    /// subproblem; always symmetric.
    pub excluded: Vec<Vec<bool>>,
    /// Lagrangian multipliers in fixed-point units; `pi[0]` stays zero and
    /// the multipliers always sum to zero.
    pub pi: Vec<i64>,
    /// Lower bound of the most recent relaxation, in fixed-point units.
    pub lower_bound: i64,
    /// Vertex degrees of the most recently computed 1-tree.
    pub degree: Vec<usize>,
    /// Rooted encoding of that 1-tree: vertex `v` attaches to `parent[v]`.
    pub parent: Vec<usize>,
}

impl Node {
    /// The exclusion matrix as a mathematical value.
    pub open spec fn excl(self) -> Seq<Seq<bool>> {
        view2(self.excluded@)
    }

    /// All five arrays have the instance's size.
    pub open spec fn shape_wf(self, n: int) -> bool {
        &&& self.excl().len() == n
        &&& forall|i: int| 0 <= i < n ==> #[trigger] self.excl()[i].len() == n
        &&& self.pi@.len() == n
        &&& self.degree@.len() == n
        &&& self.parent@.len() == n
    }

    /// The exclusion matrix is symmetric.
    pub open spec fn excl_symmetric(self, n: int) -> bool {
        forall|i: int, j: int| 0 <= i < n && 0 <= j < n
            ==> #[trigger] self.excl()[i][j] == self.excl()[j][i]
    }

    /// The multipliers are bounded, anchored at vertex 0, and sum to zero.
    pub open spec fn pi_wf(self, n: int) -> bool {
        &&& self.pi@[0] == 0
        &&& forall|v: int| 0 <= v < n ==> -PI_LIMIT <= #[trigger] self.pi@[v] <= PI_LIMIT
        &&& crate::sums::sum_int(int_seq(self.pi@)) == 0
    }

    /// Full well-formedness of a node for an instance with `n` vertices.
    pub open spec fn wf(self, n: int) -> bool {
        &&& self.shape_wf(n)
        &&& self.excl_symmetric(n)
        &&& self.pi_wf(n)
    }

    /// The root subproblem: nothing excluded, multipliers zero, no 1-tree
    /// computed yet.
    pub fn root(n: usize) -> (r: Node)
        requires
            3 <= n <= MAX_N,
        ensures
            r.wf(n as int),
            forall|i: int, j: int| 0 <= i < n && 0 <= j < n ==> !(#[trigger] r.excl()[i][j]),
            forall|v: int| 0 <= v < n ==> #[trigger] r.pi@[v] == 0,
            forall|v: int| 0 <= v < n ==> #[trigger] r.degree@[v] == 0,
            forall|v: int| 0 <= v < n ==> #[trigger] r.parent@[v] == 0,
            r.lower_bound == 0,
    {
        let mut excluded: Vec<Vec<bool>> = Vec::new();
        let mut i: usize = 0;
        while i < n
            invariant
                i <= n,
                excluded@.len() == i,
                forall|a: int| 0 <= a < i ==> (#[trigger] excluded@[a])@.len() == n,
                forall|a: int, b: int| 0 <= a < i && 0 <= b < n
                    ==> !(#[trigger] excluded@[a]@[b]),
            decreases n - i,
        {
            let mut row: Vec<bool> = Vec::new();
            let mut j: usize = 0;
            while j < n
                invariant
                    j <= n,
                    row@.len() == j,
                    forall|b: int| 0 <= b < j ==> !(#[trigger] row@[b]),
                decreases n - j,
            {
                row.push(false);
                j += 1;
            }
            excluded.push(row);
            i += 1;
        }
        let pi = zero_i64_vec(n);
        let degree = zero_usize_vec(n);
        let parent = zero_usize_vec(n);
        let r = Node { excluded, pi, lower_bound: 0, degree, parent };
        proof {
            assert forall|a: int| 0 <= a < n implies #[trigger] r.excl()[a].len() == n by {
                assert(r.excl()[a] == r.excluded@[a]@);
            }
            assert forall|a: int, b: int| 0 <= a < n && 0 <= b < n implies !(
            #[trigger] r.excl()[a][b]) by {
                assert(r.excl()[a] == r.excluded@[a]@);
            }
            lemma_sum_const(int_seq(r.pi@), 0);
        }
        r
    }

    /// A fresh subproblem derived from this one by additionally forbidding
    /// the edge `(a, b)`.  The relaxation state is reset; the caller runs a
    /// new relaxation on the child.  The receiver is not modified, so it can
    /// derive any number of siblings.
    pub fn excluding(&self, a: usize, b: usize) -> (r: Node)
        requires
            self.shape_wf(self.excluded@.len() as int),
            self.excl_symmetric(self.excluded@.len() as int),
            3 <= self.excluded@.len() <= MAX_N,
            a < self.excluded@.len(),
            b < self.excluded@.len(),
            a != b,
        ensures
            r.wf(self.excluded@.len() as int),
            forall|i: int, j: int|
                0 <= i < self.excluded@.len() && 0 <= j < self.excluded@.len()
                    ==> #[trigger] r.excl()[i][j]
                        == (self.excl()[i][j] || (i == a && j == b) || (i == b && j == a)),
            forall|v: int| 0 <= v < self.excluded@.len() ==> #[trigger] r.pi@[v] == 0,
            r.lower_bound == 0,
    {
        let n = self.excluded.len();
        let mut excluded = copy_bool_matrix(&self.excluded);
        proof {
            assert(excluded@[a as int]@ == self.excluded@[a as int]@);
            assert(excluded@[b as int]@ == self.excluded@[b as int]@);
            assert(self.excl()[a as int] == self.excluded@[a as int]@);
            assert(self.excl()[b as int] == self.excluded@[b as int]@);
        }
        excluded[a][b] = true;
        excluded[b][a] = true;
        let pi = zero_i64_vec(n);
        let degree = zero_usize_vec(n);
        let parent = zero_usize_vec(n);
        let r = Node { excluded, pi, lower_bound: 0, degree, parent };
        proof {
            assert forall|i: int, j: int| 0 <= i < n && 0 <= j < n implies #[trigger] r.excl(
            )[i][j] == (self.excl()[i][j] || (i == a && j == b) || (i == b && j == a)) by {
                assert(r.excl()[i] == r.excluded@[i]@);
                assert(self.excl()[i] == self.excluded@[i]@);
            }
            assert forall|i: int| 0 <= i < n implies #[trigger] r.excl()[i].len() == n by {
                assert(r.excl()[i] == r.excluded@[i]@);
                assert(self.excl()[i] == self.excluded@[i]@);
            }
            lemma_sum_const(int_seq(r.pi@), 0);
        }
        r
    }

    /// An independent copy of this node.
    pub fn duplicate(&self) -> (r: Node)
        ensures
            r.excl() == self.excl(),
            r.pi@ == self.pi@,
            r.lower_bound == self.lower_bound,
            r.degree@ == self.degree@,
            r.parent@ == self.parent@,
    {
        let r = Node {
            excluded: copy_bool_matrix(&self.excluded),
            pi: copy_vec_i64(&self.pi),
            lower_bound: self.lower_bound,
            degree: copy_vec_usize(&self.degree),
            parent: copy_vec_usize(&self.parent),
        };
        proof {
            assert(r.excl() =~= self.excl());
        }
        r
    }

    /// Lower bound of the most recent relaxation, in fixed-point units.
    pub fn bound(&self) -> (r: i64)
        ensures
            r == self.lower_bound,
    {
        self.lower_bound
    }

    /// Degree of vertex `v` in the most recent 1-tree.
    pub fn degree_of(&self, v: usize) -> (r: usize)
        requires
            v < self.degree@.len(),
        ensures
            r == self.degree@[v as int],
    {
        self.degree[v]
    }

    /// The vertex that `v` attaches to in the most recent 1-tree.
    pub fn parent_of(&self, v: usize) -> (r: usize)
        requires
            v < self.parent@.len(),
        ensures
            r == self.parent@[v as int],
    {
        self.parent[v]
    }
}

/// A vector of `n` zeros.
pub(crate) fn zero_i64_vec(n: usize) -> (r: Vec<i64>)
    ensures
        r@.len() == n,
        forall|v: int| 0 <= v < n ==> #[trigger] r@[v] == 0,
{
    let mut r: Vec<i64> = Vec::new();
    let mut k: usize = 0;
    while k < n
        invariant
            k <= n,
            r@.len() == k,
            forall|v: int| 0 <= v < k ==> #[trigger] r@[v] == 0,
        decreases n - k,
    {
        r.push(0);
        k += 1;
    }
    r
}

/// A vector of `n` zeros.
pub(crate) fn zero_usize_vec(n: usize) -> (r: Vec<usize>)
    ensures
        r@.len() == n,
        forall|v: int| 0 <= v < n ==> #[trigger] r@[v] == 0,
{
    let mut r: Vec<usize> = Vec::new();
    let mut k: usize = 0;
    while k < n
        invariant
            k <= n,
            r@.len() == k,
            forall|v: int| 0 <= v < k ==> #[trigger] r@[v] == 0,
        decreases n - k,
    {
        r.push(0);
        k += 1;
    }
    r
}

/// An element-wise copy of a vector of `i64`.
pub(crate) fn copy_vec_i64(v: &Vec<i64>) -> (r: Vec<i64>)
    ensures
        r@ == v@,
{
    let mut r: Vec<i64> = Vec::new();
    let mut k: usize = 0;
    while k < v.len()
        invariant
            k <= v@.len(),
            r@.len() == k,
            forall|a: int| 0 <= a < k ==> #[trigger] r@[a] == v@[a],
        decreases v@.len() - k,
    {
        r.push(v[k]);
        k += 1;
    }
    proof {
        assert(r@ =~= v@);
    }
    r
}

/// An element-wise copy of a vector of `usize`.
pub(crate) fn copy_vec_usize(v: &Vec<usize>) -> (r: Vec<usize>)
    ensures
        r@ == v@,
{
    let mut r: Vec<usize> = Vec::new();
    let mut k: usize = 0;
    while k < v.len()
        invariant
            k <= v@.len(),
            r@.len() == k,
            forall|a: int| 0 <= a < k ==> #[trigger] r@[a] == v@[a],
        decreases v@.len() - k,
    {
        r.push(v[k]);
        k += 1;
    }
    proof {
        assert(r@ =~= v@);
    }
    r
}

/// A row-wise copy of a boolean matrix.
pub(crate) fn copy_bool_matrix(v: &Vec<Vec<bool>>) -> (r: Vec<Vec<bool>>)
    ensures
        r@.len() == v@.len(),
        forall|a: int| 0 <= a < v@.len() ==> #[trigger] r@[a]@ == v@[a]@,
{
    let mut r: Vec<Vec<bool>> = Vec::new();
    let mut i: usize = 0;
    while i < v.len()
        invariant
            i <= v@.len(),
            r@.len() == i,
            forall|a: int| 0 <= a < i ==> #[trigger] r@[a]@ == v@[a]@,
        decreases v@.len() - i,
    {
        let mut row: Vec<bool> = Vec::new();
        let mut j: usize = 0;
        while j < v[i].len()
            invariant
                i < v@.len(),
                j <= v@[i as int]@.len(),
                row@.len() == j,
                forall|b: int| 0 <= b < j ==> #[trigger] row@[b] == v@[i as int]@[b],
            decreases v@[i as int]@.len() - j,
        {
            row.push(v[i][j]);
            j += 1;
        }
        proof {
            assert(row@ =~= v@[i as int]@);
        }
        r.push(row);
        i += 1;
    }
    r
}

} // verus!
