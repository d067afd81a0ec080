//! Finite sums of integer sequences, together with the small algebra of
//! lemmas the solver's invariants are written with.

use vstd::prelude::*;

verus! {

/// The matrix of a vector of rows, as a sequence of sequences.
pub open spec fn view2<T>(v: Seq<Vec<T>>) -> Seq<Seq<T>> {
    Seq::new(v.len(), |i: int| v[i]@)
}

/// Indexing `view2` is indexing the underlying rows.
pub broadcast proof fn lemma_view2_index<T>(v: Seq<Vec<T>>, i: int)
    requires
        0 <= i < v.len(),
    ensures
        #[trigger] view2(v)[i] == v[i]@,
{
}

/// A sequence of `i64` as a sequence of mathematical integers.
pub open spec fn int_seq(s: Seq<i64>) -> Seq<int> {
    Seq::new(s.len(), |i: int| s[i] as int)
}

/// Indexing `int_seq` is indexing the underlying sequence.
pub broadcast proof fn lemma_int_seq_index(s: Seq<i64>, i: int)
    requires
        0 <= i < s.len(),
    ensures
        #[trigger] int_seq(s)[i] == s[i] as int,
{
}

/// A sequence of `usize` as a sequence of mathematical integers.
pub open spec fn int_seq_usize(s: Seq<usize>) -> Seq<int> {
    Seq::new(s.len(), |i: int| s[i] as int)
}

/// Indexing `int_seq_usize` is indexing the underlying sequence.
pub broadcast proof fn lemma_int_seq_usize_index(s: Seq<usize>, i: int)
    requires
        0 <= i < s.len(),
    ensures
        #[trigger] int_seq_usize(s)[i] == s[i] as int,
{
}

/// Sum of all elements of `s`.
pub open spec fn sum_int(s: Seq<int>) -> int
    decreases s.len(),
{
    if s.len() == 0 {
        0
    } else {
        sum_int(s.drop_last()) + s.last()
    }
}

/// Appending an element adds its value to the sum.
pub proof fn lemma_sum_push(s: Seq<int>, x: int)
    ensures
        sum_int(s.push(x)) == sum_int(s) + x,
{
    assert(s.push(x).drop_last() =~= s);
}

/// Replacing one element shifts the sum by the difference.
pub proof fn lemma_sum_update(s: Seq<int>, i: int, x: int)
    requires
        0 <= i < s.len(),
    ensures
        sum_int(s.update(i, x)) == sum_int(s) + x - s[i],
    decreases s.len(),
{
    if i == s.len() - 1 {
        assert(s.update(i, x).drop_last() =~= s.drop_last());
        assert(s.update(i, x).last() == x);
    } else {
        assert(s.update(i, x).drop_last() =~= s.drop_last().update(i, x));
        lemma_sum_update(s.drop_last(), i, x);
        assert(s.update(i, x).last() == s.last());
    }
}

/// A sum of element-wise bounded values is bounded.
pub proof fn lemma_sum_bounds(s: Seq<int>, lo: int, hi: int)
    requires
        forall|k: int| 0 <= k < s.len() ==> lo <= #[trigger] s[k] <= hi,
    ensures
        s.len() * lo <= sum_int(s) <= s.len() * hi,
    decreases s.len(),
{
    if s.len() > 0 {
        lemma_sum_bounds(s.drop_last(), lo, hi);
        assert((s.len() - 1) * lo + lo == s.len() * lo) by (nonlinear_arith);
        assert((s.len() - 1) * hi + hi == s.len() * hi) by (nonlinear_arith);
    }
}

/// A sum of non-negative values is non-negative.
pub proof fn lemma_sum_nonneg(s: Seq<int>)
    requires
        forall|k: int| 0 <= k < s.len() ==> #[trigger] s[k] >= 0,
    ensures
        sum_int(s) >= 0,
    decreases s.len(),
{
    if s.len() > 0 {
        lemma_sum_nonneg(s.drop_last());
    }
}

/// In a sum of non-negative values, every element is at most the sum.
pub proof fn lemma_sum_elem_le(s: Seq<int>, i: int)
    requires
        forall|k: int| 0 <= k < s.len() ==> #[trigger] s[k] >= 0,
        0 <= i < s.len(),
    ensures
        s[i] <= sum_int(s),
    decreases s.len(),
{
    if i == s.len() - 1 {
        lemma_sum_nonneg(s.drop_last());
    } else {
        lemma_sum_elem_le(s.drop_last(), i);
    }
}

/// A sum of equal values is the value times the length.
pub proof fn lemma_sum_const(s: Seq<int>, c: int)
    requires
        forall|k: int| 0 <= k < s.len() ==> #[trigger] s[k] == c,
    ensures
        sum_int(s) == s.len() * c,
{
    lemma_sum_bounds(s, c, c);
}

/// If every element is between 0 and `c` and the sum reaches `len * c`,
/// every element equals `c`.
pub proof fn lemma_sum_saturated(s: Seq<int>, c: int)
    requires
        forall|k: int| 0 <= k < s.len() ==> 0 <= #[trigger] s[k] <= c,
        sum_int(s) == s.len() * c,
    ensures
        forall|k: int| 0 <= k < s.len() ==> #[trigger] s[k] == c,
{
    assert forall|k: int| 0 <= k < s.len() implies #[trigger] s[k] == c by {
        if s[k] != c {
            lemma_sum_update(s, k, c);
            lemma_sum_bounds(s.update(k, c), 0, c);
        }
    }
}

/// Element-wise shifting by a constant shifts the sum by length times the
/// constant.
pub proof fn lemma_sum_offset(s1: Seq<int>, s2: Seq<int>, c: int)
    requires
        s1.len() == s2.len(),
        forall|k: int| 0 <= k < s1.len() ==> #[trigger] s2[k] == s1[k] + c,
    ensures
        sum_int(s2) == sum_int(s1) + s1.len() * c,
    decreases s1.len(),
{
    if s1.len() > 0 {
        lemma_sum_offset(s1.drop_last(), s2.drop_last(), c);
        assert((s1.len() - 1) * c + c == s1.len() * c) by (nonlinear_arith);
    }
}

/// Element-wise doubling doubles the sum.
pub proof fn lemma_sum_twice(s1: Seq<int>, s2: Seq<int>)
    requires
        s1.len() == s2.len(),
        forall|k: int| 0 <= k < s1.len() ==> #[trigger] s1[k] == 2 * s2[k],
    ensures
        sum_int(s1) == 2 * sum_int(s2),
    decreases s1.len(),
{
    if s1.len() > 0 {
        lemma_sum_twice(s1.drop_last(), s2.drop_last());
    }
}

/// Element-wise products of vertex degrees and multipliers.
pub open spec fn deg_pi_seq(deg: Seq<usize>, pi: Seq<i64>) -> Seq<int> {
    Seq::new(deg.len(), |v: int| (deg[v] as int) * (pi[v] as int))
}

/// `sum_int` of `deg_pi_seq`: each vertex's multiplier counted once per unit
/// of degree.
pub open spec fn deg_pi_sum(deg: Seq<usize>, pi: Seq<i64>) -> int {
    sum_int(deg_pi_seq(deg, pi))
}

pub broadcast proof fn lemma_deg_pi_seq_index(deg: Seq<usize>, pi: Seq<i64>, v: int)
    requires
        0 <= v < deg.len(),
    ensures
        #[trigger] deg_pi_seq(deg, pi)[v] == (deg[v] as int) * (pi[v] as int),
{
}

/// Parent-edge costs restricted to a mask of vertices.
pub open spec fn masked_pcost_seq(
    mat: Seq<Seq<i64>>,
    parent: Seq<usize>,
    mask: Seq<bool>,
) -> Seq<int> {
    Seq::new(parent.len(), |v: int| if mask[v] { mat[v][parent[v] as int] as int } else { 0 })
}

/// Total cost of the masked parent edges.
pub open spec fn masked_pcost_sum(mat: Seq<Seq<i64>>, parent: Seq<usize>, mask: Seq<bool>) -> int {
    sum_int(masked_pcost_seq(mat, parent, mask))
}

pub broadcast proof fn lemma_masked_pcost_seq_index(
    mat: Seq<Seq<i64>>,
    parent: Seq<usize>,
    mask: Seq<bool>,
    v: int,
)
    requires
        0 <= v < parent.len(),
    ensures
        #[trigger] masked_pcost_seq(mat, parent, mask)[v] == if mask[v] {
            mat[v][parent[v] as int] as int
        } else {
            0
        },
{
}

/// Cost of every parent edge: entry `v` is `mat[v][parent[v]]`.
pub open spec fn pcost_seq(mat: Seq<Seq<i64>>, parent: Seq<usize>) -> Seq<int> {
    Seq::new(parent.len(), |v: int| mat[v][parent[v] as int] as int)
}

/// Total cost of the 1-tree encoded by `parent`, counting one edge per
/// vertex.
pub open spec fn pcost_sum(mat: Seq<Seq<i64>>, parent: Seq<usize>) -> int {
    sum_int(pcost_seq(mat, parent))
}

pub broadcast proof fn lemma_pcost_seq_index(mat: Seq<Seq<i64>>, parent: Seq<usize>, v: int)
    requires
        0 <= v < parent.len(),
    ensures
        #[trigger] pcost_seq(mat, parent)[v] == mat[v][parent[v] as int] as int,
{
}

/// Indicator of attachment: 1 for each vertex other than 0 that has entered
/// the tree.
pub open spec fn att01_seq(deg: Seq<usize>) -> Seq<int> {
    Seq::new(deg.len(), |v: int| if v != 0 && deg[v] >= 1 { 1int } else { 0int })
}

/// Number of attached vertices other than 0.
pub open spec fn att_count(deg: Seq<usize>) -> int {
    sum_int(att01_seq(deg))
}

pub broadcast proof fn lemma_att01_seq_index(deg: Seq<usize>, v: int)
    requires
        0 <= v < deg.len(),
    ensures
        #[trigger] att01_seq(deg)[v] == if v != 0 && deg[v] >= 1 { 1int } else { 0int },
{
}

/// Indicator sequence of a boolean vector: 1 where true, 0 where false.
pub open spec fn trues_seq(s: Seq<bool>) -> Seq<int> {
    Seq::new(s.len(), |v: int| if s[v] { 1int } else { 0int })
}

/// Indexing `trues_seq` gives the indicator of the underlying entry.
pub broadcast proof fn lemma_trues_seq_index(s: Seq<bool>, v: int)
    requires
        0 <= v < s.len(),
    ensures
        #[trigger] trues_seq(s)[v] == if s[v] { 1int } else { 0int },
{
}

/// The attachment mask: true for every vertex other than 0 that has entered
/// the tree.
pub open spec fn att_bmask(deg: Seq<usize>) -> Seq<bool> {
    Seq::new(deg.len(), |v: int| v != 0 && deg[v] >= 1)
}

pub broadcast proof fn lemma_att_bmask_index(deg: Seq<usize>, v: int)
    requires
        0 <= v < deg.len(),
    ensures
        #[trigger] att_bmask(deg)[v] == (v != 0 && deg[v] >= 1),
{
}

/// Indicators of the unexcluded entries of one matrix row.
pub open spec fn row_free_seq(row: Seq<bool>) -> Seq<int> {
    Seq::new(row.len(), |j: int| if row[j] { 0int } else { 1int })
}

/// Number of unexcluded entries in one row.
pub open spec fn row_free(row: Seq<bool>) -> int {
    sum_int(row_free_seq(row))
}

/// Per-row counts of unexcluded entries.
pub open spec fn free_rows_seq(ex: Seq<Seq<bool>>) -> Seq<int> {
    Seq::new(ex.len(), |i: int| row_free(ex[i]))
}

/// Number of unexcluded entries of the whole matrix, ordered pairs and the
/// diagonal included.  Excluding one undirected edge lowers it by exactly 2.
pub open spec fn free_count(ex: Seq<Seq<bool>>) -> int {
    sum_int(free_rows_seq(ex))
}

pub broadcast proof fn lemma_row_free_seq_index(row: Seq<bool>, j: int)
    requires
        0 <= j < row.len(),
    ensures
        #[trigger] row_free_seq(row)[j] == if row[j] { 0int } else { 1int },
{
}

pub broadcast proof fn lemma_free_rows_seq_index(ex: Seq<Seq<bool>>, i: int)
    requires
        0 <= i < ex.len(),
    ensures
        #[trigger] free_rows_seq(ex)[i] == row_free(ex[i]),
{
}

} // verus!
