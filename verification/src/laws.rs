//! Laws of the solver that hold for every instance, stated over the same
//! spec functions the solver's contracts use and proved once and for all.

use vstd::prelude::*;

use crate::heldkarp::relaxed;
use crate::instance::TspInstance;
use crate::node::Node;
use crate::sums::int_seq_usize;
use crate::sums::pcost_sum;
use crate::tour::is_tour_order;
use crate::tour::path_cost_from;
use crate::tour::tour_cost;
use crate::SCALE;

verus! {

broadcast use crate::sums::lemma_int_seq_usize_index;

/// On a three-node instance there is only one undirected tour, so every
/// valid visiting order costs the sum of the three pairwise distances.
pub proof fn lemma_three_node_cost(inst: TspInstance, order: Seq<usize>)
    requires
        inst.wf(),
        inst.n == 3,
        is_tour_order(3, order),
    ensures
        tour_cost(inst.matrix(), order) == inst.matrix()[0][1] + inst.matrix()[1][2]
            + inst.matrix()[0][2],
{
    let mat = inst.matrix();
    assert(order[0] == 0);
    let a = order[1] as int;
    let b = order[2] as int;
    assert(path_cost_from(mat, order, 2) == 0);
    assert(path_cost_from(mat, order, 1) == mat[a][b]);
    assert(path_cost_from(mat, order, 0) == mat[0][a] + mat[a][b]);
    if a == 1 {
        assert(b == 2);
        assert(mat[2][0] == mat[0][2]);
    } else {
        assert(a == 2 && b == 1);
        assert(mat[0][2] == mat[2][0]);
        assert(mat[2][1] == mat[1][2]);
        assert(mat[1][0] == mat[0][1]);
    }
}

/// Running the solver twice on a three-node instance always reports the
/// same cost: the cost of any valid tour is already determined by the
/// instance.
pub proof fn lemma_three_node_cost_unique(inst: TspInstance, o1: Seq<usize>, o2: Seq<usize>)
    requires
        inst.wf(),
        inst.n == 3,
        is_tour_order(3, o1),
        is_tour_order(3, o2),
    ensures
        tour_cost(inst.matrix(), o1) == tour_cost(inst.matrix(), o2),
{
    lemma_three_node_cost(inst, o1);
    lemma_three_node_cost(inst, o2);
}

/// An open path over `len - 1 - k` edges of equal cost `c` costs that many
/// times `c`.
proof fn lemma_constant_path(mat: Seq<Seq<i64>>, order: Seq<usize>, c: i64, k: int, n: int)
    requires
        order.len() == n,
        forall|i: int, j: int| 0 <= i < n && 0 <= j < n && i != j ==> #[trigger] mat[i][j] == c,
        forall|a: int| 0 <= a < n ==> (#[trigger] order[a]) < n,
        forall|a: int, b: int| 0 <= a < b < n ==> order[a] != order[b],
        0 <= k <= n,
    ensures
        path_cost_from(mat, order, k) == if k >= n - 1 {
            0int
        } else {
            (n - 1 - k) * c
        },
    decreases n - k,
{
    if k < n - 1 {
        lemma_constant_path(mat, order, c, k + 1, n);
        assert(order[k] != order[k + 1]);
        assert(mat[order[k] as int][order[k + 1] as int] == c);
        if k + 1 >= n - 1 {
            assert(path_cost_from(mat, order, k + 1) == 0);
            assert((n - 1 - k) * c == c) by (nonlinear_arith)
                requires
                    n - 1 - k == 1,
            ;
        } else {
            assert((n - 1 - k) * c == (n - 1 - (k + 1)) * c + c) by (nonlinear_arith);
        }
    }
}

/// When every distance equals the same constant `c`, every tour costs
/// `n * c`: the bound and the pruning never depend on costs differing.
pub proof fn lemma_constant_cost_tour(inst: TspInstance, order: Seq<usize>, c: i64)
    requires
        inst.wf(),
        forall|i: int, j: int|
            0 <= i < inst.n && 0 <= j < inst.n && i != j ==> #[trigger] inst.matrix()[i][j] == c,
        is_tour_order(inst.n as int, order),
    ensures
        tour_cost(inst.matrix(), order) == inst.n * c,
{
    let n = inst.n as int;
    let mat = inst.matrix();
    lemma_constant_path(mat, order, c, 0, n);
    assert(order[0] != order[n - 1]);
    assert(mat[order.last() as int][order[0] as int] == c);
    assert((n - 1) * c + c == n * c) by (nonlinear_arith);
}

/// A finished relaxation whose 1-tree has no vertex of degree above 2 is
/// an incumbent: all degrees are exactly 2, and the cost read out of its
/// parent array equals its stored lower bound, scale for scale.  Together
/// with the extractor's contract this says the incumbent's reported tour
/// cost always matches its bound.
pub proof fn lemma_incumbent_bound_matches_cost(inst: TspInstance, nd: Node, reported: i64)
    requires
        inst.wf(),
        nd.wf(inst.n as int),
        relaxed(inst, nd),
        forall|v: int| 0 <= v < inst.n ==> #[trigger] nd.degree@[v] <= 2,
        reported == pcost_sum(inst.matrix(), nd.parent@),
    ensures
        SCALE * reported == nd.lower_bound,
{
    let n = inst.n as int;
    let ds = int_seq_usize(nd.degree@);
    assert forall|k: int| 0 <= k < ds.len() implies 0 <= #[trigger] ds[k] <= 2 by {}
    assert(ds.len() * 2 == 2 * n) by (nonlinear_arith)
        requires
            ds.len() == n,
    ;
    crate::sums::lemma_sum_saturated(ds, 2);
    assert forall|v: int| 1 <= v < n implies #[trigger] nd.degree@[v] == 2 by {
        assert(ds[v] == 2);
    }
}

/// The tour uses no excluded edge: every consecutive pair, the closing
/// edge included, is unexcluded.
pub open spec fn tour_respects(n: int, ex: Seq<Seq<bool>>, order: Seq<usize>) -> bool {
    forall|k: int|
        0 <= k < n ==> !(#[trigger] ex[order[k] as int][order[(k + 1) % n] as int])
}

/// When at most one unexcluded edge remains at vertex 0, no tour respects
/// the exclusions: every tour needs two distinct edges there.  Pruning a
/// subproblem whose relaxation reports a starved vertex 0 therefore
/// discards no tour.
pub proof fn lemma_starved_zero_blocks_tours(
    n: int,
    ex: Seq<Seq<bool>>,
    order: Seq<usize>,
)
    requires
        n >= 3,
        forall|i: int, j: int| 0 <= i < n && 0 <= j < n ==> #[trigger] ex[i][j] == ex[j][i],
        forall|i: int| 0 <= i < n ==> #[trigger] ex[i].len() == n,
        ex.len() == n,
        crate::onetree::zero_vertex_starved(n, ex),
    ensures
        !(is_tour_order(n, order) && tour_respects(n, ex, order)),
{
    if !(is_tour_order(n, order) && tour_respects(n, ex, order)) {
        return;
    }
    let a = order[1] as int;
    let b = order[n - 1] as int;
    assert(order[0] == 0);
    assert(order[1] != order[0] && order[n - 1] != order[0]);
    assert(order[1] != order[n - 1]);
    assert(1 <= a < n && 1 <= b < n && a != b);
    assert(!ex[order[0] as int][order[(0int + 1) % n] as int]);
    assert((0int + 1) % n == 1) by (nonlinear_arith)
        requires
            n >= 3,
    ;
    assert(!ex[0][a]);
    assert(!ex[order[n - 1] as int][order[((n - 1) + 1) % n] as int]);
    assert(((n - 1) + 1) % n == 0) by (nonlinear_arith)
        requires
            n >= 3,
    ;
    assert(!ex[b][0]);
    assert(!ex[0][b]);
    if a < b {
        assert(ex[0][a] || ex[0][b]);
    } else {
        assert(ex[0][b] || ex[0][a]);
    }
}

/// Between a position carrying a cut vertex and a later one carrying a
/// non-cut vertex, some adjacent pair flips from cut to non-cut.
proof fn lemma_status_flip(cut: Seq<bool>, order: Seq<usize>, p: int, q: int)
    requires
        0 <= p < q < order.len(),
        forall|a: int| 0 <= a < order.len() ==> (#[trigger] order[a]) < cut.len(),
        cut[order[p] as int],
        !cut[order[q] as int],
    ensures
        exists|k: int|
            #![trigger order[k]]
            p <= k < q && cut[order[k] as int] && !cut[order[k + 1] as int],
    decreases q - p,
{
    if !cut[order[p + 1] as int] {
        assert(p <= p < q && cut[order[p] as int] && !cut[order[p + 1] as int]);
    } else {
        lemma_status_flip(cut, order, p + 1, q);
    }
}

/// Between a position carrying a non-cut vertex and a later one carrying a
/// cut vertex, some adjacent pair flips from non-cut to cut.
proof fn lemma_status_flip_rev(cut: Seq<bool>, order: Seq<usize>, p: int, q: int)
    requires
        0 <= p < q < order.len(),
        forall|a: int| 0 <= a < order.len() ==> (#[trigger] order[a]) < cut.len(),
        !cut[order[p] as int],
        cut[order[q] as int],
    ensures
        exists|k: int|
            #![trigger order[k]]
            p <= k < q && !cut[order[k] as int] && cut[order[k + 1] as int],
    decreases q - p,
{
    if cut[order[p + 1] as int] {
        assert(p <= p < q && !cut[order[p] as int] && cut[order[p + 1] as int]);
    } else {
        lemma_status_flip_rev(cut, order, p + 1, q);
    }
}

/// A fully excluded cut admits no tour.  A tour starts at vertex 0, so the
/// other `n - 1` positions hold all vertices of `1 .. n`; the cut side and
/// its complement both appear there, and between them some consecutive
/// tour edge joins the two sides without passing through 0 — an edge the
/// cut excludes.
pub proof fn lemma_cut_blocks_tours(n: int, ex: Seq<Seq<bool>>, cut: Seq<bool>, order: Seq<usize>)
    requires
        n >= 3,
        n <= usize::MAX,
        ex.len() == n,
        forall|i: int| 0 <= i < n ==> #[trigger] ex[i].len() == n,
        forall|i: int, j: int| 0 <= i < n && 0 <= j < n ==> #[trigger] ex[i][j] == ex[j][i],
        crate::onetree::excluded_cut(n, ex, cut),
    ensures
        !(is_tour_order(n, order) && tour_respects(n, ex, order)),
{
    if !(is_tour_order(n, order) && tour_respects(n, ex, order)) {
        return;
    }
    // A cut vertex and a non-cut vertex of 1 .. n both stand at positions
    // 1 .. n of the tour.
    let cv = choose|v: int| 1 <= v < n && #[trigger] cut[v];
    assert(1 <= cv < n && cut[cv]);
    let dv = choose|v: int| 1 <= v < n && !(#[trigger] cut[v]);
    assert(1 <= dv < n && !cut[dv]);
    assert(order.contains(cv as usize));
    assert(order.contains(dv as usize));
    let pc = choose|k: int| 0 <= k < order.len() && order[k] == cv as usize;
    assert(0 <= pc < order.len() && order[pc] == cv as usize);
    let pd = choose|k: int| 0 <= k < order.len() && order[k] == dv as usize;
    assert(0 <= pd < order.len() && order[pd] == dv as usize);
    assert(order[pc] as int == cv);
    assert(order[pd] as int == dv);
    assert(order[0] == 0);
    assert(pc != 0 && pd != 0);
    assert(pc != pd);
    if pc < pd {
        lemma_status_flip(cut, order, pc, pd);
        let k = choose|k: int|
            #![trigger order[k]]
            pc <= k < pd && cut[order[k] as int] && !cut[order[k + 1] as int];
        assert(order[k] != order[0] && order[k + 1] != order[0]);
        assert(1 <= order[k] as int && (order[k] as int) < n);
        assert(1 <= order[k + 1] as int && (order[k + 1] as int) < n);
        assert(ex[order[k] as int][order[k + 1] as int]);
        assert((k + 1) % n == k + 1) by (nonlinear_arith)
            requires
                0 <= k + 1 < n,
        ;
        assert(!ex[order[k] as int][order[(k + 1) % n] as int]);
    } else {
        lemma_status_flip_rev(cut, order, pd, pc);
        let k = choose|k: int|
            #![trigger order[k]]
            pd <= k < pc && !cut[order[k] as int] && cut[order[k + 1] as int];
        assert(order[k] != order[0] && order[k + 1] != order[0]);
        assert(1 <= order[k] as int && (order[k] as int) < n);
        assert(1 <= order[k + 1] as int && (order[k + 1] as int) < n);
        assert(ex[order[k + 1] as int][order[k] as int]);
        assert(ex[order[k] as int][order[k + 1] as int]);
        assert((k + 1) % n == k + 1) by (nonlinear_arith)
            requires
                0 <= k + 1 < n,
        ;
        assert(!ex[order[k] as int][order[(k + 1) % n] as int]);
    }
}

/// A blocked subproblem admits no tour at all: whichever witness the
/// relaxation hands back — a starved vertex 0 or a fully excluded cut —
/// excludes every tour.  Pruning a subproblem on `InfeasibleRelaxation`
/// therefore never discards a tour.
pub proof fn lemma_blocked_excludes_tours(n: int, ex: Seq<Seq<bool>>, order: Seq<usize>)
    requires
        n >= 3,
        ex.len() == n,
        forall|i: int| 0 <= i < n ==> #[trigger] ex[i].len() == n,
        forall|i: int, j: int| 0 <= i < n && 0 <= j < n ==> #[trigger] ex[i][j] == ex[j][i],
        n <= usize::MAX,
        crate::onetree::one_tree_blocked(n, ex),
    ensures
        !(is_tour_order(n, order) && tour_respects(n, ex, order)),
{
    if crate::onetree::zero_vertex_starved(n, ex) {
        lemma_starved_zero_blocks_tours(n, ex, order);
    } else {
        let cut = choose|cut: Seq<bool>| crate::onetree::excluded_cut(n, ex, cut);
        lemma_cut_blocks_tours(n, ex, cut, order);
    }
}

/// The tour travels the undirected edge `(x, y)`: some consecutive pair,
/// the closing edge included, is `(x, y)` in either direction.
pub open spec fn tour_uses_edge(n: int, order: Seq<usize>, x: int, y: int) -> bool {
    exists|k: int|
        #![trigger order[k]]
        0 <= k < n && ((order[k] == x && order[(k + 1) % n] == y) || (order[k] == y && order[(k
            + 1) % n] == x))
}

/// A tour has exactly two edges at any vertex: whoever shares an edge with
/// `i` is the tour's predecessor or successor of `i`.
proof fn lemma_tour_partners(n: int, order: Seq<usize>, i: int, x: int, p: int)
    requires
        3 <= n <= usize::MAX,
        is_tour_order(n, order),
        0 <= i < n,
        0 <= x < n,
        x != i,
        0 <= p < n,
        order[p] == i,
        tour_uses_edge(n, order, i, x),
    ensures
        x == order[(p + 1) % n] as int || x == order[(p + n - 1) % n] as int,
{
    let k = choose|k: int|
        #![trigger order[k]]
        0 <= k < n && ((order[k] == i && order[(k + 1) % n] == x) || (order[k] == x && order[(k
            + 1) % n] == i));
    assert(0 <= (k + 1) % n < n) by (nonlinear_arith)
        requires
            0 <= k < n,
            3 <= n,
    ;
    assert(0 <= (p + 1) % n < n && 0 <= (p + n - 1) % n < n) by (nonlinear_arith)
        requires
            0 <= p < n,
            3 <= n,
    ;
    if order[k] == i {
        assert(k == p);
        assert(x == order[(p + 1) % n] as int);
    } else {
        assert(order[(k + 1) % n] == i);
        assert((k + 1) % n == p);
        if k < n - 1 {
            assert((k + 1) % n == k + 1) by (nonlinear_arith)
                requires
                    0 <= k < n - 1,
                    3 <= n,
            ;
            assert(p >= 1 && k == p - 1);
            assert((p + n - 1) % n == p - 1) by (nonlinear_arith)
                requires
                    1 <= p < n,
                    3 <= n,
            ;
        } else {
            assert(k == n - 1);
            assert((k + 1) % n == 0) by (nonlinear_arith)
                requires
                    k == n - 1,
                    3 <= n,
            ;
            assert(p == 0);
            assert((p + n - 1) % n == n - 1) by (nonlinear_arith)
                requires
                    p == 0,
                    3 <= n,
            ;
        }
        assert(x == order[(p + n - 1) % n] as int);
    }
}

/// Branching is exhaustive: a vertex with three or more distinct branch
/// partners has, for any given tour, a partner whose edge the tour does
/// not travel — the child that forbids that edge keeps the tour.
pub proof fn lemma_some_branch_keeps_tour(
    n: int,
    order: Seq<usize>,
    i: int,
    partners: Seq<usize>,
)
    requires
        3 <= n <= usize::MAX,
        is_tour_order(n, order),
        0 <= i < n,
        partners.len() >= 3,
        forall|a: int, b: int| 0 <= a < b < partners.len() ==> partners[a] != partners[b],
        forall|a: int| 0 <= a < partners.len()
            ==> (#[trigger] partners[a]) < n && partners[a] != i,
    ensures
        exists|a: int|
            0 <= a < partners.len() && !tour_uses_edge(n, order, i, #[trigger] partners[a] as int),
{
    assert(order.contains(i as usize));
    let p = choose|k: int| 0 <= k < order.len() && order[k] == i as usize;
    assert(0 <= p < n && order[p] as int == i);
    let succ = order[(p + 1) % n] as int;
    let pred = order[(p + n - 1) % n] as int;
    assert forall|a: int|
        0 <= a < partners.len() && (#[trigger] partners[a]) as int != succ && partners[a] as int
            != pred implies !tour_uses_edge(n, order, i, partners[a] as int) by {
        if tour_uses_edge(n, order, i, partners[a] as int) {
            lemma_tour_partners(n, order, i, partners[a] as int, p);
        }
    }
    // Three distinct partners cannot all lie in a two-element set.
    if partners[0] as int != succ && partners[0] as int != pred {
        assert(!tour_uses_edge(n, order, i, partners[0] as int));
    } else if partners[1] as int != succ && partners[1] as int != pred {
        assert(!tour_uses_edge(n, order, i, partners[1] as int));
    } else {
        assert(partners[0] != partners[1]);
        assert(partners[2] as int != succ && partners[2] as int != pred);
        assert(!tour_uses_edge(n, order, i, partners[2] as int));
    }
}

/// Two tours of the same constant-cost instance have the same cost.
pub proof fn lemma_constant_cost_unique(inst: TspInstance, o1: Seq<usize>, o2: Seq<usize>, c: i64)
    requires
        inst.wf(),
        forall|i: int, j: int|
            0 <= i < inst.n && 0 <= j < inst.n && i != j ==> #[trigger] inst.matrix()[i][j] == c,
        is_tour_order(inst.n as int, o1),
        is_tour_order(inst.n as int, o2),
    ensures
        tour_cost(inst.matrix(), o1) == tour_cost(inst.matrix(), o2),
{
    lemma_constant_cost_tour(inst, o1, c);
    lemma_constant_cost_tour(inst, o2, c);
}

} // verus!
