//! Minimum 1-trees.  A 1-tree on vertices `0 .. n` is a spanning tree on
//! `1 .. n` plus the two cheapest edges at vertex 0; its adjusted cost is a
//! lower bound on every tour that respects the node's exclusions.

use vstd::prelude::*;

use crate::instance::TspInstance;
use crate::node::Node;
use crate::sums::att01_seq;
use crate::sums::att_bmask;
use crate::sums::att_count;
use crate::sums::deg_pi_seq;
use crate::sums::deg_pi_sum;
use crate::sums::lemma_sum_update;
use crate::sums::masked_pcost_seq;
use crate::sums::masked_pcost_sum;
use crate::sums::pcost_seq;
use crate::sums::pcost_sum;
use crate::sums::sum_int;
use crate::MAX_N;
use crate::SCALE;

verus! {

broadcast use
    crate::sums::lemma_view2_index,
    crate::sums::lemma_int_seq_index,
    crate::sums::lemma_int_seq_usize_index,
    crate::sums::lemma_deg_pi_seq_index,
    crate::sums::lemma_masked_pcost_seq_index,
    crate::sums::lemma_pcost_seq_index,
    crate::sums::lemma_att01_seq_index,
    crate::sums::lemma_att_bmask_index;

/// Adjusted cost of edge `(i, j)`: the matrix entry in fixed-point units
/// plus the multipliers of both endpoints.
pub open spec fn cw(mat: Seq<Seq<i64>>, pi: Seq<i64>, i: int, j: int) -> int {
    SCALE * mat[i][j] + pi[i] + pi[j]
}

/// Incrementing one vertex's degree adds that vertex's multiplier to the
/// degree-weighted multiplier sum.
pub proof fn lemma_deg_pi_incr(deg: Seq<usize>, pi: Seq<i64>, v: int)
    requires
        pi.len() == deg.len(),
        0 <= v < deg.len(),
        deg[v] < 100000,
    ensures
        deg_pi_sum(deg.update(v, (deg[v] + 1) as usize), pi) == deg_pi_sum(deg, pi) + pi[v],
{
    let s = deg_pi_seq(deg, pi);
    let d2 = deg.update(v, (deg[v] + 1) as usize);
    let s2 = deg_pi_seq(d2, pi);
    assert(((deg[v] + 1) as usize as int) * (pi[v] as int)
        == (deg[v] as int) * (pi[v] as int) + pi[v]) by (nonlinear_arith)
        requires
            0 <= deg[v] < 100000,
    ;
    assert(s2 =~= s.update(v, (deg[v] as int) * (pi[v] as int) + pi[v]));
    lemma_sum_update(s, v, (deg[v] as int) * (pi[v] as int) + pi[v]);
}

/// Attaching vertex `v` (setting its mask bit) adds its parent-edge cost to
/// the masked sum.
pub proof fn lemma_masked_flip(mat: Seq<Seq<i64>>, parent: Seq<usize>, mask: Seq<bool>, v: int)
    requires
        mask.len() == parent.len(),
        0 <= v < parent.len(),
        !mask[v],
    ensures
        masked_pcost_sum(mat, parent, mask.update(v, true)) == masked_pcost_sum(mat, parent, mask)
            + mat[v][parent[v] as int],
{
    let s = masked_pcost_seq(mat, parent, mask);
    let s2 = masked_pcost_seq(mat, parent, mask.update(v, true));
    assert(s2 =~= s.update(v, mat[v][parent[v] as int] as int));
    lemma_sum_update(s, v, mat[v][parent[v] as int] as int);
}

/// Re-routing an unmasked vertex's parent edge does not change the masked
/// sum.
pub proof fn lemma_masked_parent_irrelevant(
    mat: Seq<Seq<i64>>,
    parent: Seq<usize>,
    mask: Seq<bool>,
    v: int,
    x: usize,
)
    requires
        mask.len() == parent.len(),
        0 <= v < parent.len(),
        !mask[v],
    ensures
        masked_pcost_sum(mat, parent.update(v, x), mask) == masked_pcost_sum(mat, parent, mask),
{
    assert(masked_pcost_seq(mat, parent.update(v, x), mask) =~= masked_pcost_seq(
        mat,
        parent,
        mask,
    ));
}

/// Rounding a fixed-point value to the nearest whole multiple of `SCALE`,
/// halves away from zero.
pub open spec fn round_to_scale(x: int) -> int {
    if x >= 0 {
        ((x + SCALE / 2) / (SCALE as int)) * SCALE
    } else {
        -((((-x) + SCALE / 2) / (SCALE as int)) * SCALE)
    }
}

/// Rounding a whole multiple of `SCALE` returns it unchanged.
pub proof fn lemma_round_multiple(c: int)
    requires
        0 <= c,
    ensures
        round_to_scale(SCALE * c) == SCALE * c,
{
    let s = SCALE as int;
    assert(s == 1024);
    assert((s * c + 512) / s == c) by (nonlinear_arith)
        requires
            s == 1024,
            0 <= c,
    ;
    assert((s * c + 512) / s * s == s * c) by (nonlinear_arith)
        requires
            s == 1024,
            0 <= c,
            (s * c + 512) / s == c,
    ;
}

/// No off-diagonal edge of the subproblem is forbidden; the root of the
/// search is in this state.
pub open spec fn nothing_excluded(n: int, ex: Seq<Seq<bool>>) -> bool {
    forall|i: int, j: int| 0 <= i < n && 0 <= j < n && i != j ==> !(#[trigger] ex[i][j])
}

/// On three vertices, the parent array encodes the unique triangle tour:
/// following parents from vertex 0 visits both other vertices and returns.
pub open spec fn rooted_three_cycle(parent: Seq<usize>) -> bool {
    &&& parent.len() == 3
    &&& 1 <= parent[0] < 3
    &&& 1 <= parent[parent[0] as int] < 3
    &&& parent[parent[0] as int] != parent[0]
    &&& parent[parent[parent[0] as int] as int] == 0
}

/// At most one unexcluded edge remains at vertex 0.  Every 1-tree needs
/// two distinct edges there, so none exists.
pub open spec fn zero_vertex_starved(n: int, ex: Seq<Seq<bool>>) -> bool {
    forall|a: int, b: int| #![trigger ex[0][a], ex[0][b]]
        1 <= a < b < n ==> ex[0][a] || ex[0][b]
}

/// A set of vertices (those with `cut[v]` set), not containing 0, that
/// splits `1 .. n` into two non-empty sides with every edge between the
/// sides excluded.  A spanning tree over `1 .. n` would have to cross the
/// cut, so no 1-tree exists under these exclusions.
pub open spec fn excluded_cut(n: int, ex: Seq<Seq<bool>>, cut: Seq<bool>) -> bool {
    &&& cut.len() == n
    &&& !cut[0]
    &&& exists|v: int| 1 <= v < n && #[trigger] cut[v]
    &&& exists|v: int| 1 <= v < n && !(#[trigger] cut[v])
    &&& forall|s: int, t: int|
        1 <= s < n && 1 <= t < n && cut[s] && !cut[t] ==> #[trigger] ex[s][t]
}

/// A structural witness that the exclusions admit no 1-tree: either vertex
/// 0 is starved of edges, or some set of vertices is cut off entirely.
pub open spec fn one_tree_blocked(n: int, ex: Seq<Seq<bool>>) -> bool {
    ||| zero_vertex_starved(n, ex)
    ||| exists|cut: Seq<bool>| excluded_cut(n, ex, cut)
}

/// `f` and `s` carry the two cheapest unexcluded adjusted edge costs at
/// vertex 0, `f` no dearer than `s`, and the parent encoding records them
/// as the two edges at 0.
pub open spec fn cheapest_pair(
    n: int,
    mat: Seq<Seq<i64>>,
    pi: Seq<i64>,
    ex: Seq<Seq<bool>>,
    parent: Seq<usize>,
    f: int,
    s: int,
) -> bool {
    &&& 1 <= f < n && 1 <= s < n && f != s
    &&& parent[f] == 0
    &&& parent[0] == s
    &&& !ex[0][f] && !ex[0][s]
    &&& cw(mat, pi, 0, f) <= cw(mat, pi, 0, s)
    &&& forall|v: int|
        1 <= v < n && v != f && !ex[0][v] ==> cw(mat, pi, 0, f) <= #[trigger] cw(mat, pi, 0, v)
    &&& forall|v: int|
        1 <= v < n && v != f && v != s && !ex[0][v] ==> cw(mat, pi, 0, s) <= #[trigger] cw(
            mat,
            pi,
            0,
            v,
        )
}

/// Degree and parent-edge accounting of a freshly computed 1-tree: every
/// vertex attached, vertex 0 of degree exactly 2, degrees summing to twice
/// the edge count, and every parent edge pointing at a distinct vertex
/// along an edge the node has not excluded.  Connectivity — that the edges
/// form one spanning tree plus the closing cycle at vertex 0 — is a
/// property of the construction that this predicate does not state.
pub open spec fn one_tree_degrees(n: int, nd: Node) -> bool {
    &&& nd.degree@.len() == n
    &&& nd.parent@.len() == n
    &&& forall|v: int| 0 <= v < n ==> 1 <= #[trigger] nd.degree@[v] && nd.degree@[v] <= 2 * n
    &&& nd.degree@[0] == 2
    &&& sum_int(crate::sums::int_seq_usize(nd.degree@)) == 2 * n
    &&& forall|v: int| 0 <= v < n
        ==> (#[trigger] nd.parent@[v]) < n && nd.parent@[v] != v
            && !nd.excl()[v][nd.parent@[v] as int]
}

/// The lower bound stored in a node is exactly the rounded adjusted cost of
/// the 1-tree its `parent` array encodes.
pub open spec fn one_tree_bound_eq(mat: Seq<Seq<i64>>, nd: Node) -> bool {
    nd.lower_bound == round_to_scale(
        SCALE * pcost_sum(mat, nd.parent@) + deg_pi_sum(nd.degree@, nd.pi@),
    )
}

/// Adjusted cost of edge `(i, j)` as an executable value.
fn adjusted_cost(inst: &TspInstance, pi: &Vec<i64>, i: usize, j: usize) -> (c: i64)
    requires
        inst.wf(),
        pi@.len() == inst.n,
        forall|v: int| 0 <= v < inst.n ==> -crate::PI_LIMIT <= #[trigger] pi@[v]
            <= crate::PI_LIMIT,
        i < inst.n,
        j < inst.n,
    ensures
        c == cw(inst.matrix(), pi@, i as int, j as int),
        -crate::CW_LIMIT <= c <= crate::CW_LIMIT,
{
    proof {
        assert(inst.matrix()[i as int] == inst.cost@[i as int]@);
        assert(0 <= inst.matrix()[i as int][j as int] <= crate::MAX_COST);
    }
    SCALE * inst.cost[i][j] + pi[i] + pi[j]
}

/// Adds edge `(i, j)` to the node's accumulating 1-tree: charges its
/// adjusted cost to the lower bound and raises both endpoint degrees.
fn add_edge(inst: &TspInstance, node: &mut Node, i: usize, j: usize)
    requires
        inst.wf(),
        old(node).shape_wf(inst.n as int),
        forall|v: int| 0 <= v < inst.n ==> -crate::PI_LIMIT <= #[trigger] old(node).pi@[v]
            <= crate::PI_LIMIT,
        i < inst.n,
        j < inst.n,
        i != j,
        old(node).degree@[i as int] < 2 * MAX_N,
        old(node).degree@[j as int] < 2 * MAX_N,
        -511 * crate::CW_LIMIT <= old(node).lower_bound <= 511 * crate::CW_LIMIT,
    ensures
        final(node).lower_bound == old(node).lower_bound + cw(
            inst.matrix(),
            old(node).pi@,
            i as int,
            j as int,
        ),
        final(node).degree@ == old(node).degree@.update(
            i as int,
            (old(node).degree@[i as int] + 1) as usize,
        ).update(j as int, (old(node).degree@[j as int] + 1) as usize),
        final(node).excluded == old(node).excluded,
        final(node).pi == old(node).pi,
        final(node).parent == old(node).parent,
{
    let c = adjusted_cost(inst, &node.pi, i, j);
    node.lower_bound = node.lower_bound + c;
    let di = node.degree[i];
    node.degree[i] = di + 1;
    let dj = node.degree[j];
    node.degree[j] = dj + 1;
}

/// A vector of `n` copies of `val`.
fn filled_usize_vec(n: usize, val: usize) -> (r: Vec<usize>)
    ensures
        r@.len() == n,
        forall|v: int| 0 <= v < n ==> #[trigger] r@[v] == val,
{
    let mut r: Vec<usize> = Vec::new();
    let mut k: usize = 0;
    while k < n
        invariant
            k <= n,
            r@.len() == k,
            forall|v: int| 0 <= v < k ==> #[trigger] r@[v] == val,
        decreases n - k,
    {
        r.push(val);
        k += 1;
    }
    r
}

/// Rounds a fixed-point lower bound to the nearest whole multiple of
/// `SCALE`.
fn round_lower_bound(x: i64) -> (r: i64)
    requires
        -512 * crate::CW_LIMIT <= x <= 512 * crate::CW_LIMIT,
    ensures
        r == round_to_scale(x as int),
        -crate::LB_LIMIT <= r <= crate::LB_LIMIT,
{
    if x >= 0 {
        let q = ((x as u64) + 512) / 1024;
        let r = (q * 1024) as i64;
        proof {
            assert(q * 1024 <= (x as u64) + 512) by (nonlinear_arith)
                requires
                    q == ((x as u64) + 512) / 1024,
            ;
        }
        r
    } else {
        let m = (-x) as u64;
        let q = (m + 512) / 1024;
        proof {
            assert(q * 1024 <= m + 512) by (nonlinear_arith)
                requires
                    q == (m + 512) / 1024,
            ;
        }
        let r = -((q * 1024) as i64);
        r
    }
}

/// Computes the minimum 1-tree of the node's subproblem under its current
/// multipliers: the two cheapest unexcluded edges at vertex 0 plus a
/// minimum spanning tree over the remaining vertices, built by Prim's
/// method.  On success the node's `parent`, `degree` and `lower_bound`
/// describe the new 1-tree; the exclusions and multipliers are untouched.
/// Fails with `InfeasibleRelaxation` when the exclusions leave some vertex
/// unreachable, in which case the subproblem admits no 1-tree built this
/// way and the caller prunes it.
pub fn compute_one_tree(inst: &TspInstance, node: &mut Node) -> (r: Result<(), crate::SolveError>)
    requires
        inst.wf(),
        old(node).wf(inst.n as int),
    ensures
        final(node).wf(inst.n as int),
        final(node).excl() == old(node).excl(),
        final(node).pi@ == old(node).pi@,
        match r {
            Ok(()) => {
                &&& one_tree_degrees(inst.n as int, *final(node))
                &&& one_tree_bound_eq(inst.matrix(), *final(node))
                &&& -crate::LB_LIMIT <= final(node).lower_bound <= crate::LB_LIMIT
            },
            Err(e) => e == crate::SolveError::InfeasibleRelaxation,
        },
        nothing_excluded(inst.n as int, old(node).excl()) ==> r is Ok,
        r is Err ==> one_tree_blocked(inst.n as int, old(node).excl()),
        r is Ok ==> exists|f: int, s: int|
            cheapest_pair(
                inst.n as int,
                inst.matrix(),
                old(node).pi@,
                old(node).excl(),
                final(node).parent@,
                f,
                s,
            ),
        inst.n == 3 && r is Ok ==> (forall|v: int| 0 <= v < 3 ==> final(node).degree@[v] == 2)
            && rooted_three_cycle(final(node).parent@),
{
    let n = inst.n;
    let ghost mat = inst.matrix();
    let ghost excl0 = old(node).excl();
    let ghost pi0 = old(node).pi@;
    proof {
        assert(crate::CW_LIMIT == 2200096997376);
    }

    // Scan for the two cheapest unexcluded edges at vertex 0.
    let mut first_opt: Option<usize> = None;
    let mut second_opt: Option<usize> = None;
    let mut j: usize = 1;
    while j < n
        invariant
            inst.wf(),
            n == inst.n,
            node.wf(n as int),
            node.excl() == excl0,
            node.pi@ == pi0,
            mat == inst.matrix(),
            1 <= j <= n,
            match first_opt {
                Some(f) => 1 <= f < j && !excl0[0][f as int],
                None => second_opt is None,
            },
            match second_opt {
                Some(s) => {
                    &&& 1 <= s < j
                    &&& !excl0[0][s as int]
                    &&& first_opt is Some
                    &&& s != first_opt->0
                },
                None => true,
            },
            nothing_excluded(n as int, excl0) && j >= 2 ==> first_opt is Some,
            nothing_excluded(n as int, excl0) && j >= 3 ==> second_opt is Some,
            first_opt is None ==> forall|v: int| 1 <= v < j ==> #[trigger] excl0[0][v],
            first_opt is Some ==> forall|v: int|
                1 <= v < j && !excl0[0][v] ==> cw(mat, pi0, 0, first_opt->0 as int)
                    <= #[trigger] cw(mat, pi0, 0, v),
            first_opt is Some && second_opt is None ==> forall|v: int|
                1 <= v < j && v != first_opt->0 ==> #[trigger] excl0[0][v],
            second_opt is Some ==> cw(mat, pi0, 0, first_opt->0 as int) <= cw(
                mat,
                pi0,
                0,
                second_opt->0 as int,
            ),
            second_opt is Some ==> forall|v: int|
                1 <= v < j && v != first_opt->0 && !excl0[0][v] ==> cw(
                    mat,
                    pi0,
                    0,
                    second_opt->0 as int,
                ) <= #[trigger] cw(mat, pi0, 0, v),
        decreases n - j,
    {
        proof {
            assert(node.excl()[0] == node.excluded@[0]@);
        }
        if !node.excluded[0][j] {
            match first_opt {
                None => { first_opt = Some(j); },
                Some(f) => {
                    let c = adjusted_cost(inst, &node.pi, 0, j);
                    let cf = adjusted_cost(inst, &node.pi, 0, f);
                    if c < cf {
                        second_opt = first_opt;
                        first_opt = Some(j);
                    } else {
                        match second_opt {
                            None => { second_opt = Some(j); },
                            Some(s) => {
                                let cs = adjusted_cost(inst, &node.pi, 0, s);
                                if c < cs {
                                    second_opt = Some(j);
                                }
                            },
                        }
                    }
                },
            }
        }
        j += 1;
    }
    let (first, second) = match (first_opt, second_opt) {
        (Some(f), Some(s)) => (f, s),
        _ => {
            proof {
                // Fewer than two unexcluded edges at vertex 0 were found.
                if first_opt is None {
                    assert forall|a: int, b: int| #![trigger excl0[0][a], excl0[0][b]]
                        1 <= a < b < n implies excl0[0][a] || excl0[0][b] by {
                        assert(excl0[0][a]);
                    }
                } else {
                    let f = first_opt->0;
                    assert forall|a: int, b: int| #![trigger excl0[0][a], excl0[0][b]]
                        1 <= a < b < n implies excl0[0][a] || excl0[0][b] by {
                        if a != f {
                            assert(excl0[0][a]);
                        } else {
                            assert(excl0[0][b]);
                        }
                    }
                }
                assert(zero_vertex_starved(n as int, excl0));
            }
            return Err(crate::SolveError::InfeasibleRelaxation);
        },
    };

    // Initialise the relaxation state: no edges yet, every vertex tentatively
    // attaching to `first`.
    node.degree = crate::node::zero_usize_vec(n);
    node.lower_bound = 0;
    node.parent = filled_usize_vec(n, first);
    node.parent[first] = 0;

    proof {
        crate::sums::lemma_sum_bounds(deg_pi_seq(node.degree@, pi0), 0, 0);
        crate::sums::lemma_sum_bounds(
            masked_pcost_seq(mat, node.parent@, att_bmask(node.degree@)),
            0,
            0,
        );
        crate::sums::lemma_sum_bounds(att01_seq(node.degree@), 0, 0);
        crate::sums::lemma_sum_bounds(crate::sums::int_seq_usize(node.degree@), 0, 0);
    }

    // Edge (0, first).
    let ghost deg_a = node.degree@;
    add_edge(inst, node, 0, first);
    proof {
        let deg_b = deg_a.update(0, 1usize);
        let deg_c = deg_b.update(first as int, 1usize);
        assert(node.degree@ == deg_c);
        lemma_deg_pi_incr(deg_a, pi0, 0);
        lemma_deg_pi_incr(deg_b, pi0, first as int);
        assert(deg_pi_sum(node.degree@, pi0) == pi0[0] + pi0[first as int]);
        // The mask gains exactly `first`.
        assert(att_bmask(deg_c) =~= att_bmask(deg_a).update(first as int, true));
        lemma_masked_flip(mat, node.parent@, att_bmask(deg_a), first as int);
        assert(mat[first as int][0] == mat[0][first as int]);
        assert(node.lower_bound == SCALE * masked_pcost_sum(
            mat,
            node.parent@,
            att_bmask(node.degree@),
        ) + deg_pi_sum(node.degree@, pi0));
        // Attachment count reaches 1.
        assert(att01_seq(deg_c) =~= att01_seq(deg_a).update(first as int, 1int));
        lemma_sum_update(att01_seq(deg_a), first as int, 1int);
        assert(att_count(node.degree@) == 1);
        // Degree sum reaches 2.
        assert(crate::sums::int_seq_usize(deg_b) =~= crate::sums::int_seq_usize(deg_a).update(
            0,
            1int,
        ));
        lemma_sum_update(crate::sums::int_seq_usize(deg_a), 0, 1int);
        assert(crate::sums::int_seq_usize(deg_c) =~= crate::sums::int_seq_usize(deg_b).update(
            first as int,
            1int,
        ));
        lemma_sum_update(crate::sums::int_seq_usize(deg_b), first as int, 1int);
        assert(sum_int(crate::sums::int_seq_usize(node.degree@)) == 2);
    }

    // Tentative connection costs from `first` into the unattached vertices.
    let mut linked: Vec<bool> = Vec::new();
    let mut link_cost: Vec<i64> = Vec::new();
    let mut k: usize = 0;
    while k < n
        invariant
            inst.wf(),
            n == inst.n,
            node.shape_wf(n as int),
            node.excl() == excl0,
            node.pi@ == pi0,
            forall|v: int| 0 <= v < n ==> -crate::PI_LIMIT <= #[trigger] pi0[v]
                <= crate::PI_LIMIT,
            first < n,
            k <= n,
            linked@.len() == k,
            link_cost@.len() == k,
            forall|v: int| 0 <= v < k
                ==> (#[trigger] linked@[v] <==> (v != 0 && v != first && !excl0[first as int][v])),
        decreases n - k,
    {
        proof {
            assert(node.excl()[first as int] == node.excluded@[first as int]@);
        }
        if k != 0 && k != first && !node.excluded[first][k] {
            linked.push(true);
            let c = adjusted_cost(inst, &node.pi, first, k);
            link_cost.push(c);
        } else {
            linked.push(false);
            link_cost.push(0);
        }
        k += 1;
    }

    // Prim's method over vertices 1 .. n.
    proof {
        assert(-crate::PI_LIMIT <= pi0[0] <= crate::PI_LIMIT);
        assert(-crate::PI_LIMIT <= pi0[first as int] <= crate::PI_LIMIT);
        assert(0 <= mat[0][first as int] <= crate::MAX_COST);
        assert(-crate::CW_LIMIT <= node.lower_bound <= crate::CW_LIMIT);
        assert forall|v: int|
            nothing_excluded(n as int, excl0) && 1 <= v < n && (#[trigger] node.degree@[v])
                == 0 implies linked@[v] by {
            assert(node.degree@[0] >= 1);
            assert(node.degree@[first as int] >= 1);
            assert(!excl0[first as int][v]);
        }
        assert forall|jx: int, vx: int|
            1 <= jx < n && 1 <= vx < n && node.degree@[jx] == 0 && !linked@[jx]
                && node.degree@[vx] >= 1 implies #[trigger] excl0[jx][vx] by {
            assert(vx == first);
            assert(excl0[first as int][jx]);
        }
    }
    let mut t: usize = 0;
    while t < n - 2
        invariant
            inst.wf(),
            n == inst.n,
            3 <= n <= MAX_N,
            node.wf(n as int),
            node.excl() == excl0,
            excl0 == old(node).excl(),
            node.pi@ == pi0,
            pi0 == old(node).pi@,
            forall|v: int| 0 <= v < n ==> -crate::PI_LIMIT <= #[trigger] pi0[v]
                <= crate::PI_LIMIT,
            first < n,
            1 <= first,
            t <= n - 2,
            linked@.len() == n,
            link_cost@.len() == n,
            // Attachment bookkeeping.
            att_count(node.degree@) == t + 1,
            node.degree@[0] == 1,
            sum_int(crate::sums::int_seq_usize(node.degree@)) == 2 * (t + 1),
            forall|v: int| 0 <= v < n ==> #[trigger] node.degree@[v] <= 2 * (t + 1),
            // Every attached vertex other than 0 has a final, unexcluded
            // parent edge.
            forall|v: int| 1 <= v < n && #[trigger] node.degree@[v] >= 1
                ==> node.parent@[v] < n && node.parent@[v] != v
                    && !excl0[v][node.parent@[v] as int],
            // Every linked unattached vertex has a valid tentative edge.
            forall|v: int| 1 <= v < n && node.degree@[v] == 0 && #[trigger] linked@[v]
                ==> 1 <= node.parent@[v] < n && node.parent@[v] != v
                    && !excl0[v][node.parent@[v] as int]
                    && node.degree@[node.parent@[v] as int] >= 1,
            // With nothing excluded, every unattached vertex stays linked.
            forall|v: int|
                nothing_excluded(n as int, excl0) && 1 <= v < n && (#[trigger] node.degree@[v])
                    == 0 ==> linked@[v],
            // The running bound is the adjusted cost of the edges so far.
            node.lower_bound == SCALE * masked_pcost_sum(
                mat,
                node.parent@,
                att_bmask(node.degree@),
            ) + deg_pi_sum(node.degree@, pi0),
            -(t + 1) * crate::CW_LIMIT <= node.lower_bound,
            node.lower_bound <= (t + 1) * crate::CW_LIMIT,
            mat == inst.matrix(),
            1 <= second < n,
            second != first,
            node.degree@[first as int] >= 1,
            node.parent@[first as int] == 0,
            forall|jx: int, vx: int|
                1 <= jx < n && 1 <= vx < n && node.degree@[jx] == 0 && !linked@[jx]
                    && node.degree@[vx] >= 1 ==> #[trigger] excl0[jx][vx],
            n == 3 ==> node.parent@[first as int] == 0 && node.parent@[second as int] == first
                && node.degree@[first as int] == t + 1 && node.degree@[second as int] == t,
        decreases n - 2 - t,
    {
        // Pick the unattached vertex with the cheapest tentative edge.
        let mut pick: Option<usize> = None;
        let mut jj: usize = 1;
        while jj < n
            invariant
                n == inst.n,
                3 <= n,
                node.wf(n as int),
                node.excl() == old(node).excl(),
                node.excl() == excl0,
                node.pi@ == old(node).pi@,
                n == node.degree@.len(),
                linked@.len() == n,
                link_cost@.len() == n,
                1 <= jj <= n,
                t < n - 2,
                att_count(node.degree@) == t + 1,
                match pick {
                    Some(p) => 1 <= p < n && node.degree@[p as int] == 0 && linked@[p as int],
                    None => true,
                },
                pick is None ==> forall|v: int|
                    1 <= v < jj && node.degree@[v] == 0 ==> !(#[trigger] linked@[v]),
                first < n,
                1 <= first,
                1 <= second < n,
                second != first,
                node.degree@[first as int] >= 1,
                forall|jx: int, vx: int|
                    1 <= jx < n && 1 <= vx < n && node.degree@[jx] == 0 && !linked@[jx]
                        && node.degree@[vx] >= 1 ==> #[trigger] excl0[jx][vx],
                n == 3 ==> node.degree@[first as int] >= 1 && node.parent@[first as int] == 0
                    && node.parent@[second as int] == first,
                forall|v: int|
                    nothing_excluded(n as int, excl0) && 1 <= v < n && (#[trigger] node.degree@[v])
                        == 0 ==> linked@[v],
            decreases n - jj,
        {
            if node.degree[jj] == 0 && linked[jj] {
                match pick {
                    None => { pick = Some(jj); },
                    Some(p) => {
                        if link_cost[jj] < link_cost[p] {
                            pick = Some(jj);
                        }
                    },
                }
            }
            jj += 1;
        }
        let i = match pick {
            Some(i) => i,
            None => {
                proof {
                    // Some vertex is still unattached: too few are counted.
                    if forall|v: int| 1 <= v < n ==> (#[trigger] node.degree@[v]) >= 1 {
                        let s = att01_seq(node.degree@);
                        let s2 = s.update(0, 1int);
                        assert forall|k: int| 0 <= k < s2.len() implies #[trigger] s2[k]
                            == 1 by {
                            if k != 0 {
                                assert(node.degree@[k] >= 1);
                            }
                        }
                        crate::sums::lemma_sum_const(s2, 1);
                        lemma_sum_update(s, 0, 1int);
                        assert(att_count(node.degree@) == n - 1);
                        assert(false);
                    }
                    let uv = choose|v: int| 1 <= v < n && !((#[trigger] node.degree@[v]) >= 1);
                    if nothing_excluded(n as int, excl0) {
                        assert(linked@[uv]);
                        assert(false);
                    }
                    // The unattached vertices form a fully excluded cut.
                    let cutw = Seq::new(n as nat, |v: int| 1 <= v && node.degree@[v] == 0);
                    assert(cutw[uv]);
                    assert(!cutw[first as int]);
                    assert forall|cs: int, ct: int|
                        1 <= cs < n && 1 <= ct < n && cutw[cs] && !cutw[ct] implies
                        #[trigger] excl0[cs][ct] by {
                        assert(node.degree@[cs] == 0);
                        assert(node.degree@[ct] >= 1);
                        assert(!linked@[cs]);
                    }
                    assert(excluded_cut(n as int, excl0, cutw));
                    assert(one_tree_blocked(n as int, excl0));
                }
                return Err(crate::SolveError::InfeasibleRelaxation);
            },
        };
        let p = node.parent[i];
        proof {
            if n == 3 {
                assert(i != first);
                assert(i == second);
                assert(p == first);
            }
            assert(0 <= mat[p as int][i as int] <= crate::MAX_COST);
            assert(-crate::PI_LIMIT <= pi0[p as int] <= crate::PI_LIMIT);
            assert(-crate::PI_LIMIT <= pi0[i as int] <= crate::PI_LIMIT);
            assert(t + 1 <= 510);
            assert(-crate::CW_LIMIT <= cw(mat, pi0, p as int, i as int) <= crate::CW_LIMIT);
            assert(-511 * crate::CW_LIMIT <= node.lower_bound
                && node.lower_bound <= 511 * crate::CW_LIMIT) by (nonlinear_arith)
                requires
                    -(t + 1) * crate::CW_LIMIT <= node.lower_bound,
                    node.lower_bound <= (t + 1) * crate::CW_LIMIT,
                    t + 1 <= 510,
                    0 <= crate::CW_LIMIT,
            ;
        }
        let ghost deg_a = node.degree@;
        let ghost lb_a = node.lower_bound;
        add_edge(inst, node, p, i);
        proof {
            let deg_b = deg_a.update(p as int, (deg_a[p as int] + 1) as usize);
            let deg_c = deg_b.update(i as int, (deg_a[i as int] + 1) as usize);
            assert(node.degree@ == deg_c);
            lemma_deg_pi_incr(deg_a, pi0, p as int);
            lemma_deg_pi_incr(deg_b, pi0, i as int);
            // Mask: only `i` becomes attached.
            assert(att_bmask(deg_c) =~= att_bmask(deg_a).update(i as int, true));
            lemma_masked_flip(mat, node.parent@, att_bmask(deg_a), i as int);
            assert(mat[i as int][p as int] == mat[p as int][i as int]);
            assert(node.lower_bound == SCALE * masked_pcost_sum(
                mat,
                node.parent@,
                att_bmask(node.degree@),
            ) + deg_pi_sum(node.degree@, pi0));
            // Attachment count.
            assert(att01_seq(deg_c) =~= att01_seq(deg_a).update(i as int, 1int));
            lemma_sum_update(att01_seq(deg_a), i as int, 1int);
            assert(att_count(node.degree@) == t + 2);
            // Degree sum.
            assert(crate::sums::int_seq_usize(deg_b) =~= crate::sums::int_seq_usize(
                deg_a,
            ).update(p as int, deg_a[p as int] + 1));
            lemma_sum_update(crate::sums::int_seq_usize(deg_a), p as int, deg_a[p as int] + 1);
            assert(crate::sums::int_seq_usize(deg_c) =~= crate::sums::int_seq_usize(
                deg_b,
            ).update(i as int, deg_a[i as int] + 1));
            lemma_sum_update(crate::sums::int_seq_usize(deg_b), i as int, deg_a[i as int] + 1);
            assert(sum_int(crate::sums::int_seq_usize(node.degree@)) == 2 * (t + 2));
            assert(-(t + 2) * crate::CW_LIMIT <= node.lower_bound
                && node.lower_bound <= (t + 2) * crate::CW_LIMIT) by (nonlinear_arith)
                requires
                    -(t + 1) * crate::CW_LIMIT <= lb_a,
                    lb_a <= (t + 1) * crate::CW_LIMIT,
                    node.lower_bound == lb_a + cw(mat, pi0, p as int, i as int),
                    -crate::CW_LIMIT <= cw(mat, pi0, p as int, i as int),
                    cw(mat, pi0, p as int, i as int) <= crate::CW_LIMIT,
                    0 <= crate::CW_LIMIT,
            ;
        }

        // Relax the tentative edges through the newly attached vertex.
        let mut jj: usize = 1;
        while jj < n
            invariant
                inst.wf(),
                n == inst.n,
                3 <= n <= MAX_N,
                node.wf(n as int),
                node.excl() == excl0,
                excl0 == old(node).excl(),
                node.pi@ == pi0,
                pi0 == old(node).pi@,
                forall|v: int| 0 <= v < n ==> -crate::PI_LIMIT <= #[trigger] pi0[v]
                    <= crate::PI_LIMIT,
                1 <= jj <= n,
                t < n - 2,
                first < n,
                1 <= first,
                i < n,
                1 <= i,
                node.degree@[i as int] >= 1,
                linked@.len() == n,
                link_cost@.len() == n,
                att_count(node.degree@) == t + 2,
                node.degree@[0] == 1,
                sum_int(crate::sums::int_seq_usize(node.degree@)) == 2 * (t + 2),
                forall|v: int| 0 <= v < n ==> #[trigger] node.degree@[v] <= 2 * (t + 2),
                forall|v: int| 1 <= v < n && #[trigger] node.degree@[v] >= 1
                    ==> node.parent@[v] < n && node.parent@[v] != v
                        && !excl0[v][node.parent@[v] as int],
                forall|v: int| 1 <= v < n && node.degree@[v] == 0 && #[trigger] linked@[v]
                    ==> 1 <= node.parent@[v] < n && node.parent@[v] != v
                        && !excl0[v][node.parent@[v] as int]
                        && node.degree@[node.parent@[v] as int] >= 1,
            forall|v: int|
                nothing_excluded(n as int, excl0) && 1 <= v < n && (#[trigger] node.degree@[v])
                    == 0 ==> linked@[v],
                node.lower_bound == SCALE * masked_pcost_sum(
                    mat,
                    node.parent@,
                    att_bmask(node.degree@),
                ) + deg_pi_sum(node.degree@, pi0),
                -(t + 2) * crate::CW_LIMIT <= node.lower_bound,
                node.lower_bound <= (t + 2) * crate::CW_LIMIT,
                mat == inst.matrix(),
                1 <= second < n,
                second != first,
                node.degree@[first as int] >= 1,
                node.parent@[first as int] == 0,
                forall|jx: int, vx: int|
                    1 <= jx < n && 1 <= vx < n && node.degree@[jx] == 0 && !linked@[jx]
                        && node.degree@[vx] >= 1 && vx != i ==> #[trigger] excl0[jx][vx],
                forall|jx: int|
                    1 <= jx < jj && node.degree@[jx] == 0 && !(#[trigger] linked@[jx])
                        ==> excl0[jx][i as int],
                n == 3 ==> t == 0 && node.parent@[first as int] == 0
                    && node.parent@[second as int] == first
                    && node.degree@[first as int] == 2 && node.degree@[second as int] == 1,
            decreases n - jj,
        {
            proof {
                assert(node.excl()[i as int] == node.excluded@[i as int]@);
            }
            if node.degree[jj] == 0 && !node.excluded[i][jj] {
                let c = adjusted_cost(inst, &node.pi, i, jj);
                if !linked[jj] || c < link_cost[jj] {
                    link_cost[jj] = c;
                    proof {
                        lemma_masked_parent_irrelevant(
                            mat,
                            node.parent@,
                            att_bmask(node.degree@),
                            jj as int,
                            i,
                        );
                    }
                    node.parent[jj] = i;
                    linked[jj] = true;
                }
            }
            proof {
                if node.degree@[jj as int] == 0 && node.excl()[i as int][jj as int] {
                    assert(excl0[jj as int][i as int]);
                }
            }
            jj += 1;
        }
        t += 1;
    }

    // Every vertex other than 0 is now attached.
    proof {
        let s = att01_seq(node.degree@);
        let s2 = s.update(0, 1int);
        lemma_sum_update(s, 0, 1int);
        crate::sums::lemma_sum_saturated(s2, 1);
        assert forall|v: int| 1 <= v < n implies #[trigger] node.degree@[v] >= 1 by {
            assert(s2[v] == 1);
        }
    }

    // Edge (0, second) closes the cycle through vertex 0.
    proof {
        assert(0 <= mat[0][second as int] <= crate::MAX_COST);
        assert(-crate::PI_LIMIT <= pi0[0] <= crate::PI_LIMIT);
        assert(-crate::PI_LIMIT <= pi0[second as int] <= crate::PI_LIMIT);
        assert(-crate::CW_LIMIT <= cw(mat, pi0, 0, second as int) <= crate::CW_LIMIT);
        assert(-511 * crate::CW_LIMIT <= node.lower_bound
            && node.lower_bound <= 511 * crate::CW_LIMIT) by (nonlinear_arith)
            requires
                -(t + 1) * crate::CW_LIMIT <= node.lower_bound,
                node.lower_bound <= (t + 1) * crate::CW_LIMIT,
                t + 1 <= 511,
                0 <= crate::CW_LIMIT,
        ;
    }
    let ghost deg_a = node.degree@;
    let ghost parent_exit = node.parent@;
    add_edge(inst, node, 0, second);
    proof {
        let deg_b = deg_a.update(0, (deg_a[0] + 1) as usize);
        let deg_c = deg_b.update(second as int, (deg_a[second as int] + 1) as usize);
        assert(node.degree@ == deg_c);
        lemma_deg_pi_incr(deg_a, pi0, 0);
        lemma_deg_pi_incr(deg_b, pi0, second as int);
        // The mask is unchanged: vertex 0 is never masked and `second` was
        // already attached.
        assert(att_bmask(deg_c) =~= att_bmask(deg_a));
        assert(node.lower_bound == SCALE * masked_pcost_sum(
            mat,
            node.parent@,
            att_bmask(node.degree@),
        ) + SCALE * mat[0][second as int] + deg_pi_sum(node.degree@, pi0));
        // Degree sum reaches 2 * n.
        assert(crate::sums::int_seq_usize(deg_b) =~= crate::sums::int_seq_usize(deg_a).update(
            0,
            deg_a[0] + 1,
        ));
        lemma_sum_update(crate::sums::int_seq_usize(deg_a), 0, deg_a[0] + 1);
        assert(crate::sums::int_seq_usize(deg_c) =~= crate::sums::int_seq_usize(deg_b).update(
            second as int,
            deg_a[second as int] + 1,
        ));
        lemma_sum_update(
            crate::sums::int_seq_usize(deg_b),
            second as int,
            deg_a[second as int] + 1,
        );
        assert(sum_int(crate::sums::int_seq_usize(node.degree@)) == 2 * n);
    }
    let ghost mask_final = att_bmask(node.degree@);
    proof {
        lemma_masked_parent_irrelevant(mat, node.parent@, mask_final, 0, second);
    }
    node.parent[0] = second;
    proof {
        // The full parent-edge sum is the masked sum plus the edge at 0.
        let ps = pcost_seq(mat, node.parent@);
        let ms = masked_pcost_seq(mat, node.parent@, mask_final);
        assert(ps =~= ms.update(0, mat[0][second as int] as int));
        lemma_sum_update(ms, 0, mat[0][second as int] as int);
        assert(SCALE * pcost_sum(mat, node.parent@) == SCALE * masked_pcost_sum(
            mat,
            node.parent@,
            mask_final,
        ) + SCALE * mat[0][second as int]);
    }

    // Round to the nearest whole multiple of `SCALE`.
    let raw = node.lower_bound;
    node.lower_bound = round_lower_bound(raw);
    proof {
        assert(raw == SCALE * pcost_sum(mat, node.parent@) + deg_pi_sum(node.degree@, pi0));
        assert(one_tree_bound_eq(mat, *node));
        assert forall|v: int| 0 <= v < n implies 1 <= #[trigger] node.degree@[v]
            && node.degree@[v] <= 2 * (n as int) by {
            if v != 0 && v != second {
                assert(node.degree@[v] == deg_a[v]);
            }
        }
        assert forall|v: int| 0 <= v < n implies (#[trigger] node.parent@[v]) < n
            && node.parent@[v] != v && !node.excl()[v][node.parent@[v] as int] by {
            if v == 0 {
                assert(node.parent@[0] == second);
            } else {
                assert(node.parent@[v] == parent_exit[v]);
                assert(deg_a[v] >= 1);
            }
        }
        assert(one_tree_degrees(n as int, *node));
        assert(cheapest_pair(
            n as int,
            mat,
            pi0,
            excl0,
            node.parent@,
            first as int,
            second as int,
        ));
        if n == 3 {
            assert(node.parent@[0] == second);
            assert(node.parent@[second as int] == parent_exit[second as int]);
            assert(node.parent@[first as int] == parent_exit[first as int]);
            assert(rooted_three_cycle(node.parent@));
            assert forall|v: int| 0 <= v < 3 implies node.degree@[v] == 2 by {
                if v != 0 && v != first {
                    assert(v == second);
                }
            }
        }
    }
    Ok(())
}

} // verus!
