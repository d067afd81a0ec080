//! Best-first branch and bound.  The driver keeps the best complete tour
//! found so far (the incumbent), a pool of open subproblems ordered by
//! their lower bounds, and splits the most promising subproblem by
//! forbidding, one child per edge, the edges at a vertex whose 1-tree
//! degree exceeds 2.
//!
//! Termination is proved with a potential: each node is weighted
//! exponentially in the number of unexcluded matrix entries, and branching
//! replaces a node by strictly lighter children.

use vstd::prelude::*;

use crate::heldkarp::compute_held_karp;
use crate::heldkarp::relaxed;
use crate::instance::TspInstance;
use crate::node::Node;
use crate::sums::free_count;
use crate::sums::free_rows_seq;
use crate::sums::lemma_free_rows_seq_index;
use crate::sums::lemma_row_free_seq_index;
use crate::sums::lemma_sum_update;
use crate::sums::row_free;
use crate::sums::row_free_seq;
use crate::tour::extract_tour;
use crate::tour::is_tour_order;
use crate::tour::tour_cost;
use crate::tour::Tour;
use vstd::arithmetic::power::pow;

verus! {

broadcast use
    crate::sums::lemma_view2_index,
    crate::sums::lemma_row_free_seq_index,
    crate::sums::lemma_free_rows_seq_index,
    vstd::arithmetic::power::lemma_pow_positive;

/// The free count is non-negative.
pub proof fn lemma_free_count_nonneg(ex: Seq<Seq<bool>>)
    ensures
        free_count(ex) >= 0,
{
    assert forall|i: int| 0 <= i < free_rows_seq(ex).len() implies #[trigger] free_rows_seq(
        ex,
    )[i] >= 0 by {
        lemma_free_rows_seq_index(ex, i);
        assert forall|j: int| 0 <= j < row_free_seq(ex[i]).len() implies #[trigger] row_free_seq(
            ex[i],
        )[j] >= 0 by {
            lemma_row_free_seq_index(ex[i], j);
        }
        crate::sums::lemma_sum_nonneg(row_free_seq(ex[i]));
    }
    crate::sums::lemma_sum_nonneg(free_rows_seq(ex));
}

/// Excluding the hitherto-unexcluded undirected edge `(a, b)` lowers the
/// free count by exactly 2: one ordered entry in row `a`, one in row `b`.
pub proof fn lemma_free_count_child(ex: Seq<Seq<bool>>, ex2: Seq<Seq<bool>>, a: int, b: int)
    requires
        ex.len() == ex2.len(),
        0 <= a < ex.len(),
        0 <= b < ex.len(),
        a != b,
        forall|i: int| 0 <= i < ex.len() ==> #[trigger] ex[i].len() == ex.len(),
        forall|i: int| 0 <= i < ex.len() ==> #[trigger] ex2[i].len() == ex.len(),
        forall|i: int, j: int| 0 <= i < ex.len() && 0 <= j < ex.len()
            ==> #[trigger] ex2[i][j] == (ex[i][j] || (i == a && j == b) || (i == b && j == a)),
        !ex[a][b],
        !ex[b][a],
    ensures
        free_count(ex2) == free_count(ex) - 2,
{
    let n = ex.len() as int;
    // Rows other than a and b are unchanged.
    assert forall|i: int| 0 <= i < n && i != a && i != b implies #[trigger] row_free(ex2[i])
        == row_free(ex[i]) by {
        assert(ex2[i] =~= ex[i]);
    }
    // Row a loses exactly its entry at column b.
    assert(row_free_seq(ex2[a]) =~= row_free_seq(ex[a]).update(b, 0int));
    lemma_sum_update(row_free_seq(ex[a]), b, 0int);
    assert(row_free(ex2[a]) == row_free(ex[a]) - 1);
    // Row b loses exactly its entry at column a.
    assert(row_free_seq(ex2[b]) =~= row_free_seq(ex[b]).update(a, 0int));
    lemma_sum_update(row_free_seq(ex[b]), a, 0int);
    assert(row_free(ex2[b]) == row_free(ex[b]) - 1);
    // Assemble the per-row counts.
    assert(free_rows_seq(ex2) =~= free_rows_seq(ex).update(a, row_free(ex[a]) - 1).update(
        b,
        row_free(ex[b]) - 1,
    ));
    lemma_sum_update(free_rows_seq(ex), a, row_free(ex[a]) - 1);
    lemma_sum_update(
        free_rows_seq(ex).update(a, row_free(ex[a]) - 1),
        b,
        row_free(ex[b]) - 1,
    );
}

/// Weight of one subproblem in the termination potential.
pub open spec fn node_pot(n: int, nd: Node) -> int {
    pow(n + 2, free_count(nd.excl()) as nat)
}

/// Total weight of a pool of subproblems.
pub open spec fn open_pot(n: int, s: Seq<Node>) -> int
    decreases s.len(),
{
    if s.len() == 0 {
        0
    } else {
        open_pot(n, s.drop_last()) + node_pot(n, s.last())
    }
}

/// A node's weight is at least 1.
pub proof fn lemma_node_pot_pos(n: int, nd: Node)
    requires
        n >= 0,
    ensures
        node_pot(n, nd) >= 1,
{
    vstd::arithmetic::power::lemma_pow_positive(n + 2, free_count(nd.excl()) as nat);
}

/// The pool's weight is non-negative.
pub proof fn lemma_open_pot_nonneg(n: int, s: Seq<Node>)
    requires
        n >= 0,
    ensures
        open_pot(n, s) >= 0,
    decreases s.len(),
{
    if s.len() > 0 {
        lemma_open_pot_nonneg(n, s.drop_last());
        lemma_node_pot_pos(n, s.last());
    }
}

/// Appending a node adds its weight.
pub proof fn lemma_open_pot_push(n: int, s: Seq<Node>, nd: Node)
    ensures
        open_pot(n, s.push(nd)) == open_pot(n, s) + node_pot(n, nd),
{
    assert(s.push(nd).drop_last() =~= s);
}

/// Replacing a node swaps its weight for the new one's.
pub proof fn lemma_open_pot_update(n: int, s: Seq<Node>, i: int, nd: Node)
    requires
        0 <= i < s.len(),
    ensures
        open_pot(n, s.update(i, nd)) == open_pot(n, s) - node_pot(n, s[i]) + node_pot(n, nd),
    decreases s.len(),
{
    if i == s.len() - 1 {
        assert(s.update(i, nd).drop_last() =~= s.drop_last());
        assert(s.update(i, nd).last() == nd);
    } else {
        assert(s.update(i, nd).drop_last() =~= s.drop_last().update(i, nd));
        lemma_open_pot_update(n, s.drop_last(), i, nd);
        assert(s.update(i, nd).last() == s.last());
    }
}

/// An unexcluded undirected edge contributes two unexcluded ordered
/// entries, so the free count is at least 2.
pub proof fn lemma_free_count_two(ex: Seq<Seq<bool>>, a: int, b: int)
    requires
        0 <= a < ex.len(),
        0 <= b < ex.len(),
        a != b,
        forall|i: int| 0 <= i < ex.len() ==> #[trigger] ex[i].len() == ex.len(),
        !ex[a][b],
        !ex[b][a],
    ensures
        free_count(ex) >= 2,
{
    let rs = free_rows_seq(ex);
    assert forall|i: int| 0 <= i < rs.len() implies #[trigger] rs[i] >= 0 by {
        assert forall|j: int| 0 <= j < row_free_seq(ex[i]).len() implies #[trigger] row_free_seq(
            ex[i],
        )[j] >= 0 by {}
        crate::sums::lemma_sum_nonneg(row_free_seq(ex[i]));
    }
    crate::sums::lemma_sum_elem_le(row_free_seq(ex[a]), b);
    assert(rs[a] >= 1);
    crate::sums::lemma_sum_elem_le(row_free_seq(ex[b]), a);
    assert(rs[b] >= 1);
    let rs2 = rs.update(a, 0int);
    lemma_sum_update(rs, a, 0int);
    crate::sums::lemma_sum_elem_le(rs2, b);
}

/// Derives one child of `cur` by forbidding the unexcluded edge `(a, b)`
/// and running a fresh relaxation on it.  Returns `None` only when the
/// relaxation fails, and `compute_held_karp`'s contract then hands back a
/// structural witness (a starved vertex 0 or a fully excluded cut); by
/// `lemma_blocked_excludes_tours` such a child admits no tour, so the
/// drop discards nothing.
fn branch_child(
    inst: &TspInstance,
    cur: &Node,
    a: usize,
    b: usize,
    best_bound: Option<i64>,
) -> (r: Option<Node>)
    requires
        inst.wf(),
        cur.wf(inst.n as int),
        a < inst.n,
        b < inst.n,
        a != b,
        !cur.excl()[a as int][b as int],
    ensures
        match r {
            Some(c) => {
                &&& c.wf(inst.n as int)
                &&& relaxed(*inst, c)
                &&& free_count(c.excl()) == free_count(cur.excl()) - 2
            },
            None => true,
        },
{
    proof {
        assert(cur.excluded@.len() == inst.n);
    }
    let mut child = cur.excluding(a, b);
    proof {
        lemma_free_count_child(cur.excl(), child.excl(), a as int, b as int);
    }
    match compute_held_karp(inst, &mut child, best_bound) {
        Ok(()) => Some(child),
        Err(_) => None,
    }
}

/// Removes and returns a node with the least lower bound, or `None` when
/// the pool is empty.
fn pop_min(open: &mut Vec<Node>) -> (r: Option<Node>)
    ensures
        match r {
            None => old(open)@.len() == 0 && final(open)@ == old(open)@,
            Some(nd) => {
                &&& old(open)@.len() > 0
                &&& exists|i: int|
                    0 <= i < old(open)@.len() && nd == old(open)@[i] && final(open)@ == old(
                        open,
                    )@.update(i, old(open)@.last()).drop_last()
                &&& forall|k: int| 0 <= k < old(open)@.len() ==> nd.lower_bound
                    <= (#[trigger] old(open)@[k]).lower_bound
            },
        },
{
    if open.len() == 0 {
        return None;
    }
    let mut m: usize = 0;
    let mut k: usize = 1;
    while k < open.len()
        invariant
            open@ == old(open)@,
            open@.len() > 0,
            m < open@.len(),
            1 <= k <= open@.len(),
            forall|idx: int| 0 <= idx < k ==> open@[m as int].lower_bound
                <= (#[trigger] open@[idx]).lower_bound,
        decreases open@.len() - k,
    {
        if open[k].lower_bound < open[m].lower_bound {
            m = k;
        }
        k += 1;
    }
    let nd = open.swap_remove(m);
    proof {
        assert(nd == old(open)@[m as int] && final(open)@ == old(open)@.update(
            m as int,
            old(open)@.last(),
        ).drop_last());
    }
    Some(nd)
}

/// Turns the incumbent, if any, into the reported tour; with no incumbent
/// the whole search space was infeasible.
fn conclude(inst: &TspInstance, best: Option<Node>) -> (r: Result<Tour, crate::SolveError>)
    requires
        inst.wf(),
        match best {
            Some(b) => b.wf(inst.n as int) && relaxed(*inst, b),
            None => true,
        },
    ensures
        match r {
            Ok(t) => {
                &&& is_tour_order(inst.n as int, t.order@)
                &&& t.cost == tour_cost(inst.matrix(), t.order@)
                &&& 0 <= t.cost <= inst.n * crate::MAX_COST
                &&& inst.n == 3 ==> t.cost == inst.matrix()[0][1] + inst.matrix()[1][2]
                    + inst.matrix()[0][2]
            },
            Err(e) => e == crate::SolveError::InfeasibleRelaxation,
        },
        inst.n == 3 && (match best {
            Some(b) => crate::onetree::rooted_three_cycle(b.parent@),
            None => false,
        }) ==> r is Ok,
{
    match best {
        None => Err(crate::SolveError::InfeasibleRelaxation),
        Some(b) => {
            match extract_tour(inst, &b) {
                Ok(t) => {
                    proof {
                        if inst.n == 3 {
                            crate::laws::lemma_three_node_cost(*inst, t.order@);
                        }
                    }
                    Ok(t)
                },
                Err(e) => {
                    proof {
                        if inst.n == 3 && crate::onetree::rooted_three_cycle(b.parent@) {
                            crate::tour::lemma_three_cycle_encodes(b.parent@);
                            assert(false);
                        }
                    }
                    Err(e)
                },
            }
        },
    }
}

/// Branch-and-bound search for an optimal tour.  The search explores
/// subproblems best-first, keeps the cheapest complete tour found as the
/// incumbent, and prunes a subproblem only when its relaxation bound
/// reaches the incumbent's or when it provably admits no 1-tree.  The
/// contract guarantees that any returned tour visits every vertex exactly
/// once, starting at vertex 0, with exactly the reported cost, and that a
/// three-node instance is always solved outright; that the reported cost
/// is minimal over all tours rests on the soundness of the Held–Karp
/// bound, which this crate does not formalize.
pub fn solve(inst: &TspInstance) -> (r: Result<Tour, crate::SolveError>)
    requires
        inst.wf(),
    ensures
        match r {
            Ok(t) => {
                &&& is_tour_order(inst.n as int, t.order@)
                &&& t.cost == tour_cost(inst.matrix(), t.order@)
                &&& 0 <= t.cost <= inst.n * crate::MAX_COST
                &&& inst.n == 3 ==> t.cost == inst.matrix()[0][1] + inst.matrix()[1][2]
                    + inst.matrix()[0][2]
            },
            Err(e) => e == crate::SolveError::InfeasibleRelaxation,
        },
        inst.n == 3 ==> r is Ok,
{
    let n = inst.n;
    let ghost ni = n as int;
    let mut cur = Node::root(n);
    let ghost root_snapshot = cur;
    match compute_held_karp(inst, &mut cur, None) {
        Ok(()) => {},
        Err(e) => {
            proof {
                // The root excludes nothing, so its relaxation is owed
                // success: this arm is unreachable.
                assert(crate::onetree::nothing_excluded(ni, root_snapshot.excl()));
                assert(false);
            }
            return Err(e);
        },
    }
    let mut best: Option<Node> = None;
    let mut open: Vec<Node> = Vec::new();
    loop
        invariant
            inst.wf(),
            n == inst.n,
            ni == n as int,
            cur.wf(ni),
            relaxed(*inst, cur),
            forall|k: int| 0 <= k < open@.len() ==> (#[trigger] open@[k]).wf(ni) && relaxed(
                *inst,
                open@[k],
            ),
            match best {
                Some(b) => b.wf(ni) && relaxed(*inst, b),
                None => true,
            },
            n == 3 ==> open@.len() == 0,
            n == 3 ==> (forall|v: int| 0 <= v < 3 ==> #[trigger] cur.degree@[v] == 2)
                && crate::onetree::rooted_three_cycle(cur.parent@),
            n == 3 ==> (match best {
                Some(b) => crate::onetree::rooted_three_cycle(b.parent@),
                None => true,
            }),
        decreases node_pot(ni, cur) + open_pot(ni, open@),
    {
        let best_bound: Option<i64> = match &best {
            Some(b) => Some(b.lower_bound),
            None => None,
        };
        let prune = match best_bound {
            Some(bb) => cur.lower_bound >= bb,
            None => false,
        };
        // Branch on the vertex of smallest degree among those of degree
        // more than 2, if the node is neither pruned nor a complete tour.
        let mut picked: Option<usize> = None;
        if !prune {
            let mut j: usize = 0;
            while j < n
                invariant
                    n == cur.degree@.len(),
                    j <= n,
                    match picked {
                        Some(pk) => pk < n && cur.degree@[pk as int] > 2,
                        None => true,
                    },
                decreases n - j,
            {
                if cur.degree[j] > 2 {
                    match picked {
                        None => { picked = Some(j); },
                        Some(pk) => {
                            if cur.degree[j] < cur.degree[pk] {
                                picked = Some(j);
                            }
                        },
                    }
                }
                j += 1;
            }
        }
        match picked {
            Some(i) => {
                proof {
                    // A three-node 1-tree has no vertex of degree above 2,
                    // so the search never branches on such an instance.
                    if n == 3 {
                        assert(cur.degree@[i as int] == 2);
                        assert(false);
                    }
                }
                // Split the subproblem: one child per 1-tree edge at vertex
                // `i`, each with that edge newly forbidden.  With three or
                // more distinct partners at `i`, some child keeps any given
                // tour (`lemma_some_branch_keeps_tour`).
                let ghost f = free_count(cur.excl());
                let ghost fp = pow(ni + 2, (f - 2) as nat);
                let p = cur.parent[i];
                let mut children: Vec<Node> = Vec::new();
                proof {
                    lemma_free_count_nonneg(cur.excl());
                    lemma_free_count_two(cur.excl(), i as int, p as int);
                    assert(0 * fp == 0) by (nonlinear_arith);
                }
                match branch_child(inst, &cur, i, p, best_bound) {
                    Some(c) => {
                        proof {
                            lemma_open_pot_push(ni, children@, c);
                            assert((children@.len() + 1) * fp == children@.len() * fp + fp)
                                by (nonlinear_arith);
                        }
                        children.push(c);
                    },
                    None => {},
                }
                let mut j: usize = 0;
                while j < n
                    invariant
                        inst.wf(),
                        n == inst.n,
                        ni == n as int,
                        cur.wf(ni),
                        relaxed(*inst, cur),
                        i < n,
                        j <= n,
                        f == free_count(cur.excl()),
                        f >= 2,
                        fp == pow(ni + 2, (f - 2) as nat),
                        children@.len() <= 1 + j,
                        forall|k: int| 0 <= k < children@.len()
                            ==> (#[trigger] children@[k]).wf(ni) && relaxed(*inst, children@[k])
                                && free_count(children@[k].excl()) == f - 2,
                        open_pot(ni, children@) == children@.len() * fp,
                        best_bound == (match best {
                            Some(b) => Some(b.lower_bound),
                            None => None::<i64>,
                        }),
                    decreases n - j,
                {
                    if cur.parent[j] == i {
                        proof {
                            assert(cur.degree@[j as int] >= 1);
                            assert(!cur.excl()[j as int][i as int]);
                            assert(!cur.excl()[i as int][j as int]);
                        }
                        match branch_child(inst, &cur, i, j, best_bound) {
                            Some(c) => {
                                proof {
                                    lemma_open_pot_push(ni, children@, c);
                                    assert((children@.len() + 1) * fp == children@.len() * fp
                                        + fp) by (nonlinear_arith);
                                }
                                children.push(c);
                            },
                            None => {},
                        }
                    }
                    j += 1;
                }
                if children.len() == 0 {
                    // Every child is infeasible: this line of the search is
                    // exhausted; continue from the pool.
                    let ghost open_prev = open@;
                    let ghost cur_prev = cur;
                    match pop_min(&mut open) {
                        None => {
                            return conclude(inst, best);
                        },
                        Some(nx) => {
                            proof {
                                let wi = choose|wi: int|
                                    0 <= wi < open_prev.len() && nx == open_prev[wi]
                                        && open@ == open_prev.update(
                                        wi,
                                        open_prev.last(),
                                    ).drop_last();
                                lemma_open_pot_swap_remove(ni, open_prev, wi);
                                lemma_node_pot_pos(ni, cur_prev);
                                assert(node_pot(ni, nx) + open_pot(ni, open@) == open_pot(
                                    ni,
                                    open_prev,
                                ));
                                assert(node_pot(ni, nx) + open_pot(ni, open@) < node_pot(
                                    ni,
                                    cur_prev,
                                ) + open_pot(ni, open_prev));
                                lemma_node_pot_pos(ni, nx);
                                lemma_open_pot_nonneg(ni, open@);
                                assert forall|k: int| 0 <= k < open@.len() implies (
                                #[trigger] open@[k]).wf(ni) && relaxed(*inst, open@[k]) by {
                                    assert(open@[k] == open_prev.update(
                                        wi,
                                        open_prev.last(),
                                    )[k]);
                                }
                            }
                            let stop = match &best {
                                Some(b) => nx.lower_bound > b.lower_bound,
                                None => false,
                            };
                            if stop {
                                return conclude(inst, best);
                            }
                            cur = nx;
                        },
                    }
                } else {
                    // Continue depth-first into the cheapest child; the
                    // rest join the pool.
                    let mut m: usize = 0;
                    let mut k: usize = 1;
                    while k < children.len()
                        invariant
                            m < children@.len(),
                            1 <= k <= children@.len(),
                        decreases children@.len() - k,
                    {
                        if children[k].lower_bound < children[m].lower_bound {
                            m = k;
                        }
                        k += 1;
                    }
                    let ghost children_prev = children@;
                    let ghost cur_prev = cur;
                    let ghost open_prev = open@;
                    let c = children.swap_remove(m);
                    proof {
                        lemma_open_pot_swap_remove(ni, children_prev, m as int);
                        assert forall|k: int| 0 <= k < children@.len() implies (
                        #[trigger] children@[k]).wf(ni) && relaxed(*inst, children@[k]) by {
                            assert(children@[k] == children_prev.update(
                                m as int,
                                children_prev.last(),
                            )[k]);
                        }
                    }
                    cur = c;
                    // Move the remaining children into the pool.
                    while children.len() > 0
                        invariant
                            inst.wf(),
                            n == inst.n,
                            ni == n as int,
                            forall|k: int| 0 <= k < children@.len()
                                ==> (#[trigger] children@[k]).wf(ni) && relaxed(
                                    *inst,
                                    children@[k],
                                ),
                            forall|k: int| 0 <= k < open@.len() ==> (#[trigger] open@[k]).wf(ni)
                                && relaxed(*inst, open@[k]),
                            open_pot(ni, open@) + open_pot(ni, children@) == open_pot(
                                ni,
                                open_prev,
                            ) + open_pot(ni, children_prev) - node_pot(ni, c),
                        decreases children@.len(),
                    {
                        let ghost open_mid = open@;
                        match children.pop() {
                            Some(c2) => {
                                proof {
                                    lemma_open_pot_push(ni, open_mid, c2);
                                }
                                open.push(c2);
                            },
                            None => {},
                        }
                    }
                    proof {
                        // The children together weigh strictly less than the
                        // node they split.
                        assert(free_count(c.excl()) == f - 2);
                        assert(node_pot(ni, c) == fp);
                        assert((f - 2) as nat + 2 == f as nat);
                        vstd::arithmetic::power::lemma_pow_adds(ni + 2, 2, (f - 2) as nat);
                        vstd::arithmetic::power::lemma_square_is_pow2(ni + 2);
                        assert(node_pot(ni, cur_prev) == pow(ni + 2, f as nat));
                        assert(pow(ni + 2, f as nat) == (ni + 2) * (ni + 2) * fp);
                        lemma_node_pot_pos(ni, c);
                        assert(open_pot(ni, open@) == open_pot(ni, open_prev) + open_pot(
                            ni,
                            children_prev,
                        ) - node_pot(ni, c));
                        assert(open_pot(ni, children_prev) == children_prev.len() * fp);
                        assert(children_prev.len() * fp < (ni + 2) * (ni + 2) * fp)
                            by (nonlinear_arith)
                            requires
                                0 <= children_prev.len() <= 1 + ni,
                                3 <= ni,
                                fp >= 1,
                        ;
                        assert(node_pot(ni, cur) + open_pot(ni, open@) < node_pot(ni, cur_prev)
                            + open_pot(ni, open_prev));
                        lemma_open_pot_nonneg(ni, open@);
                    }
                }
            },
            None => {
                // The node is pruned, or it is a complete tour: a tour that
                // improves on the incumbent replaces it.
                let ghost cur_prev = cur;
                if !prune {
                    let better = match &best {
                        Some(b) => cur.lower_bound < b.lower_bound,
                        None => true,
                    };
                    if better {
                        best = Some(cur);
                    }
                }
                proof {
                    if n == 3 {
                        assert(best is Some);
                    }
                }
                let ghost open_prev = open@;
                match pop_min(&mut open) {
                    None => {
                        return conclude(inst, best);
                    },
                    Some(nx) => {
                        proof {
                            if n == 3 {
                                assert(open_prev.len() == 0);
                                assert(false);
                            }
                            let wi = choose|wi: int|
                                0 <= wi < open_prev.len() && nx == open_prev[wi] && open@
                                    == open_prev.update(wi, open_prev.last()).drop_last();
                            lemma_open_pot_swap_remove(ni, open_prev, wi);
                            lemma_node_pot_pos(ni, cur_prev);
                            assert(node_pot(ni, nx) + open_pot(ni, open@) == open_pot(
                                ni,
                                open_prev,
                            ));
                            assert(node_pot(ni, nx) + open_pot(ni, open@) < node_pot(
                                ni,
                                cur_prev,
                            ) + open_pot(ni, open_prev));
                            lemma_node_pot_pos(ni, nx);
                            lemma_open_pot_nonneg(ni, open@);
                            assert forall|k: int| 0 <= k < open@.len() implies (
                            #[trigger] open@[k]).wf(ni) && relaxed(*inst, open@[k]) by {
                                assert(open@[k] == open_prev.update(wi, open_prev.last())[k]);
                            }
                        }
                        let stop = match &best {
                            Some(b) => nx.lower_bound > b.lower_bound,
                            None => false,
                        };
                        if stop {
                            return conclude(inst, best);
                        }
                        cur = nx;
                    },
                }
            },
        }
    }
}

/// Removing a node by swapping in the last entry subtracts its weight.
pub proof fn lemma_open_pot_swap_remove(n: int, s: Seq<Node>, i: int)
    requires
        0 <= i < s.len(),
    ensures
        open_pot(n, s.update(i, s.last()).drop_last()) == open_pot(n, s) - node_pot(n, s[i]),
{
    let s2 = s.update(i, s.last());
    lemma_open_pot_update(n, s, i, s.last());
    if i == s.len() - 1 {
        assert(s2 =~= s);
        assert(open_pot(n, s2) == open_pot(n, s2.drop_last()) + node_pot(n, s2.last()));
    } else {
        assert(s2.last() == s.last());
        assert(open_pot(n, s2) == open_pot(n, s2.drop_last()) + node_pot(n, s2.last()));
    }
}

} // verus!
