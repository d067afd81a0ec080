//! The Held–Karp relaxation: subgradient ascent on the Lagrangian
//! multipliers, one minimum 1-tree per step, until the step scale decays
//! below its floor, the degree violations vanish, or the bound can no
//! longer beat the incumbent.

use vstd::prelude::*;

use crate::instance::TspInstance;
use crate::node::Node;
use crate::onetree::compute_one_tree;
use crate::onetree::lemma_round_multiple;
use crate::onetree::one_tree_bound_eq;
use crate::onetree::one_tree_degrees;
use crate::sums::deg_pi_seq;
use crate::sums::deg_pi_sum;
use crate::sums::int_seq;
use crate::sums::int_seq_usize;
use crate::sums::lemma_sum_nonneg;
use crate::sums::lemma_sum_offset;
use crate::sums::lemma_sum_push;
use crate::sums::lemma_sum_twice;
use crate::sums::pcost_seq;
use crate::sums::pcost_sum;
use crate::sums::sum_int;
use crate::LB_LIMIT;
use crate::PI_LIMIT;
use crate::SCALE;

verus! {

broadcast use
    crate::sums::lemma_view2_index,
    crate::sums::lemma_int_seq_index,
    crate::sums::lemma_int_seq_usize_index,
    crate::sums::lemma_deg_pi_seq_index,
    crate::sums::lemma_pcost_seq_index;

/// Initial step scale, about one tenth; `lambda` is held in fixed point
/// with 1048576 units to one.
pub const LAMBDA_START: i64 = 104857;

/// The relaxation stops once `lambda` decays to this floor, about 1e-6.
pub const LAMBDA_FLOOR: i64 = 1;

/// What a finished relaxation guarantees: the node carries a well-formed
/// 1-tree, its bound is in range, and if that 1-tree happens to be a tour
/// (every degree 2) the bound equals the tour's exact edge-cost sum.
pub open spec fn relaxed(inst: TspInstance, nd: Node) -> bool {
    &&& one_tree_degrees(inst.n as int, nd)
    &&& -LB_LIMIT <= nd.lower_bound <= LB_LIMIT
    &&& (forall|v: int| 1 <= v < inst.n ==> #[trigger] nd.degree@[v] == 2)
        ==> nd.lower_bound == SCALE * pcost_sum(inst.matrix(), nd.parent@)
}

/// With every degree equal to 2 the multipliers cancel out of the bound:
/// the degree-weighted multiplier sum is twice the plain multiplier sum,
/// which a well-formed node keeps at zero, and rounding leaves the whole
/// multiple of `SCALE` unchanged.
pub proof fn lemma_perfect_tree_bound(inst: TspInstance, nd: Node)
    requires
        inst.wf(),
        nd.wf(inst.n as int),
        one_tree_degrees(inst.n as int, nd),
        one_tree_bound_eq(inst.matrix(), nd),
        forall|v: int| 1 <= v < inst.n ==> #[trigger] nd.degree@[v] == 2,
    ensures
        nd.lower_bound == SCALE * pcost_sum(inst.matrix(), nd.parent@),
{
    let n = inst.n as int;
    let mat = inst.matrix();
    // Every degree is 2, vertex 0 included.
    assert(nd.degree@[0] == 2);
    let dp = deg_pi_seq(nd.degree@, nd.pi@);
    let ps = int_seq(nd.pi@);
    assert forall|k: int| 0 <= k < dp.len() implies #[trigger] dp[k] == 2 * ps[k] by {
        assert(nd.degree@[k] == 2);
        assert((2int) * (nd.pi@[k] as int) == 2 * (nd.pi@[k] as int));
    }
    lemma_sum_twice(dp, ps);
    assert(deg_pi_sum(nd.degree@, nd.pi@) == 0);
    // The parent-edge cost sum is non-negative.
    let pc = pcost_seq(mat, nd.parent@);
    assert forall|k: int| 0 <= k < pc.len() implies #[trigger] pc[k] >= 0 by {
        assert(nd.parent@[k] < n);
        assert(0 <= mat[k][nd.parent@[k] as int]);
    }
    lemma_sum_nonneg(pc);
    lemma_round_multiple(pcost_sum(mat, nd.parent@));
}

/// One subgradient step: `lambda * lower_bound / denom`, in fixed-point
/// arithmetic, truncated toward zero.  Only a magnitude bound is promised;
/// the step size is a heuristic and every sound step keeps the search
/// correct.
fn subgradient_step(lambda: i64, lb: i64, denom: i64) -> (t: i64)
    requires
        1 <= lambda <= LAMBDA_START,
        -LB_LIMIT <= lb <= LB_LIMIT,
        1 <= denom <= 600000000,
    ensures
        -300000000000000 <= t <= 300000000000000,
{
    let lam = lambda as u128;
    let mag = if lb >= 0 {
        lb as u128
    } else {
        (-lb) as u128
    };
    proof {
        assert(lam * mag <= 104857 * (LB_LIMIT as u128)) by (nonlinear_arith)
            requires
                0 <= lam <= 104857,
                0 <= mag <= LB_LIMIT as u128,
        ;
    }
    let num = lam * mag;
    let den = (denom as u128) * 1048576;
    let q = num / den;
    proof {
        vstd::arithmetic::div_mod::lemma_div_is_ordered_by_denominator(
            num as int,
            1048576,
            den as int,
        );
        vstd::arithmetic::div_mod::lemma_div_is_ordered(
            num as int,
            104857 * (LB_LIMIT as int),
            1048576,
        );
        assert(104857 * (LB_LIMIT as int) / 1048576 < 300000000000000);
    }
    let tq = q as i64;
    if lb < 0 {
        -tq
    } else {
        tq
    }
}

/// Tightens the node's lower bound by subgradient ascent on its
/// multipliers, recomputing the minimum 1-tree after every step.  Stops
/// when the 1-tree is already a tour, when the bound reaches the incumbent
/// bound `best_bound` (the caller then prunes), when a multiplier would
/// leave its safe range, or when `lambda` decays below its floor.  The
/// exclusions are never touched.  Fails only if the subproblem admits no
/// 1-tree at all, and then hands back a structural witness: vertex 0
/// starved of edges, or a fully excluded cut.
pub fn compute_held_karp(
    inst: &TspInstance,
    node: &mut Node,
    best_bound: Option<i64>,
) -> (r: Result<(), crate::SolveError>)
    requires
        inst.wf(),
        old(node).wf(inst.n as int),
    ensures
        final(node).wf(inst.n as int),
        final(node).excl() == old(node).excl(),
        match r {
            Ok(()) => relaxed(*inst, *final(node)),
            Err(e) => e == crate::SolveError::InfeasibleRelaxation,
        },
        crate::onetree::nothing_excluded(inst.n as int, old(node).excl()) ==> r is Ok,
        r is Err ==> crate::onetree::one_tree_blocked(inst.n as int, old(node).excl()),
        inst.n == 3 && r is Ok ==> (forall|v: int| 0 <= v < 3 ==> final(node).degree@[v] == 2)
            && crate::onetree::rooted_three_cycle(final(node).parent@),
{
    let n = inst.n;
    let mut lambda: i64 = LAMBDA_START;
    node.lower_bound = i64::MIN;
    loop
        invariant
            inst.wf(),
            n == inst.n,
            node.wf(n as int),
            node.excl() == old(node).excl(),
            1 <= lambda <= LAMBDA_START,
            LAMBDA_FLOOR < lambda,
        decreases lambda, node.lower_bound - i64::MIN,
    {
        let previous = node.lower_bound;
        match compute_one_tree(inst, node) {
            Ok(()) => {},
            Err(e) => {
                return Err(e);
            },
        }
        let pruned = match best_bound {
            Some(b) => node.lower_bound >= b,
            None => false,
        };
        if pruned {
            proof {
                if forall|v: int| 1 <= v < n ==> #[trigger] node.degree@[v] == 2 {
                    lemma_perfect_tree_bound(*inst, *node);
                }
            }
            return Ok(());
        }
        if node.lower_bound >= previous {
            let decayed = ((lambda as u64) * 9 / 10) as i64;
            proof {
                assert((lambda as u64) * 9 / 10 < lambda as u64) by (nonlinear_arith)
                    requires
                        2 <= lambda as u64 <= 104857,
                ;
            }
            lambda = decayed;
        }
        // Total squared degree violation over vertices 1 .. n.
        let mut denom: i64 = 0;
        let ghost mut bad: int = 0;
        let mut i: usize = 1;
        while i < n
            invariant
                n == node.degree@.len(),
                forall|v: int| 0 <= v < n ==> #[trigger] node.degree@[v] <= 2 * n,
                n <= crate::MAX_N,
                1 <= i <= n,
                0 <= denom <= (i - 1) * 1100000,
                (denom == 0) <==> (forall|v: int| 1 <= v < i ==> #[trigger] node.degree@[v]
                    == 2),
                denom != 0 ==> 1 <= bad < i && node.degree@[bad] != 2,
            decreases n - i,
        {
            let d = node.degree[i] as i64;
            let viol = d - 2;
            proof {
                assert(0 <= viol * viol <= 1100000) by (nonlinear_arith)
                    requires
                        -2 <= viol <= 1024,
                ;
                assert(viol != 0 ==> viol * viol >= 1) by (nonlinear_arith)
                    requires
                        -2 <= viol <= 1024,
                ;
                assert(viol == 0 ==> viol * viol == 0) by (nonlinear_arith);
                if viol != 0 {
                    bad = i as int;
                }
            }
            denom = denom + viol * viol;
            i += 1;
        }
        if denom == 0 {
            proof {
                if forall|v: int| 1 <= v < n ==> #[trigger] node.degree@[v] == 2 {
                    lemma_perfect_tree_bound(*inst, *node);
                }
            }
            return Ok(());
        }
        let t_step = subgradient_step(lambda, node.lower_bound, denom);

        // First pass: the updated multipliers, each checked against the safe
        // range.  The update is applied only as a whole so that the zero sum
        // of the multipliers is preserved exactly.
        let ghost pi_old = node.pi@;
        let mut new_pi: Vec<i64> = Vec::new();
        new_pi.push(node.pi[0]);
        let mut in_range = true;
        let ghost mut psum: int = pi_old[0] as int;
        let ghost mut dsum: int = 0;
        proof {
            assert(int_seq(new_pi@) =~= Seq::<int>::empty().push(pi_old[0] as int));
            lemma_sum_push(Seq::<int>::empty(), pi_old[0] as int);
            assert(int_seq(pi_old).subrange(0, 1) =~= Seq::<int>::empty().push(
                pi_old[0] as int,
            ));
            assert(Seq::new(1nat, |v: int| node.degree@[v] as int - 2) =~= Seq::<
                int,
            >::empty().push(node.degree@[0] as int - 2));
            lemma_sum_push(Seq::<int>::empty(), node.degree@[0] as int - 2);
            assert(node.degree@[0] == 2);
        }
        let mut v: usize = 1;
        while v < n
            invariant
                n == node.degree@.len(),
                n == node.pi@.len(),
                node.pi@ == pi_old,
                forall|w: int| 0 <= w < n ==> -PI_LIMIT <= #[trigger] pi_old[w] <= PI_LIMIT,
                forall|w: int| 0 <= w < n ==> #[trigger] node.degree@[w] <= 2 * n,
                n <= crate::MAX_N,
                -300000000000000 <= t_step <= 300000000000000,
                1 <= v <= n,
                new_pi@.len() == v,
                new_pi@[0] == pi_old[0],
                in_range ==> forall|w: int| 0 <= w < v ==> -PI_LIMIT
                    <= #[trigger] new_pi@[w] <= PI_LIMIT,
                sum_int(int_seq(new_pi@)) == psum + t_step * dsum,
                psum == sum_int(int_seq(pi_old).subrange(0, v as int)),
                dsum == sum_int(Seq::new(v as nat, |w: int| node.degree@[w] as int - 2)),
            decreases n - v,
        {
            let d = node.degree[v] as i64;
            proof {
                assert(-310000000000000000 <= t_step * (d - 2) <= 310000000000000000)
                    by (nonlinear_arith)
                    requires
                        -300000000000000 <= t_step <= 300000000000000,
                        -2 <= d - 2 <= 1024,
                ;
            }
            let upd = t_step * (d - 2);
            let nv = node.pi[v] + upd;
            if nv < -PI_LIMIT || nv > PI_LIMIT {
                in_range = false;
            }
            let ghost np_prev = new_pi@;
            new_pi.push(nv);
            proof {
                assert(int_seq(new_pi@) =~= int_seq(np_prev).push(nv as int));
                lemma_sum_push(int_seq(np_prev), nv as int);
                // Partial sums advance by one entry.
                assert(int_seq(pi_old).subrange(0, v as int + 1) =~= int_seq(
                    pi_old,
                ).subrange(0, v as int).push(pi_old[v as int] as int));
                lemma_sum_push(int_seq(pi_old).subrange(0, v as int), pi_old[v as int] as int);
                assert(Seq::new((v + 1) as nat, |w: int| node.degree@[w] as int - 2) =~= Seq::new(
                    v as nat,
                    |w: int| node.degree@[w] as int - 2,
                ).push(node.degree@[v as int] as int - 2));
                lemma_sum_push(
                    Seq::new(v as nat, |w: int| node.degree@[w] as int - 2),
                    node.degree@[v as int] as int - 2,
                );
                assert(t_step * (dsum + (d - 2)) == t_step * dsum + t_step * (d - 2))
                    by (nonlinear_arith);
                psum = psum + pi_old[v as int] as int;
                dsum = dsum + (d - 2) as int;
            }
            v += 1;
        }
        if in_range {
            proof {
                // The violations over all vertices sum to zero, so the new
                // multipliers sum to zero as the old ones did.
                let full = Seq::new(n as nat, |w: int| node.degree@[w] as int - 2);
                let ds = int_seq_usize(node.degree@);
                lemma_sum_offset(ds, full, -2);
                assert(sum_int(full) == 0);
                assert(int_seq(pi_old).subrange(0, n as int) =~= int_seq(pi_old));
                assert(t_step * 0 == 0) by (nonlinear_arith);
                assert(sum_int(int_seq(new_pi@)) == 0);
            }
            node.pi = new_pi;
        } else {
            // A multiplier would leave its safe range: stop ascending and
            // keep the bound already computed.
            proof {
                assert(node.degree@[bad] != 2);
                assert(!(forall|v2: int| 1 <= v2 < n ==> #[trigger] node.degree@[v2] == 2));
            }
            return Ok(());
        }
        if lambda <= LAMBDA_FLOOR {
            proof {
                assert(node.degree@[bad] != 2);
                assert(!(forall|v2: int| 1 <= v2 < n ==> #[trigger] node.degree@[v2] == 2));
            }
            return Ok(());
        }
    }
}

} // verus!
