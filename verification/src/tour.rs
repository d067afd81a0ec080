//! Reading the final tour out of an incumbent node: follow the parent
//! pointers from vertex 0 until they return to 0, checking along the way
//! that the walk really is a Hamiltonian cycle, and summing the exact edge
//! costs from the cost matrix.

use vstd::prelude::*;

use crate::instance::TspInstance;
use crate::node::Node;
use crate::onetree::lemma_masked_flip;
use crate::onetree::rooted_three_cycle;
use crate::sums::lemma_sum_update;
use crate::sums::masked_pcost_seq;
use crate::sums::masked_pcost_sum;
use crate::sums::pcost_seq;
use crate::sums::pcost_sum;
use crate::sums::sum_int;
use crate::sums::trues_seq;
use crate::MAX_COST;

verus! {

broadcast use
    crate::sums::lemma_view2_index,
    crate::sums::lemma_trues_seq_index,
    crate::sums::lemma_masked_pcost_seq_index,
    crate::sums::lemma_pcost_seq_index;

/// A complete tour: the visiting order, starting at vertex 0, and its
/// exact total cost.
pub struct Tour {
    /// The vertices in visiting order; a permutation of `0 .. n` whose
    /// first entry is 0.
    pub order: Vec<usize>,
    /// Sum of the matrix costs of consecutive edges, the closing edge back
    /// to the start included.
    pub cost: i64,
}

/// Cost of the open path `order[k], order[k + 1], ...` without the closing
/// edge.
pub open spec fn path_cost_from(mat: Seq<Seq<i64>>, order: Seq<usize>, k: int) -> int
    decreases order.len() - k,
{
    if k < 0 || k + 1 >= order.len() {
        0
    } else {
        mat[order[k] as int][order[k + 1] as int] + path_cost_from(mat, order, k + 1)
    }
}

/// Cost of the open path through all of `order`.
pub open spec fn path_cost(mat: Seq<Seq<i64>>, order: Seq<usize>) -> int {
    path_cost_from(mat, order, 0)
}

/// Cost of the closed tour through `order`: the open path plus the edge
/// from the last vertex back to the first.
pub open spec fn tour_cost(mat: Seq<Seq<i64>>, order: Seq<usize>) -> int {
    if order.len() == 0 {
        0
    } else {
        path_cost(mat, order) + mat[order.last() as int][order[0] as int]
    }
}

/// `order` visits every vertex of `0 .. n` exactly once, starting at 0.
pub open spec fn is_tour_order(n: int, order: Seq<usize>) -> bool {
    &&& order.len() == n
    &&& n > 0 ==> order[0] == 0
    &&& forall|a: int| 0 <= a < n ==> (#[trigger] order[a]) < n
    &&& forall|a: int, b: int| 0 <= a < b < n ==> order[a] != order[b]
    &&& forall|v: int| 0 <= v < n ==> #[trigger] order.contains(v as usize)
}

/// Appending a vertex extends the open path by one edge.
proof fn lemma_path_push(mat: Seq<Seq<i64>>, order: Seq<usize>, x: usize, k: int)
    requires
        order.len() >= 1,
        0 <= k < order.len(),
    ensures
        path_cost_from(mat, order.push(x), k) == path_cost_from(mat, order, k)
            + mat[order.last() as int][x as int],
    decreases order.len() - k,
{
    if k + 1 == order.len() {
        assert(path_cost_from(mat, order, k) == 0);
        assert(path_cost_from(mat, order.push(x), k + 1) == 0);
    } else {
        lemma_path_push(mat, order, x, k + 1);
    }
}

/// The closed tour costs the open path plus the closing edge; stated over
/// the recursion.
proof fn lemma_tour_is_path_plus_close(mat: Seq<Seq<i64>>, order: Seq<usize>)
    requires
        order.len() >= 1,
    ensures
        tour_cost(mat, order) == path_cost(mat, order) + mat[order.last() as int][order[0] as int],
{
}

/// The vertex reached after following `parent` pointers `k` times from
/// vertex 0.
pub open spec fn orbit(parent: Seq<usize>, k: nat) -> usize
    decreases k,
{
    if k == 0 {
        0
    } else {
        parent[orbit(parent, (k - 1) as nat) as int]
    }
}

/// The parent array encodes one Hamiltonian cycle through vertex 0: the
/// walk from 0 visits `n` pairwise distinct vertices and then returns
/// to 0.
pub open spec fn parent_encodes_cycle(n: int, parent: Seq<usize>) -> bool {
    &&& parent.len() == n
    &&& 1 <= n
    &&& forall|a: int, b: int|
        #![trigger orbit(parent, a as nat), orbit(parent, b as nat)]
        0 <= a < b < n ==> orbit(parent, a as nat) != orbit(parent, b as nat)
    &&& orbit(parent, n as nat) == 0
}

/// A three-vertex cycle encoding satisfies the general cycle predicate.
pub proof fn lemma_three_cycle_encodes(parent: Seq<usize>)
    requires
        rooted_three_cycle(parent),
    ensures
        parent_encodes_cycle(3, parent),
{
    let a = parent[0];
    let b = parent[a as int];
    assert(orbit(parent, 0) == 0);
    assert(orbit(parent, 1) == a);
    assert(orbit(parent, 2) == b);
    assert(orbit(parent, 3) == parent[b as int]);
    assert forall|x: int, y: int|
        #![trigger orbit(parent, x as nat), orbit(parent, y as nat)]
        0 <= x < y < 3 implies orbit(parent, x as nat) != orbit(parent, y as nat) by {
        assert(orbit(parent, 0) == 0);
        assert(orbit(parent, 1) == a);
        assert(orbit(parent, 2) == b);
    }
}

/// Walks the parent pointers of `nd` from vertex 0 and returns the tour
/// they encode, with its exact cost from the instance's matrix.  Returns
/// `Ok` exactly when the walk returns to 0 after visiting every vertex
/// once; any shorter or tangled walk is reported as infeasible.
pub fn extract_tour(inst: &TspInstance, nd: &Node) -> (r: Result<Tour, crate::SolveError>)
    requires
        inst.wf(),
        nd.parent@.len() == inst.n,
        forall|v: int| 0 <= v < inst.n ==> (#[trigger] nd.parent@[v]) < inst.n,
    ensures
        match r {
            Ok(t) => {
                &&& is_tour_order(inst.n as int, t.order@)
                &&& t.cost == tour_cost(inst.matrix(), t.order@)
                &&& t.cost == pcost_sum(inst.matrix(), nd.parent@)
                &&& 0 <= t.cost <= inst.n * MAX_COST
            },
            Err(e) => e == crate::SolveError::InfeasibleRelaxation,
        },
        parent_encodes_cycle(inst.n as int, nd.parent@) ==> r is Ok,
{
    let n = inst.n;
    let ghost mat = inst.matrix();
    let mut order: Vec<usize> = Vec::new();
    let mut visited: Vec<bool> = Vec::new();
    let mut k: usize = 0;
    while k < n
        invariant
            k <= n,
            visited@.len() == k,
            forall|v: int| 0 <= v < k ==> !(#[trigger] visited@[v]),
        decreases n - k,
    {
        visited.push(false);
        k += 1;
    }
    order.push(0);
    visited[0] = true;
    proof {
        crate::sums::lemma_sum_bounds(
            trues_seq(Seq::new(n as nat, |v: int| false)),
            0,
            0,
        );
        assert(trues_seq(visited@) =~= trues_seq(Seq::new(n as nat, |v: int| false)).update(
            0,
            1int,
        ));
        lemma_sum_update(trues_seq(Seq::new(n as nat, |v: int| false)), 0, 1int);
        crate::sums::lemma_sum_bounds(
            masked_pcost_seq(
                mat,
                nd.parent@,
                Seq::new(n as nat, |v: int| visited@[v] && v != 0),
            ),
            0,
            0,
        );
        assert forall|v: int| 0 <= v < n implies ((#[trigger] visited@[v]) <==> order@.contains(
            v as usize,
        )) by {
            if v == 0 {
                assert(order@[0] == 0usize);
            } else {
                if order@.contains(v as usize) {
                    let a = choose|a: int| 0 <= a < order@.len() && order@[a] == v as usize;
                    assert(a == 0);
                    assert(false);
                }
            }
        }
    }
    let mut cost: i64 = 0;
    let mut cur: usize = 0;
    loop
        invariant
            inst.wf(),
            n == inst.n,
            mat == inst.matrix(),
            nd.parent@.len() == n,
            forall|v: int| 0 <= v < n ==> (#[trigger] nd.parent@[v]) < n,
            visited@.len() == n,
            1 <= order@.len() <= n,
            order@[0] == 0,
            cur < n,
            order@.last() == cur,
            forall|a: int| 0 <= a < order@.len() ==> (#[trigger] order@[a]) < n,
            forall|a: int, b: int| 0 <= a < b < order@.len() ==> order@[a] != order@[b],
            forall|v: int| 0 <= v < n
                ==> ((#[trigger] visited@[v]) <==> order@.contains(v as usize)),
            sum_int(trues_seq(visited@)) == order@.len(),
            cost == path_cost(mat, order@),
            cost == masked_pcost_sum(
                mat,
                nd.parent@,
                Seq::new(n as nat, |v: int| visited@[v] && v != cur as int),
            ),
            0 <= cost,
            cost <= (order@.len() - 1) * MAX_COST,
            parent_encodes_cycle(n as int, nd.parent@) ==> forall|k: int|
                0 <= k < order@.len() ==> #[trigger] order@[k] == orbit(nd.parent@, k as nat),
        decreases n - order@.len(),
    {
        let nxt = nd.parent[cur];
        proof {
            assert(mat[cur as int] == inst.cost@[cur as int]@);
            assert(0 <= mat[cur as int][nxt as int] <= MAX_COST);
        }
        let c = inst.cost[cur][nxt];
        let ghost order_prev = order@;
        if nxt == 0 {
            if order.len() == n {
                let total = cost + c;
                proof {
                    let mask = Seq::new(n as nat, |v: int| visited@[v] && v != cur as int);
                    lemma_masked_flip(mat, nd.parent@, mask, cur as int);
                    assert(mask.update(cur as int, true) =~= Seq::new(
                        n as nat,
                        |v: int| visited@[v],
                    ));
                    crate::sums::lemma_sum_saturated(trues_seq(visited@), 1);
                    assert forall|k: int| 0 <= k < n implies masked_pcost_seq(
                        mat,
                        nd.parent@,
                        Seq::new(n as nat, |v: int| visited@[v]),
                    )[k] == pcost_seq(mat, nd.parent@)[k] by {
                        assert(trues_seq(visited@)[k] == 1);
                        assert(visited@[k]);
                    }
                    assert(masked_pcost_seq(
                        mat,
                        nd.parent@,
                        Seq::new(n as nat, |v: int| visited@[v]),
                    ) =~= pcost_seq(mat, nd.parent@));
                    assert(total == pcost_sum(mat, nd.parent@));
                    lemma_tour_is_path_plus_close(mat, order@);
                    // Surjectivity: all n indicator entries are 1.
                    crate::sums::lemma_sum_saturated(trues_seq(visited@), 1);
                    assert forall|v: int| 0 <= v < n implies #[trigger] order@.contains(
                        v as usize,
                    ) by {
                        assert(trues_seq(visited@)[v] == 1);
                        assert(visited@[v]);
                    }
                }
                return Ok(Tour { order, cost: total });
            } else {
                proof {
                    if parent_encodes_cycle(n as int, nd.parent@) {
                        let pl = order@.len() as int;
                        assert(order@[pl - 1] == orbit(nd.parent@, (pl - 1) as nat));
                        assert(orbit(nd.parent@, pl as nat) == nd.parent@[orbit(
                            nd.parent@,
                            (pl - 1) as nat,
                        ) as int]);
                        assert(nxt == orbit(nd.parent@, pl as nat));
                        assert(orbit(nd.parent@, 0) == 0);
                        // A premature return to 0 repeats an orbit value.
                        assert(orbit(nd.parent@, 0) != orbit(nd.parent@, pl as nat));
                        assert(false);
                    }
                }
                return Err(crate::SolveError::InfeasibleRelaxation);
            }
        }
        if visited[nxt] {
            proof {
                if parent_encodes_cycle(n as int, nd.parent@) {
                    let pl = order@.len() as int;
                    assert(order@[pl - 1] == orbit(nd.parent@, (pl - 1) as nat));
                    assert(orbit(nd.parent@, pl as nat) == nd.parent@[orbit(
                        nd.parent@,
                        (pl - 1) as nat,
                    ) as int]);
                    assert(nxt == orbit(nd.parent@, pl as nat));
                    if pl < n {
                        // A revisited vertex repeats an orbit value.
                        let k = choose|k: int| 0 <= k < order@.len() && order@[k] == nxt;
                        assert(order@[k] == orbit(nd.parent@, k as nat));
                        assert(orbit(nd.parent@, k as nat) != orbit(nd.parent@, pl as nat));
                    } else {
                        // A full walk must have closed at 0 already.
                        assert(orbit(nd.parent@, n as nat) == 0);
                    }
                    assert(false);
                }
            }
            return Err(crate::SolveError::InfeasibleRelaxation);
        }
        if order.len() >= n {
            proof {
                if parent_encodes_cycle(n as int, nd.parent@) {
                    let pl = order@.len() as int;
                    assert(pl == n);
                    assert(order@[pl - 1] == orbit(nd.parent@, (pl - 1) as nat));
                    assert(orbit(nd.parent@, pl as nat) == nd.parent@[orbit(
                        nd.parent@,
                        (pl - 1) as nat,
                    ) as int]);
                    assert(nxt == orbit(nd.parent@, n as nat));
                    assert(nxt == 0);
                    assert(false);
                }
            }
            return Err(crate::SolveError::InfeasibleRelaxation);
        }
        let ghost vis_prev = visited@;
        visited[nxt] = true;
        order.push(nxt);
        cost = cost + c;
        proof {
            lemma_path_push(mat, order_prev, nxt, 0);
            assert(trues_seq(visited@) =~= trues_seq(vis_prev).update(nxt as int, 1int));
            lemma_sum_update(trues_seq(vis_prev), nxt as int, 1int);
            if parent_encodes_cycle(n as int, nd.parent@) {
                let pl = order_prev.len() as int;
                assert(order_prev[pl - 1] == orbit(nd.parent@, (pl - 1) as nat));
                assert(orbit(nd.parent@, pl as nat) == nd.parent@[orbit(
                    nd.parent@,
                    (pl - 1) as nat,
                ) as int]);
                assert(nxt == orbit(nd.parent@, pl as nat));
                assert forall|k: int| 0 <= k < order@.len() implies #[trigger] order@[k]
                    == orbit(nd.parent@, k as nat) by {
                    if k < pl {
                        assert(order@[k] == order_prev[k]);
                    }
                }
            }
            let mask_prev = Seq::new(n as nat, |v: int| vis_prev[v] && v != cur as int);
            lemma_masked_flip(mat, nd.parent@, mask_prev, cur as int);
            assert(Seq::new(n as nat, |v: int| visited@[v] && v != nxt as int) =~= mask_prev.update(
                cur as int,
                true,
            ));
            assert(order@ == order_prev.push(nxt));
            assert forall|v: int| 0 <= v < n implies ((#[trigger] visited@[v]) <==> order@.contains(
                v as usize,
            )) by {
                if visited@[v] {
                    if v == nxt {
                        assert(order@[order@.len() - 1] == nxt);
                    } else {
                        assert(vis_prev[v]);
                        let a = choose|a: int|
                            0 <= a < order_prev.len() && order_prev[a] == v as usize;
                        assert(order@[a] == v as usize);
                    }
                } else {
                    if order@.contains(v as usize) {
                        let a = choose|a: int| 0 <= a < order@.len() && order@[a] == v as usize;
                        if a < order_prev.len() {
                            assert(order_prev[a] == v as usize);
                            assert(order_prev.contains(v as usize));
                        } else {
                            assert(order@[a] == nxt);
                        }
                        assert(false);
                    }
                }
            }
        }
        cur = nxt;
    }
}

} // verus!
