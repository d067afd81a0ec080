//! Tests of the relaxation layer: 1-trees, the Held–Karp bound, and tour
//! extraction from a finished node.

use tsplib::{
    compute_held_karp, compute_one_tree, extract_tour, Node, SolveError, TspInstance, SCALE,
};

fn unit_triangle() -> TspInstance {
    let m: Vec<Vec<i64>> = vec![vec![0, 1, 1], vec![1, 0, 1], vec![1, 1, 0]];
    TspInstance::from_matrix(m).unwrap()
}

#[test]
fn one_tree_on_triangle_is_the_tour() {
    // On three nodes the only 1-tree is the triangle itself: every degree
    // is 2 and the bound equals the tour cost in fixed-point units.
    let inst = unit_triangle();
    let mut node = Node::root(3);
    compute_one_tree(&inst, &mut node).unwrap();
    for v in 0..3 {
        assert_eq!(node.degree_of(v), 2);
    }
    assert_eq!(node.bound(), 3 * SCALE);
}

#[test]
fn held_karp_keeps_perfect_tree_exact() {
    // With all degrees at 2 the relaxation stops at once and its bound is
    // the exact tour cost in fixed-point units.
    let inst = unit_triangle();
    let mut node = Node::root(3);
    compute_held_karp(&inst, &mut node, None).unwrap();
    for v in 0..3 {
        assert_eq!(node.degree_of(v), 2);
    }
    assert_eq!(node.bound(), 3 * SCALE);
}

#[test]
fn extraction_matches_the_parents() {
    let inst = unit_triangle();
    let mut node = Node::root(3);
    compute_held_karp(&inst, &mut node, None).unwrap();
    let tour = extract_tour(&inst, &node).unwrap();
    assert_eq!(tour.cost, 3);
    assert_eq!(tour.order.len(), 3);
    assert_eq!(tour.order[0], 0);
    // The order follows the parent pointers of the node.
    for k in 0..2 {
        assert_eq!(tour.order[k + 1], node.parent_of(tour.order[k]));
    }
    assert_eq!(node.parent_of(tour.order[2]), 0);
}

#[test]
fn excluding_an_edge_can_disconnect() {
    // Forbidding edge (0, 1) on a triangle leaves vertex 0 with a single
    // usable edge: no 1-tree exists and the relaxation reports it.
    let inst = unit_triangle();
    let root = Node::root(3);
    let mut child = root.excluding(0, 1);
    assert_eq!(
        compute_one_tree(&inst, &mut child),
        Err(SolveError::InfeasibleRelaxation)
    );
    let mut child2 = root.excluding(0, 1);
    assert_eq!(
        compute_held_karp(&inst, &mut child2, None),
        Err(SolveError::InfeasibleRelaxation)
    );
}

#[test]
fn square_relaxation_bounds_the_tour() {
    // On the 4-node square the minimum 1-tree under zero multipliers costs
    // three sides plus one more side: its bound can never exceed the
    // optimal tour in fixed-point units.
    let coords = vec![(0, 0), (0, 10), (10, 10), (10, 0)];
    let inst = TspInstance::from_coords(&coords).unwrap();
    let mut node = Node::root(4);
    compute_one_tree(&inst, &mut node).unwrap();
    assert!(node.bound() <= 40 * SCALE);
    let mut relaxed = Node::root(4);
    compute_held_karp(&inst, &mut relaxed, None).unwrap();
    assert!(relaxed.bound() <= 40 * SCALE);
}

#[test]
fn excluding_a_cut_disconnects() {
    // On 4 nodes, forbidding (1, 3) and (2, 3) leaves vertex 3 reachable
    // only through vertex 0: the spanning tree over 1..4 cannot include it,
    // so the relaxation reports the subproblem infeasible.
    let m: Vec<Vec<i64>> = vec![
        vec![0, 1, 1, 1],
        vec![1, 0, 1, 1],
        vec![1, 1, 0, 1],
        vec![1, 1, 1, 0],
    ];
    let inst = TspInstance::from_matrix(m).unwrap();
    let root = Node::root(4);
    let step = root.excluding(1, 3);
    let mut child = step.excluding(2, 3);
    assert_eq!(
        compute_one_tree(&inst, &mut child),
        Err(SolveError::InfeasibleRelaxation)
    );
}
