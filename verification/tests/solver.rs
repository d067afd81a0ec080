//! End-to-end tests of the exact solver on small instances with known
//! optima.

use tsplib::{solve, SolveError, TspInstance};

fn matrix(rows: &[&[i64]]) -> Vec<Vec<i64>> {
    rows.iter().map(|r| r.to_vec()).collect()
}

fn assert_valid_tour(order: &[usize], n: usize) {
    assert_eq!(order.len(), n);
    assert_eq!(order[0], 0);
    let mut seen = vec![false; n];
    for &v in order {
        assert!(v < n);
        assert!(!seen[v]);
        seen[v] = true;
    }
    assert!(seen.iter().all(|&s| s));
}

#[test]
fn triangle_unit_costs() {
    let m = matrix(&[&[0, 1, 1], &[1, 0, 1], &[1, 1, 0]]);
    let inst = TspInstance::from_matrix(m).unwrap();
    let tour = solve(&inst).unwrap();
    assert_eq!(tour.cost, 3);
    assert_valid_tour(&tour.order, 3);
}

#[test]
fn triangle_pairwise_sum() {
    // A triangle has exactly one tour: its cost is the sum of all three
    // pairwise distances.
    let m = matrix(&[&[0, 3, 4], &[3, 0, 5], &[4, 5, 0]]);
    let inst = TspInstance::from_matrix(m).unwrap();
    let tour = solve(&inst).unwrap();
    assert_eq!(tour.cost, 3 + 4 + 5);
    assert_valid_tour(&tour.order, 3);
}

#[test]
fn square_euclidean() {
    // A 4-node square of side 10: sides cost 10, diagonals round to 14,
    // and the optimal tour is the perimeter.
    let coords = vec![(0, 0), (0, 10), (10, 10), (10, 0)];
    let inst = TspInstance::from_coords(&coords).unwrap();
    assert_eq!(inst.cost_between(0, 1), 10);
    assert_eq!(inst.cost_between(1, 2), 10);
    assert_eq!(inst.cost_between(0, 2), 14);
    assert_eq!(inst.cost_between(1, 3), 14);
    let tour = solve(&inst).unwrap();
    assert_eq!(tour.cost, 40);
    assert_valid_tour(&tour.order, 4);
    // The perimeter visits neighbours only: no edge of the tour is a
    // diagonal.
    for k in 0..4 {
        let a = tour.order[k];
        let b = tour.order[(k + 1) % 4];
        assert_eq!(inst.cost_between(a, b), 10);
    }
}

#[test]
fn square_with_centre() {
    // Square of side 20 plus its centre; the centre is spliced between two
    // adjacent corners: 3 sides of 20 plus 2 half-diagonals of 14.
    let coords = vec![(0, 0), (0, 20), (20, 20), (20, 0), (10, 10)];
    let inst = TspInstance::from_coords(&coords).unwrap();
    let tour = solve(&inst).unwrap();
    assert_eq!(tour.cost, 88);
    assert_valid_tour(&tour.order, 5);
}

#[test]
fn constant_costs_terminate() {
    // All distances equal: any permutation is optimal and the solver must
    // still terminate with cost n * c.
    let c = 7;
    let n = 5;
    let rows: Vec<Vec<i64>> = (0..n)
        .map(|i| (0..n).map(|j| if i == j { 0 } else { c }).collect())
        .collect();
    let inst = TspInstance::from_matrix(rows).unwrap();
    let tour = solve(&inst).unwrap();
    assert_eq!(tour.cost, n as i64 * c);
    assert_valid_tour(&tour.order, n);
}

#[test]
fn repeated_solve_same_cost() {
    let coords = vec![(0, 0), (0, 10), (10, 10), (10, 0), (5, 17)];
    let inst = TspInstance::from_coords(&coords).unwrap();
    let first = solve(&inst).unwrap();
    let second = solve(&inst).unwrap();
    assert_eq!(first.cost, second.cost);
}

#[test]
fn rounded_distances_to_nearest() {
    // Distances round to the nearest integer, not down: sqrt(2) gives 1,
    // sqrt(32) gives 6, sqrt(50) gives 7.
    let coords = vec![(0, 0), (1, 1), (5, 5)];
    let inst = TspInstance::from_coords(&coords).unwrap();
    assert_eq!(inst.cost_between(0, 1), 1);
    assert_eq!(inst.cost_between(1, 2), 6);
    assert_eq!(inst.cost_between(0, 2), 7);
    let tour = solve(&inst).unwrap();
    assert_eq!(tour.cost, 14);
}

#[test]
fn pythagorean_distances() {
    let coords = vec![(0, 0), (3, 4), (0, 8)];
    let inst = TspInstance::from_coords(&coords).unwrap();
    assert_eq!(inst.cost_between(0, 1), 5);
    assert_eq!(inst.cost_between(1, 2), 5);
    assert_eq!(inst.cost_between(0, 2), 8);
    let tour = solve(&inst).unwrap();
    assert_eq!(tour.cost, 18);
}

#[test]
fn hexagon_perimeter() {
    // Convex positions: the optimal tour walks the hull.
    let coords = vec![(0, 0), (10, 0), (20, 10), (10, 20), (0, 20), (-10, 10)];
    let inst = TspInstance::from_coords(&coords).unwrap();
    let tour = solve(&inst).unwrap();
    assert_eq!(tour.cost, 10 + 14 + 14 + 10 + 14 + 14);
    assert_valid_tour(&tour.order, 6);
}

#[test]
fn rejects_too_few_nodes() {
    let m = matrix(&[&[0, 1], &[1, 0]]);
    assert!(matches!(
        TspInstance::from_matrix(m),
        Err(SolveError::InvalidInstance)
    ));
}

#[test]
fn rejects_non_square_matrix() {
    let m = matrix(&[&[0, 1, 1], &[1, 0, 1], &[1, 1]]);
    assert!(matches!(
        TspInstance::from_matrix(m),
        Err(SolveError::InvalidInstance)
    ));
}

#[test]
fn rejects_asymmetric_matrix() {
    let m = matrix(&[&[0, 1, 2], &[1, 0, 1], &[1, 1, 0]]);
    assert!(matches!(
        TspInstance::from_matrix(m),
        Err(SolveError::InvalidInstance)
    ));
}

#[test]
fn rejects_negative_entry() {
    let m = matrix(&[&[0, -1, 1], &[-1, 0, 1], &[1, 1, 0]]);
    assert!(matches!(
        TspInstance::from_matrix(m),
        Err(SolveError::InvalidInstance)
    ));
}

#[test]
fn rejects_nonzero_diagonal() {
    let m = matrix(&[&[2, 1, 1], &[1, 0, 1], &[1, 1, 0]]);
    assert!(matches!(
        TspInstance::from_matrix(m),
        Err(SolveError::InvalidInstance)
    ));
}

#[test]
fn rejects_oversized_cost() {
    let big = 1048577;
    let m = matrix(&[&[0, big, 1], &[big, 0, 1], &[1, 1, 0]]);
    assert!(matches!(
        TspInstance::from_matrix(m),
        Err(SolveError::InvalidInstance)
    ));
}

#[test]
fn rejects_too_few_coords() {
    let coords = vec![(0, 0), (1, 1)];
    assert!(matches!(
        TspInstance::from_coords(&coords),
        Err(SolveError::InvalidInstance)
    ));
}

#[test]
fn rejects_coord_out_of_range() {
    let coords = vec![(0, 0), (1, 1), (262145, 0)];
    assert!(matches!(
        TspInstance::from_coords(&coords),
        Err(SolveError::InvalidInstance)
    ));
}

#[test]
fn accepts_cost_at_the_cap() {
    let c = 1048576;
    let m = matrix(&[&[0, c, c], &[c, 0, c], &[c, c, 0]]);
    let inst = TspInstance::from_matrix(m).unwrap();
    let tour = solve(&inst).unwrap();
    assert_eq!(tour.cost, 3 * c);
}
