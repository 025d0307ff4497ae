//! Tests of the parametric ratio engine, the minimum cycle ratio
//! solver, the bidirectional parametric solver, and the rational
//! arithmetic underneath them.

use digraphx::CycleRatioAPI;
use digraphx::DiGraph;
use digraphx::MaxParametricSolver;
use digraphx::MinCycleRatioSolver;
use digraphx::MinParametricQSolver;
use digraphx::ParametricAPI;
use digraphx::Rational;
use digraphx::set_default;

/// A single 3-cycle a->b->c->a with costs 2, 4, 3 and unit times: its
/// cost-over-time ratio is (2 + 4 + 3) / 3 = 3.
fn ring_graph() -> (DiGraph, Vec<Rational>, Vec<Rational>) {
    let mut g = DiGraph::new(3);
    g.add_edge(0, 1);
    g.add_edge(1, 2);
    g.add_edge(2, 0);
    let cost = vec![
        Rational::from_int(2),
        Rational::from_int(4),
        Rational::from_int(3),
    ];
    let time = vec![
        Rational::from_int(1),
        Rational::from_int(1),
        Rational::from_int(1),
    ];
    (g, cost, time)
}

#[test]
fn test_cycle_ratio_api_new() {
    let _api = CycleRatioAPI::new(Vec::new(), Vec::new());
    assert!(true);
}

#[test]
fn test_min_cycle_ratio_solver_new() {
    let digraph = DiGraph::new(0);
    let _solver = MinCycleRatioSolver::new(&digraph, Vec::new(), Vec::new());
    assert!(true);
}

#[test]
fn test_max_parametric_solver_new() {
    let digraph = DiGraph::new(0);
    let api = CycleRatioAPI::new(Vec::new(), Vec::new());
    let _solver = MaxParametricSolver::new(&digraph, api);
    assert!(true);
}

#[test]
fn test_min_parametric_q_solver_new() {
    let digraph = DiGraph::new(0);
    let api = CycleRatioAPI::new(Vec::new(), Vec::new());
    let _solver = MinParametricQSolver::new(&digraph, api);
    assert!(true);
}

#[test]
fn test_min_cycle_ratio_ring() {
    let (g, cost, time) = ring_graph();
    let solver = MinCycleRatioSolver::new(&g, cost, time);
    let dist = vec![Rational::zero(); 3];
    let (ratio, cycle) = solver.run(dist, Rational::from_int(10));
    assert!(ratio.eqv(&Rational::from_int(3)));
    let mut edges = cycle.clone();
    edges.sort();
    assert_eq!(edges, vec![0, 1, 2]);
}

#[test]
fn test_parametric_ratio_never_increases() {
    // The engine's trial ratio is non-increasing: the result is at most
    // the starting ratio, whatever the start.
    let (g, cost, time) = ring_graph();
    for start in [3i64, 5, 100] {
        let solver = MinCycleRatioSolver::new(&g, cost.clone(), time.clone());
        let dist = vec![Rational::zero(); 3];
        let (ratio, _) = solver.run(dist, Rational::from_int(start));
        assert!(ratio.le(&Rational::from_int(start)));
    }
}

#[test]
fn test_min_cycle_ratio_idempotent() {
    // Re-running the solver with the ratio it just returned terminates
    // at once, with no improving cycle.
    let (g, cost, time) = ring_graph();
    let solver = MinCycleRatioSolver::new(&g, cost.clone(), time.clone());
    let dist = vec![Rational::zero(); 3];
    let (ratio, cycle) = solver.run(dist, Rational::from_int(10));
    assert!(!cycle.is_empty());

    let solver2 = MinCycleRatioSolver::new(&g, cost, time);
    let dist2 = vec![Rational::zero(); 3];
    let (ratio2, cycle2) = solver2.run(dist2, ratio);
    assert!(cycle2.is_empty());
    assert!(ratio2.eqv(&ratio));
}

#[test]
fn test_bidirectional_modes_agree() {
    // On a single-cycle graph, predecessor and successor mode discover
    // the same cycle (as a set of edges) and the same breakeven ratio.
    let (g, cost, time) = ring_graph();
    let api_pred = CycleRatioAPI::new(cost.clone(), time.clone());
    let solver_pred = MinParametricQSolver::new(&g, api_pred);
    let (ratio_pred, cycle_pred) =
        solver_pred.run(vec![Rational::zero(); 3], Rational::from_int(10), false);

    let api_succ = CycleRatioAPI::new(cost, time);
    let solver_succ = MinParametricQSolver::new(&g, api_succ);
    let (ratio_succ, cycle_succ) =
        solver_succ.run(vec![Rational::zero(); 3], Rational::from_int(10), true);

    assert!(ratio_pred.eqv(&ratio_succ));
    let mut edges_pred = cycle_pred.clone();
    edges_pred.sort();
    let mut edges_succ = cycle_succ.clone();
    edges_succ.sort();
    assert_eq!(edges_pred, edges_succ);
    assert!(ratio_pred.eqv(&Rational::from_int(3)));
}

#[test]
fn test_max_parametric_two_cycles() {
    // Two disjoint cycles: a self-loop of ratio 5 and a 2-cycle of
    // ratio (1 + 3) / 2 = 2.  The minimum cycle ratio is 2.
    let mut g = DiGraph::new(3);
    g.add_edge(0, 0);
    g.add_edge(1, 2);
    g.add_edge(2, 1);
    let cost = vec![
        Rational::from_int(5),
        Rational::from_int(1),
        Rational::from_int(3),
    ];
    let time = vec![
        Rational::from_int(1),
        Rational::from_int(1),
        Rational::from_int(1),
    ];
    let api = CycleRatioAPI::new(cost, time);
    let solver = MaxParametricSolver::new(&g, api);
    let (ratio, cycle) = solver.run(vec![Rational::zero(); 3], Rational::from_int(100));
    assert!(ratio.eqv(&Rational::from_int(2)));
    let mut edges = cycle.clone();
    edges.sort();
    assert_eq!(edges, vec![1, 2]);
}

#[test]
fn test_zero_cancel_fractional_ratio() {
    // Costs 1, 2 and times 1, 3 around a 2-cycle: ratio 3/4.
    let cost = vec![Rational::from_int(1), Rational::from_int(2)];
    let time = vec![Rational::from_int(1), Rational::from_int(3)];
    let api = CycleRatioAPI::new(cost, time);
    let r = api.zero_cancel(&vec![0, 1]).expect("a defined ratio");
    assert!(r.eqv(&Rational::new(3, 4)));
}

#[test]
fn test_zero_cancel_zero_time_is_degenerate() {
    // A cycle of zero total time has no breakeven ratio: it is rejected
    // before any division.
    let cost = vec![Rational::from_int(1)];
    let time = vec![Rational::zero()];
    let api = CycleRatioAPI::new(cost, time);
    assert!(api.zero_cancel(&vec![0]).is_none());
}

#[test]
fn test_distance_formula() {
    // distance(ratio, e) = cost(e) - ratio * time(e): at ratio 3/2 with
    // cost 2 and time 4 the distance is 2 - 6 = -4.
    let cost = vec![Rational::from_int(2)];
    let time = vec![Rational::from_int(4)];
    let api = CycleRatioAPI::new(cost, time);
    let d = api.distance(&Rational::new(3, 2), 0).expect("a defined distance");
    assert!(d.eqv(&Rational::from_int(-4)));
    assert!(api.distance(&Rational::from_int(1), 7).is_none());
}

#[test]
fn test_set_default() {
    let mut weights = vec![Some(Rational::from_int(1)), None, Some(Rational::from_int(3))];
    set_default(&mut weights, Rational::from_int(7));
    assert!(weights[0].unwrap().eqv(&Rational::from_int(1)));
    assert!(weights[1].unwrap().eqv(&Rational::from_int(7)));
    assert!(weights[2].unwrap().eqv(&Rational::from_int(3)));
}

#[test]
fn test_rational_arithmetic() {
    let half = Rational::new(1, 2);
    let third = Rational::new(1, 3);
    let sum = half.try_add(&third).unwrap();
    assert!(sum.eqv(&Rational::new(5, 6)));

    let diff = half.try_sub(&third).unwrap();
    assert!(diff.eqv(&Rational::new(1, 6)));

    let prod = half.try_mul(&third).unwrap();
    assert!(prod.eqv(&Rational::new(1, 6)));

    let quot = half.try_div(&third).unwrap();
    assert!(quot.eqv(&Rational::new(3, 2)));

    assert!(third.lt(&half));
    assert!(third.le(&half));
    assert!(!half.lt(&half));
    assert!(half.le(&half));
    assert!(Rational::new(2, 4).eqv(&half));
}

#[test]
fn test_rational_overflow_is_detected() {
    let big = Rational::from_int(i64::MAX);
    let two = Rational::from_int(2);
    assert!(big.try_mul(&two).is_none());
    assert!(big.try_add(&big).is_none());
    assert!(Rational::from_int(1).try_div(&Rational::zero()).is_none());
}
