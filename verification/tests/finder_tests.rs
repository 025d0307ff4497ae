//! Tests of the single-direction negative cycle finder.

use digraphx::DiGraph;
use digraphx::NegCycleFinder;
use digraphx::Rational;

/// The graph a->b (1), a->c (4), b->c (2), c->a (-5): edge ids 0..4 in
/// that order, and the cycle a->b->c->a has total weight -2.
fn small_graph() -> (DiGraph, Vec<Rational>) {
    let mut g = DiGraph::new(3);
    let e_ab = g.add_edge(0, 1);
    let e_ac = g.add_edge(0, 2);
    let e_bc = g.add_edge(1, 2);
    let e_ca = g.add_edge(2, 0);
    assert_eq!((e_ab, e_ac, e_bc, e_ca), (0, 1, 2, 3));
    let weights = vec![
        Rational::from_int(1),
        Rational::from_int(4),
        Rational::from_int(2),
        Rational::from_int(-5),
    ];
    (g, weights)
}

#[test]
fn test_neg_cycle_finder_new() {
    let digraph = DiGraph::new(0);
    let finder = NegCycleFinder::new(&digraph);
    assert!(finder.pred.is_empty());
}

#[test]
fn test_relax() {
    let (digraph, weights) = small_graph();
    let mut finder = NegCycleFinder::new(&digraph);
    let mut dist = vec![
        Rational::from_int(0),
        Rational::from_int(1000),
        Rational::from_int(1000),
    ];

    let changed = finder.relax(&mut dist, &weights);
    assert!(changed);
    assert!(dist[1].eqv(&Rational::from_int(1)));
    assert!(dist[2].eqv(&Rational::from_int(3)));
}

#[test]
fn test_cycle_list() {
    // Nodes a=0, b=1, c=2; edges ab=0, bc=1, ca=2.
    let mut digraph = DiGraph::new(3);
    let e_ab = digraph.add_edge(0, 1);
    let e_bc = digraph.add_edge(1, 2);
    let e_ca = digraph.add_edge(2, 0);
    let mut finder = NegCycleFinder::new(&digraph);

    finder.pred[1] = Some((0, e_ab));
    finder.pred[2] = Some((1, e_bc));
    finder.pred[0] = Some((2, e_ca));

    let cycle = finder.cycle_list(0);
    assert_eq!(cycle, vec![e_ca, e_bc, e_ab]);
}

#[test]
fn test_is_negative() {
    // Nodes a=0, b=1, c=2; edges of weight 1, 1, -3.
    let mut digraph = DiGraph::new(3);
    let e_ab = digraph.add_edge(0, 1);
    let e_bc = digraph.add_edge(1, 2);
    let e_ca = digraph.add_edge(2, 0);
    let weights = vec![
        Rational::from_int(1),
        Rational::from_int(1),
        Rational::from_int(-3),
    ];
    let mut finder = NegCycleFinder::new(&digraph);

    finder.pred[1] = Some((0, e_ab));
    finder.pred[2] = Some((1, e_bc));
    finder.pred[0] = Some((2, e_ca));

    let dist = vec![
        Rational::from_int(0),
        Rational::from_int(1),
        Rational::from_int(2),
    ];

    let is_neg = finder.is_negative(0, &dist, &weights);
    assert!(is_neg);
}

#[test]
fn test_howard() {
    let (digraph, weights) = small_graph();
    let mut finder = NegCycleFinder::new(&digraph);
    let mut dist = vec![
        Rational::from_int(0),
        Rational::from_int(i32::MAX as i64),
        Rational::from_int(i32::MAX as i64),
    ];

    let cycles = finder.howard(&mut dist, &weights);
    assert!(!cycles.is_empty());
}

#[test]
fn test_relaxation_finds_negative_cycle() {
    // Starting from dist = {a: 0, b: inf, c: inf} (a large stand-in for
    // infinity), repeated relaxation must expose the cycle a->b->c->a of
    // total weight 1 + 2 - 5 = -2.
    let (digraph, weights) = small_graph();
    let mut finder = NegCycleFinder::new(&digraph);
    let mut dist = vec![
        Rational::from_int(0),
        Rational::from_int(i64::MAX),
        Rational::from_int(i64::MAX),
    ];

    let cycles = finder.howard(&mut dist, &weights);
    assert_eq!(cycles.len(), 1);
    let mut edges = cycles[0].clone();
    edges.sort();
    assert_eq!(edges, vec![0, 2, 3]);

    // The reported cycle's weights sum to -2: strictly negative, so the
    // detector's negativity check held for it.
    let mut total = Rational::zero();
    for e in cycles[0].iter() {
        total = total.try_add(&weights[*e]).unwrap();
    }
    assert!(total.eqv(&Rational::from_int(-2)));
    assert!(total.lt(&Rational::zero()));
}

#[test]
fn test_no_false_positives_nonnegative_weights() {
    // With every weight non-negative there is no negative cycle: howard
    // reports nothing and leaves the zero-initialized distances at the
    // true shortest-path fixpoint (all zero).
    let mut g = DiGraph::new(3);
    g.add_edge(0, 1);
    g.add_edge(0, 2);
    g.add_edge(1, 2);
    g.add_edge(2, 0);
    let weights = vec![
        Rational::from_int(1),
        Rational::from_int(4),
        Rational::from_int(2),
        Rational::from_int(5),
    ];
    let mut finder = NegCycleFinder::new(&g);
    let mut dist = vec![Rational::zero(); 3];

    let cycles = finder.howard(&mut dist, &weights);
    assert!(cycles.is_empty());
    for d in dist.iter() {
        assert!(d.eqv(&Rational::zero()));
    }
}

#[test]
fn test_cycle_closure() {
    // Reconstructing a reported cycle by following pred pointers from
    // its entry node returns to that node after exactly the reported
    // edges.
    let (digraph, weights) = small_graph();
    let mut finder = NegCycleFinder::new(&digraph);
    let mut dist = vec![Rational::zero(); 3];

    let cycles = finder.howard(&mut dist, &weights);
    assert_eq!(cycles.len(), 1);
    let reported = &cycles[0];

    // Find the entry node: a node whose pred walk uses the first
    // reported edge, then follow pred pointers and collect edges.
    let mut entry = None;
    for v in 0..3 {
        if let Some((_, e)) = finder.pred[v] {
            if e == reported[0] {
                entry = Some(v);
            }
        }
    }
    let start = entry.expect("entry node of the reported cycle");
    let mut walked = Vec::new();
    let mut vtx = start;
    loop {
        let (u, e) = finder.pred[vtx].expect("cycle node has a predecessor");
        walked.push(e);
        vtx = u;
        if vtx == start {
            break;
        }
    }
    assert_eq!(&walked, reported);
    let _ = weights;
}

#[test]
fn test_self_loop_negative() {
    // A negative self-loop is a one-edge cycle.
    let mut g = DiGraph::new(1);
    let e = g.add_edge(0, 0);
    let weights = vec![Rational::from_int(-1)];
    let mut finder = NegCycleFinder::new(&g);
    let mut dist = vec![Rational::zero()];

    let cycles = finder.howard(&mut dist, &weights);
    assert_eq!(cycles.len(), 1);
    assert_eq!(cycles[0], vec![e]);
}

#[test]
fn test_howard_empty_graph() {
    let g = DiGraph::new(0);
    let mut finder = NegCycleFinder::new(&g);
    let mut dist: Vec<Rational> = Vec::new();
    let weights: Vec<Rational> = Vec::new();
    let cycles = finder.howard(&mut dist, &weights);
    assert!(cycles.is_empty());
}

#[test]
fn test_find_cycle_one_entry_per_cycle() {
    // A 3-cycle in the predecessor map plus an untouched node: the scan
    // reports exactly one entry node, and it lies on the cycle.
    let mut digraph = DiGraph::new(4);
    let e_ab = digraph.add_edge(0, 1);
    let e_bc = digraph.add_edge(1, 2);
    let e_ca = digraph.add_edge(2, 0);
    let mut finder = NegCycleFinder::new(&digraph);
    finder.pred[1] = Some((0, e_ab));
    finder.pred[2] = Some((1, e_bc));
    finder.pred[0] = Some((2, e_ca));

    let entries = finder.find_cycle();
    assert_eq!(entries.len(), 1);
    assert!(entries[0] <= 2);

    // With no pointers at all there is nothing to report.
    let finder2 = NegCycleFinder::new(&digraph);
    assert!(finder2.find_cycle().is_empty());
}
