//! Tests of the bidirectional negative cycle finder.

use digraphx::DiGraph;
use digraphx::NegCycleFinderQ;
use digraphx::Rational;

fn small_graph_q() -> (DiGraph, Vec<Rational>) {
    let mut g = DiGraph::new(3);
    g.add_edge(0, 1);
    g.add_edge(0, 2);
    g.add_edge(1, 2);
    g.add_edge(2, 0);
    let weights = vec![
        Rational::from_int(1),
        Rational::from_int(4),
        Rational::from_int(2),
        Rational::from_int(-5),
    ];
    (g, weights)
}

#[test]
fn test_neg_cycle_finder_q_new() {
    let digraph = DiGraph::new(0);
    let finder = NegCycleFinderQ::new(&digraph);
    assert!(finder.pred.is_empty());
    assert!(finder.succ.is_empty());
}

#[test]
fn test_relax_pred() {
    let (digraph, weights) = small_graph_q();
    let mut finder = NegCycleFinderQ::new(&digraph);
    let mut dist = vec![
        Rational::from_int(0),
        Rational::from_int(1000),
        Rational::from_int(1000),
    ];

    let changed = finder.relax_pred(&mut dist, &weights);
    assert!(changed);
    assert!(dist[1].eqv(&Rational::from_int(1)));
    assert!(dist[2].eqv(&Rational::from_int(3)));
}

#[test]
fn test_relax_succ_updates_distances() {
    let (digraph, weights) = small_graph_q();
    let mut finder = NegCycleFinderQ::new(&digraph);
    let mut dist = vec![
        Rational::from_int(0),
        Rational::from_int(1000),
        Rational::from_int(1000),
    ];

    let changed = finder.relax_succ(&mut dist, &weights);
    assert!(changed);
    assert!(dist[1].eqv(&Rational::from_int(1)));
    assert!(dist[2].eqv(&Rational::from_int(3)));
    // The successor pass records outgoing pointers at the sources and
    // leaves the predecessor map alone.
    assert!(finder.pred.iter().all(|p| p.is_none()));
    assert!(finder.succ.iter().any(|p| p.is_some()));
}

#[test]
fn test_howard_pred_and_succ_find_the_cycle() {
    let (digraph, weights) = small_graph_q();

    let mut finder = NegCycleFinderQ::new(&digraph);
    let mut dist = vec![Rational::zero(); 3];
    let cycles_pred = finder.howard_pred(&mut dist, &weights);
    assert_eq!(cycles_pred.len(), 1);
    let mut edges_pred = cycles_pred[0].clone();
    edges_pred.sort();
    assert_eq!(edges_pred, vec![0, 2, 3]);

    // The successor direction may expose a different negative cycle of
    // this graph (it has several); whichever it reports must genuinely
    // be negative.
    let mut finder2 = NegCycleFinderQ::new(&digraph);
    let mut dist2 = vec![Rational::zero(); 3];
    let cycles_succ = finder2.howard_succ(&mut dist2, &weights);
    assert!(!cycles_succ.is_empty());
    for c in cycles_succ.iter() {
        let mut total = Rational::zero();
        for e in c.iter() {
            total = total.try_add(&weights[*e]).unwrap();
        }
        assert!(total.lt(&Rational::zero()));
    }
}

#[test]
fn test_cycle_list_pred_and_succ() {
    let mut digraph = DiGraph::new(3);
    let e_ab = digraph.add_edge(0, 1);
    let e_bc = digraph.add_edge(1, 2);
    let e_ca = digraph.add_edge(2, 0);
    let mut finder = NegCycleFinderQ::new(&digraph);

    // Predecessor orientation: pred[b] = (a, ab) and so on.
    finder.pred[1] = Some((0, e_ab));
    finder.pred[2] = Some((1, e_bc));
    finder.pred[0] = Some((2, e_ca));
    let pred_map = finder.pred.clone();
    let cycle = finder.cycle_list_pred(0, &pred_map);
    assert_eq!(cycle, vec![e_ca, e_bc, e_ab]);

    // Successor orientation: succ[a] = (b, ab) and so on.
    finder.succ[0] = Some((1, e_ab));
    finder.succ[1] = Some((2, e_bc));
    finder.succ[2] = Some((0, e_ca));
    let succ_map = finder.succ.clone();
    let cycle2 = finder.cycle_list_succ(0, &succ_map);
    assert_eq!(cycle2, vec![e_ab, e_bc, e_ca]);
}

#[test]
fn test_is_negative_pred_and_succ() {
    let mut digraph = DiGraph::new(3);
    let e_ab = digraph.add_edge(0, 1);
    let e_bc = digraph.add_edge(1, 2);
    let e_ca = digraph.add_edge(2, 0);
    let weights = vec![
        Rational::from_int(1),
        Rational::from_int(1),
        Rational::from_int(-3),
    ];
    let dist = vec![
        Rational::from_int(0),
        Rational::from_int(1),
        Rational::from_int(2),
    ];
    let mut finder = NegCycleFinderQ::new(&digraph);

    finder.pred[1] = Some((0, e_ab));
    finder.pred[2] = Some((1, e_bc));
    finder.pred[0] = Some((2, e_ca));
    let pred_map = finder.pred.clone();
    assert!(finder.is_negative_pred(0, &dist, &weights, &pred_map));

    finder.succ[0] = Some((1, e_ab));
    finder.succ[1] = Some((2, e_bc));
    finder.succ[2] = Some((0, e_ca));
    let succ_map = finder.succ.clone();
    assert!(finder.is_negative_succ(0, &dist, &weights, &succ_map));
}
