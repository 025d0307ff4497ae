//! Integration test: the negative cycle finder end to end.

use digraphx::DiGraph;
use digraphx::NegCycleFinder;
use digraphx::Rational;

#[test]
fn test_neg_cycle_finder_basic() {
    // a -> b (1), a -> c (4), b -> c (2), c -> a (-5).
    let mut digraph = DiGraph::new(3);
    digraph.add_edge(0, 1);
    digraph.add_edge(0, 2);
    digraph.add_edge(1, 2);
    digraph.add_edge(2, 0);
    let weights = vec![
        Rational::from_int(1),
        Rational::from_int(4),
        Rational::from_int(2),
        Rational::from_int(-5),
    ];

    let mut finder = NegCycleFinder::new(&digraph);
    let mut dist = vec![
        Rational::from_int(0),
        Rational::from_int(i32::MAX as i64),
        Rational::from_int(i32::MAX as i64),
    ];

    let changed = finder.relax(&mut dist, &weights);
    assert!(changed);
    assert!(dist[1].eqv(&Rational::from_int(1)));
    assert!(dist[2].eqv(&Rational::from_int(3)));
}
