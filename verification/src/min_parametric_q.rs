//! Bidirectional parametric solver.
//!
//! The same outer loop as the parametric ratio engine, but driving the
//! bidirectional negative-cycle finder: the caller chooses, per run,
//! whether the inner search relaxes in the predecessor or the successor
//! direction.  Useful when the parametric interface is naturally
//! asymmetric and constraints propagate better in one direction.

use vstd::prelude::*;

use crate::digraph::DiGraph;
use crate::neg_cycle::all_wf;
use crate::neg_cycle::edge_sum;
use crate::neg_cycle::edge_sum_from;
use crate::neg_cycle::fixpoint;
use crate::neg_cycle::negative_cycle_report;
use crate::min_cycle_ratio::CycleRatioAPI;
use crate::min_cycle_ratio::cycle_ratio_distance;
use crate::min_cycle_ratio::cycle_ratio_of;
use crate::neg_cycle_q::NegCycleFinderQ;
use crate::neg_cycle_q::checked_cycle_report;
use crate::parametric::ParametricAPI;
use crate::parametric::copy_edges;
use crate::rational::Rat;
use crate::rational::Rational;
use crate::rational::lemma_rat_embed_lt;
use crate::rational::lemma_rat_lt_le_trans;
use crate::rational::lemma_rat_measure_nonneg;
use crate::rational::lemma_view_fits;
use crate::rational::rat_add;
use crate::rational::rat_le;
use crate::rational::rat_lt;
use crate::rational::rat_measure;
use crate::rational::rat_wf;
use crate::rational::rat_zero;

verus! {

/// The pluggable ratio interface of the bidirectional solver: a
/// parametric distance per edge and the breakeven ratio of a cycle,
/// exactly as for the single-direction engine.  Each executable method
/// returns what its ghost counterpart denotes, or `None` where that
/// value does not exist or is not representable.
pub trait MinParametricAPI: Sized {
    /// The value `distance` computes, as a ghost function.
    spec fn distance_spec(&self, ratio: Rat, edge: int) -> Option<Rat>;

    /// The value `zero_cancel` computes, as a ghost function.
    spec fn zero_cancel_spec(&self, cycle: Seq<usize>) -> Option<Rat>;

    /// Parametric distance of `edge` at `ratio`.
    fn distance(&self, ratio: &Rational, edge: usize) -> (r: Option<Rational>)
        requires
            ratio.wf(),
        ensures
            match r {
                Some(x) => x.wf() && self.distance_spec(ratio@, edge as int) == Some(x@),
                None => self.distance_spec(ratio@, edge as int) is None,
            },
    ;

    /// Breakeven ratio of `cycle`.
    fn zero_cancel(&self, cycle: &Vec<usize>) -> (r: Option<Rational>)
        ensures
            match r {
                Some(x) => x.wf() && self.zero_cancel_spec(cycle@) == Some(x@),
                None => self.zero_cancel_spec(cycle@) is None,
            },
    ;
}

/// The cost/time ratio interface serves the bidirectional solver too:
/// the classical instantiation of the constrained parametric problem.
impl MinParametricAPI for CycleRatioAPI {
    open spec fn distance_spec(&self, ratio: Rat, edge: int) -> Option<Rat> {
        cycle_ratio_distance(self.costs(), self.times(), ratio, edge)
    }

    open spec fn zero_cancel_spec(&self, cycle: Seq<usize>) -> Option<Rat> {
        cycle_ratio_of(self.costs(), self.times(), cycle)
    }

    fn distance(&self, ratio: &Rational, edge: usize) -> (r: Option<Rational>) {
        ParametricAPI::distance(self, ratio, edge)
    }

    fn zero_cancel(&self, cycle: &Vec<usize>) -> (r: Option<Rational>) {
        ParametricAPI::zero_cancel(self, cycle)
    }
}

/// The total parametric distance of a cycle's edges at a ratio, from
/// position `i` on; `None` as soon as any edge's distance is undefined.
pub open spec fn min_param_cycle_sum<API: MinParametricAPI>(
    api: &API,
    ratio: Rat,
    c: Seq<usize>,
    i: int,
) -> Option<Rat>
    decreases c.len() - i,
{
    if i < 0 || i >= c.len() {
        Some(rat_zero())
    } else {
        match (api.distance_spec(ratio, c[i] as int), min_param_cycle_sum(api, ratio, c, i + 1)) {
            (Some(a), Some(b)) => Some(rat_add(a, b)),
            _ => None,
        }
    }
}

/// A full per-edge weight vector for one round: every edge's parametric
/// distance at the round's ratio, exactly.
pub open spec fn min_round_weights<API: MinParametricAPI>(
    api: &API,
    ratio: Rat,
    m: int,
    w: Seq<Rational>,
) -> bool {
    &&& w.len() == m
    &&& all_wf(w)
    &&& forall|e: int| 0 <= e < m ==> api.distance_spec(ratio, e) == Some((#[trigger] w[e])@)
}

/// A non-empty batch of genuinely negative cycles at the round's
/// weights, none of which has a breakeven ratio below the round's
/// ratio.
pub open spec fn min_non_improving_reports<API: MinParametricAPI>(
    api: &API,
    g: &DiGraph,
    ratio: Rat,
    w: Seq<Rational>,
    cs: Seq<Seq<usize>>,
) -> bool {
    &&& cs.len() > 0
    &&& forall|i: int| 0 <= i < cs.len() ==> (#[trigger] cs[i]).len() >= 1
    &&& forall|i: int, j: int|
        0 <= i < cs.len() && 0 <= j < cs[i].len() ==> (#[trigger] cs[i][j]) < g.edges()
    &&& forall|i: int| 0 <= i < cs.len() ==> rat_lt(edge_sum(#[trigger] cs[i], w), rat_zero())
    &&& forall|i: int|
        0 <= i < cs.len() ==> !(match api.zero_cancel_spec(#[trigger] cs[i]) {
            Some(z) => rat_lt(z, ratio),
            None => false,
        })
}

/// Why the search stopped at a ratio: a round at it cannot strictly
/// improve — an undefined parametric distance, a relaxation fixpoint
/// for the round's weights, or exposed cycles none of which tightens
/// the ratio.
pub open spec fn min_stalled_at<API: MinParametricAPI>(api: &API, g: &DiGraph, ratio: Rat) -> bool {
    ||| exists|e: int| 0 <= e < g.edges() && (#[trigger] api.distance_spec(ratio, e)) is None
    ||| exists|d: Seq<Rational>, w: Seq<Rational>|
        min_round_weights(api, ratio, g.edges(), w) && d.len() == g.nodes() && all_wf(d)
            && #[trigger] fixpoint(g, d, w)
    ||| exists|w: Seq<Rational>, cs: Seq<Seq<usize>>|
        min_round_weights(api, ratio, g.edges(), w) && #[trigger] min_non_improving_reports(
            api,
            g,
            ratio,
            w,
            cs,
        )
}

/// A returned cycle is justified at some witness trial ratio: a ratio
/// between the result and the starting ratio at which the cycle's total
/// parametric distance is defined and negative.
pub open spec fn min_justified_cycle<API: MinParametricAPI>(
    api: &API,
    c: Seq<usize>,
    result: Rat,
    start: Rat,
) -> bool {
    exists|rp: Rat|
        rat_wf(rp) && rat_lt(result, rp) && rat_le(rp, start) && (match
        #[trigger] min_param_cycle_sum(api, rp, c, 0) {
            Some(s) => rat_lt(s, rat_zero()),
            None => false,
        })
}

/// When every edge of a cycle carries the parametric distance at a
/// ratio, the cycle's weight sum is its parametric distance sum.
proof fn lemma_min_param_sum_eq<API: MinParametricAPI>(
    api: &API,
    ratio: Rat,
    c: Seq<usize>,
    w: Seq<Rational>,
    i: int,
)
    requires
        forall|j: int| 0 <= j < c.len() ==> (#[trigger] c[j]) < w.len(),
        forall|e: int|
            0 <= e < w.len() ==> api.distance_spec(ratio, e) == Some((#[trigger] w[e])@),
    ensures
        min_param_cycle_sum(api, ratio, c, i) == Some(edge_sum_from(c, w, i)),
    decreases c.len() - i,
{
    if 0 <= i < c.len() {
        lemma_min_param_sum_eq(api, ratio, c, w, i + 1);
    } else {
        if i < 0 {
            lemma_min_param_sum_eq(api, ratio, c, w, 0);
        }
    }
}

/// Bidirectional parametric solver: the ratio engine over the
/// bidirectional finder, with the relaxation direction chosen per run.
pub struct MinParametricQSolver<'a, API: MinParametricAPI> {
    /// The graph whose edges the parametric distances weight.
    pub digraph: &'a DiGraph,
    /// The pluggable distance / breakeven-ratio interface.
    pub omega: API,
}

impl<'a, API: MinParametricAPI> MinParametricQSolver<'a, API> {
    /// Pair a graph with a ratio interface.
    pub fn new(digraph: &'a DiGraph, omega: API) -> (r: Self)
        requires
            digraph.wf(),
        ensures
            r.digraph == digraph,
            r.omega == omega,
    {
        MinParametricQSolver { digraph, omega }
    }

    /// Run the solver from the distance labels `dist` and the trial
    /// ratio `ratio`; `use_succ` selects successor relaxation for the
    /// inner search, predecessor relaxation otherwise.  Rounds tighten
    /// the ratio with the smallest defined breakeven ratio of that
    /// round's cycles and stop at the first round that cannot improve
    /// it strictly, exactly as in the single-direction engine: the same
    /// contract holds in both modes — a returned cycle's breakeven
    /// ratio is the result, it was exposed by a negative parametric
    /// distance at some trial ratio above the result, and the search is
    /// stalled at the result.
    pub fn run(&self, dist: Vec<Rational>, ratio: Rational, use_succ: bool) -> (r: (
        Rational,
        Vec<usize>,
    ))
        requires
            self.digraph.wf(),
            dist@.len() == self.digraph.nodes(),
            all_wf(dist@),
            ratio.wf(),
        ensures
            r.0.wf(),
            rat_le(r.0@, ratio@),
            r.1@.len() == 0 ==> r.0 == ratio,
            r.1@.len() > 0 ==> self.omega.zero_cancel_spec(r.1@) == Some(r.0@) && rat_lt(
                r.0@,
                ratio@,
            ),
            r.1@.len() > 0 ==> min_justified_cycle(&self.omega, r.1@, r.0@, ratio@),
            forall|j: int| 0 <= j < r.1@.len() ==> (#[trigger] r.1@[j]) < self.digraph.edges(),
            min_stalled_at(&self.omega, self.digraph, r.0@),
    {
        let g = self.digraph;
        let n = g.num_nodes();
        let m = g.num_edges();
        let mut dist = dist;
        let mut r_min = ratio;
        let mut c_min: Vec<usize> = Vec::new();
        let mut cycle: Vec<usize> = Vec::new();
        let mut current_ratio = ratio;
        let mut ncf = NegCycleFinderQ::new(g);
        let ghost mut just_ratio: Rat = ratio@;
        loop
            invariant
                g == self.digraph,
                g.wf(),
                n == g.nodes(),
                m == g.edges(),
                ncf.wf(),
                ncf.digraph == g,
                dist@.len() == n,
                all_wf(dist@),
                ratio.wf(),
                current_ratio.wf(),
                r_min == current_ratio,
                cycle@ == c_min@,
                rat_le(current_ratio@, ratio@),
                cycle@.len() == 0 ==> current_ratio == ratio,
                cycle@.len() > 0 ==> self.omega.zero_cancel_spec(c_min@) == Some(r_min@) && rat_lt(
                    current_ratio@,
                    ratio@,
                ),
                cycle@.len() > 0 ==> rat_wf(just_ratio) && rat_lt(r_min@, just_ratio)
                    && rat_le(just_ratio, ratio@) && (match min_param_cycle_sum(
                    &self.omega,
                    just_ratio,
                    c_min@,
                    0,
                ) {
                    Some(s) => rat_lt(s, rat_zero()),
                    None => false,
                }),
                forall|j: int| 0 <= j < c_min@.len() ==> (#[trigger] c_min@[j]) < m,
            ensures
                current_ratio.wf(),
                rat_le(current_ratio@, ratio@),
                cycle@.len() == 0 ==> current_ratio == ratio,
                cycle@.len() > 0 ==> self.omega.zero_cancel_spec(cycle@) == Some(current_ratio@)
                    && rat_lt(current_ratio@, ratio@),
                cycle@.len() > 0 ==> min_justified_cycle(
                    &self.omega,
                    cycle@,
                    current_ratio@,
                    ratio@,
                ),
                forall|j: int| 0 <= j < cycle@.len() ==> (#[trigger] cycle@[j]) < m,
                min_stalled_at(&self.omega, g, current_ratio@),
            decreases rat_measure(current_ratio@),
        {
            proof {
                lemma_view_fits(current_ratio);
                lemma_rat_measure_nonneg(current_ratio@);
            }
            let mut weights: Vec<Rational> = Vec::new();
            let mut e: usize = 0;
            while e < m
                invariant
                    g == self.digraph,
                    g.wf(),
                    m == g.edges(),
                    ratio.wf(),
                    current_ratio.wf(),
                    rat_le(current_ratio@, ratio@),
                    cycle@.len() == 0 ==> current_ratio == ratio,
                    cycle@.len() > 0 ==> self.omega.zero_cancel_spec(cycle@) == Some(
                        current_ratio@,
                    ) && rat_lt(current_ratio@, ratio@),
                    cycle@.len() > 0 ==> rat_wf(just_ratio) && rat_lt(
                        current_ratio@,
                        just_ratio,
                    ) && rat_le(just_ratio, ratio@) && (match min_param_cycle_sum(
                        &self.omega,
                        just_ratio,
                        cycle@,
                        0,
                    ) {
                        Some(s) => rat_lt(s, rat_zero()),
                        None => false,
                    }),
                    forall|j: int| 0 <= j < cycle@.len() ==> (#[trigger] cycle@[j]) < m,
                    e <= m,
                    weights@.len() == e,
                    all_wf(weights@),
                    forall|k: int|
                        0 <= k < e ==> self.omega.distance_spec(current_ratio@, k) == Some(
                            (#[trigger] weights@[k])@,
                        ),
                decreases m - e,
            {
                match self.omega.distance(&current_ratio, e) {
                    Some(w) => {
                        weights.push(w);
                        e += 1;
                    },
                    None => {
                        proof {
                            if cycle@.len() > 0 {
                                assert(min_justified_cycle(
                                    &self.omega,
                                    cycle@,
                                    current_ratio@,
                                    ratio@,
                                ));
                            }
                            assert(0 <= e < g.edges() && self.omega.distance_spec(
                                current_ratio@,
                                e as int,
                            ) is None);
                        }
                        return (current_ratio, cycle);
                    },
                }
            }
            let found = if use_succ {
                ncf.howard_succ(&mut dist, &weights)
            } else {
                ncf.howard_pred(&mut dist, &weights)
            };
            let ghost round_ratio: Rat = current_ratio@;
            let mut idx: usize = 0;
            while idx < found.len()
                invariant
                    g == self.digraph,
                    g.wf(),
                    n == g.nodes(),
                    m == g.edges(),
                    ratio.wf(),
                    current_ratio.wf(),
                    r_min.wf(),
                    round_ratio == current_ratio@,
                    idx <= found@.len(),
                    weights@.len() == m,
                    all_wf(weights@),
                    forall|k: int|
                        0 <= k < m ==> self.omega.distance_spec(current_ratio@, k) == Some(
                            (#[trigger] weights@[k])@,
                        ),
                    !use_succ ==> forall|i: int|
                        0 <= i < found@.len() ==> negative_cycle_report(
                            g,
                            ncf.pred@,
                            weights@,
                            (#[trigger] found@[i])@,
                        ),
                    use_succ ==> forall|i: int|
                        0 <= i < found@.len() ==> checked_cycle_report(
                            g,
                            ncf.succ@,
                            dist@,
                            weights@,
                            (#[trigger] found@[i])@,
                        ),
                    dist@.len() == n,
                    all_wf(dist@),
                    found@.len() == 0 ==> fixpoint(g, dist@, weights@),
                    r_min == current_ratio ==> forall|i: int|
                        0 <= i < idx ==> !(match self.omega.zero_cancel_spec(
                            (#[trigger] found@[i])@,
                        ) {
                            Some(z) => rat_lt(z, current_ratio@),
                            None => false,
                        }),
                    rat_le(r_min@, current_ratio@),
                    rat_le(current_ratio@, ratio@),
                    r_min == current_ratio || rat_lt(r_min@, current_ratio@),
                    rat_lt(r_min@, current_ratio@) ==> c_min@.len() > 0
                        && self.omega.zero_cancel_spec(c_min@) == Some(r_min@),
                    rat_lt(r_min@, current_ratio@) ==> rat_wf(just_ratio) && rat_lt(
                        r_min@,
                        just_ratio,
                    ) && rat_le(just_ratio, ratio@) && (match min_param_cycle_sum(
                        &self.omega,
                        just_ratio,
                        c_min@,
                        0,
                    ) {
                        Some(s) => rat_lt(s, rat_zero()),
                        None => false,
                    }),
                    r_min == current_ratio ==> cycle@ == c_min@ && (cycle@.len() == 0
                        ==> current_ratio == ratio) && (cycle@.len() > 0
                        ==> self.omega.zero_cancel_spec(c_min@) == Some(r_min@) && rat_lt(
                        current_ratio@,
                        ratio@,
                    )) && (cycle@.len() > 0 ==> rat_wf(just_ratio) && rat_lt(
                        r_min@,
                        just_ratio,
                    ) && rat_le(just_ratio, ratio@) && (match min_param_cycle_sum(
                        &self.omega,
                        just_ratio,
                        c_min@,
                        0,
                    ) {
                        Some(s) => rat_lt(s, rat_zero()),
                        None => false,
                    })),
                    forall|j: int| 0 <= j < c_min@.len() ==> (#[trigger] c_min@[j]) < m,
                decreases found@.len() - idx,
            {
                let ci = &found[idx];
                match self.omega.zero_cancel(ci) {
                    Some(ri) => {
                        if ri.lt(&r_min) {
                            proof {
                                if !use_succ {
                                    assert(negative_cycle_report(g, ncf.pred@, weights@, ci@));
                                } else {
                                    assert(checked_cycle_report(g, ncf.succ@, dist@, weights@, ci@));
                                }
                                lemma_min_param_sum_eq(&self.omega, round_ratio, ci@, weights@, 0);
                                lemma_rat_lt_le_trans(ri@, r_min@, current_ratio@);
                            }
                            r_min = ri;
                            c_min = copy_edges(ci);
                            proof {
                                just_ratio = round_ratio;
                            }
                        }
                    },
                    None => {
                    },
                }
                idx += 1;
            }
            if !r_min.lt(&current_ratio) {
                proof {
                    if cycle@.len() > 0 {
                        assert(min_justified_cycle(&self.omega, cycle@, current_ratio@, ratio@));
                    }
                    assert(min_round_weights(&self.omega, current_ratio@, m as int, weights@));
                    if found@.len() == 0 {
                        assert(fixpoint(g, dist@, weights@));
                    } else {
                        let cs = Seq::new(found@.len(), |i: int| found@[i]@);
                        assert forall|i: int| 0 <= i < cs.len() implies (#[trigger] cs[i]).len()
                            >= 1 && rat_lt(edge_sum(cs[i], weights@), rat_zero()) && !(match self
                            .omega.zero_cancel_spec(cs[i]) {
                            Some(z) => rat_lt(z, current_ratio@),
                            None => false,
                        }) by {
                            assert(cs[i] == found@[i]@);
                            if use_succ {
                                assert(checked_cycle_report(
                                    g,
                                    ncf.succ@,
                                    dist@,
                                    weights@,
                                    found@[i]@,
                                ));
                            } else {
                                assert(negative_cycle_report(g, ncf.pred@, weights@, found@[i]@));
                            }
                        }
                        assert forall|i: int, j: int|
                            0 <= i < cs.len() && 0 <= j < cs[i].len() implies (#[trigger] cs[i][j])
                            < g.edges() by {
                            assert(cs[i] == found@[i]@);
                            if use_succ {
                                assert(checked_cycle_report(
                                    g,
                                    ncf.succ@,
                                    dist@,
                                    weights@,
                                    found@[i]@,
                                ));
                            } else {
                                assert(negative_cycle_report(g, ncf.pred@, weights@, found@[i]@));
                            }
                        }
                        assert(min_non_improving_reports(
                            &self.omega,
                            g,
                            current_ratio@,
                            weights@,
                            cs,
                        ));
                    }
                }
                break ;
            }
            cycle = copy_edges(&c_min);
            proof {
                lemma_view_fits(r_min);
                lemma_view_fits(current_ratio);
                lemma_rat_embed_lt(r_min@, current_ratio@);
                lemma_rat_measure_nonneg(r_min@);
                lemma_rat_lt_le_trans(r_min@, current_ratio@, ratio@);
            }
            current_ratio = r_min;
        }
        (current_ratio, cycle)
    }
}

} // verus!
