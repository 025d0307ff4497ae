//! Parametric ratio engine.
//!
//! Solves `max r` subject to `dist[v] - dist[u] <= distance(r, e)` for
//! all edges `e = (u, v)`: starting from a trial ratio, it repeatedly
//! weights the edges with the parametric distance at the current ratio,
//! asks the negative-cycle finder for violating cycles, and tightens the
//! ratio to the smallest breakeven ratio any of them admits; it stops
//! the first time no cycle improves on the current ratio.

use vstd::prelude::*;

use crate::digraph::DiGraph;
use crate::neg_cycle::NegCycleFinder;
use crate::neg_cycle::all_wf;
use crate::neg_cycle::edge_sum;
use crate::neg_cycle::edge_sum_from;
use crate::neg_cycle::fixpoint;
use crate::neg_cycle::negative_cycle_report;
use crate::rational::Rat;
use crate::rational::Rational;
use crate::rational::lemma_rat_embed_lt;
use crate::rational::lemma_rat_lt_le_trans;
use crate::rational::lemma_rat_measure_nonneg;
use crate::rational::lemma_view_fits;
use crate::rational::rat_add;
use crate::rational::rat_le;
use crate::rational::rat_lt;
use crate::rational::rat_measure;
use crate::rational::rat_wf;
use crate::rational::rat_zero;

verus! {

/// The pluggable ratio interface of the engine: a parametric distance
/// per edge, and the breakeven ratio of a cycle (the ratio at which the
/// cycle's total parametric distance is zero).  Each executable method
/// returns exactly what its ghost counterpart denotes, or `None` where
/// that value does not exist or is not representable; the engine treats
/// `None` from `distance` as "stop here" and `None` from `zero_cancel`
/// as "no breakeven ratio, exclude this cycle".
pub trait ParametricAPI: Sized {
    /// The value `distance` computes, as a ghost function.
    spec fn distance_spec(&self, ratio: Rat, edge: int) -> Option<Rat>;

    /// The value `zero_cancel` computes, as a ghost function.
    spec fn zero_cancel_spec(&self, cycle: Seq<usize>) -> Option<Rat>;

    /// Parametric distance of `edge` at `ratio`.
    fn distance(&self, ratio: &Rational, edge: usize) -> (r: Option<Rational>)
        requires
            ratio.wf(),
        ensures
            match r {
                Some(x) => x.wf() && self.distance_spec(ratio@, edge as int) == Some(x@),
                None => self.distance_spec(ratio@, edge as int) is None,
            },
    ;

    /// Breakeven ratio of `cycle`.
    fn zero_cancel(&self, cycle: &Vec<usize>) -> (r: Option<Rational>)
        ensures
            match r {
                Some(x) => x.wf() && self.zero_cancel_spec(cycle@) == Some(x@),
                None => self.zero_cancel_spec(cycle@) is None,
            },
    ;
}

/// The total parametric distance of a cycle's edges at a ratio, from
/// position `i` on; `None` as soon as any edge's distance is undefined.
pub open spec fn param_cycle_sum<API: ParametricAPI>(
    api: &API,
    ratio: Rat,
    c: Seq<usize>,
    i: int,
) -> Option<Rat>
    decreases c.len() - i,
{
    if i < 0 || i >= c.len() {
        Some(rat_zero())
    } else {
        match (api.distance_spec(ratio, c[i] as int), param_cycle_sum(api, ratio, c, i + 1)) {
            (Some(a), Some(b)) => Some(rat_add(a, b)),
            _ => None,
        }
    }
}

/// A full per-edge weight vector for one round: every edge's parametric
/// distance at the round's ratio, exactly.
pub open spec fn round_weights<API: ParametricAPI>(
    api: &API,
    ratio: Rat,
    m: int,
    w: Seq<Rational>,
) -> bool {
    &&& w.len() == m
    &&& all_wf(w)
    &&& forall|e: int| 0 <= e < m ==> api.distance_spec(ratio, e) == Some((#[trigger] w[e])@)
}

/// A non-empty batch of genuinely negative cycles at the round's
/// weights, none of which has a breakeven ratio below the round's
/// ratio: the round exposed cycles, but none could tighten the ratio.
pub open spec fn non_improving_reports<API: ParametricAPI>(
    api: &API,
    g: &DiGraph,
    ratio: Rat,
    w: Seq<Rational>,
    cs: Seq<Seq<usize>>,
) -> bool {
    &&& cs.len() > 0
    &&& forall|i: int| 0 <= i < cs.len() ==> (#[trigger] cs[i]).len() >= 1
    &&& forall|i: int, j: int|
        0 <= i < cs.len() && 0 <= j < cs[i].len() ==> (#[trigger] cs[i][j]) < g.edges()
    &&& forall|i: int| 0 <= i < cs.len() ==> rat_lt(edge_sum(#[trigger] cs[i], w), rat_zero())
    &&& forall|i: int|
        0 <= i < cs.len() ==> !(match api.zero_cancel_spec(#[trigger] cs[i]) {
            Some(z) => rat_lt(z, ratio),
            None => false,
        })
}

/// Why the search stopped at a ratio: a round at it cannot strictly
/// improve.  Either some edge's parametric distance is undefined there
/// (the engine's stop-here case), or some distance vector is a
/// relaxation fixpoint for the round's weights (no negative cycle is
/// exposed), or the round exposed negative cycles whose breakeven
/// ratios are all at or above the ratio.
pub open spec fn stalled_at<API: ParametricAPI>(api: &API, g: &DiGraph, ratio: Rat) -> bool {
    ||| exists|e: int| 0 <= e < g.edges() && (#[trigger] api.distance_spec(ratio, e)) is None
    ||| exists|d: Seq<Rational>, w: Seq<Rational>|
        round_weights(api, ratio, g.edges(), w) && d.len() == g.nodes() && all_wf(d)
            && #[trigger] fixpoint(g, d, w)
    ||| exists|w: Seq<Rational>, cs: Seq<Seq<usize>>|
        round_weights(api, ratio, g.edges(), w) && #[trigger] non_improving_reports(
            api,
            g,
            ratio,
            w,
            cs,
        )
}

/// A returned cycle is justified at some witness trial ratio: a ratio
/// between the result and the starting ratio at which the cycle's total
/// parametric distance is defined and negative.
pub open spec fn justified_cycle<API: ParametricAPI>(
    api: &API,
    c: Seq<usize>,
    result: Rat,
    start: Rat,
) -> bool {
    exists|rp: Rat|
        rat_wf(rp) && rat_lt(result, rp) && rat_le(rp, start) && (match #[trigger] param_cycle_sum(
            api,
            rp,
            c,
            0,
        ) {
            Some(s) => rat_lt(s, rat_zero()),
            None => false,
        })
}

/// When every edge of a cycle carries the parametric distance at a
/// ratio, the cycle's weight sum is its parametric distance sum.
proof fn lemma_param_sum_eq<API: ParametricAPI>(
    api: &API,
    ratio: Rat,
    c: Seq<usize>,
    w: Seq<Rational>,
    i: int,
)
    requires
        forall|j: int| 0 <= j < c.len() ==> (#[trigger] c[j]) < w.len(),
        forall|e: int|
            0 <= e < w.len() ==> api.distance_spec(ratio, e) == Some((#[trigger] w[e])@),
    ensures
        param_cycle_sum(api, ratio, c, i) == Some(edge_sum_from(c, w, i)),
    decreases c.len() - i,
{
    if 0 <= i < c.len() {
        lemma_param_sum_eq(api, ratio, c, w, i + 1);
    } else {
        if i < 0 {
            lemma_param_sum_eq(api, ratio, c, w, 0);
        }
    }
}

/// An exact copy of an edge list.
pub(crate) fn copy_edges(v: &Vec<usize>) -> (r: Vec<usize>)
    ensures
        r@ == v@,
{
    let mut r: Vec<usize> = Vec::new();
    let mut i: usize = 0;
    while i < v.len()
        invariant
            i <= v@.len(),
            r@ == v@.subrange(0, i as int),
        decreases v@.len() - i,
    {
        r.push(v[i]);
        proof {
            assert(r@ =~= v@.subrange(0, i + 1));
        }
        i += 1;
    }
    proof {
        assert(r@ =~= v@);
    }
    r
}

/// Maximum parametric ratio solver: the engine of the cycle-ratio
/// family, over a borrowed graph and a caller-supplied ratio interface.
pub struct MaxParametricSolver<'a, API: ParametricAPI> {
    /// The graph whose edges the parametric distances weight.
    pub digraph: &'a DiGraph,
    /// The pluggable distance / breakeven-ratio interface.
    pub omega: API,
}

impl<'a, API: ParametricAPI> MaxParametricSolver<'a, API> {
    /// Pair a graph with a ratio interface.
    pub fn new(digraph: &'a DiGraph, omega: API) -> (r: Self)
        requires
            digraph.wf(),
        ensures
            r.digraph == digraph,
            r.omega == omega,
    {
        MaxParametricSolver { digraph, omega }
    }

    /// Run the engine from the distance labels `dist` and the trial
    /// ratio `ratio`.  Each round weights the edges at the current
    /// ratio, collects the negative cycles the finder exposes, and
    /// takes the smallest defined breakeven ratio among them; a round
    /// that cannot strictly improve the ratio ends the search.  The
    /// search also ends if some edge's parametric distance stops being
    /// representable at the current ratio.
    ///
    /// The returned ratio never exceeds the starting one.  When no
    /// cycle is returned the ratio is the starting ratio unchanged;
    /// when one is returned, it is a cycle whose breakeven ratio is
    /// exactly the returned ratio, and whose total parametric distance
    /// at some trial ratio above the result was negative (the round
    /// that exposed it).  Either way the search is stalled at the
    /// result: the contract records why a round there cannot improve —
    /// an undefined distance, a relaxation fixpoint witness, or exposed
    /// cycles none of which has a better breakeven ratio.  Termination
    /// holds because every round's ratio strictly decreases within the
    /// finite set of representable rationals.
    pub fn run(&self, dist: Vec<Rational>, ratio: Rational) -> (r: (Rational, Vec<usize>))
        requires
            self.digraph.wf(),
            dist@.len() == self.digraph.nodes(),
            all_wf(dist@),
            ratio.wf(),
        ensures
            r.0.wf(),
            rat_le(r.0@, ratio@),
            r.1@.len() == 0 ==> r.0 == ratio,
            r.1@.len() > 0 ==> self.omega.zero_cancel_spec(r.1@) == Some(r.0@) && rat_lt(
                r.0@,
                ratio@,
            ) && justified_cycle(&self.omega, r.1@, r.0@, ratio@),
            forall|j: int| 0 <= j < r.1@.len() ==> (#[trigger] r.1@[j]) < self.digraph.edges(),
            stalled_at(&self.omega, self.digraph, r.0@),
    {
        let g = self.digraph;
        let n = g.num_nodes();
        let m = g.num_edges();
        let mut dist = dist;
        let mut r_min = ratio;
        let mut c_min: Vec<usize> = Vec::new();
        let mut cycle: Vec<usize> = Vec::new();
        let mut current_ratio = ratio;
        let mut ncf = NegCycleFinder::new(g);
        let ghost mut just_ratio: Rat = ratio@;
        loop
            invariant
                g == self.digraph,
                g.wf(),
                n == g.nodes(),
                m == g.edges(),
                ncf.wf(),
                ncf.digraph == g,
                dist@.len() == n,
                all_wf(dist@),
                ratio.wf(),
                current_ratio.wf(),
                r_min == current_ratio,
                cycle@ == c_min@,
                rat_le(current_ratio@, ratio@),
                cycle@.len() == 0 ==> current_ratio == ratio,
                cycle@.len() > 0 ==> self.omega.zero_cancel_spec(c_min@) == Some(r_min@)
                    && rat_lt(current_ratio@, ratio@) && rat_wf(just_ratio) && rat_lt(
                    r_min@,
                    just_ratio,
                ) && rat_le(just_ratio, ratio@) && (match param_cycle_sum(
                    &self.omega,
                    just_ratio,
                    c_min@,
                    0,
                ) {
                    Some(s) => rat_lt(s, rat_zero()),
                    None => false,
                }),
                forall|j: int| 0 <= j < c_min@.len() ==> (#[trigger] c_min@[j]) < m,
            ensures
                current_ratio.wf(),
                rat_le(current_ratio@, ratio@),
                cycle@.len() == 0 ==> current_ratio == ratio,
                cycle@.len() > 0 ==> self.omega.zero_cancel_spec(cycle@) == Some(current_ratio@)
                    && rat_lt(current_ratio@, ratio@) && justified_cycle(
                    &self.omega,
                    cycle@,
                    current_ratio@,
                    ratio@,
                ),
                forall|j: int| 0 <= j < cycle@.len() ==> (#[trigger] cycle@[j]) < m,
                stalled_at(&self.omega, g, current_ratio@),
            decreases rat_measure(current_ratio@),
        {
            proof {
                lemma_view_fits(current_ratio);
                lemma_rat_measure_nonneg(current_ratio@);
            }
            let mut weights: Vec<Rational> = Vec::new();
            let mut e: usize = 0;
            while e < m
                invariant
                    g == self.digraph,
                    g.wf(),
                    m == g.edges(),
                    ratio.wf(),
                    current_ratio.wf(),
                    rat_le(current_ratio@, ratio@),
                    cycle@.len() == 0 ==> current_ratio == ratio,
                    cycle@.len() > 0 ==> self.omega.zero_cancel_spec(cycle@) == Some(
                        current_ratio@,
                    ) && rat_lt(current_ratio@, ratio@) && rat_wf(just_ratio) && rat_lt(
                        current_ratio@,
                        just_ratio,
                    ) && rat_le(just_ratio, ratio@) && (match param_cycle_sum(
                        &self.omega,
                        just_ratio,
                        cycle@,
                        0,
                    ) {
                        Some(s) => rat_lt(s, rat_zero()),
                        None => false,
                    }),
                    forall|j: int| 0 <= j < cycle@.len() ==> (#[trigger] cycle@[j]) < m,
                    e <= m,
                    weights@.len() == e,
                    all_wf(weights@),
                    forall|k: int|
                        0 <= k < e ==> self.omega.distance_spec(current_ratio@, k) == Some(
                            (#[trigger] weights@[k])@,
                        ),
                decreases m - e,
            {
                match self.omega.distance(&current_ratio, e) {
                    Some(w) => {
                        weights.push(w);
                        e += 1;
                    },
                    None => {
                        proof {
                            if cycle@.len() > 0 {
                                assert(justified_cycle(&self.omega, cycle@, current_ratio@, ratio@));
                            }
                            assert(0 <= e < g.edges() && self.omega.distance_spec(
                                current_ratio@,
                                e as int,
                            ) is None);
                        }
                        return (current_ratio, cycle);
                    },
                }
            }
            let found = ncf.howard(&mut dist, &weights);
            let ghost round_ratio: Rat = current_ratio@;
            let mut idx: usize = 0;
            while idx < found.len()
                invariant
                    g.wf(),
                    n == g.nodes(),
                    m == g.edges(),
                    ratio.wf(),
                    current_ratio.wf(),
                    r_min.wf(),
                    round_ratio == current_ratio@,
                    idx <= found@.len(),
                    weights@.len() == m,
                    all_wf(weights@),
                    forall|k: int|
                        0 <= k < m ==> self.omega.distance_spec(current_ratio@, k) == Some(
                            (#[trigger] weights@[k])@,
                        ),
                    forall|i: int|
                        0 <= i < found@.len() ==> negative_cycle_report(
                            g,
                            ncf.pred@,
                            weights@,
                            (#[trigger] found@[i])@,
                        ),
                    dist@.len() == n,
                    all_wf(dist@),
                    found@.len() == 0 ==> fixpoint(g, dist@, weights@),
                    r_min == current_ratio ==> forall|i: int|
                        0 <= i < idx ==> !(match self.omega.zero_cancel_spec(
                            (#[trigger] found@[i])@,
                        ) {
                            Some(z) => rat_lt(z, current_ratio@),
                            None => false,
                        }),
                    rat_le(r_min@, current_ratio@),
                    rat_le(current_ratio@, ratio@),
                    r_min == current_ratio || rat_lt(r_min@, current_ratio@),
                    rat_lt(r_min@, current_ratio@) ==> c_min@.len() > 0
                        && self.omega.zero_cancel_spec(c_min@) == Some(r_min@) && rat_wf(just_ratio)
                        && rat_lt(r_min@, just_ratio) && rat_le(just_ratio, ratio@) && (match
                    param_cycle_sum(&self.omega, just_ratio, c_min@, 0) {
                        Some(s) => rat_lt(s, rat_zero()),
                        None => false,
                    }),
                    r_min == current_ratio ==> cycle@ == c_min@ && (cycle@.len() == 0
                        ==> current_ratio == ratio) && (cycle@.len() > 0
                        ==> self.omega.zero_cancel_spec(c_min@) == Some(r_min@) && rat_lt(
                        current_ratio@,
                        ratio@,
                    ) && rat_wf(just_ratio) && rat_lt(r_min@, just_ratio) && rat_le(
                        just_ratio,
                        ratio@,
                    ) && (match param_cycle_sum(&self.omega, just_ratio, c_min@, 0) {
                        Some(s) => rat_lt(s, rat_zero()),
                        None => false,
                    })),
                    forall|j: int| 0 <= j < c_min@.len() ==> (#[trigger] c_min@[j]) < m,
                decreases found@.len() - idx,
            {
                let ci = &found[idx];
                match self.omega.zero_cancel(ci) {
                    Some(ri) => {
                        if ri.lt(&r_min) {
                            proof {
                                assert(negative_cycle_report(g, ncf.pred@, weights@, ci@));
                                lemma_param_sum_eq(&self.omega, round_ratio, ci@, weights@, 0);
                                lemma_rat_lt_le_trans(ri@, r_min@, current_ratio@);
                            }
                            r_min = ri;
                            c_min = copy_edges(ci);
                            proof {
                                just_ratio = round_ratio;
                            }
                        }
                    },
                    None => {
                    },
                }
                idx += 1;
            }
            if !r_min.lt(&current_ratio) {
                proof {
                    if cycle@.len() > 0 {
                        assert(justified_cycle(&self.omega, cycle@, current_ratio@, ratio@));
                    }
                    assert(round_weights(&self.omega, current_ratio@, m as int, weights@));
                    if found@.len() == 0 {
                        assert(fixpoint(g, dist@, weights@));
                    } else {
                        let cs = Seq::new(found@.len(), |i: int| found@[i]@);
                        assert forall|i: int| 0 <= i < cs.len() implies (#[trigger] cs[i]).len()
                            >= 1 && rat_lt(edge_sum(cs[i], weights@), rat_zero()) && !(match self
                            .omega.zero_cancel_spec(cs[i]) {
                            Some(z) => rat_lt(z, current_ratio@),
                            None => false,
                        }) by {
                            assert(cs[i] == found@[i]@);
                            assert(negative_cycle_report(g, ncf.pred@, weights@, found@[i]@));
                        }
                        assert forall|i: int, j: int|
                            0 <= i < cs.len() && 0 <= j < cs[i].len() implies (#[trigger] cs[i][j])
                            < g.edges() by {
                            assert(cs[i] == found@[i]@);
                            assert(negative_cycle_report(g, ncf.pred@, weights@, found@[i]@));
                        }
                        assert(non_improving_reports(
                            &self.omega,
                            g,
                            current_ratio@,
                            weights@,
                            cs,
                        ));
                    }
                }
                break ;
            }
            cycle = copy_edges(&c_min);
            proof {
                lemma_view_fits(r_min);
                lemma_view_fits(current_ratio);
                lemma_rat_embed_lt(r_min@, current_ratio@);
                lemma_rat_measure_nonneg(r_min@);
                lemma_rat_lt_le_trans(r_min@, current_ratio@, ratio@);
            }
            current_ratio = r_min;
        }
        (current_ratio, cycle)
    }
}

} // verus!
