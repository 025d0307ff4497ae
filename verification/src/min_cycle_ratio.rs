//! Minimum cycle ratio solver.
//!
//! Edges carry a cost and a non-negative time; the ratio of a cycle is
//! its total cost over its total time.  Driving the parametric ratio
//! engine with the distance `cost - ratio * time` and the breakeven
//! ratio `total cost / total time` finds the cycle minimizing cost over
//! time in the whole graph: the classical minimum-cycle-ratio problem.

use vstd::prelude::*;

use crate::digraph::DiGraph;
use crate::neg_cycle::all_wf;
use crate::neg_cycle::edge_sum;
use crate::neg_cycle::fixpoint;
use crate::parametric::MaxParametricSolver;
use crate::parametric::ParametricAPI;
use crate::parametric::non_improving_reports;
use crate::parametric::param_cycle_sum;
use crate::parametric::round_weights;
use crate::parametric::stalled_at;
use crate::rational::Rat;
use crate::rational::Rational;
use crate::rational::rat_add;
use crate::rational::rat_div;
use crate::rational::rat_fits;
use crate::rational::rat_le;
use crate::rational::rat_lt;
use crate::rational::rat_mul;
use crate::rational::rat_wf;
use crate::rational::rat_sub;
use crate::rational::rat_zero;

verus! {

/// Left-fold sum, over the listed edges, of a per-edge attribute
/// vector: `None` as soon as an edge id is out of range or a partial
/// sum stops being representable.
pub open spec fn checked_attr_sum(
    vals: Seq<Rational>,
    c: Seq<usize>,
    i: int,
    acc: Rat,
) -> Option<Rat>
    decreases c.len() - i,
{
    if i < 0 || i >= c.len() {
        Some(acc)
    } else if c[i] >= vals.len() {
        None
    } else if rat_fits(rat_add(acc, vals[c[i] as int]@)) {
        checked_attr_sum(vals, c, i + 1, rat_add(acc, vals[c[i] as int]@))
    } else {
        None
    }
}

/// The parametric distance of the cycle-ratio instantiation:
/// `cost - ratio * time`, when each exact step is representable.
pub open spec fn cycle_ratio_distance(
    cost: Seq<Rational>,
    time: Seq<Rational>,
    ratio: Rat,
    edge: int,
) -> Option<Rat> {
    if 0 <= edge < cost.len() && edge < time.len() {
        if rat_fits(rat_mul(ratio, time[edge]@)) && rat_fits(
            rat_sub(cost[edge]@, rat_mul(ratio, time[edge]@)),
        ) {
            Some(rat_sub(cost[edge]@, rat_mul(ratio, time[edge]@)))
        } else {
            None
        }
    } else {
        None
    }
}

/// The breakeven ratio of the cycle-ratio instantiation: total cost
/// over total time around the cycle; `None` for a cycle of zero total
/// time (degenerate, excluded before any division) or when a value is
/// not representable.
pub open spec fn cycle_ratio_of(cost: Seq<Rational>, time: Seq<Rational>, c: Seq<usize>) -> Option<
    Rat,
> {
    match (checked_attr_sum(cost, c, 0, rat_zero()), checked_attr_sum(time, c, 0, rat_zero())) {
        (Some(a), Some(b)) => if b.num != 0 && rat_fits(rat_div(a, b)) {
            Some(rat_div(a, b))
        } else {
            None
        },
        _ => None,
    }
}

/// The total parametric distance of a cycle at a trial ratio, for the
/// cost-over-time instantiation, from position `i` on.
pub open spec fn cycle_ratio_dist_sum(
    cost: Seq<Rational>,
    time: Seq<Rational>,
    ratio: Rat,
    c: Seq<usize>,
    i: int,
) -> Option<Rat>
    decreases c.len() - i,
{
    if i < 0 || i >= c.len() {
        Some(rat_zero())
    } else {
        match (cycle_ratio_distance(cost, time, ratio, c[i] as int), cycle_ratio_dist_sum(
            cost,
            time,
            ratio,
            c,
            i + 1,
        )) {
            (Some(a), Some(b)) => Some(rat_add(a, b)),
            _ => None,
        }
    }
}

/// A returned cycle is justified at some witness trial ratio between
/// the result and the start: there its total parametric distance is
/// defined and negative, which is what exposed it.
pub open spec fn min_ratio_justified(
    cost: Seq<Rational>,
    time: Seq<Rational>,
    c: Seq<usize>,
    result: Rat,
    start: Rat,
) -> bool {
    exists|rp: Rat|
        rat_wf(rp) && rat_lt(result, rp) && rat_le(rp, start) && (match
        #[trigger] cycle_ratio_dist_sum(cost, time, rp, c, 0) {
            Some(s) => rat_lt(s, rat_zero()),
            None => false,
        })
}

/// The engine's generic parametric sum, at the cost-over-time
/// interface, is the cost-over-time distance sum.
proof fn lemma_api_sum_eq(api: &CycleRatioAPI, ratio: Rat, c: Seq<usize>, i: int)
    ensures
        param_cycle_sum(api, ratio, c, i) == cycle_ratio_dist_sum(
            api.costs(),
            api.times(),
            ratio,
            c,
            i,
        ),
    decreases c.len() - i,
{
    if 0 <= i < c.len() {
        lemma_api_sum_eq(api, ratio, c, i + 1);
    } else {
        if i < 0 {
            lemma_api_sum_eq(api, ratio, c, 0);
        }
    }
}

/// A full per-edge weight vector for one round of the cycle-ratio
/// problem: every edge's `cost - ratio * time`, exactly.
pub open spec fn mcr_round_weights(
    cost: Seq<Rational>,
    time: Seq<Rational>,
    ratio: Rat,
    m: int,
    w: Seq<Rational>,
) -> bool {
    &&& w.len() == m
    &&& all_wf(w)
    &&& forall|e: int|
        0 <= e < m ==> cycle_ratio_distance(cost, time, ratio, e) == Some((#[trigger] w[e])@)
}

/// A non-empty batch of genuinely negative cycles at the round's
/// weights, none with cost-over-time ratio below the round's ratio.
pub open spec fn mcr_non_improving_reports(
    cost: Seq<Rational>,
    time: Seq<Rational>,
    g: &DiGraph,
    ratio: Rat,
    w: Seq<Rational>,
    cs: Seq<Seq<usize>>,
) -> bool {
    &&& cs.len() > 0
    &&& forall|i: int| 0 <= i < cs.len() ==> (#[trigger] cs[i]).len() >= 1
    &&& forall|i: int, j: int|
        0 <= i < cs.len() && 0 <= j < cs[i].len() ==> (#[trigger] cs[i][j]) < g.edges()
    &&& forall|i: int| 0 <= i < cs.len() ==> rat_lt(edge_sum(#[trigger] cs[i], w), rat_zero())
    &&& forall|i: int|
        0 <= i < cs.len() ==> !(match cycle_ratio_of(cost, time, #[trigger] cs[i]) {
            Some(z) => rat_lt(z, ratio),
            None => false,
        })
}

/// Why the cycle-ratio search stopped at a ratio: a round at it cannot
/// strictly improve — an undefined parametric distance, a relaxation
/// fixpoint for the round's weights, or exposed negative cycles none of
/// whose cost-over-time ratios is below it.
pub open spec fn mcr_stalled_at(
    cost: Seq<Rational>,
    time: Seq<Rational>,
    g: &DiGraph,
    ratio: Rat,
) -> bool {
    ||| exists|e: int|
        0 <= e < g.edges() && (#[trigger] cycle_ratio_distance(cost, time, ratio, e)) is None
    ||| exists|d: Seq<Rational>, w: Seq<Rational>|
        mcr_round_weights(cost, time, ratio, g.edges(), w) && d.len() == g.nodes() && all_wf(d)
            && #[trigger] fixpoint(g, d, w)
    ||| exists|w: Seq<Rational>, cs: Seq<Seq<usize>>|
        mcr_round_weights(cost, time, ratio, g.edges(), w) && #[trigger] mcr_non_improving_reports(
            cost,
            time,
            g,
            ratio,
            w,
            cs,
        )
}

/// The engine's generic stall statement, at the cost-over-time
/// interface, is the cost-over-time stall statement.
proof fn lemma_stalled_transfer(api: &CycleRatioAPI, g: &DiGraph, ratio: Rat)
    requires
        stalled_at(api, g, ratio),
    ensures
        mcr_stalled_at(api.costs(), api.times(), g, ratio),
{
    let cost = api.costs();
    let time = api.times();
    if exists|e: int| 0 <= e < g.edges() && (#[trigger] ParametricAPI::distance_spec(api, ratio, e)) is None {
        let e = choose|e: int|
            0 <= e < g.edges() && (#[trigger] ParametricAPI::distance_spec(api, ratio, e)) is None;
        assert(cycle_ratio_distance(cost, time, ratio, e) is None);
    } else if exists|d: Seq<Rational>, w: Seq<Rational>|
        round_weights(api, ratio, g.edges(), w) && d.len() == g.nodes() && all_wf(d)
            && #[trigger] fixpoint(g, d, w) {
        let (d, w) = choose|d: Seq<Rational>, w: Seq<Rational>|
            round_weights(api, ratio, g.edges(), w) && d.len() == g.nodes() && all_wf(d)
                && #[trigger] fixpoint(g, d, w);
        assert(mcr_round_weights(cost, time, ratio, g.edges(), w));
    } else {
        let (w, cs) = choose|w: Seq<Rational>, cs: Seq<Seq<usize>>|
            round_weights(api, ratio, g.edges(), w) && #[trigger] non_improving_reports(
                api,
                g,
                ratio,
                w,
                cs,
            );
        assert(mcr_round_weights(cost, time, ratio, g.edges(), w));
        assert(mcr_non_improving_reports(cost, time, g, ratio, w, cs));
    }
}

/// The ratio interface of the minimum-cycle-ratio problem: edges carry
/// a cost and a non-negative time, indexed by edge id.
pub struct CycleRatioAPI {
    cost: Vec<Rational>,
    time: Vec<Rational>,
}

impl CycleRatioAPI {
    /// The attribute vectors pair up, hold well-formed values, and
    /// every time is non-negative (the precondition of the
    /// minimum-cycle-ratio problem).
    #[verifier::type_invariant]
    pub open spec fn inv(&self) -> bool {
        &&& self.costs().len() == self.times().len()
        &&& all_wf(self.costs())
        &&& all_wf(self.times())
        &&& forall|i: int|
            0 <= i < self.times().len() ==> rat_le(rat_zero(), (#[trigger] self.times()[i])@)
    }

    /// The per-edge costs.
    pub closed spec fn costs(&self) -> Seq<Rational> {
        self.cost@
    }

    /// The per-edge times.
    pub closed spec fn times(&self) -> Seq<Rational> {
        self.time@
    }

    /// Pair up per-edge costs and times.
    pub fn new(cost: Vec<Rational>, time: Vec<Rational>) -> (r: Self)
        requires
            cost@.len() == time@.len(),
            all_wf(cost@),
            all_wf(time@),
            forall|i: int| 0 <= i < time@.len() ==> rat_le(rat_zero(), (#[trigger] time@[i])@),
        ensures
            r.costs() == cost@,
            r.times() == time@,
    {
        CycleRatioAPI { cost, time }
    }
}

impl ParametricAPI for CycleRatioAPI {
    open spec fn distance_spec(&self, ratio: Rat, edge: int) -> Option<Rat> {
        cycle_ratio_distance(self.costs(), self.times(), ratio, edge)
    }

    open spec fn zero_cancel_spec(&self, cycle: Seq<usize>) -> Option<Rat> {
        cycle_ratio_of(self.costs(), self.times(), cycle)
    }

    /// `cost - ratio * time` for the edge, exactly, or `None` when an
    /// exact step does not fit.
    fn distance(&self, ratio: &Rational, edge: usize) -> (r: Option<Rational>) {
        proof {
            use_type_invariant(&*self);
        }
        if edge >= self.cost.len() || edge >= self.time.len() {
            return None;
        }
        match ratio.try_mul(&self.time[edge]) {
            Some(m) => self.cost[edge].try_sub(&m),
            None => None,
        }
    }

    /// Total cost over total time around the cycle, or `None` for a
    /// zero-total-time cycle or an unrepresentable value.
    fn zero_cancel(&self, cycle: &Vec<usize>) -> (r: Option<Rational>) {
        proof {
            use_type_invariant(&*self);
        }
        let total_cost = match sum_attr(&self.cost, cycle) {
            Some(a) => a,
            None => {
                return None;
            },
        };
        let total_time = match sum_attr(&self.time, cycle) {
            Some(b) => b,
            None => {
                return None;
            },
        };
        total_cost.try_div(&total_time)
    }
}

/// Sum an attribute over the listed edges, exactly; `None` on an
/// out-of-range edge id or an unrepresentable partial sum.
fn sum_attr(vals: &Vec<Rational>, c: &Vec<usize>) -> (r: Option<Rational>)
    requires
        all_wf(vals@),
    ensures
        match r {
            Some(x) => x.wf() && checked_attr_sum(vals@, c@, 0, rat_zero()) == Some(x@),
            None => checked_attr_sum(vals@, c@, 0, rat_zero()) is None,
        },
{
    let mut acc = Rational::zero();
    let mut i: usize = 0;
    while i < c.len()
        invariant
            all_wf(vals@),
            i <= c@.len(),
            acc.wf(),
            checked_attr_sum(vals@, c@, 0, rat_zero()) == checked_attr_sum(vals@, c@, i as int, acc@),
        decreases c@.len() - i,
    {
        let e = c[i];
        if e >= vals.len() {
            return None;
        }
        match acc.try_add(&vals[e]) {
            Some(next) => {
                acc = next;
            },
            None => {
                return None;
            },
        }
        i += 1;
    }
    Some(acc)
}

/// Minimum cycle ratio solver: the parametric engine instantiated with
/// the cost-over-time ratio interface.
pub struct MinCycleRatioSolver<'a> {
    /// The graph whose cycles are searched.
    pub digraph: &'a DiGraph,
    /// Cost of each edge, by edge id.
    pub cost: Vec<Rational>,
    /// Time of each edge, by edge id; non-negative.
    pub time: Vec<Rational>,
}

impl<'a> MinCycleRatioSolver<'a> {
    /// The solver is sound: a well-formed graph, one well-formed cost
    /// and non-negative time per edge.
    pub open spec fn wf(&self) -> bool {
        &&& self.digraph.wf()
        &&& self.cost@.len() == self.digraph.edges()
        &&& self.time@.len() == self.digraph.edges()
        &&& all_wf(self.cost@)
        &&& all_wf(self.time@)
        &&& forall|i: int|
            0 <= i < self.time@.len() ==> rat_le(rat_zero(), (#[trigger] self.time@[i])@)
    }

    /// Pair a graph with its edges' costs and times.
    pub fn new(digraph: &'a DiGraph, cost: Vec<Rational>, time: Vec<Rational>) -> (r: Self)
        requires
            digraph.wf(),
            cost@.len() == digraph.edges(),
            time@.len() == digraph.edges(),
            all_wf(cost@),
            all_wf(time@),
            forall|i: int| 0 <= i < time@.len() ==> rat_le(rat_zero(), (#[trigger] time@[i])@),
        ensures
            r.wf(),
            r.digraph == digraph,
            r.cost@ == cost@,
            r.time@ == time@,
    {
        MinCycleRatioSolver { digraph, cost, time }
    }

    /// Solve from the distance labels `dist` and the starting ratio
    /// `r0`: run the parametric engine with the cost-over-time
    /// interface.  The returned ratio never exceeds `r0`; with no cycle
    /// it is `r0` unchanged, and with one the cycle's cost-over-time
    /// ratio is exactly the returned ratio and the cycle's parametric
    /// distance was negative at some trial ratio above the result.
    /// Either way the search is stalled at the result: a round there
    /// cannot improve the ratio, and the contract records why.
    pub fn run(&self, dist: Vec<Rational>, r0: Rational) -> (r: (Rational, Vec<usize>))
        requires
            self.wf(),
            dist@.len() == self.digraph.nodes(),
            all_wf(dist@),
            r0.wf(),
        ensures
            r.0.wf(),
            rat_le(r.0@, r0@),
            r.1@.len() == 0 ==> r.0 == r0,
            r.1@.len() > 0 ==> cycle_ratio_of(self.cost@, self.time@, r.1@) == Some(r.0@) && rat_lt(
                r.0@,
                r0@,
            ) && min_ratio_justified(self.cost@, self.time@, r.1@, r.0@, r0@),
            forall|j: int| 0 <= j < r.1@.len() ==> (#[trigger] r.1@[j]) < self.digraph.edges(),
            mcr_stalled_at(self.cost@, self.time@, self.digraph, r.0@),
    {
        let omega = CycleRatioAPI::new(copy_rationals(&self.cost), copy_rationals(&self.time));
        let solver = MaxParametricSolver::new(self.digraph, omega);
        let result = solver.run(dist, r0);
        proof {
            if result.1@.len() > 0 {
                let rp = choose|rp: Rat|
                    rat_wf(rp) && rat_lt(result.0@, rp) && rat_le(rp, r0@) && (match
                    #[trigger] param_cycle_sum(&solver.omega, rp, result.1@, 0) {
                        Some(s) => rat_lt(s, rat_zero()),
                        None => false,
                    });
                lemma_api_sum_eq(&solver.omega, rp, result.1@, 0);
            }
            lemma_stalled_transfer(&solver.omega, self.digraph, result.0@);
        }
        result
    }
}

/// Set a default value for a per-edge weight attribute: every edge
/// without the attribute receives the given value, edges that already
/// carry one keep it.
pub fn set_default(weights: &mut Vec<Option<Rational>>, value: Rational)
    ensures
        final(weights)@.len() == old(weights)@.len(),
        forall|i: int|
            0 <= i < old(weights)@.len() ==> (#[trigger] final(weights)@[i]) == (match old(
                weights,
            )@[i] {
                Some(w) => Some(w),
                None => Some(value),
            }),
{
    let mut i: usize = 0;
    while i < weights.len()
        invariant
            i <= old(weights)@.len(),
            weights@.len() == old(weights)@.len(),
            forall|k: int|
                i <= k < old(weights)@.len() ==> (#[trigger] weights@[k]) == old(weights)@[k],
            forall|k: int|
                0 <= k < i ==> (#[trigger] weights@[k]) == (match old(weights)@[k] {
                    Some(w) => Some(w),
                    None => Some(value),
                }),
        decreases weights@.len() - i,
    {
        if weights[i].is_none() {
            weights.set(i, Some(value));
        }
        i += 1;
    }
}

/// An exact copy of an attribute vector.
fn copy_rationals(v: &Vec<Rational>) -> (r: Vec<Rational>)
    ensures
        r@ == v@,
{
    let mut r: Vec<Rational> = Vec::new();
    let mut i: usize = 0;
    while i < v.len()
        invariant
            i <= v@.len(),
            r@ == v@.subrange(0, i as int),
        decreases v@.len() - i,
    {
        r.push(v[i]);
        proof {
            assert(r@ =~= v@.subrange(0, i + 1));
        }
        i += 1;
    }
    proof {
        assert(r@ =~= v@);
    }
    r
}

} // verus!
