//! Bidirectional negative cycle finder.
//!
//! The same engine as the single-direction finder, duplicated for two
//! independent directions: predecessor relaxation records, for each
//! improved node, the incoming edge that improved it; successor
//! relaxation performs the same distance updates but records, at the
//! *source* of the improving edge, an outgoing pointer.  The finder
//! keeps the two maps independent, so an outer solver can alternate
//! directions without cross-contamination.

use vstd::prelude::*;

use crate::digraph::DiGraph;
use crate::digraph::Links;
use crate::digraph::cycle_represented;
use crate::digraph::reaches;
use crate::digraph::steps_ok;
use crate::digraph::is_least_period;
use crate::digraph::link_edge;
use crate::digraph::new_links;
use crate::digraph::on_cycle;
use crate::digraph::step_at;
use crate::neg_cycle::achievable;
use crate::neg_cycle::all_achievable;
use crate::neg_cycle::all_wf;
use crate::neg_cycle::edge_sum;
use crate::neg_cycle::edge_sum_from;
use crate::neg_cycle::lemma_achievable_refl;
use crate::neg_cycle::lemma_achievable_step;
use crate::neg_cycle::lemma_all_achievable_compose;
use crate::neg_cycle::lemma_all_achievable_update;
use crate::neg_cycle::can_improve;
use crate::neg_cycle::cycle_checked_clean;
use crate::neg_cycle::has_clean_representative;
use crate::neg_cycle::collect_cycle_edges;
use crate::neg_cycle::cycle_has_violation;
use crate::neg_cycle::cycle_matches;
use crate::neg_cycle::fixpoint;
use crate::neg_cycle::lemma_cycle_negative;
use crate::neg_cycle::negative_cycle_report;
use crate::neg_cycle::pred_le;
use crate::neg_cycle::pred_links_wf;
use crate::neg_cycle::relax_links;
use crate::neg_cycle::updated_entry;
use crate::neg_cycle::scan_cycles;
use crate::neg_cycle::viol_at;
use crate::rational::Rational;
use crate::rational::dist_measure;
use crate::rational::lemma_dist_measure_lt;
use crate::rational::lemma_dist_measure_nonneg;
use crate::rational::lemma_rat_le_lt_trans;
use crate::rational::lemma_rat_le_trans;
use crate::rational::lemma_rat_lt_le_trans;
use crate::rational::rat_fits;
use crate::rational::rat_add;
use crate::rational::rat_le;
use crate::rational::rat_zero;
use crate::rational::rat_lt;

verus! {

/// Structural soundness of a successor map against a graph: one slot
/// per node, and every pointer `succ[u] = (v, e)` names the graph's
/// edge `e` from `u` to `v` (outgoing, where a predecessor map's
/// pointers are incoming).
pub open spec fn succ_links_wf(links: Links, g: &DiGraph) -> bool {
    &&& links.len() == g.nodes()
    &&& forall|u: int|
        0 <= u < links.len() ==> match #[trigger] links[u] {
            Some(p) => p.0 < g.nodes() && p.1 < g.edges() && g.has_edge(u, p.0 as int, p.1 as int),
            None => true,
        }
}

/// Structural bounds of a link map against a graph, whichever direction
/// its pointers run: one slot per node, targets and edge ids in range.
pub open spec fn links_bounded(links: Links, g: &DiGraph) -> bool {
    &&& links.len() == g.nodes()
    &&& forall|v: int|
        0 <= v < links.len() ==> match #[trigger] links[v] {
            Some(p) => p.0 < g.nodes() && p.1 < g.edges(),
            None => true,
        }
}

/// What howard_succ reports for each cycle: a non-empty list of real
/// edge ids whose weights sum below zero, which is exactly the walk of
/// a cycle of the successor map, and on which the returned distance
/// vector violates the mirrored Bellman-Ford inequality somewhere.
pub open spec fn checked_cycle_report(
    g: &DiGraph,
    links: Links,
    dist: Seq<Rational>,
    w: Seq<Rational>,
    c: Seq<usize>,
) -> bool {
    &&& c.len() >= 1
    &&& forall|j: int| 0 <= j < c.len() ==> (#[trigger] c[j]) < g.edges()
    &&& rat_lt(edge_sum(c, w), rat_zero())
    &&& exists|v: int|
        0 <= v < g.nodes() && #[trigger] cycle_matches(links, c, v) && exists|j: int|
            0 <= j < c.len() && viol_at(links, dist, w, #[trigger] step_at(links, v, j as nat))
}

/// Sum the weights of the listed edges, exactly, or report that some
/// partial sum does not fit the 64-bit representation.
fn sum_edges(c: &Vec<usize>, weights: &Vec<Rational>) -> (r: Option<Rational>)
    requires
        all_wf(weights@),
        forall|j: int| 0 <= j < c@.len() ==> (#[trigger] c@[j]) < weights@.len(),
    ensures
        match r {
            Some(x) => x.wf() && x@ == edge_sum(c@, weights@),
            None => exists|i: int|
                0 <= i < c@.len() && !rat_fits(
                    rat_add((#[trigger] weights@[c@[i] as int])@, edge_sum_from(c@, weights@, i + 1)),
                ),
        },
{
    let mut acc = Rational::zero();
    let mut i: usize = c.len();
    while i > 0
        invariant
            all_wf(weights@),
            forall|j: int| 0 <= j < c@.len() ==> (#[trigger] c@[j]) < weights@.len(),
            i <= c@.len(),
            acc.wf(),
            acc@ == edge_sum_from(c@, weights@, i as int),
        decreases i,
    {
        i -= 1;
        let e = c[i];
        match weights[e].try_add(&acc) {
            Some(next) => {
                acc = next;
            },
            None => {
                return None;
            },
        }
    }
    Some(acc)
}

/// Negative cycle finder with independent predecessor and successor
/// maps, for callers that alternate relaxation directions.
pub struct NegCycleFinderQ<'a> {
    /// The directed graph under analysis.
    pub digraph: &'a DiGraph,
    /// For each node `v`, the recorded predecessor `(u, e)`: the edge
    /// `e` from `u` to `v` that last lowered `dist[v]`.
    pub pred: Vec<Option<(usize, usize)>>,
    /// For each node `u`, the recorded successor `(v, e)`: the edge `e`
    /// from `u` to `v` through which `u` last lowered `dist[v]`.
    pub succ: Vec<Option<(usize, usize)>>,
}

impl<'a> NegCycleFinderQ<'a> {
    /// The finder is sound: its graph is well formed and every recorded
    /// pointer, in either map, names a real edge of it.
    pub open spec fn wf(&self) -> bool {
        &&& self.digraph.wf()
        &&& pred_links_wf(self.pred@, self.digraph)
        &&& succ_links_wf(self.succ@, self.digraph)
    }

    /// Start a finder over a graph, with no pointers recorded yet.
    pub fn new(digraph: &'a DiGraph) -> (r: Self)
        requires
            digraph.wf(),
        ensures
            r.wf(),
            r.digraph == digraph,
            r.pred@.len() == digraph.nodes(),
            r.succ@.len() == digraph.nodes(),
            forall|v: int| 0 <= v < r.pred@.len() ==> (#[trigger] r.pred@[v]) is None,
            forall|v: int| 0 <= v < r.succ@.len() ==> (#[trigger] r.succ@[v]) is None,
    {
        let n = digraph.num_nodes();
        NegCycleFinderQ { digraph, pred: new_links(n), succ: new_links(n) }
    }

    /// Scan the predecessor map for cycles; every returned node lies on
    /// one, and every cycle of the map is represented by some returned
    /// node.
    pub fn find_cycle_pred(&self) -> (result: Vec<usize>)
        requires
            self.wf(),
        ensures
            forall|i: int|
                0 <= i < result@.len() ==> (#[trigger] result@[i]) < self.digraph.nodes()
                    && on_cycle(self.pred@, result@[i] as int),
            forall|v: int|
                0 <= v < self.digraph.nodes() && #[trigger] on_cycle(self.pred@, v)
                    ==> cycle_represented(self.pred@, v, result@),
            forall|i1: int, i2: int|
                0 <= i1 < result@.len() && 0 <= i2 < result@.len() && i1 != i2 ==> (
                #[trigger] result@[i1]) != (#[trigger] result@[i2]),
            forall|i1: int, i2: int|
                0 <= i1 < result@.len() && 0 <= i2 < result@.len() && i1 != i2 ==> !reaches(
                    self.pred@,
                    (#[trigger] result@[i2]) as int,
                    (#[trigger] result@[i1]) as int,
                ),
    {
        scan_cycles(&self.pred, self.digraph.num_nodes())
    }

    /// Scan the successor map for cycles; every returned node lies on
    /// one, and every cycle of the map is represented by some returned
    /// node.
    pub fn find_cycle_succ(&self) -> (result: Vec<usize>)
        requires
            self.wf(),
        ensures
            forall|i: int|
                0 <= i < result@.len() ==> (#[trigger] result@[i]) < self.digraph.nodes()
                    && on_cycle(self.succ@, result@[i] as int),
            forall|v: int|
                0 <= v < self.digraph.nodes() && #[trigger] on_cycle(self.succ@, v)
                    ==> cycle_represented(self.succ@, v, result@),
            forall|i1: int, i2: int|
                0 <= i1 < result@.len() && 0 <= i2 < result@.len() && i1 != i2 ==> (
                #[trigger] result@[i1]) != (#[trigger] result@[i2]),
            forall|i1: int, i2: int|
                0 <= i1 < result@.len() && 0 <= i2 < result@.len() && i1 != i2 ==> !reaches(
                    self.succ@,
                    (#[trigger] result@[i2]) as int,
                    (#[trigger] result@[i1]) as int,
                ),
    {
        scan_cycles(&self.succ, self.digraph.num_nodes())
    }

    /// One relaxation pass in the predecessor direction: exactly the
    /// single-direction finder's pass, on this finder's predecessor
    /// map.  The successor map is untouched.
    pub fn relax_pred(&mut self, dist: &mut Vec<Rational>, weights: &Vec<Rational>) -> (changed:
        bool)
        requires
            old(self).wf(),
            old(dist)@.len() == old(self).digraph.nodes(),
            all_wf(old(dist)@),
            weights@.len() == old(self).digraph.edges(),
            all_wf(weights@),
        ensures
            final(self).wf(),
            final(self).digraph == old(self).digraph,
            final(self).succ@ == old(self).succ@,
            final(dist)@.len() == old(dist)@.len(),
            all_wf(final(dist)@),
            forall|i: int|
                0 <= i < old(dist)@.len() ==> rat_le((#[trigger] final(dist)@[i])@, old(dist)@[i]@),
            changed ==> exists|i: int|
                0 <= i < old(dist)@.len() && rat_lt((#[trigger] final(dist)@[i])@, old(dist)@[i]@),
            !changed ==> final(dist)@ == old(dist)@ && final(self).pred@ == old(self).pred@,
            !changed ==> fixpoint(old(self).digraph, final(dist)@, weights@),
            pred_le(old(self).pred@, old(dist)@, weights@) ==> pred_le(
                final(self).pred@,
                final(dist)@,
                weights@,
            ),
            all_achievable(old(self).digraph, old(dist)@, weights@, final(dist)@),
            forall|v: int|
                0 <= v < old(dist)@.len() && (#[trigger] final(dist)@[v]) != old(dist)@[v]
                    ==> updated_entry(
                    old(self).digraph,
                    final(self).pred@,
                    final(dist)@,
                    old(dist)@,
                    weights@,
                    v,
                ),
            forall|v: int|
                0 <= v < old(dist)@.len() && (#[trigger] final(self).pred@[v]) != old(self).pred@[v]
                    ==> rat_lt(final(dist)@[v]@, old(dist)@[v]@),
    {
        relax_links(self.digraph, &mut self.pred, dist, weights)
    }

    /// One relaxation pass in the successor direction: the same
    /// distance updates as the predecessor pass (for each edge
    /// `(u, v, e)`, lower `dist[v]` to a representable
    /// `dist[u] + weight(e)` when that is smaller), but recording
    /// `succ[u] = (v, e)`: an outgoing pointer at the updated source.
    /// The predecessor map is untouched.
    pub fn relax_succ(&mut self, dist: &mut Vec<Rational>, weights: &Vec<Rational>) -> (changed:
        bool)
        requires
            old(self).wf(),
            old(dist)@.len() == old(self).digraph.nodes(),
            all_wf(old(dist)@),
            weights@.len() == old(self).digraph.edges(),
            all_wf(weights@),
        ensures
            final(self).wf(),
            final(self).digraph == old(self).digraph,
            final(self).pred@ == old(self).pred@,
            final(dist)@.len() == old(dist)@.len(),
            all_wf(final(dist)@),
            forall|i: int|
                0 <= i < old(dist)@.len() ==> rat_le((#[trigger] final(dist)@[i])@, old(dist)@[i]@),
            changed ==> exists|i: int|
                0 <= i < old(dist)@.len() && rat_lt((#[trigger] final(dist)@[i])@, old(dist)@[i]@),
            !changed ==> final(dist)@ == old(dist)@ && final(self).succ@ == old(self).succ@,
            !changed ==> fixpoint(old(self).digraph, final(dist)@, weights@),
            all_achievable(old(self).digraph, old(dist)@, weights@, final(dist)@),
            forall|x: int|
                0 <= x < old(self).succ@.len() && (#[trigger] final(self).succ@[x]) != old(
                    self,
                ).succ@[x] ==> match final(self).succ@[x] {
                    Some(p) => old(self).digraph.has_edge(x, p.0 as int, p.1 as int) && rat_lt(
                        final(dist)@[p.0 as int]@,
                        old(dist)@[p.0 as int]@,
                    ),
                    None => false,
                },
    {
        let g = self.digraph;
        let n = g.num_nodes();
        proof {
            assert forall|v: int|
                0 <= v < dist@.len() implies achievable(
                g,
                old(dist)@,
                weights@,
                v,
                (#[trigger] dist@[v])@,
            ) by {
                lemma_achievable_refl(g, old(dist)@, weights@, v);
            }
        }
        let mut changed = false;
        let mut u: usize = 0;
        while u < n
            invariant
                self.wf(),
                self.digraph == old(self).digraph,
                self.pred@ == old(self).pred@,
                g == old(self).digraph,
                n == g.nodes(),
                u <= n,
                dist@.len() == old(dist)@.len(),
                old(dist)@.len() == g.nodes(),
                all_wf(dist@),
                all_wf(old(dist)@),
                all_wf(weights@),
                weights@.len() == g.edges(),
                forall|i: int|
                    0 <= i < old(dist)@.len() ==> rat_le((#[trigger] dist@[i])@, old(dist)@[i]@),
                changed ==> exists|i: int|
                    0 <= i < old(dist)@.len() && rat_lt((#[trigger] dist@[i])@, old(dist)@[i]@),
                !changed ==> dist@ == old(dist)@ && self.succ@ == old(self).succ@,
                !changed ==> forall|uu: int, j: int|
                    0 <= uu < u && 0 <= j < g.adjacency()[uu].len()
                        ==> !can_improve(g, dist@, weights@, uu, j),
                all_achievable(g, old(dist)@, weights@, dist@),
                old(self).succ@.len() == g.nodes(),
                forall|x: int|
                    0 <= x < old(self).succ@.len() && (#[trigger] self.succ@[x]) != old(
                        self,
                    ).succ@[x] ==> match self.succ@[x] {
                        Some(p) => g.has_edge(x, p.0 as int, p.1 as int) && rat_lt(
                            dist@[p.0 as int]@,
                            old(dist)@[p.0 as int]@,
                        ),
                        None => false,
                    },
            decreases n - u,
        {
            let deg = g.out_degree(u);
            let du = dist[u];
            proof {
                assert(achievable(g, old(dist)@, weights@, u as int, du@));
            }
            let mut j: usize = 0;
            while j < deg
                invariant
                    self.wf(),
                    self.digraph == old(self).digraph,
                    self.pred@ == old(self).pred@,
                    g == old(self).digraph,
                    n == g.nodes(),
                    u < n,
                    deg == g.adjacency()[u as int].len(),
                    j <= deg,
                    dist@.len() == old(dist)@.len(),
                    old(dist)@.len() == g.nodes(),
                    all_wf(dist@),
                    all_wf(old(dist)@),
                    all_wf(weights@),
                    weights@.len() == g.edges(),
                    du.wf(),
                    rat_le(dist@[u as int]@, du@),
                    forall|i: int|
                        0 <= i < old(dist)@.len() ==> rat_le(
                            (#[trigger] dist@[i])@,
                            old(dist)@[i]@,
                        ),
                    changed ==> exists|i: int|
                        0 <= i < old(dist)@.len() && rat_lt(
                            (#[trigger] dist@[i])@,
                            old(dist)@[i]@,
                        ),
                    !changed ==> dist@ == old(dist)@ && self.succ@ == old(self).succ@,
                    !changed ==> du == dist@[u as int],
                    !changed ==> forall|uu: int, jj: int|
                        0 <= uu < u && 0 <= jj < g.adjacency()[uu].len()
                            ==> !can_improve(g, dist@, weights@, uu, jj),
                    !changed ==> forall|jj: int|
                        0 <= jj < j ==> !can_improve(
                            g,
                            dist@,
                            weights@,
                            u as int,
                            jj,
                        ),
                    all_achievable(g, old(dist)@, weights@, dist@),
                    achievable(g, old(dist)@, weights@, u as int, du@),
                    old(self).succ@.len() == g.nodes(),
                    forall|x: int|
                        0 <= x < old(self).succ@.len() && (#[trigger] self.succ@[x]) != old(
                            self,
                        ).succ@[x] ==> match self.succ@[x] {
                            Some(p) => g.has_edge(x, p.0 as int, p.1 as int) && rat_lt(
                                dist@[p.0 as int]@,
                                old(dist)@[p.0 as int]@,
                            ),
                            None => false,
                        },
                decreases deg - j,
            {
                let (v, e) = g.out_edge(u, j);
                let w = weights[e];
                match du.try_add(&w) {
                    Some(cand) => {
                        let dv = dist[v];
                        if cand.lt(&dv) {
                            proof {
                                let d1 = dist@;
                                assert forall|i: int|
                                    0 <= i < old(dist)@.len() implies rat_le(
                                    (#[trigger] d1.update(v as int, cand)[i])@,
                                    old(dist)@[i]@,
                                ) by {
                                    if i == v {
                                        lemma_rat_lt_le_trans(cand@, d1[i]@, old(dist)@[i]@);
                                    }
                                }
                                if v == u {
                                    lemma_rat_lt_le_trans(cand@, d1[u as int]@, du@);
                                }
                                lemma_rat_lt_le_trans(cand@, d1[v as int]@, old(dist)@[v as int]@);
                                assert(g.adjacency()[u as int][j as int] == (v, e));
                                assert(g.has_edge(u as int, v as int, e as int));
                                lemma_achievable_step(
                                    g,
                                    old(dist)@,
                                    weights@,
                                    u,
                                    v as int,
                                    e,
                                    du@,
                                    cand@,
                                );
                                lemma_all_achievable_update(
                                    g,
                                    old(dist)@,
                                    weights@,
                                    d1,
                                    d1.update(v as int, cand),
                                    v as int,
                                    cand,
                                );
                            }
                            let ghost dist_mid = dist@;
                            let ghost succ_mid = self.succ@;
                            dist.set(v, cand);
                            self.succ.set(u, Some((v, e)));
                            changed = true;
                            proof {
                                assert(rat_lt((dist@[v as int])@, old(dist)@[v as int]@));
                                assert forall|x: int|
                                    0 <= x < old(self).succ@.len() && (#[trigger] self.succ@[x])
                                        != old(self).succ@[x] implies match self.succ@[x] {
                                    Some(p) => g.has_edge(x, p.0 as int, p.1 as int) && rat_lt(
                                        dist@[p.0 as int]@,
                                        old(dist)@[p.0 as int]@,
                                    ),
                                    None => false,
                                } by {
                                    if x == u as int {
                                        assert(self.succ@[x] == Some((v, e)));
                                    } else {
                                        assert(succ_mid.len() == g.nodes());
                                        assert(self.succ@[x] == succ_mid[x]);
                                        match succ_mid[x] {
                                            Some(p) => {
                                                if p.0 as int == v as int {
                                                    lemma_rat_le_lt_trans(
                                                        dist@[p.0 as int]@,
                                                        dist_mid[p.0 as int]@,
                                                        old(dist)@[p.0 as int]@,
                                                    );
                                                }
                                            },
                                            None => {},
                                        }
                                    }
                                }
                                assert forall|x: int|
                                    0 <= x < self.succ@.len() implies match #[trigger] self
                                    .succ@[x] {
                                    Some(p) => p.0 < g.nodes() && p.1 < g.edges() && g.has_edge(
                                        x,
                                        p.0 as int,
                                        p.1 as int,
                                    ),
                                    None => true,
                                } by {
                                    if x != u {
                                    }
                                }
                            }
                        }
                    },
                    None => {
                    },
                }
                j += 1;
            }
            u += 1;
        }
        changed
    }

    /// Reconstruct the cycle through `handle` of the given predecessor
    /// map, as the list of recorded edges of its closed walk.
    pub fn cycle_list_pred(&self, handle: usize, pred_map: &Vec<Option<(usize, usize)>>) -> (cycle:
        Vec<usize>)
        requires
            self.wf(),
            links_bounded(pred_map@, self.digraph),
            handle < self.digraph.nodes(),
            on_cycle(pred_map@, handle as int),
        ensures
            is_least_period(pred_map@, handle as int, cycle@.len() as int),
            forall|j: int|
                0 <= j < cycle@.len() ==> (#[trigger] cycle@[j]) as int == link_edge(
                    pred_map@,
                    step_at(pred_map@, handle as int, j as nat),
                ) && cycle@[j] < self.digraph.edges(),
    {
        collect_cycle_edges(pred_map, handle, self.digraph.num_edges())
    }

    /// Reconstruct the cycle through `handle` of the given successor
    /// map, as the list of recorded edges of its closed walk.
    pub fn cycle_list_succ(&self, handle: usize, succ_map: &Vec<Option<(usize, usize)>>) -> (cycle:
        Vec<usize>)
        requires
            self.wf(),
            links_bounded(succ_map@, self.digraph),
            handle < self.digraph.nodes(),
            on_cycle(succ_map@, handle as int),
        ensures
            is_least_period(succ_map@, handle as int, cycle@.len() as int),
            forall|j: int|
                0 <= j < cycle@.len() ==> (#[trigger] cycle@[j]) as int == link_edge(
                    succ_map@,
                    step_at(succ_map@, handle as int, j as nat),
                ) && cycle@[j] < self.digraph.edges(),
    {
        collect_cycle_edges(succ_map, handle, self.digraph.num_edges())
    }

    /// Walk the cycle through `handle` of the given predecessor map and
    /// test whether some recorded edge violates the Bellman-Ford
    /// inequality: `dist[v] > dist[u] + weight(e)` for the pointer
    /// `pred[v] = (u, e)`, with a representable sum.
    pub fn is_negative_pred(
        &self,
        handle: usize,
        dist: &Vec<Rational>,
        weights: &Vec<Rational>,
        pred_map: &Vec<Option<(usize, usize)>>,
    ) -> (r: bool)
        requires
            self.wf(),
            links_bounded(pred_map@, self.digraph),
            handle < self.digraph.nodes(),
            on_cycle(pred_map@, handle as int),
            dist@.len() == self.digraph.nodes(),
            all_wf(dist@),
            weights@.len() == self.digraph.edges(),
            all_wf(weights@),
        ensures
            forall|l: int|
                #[trigger] is_least_period(pred_map@, handle as int, l) ==> (r <==> exists|j: int|
                    0 <= j < l && #[trigger] viol_at(
                        pred_map@,
                        dist@,
                        weights@,
                        step_at(pred_map@, handle as int, j as nat),
                    )),
    {
        cycle_has_violation(pred_map, handle, dist, weights)
    }

    /// Walk the cycle through `handle` of the given successor map and
    /// test whether some node's distance exceeds its successor's
    /// distance plus the recorded edge's weight, with a representable
    /// sum: `dist[u] > dist[v] + weight(e)` for the pointer
    /// `succ[u] = (v, e)`.
    pub fn is_negative_succ(
        &self,
        handle: usize,
        dist: &Vec<Rational>,
        weights: &Vec<Rational>,
        succ_map: &Vec<Option<(usize, usize)>>,
    ) -> (r: bool)
        requires
            self.wf(),
            links_bounded(succ_map@, self.digraph),
            handle < self.digraph.nodes(),
            on_cycle(succ_map@, handle as int),
            dist@.len() == self.digraph.nodes(),
            all_wf(dist@),
            weights@.len() == self.digraph.edges(),
            all_wf(weights@),
        ensures
            forall|l: int|
                #[trigger] is_least_period(succ_map@, handle as int, l) ==> (r <==> exists|j: int|
                    0 <= j < l && #[trigger] viol_at(
                        succ_map@,
                        dist@,
                        weights@,
                        step_at(succ_map@, handle as int, j as nat),
                    )),
    {
        cycle_has_violation(succ_map, handle, dist, weights)
    }

    /// Howard's main loop in the predecessor direction: clear the
    /// predecessor map (and only it), then alternate relaxation passes
    /// with cycle scans of the predecessor map, reporting that round's
    /// verified cycles as soon as any round finds one.  Every reported
    /// cycle has edge weights summing below zero; an empty report means
    /// the distances reached a relaxation fixpoint.  A scanned cycle
    /// that fails the negativity check (possible only at exactly zero
    /// weight or with unrepresentable violating candidates, by the
    /// exported relaxation invariant) is deliberately left unreported
    /// and relaxation continues.
    pub fn howard_pred(&mut self, dist: &mut Vec<Rational>, weights: &Vec<Rational>) -> (cycles:
        Vec<Vec<usize>>)
        requires
            old(self).wf(),
            old(dist)@.len() == old(self).digraph.nodes(),
            all_wf(old(dist)@),
            weights@.len() == old(self).digraph.edges(),
            all_wf(weights@),
        ensures
            final(self).wf(),
            final(self).digraph == old(self).digraph,
            final(self).succ@ == old(self).succ@,
            final(dist)@.len() == old(dist)@.len(),
            all_wf(final(dist)@),
            forall|i: int|
                0 <= i < old(dist)@.len() ==> rat_le((#[trigger] final(dist)@[i])@, old(dist)@[i]@),
            forall|i: int|
                0 <= i < cycles@.len() ==> negative_cycle_report(
                    old(self).digraph,
                    final(self).pred@,
                    weights@,
                    (#[trigger] cycles@[i])@,
                ),
            cycles@.len() == 0 ==> fixpoint(old(self).digraph, final(dist)@, weights@),
            cycles@.len() == 0 ==> forall|v: int|
                0 <= v < old(self).digraph.nodes() && #[trigger] on_cycle(final(self).pred@, v)
                    ==> has_clean_representative(final(self).pred@, final(dist)@, weights@, v),
            all_achievable(old(self).digraph, old(dist)@, weights@, final(dist)@),
            pred_le(final(self).pred@, final(dist)@, weights@),
    {
        let g = self.digraph;
        let n = g.num_nodes();
        let mut cycles: Vec<Vec<usize>> = Vec::new();
        self.pred = new_links(n);
        let mut found = false;
        proof {
            assert forall|v: int| 0 <= v < n implies !on_cycle(self.pred@, v) by {
                if on_cycle(self.pred@, v) {
                    let k = choose|k: int|
                        1 <= k <= self.pred@.len() && #[trigger] steps_ok(
                            self.pred@,
                            v,
                            k as nat,
                        ) && step_at(self.pred@, v, k as nat) == v;
                    assert(self.pred@[v] is Some);
                    assert(false);
                }
            }
            assert forall|v: int|
                0 <= v < dist@.len() implies achievable(
                g,
                old(dist)@,
                weights@,
                v,
                (#[trigger] dist@[v])@,
            ) by {
                lemma_achievable_refl(g, old(dist)@, weights@, v);
            }
        }
        loop
            invariant_except_break
                !found,
                cycles@.len() == 0,
                forall|v: int|
                    0 <= v < n && #[trigger] on_cycle(self.pred@, v) ==> has_clean_representative(
                        self.pred@,
                        dist@,
                        weights@,
                        v,
                    ),
            invariant
                self.wf(),
                g == self.digraph,
                self.digraph == old(self).digraph,
                self.succ@ == old(self).succ@,
                n == g.nodes(),
                dist@.len() == old(dist)@.len(),
                old(dist)@.len() == n,
                all_wf(dist@),
                all_wf(old(dist)@),
                weights@.len() == g.edges(),
                all_wf(weights@),
                forall|i: int|
                    0 <= i < old(dist)@.len() ==> rat_le((#[trigger] dist@[i])@, old(dist)@[i]@),
                pred_le(self.pred@, dist@, weights@),
                all_achievable(g, old(dist)@, weights@, dist@),
            ensures
                self.wf(),
                self.digraph == old(self).digraph,
                self.succ@ == old(self).succ@,
                dist@.len() == old(dist)@.len(),
                all_wf(dist@),
                forall|i: int|
                    0 <= i < old(dist)@.len() ==> rat_le((#[trigger] dist@[i])@, old(dist)@[i]@),
                forall|i: int|
                    0 <= i < cycles@.len() ==> negative_cycle_report(
                        old(self).digraph,
                        self.pred@,
                        weights@,
                        (#[trigger] cycles@[i])@,
                    ),
                cycles@.len() == 0 ==> fixpoint(old(self).digraph, dist@, weights@),
                cycles@.len() == 0 ==> forall|v: int|
                    0 <= v < n && #[trigger] on_cycle(self.pred@, v) ==> has_clean_representative(
                        self.pred@,
                        dist@,
                        weights@,
                        v,
                    ),
                all_achievable(g, old(dist)@, weights@, dist@),
                pred_le(self.pred@, dist@, weights@),
            decreases dist_measure(dist@),
        {
            let ghost dist_pre = dist@;
            let changed = self.relax_pred(dist, weights);
            proof {
                assert forall|i: int|
                    0 <= i < old(dist)@.len() implies rat_le(
                    (#[trigger] dist@[i])@,
                    old(dist)@[i]@,
                ) by {
                    lemma_rat_le_trans(dist@[i]@, dist_pre[i]@, old(dist)@[i]@);
                }
                lemma_all_achievable_compose(g, old(dist)@, dist_pre, dist@, weights@);
            }
            if !changed {
                break ;
            }
            let starts = self.find_cycle_pred();
            let mut idx: usize = 0;
            while idx < starts.len()
                invariant
                    self.wf(),
                    g == self.digraph,
                    self.digraph == old(self).digraph,
                    n == g.nodes(),
                    dist@.len() == n,
                    all_wf(dist@),
                    weights@.len() == g.edges(),
                    all_wf(weights@),
                    pred_le(self.pred@, dist@, weights@),
                    idx <= starts@.len(),
                    forall|i: int|
                        0 <= i < starts@.len() ==> (#[trigger] starts@[i]) < n && on_cycle(
                            self.pred@,
                            starts@[i] as int,
                        ),
                    forall|v: int|
                        0 <= v < n && #[trigger] on_cycle(self.pred@, v) ==> cycle_represented(
                            self.pred@,
                            v,
                            starts@,
                        ),
                    !found ==> forall|i: int|
                        0 <= i < idx ==> cycle_checked_clean(
                            self.pred@,
                            dist@,
                            weights@,
                            (#[trigger] starts@[i]) as int,
                        ),
                    forall|i: int|
                        0 <= i < cycles@.len() ==> negative_cycle_report(
                            g,
                            self.pred@,
                            weights@,
                            (#[trigger] cycles@[i])@,
                        ),
                    found <==> cycles@.len() > 0,
                decreases starts@.len() - idx,
            {
                let v = starts[idx];
                if self.is_negative_pred(v, dist, weights, &self.pred) {
                    let c = self.cycle_list_pred(v, &self.pred);
                    proof {
                        assert(is_least_period(self.pred@, v as int, c@.len() as int));
                        assert(cycle_matches(self.pred@, c@, v as int));
                        lemma_cycle_negative(self.pred@, dist@, weights@, c@, v as int);
                        assert(negative_cycle_report(g, self.pred@, weights@, c@));
                    }
                    cycles.push(c);
                    found = true;
                }
                idx += 1;
            }
            proof {
                if !found {
                    assert forall|v: int|
                        0 <= v < n && #[trigger] on_cycle(
                        self.pred@,
                        v,
                    ) implies has_clean_representative(self.pred@, dist@, weights@, v) by {
                        assert(cycle_represented(self.pred@, v, starts@));
                        let (i, k) = choose|i: int, k: int|
                            #![trigger starts@[i], step_at(self.pred@, v, k as nat)]
                            0 <= i < starts@.len() && 0 <= k && steps_ok(self.pred@, v, k as nat)
                                && step_at(self.pred@, v, k as nat) == starts@[i] as int;
                        assert(starts@[i] < n && on_cycle(self.pred@, starts@[i] as int));
                        assert(cycle_checked_clean(self.pred@, dist@, weights@, starts@[i] as int));
                    }
                }
            }
            if found {
                break ;
            }
            proof {
                let j = choose|j: int|
                    0 <= j < dist_pre.len() && rat_lt((#[trigger] dist@[j])@, dist_pre[j]@);
                lemma_dist_measure_lt(dist_pre, dist@, 0, j);
                lemma_dist_measure_nonneg(dist@, 0);
            }
        }
        cycles
    }

    /// Howard's main loop in the successor direction: clear the
    /// successor map (and only it), then alternate successor relaxation
    /// passes with cycle scans of the successor map, reporting that
    /// round's verified cycles as soon as any round finds one.  The
    /// successor map maintains no per-edge invariant from which
    /// negativity could be derived, so each scanned cycle's weights are
    /// summed outright and only cycles with a strictly negative,
    /// representable total are reported; one that fails the check (or
    /// whose exact total does not fit) is left out rather than crashing
    /// the search, and the contract describes exactly what is kept.
    /// An empty report means the distances reached a relaxation
    /// fixpoint.
    pub fn howard_succ(&mut self, dist: &mut Vec<Rational>, weights: &Vec<Rational>) -> (cycles:
        Vec<Vec<usize>>)
        requires
            old(self).wf(),
            old(dist)@.len() == old(self).digraph.nodes(),
            all_wf(old(dist)@),
            weights@.len() == old(self).digraph.edges(),
            all_wf(weights@),
        ensures
            final(self).wf(),
            final(self).digraph == old(self).digraph,
            final(self).pred@ == old(self).pred@,
            final(dist)@.len() == old(dist)@.len(),
            all_wf(final(dist)@),
            forall|i: int|
                0 <= i < old(dist)@.len() ==> rat_le((#[trigger] final(dist)@[i])@, old(dist)@[i]@),
            forall|i: int|
                0 <= i < cycles@.len() ==> checked_cycle_report(
                    old(self).digraph,
                    final(self).succ@,
                    final(dist)@,
                    weights@,
                    (#[trigger] cycles@[i])@,
                ),
            cycles@.len() == 0 ==> fixpoint(old(self).digraph, final(dist)@, weights@),
            all_achievable(old(self).digraph, old(dist)@, weights@, final(dist)@),
    {
        let g = self.digraph;
        let n = g.num_nodes();
        let mut cycles: Vec<Vec<usize>> = Vec::new();
        self.succ = new_links(n);
        let mut found = false;
        proof {
            assert forall|v: int|
                0 <= v < dist@.len() implies achievable(
                g,
                old(dist)@,
                weights@,
                v,
                (#[trigger] dist@[v])@,
            ) by {
                lemma_achievable_refl(g, old(dist)@, weights@, v);
            }
        }
        loop
            invariant_except_break
                !found,
                cycles@.len() == 0,
            invariant
                self.wf(),
                g == self.digraph,
                self.digraph == old(self).digraph,
                self.pred@ == old(self).pred@,
                n == g.nodes(),
                dist@.len() == old(dist)@.len(),
                old(dist)@.len() == n,
                all_wf(dist@),
                all_wf(old(dist)@),
                weights@.len() == g.edges(),
                all_wf(weights@),
                forall|i: int|
                    0 <= i < old(dist)@.len() ==> rat_le((#[trigger] dist@[i])@, old(dist)@[i]@),
                all_achievable(g, old(dist)@, weights@, dist@),
            ensures
                self.wf(),
                self.digraph == old(self).digraph,
                self.pred@ == old(self).pred@,
                dist@.len() == old(dist)@.len(),
                all_wf(dist@),
                forall|i: int|
                    0 <= i < old(dist)@.len() ==> rat_le((#[trigger] dist@[i])@, old(dist)@[i]@),
                forall|i: int|
                    0 <= i < cycles@.len() ==> checked_cycle_report(
                        old(self).digraph,
                        self.succ@,
                        dist@,
                        weights@,
                        (#[trigger] cycles@[i])@,
                    ),
                cycles@.len() == 0 ==> fixpoint(old(self).digraph, dist@, weights@),
                all_achievable(g, old(dist)@, weights@, dist@),
            decreases dist_measure(dist@),
        {
            let ghost dist_pre = dist@;
            let changed = self.relax_succ(dist, weights);
            proof {
                assert forall|i: int|
                    0 <= i < old(dist)@.len() implies rat_le(
                    (#[trigger] dist@[i])@,
                    old(dist)@[i]@,
                ) by {
                    lemma_rat_le_trans(dist@[i]@, dist_pre[i]@, old(dist)@[i]@);
                }
                lemma_all_achievable_compose(g, old(dist)@, dist_pre, dist@, weights@);
            }
            if !changed {
                break ;
            }
            let starts = self.find_cycle_succ();
            let mut idx: usize = 0;
            while idx < starts.len()
                invariant
                    self.wf(),
                    g == self.digraph,
                    self.digraph == old(self).digraph,
                    n == g.nodes(),
                    dist@.len() == n,
                    all_wf(dist@),
                    weights@.len() == g.edges(),
                    all_wf(weights@),
                    idx <= starts@.len(),
                    forall|i: int|
                        0 <= i < starts@.len() ==> (#[trigger] starts@[i]) < n && on_cycle(
                            self.succ@,
                            starts@[i] as int,
                        ),
                    forall|i: int|
                        0 <= i < cycles@.len() ==> checked_cycle_report(
                            g,
                            self.succ@,
                            dist@,
                            weights@,
                            (#[trigger] cycles@[i])@,
                        ),
                    found <==> cycles@.len() > 0,
                decreases starts@.len() - idx,
            {
                let v = starts[idx];
                if self.is_negative_succ(v, dist, weights, &self.succ) {
                    let c = self.cycle_list_succ(v, &self.succ);
                    match sum_edges(&c, weights) {
                        Some(total) => {
                            let zero = Rational::zero();
                            if total.lt(&zero) {
                                proof {
                                    assert(is_least_period(self.succ@, v as int, c@.len() as int));
                                    assert(cycle_matches(self.succ@, c@, v as int));
                                    assert(checked_cycle_report(g, self.succ@, dist@, weights@, c@));
                                }
                                cycles.push(c);
                                found = true;
                            }
                        },
                        None => {
                        },
                    }
                }
                idx += 1;
            }
            if found {
                break ;
            }
            proof {
                let j = choose|j: int|
                    0 <= j < dist_pre.len() && rat_lt((#[trigger] dist@[j])@, dist_pre[j]@);
                lemma_dist_measure_lt(dist_pre, dist@, 0, j);
                lemma_dist_measure_nonneg(dist@, 0);
            }
        }
        cycles
    }
}

} // verus!
