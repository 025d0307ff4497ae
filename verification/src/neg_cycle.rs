//! Negative cycle finder: Howard's policy-iteration method.
//!
//! Bellman-Ford relaxation passes are alternated with lazy cycle
//! detection in the predecessor functional graph.  A cycle of the
//! predecessor map that violates the relaxation inequality somewhere is a
//! negative cycle of the graph: the central contract here, proved from
//! the invariant that every predecessor pointer `pred[v] = (u, e)` keeps
//! `dist[v] >= dist[u] + weight(e)`, is that every cycle the finder
//! reports has edge weights summing to a value below zero.

use vstd::prelude::*;

use crate::digraph::DiGraph;
use crate::digraph::Links;
use crate::digraph::count_none;
use crate::digraph::cycle_represented;
use crate::digraph::lemma_on_cycle_iterate;
use crate::digraph::lemma_represented_from;
use crate::digraph::lemma_represented_push;
use crate::digraph::lemma_reach_on_cycle_symmetric;
use crate::digraph::reaches;
use crate::digraph::is_least_period;
use crate::digraph::lemma_count_none_bound;
use crate::digraph::lemma_count_none_nonneg;
use crate::digraph::lemma_count_none_update;
use crate::digraph::lemma_path_steps;
use crate::digraph::lemma_steps_concat;
use crate::digraph::lemma_steps_decompose;
use crate::digraph::new_tags;
use crate::digraph::link_edge;
use crate::digraph::new_links;
use crate::digraph::on_cycle;
use crate::digraph::step_at;
use crate::digraph::steps_ok;
use crate::rational::Rat;
use crate::rational::Rational;
use crate::rational::dist_measure;
use crate::rational::lemma_dist_measure_lt;
use crate::rational::lemma_dist_measure_nonneg;
use crate::rational::lemma_rat_add_assoc;
use crate::rational::lemma_rat_add_comm;
use crate::rational::lemma_rat_add_mono;
use crate::rational::lemma_rat_add_nonneg;
use crate::rational::lemma_rat_add_wf;
use crate::rational::lemma_rat_add_zero;
use crate::rational::lemma_rat_cancel;
use crate::rational::lemma_rat_eqv_trans;
use crate::rational::lemma_rat_add_congr;
use crate::rational::rat_eqv;
use crate::rational::lemma_rat_le_lt_trans;
use crate::rational::lemma_rat_le_trans;
use crate::rational::lemma_rat_lt_le_trans;
use crate::rational::rat_add;
use crate::rational::rat_fits;
use crate::rational::rat_le;
use crate::rational::rat_lt;
use crate::rational::rat_wf;
use crate::rational::rat_zero;

verus! {

/// All entries of a vector of rationals are well formed.
pub open spec fn all_wf(s: Seq<Rational>) -> bool {
    forall|i: int| 0 <= i < s.len() ==> (#[trigger] s[i]).wf()
}

/// Structural soundness of a predecessor map against a graph: one slot
/// per node, and every pointer `pred[v] = (u, e)` names the graph's edge
/// `e` from `u` to `v`.
pub open spec fn pred_links_wf(links: Links, g: &DiGraph) -> bool {
    &&& links.len() == g.nodes()
    &&& forall|v: int|
        0 <= v < links.len() ==> match #[trigger] links[v] {
            Some(p) => p.0 < g.nodes() && p.1 < g.edges() && g.has_edge(p.0 as int, v, p.1 as int),
            None => true,
        }
}

/// The relaxation invariant: every predecessor pointer `pred[v] = (u, e)`
/// keeps `dist[u] + weight(e) <= dist[v]`.  Relaxation establishes each
/// pointer with equality and afterwards only lowers `dist[u]`, so the
/// inequality survives every pass.
pub open spec fn pred_le_at(links: Links, dist: Seq<Rational>, w: Seq<Rational>, v: int) -> bool {
    match links[v] {
        Some(p) => rat_le(rat_add(dist[p.0 as int]@, w[p.1 as int]@), dist[v]@),
        None => true,
    }
}

/// The relaxation invariant over the whole map.
pub open spec fn pred_le(links: Links, dist: Seq<Rational>, w: Seq<Rational>) -> bool {
    forall|v: int| 0 <= v < links.len() ==> #[trigger] pred_le_at(links, dist, w, v)
}

/// Whether the `j`-th outgoing edge of `u` can still lower the distance
/// of its target (with a representable candidate).
pub open spec fn can_improve(g: &DiGraph, dist: Seq<Rational>, w: Seq<Rational>, u: int, j: int) -> bool {
    let p = g.adjacency()[u][j];
    &&& rat_fits(rat_add(dist[u]@, w[p.1 as int]@))
    &&& rat_lt(rat_add(dist[u]@, w[p.1 as int]@), dist[p.0 as int]@)
}

/// A distance vector no relaxation pass can improve any further.
pub open spec fn fixpoint(g: &DiGraph, dist: Seq<Rational>, w: Seq<Rational>) -> bool {
    forall|u: int, j: int|
        0 <= u < g.nodes() && 0 <= j < g.adjacency()[u].len() ==> !can_improve(g, dist, w, u, j)
}

/// The Bellman-Ford inequality is violated at `x`: the pointer recorded
/// there admits a strictly shorter path to `x` than `dist[x]`.
pub open spec fn viol_at(links: Links, dist: Seq<Rational>, w: Seq<Rational>, x: int) -> bool {
    match links[x] {
        Some(p) => rat_fits(rat_add(dist[p.0 as int]@, w[p.1 as int]@)) && rat_lt(
            rat_add(dist[p.0 as int]@, w[p.1 as int]@),
            dist[x]@,
        ),
        None => false,
    }
}

/// Sum of the weights of the edges recorded along a `k`-step walk of the
/// link map starting at `v`.
pub open spec fn walk_sum(links: Links, w: Seq<Rational>, v: int, k: nat) -> Rat
    decreases k,
{
    if k == 0 {
        rat_zero()
    } else {
        match links[v] {
            Some(p) => rat_add(w[p.1 as int]@, walk_sum(links, w, p.0 as int, (k - 1) as nat)),
            None => rat_zero(),
        }
    }
}

/// Sum of the weights of a list of edges, from position `i` on.
pub open spec fn edge_sum_from(c: Seq<usize>, w: Seq<Rational>, i: int) -> Rat
    decreases c.len() - i,
{
    if i < 0 || i >= c.len() {
        rat_zero()
    } else {
        rat_add(w[c[i] as int]@, edge_sum_from(c, w, i + 1))
    }
}

/// Sum of the weights of a list of edges: the total weight of a cycle.
pub open spec fn edge_sum(c: Seq<usize>, w: Seq<Rational>) -> Rat {
    edge_sum_from(c, w, 0)
}

/// `es` lists, most recent edge first, the edges of a walk through the
/// graph from `u` to `v`.
pub open spec fn is_rev_walk(g: &DiGraph, u: int, v: int, es: Seq<usize>) -> bool
    decreases es.len(),
{
    if es.len() == 0 {
        u == v
    } else {
        exists|x: int| #[trigger] g.has_edge(x, v, es[0] as int) && is_rev_walk(g, u, x, es.skip(1))
    }
}

/// `val` is the weight of a real walk of the graph: some start node's
/// initial label plus the weights of a walk from it to `v`.  Relaxation
/// only ever assigns such values, so the distance vector never holds a
/// number the graph cannot explain.
#[verifier::opaque]
pub open spec fn achievable(
    g: &DiGraph,
    init: Seq<Rational>,
    w: Seq<Rational>,
    v: int,
    val: Rat,
) -> bool {
    exists|u: int, es: Seq<usize>|
        0 <= u < init.len() && #[trigger] is_rev_walk(g, u, v, es) && (forall|j: int|
            0 <= j < es.len() ==> (#[trigger] es[j]) < w.len()) && rat_eqv(
            val,
            rat_add(init[u]@, edge_sum(es, w)),
        )
}

/// Every entry of a distance vector is the weight of a real walk from
/// the initial labels.
pub open spec fn all_achievable(
    g: &DiGraph,
    init: Seq<Rational>,
    w: Seq<Rational>,
    dist: Seq<Rational>,
) -> bool {
    forall|v: int| 0 <= v < dist.len() ==> achievable(g, init, w, v, (#[trigger] dist[v])@)
}

/// An edge-list sum read from an offset into a concatenation equals the
/// sum of the second list from the matching offset.
proof fn lemma_edge_sum_shift(es0: Seq<usize>, es1: Seq<usize>, w: Seq<Rational>, j: int)
    requires
        j >= 0,
    ensures
        edge_sum_from(es0 + es1, w, es0.len() + j) == edge_sum_from(es1, w, j),
    decreases es1.len() - j,
{
    if j < es1.len() {
        assert((es0 + es1)[es0.len() + j] == es1[j]);
        lemma_edge_sum_shift(es0, es1, w, j + 1);
    }
}

/// An edge-list sum is a well-formed rational.
proof fn lemma_edge_sum_wf(c: Seq<usize>, w: Seq<Rational>, i: int)
    requires
        all_wf(w),
        forall|j: int| 0 <= j < c.len() ==> (#[trigger] c[j]) < w.len(),
    ensures
        rat_wf(edge_sum_from(c, w, i)),
    decreases c.len() - i,
{
    if 0 <= i < c.len() {
        lemma_edge_sum_wf(c, w, i + 1);
        lemma_rat_add_wf(w[c[i] as int]@, edge_sum_from(c, w, i + 1));
    }
}

/// Prepending an edge to an edge list adds its weight to the sum,
/// exactly.
proof fn lemma_edge_sum_cons(e: usize, es: Seq<usize>, w: Seq<Rational>)
    ensures
        edge_sum(seq![e] + es, w) == rat_add(w[e as int]@, edge_sum(es, w)),
{
    assert((seq![e] + es)[0] == e);
    assert(seq![e].len() == 1);
    lemma_edge_sum_shift(seq![e], es, w, 0);
}

/// The sum of a concatenation of edge lists is the sum of the parts.
proof fn lemma_edge_sum_concat(es0: Seq<usize>, es1: Seq<usize>, w: Seq<Rational>, i: int)
    requires
        0 <= i <= es0.len(),
        all_wf(w),
        forall|j: int| 0 <= j < es0.len() ==> (#[trigger] es0[j]) < w.len(),
        forall|j: int| 0 <= j < es1.len() ==> (#[trigger] es1[j]) < w.len(),
    ensures
        rat_eqv(
            edge_sum_from(es0 + es1, w, i),
            rat_add(edge_sum_from(es0, w, i), edge_sum(es1, w)),
        ),
    decreases es0.len() - i,
{
    lemma_edge_sum_wf(es1, w, 0);
    if i == es0.len() {
        lemma_edge_sum_shift(es0, es1, w, 0);
        lemma_rat_add_zero(edge_sum(es1, w));
    } else {
        lemma_edge_sum_concat(es0, es1, w, i + 1);
        let wi = w[es0[i] as int]@;
        let tail_cat = edge_sum_from(es0 + es1, w, i + 1);
        let tail = edge_sum_from(es0, w, i + 1);
        let s1 = edge_sum(es1, w);
        assert((es0 + es1)[i] == es0[i]);
        assert(forall|j: int|
            0 <= j < (es0 + es1).len() ==> (#[trigger] (es0 + es1)[j]) < w.len());
        lemma_edge_sum_wf(es0 + es1, w, i + 1);
        lemma_edge_sum_wf(es0, w, i + 1);
        lemma_rat_add_wf(tail, s1);
        lemma_rat_add_congr(tail_cat, rat_add(tail, s1), wi);
        lemma_rat_add_assoc(wi, tail, s1);
        lemma_rat_add_wf(wi, tail_cat);
        lemma_rat_add_wf(wi, rat_add(tail, s1));
        lemma_rat_add_wf(wi, tail);
        lemma_rat_add_wf(rat_add(wi, tail), s1);
        lemma_rat_eqv_trans(
            rat_add(wi, tail_cat),
            rat_add(wi, rat_add(tail, s1)),
            rat_add(rat_add(wi, tail), s1),
        );
    }
}

/// Two walks that meet end to end concatenate to one walk.
proof fn lemma_is_rev_walk_concat(
    g: &DiGraph,
    u0: int,
    u: int,
    v: int,
    es1: Seq<usize>,
    es0: Seq<usize>,
)
    requires
        is_rev_walk(g, u0, u, es0),
        is_rev_walk(g, u, v, es1),
    ensures
        is_rev_walk(g, u0, v, es1 + es0),
    decreases es1.len(),
{
    if es1.len() == 0 {
        assert(es1 + es0 =~= es0);
    } else {
        let x = choose|x: int|
            #[trigger] g.has_edge(x, v, es1[0] as int) && is_rev_walk(g, u, x, es1.skip(1));
        lemma_is_rev_walk_concat(g, u0, u, x, es1.skip(1), es0);
        assert((es1 + es0).skip(1) =~= es1.skip(1) + es0);
        assert((es1 + es0)[0] == es1[0]);
        assert(g.has_edge(x, v, (es1 + es0)[0] as int));
    }
}

/// An edge-list sum from offset one is the sum of the list without its
/// first element.
proof fn lemma_edge_sum_skip(es: Seq<usize>, w: Seq<Rational>, j: int)
    requires
        j >= 0,
        es.len() >= 1,
    ensures
        edge_sum_from(es, w, 1 + j) == edge_sum_from(es.skip(1), w, j),
    decreases es.len() - j,
{
    if j < es.len() - 1 {
        assert(es.skip(1)[j] == es[1 + j]);
        lemma_edge_sum_skip(es, w, j + 1);
    }
}

/// A walk of the graph all of whose relaxation candidates are
/// representable against the given distances.
pub open spec fn rev_walk_fits(
    g: &DiGraph,
    dist: Seq<Rational>,
    w: Seq<Rational>,
    u: int,
    v: int,
    es: Seq<usize>,
) -> bool
    decreases es.len(),
{
    if es.len() == 0 {
        u == v
    } else {
        exists|x: int|
            0 <= x < dist.len() && #[trigger] g.has_edge(x, v, es[0] as int) && rev_walk_fits(
                g,
                dist,
                w,
                u,
                x,
                es.skip(1),
            ) && rat_fits(rat_add(dist[x]@, w[es[0] as int]@))
    }
}

/// At a relaxation fixpoint the distance vector is optimal over walks:
/// no walk whose relaxation candidates stay representable offers a
/// shorter route to its endpoint than the endpoint's distance.  With
/// every distance also achievable by some walk, the fixpoint is exactly
/// the walk-weight minimum.
pub proof fn lemma_fixpoint_walk_bound(
    g: &DiGraph,
    dist: Seq<Rational>,
    w: Seq<Rational>,
    u: int,
    v: int,
    es: Seq<usize>,
)
    requires
        g.wf(),
        fixpoint(g, dist, w),
        dist.len() == g.nodes(),
        w.len() == g.edges(),
        all_wf(dist),
        all_wf(w),
        0 <= u < dist.len(),
        forall|j: int| 0 <= j < es.len() ==> (#[trigger] es[j]) < w.len(),
        rev_walk_fits(g, dist, w, u, v, es),
    ensures
        0 <= v < dist.len(),
        rat_le(dist[v]@, rat_add(dist[u]@, edge_sum(es, w))),
    decreases es.len(),
{
    if es.len() == 0 {
        lemma_rat_add_zero(dist[u]@);
    } else {
        let e = es[0];
        let x = choose|x: int|
            0 <= x < dist.len() && #[trigger] g.has_edge(x, v, e as int) && rev_walk_fits(
                g,
                dist,
                w,
                u,
                x,
                es.skip(1),
            ) && rat_fits(rat_add(dist[x]@, w[e as int]@));
        assert(forall|j: int| 0 <= j < es.skip(1).len() ==> (#[trigger] es.skip(1)[j]) < w.len());
        lemma_fixpoint_walk_bound(g, dist, w, u, x, es.skip(1));
        let jj = choose|jj: int|
            0 <= jj < g.adjacency()[x].len() && (#[trigger] g.adjacency()[x][jj]).0 == v as usize
                && g.adjacency()[x][jj].1 == e;
        assert(!can_improve(g, dist, w, x, jj));
        assert(0 <= v < dist.len());
        let we = w[e as int]@;
        let s_tail = edge_sum(es.skip(1), w);
        lemma_edge_sum_skip(es, w, 0);
        assert(edge_sum(es, w) == rat_add(we, s_tail));
        lemma_edge_sum_wf(es.skip(1), w, 0);
        lemma_rat_add_wf(dist[x]@, we);
        lemma_rat_add_wf(dist[u]@, s_tail);
        // dist[v] <= dist[x] + w[e] (fixpoint, the candidate fits)
        assert(rat_le(dist[v]@, rat_add(dist[x]@, we)));
        // dist[x] + w[e] <= (dist[u] + tail) + w[e] (induction + growth)
        lemma_rat_add_mono(dist[x]@, rat_add(dist[u]@, s_tail), we);
        // reassociate to dist[u] + (w[e] + tail) = dist[u] + edge_sum(es)
        lemma_rat_add_assoc(dist[u]@, s_tail, we);
        lemma_rat_add_comm(s_tail, we);
        assert(rat_add(rat_add(dist[u]@, s_tail), we) == rat_add(dist[u]@, edge_sum(es, w)));
        lemma_rat_add_wf(rat_add(dist[u]@, s_tail), we);
        lemma_rat_le_trans(
            dist[v]@,
            rat_add(dist[x]@, we),
            rat_add(rat_add(dist[u]@, s_tail), we),
        );
    }
}

/// A node's own initial label is achievable: the empty walk.
pub(crate) proof fn lemma_achievable_refl(g: &DiGraph, init: Seq<Rational>, w: Seq<Rational>, v: int)
    requires
        0 <= v < init.len(),
    ensures
        achievable(g, init, w, v, init[v]@),
{
    reveal(achievable);
    let es = Seq::<usize>::empty();
    assert(is_rev_walk(g, v, v, es));
    lemma_rat_add_zero(init[v]@);
    assert(rat_eqv(init[v]@, rat_add(init[v]@, edge_sum(es, w))));
}

/// Extending an achievable value along a graph edge keeps it
/// achievable.
pub(crate) proof fn lemma_achievable_step(
    g: &DiGraph,
    init: Seq<Rational>,
    w: Seq<Rational>,
    u: usize,
    v: int,
    e: usize,
    du: Rat,
    cand: Rat,
)
    requires
        achievable(g, init, w, u as int, du),
        g.has_edge(u as int, v, e as int),
        e < w.len(),
        all_wf(w),
        all_wf(init),
        rat_wf(du),
        cand == rat_add(du, w[e as int]@),
    ensures
        achievable(g, init, w, v, cand),
{
    reveal(achievable);
    let (u0, es) = choose|u0: int, es: Seq<usize>|
        0 <= u0 < init.len() && #[trigger] is_rev_walk(g, u0, u as int, es) && (forall|j: int|
            0 <= j < es.len() ==> (#[trigger] es[j]) < w.len()) && rat_eqv(
            du,
            rat_add(init[u0]@, edge_sum(es, w)),
        );
    let es2 = seq![e] + es;
    assert(es2[0] == e);
    assert(es2.skip(1) =~= es);
    assert(is_rev_walk(g, u0, v, es2));
    lemma_edge_sum_cons(e, es, w);
    let we = w[e as int]@;
    let s = edge_sum(es, w);
    lemma_edge_sum_wf(es, w, 0);
    lemma_rat_add_wf(init[u0]@, s);
    lemma_rat_add_congr(du, rat_add(init[u0]@, s), we);
    lemma_rat_add_assoc(init[u0]@, s, we);
    lemma_rat_add_comm(s, we);
    assert(rat_add(rat_add(init[u0]@, s), we) == rat_add(init[u0]@, rat_add(s, we)));
    assert(rat_add(init[u0]@, rat_add(s, we)) == rat_add(init[u0]@, rat_add(we, s)));
    assert(rat_add(init[u0]@, edge_sum(es2, w)) == rat_add(init[u0]@, rat_add(we, s)));
    assert(rat_eqv(cand, rat_add(init[u0]@, edge_sum(es2, w))));
    assert(forall|j: int| 0 <= j < es2.len() ==> (#[trigger] es2[j]) < w.len());
}

/// One distance update keeps the whole vector achievable.
pub(crate) proof fn lemma_all_achievable_update(
    g: &DiGraph,
    init: Seq<Rational>,
    w: Seq<Rational>,
    d1: Seq<Rational>,
    d2: Seq<Rational>,
    v: int,
    cand: Rational,
)
    requires
        all_achievable(g, init, w, d1),
        achievable(g, init, w, v, cand@),
        0 <= v < d1.len(),
        d2 == d1.update(v, cand),
    ensures
        all_achievable(g, init, w, d2),
{
    assert forall|x: int| 0 <= x < d2.len() implies achievable(g, init, w, x, (#[trigger] d2[x])@) by {
        if x != v {
            assert(d2[x] == d1[x]);
        }
    }
}

/// Achievability composes across relaxation rounds: a value explained
/// by a walk from intermediate labels that are themselves explained by
/// walks from the initial labels is explained by a walk from the
/// initial labels.
proof fn lemma_achievable_compose(
    g: &DiGraph,
    d1: Seq<Rational>,
    d2: Seq<Rational>,
    w: Seq<Rational>,
    v: int,
    val: Rat,
)
    requires
        achievable(g, d2, w, v, val),
        all_achievable(g, d1, w, d2),
        all_wf(w),
        all_wf(d1),
        all_wf(d2),
        rat_wf(val),
    ensures
        achievable(g, d1, w, v, val),
{
    reveal(achievable);
    let (u, es1) = choose|u: int, es1: Seq<usize>|
        0 <= u < d2.len() && #[trigger] is_rev_walk(g, u, v, es1) && (forall|j: int|
            0 <= j < es1.len() ==> (#[trigger] es1[j]) < w.len()) && rat_eqv(
            val,
            rat_add(d2[u]@, edge_sum(es1, w)),
        );
    assert(achievable(g, d1, w, u, d2[u]@));
    let (u0, es0) = choose|u0: int, es0: Seq<usize>|
        0 <= u0 < d1.len() && #[trigger] is_rev_walk(g, u0, u, es0) && (forall|j: int|
            0 <= j < es0.len() ==> (#[trigger] es0[j]) < w.len()) && rat_eqv(
            d2[u]@,
            rat_add(d1[u0]@, edge_sum(es0, w)),
        );
    let cat = es1 + es0;
    lemma_is_rev_walk_concat(g, u0, u, v, es1, es0);
    lemma_edge_sum_concat(es1, es0, w, 0);
    let s1 = edge_sum(es1, w);
    let s0 = edge_sum(es0, w);
    lemma_edge_sum_wf(es1, w, 0);
    lemma_edge_sum_wf(es0, w, 0);
    lemma_edge_sum_wf(cat, w, 0);
    // val ~ d2[u] + s1 ~ (d1[u0] + s0) + s1 == d1[u0] + (s0 + s1) and
    // sum(cat) ~ s1 + s0 == s0 + s1, so val ~ d1[u0] + sum(cat).
    lemma_rat_add_wf(d2[u]@, s1);
    lemma_rat_add_wf(d1[u0]@, s0);
    lemma_rat_add_congr(d2[u]@, rat_add(d1[u0]@, s0), s1);
    lemma_rat_add_wf(rat_add(d1[u0]@, s0), s1);
    lemma_rat_eqv_trans(val, rat_add(d2[u]@, s1), rat_add(rat_add(d1[u0]@, s0), s1));
    lemma_rat_add_assoc(d1[u0]@, s0, s1);
    lemma_rat_add_comm(s0, s1);
    lemma_rat_add_wf(s1, s0);
    lemma_rat_add_wf(s0, s1);
    lemma_rat_add_wf(d1[u0]@, rat_add(s0, s1));
    assert(rat_eqv(val, rat_add(d1[u0]@, rat_add(s1, s0))));
    lemma_rat_add_congr(edge_sum(cat, w), rat_add(s1, s0), d1[u0]@);
    lemma_rat_add_wf(d1[u0]@, edge_sum(cat, w));
    lemma_rat_add_wf(d1[u0]@, rat_add(s1, s0));
    assert(rat_eqv(rat_add(d1[u0]@, edge_sum(cat, w)), rat_add(d1[u0]@, rat_add(s1, s0))));
    lemma_rat_eqv_trans(
        val,
        rat_add(d1[u0]@, rat_add(s1, s0)),
        rat_add(d1[u0]@, edge_sum(cat, w)),
    );
    assert(forall|j: int| 0 <= j < cat.len() ==> (#[trigger] cat[j]) < w.len());
}

/// A whole distance vector achievable over intermediate labels that are
/// achievable over the initial labels is achievable over the initial
/// labels.
pub(crate) proof fn lemma_all_achievable_compose(
    g: &DiGraph,
    d1: Seq<Rational>,
    d2: Seq<Rational>,
    d3: Seq<Rational>,
    w: Seq<Rational>,
)
    requires
        all_achievable(g, d1, w, d2),
        all_achievable(g, d2, w, d3),
        all_wf(w),
        all_wf(d1),
        all_wf(d2),
        all_wf(d3),
    ensures
        all_achievable(g, d1, w, d3),
{
    assert forall|v: int| 0 <= v < d3.len() implies achievable(g, d1, w, v, (#[trigger] d3[v])@) by {
        lemma_achievable_compose(g, d1, d2, w, v, d3[v]@);
    }
}

/// What one relaxation pass did to a lowered entry: its distance ended
/// strictly below its start, and its recorded pointer names a real edge
/// into it whose relaxation inequality holds of the final distances.
pub open spec fn updated_entry(
    g: &DiGraph,
    links: Links,
    dist: Seq<Rational>,
    dist0: Seq<Rational>,
    w: Seq<Rational>,
    v: int,
) -> bool {
    &&& rat_lt(dist[v]@, dist0[v]@)
    &&& match links[v] {
        Some(p) => g.has_edge(p.0 as int, v, p.1 as int) && rat_le(
            rat_add(dist[p.0 as int]@, w[p.1 as int]@),
            dist[v]@,
        ),
        None => false,
    }
}

/// One relaxation update keeps every lowered entry's record: the new
/// entry is recorded against a source snapshot at least the source's
/// final distance, and older records survive because distances only go
/// down.
proof fn lemma_updated_entries_step(
    g: &DiGraph,
    links1: Links,
    links2: Links,
    d0: Seq<Rational>,
    d1: Seq<Rational>,
    d2: Seq<Rational>,
    w: Seq<Rational>,
    v: int,
    u: usize,
    e: usize,
    du: Rational,
    cand: Rational,
)
    requires
        g.wf(),
        d1.len() == links1.len(),
        d0.len() == d1.len(),
        d1.len() == g.nodes(),
        w.len() == g.edges(),
        all_wf(d0),
        all_wf(d1),
        all_wf(w),
        forall|x: int|
            0 <= x < d1.len() && d1[x] != d0[x] ==> #[trigger] updated_entry(
                g,
                links1,
                d1,
                d0,
                w,
                x,
            ),
        forall|x: int| 0 <= x < d1.len() ==> rat_le((#[trigger] d1[x])@, d0[x]@),
        0 <= v < d1.len(),
        u < d1.len(),
        e < w.len(),
        du.wf(),
        cand.wf(),
        rat_le(d1[u as int]@, du@),
        cand@ == rat_add(du@, w[e as int]@),
        rat_lt(cand@, d1[v]@),
        g.has_edge(u as int, v, e as int),
        d2 == d1.update(v, cand),
        links2 == links1.update(v, Some((u, e))),
    ensures
        forall|x: int|
            0 <= x < d2.len() && d2[x] != d0[x] ==> #[trigger] updated_entry(
                g,
                links2,
                d2,
                d0,
                w,
                x,
            ),
{
    assert forall|x: int|
        0 <= x < d2.len() && d2[x] != d0[x] implies #[trigger] updated_entry(
        g,
        links2,
        d2,
        d0,
        w,
        x,
    ) by {
        if x == v {
            lemma_rat_lt_le_trans(cand@, d1[v]@, d0[v]@);
            if u as int == v {
                lemma_rat_lt_le_trans(cand@, d1[u as int]@, du@);
            } else {
                lemma_rat_le_trans(d2[u as int]@, d1[u as int]@, du@);
            }
            lemma_rat_add_mono(d2[u as int]@, du@, w[e as int]@);
        } else {
            assert(d2[x] == d1[x]);
            assert(updated_entry(g, links1, d1, d0, w, x));
            match links1[x] {
                Some(p) => {
                    let a = p.0 as int;
                    let b = p.1 as int;
                    assert(0 <= a < d1.len());
                    assert(0 <= b < w.len());
                    lemma_rat_add_wf(d2[a]@, w[b]@);
                    lemma_rat_add_wf(d1[a]@, w[b]@);
                    lemma_rat_add_mono(d2[a]@, d1[a]@, w[b]@);
                    lemma_rat_le_trans(rat_add(d2[a]@, w[b]@), rat_add(d1[a]@, w[b]@), d1[x]@);
                },
                None => {},
            }
        }
    }
}

/// Negative cycle finder by Howard's method over a borrowed graph.
/// `pred` is the predecessor functional graph: at most one recorded
/// incoming edge per node, rebuilt by the relaxation passes.
pub struct NegCycleFinder<'a> {
    /// The directed graph under analysis.
    pub digraph: &'a DiGraph,
    /// For each node `v`, the recorded predecessor `(u, e)`: the edge
    /// `e` from `u` to `v` that last lowered `dist[v]`.
    pub pred: Vec<Option<(usize, usize)>>,
}

impl<'a> NegCycleFinder<'a> {
    /// The finder is sound: its graph is well formed and every recorded
    /// pointer names a real edge of it.
    pub open spec fn wf(&self) -> bool {
        &&& self.digraph.wf()
        &&& pred_links_wf(self.pred@, self.digraph)
    }

    /// Start a finder over a graph, with no predecessor recorded yet.
    pub fn new(digraph: &'a DiGraph) -> (r: Self)
        requires
            digraph.wf(),
        ensures
            r.wf(),
            r.digraph == digraph,
            r.pred@.len() == digraph.nodes(),
            forall|v: int| 0 <= v < r.pred@.len() ==> (#[trigger] r.pred@[v]) is None,
    {
        let n = digraph.num_nodes();
        NegCycleFinder { digraph, pred: new_links(n) }
    }

    /// One Bellman-Ford relaxation pass: for every edge `(u, v, e)`, if
    /// `dist[u] + weight(e)` is representable and below `dist[v]`, lower
    /// `dist[v]` to it and record `pred[v] = (u, e)`.  Distances only
    /// ever decrease; the pass reports whether anything changed, and a
    /// pass that changes nothing leaves a fixpoint.
    pub fn relax(&mut self, dist: &mut Vec<Rational>, weights: &Vec<Rational>) -> (changed: bool)
        requires
            old(self).wf(),
            old(dist)@.len() == old(self).digraph.nodes(),
            all_wf(old(dist)@),
            weights@.len() == old(self).digraph.edges(),
            all_wf(weights@),
        ensures
            final(self).wf(),
            final(self).digraph == old(self).digraph,
            final(dist)@.len() == old(dist)@.len(),
            all_wf(final(dist)@),
            forall|i: int|
                0 <= i < old(dist)@.len() ==> rat_le((#[trigger] final(dist)@[i])@, old(dist)@[i]@),
            changed ==> exists|i: int|
                0 <= i < old(dist)@.len() && rat_lt((#[trigger] final(dist)@[i])@, old(dist)@[i]@),
            !changed ==> final(dist)@ == old(dist)@ && final(self).pred@ == old(self).pred@,
            !changed ==> fixpoint(old(self).digraph, final(dist)@, weights@),
            pred_le(old(self).pred@, old(dist)@, weights@) ==> pred_le(
                final(self).pred@,
                final(dist)@,
                weights@,
            ),
            all_achievable(old(self).digraph, old(dist)@, weights@, final(dist)@),
            forall|v: int|
                0 <= v < old(dist)@.len() && (#[trigger] final(dist)@[v]) != old(dist)@[v]
                    ==> updated_entry(
                    old(self).digraph,
                    final(self).pred@,
                    final(dist)@,
                    old(dist)@,
                    weights@,
                    v,
                ),
            forall|v: int|
                0 <= v < old(dist)@.len() && (#[trigger] final(self).pred@[v]) != old(self).pred@[v]
                    ==> rat_lt(final(dist)@[v]@, old(dist)@[v]@),
    {
        relax_links(self.digraph, &mut self.pred, dist, weights)
    }
}

/// One Bellman-Ford relaxation pass over a predecessor map: for every
/// edge `(u, v, e)`, if `dist[u] + weight(e)` is representable and below
/// `dist[v]`, lower `dist[v]` to it and record `links[v] = (u, e)`.
/// Distances only ever decrease; the pass reports whether anything
/// changed, and a pass that changes nothing leaves a fixpoint.
#[verifier::rlimit(60)]
pub(crate) fn relax_links(
g: &DiGraph,
links: &mut Vec<Option<(usize, usize)>>,
dist: &mut Vec<Rational>,
weights: &Vec<Rational>,
) -> (changed: bool)
    requires
        g.wf(),
    pred_links_wf(old(links)@, g),
        old(dist)@.len() == g.nodes(),
        all_wf(old(dist)@),
        weights@.len() == g.edges(),
        all_wf(weights@),
    ensures
        pred_links_wf(final(links)@, g),
        final(dist)@.len() == old(dist)@.len(),
        all_wf(final(dist)@),
        forall|i: int|
            0 <= i < old(dist)@.len() ==> rat_le((#[trigger] final(dist)@[i])@, old(dist)@[i]@),
        changed ==> exists|i: int|
            0 <= i < old(dist)@.len() && rat_lt((#[trigger] final(dist)@[i])@, old(dist)@[i]@),
        !changed ==> final(dist)@ == old(dist)@ && final(links)@ == old(links)@,
        !changed ==> fixpoint(g, final(dist)@, weights@),
        pred_le(old(links)@, old(dist)@, weights@) ==> pred_le(
            final(links)@,
            final(dist)@,
            weights@,
        ),
        all_achievable(g, old(dist)@, weights@, final(dist)@),
        forall|v: int|
            0 <= v < old(dist)@.len() && (#[trigger] final(dist)@[v]) != old(dist)@[v]
                ==> updated_entry(g, final(links)@, final(dist)@, old(dist)@, weights@, v),
        forall|v: int|
            0 <= v < old(dist)@.len() && (#[trigger] final(links)@[v]) != old(links)@[v]
                ==> rat_lt(final(dist)@[v]@, old(dist)@[v]@),
{
    let n = g.num_nodes();
    proof {
        assert forall|v: int|
            0 <= v < dist@.len() implies achievable(g, old(dist)@, weights@, v, (#[trigger] dist@[v])@) by {
            lemma_achievable_refl(g, old(dist)@, weights@, v);
        }
    }
    let mut changed = false;
    let mut u: usize = 0;
    while u < n
        invariant
            g.wf(),
            pred_links_wf(links@, g),
            n == g.nodes(),
            u <= n,
            dist@.len() == old(dist)@.len(),
            old(dist)@.len() == g.nodes(),
            all_wf(dist@),
            all_wf(old(dist)@),
            all_wf(weights@),
            weights@.len() == g.edges(),
            forall|i: int|
                0 <= i < old(dist)@.len() ==> rat_le(
                    (#[trigger] dist@[i])@,
                    old(dist)@[i]@,
                ),
            changed ==> exists|i: int|
                0 <= i < old(dist)@.len() && rat_lt((#[trigger] dist@[i])@, old(dist)@[i]@),
            !changed ==> dist@ == old(dist)@ && links@ == old(links)@,
            !changed ==> forall|uu: int, j: int|
                0 <= uu < u && 0 <= j < g.adjacency()[uu].len() ==> !can_improve(
                    g,
                    dist@,
                    weights@,
                    uu,
                    j,
                ),
            pred_le(old(links)@, old(dist)@, weights@) ==> pred_le(
                links@,
                dist@,
                weights@,
            ),
            all_achievable(g, old(dist)@, weights@, dist@),
            forall|v: int|
                0 <= v < old(dist)@.len() && (#[trigger] dist@[v]) != old(dist)@[v]
                    ==> updated_entry(g, links@, dist@, old(dist)@, weights@, v),
            forall|v: int|
                0 <= v < old(dist)@.len() && (#[trigger] links@[v]) != old(links)@[v] ==> rat_lt(
                    dist@[v]@,
                    old(dist)@[v]@,
                ),
        decreases n - u,
    {
        let deg = g.out_degree(u);
        let du = dist[u];
        proof {
            assert(achievable(g, old(dist)@, weights@, u as int, du@));
        }
        let mut j: usize = 0;
        while j < deg
            invariant
                g.wf(),
                pred_links_wf(links@, g),
                n == g.nodes(),
                u < n,
                deg == g.adjacency()[u as int].len(),
                j <= deg,
                dist@.len() == old(dist)@.len(),
                old(dist)@.len() == g.nodes(),
                all_wf(dist@),
                all_wf(old(dist)@),
                all_wf(weights@),
                weights@.len() == g.edges(),
                du.wf(),
                rat_le(dist@[u as int]@, du@),
                forall|i: int|
                    0 <= i < old(dist)@.len() ==> rat_le(
                        (#[trigger] dist@[i])@,
                        old(dist)@[i]@,
                    ),
                changed ==> exists|i: int|
                    0 <= i < old(dist)@.len() && rat_lt(
                        (#[trigger] dist@[i])@,
                        old(dist)@[i]@,
                    ),
                !changed ==> dist@ == old(dist)@ && links@ == old(links)@,
                !changed ==> du == dist@[u as int],
                !changed ==> forall|uu: int, jj: int|
                    0 <= uu < u && 0 <= jj < g.adjacency()[uu].len() ==> !can_improve(
                        g,
                        dist@,
                        weights@,
                        uu,
                        jj,
                    ),
                !changed ==> forall|jj: int|
                    0 <= jj < j ==> !can_improve(g, dist@, weights@, u as int, jj),
                pred_le(old(links)@, old(dist)@, weights@) ==> pred_le(
                    links@,
                    dist@,
                    weights@,
                ),
                all_achievable(g, old(dist)@, weights@, dist@),
                achievable(g, old(dist)@, weights@, u as int, du@),
                forall|v: int|
                    0 <= v < old(dist)@.len() && (#[trigger] dist@[v]) != old(dist)@[v]
                        ==> updated_entry(g, links@, dist@, old(dist)@, weights@, v),
                forall|v: int|
                    0 <= v < old(dist)@.len() && (#[trigger] links@[v]) != old(links)@[v]
                        ==> rat_lt(dist@[v]@, old(dist)@[v]@),
            decreases deg - j,
        {
            let (v, e) = g.out_edge(u, j);
            let w = weights[e];
            match du.try_add(&w) {
                Some(cand) => {
                    let dv = dist[v];
                    if cand.lt(&dv) {
                        proof {
                            let d1 = dist@;
                            let links1 = links@;
                            if pred_le(old(links)@, old(dist)@, weights@) {
                                lemma_pred_le_step(
                                    links1,
                                    links1.update(v as int, Some((u, e))),
                                    d1,
                                    d1.update(v as int, cand),
                                    weights@,
                                    v as int,
                                    u,
                                    e,
                                    du,
                                    cand,
                                );
                            }
                            assert forall|i: int|
                                0 <= i < d1.len() implies rat_le(
                                (#[trigger] d1.update(v as int, cand)[i])@,
                                d1[i]@,
                            ) by {
                                if i != v {
                                }
                            }
                            assert forall|i: int|
                                0 <= i < old(dist)@.len() implies rat_le(
                                (#[trigger] d1.update(v as int, cand)[i])@,
                                old(dist)@[i]@,
                            ) by {
                                lemma_rat_le_trans(
                                    d1.update(v as int, cand)[i]@,
                                    d1[i]@,
                                    old(dist)@[i]@,
                                );
                            }
                            lemma_rat_lt_le_trans(cand@, d1[v as int]@, old(dist)@[v as int]@);
                            if v == u {
                                lemma_rat_lt_le_trans(cand@, d1[u as int]@, du@);
                            }
                            assert(g.adjacency()[u as int][j as int] == (v, e));
                            assert(g.has_edge(u as int, v as int, e as int));
                            lemma_updated_entries_step(
                                g,
                                links@,
                                links@.update(v as int, Some((u, e))),
                                old(dist)@,
                                d1,
                                d1.update(v as int, cand),
                                weights@,
                                v as int,
                                u,
                                e,
                                du,
                                cand,
                            );
                            assert forall|x: int|
                                0 <= x < old(dist)@.len() && (#[trigger] links@.update(
                                    v as int,
                                    Some((u, e)),
                                )[x]) != old(links)@[x] implies rat_lt(
                                d1.update(v as int, cand)[x]@,
                                old(dist)@[x]@,
                            ) by {
                                if x != v {
                                    assert(links@[x] != old(links)@[x]);
                                }
                            }
                            lemma_achievable_step(
                                g,
                                old(dist)@,
                                weights@,
                                u,
                                v as int,
                                e,
                                du@,
                                cand@,
                            );
                            lemma_all_achievable_update(
                                g,
                                old(dist)@,
                                weights@,
                                d1,
                                d1.update(v as int, cand),
                                v as int,
                                cand,
                            );
                        }
                        dist.set(v, cand);
                        links.set(v, Some((u, e)));
                        changed = true;
                        proof {
                            assert(rat_lt((dist@[v as int])@, old(dist)@[v as int]@));
                            assert forall|x: int| 0 <= x < links@.len() implies match #[trigger] links@[x] {
                                Some(p) => p.0 < g.nodes() && p.1 < g.edges() && g.has_edge(
                                    p.0 as int,
                                    x,
                                    p.1 as int,
                                ),
                                None => true,
                            } by {
                                if x != v {
                                }
                            }
                        }
                    }
                },
                None => {
                },
            }
            j += 1;
        }
        u += 1;
    }
    changed
}


/// Every tagged node's owner is itself tagged as its own owner: owner
/// tags name walk start nodes.
pub open spec fn owners_ok(visited: Seq<Option<usize>>, n: int) -> bool {
    forall|x: int|
        0 <= x < n ==> match #[trigger] visited[x] {
            Some(o) => o < n && visited[o as int] == Some(o),
            None => true,
        }
}

/// A node carries the current walk's tag exactly when the walk's path
/// has passed through it.
pub open spec fn tag_iff_path(
    visited: Seq<Option<usize>>,
    n: int,
    vtx: usize,
    path: Seq<int>,
) -> bool {
    forall|x: int| 0 <= x < n ==> ((#[trigger] visited[x]) == Some(vtx) <==> path.contains(x))
}

/// The walk's path: in range, starts at the walk's start node, and each
/// node points to the next.
pub open spec fn path_ok(links: Links, path: Seq<int>, n: int, vtx: usize) -> bool {
    &&& path.len() >= 1
    &&& path[0] == vtx as int
    &&& forall|i: int| 0 <= i < path.len() ==> 0 <= #[trigger] path[i] < n
    &&& forall|i: int|
        0 <= i < path.len() - 1 ==> match links[#[trigger] path[i]] {
            Some(p) => p.0 as int == path[i + 1],
            None => false,
        }
}

/// Extending a walk by one pointer step, onto an untagged node that then
/// gets tagged, keeps the walk's bookkeeping intact.
proof fn lemma_walk_tag_step(
    links: Links,
    n: int,
    visited0: Seq<Option<usize>>,
    visited1: Seq<Option<usize>>,
    path0: Seq<int>,
    path1: Seq<int>,
    vtx: usize,
    utx_old: int,
    utx: usize,
    pair: (usize, usize),
)
    requires
        n == links.len(),
        visited0.len() == n,
        0 <= utx_old < n,
        utx < n,
        vtx < n,
        path_ok(links, path0, n, vtx),
        path0[path0.len() - 1] == utx_old,
        tag_iff_path(visited0, n, vtx, path0),
        owners_ok(visited0, n),
        links[utx_old] == Some(pair),
        pair.0 == utx,
        visited0[utx as int] is None,
        visited1 == visited0.update(utx as int, Some(vtx)),
        path1 == path0.push(utx as int),
    ensures
        path_ok(links, path1, n, vtx),
        path1[path1.len() - 1] == utx as int,
        tag_iff_path(visited1, n, vtx, path1),
        owners_ok(visited1, n),
{
    assert(utx as int != vtx as int);
    assert forall|i: int|
        0 <= i < path1.len() - 1 implies match links[#[trigger] path1[i]] {
        Some(p) => p.0 as int == path1[i + 1],
        None => false,
    } by {
        if i < path0.len() - 1 {
            assert(path1[i] == path0[i]);
            assert(path1[i + 1] == path0[i + 1]);
        } else {
            assert(path1[i] == utx_old);
        }
    }
    assert forall|x: int|
        0 <= x < n implies ((#[trigger] visited1[x]) == Some(vtx) <==> path1.contains(x)) by {
        if x == utx as int {
            assert(path1[path1.len() - 1] == x);
        } else {
            if visited1[x] == Some(vtx) {
                assert(visited0[x] == Some(vtx));
                assert(path0.contains(x));
                let ii = choose|ii: int| 0 <= ii < path0.len() && path0[ii] == x;
                assert(path1[ii] == x);
            }
            if path1.contains(x) {
                let ii = choose|ii: int| 0 <= ii < path1.len() && path1[ii] == x;
                assert(ii < path0.len());
                assert(path0[ii] == x);
                assert(visited0[x] == Some(vtx));
            }
        }
    }
    assert forall|x: int|
        0 <= x < n implies match #[trigger] visited1[x] {
        Some(o) => o < n && visited1[o as int] == Some(o),
        None => true,
    } by {
        if x == utx as int {
            assert(path0[0] == vtx as int);
            assert(path0.contains(vtx as int));
            assert(visited0[vtx as int] == Some(vtx));
        } else {
            match visited0[x] {
                Some(o) => {
                    assert(o != utx);
                },
                None => {},
            }
        }
    }
}

/// A walk that steps onto a node it has already passed through has
/// closed a cycle through that node.
proof fn lemma_walk_cycle_found(
    links: Links,
    n: int,
    path: Seq<int>,
    vtx: usize,
    utx_old: int,
    utx: usize,
    pair: (usize, usize),
)
    requires
        n == links.len(),
        0 <= utx_old < n,
        utx < n,
        vtx < n,
        path_ok(links, path, n, vtx),
        path[path.len() - 1] == utx_old,
        path.len() <= n,
        links[utx_old] == Some(pair),
        pair.0 == utx,
        path.contains(utx as int),
    ensures
        on_cycle(links, utx as int),
{
    reveal_with_fuel(steps_ok, 3);
    reveal_with_fuel(step_at, 3);
    let j = choose|j: int| 0 <= j < path.len() && path[j] == utx as int;
    lemma_path_steps(links, path, j);
    let k1 = (path.len() - 1 - j) as nat;
    assert(steps_ok(links, utx_old, 1nat));
    assert(step_at(links, utx_old, 1nat) == utx as int);
    lemma_steps_concat(links, path[j], k1, 1nat);
    let k = (k1 + 1) as nat;
    assert(steps_ok(links, utx as int, k));
    assert(step_at(links, utx as int, k) == utx as int);
    assert(1 <= k <= links.len());
}

impl<'a> NegCycleFinder<'a> {
    /// Scan the predecessor functional graph for cycles.  Walks backward
    /// from every node not yet visited, tagging each node with the walk
    /// that first reached it ("owner" tagging); a walk that runs into
    /// its own tag has closed a cycle, a walk that runs into another
    /// walk's tag or a node without a predecessor stops.  Every node is
    /// visited at most once over all walks.  Every returned node lies on
    /// a cycle of the predecessor map, and every cycle of the map is
    /// represented: each node on one reaches some returned node by
    /// pointer steps.
    pub fn find_cycle(&self) -> (result: Vec<usize>)
        requires
            self.wf(),
        ensures
            forall|i: int|
                0 <= i < result@.len() ==> (#[trigger] result@[i]) < self.digraph.nodes()
                    && on_cycle(self.pred@, result@[i] as int),
            forall|v: int|
                0 <= v < self.digraph.nodes() && #[trigger] on_cycle(self.pred@, v)
                    ==> cycle_represented(self.pred@, v, result@),
            forall|i1: int, i2: int|
                0 <= i1 < result@.len() && 0 <= i2 < result@.len() && i1 != i2 ==> (
                #[trigger] result@[i1]) != (#[trigger] result@[i2]),
            forall|i1: int, i2: int|
                0 <= i1 < result@.len() && 0 <= i2 < result@.len() && i1 != i2 ==> !reaches(
                    self.pred@,
                    (#[trigger] result@[i2]) as int,
                    (#[trigger] result@[i1]) as int,
                ),
    {
        scan_cycles(&self.pred, self.digraph.num_nodes())
    }
}

/// Scan a functional graph (a link map) for cycles.  Walks from every
/// node not yet visited, following the pointers and tagging each node
/// with the walk that first reached it ("owner" tagging); a walk that
/// runs into its own tag has closed a cycle, a walk that runs into
/// another walk's tag or a node without a pointer stops.  Every node is
/// visited at most once over all walks.  Every returned node lies on a
/// cycle of the link map.
pub(crate) fn scan_cycles(links_vec: &Vec<Option<(usize, usize)>>, n: usize) -> (result: Vec<
    usize,
>)
    requires
        links_vec@.len() == n,
        forall|v: int|
            0 <= v < links_vec@.len() ==> match #[trigger] links_vec@[v] {
                Some(p) => p.0 < n,
                None => true,
            },
    ensures
        forall|i: int|
            0 <= i < result@.len() ==> (#[trigger] result@[i]) < n && on_cycle(
                links_vec@,
                result@[i] as int,
            ),
        forall|v: int|
            0 <= v < n && #[trigger] on_cycle(links_vec@, v) ==> cycle_represented(
                links_vec@,
                v,
                result@,
            ),
        forall|i1: int, i2: int|
            0 <= i1 < result@.len() && 0 <= i2 < result@.len() && i1 != i2 ==> !reaches(
                links_vec@,
                (#[trigger] result@[i2]) as int,
                (#[trigger] result@[i1]) as int,
            ),
{
    {
        let ghost links = links_vec@;
        let mut visited = new_tags(n);
        let mut result: Vec<usize> = Vec::new();
        let mut vtx: usize = 0;
        while vtx < n
            invariant
                links == links_vec@,
                links.len() == n,
                forall|v: int|
                    0 <= v < links.len() ==> match #[trigger] links[v] {
                        Some(p) => p.0 < n,
                        None => true,
                    },
                vtx <= n,
                visited@.len() == n,
                owners_ok(visited@, n as int),
                forall|x: int| 0 <= x < vtx ==> (#[trigger] visited@[x]) is Some,
                forall|x: int|
                    0 <= x < n && (#[trigger] visited@[x]) is Some && on_cycle(links, x)
                        ==> cycle_represented(links, x, result@),
                forall|i: int|
                    0 <= i < result@.len() ==> (#[trigger] result@[i]) < n && on_cycle(
                        links,
                        result@[i] as int,
                    ) && visited@[result@[i] as int] is Some,
                forall|i: int|
                    0 <= i < result@.len() ==> iterates_tagged(
                        links,
                        visited@,
                        (#[trigger] result@[i]) as int,
                    ),
                forall|i1: int, i2: int|
                    0 <= i1 < result@.len() && 0 <= i2 < result@.len() && i1 != i2 ==> !reaches(
                        links,
                        (#[trigger] result@[i2]) as int,
                        (#[trigger] result@[i1]) as int,
                    ),
            decreases n - vtx,
        {
            if visited[vtx].is_none() {
                let mut utx = vtx;
                let ghost visited_pre = visited@;
                proof {
                    lemma_count_none_bound(visited@, 0);
                    lemma_count_none_update(visited@, vtx as int, vtx, 0);
                }
                visited.set(vtx, Some(vtx));
                let ghost mut path: Seq<int> = seq![vtx as int];
                proof {
                    assert forall|x: int|
                        0 <= x < n implies ((#[trigger] visited@[x]) == Some(vtx) <==> path.contains(
                        x,
                    )) by {
                        if x == vtx as int {
                            assert(path[0] == x);
                        } else {
                            if visited@[x] == Some(vtx) {
                                assert(visited_pre[x] == Some(vtx));
                                assert(visited_pre[vtx as int] == Some(vtx));
                                assert(false);
                            }
                            if path.contains(x) {
                                let ii = choose|ii: int| 0 <= ii < path.len() && path[ii] == x;
                                assert(false);
                            }
                        }
                    }
                    assert forall|x: int|
                        0 <= x < n implies match #[trigger] visited@[x] {
                        Some(o) => o < n && visited@[o as int] == Some(o),
                        None => true,
                    } by {
                        if x != vtx as int {
                            match visited_pre[x] {
                                Some(o) => {
                                    assert(o != vtx);
                                },
                                None => {},
                            }
                        }
                    }
                    assert forall|i: int|
                        0 <= i < result@.len() implies iterates_tagged(
                        links,
                        visited@,
                        (#[trigger] result@[i]) as int,
                    ) by {
                        lemma_iterates_tagged_mono(links, visited_pre, visited@, result@[i] as int);
                    }
                }
                loop
                    invariant_except_break
                        utx < n,
                        path_ok(links, path, n as int, vtx),
                        path[path.len() - 1] == utx as int,
                        tag_iff_path(visited@, n as int, vtx, path),
                        path.len() + count_none(visited@) <= n,
                        forall|jj: int|
                            0 <= jj < path.len() ==> visited_pre[#[trigger] path[jj]] is None,
                        forall|x: int|
                            0 <= x < n && (#[trigger] visited_pre[x]) is Some && on_cycle(links, x)
                                ==> cycle_represented(links, x, result@),
                        forall|i: int|
                            0 <= i < result@.len() ==> visited_pre[(#[trigger] result@[i]) as int]
                                is Some,
                        forall|i: int|
                            0 <= i < result@.len() ==> iterates_tagged(
                                links,
                                visited_pre,
                                (#[trigger] result@[i]) as int,
                            ),
                    invariant
                        links == links_vec@,
                        links.len() == n,
                        forall|v: int|
                            0 <= v < links.len() ==> match #[trigger] links[v] {
                                Some(p) => p.0 < n,
                                None => true,
                            },
                        vtx < n,
                        visited@.len() == n,
                        visited_pre.len() == n,
                        visited_pre[vtx as int] is None,
                        owners_ok(visited@, n as int),
                        forall|x: int|
                            0 <= x < n ==> (#[trigger] visited@[x]) == visited_pre[x]
                                || visited@[x] == Some(vtx),
                        forall|i: int|
                            0 <= i < result@.len() ==> (#[trigger] result@[i]) < n && on_cycle(
                                links,
                                result@[i] as int,
                            ) && visited@[result@[i] as int] is Some,
                        forall|i1: int, i2: int|
                            0 <= i1 < result@.len() && 0 <= i2 < result@.len() && i1 != i2 ==> (
                            #[trigger] result@[i1]) != (#[trigger] result@[i2]),
                        forall|i: int|
                            0 <= i < result@.len() ==> iterates_tagged(
                                links,
                                visited@,
                                (#[trigger] result@[i]) as int,
                            ),
                        forall|i1: int, i2: int|
                            0 <= i1 < result@.len() && 0 <= i2 < result@.len() && i1 != i2
                                ==> !reaches(
                                links,
                                (#[trigger] result@[i2]) as int,
                                (#[trigger] result@[i1]) as int,
                            ),
                    ensures
                        visited@.len() == n,
                        owners_ok(visited@, n as int),
                        forall|x: int|
                            0 <= x < n && (#[trigger] visited_pre[x]) is Some ==> visited@[x]
                                == visited_pre[x],
                        visited@[vtx as int] is Some,
                        forall|x: int|
                            0 <= x < n && (#[trigger] visited@[x]) is Some && on_cycle(links, x)
                                ==> cycle_represented(links, x, result@),
                        forall|i: int|
                            0 <= i < result@.len() ==> (#[trigger] result@[i]) < n && on_cycle(
                                links,
                                result@[i] as int,
                            ) && visited@[result@[i] as int] is Some,
                        forall|i1: int, i2: int|
                            0 <= i1 < result@.len() && 0 <= i2 < result@.len() && i1 != i2 ==> (
                            #[trigger] result@[i1]) != (#[trigger] result@[i2]),
                        forall|i: int|
                            0 <= i < result@.len() ==> iterates_tagged(
                                links,
                                visited@,
                                (#[trigger] result@[i]) as int,
                            ),
                        forall|i1: int, i2: int|
                            0 <= i1 < result@.len() && 0 <= i2 < result@.len() && i1 != i2
                                ==> !reaches(
                                links,
                                (#[trigger] result@[i2]) as int,
                                (#[trigger] result@[i1]) as int,
                            ),
                    decreases count_none(visited@),
                {
                    proof {
                        lemma_count_none_nonneg(visited@, 0);
                    }
                    match links_vec[utx] {
                        Some(pair) => {
                            let ghost utx_old: int = utx as int;
                            utx = pair.0;
                            match visited[utx] {
                                Some(root) => {
                                    if root == vtx {
                                        proof {
                                            assert(path.contains(utx as int));
                                            lemma_walk_cycle_found(
                                                links,
                                                n as int,
                                                path,
                                                vtx,
                                                utx_old,
                                                utx,
                                                pair,
                                            );
                                        }
                                        let ghost result0 = result@;
                                        result.push(utx);
                                        proof {
                                            lemma_walk_tags_preserved(
                                                visited@,
                                                visited_pre,
                                                path,
                                                n as int,
                                                vtx,
                                            );
                                            assert(result@ == result0.push(utx));
                                            assert(result@[result0.len() as int] == utx);
                                            assert(visited_pre[utx as int] is None);
                                            assert forall|i1: int, i2: int|
                                                0 <= i1 < result@.len() && 0 <= i2 < result@.len()
                                                    && i1 != i2 implies (#[trigger] result@[i1])
                                                != (#[trigger] result@[i2]) by {
                                                if i1 < result0.len() && i2 < result0.len() {
                                                } else {
                                                    let io = if i1 < result0.len() {
                                                        i1
                                                    } else {
                                                        i2
                                                    };
                                                    assert(visited_pre[(result0[io]) as int]
                                                        is Some);
                                                }
                                            }
                                            let jdx = choose|jdx: int|
                                                0 <= jdx < path.len() && path[jdx] == utx as int;
                                            assert forall|k: int|
                                                0 <= k && #[trigger] steps_ok(
                                                    links,
                                                    utx as int,
                                                    k as nat,
                                                ) implies visited@[step_at(
                                                links,
                                                utx as int,
                                                k as nat,
                                            )] is Some by {
                                                lemma_path_segment_closed(
                                                    links,
                                                    path,
                                                    jdx,
                                                    n as int,
                                                    vtx,
                                                    utx_old,
                                                    utx,
                                                    pair,
                                                    k as nat,
                                                );
                                                let m = choose|m: int|
                                                    jdx <= m < path.len() && #[trigger] path[m]
                                                        == step_at(links, utx as int, k as nat);
                                                assert(path.contains(path[m]));
                                            }
                                            assert(iterates_tagged(links, visited@, utx as int));
                                            assert forall|i1: int, i2: int|
                                                0 <= i1 < result@.len() && 0 <= i2 < result@.len()
                                                    && i1 != i2 implies !reaches(
                                                links,
                                                (#[trigger] result@[i2]) as int,
                                                (#[trigger] result@[i1]) as int,
                                            ) by {
                                                if i1 < result0.len() && i2 < result0.len() {
                                                } else if i2 == result0.len() {
                                                    if reaches(
                                                        links,
                                                        utx as int,
                                                        result0[i1] as int,
                                                    ) {
                                                        lemma_reach_on_cycle_symmetric(
                                                            links,
                                                            utx as int,
                                                            result0[i1] as int,
                                                        );
                                                        let k = choose|k: int|
                                                            0 <= k && #[trigger] steps_ok(
                                                                links,
                                                                result0[i1] as int,
                                                                k as nat,
                                                            ) && step_at(
                                                                links,
                                                                result0[i1] as int,
                                                                k as nat,
                                                            ) == utx as int;
                                                        assert(iterates_tagged(
                                                            links,
                                                            visited_pre,
                                                            result0[i1] as int,
                                                        ));
                                                        assert(visited_pre[utx as int] is Some);
                                                        assert(false);
                                                    }
                                                } else {
                                                    if reaches(
                                                        links,
                                                        result0[i2] as int,
                                                        utx as int,
                                                    ) {
                                                        let k = choose|k: int|
                                                            0 <= k && #[trigger] steps_ok(
                                                                links,
                                                                result0[i2] as int,
                                                                k as nat,
                                                            ) && step_at(
                                                                links,
                                                                result0[i2] as int,
                                                                k as nat,
                                                            ) == utx as int;
                                                        assert(iterates_tagged(
                                                            links,
                                                            visited_pre,
                                                            result0[i2] as int,
                                                        ));
                                                        assert(visited_pre[utx as int] is Some);
                                                        assert(false);
                                                    }
                                                }
                                            }
                                            assert forall|x: int|
                                                0 <= x < n && (#[trigger] visited@[x]) is Some
                                                    && on_cycle(links, x) implies cycle_represented(
                                                links,
                                                x,
                                                result@,
                                            ) by {
                                                if visited_pre[x] is Some {
                                                    lemma_represented_push(links, x, result0, utx);
                                                } else {
                                                    assert(visited@[x] == Some(vtx));
                                                    assert(path.contains(x));
                                                    let jj = choose|jj: int|
                                                        0 <= jj < path.len() && path[jj] == x;
                                                    lemma_path_reaches(
                                                        links,
                                                        path,
                                                        jj,
                                                        n as int,
                                                        vtx,
                                                        utx_old,
                                                        utx,
                                                        pair,
                                                    );
                                                    assert(step_at(
                                                        links,
                                                        x,
                                                        (path.len() - jj) as nat,
                                                    ) == result@[result0.len() as int] as int);
                                                }
                                            }
                                        }
                                    } else {
                                        proof {
                                            lemma_walk_tags_preserved(
                                                visited@,
                                                visited_pre,
                                                path,
                                                n as int,
                                                vtx,
                                            );
                                            assert(visited@[utx as int] == visited_pre[utx as int]);
                                            assert forall|x: int|
                                                0 <= x < n && (#[trigger] visited@[x]) is Some
                                                    && on_cycle(links, x) implies cycle_represented(
                                                links,
                                                x,
                                                result@,
                                            ) by {
                                                if visited_pre[x] is None {
                                                    assert(visited@[x] == Some(vtx));
                                                    assert(path.contains(x));
                                                    let jj = choose|jj: int|
                                                        0 <= jj < path.len() && path[jj] == x;
                                                    lemma_path_reaches(
                                                        links,
                                                        path,
                                                        jj,
                                                        n as int,
                                                        vtx,
                                                        utx_old,
                                                        utx,
                                                        pair,
                                                    );
                                                    lemma_on_cycle_iterate(
                                                        links,
                                                        x,
                                                        (path.len() - jj) as nat,
                                                        utx as int,
                                                    );
                                                    lemma_represented_from(
                                                        links,
                                                        x,
                                                        utx as int,
                                                        (path.len() - jj) as nat,
                                                        result@,
                                                    );
                                                }
                                            }
                                        }
                                    }
                                    break ;
                                },
                                None => {
                                    let ghost visited0 = visited@;
                                    let ghost path0 = path;
                                    proof {
                                        lemma_count_none_update(visited@, utx as int, vtx, 0);
                                    }
                                    visited.set(utx, Some(vtx));
                                    proof {
                                        lemma_count_none_nonneg(visited@, 0);
                                        path = path0.push(utx as int);
                                        lemma_walk_tag_step(
                                            links,
                                            n as int,
                                            visited0,
                                            visited@,
                                            path0,
                                            path,
                                            vtx,
                                            utx_old,
                                            utx,
                                            pair,
                                        );
                                        assert forall|i: int|
                                            0 <= i < result@.len() implies iterates_tagged(
                                            links,
                                            visited@,
                                            (#[trigger] result@[i]) as int,
                                        ) by {
                                            lemma_iterates_tagged_mono(
                                                links,
                                                visited0,
                                                visited@,
                                                result@[i] as int,
                                            );
                                        }
                                        assert forall|jj: int|
                                            0 <= jj < path.len() implies visited_pre[#[trigger] path[jj]] is None by {
                                            if jj < path.len() - 1 {
                                                assert(path[jj] == path0[jj]);
                                            } else {
                                                assert(path[jj] == utx as int);
                                                assert(visited0[utx as int] is None);
                                            }
                                        }
                                    }
                                },
                            }
                        },
                        None => {
                            proof {
                                lemma_walk_tags_preserved(
                                    visited@,
                                    visited_pre,
                                    path,
                                    n as int,
                                    vtx,
                                );
                                assert forall|x: int|
                                    0 <= x < n && (#[trigger] visited@[x]) is Some && on_cycle(
                                    links,
                                    x,
                                ) implies cycle_represented(links, x, result@) by {
                                    if visited_pre[x] is None {
                                        assert(visited@[x] == Some(vtx));
                                        assert(path.contains(x));
                                        let jj = choose|jj: int|
                                            0 <= jj < path.len() && path[jj] == x;
                                        lemma_path_steps(links, path, jj);
                                        lemma_on_cycle_iterate(
                                            links,
                                            x,
                                            (path.len() - 1 - jj) as nat,
                                            utx as int,
                                        );
                                        let l = choose|l: int|
                                            1 <= l <= links.len() && #[trigger] steps_ok(
                                                links,
                                                utx as int,
                                                l as nat,
                                            ) && step_at(links, utx as int, l as nat) == utx as int;
                                        assert(links[utx as int] is Some);
                                        assert(false);
                                    }
                                }
                            }
                            break ;
                        },
                    }
                }
            }
            vtx += 1;
        }
        proof {
            assert forall|v: int|
                0 <= v < n && #[trigger] on_cycle(links, v) implies cycle_represented(
                links,
                v,
                result@,
            ) by {
                assert(visited@[v] is Some);
            }
        }
        result
    }
}

/// Every node reachable from `r` by pointer steps carries a tag.
pub open spec fn iterates_tagged(links: Links, visited: Seq<Option<usize>>, r: int) -> bool {
    forall|k: int|
        0 <= k && #[trigger] steps_ok(links, r, k as nat) ==> visited[step_at(
            links,
            r,
            k as nat,
        )] is Some
}

/// Adding tags never untags an iterate.
proof fn lemma_iterates_tagged_mono(
    links: Links,
    v1: Seq<Option<usize>>,
    v2: Seq<Option<usize>>,
    r: int,
)
    requires
        iterates_tagged(links, v1, r),
        v1.len() == links.len(),
        v2.len() == v1.len(),
        forall|x: int| 0 <= x < v1.len() && (#[trigger] v1[x]) is Some ==> v2[x] is Some,
    ensures
        iterates_tagged(links, v2, r),
{
    assert forall|k: int|
        0 <= k && #[trigger] steps_ok(links, r, k as nat) implies v2[step_at(
        links,
        r,
        k as nat,
    )] is Some by {
        lemma_steps_decompose(links, r, k as nat, k as nat);
        assert(0 <= step_at(links, r, k as nat) < links.len());
        assert(v1[step_at(links, r, k as nat)] is Some);
    }
}

/// The cycle segment of a walk is closed under pointer steps: from the
/// cycle's entry node, every number of steps lands back inside the
/// segment.
proof fn lemma_path_segment_closed(
    links: Links,
    path: Seq<int>,
    jdx: int,
    n: int,
    vtx: usize,
    utx_old: int,
    utx: usize,
    pair: (usize, usize),
    k: nat,
)
    requires
        n == links.len(),
        path_ok(links, path, n, vtx),
        0 <= jdx < path.len(),
        path[jdx] == utx as int,
        path[path.len() - 1] == utx_old,
        links[utx_old] == Some(pair),
        pair.0 == utx,
        utx < n,
        0 <= utx_old < n,
        steps_ok(links, utx as int, k),
    ensures
        exists|m: int| jdx <= m < path.len() && #[trigger] path[m] == step_at(links, utx as int, k),
    decreases k,
{
    reveal_with_fuel(step_at, 3);
    reveal_with_fuel(steps_ok, 3);
    if k == 0 {
        assert(path[jdx] == step_at(links, utx as int, 0nat));
    } else {
        lemma_steps_decompose(links, utx as int, k, (k - 1) as nat);
        lemma_path_segment_closed(links, path, jdx, n, vtx, utx_old, utx, pair, (k - 1) as nat);
        let m = choose|m: int|
            jdx <= m < path.len() && #[trigger] path[m] == step_at(links, utx as int, (k - 1) as nat);
        let y = step_at(links, utx as int, (k - 1) as nat);
        lemma_steps_concat(links, utx as int, (k - 1) as nat, 1nat);
        assert(step_at(links, utx as int, k) == step_at(links, y, 1nat));
        if m < path.len() - 1 {
            assert(path[m + 1] == step_at(links, utx as int, k));
        } else {
            assert(y == utx_old);
            assert(step_at(links, y, 1nat) == utx as int);
            assert(path[jdx] == step_at(links, utx as int, k));
        }
    }
}

/// A walk only adds its own fresh tags: every node tagged before the
/// walk keeps its tag.
proof fn lemma_walk_tags_preserved(
    visited: Seq<Option<usize>>,
    visited_pre: Seq<Option<usize>>,
    path: Seq<int>,
    n: int,
    vtx: usize,
)
    requires
        visited.len() == n,
        visited_pre.len() == n,
        tag_iff_path(visited, n, vtx, path),
        forall|x: int|
            0 <= x < n ==> (#[trigger] visited[x]) == visited_pre[x] || visited[x] == Some(vtx),
        forall|jj: int| 0 <= jj < path.len() ==> visited_pre[#[trigger] path[jj]] is None,
        forall|jj: int| 0 <= jj < path.len() ==> 0 <= #[trigger] path[jj] < n,
    ensures
        forall|x: int|
            0 <= x < n && (#[trigger] visited_pre[x]) is Some ==> visited[x] == visited_pre[x],
{
    assert forall|x: int|
        0 <= x < n && (#[trigger] visited_pre[x]) is Some implies visited[x] == visited_pre[x] by {
        if visited[x] == Some(vtx) {
            assert(path.contains(x));
            let jj = choose|jj: int| 0 <= jj < path.len() && path[jj] == x;
            assert(visited_pre[path[jj]] is None);
        }
    }
}

/// Every walk node reaches the walk's next head: follow the path from
/// position `jj` to its last node, then take that node's pointer.
proof fn lemma_path_reaches(
    links: Links,
    path: Seq<int>,
    jj: int,
    n: int,
    vtx: usize,
    utx_old: int,
    utx: usize,
    pair: (usize, usize),
)
    requires
        n == links.len(),
        path_ok(links, path, n, vtx),
        0 <= jj < path.len(),
        path[path.len() - 1] == utx_old,
        links[utx_old] == Some(pair),
        pair.0 == utx,
        utx < n,
        0 <= utx_old < n,
    ensures
        steps_ok(links, path[jj], (path.len() - jj) as nat),
        step_at(links, path[jj], (path.len() - jj) as nat) == utx as int,
{
    reveal_with_fuel(steps_ok, 3);
    reveal_with_fuel(step_at, 3);
    lemma_path_steps(links, path, jj);
    assert(steps_ok(links, utx_old, 1nat));
    assert(step_at(links, utx_old, 1nat) == utx as int);
    lemma_steps_concat(links, path[jj], (path.len() - 1 - jj) as nat, 1nat);
}

impl<'a> NegCycleFinder<'a> {
    /// Reconstruct the cycle through `handle`: follow predecessor
    /// pointers, collecting the recorded edges, until the walk returns
    /// to `handle`.  The result is exactly the closed walk: one edge per
    /// step of the cycle, each the edge recorded at that step's node, no
    /// more and no fewer.
    pub fn cycle_list(&self, handle: usize) -> (cycle: Vec<usize>)
        requires
            self.wf(),
            handle < self.digraph.nodes(),
            on_cycle(self.pred@, handle as int),
        ensures
            is_least_period(self.pred@, handle as int, cycle@.len() as int),
            forall|j: int|
                0 <= j < cycle@.len() ==> (#[trigger] cycle@[j]) as int == link_edge(
                    self.pred@,
                    step_at(self.pred@, handle as int, j as nat),
                ) && cycle@[j] < self.digraph.edges(),
    {
        collect_cycle_edges(&self.pred, handle, self.digraph.num_edges())
    }

    /// Check whether the cycle through `handle` is negative: walk it
    /// once and test, at every step, whether the recorded edge violates
    /// the Bellman-Ford inequality (`dist[v] > dist[u] + weight(e)`,
    /// with a representable sum).  One violated edge on the cycle makes
    /// it negative under the relaxation invariant.
    pub fn is_negative(&self, handle: usize, dist: &Vec<Rational>, weights: &Vec<Rational>) -> (r:
        bool)
        requires
            self.wf(),
            handle < self.digraph.nodes(),
            on_cycle(self.pred@, handle as int),
            dist@.len() == self.digraph.nodes(),
            all_wf(dist@),
            weights@.len() == self.digraph.edges(),
            all_wf(weights@),
        ensures
            forall|l: int|
                #[trigger] is_least_period(self.pred@, handle as int, l) ==> (r <==> exists|j: int|
                    0 <= j < l && #[trigger] viol_at(
                        self.pred@,
                        dist@,
                        weights@,
                        step_at(self.pred@, handle as int, j as nat),
                    )),
    {
        cycle_has_violation(&self.pred, handle, dist, weights)
    }
}

/// Reconstruct the cycle through `handle` in a link map: follow the
/// pointers, collecting the recorded edges, until the walk returns to
/// `handle`.  The result is exactly the closed walk: one edge per step
/// of the cycle, each the edge recorded at that step's node, no more
/// and no fewer.
pub(crate) fn collect_cycle_edges(
    links_vec: &Vec<Option<(usize, usize)>>,
    handle: usize,
    m: usize,
) -> (cycle: Vec<usize>)
    requires
        handle < links_vec@.len(),
        forall|v: int|
            0 <= v < links_vec@.len() ==> match #[trigger] links_vec@[v] {
                Some(p) => p.0 < links_vec@.len() && p.1 < m,
                None => true,
            },
        on_cycle(links_vec@, handle as int),
    ensures
        is_least_period(links_vec@, handle as int, cycle@.len() as int),
        forall|j: int|
            0 <= j < cycle@.len() ==> (#[trigger] cycle@[j]) as int == link_edge(
                links_vec@,
                step_at(links_vec@, handle as int, j as nat),
            ) && cycle@[j] < m,
{
    {
        let ghost links = links_vec@;
        let mut cycle: Vec<usize> = Vec::new();
        let mut vtx = handle;
        let ghost mut i: int = 0;
        loop
            invariant_except_break
                vtx < links.len(),
                i >= 0,
                i == cycle@.len(),
                steps_ok(links, handle as int, i as nat),
                step_at(links, handle as int, i as nat) == vtx as int,
                forall|j: int|
                    1 <= j <= i ==> #[trigger] step_at(links, handle as int, j as nat)
                        != handle as int,
                forall|j: int|
                    0 <= j < i ==> (#[trigger] cycle@[j]) as int == link_edge(
                        links,
                        step_at(links, handle as int, j as nat),
                    ) && cycle@[j] < m,
                exists|k: int|
                    i < k <= links.len() && #[trigger] steps_ok(links, handle as int, k as nat)
                        && step_at(links, handle as int, k as nat) == handle as int,
            invariant
                links == links_vec@,
                handle < links.len(),
                forall|v: int|
                    0 <= v < links.len() ==> match #[trigger] links[v] {
                        Some(p) => p.0 < links.len() && p.1 < m,
                        None => true,
                    },
                on_cycle(links, handle as int),
            ensures
                is_least_period(links, handle as int, cycle@.len() as int),
                forall|j: int|
                    0 <= j < cycle@.len() ==> (#[trigger] cycle@[j]) as int == link_edge(
                        links,
                        step_at(links, handle as int, j as nat),
                    ) && cycle@[j] < m,
            decreases links.len() - i,
        {
            proof {
                let k = choose|k: int|
                    i < k <= links.len() && #[trigger] steps_ok(links, handle as int, k as nat)
                        && step_at(links, handle as int, k as nat) == handle as int;
                lemma_steps_decompose(links, handle as int, k as nat, i as nat);
                assert(steps_ok(links, vtx as int, (k - i) as nat));
            }
            match links_vec[vtx] {
                Some(pair) => {
                    let ghost vtx_old: int = vtx as int;
                    cycle.push(pair.1);
                    vtx = pair.0;
                    proof {
                        reveal_with_fuel(steps_ok, 3);
                        reveal_with_fuel(step_at, 3);
                        assert(links[vtx_old] == Some(pair));
                        assert(steps_ok(links, vtx_old, 1nat));
                        lemma_steps_concat(links, handle as int, i as nat, 1nat);
                        i = i + 1;
                        assert(steps_ok(links, handle as int, i as nat));
                        assert(step_at(links, handle as int, i as nat) == vtx as int);
                        assert(cycle@[i - 1] as int == link_edge(links, vtx_old));
                        let kk = choose|kk: int|
                            i - 1 < kk <= links.len() && #[trigger] steps_ok(
                                links,
                                handle as int,
                                kk as nat,
                            ) && step_at(links, handle as int, kk as nat) == handle as int;
                        if vtx != handle && kk == i {
                            assert(false);
                        }
                    }
                    if vtx == handle {
                        break ;
                    }
                },
                None => {
                    proof {
                        assert(false);
                    }
                    break ;
                },
            }
        }
        cycle
    }
}

/// Walk the cycle through `handle` in a link map once and test, at
/// every step, whether the recorded edge violates the Bellman-Ford
/// inequality (the distance at the node exceeds the distance at its
/// pointer target plus the edge's weight, with a representable sum).
pub(crate) fn cycle_has_violation(
    links_vec: &Vec<Option<(usize, usize)>>,
    handle: usize,
    dist: &Vec<Rational>,
    weights: &Vec<Rational>,
) -> (r: bool)
    requires
        handle < links_vec@.len(),
        forall|v: int|
            0 <= v < links_vec@.len() ==> match #[trigger] links_vec@[v] {
                Some(p) => p.0 < links_vec@.len() && p.1 < weights@.len(),
                None => true,
            },
        on_cycle(links_vec@, handle as int),
        dist@.len() == links_vec@.len(),
        all_wf(dist@),
        all_wf(weights@),
    ensures
        forall|l: int|
            #[trigger] is_least_period(links_vec@, handle as int, l) ==> (r <==> exists|j: int|
                0 <= j < l && #[trigger] viol_at(
                    links_vec@,
                    dist@,
                    weights@,
                    step_at(links_vec@, handle as int, j as nat),
                )),
{
    {
        let ghost links = links_vec@;
        let mut vtx = handle;
        let ghost mut i: int = 0;
        loop
            invariant_except_break
                vtx < links.len(),
                i >= 0,
                steps_ok(links, handle as int, i as nat),
                step_at(links, handle as int, i as nat) == vtx as int,
                forall|j: int|
                    1 <= j <= i ==> #[trigger] step_at(links, handle as int, j as nat)
                        != handle as int,
                forall|j: int|
                    0 <= j < i ==> !(#[trigger] viol_at(
                        links,
                        dist@,
                        weights@,
                        step_at(links, handle as int, j as nat),
                    )),
                exists|k: int|
                    i < k <= links.len() && #[trigger] steps_ok(links, handle as int, k as nat)
                        && step_at(links, handle as int, k as nat) == handle as int,
            invariant
                links == links_vec@,
                handle < links.len(),
                forall|v: int|
                    0 <= v < links.len() ==> match #[trigger] links[v] {
                        Some(p) => p.0 < links.len() && p.1 < weights@.len(),
                        None => true,
                    },
                on_cycle(links, handle as int),
                dist@.len() == links.len(),
                all_wf(dist@),
                all_wf(weights@),
            ensures
                is_least_period(links, handle as int, i),
                forall|j: int|
                    0 <= j < i ==> !(#[trigger] viol_at(
                        links,
                        dist@,
                        weights@,
                        step_at(links, handle as int, j as nat),
                    )),
            decreases links.len() - i,
        {
            proof {
                let k = choose|k: int|
                    i < k <= links.len() && #[trigger] steps_ok(links, handle as int, k as nat)
                        && step_at(links, handle as int, k as nat) == handle as int;
                lemma_steps_decompose(links, handle as int, k as nat, i as nat);
                assert(steps_ok(links, vtx as int, (k - i) as nat));
            }
            match links_vec[vtx] {
                Some(pair) => {
                    let ghost vtx_old: int = vtx as int;
                    let du = dist[pair.0];
                    let w = weights[pair.1];
                    let dv = dist[vtx];
                    let mut violated = false;
                    match du.try_add(&w) {
                        Some(sum) => {
                            if sum.lt(&dv) {
                                violated = true;
                            }
                        },
                        None => {},
                    }
                    if violated {
                        proof {
                            assert(viol_at(links, dist@, weights@, vtx_old));
                            assert forall|l: int|
                                #[trigger] is_least_period(
                                    links,
                                    handle as int,
                                    l,
                                ) implies exists|j: int|
                                0 <= j < l && #[trigger] viol_at(
                                    links,
                                    dist@,
                                    weights@,
                                    step_at(links, handle as int, j as nat),
                                ) by {
                                if l <= i {
                                    assert(step_at(links, handle as int, l as nat)
                                        == handle as int);
                                    assert(false);
                                }
                                assert(0 <= i < l && viol_at(
                                    links,
                                    dist@,
                                    weights@,
                                    step_at(links, handle as int, i as nat),
                                ));
                            }
                        }
                        return true;
                    }
                    proof {
                        reveal_with_fuel(steps_ok, 3);
                        reveal_with_fuel(step_at, 3);
                        assert(links[vtx_old] == Some(pair));
                        assert(steps_ok(links, vtx_old, 1nat));
                        lemma_steps_concat(links, handle as int, i as nat, 1nat);
                        assert(!viol_at(links, dist@, weights@, vtx_old));
                        i = i + 1;
                        let kk = choose|kk: int|
                            i - 1 < kk <= links.len() && #[trigger] steps_ok(
                                links,
                                handle as int,
                                kk as nat,
                            ) && step_at(links, handle as int, kk as nat) == handle as int;
                        if pair.0 != handle && kk == i {
                            assert(false);
                        }
                    }
                    vtx = pair.0;
                    if vtx == handle {
                        break ;
                    }
                },
                None => {
                    proof {
                        assert(false);
                    }
                    break ;
                },
            }
        }
        proof {
            assert forall|l: int|
                #[trigger] is_least_period(links, handle as int, l) implies l == i by {
                if l < i {
                    assert(step_at(links, handle as int, l as nat) == handle as int);
                } else if l > i {
                    assert(step_at(links, handle as int, i as nat) == handle as int);
                }
            }
        }
        false
    }
}

/// What howard reports for each cycle: a non-empty list of real edge
/// ids whose weights sum below zero, and which is exactly the walk of a
/// cycle of the finder's predecessor map.
pub open spec fn negative_cycle_report(
    g: &DiGraph,
    links: Links,
    w: Seq<Rational>,
    c: Seq<usize>,
) -> bool {
    &&& c.len() >= 1
    &&& forall|j: int| 0 <= j < c.len() ==> (#[trigger] c[j]) < g.edges()
    &&& rat_lt(edge_sum(c, w), rat_zero())
    &&& exists|v: int| 0 <= v < g.nodes() && #[trigger] cycle_matches(links, c, v)
}

/// The negativity check would come back false at `r`: no step of the
/// cycle through `r` violates the Bellman-Ford inequality (with a
/// representable candidate).
pub open spec fn cycle_checked_clean(
    links: Links,
    dist: Seq<Rational>,
    w: Seq<Rational>,
    r: int,
) -> bool {
    forall|l: int|
        #[trigger] is_least_period(links, r, l) ==> !exists|j: int|
            0 <= j < l && #[trigger] viol_at(links, dist, w, step_at(links, r, j as nat))
}

/// The cycle through `v` has a representative (a node it reaches by
/// pointer steps, itself on the cycle) at which the negativity check
/// comes back false.
pub open spec fn has_clean_representative(
    links: Links,
    dist: Seq<Rational>,
    w: Seq<Rational>,
    v: int,
) -> bool {
    exists|r: int, k: int|
        #![trigger step_at(links, v, k as nat), cycle_checked_clean(links, dist, w, r)]
        0 <= r < links.len() && 0 <= k && steps_ok(links, v, k as nat) && step_at(
            links,
            v,
            k as nat,
        ) == r && on_cycle(links, r) && cycle_checked_clean(links, dist, w, r)
}

/// A cycle list matches the walk from `v`: it is exactly the edges
/// recorded along the cycle of the link map through `v`.
pub open spec fn cycle_matches(links: Links, c: Seq<usize>, v: int) -> bool {
    &&& is_least_period(links, v, c.len() as int)
    &&& forall|j: int|
        0 <= j < c.len() ==> (#[trigger] c[j]) as int == link_edge(
            links,
            step_at(links, v, j as nat),
        )
}

impl<'a> NegCycleFinder<'a> {
    /// Find negative cycles by Howard's method.  Clear the predecessor
    /// map, then repeat: run one relaxation pass; if nothing changed,
    /// stop with no cycles (the distances are a relaxation fixpoint);
    /// otherwise scan the predecessor map, and report every cycle in it
    /// that passes the negativity check, reconstructed as its closed
    /// walk.  Once any cycle has been reported the search stops with
    /// that round's findings.  Every reported cycle genuinely has edge
    /// weights summing below zero.  A scanned cycle that fails the
    /// negativity check — possible only for a cycle of exactly zero
    /// weight or one whose violating candidates are not representable,
    /// since the exported relaxation invariant bounds every predecessor
    /// cycle's weight by zero — is deliberately left unreported and
    /// relaxation continues, which keeps the search panic-free; the
    /// contract describes exactly what is kept.  Every changing pass strictly lowers
    /// some distance, and the 64-bit-representable rationals are
    /// finite, so the summed order-embedding of the distance vector
    /// proves termination.
    pub fn howard(&mut self, dist: &mut Vec<Rational>, weights: &Vec<Rational>) -> (cycles: Vec<
        Vec<usize>,
    >)
        requires
            old(self).wf(),
            old(dist)@.len() == old(self).digraph.nodes(),
            all_wf(old(dist)@),
            weights@.len() == old(self).digraph.edges(),
            all_wf(weights@),
        ensures
            final(self).wf(),
            final(self).digraph == old(self).digraph,
            final(dist)@.len() == old(dist)@.len(),
            all_wf(final(dist)@),
            forall|i: int|
                0 <= i < old(dist)@.len() ==> rat_le((#[trigger] final(dist)@[i])@, old(dist)@[i]@),
            forall|i: int|
                0 <= i < cycles@.len() ==> negative_cycle_report(
                    old(self).digraph,
                    final(self).pred@,
                    weights@,
                    (#[trigger] cycles@[i])@,
                ),
            cycles@.len() == 0 ==> fixpoint(old(self).digraph, final(dist)@, weights@),
            cycles@.len() == 0 ==> forall|v: int|
                0 <= v < old(self).digraph.nodes() && #[trigger] on_cycle(final(self).pred@, v)
                    ==> has_clean_representative(final(self).pred@, final(dist)@, weights@, v),
            all_achievable(old(self).digraph, old(dist)@, weights@, final(dist)@),
            pred_le(final(self).pred@, final(dist)@, weights@),
    {
        let g = self.digraph;
        let n = g.num_nodes();
        let mut cycles: Vec<Vec<usize>> = Vec::new();
        self.pred = new_links(n);
        let mut found = false;
        proof {
            assert forall|v: int| 0 <= v < n implies !on_cycle(self.pred@, v) by {
                if on_cycle(self.pred@, v) {
                    let k = choose|k: int|
                        1 <= k <= self.pred@.len() && #[trigger] steps_ok(
                            self.pred@,
                            v,
                            k as nat,
                        ) && step_at(self.pred@, v, k as nat) == v;
                    assert(self.pred@[v] is Some);
                    assert(false);
                }
            }
            assert forall|v: int|
                0 <= v < dist@.len() implies achievable(
                g,
                old(dist)@,
                weights@,
                v,
                (#[trigger] dist@[v])@,
            ) by {
                lemma_achievable_refl(g, old(dist)@, weights@, v);
            }
        }
        loop
            invariant_except_break
                !found,
                cycles@.len() == 0,
                forall|v: int|
                    0 <= v < n && #[trigger] on_cycle(self.pred@, v) ==> has_clean_representative(
                        self.pred@,
                        dist@,
                        weights@,
                        v,
                    ),
            invariant
                self.wf(),
                g == self.digraph,
                self.digraph == old(self).digraph,
                n == g.nodes(),
                dist@.len() == old(dist)@.len(),
                old(dist)@.len() == n,
                all_wf(dist@),
                all_wf(old(dist)@),
                weights@.len() == g.edges(),
                all_wf(weights@),
                forall|i: int|
                    0 <= i < old(dist)@.len() ==> rat_le((#[trigger] dist@[i])@, old(dist)@[i]@),
                pred_le(self.pred@, dist@, weights@),
                all_achievable(g, old(dist)@, weights@, dist@),
            ensures
                self.wf(),
                self.digraph == old(self).digraph,
                dist@.len() == old(dist)@.len(),
                all_wf(dist@),
                forall|i: int|
                    0 <= i < old(dist)@.len() ==> rat_le((#[trigger] dist@[i])@, old(dist)@[i]@),
                forall|i: int|
                    0 <= i < cycles@.len() ==> negative_cycle_report(
                        old(self).digraph,
                        self.pred@,
                        weights@,
                        (#[trigger] cycles@[i])@,
                    ),
                cycles@.len() == 0 ==> fixpoint(old(self).digraph, dist@, weights@),
                cycles@.len() == 0 ==> forall|v: int|
                    0 <= v < n && #[trigger] on_cycle(self.pred@, v) ==> has_clean_representative(
                        self.pred@,
                        dist@,
                        weights@,
                        v,
                    ),
                all_achievable(g, old(dist)@, weights@, dist@),
                pred_le(self.pred@, dist@, weights@),
            decreases dist_measure(dist@),
        {
            let ghost dist_pre = dist@;
            let changed = self.relax(dist, weights);
            proof {
                assert forall|i: int|
                    0 <= i < old(dist)@.len() implies rat_le(
                    (#[trigger] dist@[i])@,
                    old(dist)@[i]@,
                ) by {
                    lemma_rat_le_trans(dist@[i]@, dist_pre[i]@, old(dist)@[i]@);
                }
                lemma_all_achievable_compose(g, old(dist)@, dist_pre, dist@, weights@);
            }
            if !changed {
                break ;
            }
            let starts = self.find_cycle();
            let mut idx: usize = 0;
            while idx < starts.len()
                invariant
                    self.wf(),
                    g == self.digraph,
                    self.digraph == old(self).digraph,
                    n == g.nodes(),
                    dist@.len() == n,
                    all_wf(dist@),
                    weights@.len() == g.edges(),
                    all_wf(weights@),
                    pred_le(self.pred@, dist@, weights@),
                    idx <= starts@.len(),
                    forall|i: int|
                        0 <= i < starts@.len() ==> (#[trigger] starts@[i]) < n && on_cycle(
                            self.pred@,
                            starts@[i] as int,
                        ),
                    forall|v: int|
                        0 <= v < n && #[trigger] on_cycle(self.pred@, v) ==> cycle_represented(
                            self.pred@,
                            v,
                            starts@,
                        ),
                    !found ==> forall|i: int|
                        0 <= i < idx ==> cycle_checked_clean(
                            self.pred@,
                            dist@,
                            weights@,
                            (#[trigger] starts@[i]) as int,
                        ),
                    forall|i: int|
                        0 <= i < cycles@.len() ==> negative_cycle_report(
                            g,
                            self.pred@,
                            weights@,
                            (#[trigger] cycles@[i])@,
                        ),
                    found <==> cycles@.len() > 0,
                decreases starts@.len() - idx,
            {
                let v = starts[idx];
                if self.is_negative(v, dist, weights) {
                    let c = self.cycle_list(v);
                    proof {
                        assert(is_least_period(self.pred@, v as int, c@.len() as int));
                        assert(cycle_matches(self.pred@, c@, v as int));
                        lemma_cycle_negative(self.pred@, dist@, weights@, c@, v as int);
                        assert(negative_cycle_report(g, self.pred@, weights@, c@));
                    }
                    cycles.push(c);
                    found = true;
                }
                idx += 1;
            }
            proof {
                if !found {
                    assert forall|v: int|
                        0 <= v < n && #[trigger] on_cycle(
                        self.pred@,
                        v,
                    ) implies has_clean_representative(self.pred@, dist@, weights@, v) by {
                        assert(cycle_represented(self.pred@, v, starts@));
                        let (i, k) = choose|i: int, k: int|
                            #![trigger starts@[i], step_at(self.pred@, v, k as nat)]
                            0 <= i < starts@.len() && 0 <= k && steps_ok(self.pred@, v, k as nat)
                                && step_at(self.pred@, v, k as nat) == starts@[i] as int;
                        assert(starts@[i] < n && on_cycle(self.pred@, starts@[i] as int));
                        assert(cycle_checked_clean(self.pred@, dist@, weights@, starts@[i] as int));
                    }
                }
            }
            if found {
                break ;
            }
            proof {
                let j = choose|j: int|
                    0 <= j < dist_pre.len() && rat_lt((#[trigger] dist@[j])@, dist_pre[j]@);
                lemma_dist_measure_lt(dist_pre, dist@, 0, j);
                lemma_dist_measure_nonneg(dist@, 0);
            }
        }
        cycles
    }
}

/// A sum of non-negative weights is non-negative.
proof fn lemma_edge_sum_nonneg(c: Seq<usize>, w: Seq<Rational>, i: int)
    requires
        all_wf(w),
        forall|e: int| 0 <= e < w.len() ==> rat_le(rat_zero(), (#[trigger] w[e])@),
        forall|j: int| 0 <= j < c.len() ==> (#[trigger] c[j]) < w.len(),
    ensures
        rat_wf(edge_sum_from(c, w, i)),
        rat_le(rat_zero(), edge_sum_from(c, w, i)),
    decreases c.len() - i,
{
    if i < 0 || i >= c.len() {
    } else {
        lemma_edge_sum_nonneg(c, w, i + 1);
        lemma_rat_add_wf(w[c[i] as int]@, edge_sum_from(c, w, i + 1));
        lemma_rat_add_nonneg(w[c[i] as int]@, edge_sum_from(c, w, i + 1));
    }
}

/// No false positives: when every edge weight is non-negative the graph
/// has no negative cycle, so nothing that satisfies the finder's report
/// contract can exist and `howard` returns an empty cycle list.
pub proof fn lemma_no_false_positives(
    g: &DiGraph,
    links: Links,
    w: Seq<Rational>,
    cycles: Seq<Seq<usize>>,
)
    requires
        all_wf(w),
        w.len() == g.edges(),
        forall|e: int| 0 <= e < w.len() ==> rat_le(rat_zero(), (#[trigger] w[e])@),
        forall|i: int|
            0 <= i < cycles.len() ==> negative_cycle_report(g, links, w, #[trigger] cycles[i]),
    ensures
        cycles.len() == 0,
{
    if cycles.len() > 0 {
        let c = cycles[0];
        assert(negative_cycle_report(g, links, w, c));
        lemma_edge_sum_nonneg(c, w, 0);
        assert(false);
    }
}

/// Telescoping the relaxation invariant along a walk: the walk's total
/// weight plus the distance of its last node is at most the distance of
/// its first node, and strictly below it if the Bellman-Ford inequality
/// is violated anywhere along the walk.
proof fn lemma_walk_sum_bound(links: Links, dist: Seq<Rational>, w: Seq<Rational>, v: int, k: nat)
    requires
        links.len() == dist.len(),
        all_wf(dist),
        all_wf(w),
        pred_le(links, dist, w),
        forall|x: int|
            0 <= x < links.len() ==> match #[trigger] links[x] {
                Some(p) => p.0 < dist.len() && p.1 < w.len(),
                None => true,
            },
        steps_ok(links, v, k),
    ensures
        rat_wf(walk_sum(links, w, v, k)),
        rat_le(rat_add(walk_sum(links, w, v, k), dist[step_at(links, v, k)]@), dist[v]@),
        (exists|j: int|
            0 <= j < k && #[trigger] viol_at(links, dist, w, step_at(links, v, j as nat))) ==> rat_lt(
            rat_add(walk_sum(links, w, v, k), dist[step_at(links, v, k)]@),
            dist[v]@,
        ),
    decreases k,
{
    if k == 0 {
        lemma_rat_add_zero(dist[v]@);
    } else {
        reveal_with_fuel(steps_ok, 3);
        let p = links[v]->Some_0;
        let u = p.0 as int;
        let e = p.1 as int;
        let s_tail = walk_sum(links, w, u, (k - 1) as nat);
        let end = step_at(links, v, k);
        lemma_walk_sum_bound(links, dist, w, u, (k - 1) as nat);
        lemma_steps_decompose(links, v, k, k);
        assert(0 <= end < dist.len());
        assert(end == step_at(links, u, (k - 1) as nat));
        lemma_rat_add_wf(s_tail, dist[end]@);
        lemma_rat_add_wf(w[e]@, s_tail);
        lemma_rat_add_wf(dist[u]@, w[e]@);
        assert(pred_le_at(links, dist, w, v));
        // reassociate: (w[e] + s_tail) + dist[end] == w[e] + (s_tail + dist[end])
        lemma_rat_add_assoc(w[e]@, s_tail, dist[end]@);
        // grow the second summand: w[e] + (s_tail + dist[end]) <= w[e] + dist[u]
        lemma_rat_add_comm(w[e]@, rat_add(s_tail, dist[end]@));
        lemma_rat_add_comm(w[e]@, dist[u]@);
        lemma_rat_add_mono(rat_add(s_tail, dist[end]@), dist[u]@, w[e]@);
        lemma_rat_add_comm(dist[u]@, w[e]@);
        // chain with the invariant at v: w[e] + dist[u] == dist[u] + w[e] <= dist[v]
        let total = rat_add(walk_sum(links, w, v, k), dist[end]@);
        assert(total == rat_add(rat_add(s_tail, dist[end]@), w[e]@)
            || total == rat_add(w[e]@, rat_add(s_tail, dist[end]@)));
        lemma_rat_add_wf(rat_add(s_tail, dist[end]@), w[e]@);
        lemma_rat_le_trans(
            rat_add(rat_add(s_tail, dist[end]@), w[e]@),
            rat_add(dist[u]@, w[e]@),
            dist[v]@,
        );
        if exists|j: int| 0 <= j < k && #[trigger] viol_at(links, dist, w, step_at(links, v, j as nat)) {
            let j = choose|j: int|
                0 <= j < k && #[trigger] viol_at(links, dist, w, step_at(links, v, j as nat));
            if j == 0 {
                // the violated edge is the one into v itself
                assert(viol_at(links, dist, w, v));
                lemma_rat_le_lt_trans(
                    rat_add(rat_add(s_tail, dist[end]@), w[e]@),
                    rat_add(dist[u]@, w[e]@),
                    dist[v]@,
                );
            } else {
                // the violation lies in the tail walk from u
                assert(step_at(links, v, j as nat) == step_at(links, u, (j - 1) as nat));
                assert(0 <= j - 1 < k - 1 && viol_at(
                    links,
                    dist,
                    w,
                    step_at(links, u, (j - 1) as nat),
                ));
                lemma_rat_add_mono_strict_second(rat_add(s_tail, dist[end]@), dist[u]@, w[e]@);
                lemma_rat_lt_le_trans(
                    rat_add(rat_add(s_tail, dist[end]@), w[e]@),
                    rat_add(dist[u]@, w[e]@),
                    dist[v]@,
                );
            }
        }
    }
}

/// Strict monotonicity of addition, phrased for the summand order the
/// telescoping proof uses.
proof fn lemma_rat_add_mono_strict_second(a: Rat, b: Rat, c: Rat)
    requires
        rat_wf(a),
        rat_wf(b),
        rat_wf(c),
        rat_lt(a, b),
    ensures
        rat_lt(rat_add(a, c), rat_add(b, c)),
{
    lemma_rat_add_mono(a, b, c);
}

/// The weight sum of a cycle list equals the weight sum of the walk it
/// was collected from.
proof fn lemma_edge_sum_eq_walk(links: Links, w: Seq<Rational>, c: Seq<usize>, v: int, i: int)
    requires
        0 <= i <= c.len(),
        steps_ok(links, v, c.len() as nat),
        forall|j: int|
            0 <= j < c.len() ==> (#[trigger] c[j]) as int == link_edge(
                links,
                step_at(links, v, j as nat),
            ),
    ensures
        edge_sum_from(c, w, i) == walk_sum(
            links,
            w,
            step_at(links, v, i as nat),
            (c.len() - i) as nat,
        ),
    decreases c.len() - i,
{
    lemma_steps_decompose(links, v, c.len() as nat, i as nat);
    if i < c.len() {
        reveal_with_fuel(step_at, 3);
        reveal_with_fuel(steps_ok, 3);
        lemma_steps_decompose(links, v, c.len() as nat, (i + 1) as nat);
        let x = step_at(links, v, i as nat);
        assert(steps_ok(links, x, (c.len() - i) as nat));
        let p = links[x]->Some_0;
        assert(steps_ok(links, x, 1nat));
        assert(step_at(links, v, (i + 1) as nat) == p.0 as int) by {
            reveal_with_fuel(step_at, 3);
            reveal_with_fuel(steps_ok, 3);
            lemma_steps_concat(links, v, i as nat, 1nat);
        }
        lemma_edge_sum_eq_walk(links, w, c, v, i + 1);
        assert(c[i] as int == link_edge(links, x));
    }
}

/// Every cycle of the predecessor map that violates the Bellman-Ford
/// inequality somewhere has edge weights summing below zero: the
/// telescoped relaxation inequalities around the cycle cancel the
/// distances, leaving the strict bound on the sum alone.
pub(crate) proof fn lemma_cycle_negative(
    links: Links,
    dist: Seq<Rational>,
    w: Seq<Rational>,
    c: Seq<usize>,
    v: int,
)
    requires
        links.len() == dist.len(),
        all_wf(dist),
        all_wf(w),
        pred_le(links, dist, w),
        forall|x: int|
            0 <= x < links.len() ==> match #[trigger] links[x] {
                Some(p) => p.0 < dist.len() && p.1 < w.len(),
                None => true,
            },
        0 <= v < links.len(),
        cycle_matches(links, c, v),
        exists|j: int|
            0 <= j < c.len() && #[trigger] viol_at(links, dist, w, step_at(links, v, j as nat)),
    ensures
        rat_lt(edge_sum(c, w), rat_zero()),
{
    let k = c.len() as nat;
    lemma_walk_sum_bound(links, dist, w, v, k);
    assert(step_at(links, v, k) == v);
    lemma_edge_sum_eq_walk(links, w, c, v, 0);
    assert(edge_sum(c, w) == walk_sum(links, w, v, k));
    lemma_rat_cancel(dist[v]@, walk_sum(links, w, v, k));
}

/// One relaxation update preserves the relaxation invariant: the new
/// pointer is recorded with (at most) equality against a cached source
/// distance that can only have grown stale upward, and every other
/// pointer's inequality survives because its source distance, like all
/// distances, only went down.
proof fn lemma_pred_le_step(
    links1: Links,
    links2: Links,
    d1: Seq<Rational>,
    d2: Seq<Rational>,
    w: Seq<Rational>,
    v: int,
    u: usize,
    e: usize,
    du: Rational,
    cand: Rational,
)
    requires
        d1.len() == links1.len(),
        all_wf(d1),
        all_wf(w),
        forall|x: int|
            0 <= x < links1.len() ==> match #[trigger] links1[x] {
                Some(p) => p.0 < d1.len() && p.1 < w.len(),
                None => true,
            },
        pred_le(links1, d1, w),
        0 <= v < d1.len(),
        u < d1.len(),
        e < w.len(),
        du.wf(),
        cand.wf(),
        rat_le(d1[u as int]@, du@),
        cand@ == rat_add(du@, w[e as int]@),
        rat_lt(cand@, d1[v]@),
        d2 == d1.update(v, cand),
        links2 == links1.update(v, Some((u, e))),
    ensures
        pred_le(links2, d2, w),
{
    assert forall|i: int| 0 <= i < d1.len() implies rat_le((#[trigger] d2[i])@, d1[i]@) by {
        if i != v {
        }
    }
    assert forall|x: int| 0 <= x < links2.len() implies #[trigger] pred_le_at(
        links2,
        d2,
        w,
        x,
    ) by {
        if x == v {
            assert(links2[x] == Some((u, e)));
            assert(d2[x] == cand);
            if u as int == v {
                assert(d2[u as int] == cand);
                lemma_rat_lt_le_trans(cand@, d1[u as int]@, du@);
            } else {
                assert(d2[u as int] == d1[u as int]);
                lemma_rat_le_trans(d2[u as int]@, d1[u as int]@, du@);
            }
            assert(rat_le(d2[u as int]@, du@));
            lemma_rat_add_mono(d2[u as int]@, du@, w[e as int]@);
            assert(rat_le(rat_add(d2[u as int]@, w[e as int]@), rat_add(du@, w[e as int]@)));
            assert(rat_add(du@, w[e as int]@) == cand@);
            assert(rat_le(rat_add(d2[u as int]@, w[e as int]@), d2[x]@));
            assert(pred_le_at(links2, d2, w, x));
        } else {
            assert(pred_le_at(links1, d1, w, x));
            assert(links2[x] == links1[x]);
            match links1[x] {
                Some(p) => {
                    let a = p.0 as int;
                    let b = p.1 as int;
                    lemma_rat_add_wf(d2[a]@, w[b]@);
                    lemma_rat_add_wf(d1[a]@, w[b]@);
                    lemma_rat_add_mono(d2[a]@, d1[a]@, w[b]@);
                    lemma_rat_le_trans(rat_add(d2[a]@, w[b]@), rat_add(d1[a]@, w[b]@), d1[x]@);
                    assert(d2[x] == d1[x]);
                    assert(rat_le(rat_add(d2[a]@, w[b]@), d2[x]@));
                    assert(pred_le_at(links2, d2, w, x));
                },
                None => {
                    assert(pred_le_at(links2, d2, w, x));
                },
            }
        }
    }
}

} // verus!
