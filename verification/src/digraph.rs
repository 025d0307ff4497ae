//! A small indexed directed graph: the adjacency view the algorithms
//! consume, plus the ghost machinery for walks in a functional graph
//! (each node points to at most one other node), which is the shape of
//! the predecessor and successor maps the cycle finders maintain.

use vstd::prelude::*;

verus! {

/// A directed graph over nodes `0 .. num_nodes`, with edges labelled by
/// ids `0 .. num_edges`.  `adj[u]` lists the pairs `(v, e)`: an edge
/// labelled `e` from `u` to `v`.  Edge ids are handed out sequentially
/// by `add_edge`, so each id labels exactly one arc, and at most one
/// edge exists per ordered `(source, target)` pair.
#[derive(Debug)]
pub struct DiGraph {
    num_nodes: usize,
    num_edges: usize,
    adj: Vec<Vec<(usize, usize)>>,
}

impl DiGraph {
    /// Number of nodes, as a ghost integer.
    pub closed spec fn nodes(&self) -> int {
        self.num_nodes as int
    }

    /// Number of edges, as a ghost integer.
    pub closed spec fn edges(&self) -> int {
        self.num_edges as int
    }

    /// The adjacency view: for each node, its list of `(target, edge)`
    /// pairs.
    pub closed spec fn adjacency(&self) -> Seq<Seq<(usize, usize)>> {
        self.adj@.map_values(|row: Vec<(usize, usize)>| row@)
    }

    /// Well-formedness: one adjacency row per node; every listed pair
    /// names a node and an edge id in range; no node lists the same
    /// target twice (at most one edge per ordered pair).
    pub open spec fn wf(&self) -> bool {
        &&& self.adjacency().len() == self.nodes()
        &&& self.nodes() < usize::MAX
        &&& self.edges() < usize::MAX
        &&& forall|u: int, j: int|
            0 <= u < self.nodes() && 0 <= j < self.adjacency()[u].len()
                ==> (#[trigger] self.adjacency()[u][j]).0 < self.nodes()
                && self.adjacency()[u][j].1 < self.edges()
        &&& forall|u: int, j1: int, j2: int|
            0 <= u < self.nodes() && 0 <= j1 < self.adjacency()[u].len() && 0 <= j2
                < self.adjacency()[u].len() && j1 != j2
                ==> (#[trigger] self.adjacency()[u][j1]).0 != (#[trigger] self.adjacency()[u][j2]).0
    }

    /// Whether the graph has an edge labelled `e` from `u` to `v`.
    pub open spec fn has_edge(&self, u: int, v: int, e: int) -> bool {
        &&& 0 <= u < self.nodes()
        &&& exists|j: int|
            0 <= j < self.adjacency()[u].len() && (#[trigger] self.adjacency()[u][j]).0 == v
                && self.adjacency()[u][j].1 == e
    }

    /// An empty graph over `num_nodes` nodes.
    pub fn new(num_nodes: usize) -> (r: Self)
        requires
            num_nodes < usize::MAX,
        ensures
            r.wf(),
            r.nodes() == num_nodes,
            r.edges() == 0,
            forall|u: int| 0 <= u < num_nodes ==> (#[trigger] r.adjacency()[u]).len() == 0,
    {
        let mut adj: Vec<Vec<(usize, usize)>> = Vec::new();
        let mut i: usize = 0;
        while i < num_nodes
            invariant
                i <= num_nodes,
                adj@.len() == i,
                forall|u: int| 0 <= u < i ==> (#[trigger] adj@[u])@.len() == 0,
            decreases num_nodes - i,
        {
            adj.push(Vec::new());
            i += 1;
        }
        DiGraph { num_nodes, num_edges: 0, adj }
    }

    /// Number of nodes.
    pub fn num_nodes(&self) -> (r: usize)
        ensures
            r == self.nodes(),
    {
        self.num_nodes
    }

    /// Number of edges.
    pub fn num_edges(&self) -> (r: usize)
        ensures
            r == self.edges(),
    {
        self.num_edges
    }

    /// Number of outgoing edges of `u`.
    pub fn out_degree(&self, u: usize) -> (r: usize)
        requires
            self.wf(),
            u < self.nodes(),
        ensures
            r == self.adjacency()[u as int].len(),
    {
        self.adj[u].len()
    }

    /// The `j`-th outgoing `(target, edge)` pair of `u`.
    pub fn out_edge(&self, u: usize, j: usize) -> (r: (usize, usize))
        requires
            self.wf(),
            u < self.nodes(),
            j < self.adjacency()[u as int].len(),
        ensures
            r == self.adjacency()[u as int][j as int],
            r.0 < self.nodes(),
            r.1 < self.edges(),
    {
        self.adj[u][j]
    }

    /// Add an edge from `u` to `v` and return its id (edge ids count up
    /// from zero in insertion order).  The pair `(u, v)` must not carry
    /// an edge yet: the adjacency view holds at most one edge per
    /// ordered pair.
    pub fn add_edge(&mut self, u: usize, v: usize) -> (r: usize)
        requires
            old(self).wf(),
            u < old(self).nodes(),
            v < old(self).nodes(),
            old(self).edges() + 1 < usize::MAX,
            forall|e: int| !old(self).has_edge(u as int, v as int, e),
        ensures
            final(self).wf(),
            final(self).nodes() == old(self).nodes(),
            final(self).edges() == old(self).edges() + 1,
            r == old(self).edges(),
            final(self).adjacency() == old(self).adjacency().update(
                u as int,
                old(self).adjacency()[u as int].push((v, r)),
            ),
            final(self).has_edge(u as int, v as int, r as int),
    {
        let e = self.num_edges;
        let ghost old_adjacency = self.adjacency();
        let row = &mut self.adj[u];
        row.push((v, e));
        self.num_edges = e + 1;
        proof {
            assert(self.adjacency() =~= old_adjacency.update(
                u as int,
                old_adjacency[u as int].push((v, e)),
            ));
            let row_new = self.adjacency()[u as int];
            assert(row_new[row_new.len() - 1] == (v, e));
            assert forall|j1: int, j2: int|
                0 <= j1 < row_new.len() && 0 <= j2 < row_new.len() && j1 != j2 implies (
            row_new[j1]).0 != (row_new[j2]).0 by {
                if j1 < row_new.len() - 1 && j2 < row_new.len() - 1 {
                } else {
                    let jo = if j1 < row_new.len() - 1 {
                        j1
                    } else {
                        j2
                    };
                    assert(old(self).has_edge(u as int, v as int, old_adjacency[u as int][jo].1 as int)
                        || (old_adjacency[u as int][jo]).0 != v);
                }
            }
        }
        e
    }
}

/// A link map: for each node, at most one pointer to another node,
/// together with the edge that justified the pointer.  Both the
/// predecessor and the successor maps of the cycle finders have this
/// shape; a walk follows the pointers.
pub type Links = Seq<Option<(usize, usize)>>;

/// The node `k` pointer-steps away from `v` (meaningful only when
/// `steps_ok` holds for the same `k`).
pub open spec fn step_at(links: Links, v: int, k: nat) -> int
    decreases k,
{
    if k == 0 {
        v
    } else {
        match links[v] {
            Some(p) => step_at(links, p.0 as int, (k - 1) as nat),
            None => v,
        }
    }
}

/// Whether a walk of `k` pointer steps from `v` stays inside the map
/// and never hits a node without a pointer.
pub open spec fn steps_ok(links: Links, v: int, k: nat) -> bool
    decreases k,
{
    if k == 0 {
        0 <= v < links.len()
    } else {
        &&& 0 <= v < links.len()
        &&& match links[v] {
            Some(p) => steps_ok(links, p.0 as int, (k - 1) as nat),
            None => false,
        }
    }
}

/// The edge recorded at `v` (meaningful only when `v` has a pointer).
pub open spec fn link_edge(links: Links, v: int) -> int {
    match links[v] {
        Some(p) => p.1 as int,
        None => 0,
    }
}

/// Whether `v` lies on a cycle of the link map: some positive number of
/// steps, at most one per node of the map, leads from `v` back to `v`.
pub open spec fn on_cycle(links: Links, v: int) -> bool {
    exists|k: int|
        1 <= k <= links.len() && #[trigger] steps_ok(links, v, k as nat) && step_at(
            links,
            v,
            k as nat,
        ) == v
}

/// `L` is the length of the cycle through `v`: the least positive
/// number of steps from `v` back to `v`.
pub open spec fn is_least_period(links: Links, v: int, l: int) -> bool {
    &&& 1 <= l
    &&& steps_ok(links, v, l as nat)
    &&& step_at(links, v, l as nat) == v
    &&& forall|j: int| 1 <= j < l ==> #[trigger] step_at(links, v, j as nat) != v
}

/// A walk decomposes: after `i` of `k` valid steps the remaining walk
/// is valid and ends at the same node.
pub proof fn lemma_steps_decompose(links: Links, v: int, k: nat, i: nat)
    requires
        steps_ok(links, v, k),
        i <= k,
    ensures
        steps_ok(links, v, i),
        steps_ok(links, step_at(links, v, i), (k - i) as nat),
        step_at(links, v, k) == step_at(links, step_at(links, v, i), (k - i) as nat),
    decreases i,
{
    if i > 0 {
        match links[v] {
            Some(p) => {
                lemma_steps_decompose(links, p.0 as int, (k - 1) as nat, (i - 1) as nat);
            },
            None => {},
        }
    }
}

/// Concatenating two valid walks gives a valid walk.
pub proof fn lemma_steps_concat(links: Links, v: int, i: nat, j: nat)
    requires
        steps_ok(links, v, i),
        steps_ok(links, step_at(links, v, i), j),
    ensures
        steps_ok(links, v, (i + j) as nat),
        step_at(links, v, (i + j) as nat) == step_at(links, step_at(links, v, i), j),
    decreases i,
{
    if i > 0 {
        match links[v] {
            Some(p) => {
                lemma_steps_concat(links, p.0 as int, (i - 1) as nat, j);
            },
            None => {},
        }
    }
}

/// Some returned entry node is reachable from `v` by pointer steps: the
/// cycle through `v` has a representative in the result.
pub open spec fn cycle_represented(links: Links, v: int, result: Seq<usize>) -> bool {
    exists|i: int, k: int|
        #![trigger result[i], step_at(links, v, k as nat)]
        0 <= i < result.len() && 0 <= k && steps_ok(links, v, k as nat) && step_at(
            links,
            v,
            k as nat,
        ) == result[i] as int
}

/// Every node a cycle node reaches is itself on a cycle: the walk wraps
/// around the same cycle.
pub proof fn lemma_on_cycle_iterate(links: Links, x: int, k: nat, y: int)
    requires
        on_cycle(links, x),
        steps_ok(links, x, k),
        step_at(links, x, k) == y,
    ensures
        on_cycle(links, y),
{
    let l = choose|l: int|
        1 <= l <= links.len() && #[trigger] steps_ok(links, x, l as nat) && step_at(
            links,
            x,
            l as nat,
        ) == x;
    lemma_steps_concat(links, x, l as nat, k);
    lemma_steps_decompose(links, x, (l + k) as nat, k);
    assert(steps_ok(links, y, l as nat));
    assert(step_at(links, y, l as nat) == y);
}

/// `y` is reachable from `x` by pointer steps (zero steps included).
pub open spec fn reaches(links: Links, x: int, y: int) -> bool {
    exists|k: int|
        0 <= k && #[trigger] steps_ok(links, x, k as nat) && step_at(links, x, k as nat) == y
}

/// Going around a cycle any number of times comes back to its start.
pub proof fn lemma_cycle_pump(links: Links, x: int, l: int, c: nat)
    requires
        1 <= l,
        steps_ok(links, x, l as nat),
        step_at(links, x, l as nat) == x,
    ensures
        steps_ok(links, x, (c * l) as nat),
        step_at(links, x, (c * l) as nat) == x,
    decreases c,
{
    if c == 0 {
        assert(c * l == 0);
    } else {
        lemma_cycle_pump(links, x, l, (c - 1) as nat);
        lemma_steps_concat(links, x, l as nat, ((c - 1) * l) as nat);
        assert(l + (c - 1) * l == c * l) by (nonlinear_arith);
    }
}

/// On a cycle, reachability is symmetric: whatever a cycle node
/// reaches can walk on around the cycle back to it.
pub proof fn lemma_reach_on_cycle_symmetric(links: Links, x: int, y: int)
    requires
        on_cycle(links, x),
        reaches(links, x, y),
    ensures
        reaches(links, y, x),
{
    let k = choose|k: int|
        0 <= k && #[trigger] steps_ok(links, x, k as nat) && step_at(links, x, k as nat) == y;
    if k == 0 {
        assert(steps_ok(links, y, 0nat) && step_at(links, y, 0nat) == x);
    } else {
        let l = choose|l: int|
            1 <= l <= links.len() && #[trigger] steps_ok(links, x, l as nat) && step_at(
                links,
                x,
                l as nat,
            ) == x;
        lemma_cycle_pump(links, x, l, k as nat);
        assert(k * l >= k) by (nonlinear_arith)
            requires
                k >= 1,
                l >= 1,
        ;
        lemma_steps_decompose(links, x, (k * l) as nat, k as nat);
        assert(steps_ok(links, y, (k * l - k) as nat));
        assert(step_at(links, y, (k * l - k) as nat) == x);
    }
}

/// Appending to the result keeps every representation.
pub proof fn lemma_represented_push(links: Links, v: int, result: Seq<usize>, e: usize)
    requires
        cycle_represented(links, v, result),
    ensures
        cycle_represented(links, v, result.push(e)),
{
    let (i, k) = choose|i: int, k: int|
        #![trigger result[i], step_at(links, v, k as nat)]
        0 <= i < result.len() && 0 <= k && steps_ok(links, v, k as nat) && step_at(
            links,
            v,
            k as nat,
        ) == result[i] as int;
    assert(result.push(e)[i] == result[i]);
    assert(step_at(links, v, k as nat) == result.push(e)[i] as int);
}

/// A node that reaches a represented node is itself represented.
pub proof fn lemma_represented_from(links: Links, x: int, y: int, k1: nat, result: Seq<usize>)
    requires
        steps_ok(links, x, k1),
        step_at(links, x, k1) == y,
        cycle_represented(links, y, result),
    ensures
        cycle_represented(links, x, result),
{
    let (i, k2) = choose|i: int, k2: int|
        #![trigger result[i], step_at(links, y, k2 as nat)]
        0 <= i < result.len() && 0 <= k2 && steps_ok(links, y, k2 as nat) && step_at(
            links,
            y,
            k2 as nat,
        ) == result[i] as int;
    lemma_steps_concat(links, x, k1, k2 as nat);
    assert(steps_ok(links, x, (k1 + k2) as nat));
    assert(step_at(links, x, (k1 + k2) as nat) == result[i] as int);
}

/// How many nodes of a tag map are still untagged.
pub open spec fn count_none_from(s: Seq<Option<usize>>, i: int) -> int
    decreases s.len() - i,
{
    if i < 0 || i >= s.len() {
        0
    } else {
        (if s[i] is None {
            1int
        } else {
            0int
        }) + count_none_from(s, i + 1)
    }
}

/// How many nodes of a tag map are still untagged.
pub open spec fn count_none(s: Seq<Option<usize>>) -> int {
    count_none_from(s, 0)
}

/// Tagging an untagged node lowers the untagged count by one.
pub proof fn lemma_count_none_update(s: Seq<Option<usize>>, i: int, v: usize, j: int)
    requires
        0 <= i < s.len(),
        s[i] is None,
    ensures
        count_none_from(s.update(i, Some(v)), j) == count_none_from(s, j) - (if 0 <= j <= i {
            1int
        } else {
            0int
        }),
    decreases s.len() - j,
{
    if 0 <= j < s.len() {
        lemma_count_none_update(s, i, v, j + 1);
    }
}

/// The untagged count never falls below zero.
pub proof fn lemma_count_none_nonneg(s: Seq<Option<usize>>, j: int)
    ensures
        count_none_from(s, j) >= 0,
    decreases s.len() - j,
{
    if 0 <= j < s.len() {
        lemma_count_none_nonneg(s, j + 1);
    }
}

/// The untagged count is at most the map's length.
pub proof fn lemma_count_none_bound(s: Seq<Option<usize>>, j: int)
    requires
        0 <= j <= s.len(),
    ensures
        count_none_from(s, j) <= s.len() - j,
    decreases s.len() - j,
{
    if 0 <= j < s.len() {
        lemma_count_none_bound(s, j + 1);
    }
}

/// A chain of nodes each of which points to the next is a valid walk of
/// the link map from any of its positions to its last node.
pub proof fn lemma_path_steps(links: Links, path: Seq<int>, i: int)
    requires
        0 <= i < path.len(),
        forall|idx: int| 0 <= idx < path.len() ==> 0 <= #[trigger] path[idx] < links.len(),
        forall|idx: int|
            0 <= idx < path.len() - 1 ==> match links[#[trigger] path[idx]] {
                Some(p) => p.0 as int == path[idx + 1],
                None => false,
            },
    ensures
        steps_ok(links, path[i], (path.len() - 1 - i) as nat),
        step_at(links, path[i], (path.len() - 1 - i) as nat) == path[path.len() - 1],
    decreases path.len() - i,
{
    if i < path.len() - 1 {
        lemma_path_steps(links, path, i + 1);
    }
}

/// A fresh tag map: one `None` per node.
pub fn new_tags(n: usize) -> (r: Vec<Option<usize>>)
    ensures
        r@.len() == n,
        forall|v: int| 0 <= v < n ==> (#[trigger] r@[v]) is None,
{
    let mut tags: Vec<Option<usize>> = Vec::new();
    let mut i: usize = 0;
    while i < n
        invariant
            i <= n,
            tags@.len() == i,
            forall|v: int| 0 <= v < i ==> (#[trigger] tags@[v]) is None,
        decreases n - i,
    {
        tags.push(None);
        i += 1;
    }
    tags
}

/// A fresh link map: one `None` per node.
pub fn new_links(n: usize) -> (r: Vec<Option<(usize, usize)>>)
    ensures
        r@.len() == n,
        forall|v: int| 0 <= v < n ==> (#[trigger] r@[v]) is None,
{
    let mut links: Vec<Option<(usize, usize)>> = Vec::new();
    let mut i: usize = 0;
    while i < n
        invariant
            i <= n,
            links@.len() == i,
            forall|v: int| 0 <= v < i ==> (#[trigger] links@[v]) is None,
        decreases n - i,
    {
        links.push(None);
        i += 1;
    }
    links
}

} // verus!
