//! Traversals over a snapshot of the stored graph: neighbourhoods in
//! breadth-first order, the breadth-first shortest path, all simple paths up
//! to a length, the edges among a set of nodes, and common neighbours.
//!
//! Nodes are numbered `0..n`. For each node the snapshot lists the edges that
//! touch it and the edges that leave it, in the order the store returns them;
//! a traversal walks an edge from one end to the other whichever its
//! direction.

use vstd::prelude::*;

use crate::graph::NeighborOptions;
use crate::text::str_eq;

verus! {

/// An edge as the traversals read it.
#[derive(Debug, Clone)]
pub struct EdgeView {
    pub id: String,
    pub source: usize,
    pub target: usize,
    pub edge_type: String,
}

/// The stored graph as the traversals read it.
#[derive(Debug, Clone)]
pub struct GraphView {
    /// Node ids, by number
    pub ids: Vec<String>,
    /// For each node, the edges that touch it, either direction
    pub incident: Vec<Vec<EdgeView>>,
    /// For each node, the edges that leave it
    pub outgoing: Vec<Vec<EdgeView>>,
}

/// A path through the graph
#[derive(Debug, Clone)]
pub struct GraphPath {
    /// Ordered list of node IDs from start to end
    pub nodes: Vec<String>,
    /// Edge IDs connecting the nodes
    pub edges: Vec<String>,
    /// Total path length (number of edges)
    pub length: usize,
}

// =============================================================================
// Specification
// =============================================================================

impl GraphView {
    /// Every list covers every node and every edge joins two nodes.
    pub open spec fn wf(&self) -> bool {
        &&& self.incident@.len() == self.ids@.len()
        &&& self.outgoing@.len() == self.ids@.len()
        &&& forall|u: int| 0 <= u < self.incident@.len() ==> (#[trigger] self.incident@[u])@.len() <= usize::MAX
        &&& forall|u: int, j: int|
            0 <= u < self.incident@.len() && 0 <= j < self.incident@[u]@.len() ==> {
                let e = #[trigger] self.incident@[u]@[j];
                e.source < self.ids@.len() && e.target < self.ids@.len()
            }
        &&& forall|u: int, j: int|
            0 <= u < self.outgoing@.len() && 0 <= j < self.outgoing@[u]@.len() ==> {
                let e = #[trigger] self.outgoing@[u]@[j];
                e.source < self.ids@.len() && e.target < self.ids@.len()
            }
    }

    /// The edges touching node `u`.
    pub open spec fn edges_at(&self, u: usize) -> Seq<EdgeView> {
        if u < self.incident@.len() {
            self.incident@[u as int]@
        } else {
            seq![]
        }
    }
}

/// The end of `e` that is not `u` (the target when `u` is the source).
pub open spec fn other_end(e: EdgeView, u: usize) -> usize {
    if e.source == u {
        e.target
    } else {
        e.source
    }
}

/// An edge may be walked under a type filter: the filter is empty or names
/// the edge's type.
pub open spec fn type_ok(e: EdgeView, types: Seq<String>) -> bool {
    types.len() == 0 || exists|i: int| 0 <= i < types.len() && (#[trigger] types[i])@ == e.edge_type@
}

/// A step of a search: (node reached, node it was reached from, position of
/// the edge among those touching that node).
pub type Step = (usize, usize, usize);

/// The steps out of `u` over its first `k` edges, in order.
pub open spec fn steps_from(g: GraphView, types: Seq<String>, u: usize, k: int) -> Seq<Step>
    decreases k,
{
    if k <= 0 || k > g.edges_at(u).len() {
        seq![]
    } else {
        let r = steps_from(g, types, u, k - 1);
        let e = g.edges_at(u)[k - 1];
        if type_ok(e, types) {
            r.push((other_end(e, u), u, (k - 1) as usize))
        } else {
            r
        }
    }
}

/// The steps out of the nodes of `f`, node by node.
pub open spec fn steps_of(g: GraphView, types: Seq<String>, f: Seq<usize>) -> Seq<Step>
    decreases f.len(),
{
    if f.len() == 0 {
        seq![]
    } else {
        steps_of(g, types, f.drop_last()) + steps_from(
            g,
            types,
            f.last(),
            g.edges_at(f.last()).len() as int,
        )
    }
}

/// Some step of `r` reaches `v`.
pub open spec fn reaches(r: Seq<Step>, v: usize) -> bool {
    exists|i: int| 0 <= i < r.len() && (#[trigger] r[i]).0 == v
}

/// The first step to each node outside `seen`, in order.
pub open spec fn fresh(c: Seq<Step>, seen: Set<usize>) -> Seq<Step>
    decreases c.len(),
{
    if c.len() == 0 {
        seq![]
    } else {
        let r = fresh(c.drop_last(), seen);
        let x = c.last();
        if seen.contains(x.0) || reaches(r, x.0) {
            r
        } else {
            r.push(x)
        }
    }
}

/// The set of nodes the steps reach.
pub open spec fn node_set(r: Seq<Step>) -> Set<usize> {
    Set::new(|v: usize| reaches(r, v))
}

/// The nodes the steps reach.
pub open spec fn step_nodes(r: Seq<Step>) -> Seq<usize> {
    Seq::new(r.len(), |i: int| r[i].0)
}

/// The breadth-first level `d` from `s` (the steps that first reach nodes at
/// distance `d`), with the nodes seen up to it.
pub open spec fn bfs_level(g: GraphView, types: Seq<String>, s: usize, d: nat) -> (Seq<Step>, Set<usize>)
    decreases d,
{
    if d == 0 {
        (seq![(s, s, 0usize)], set![s])
    } else {
        let (prev, seen) = bfs_level(g, types, s, (d - 1) as nat);
        let next = fresh(steps_of(g, types, step_nodes(prev)), seen);
        (next, seen + node_set(next))
    }
}

/// The nodes of levels `1..=d`, level by level.
pub open spec fn bfs_upto(g: GraphView, types: Seq<String>, s: usize, d: nat) -> Seq<usize>
    decreases d,
{
    if d == 0 {
        seq![]
    } else {
        bfs_upto(g, types, s, (d - 1) as nat) + step_nodes(bfs_level(g, types, s, d).0)
    }
}

/// The depth a neighbour query searches to: 0 is taken as 1.
pub open spec fn search_depth(depth: usize) -> nat {
    if depth == 0 {
        1
    } else {
        depth as nat
    }
}

/// How many entries of `vis` are unmarked.
pub open spec fn unmarked_count(vis: Seq<bool>) -> nat
    decreases vis.len(),
{
    if vis.len() == 0 {
        0
    } else {
        unmarked_count(vis.drop_last()) + if vis.last() {
            0nat
        } else {
            1nat
        }
    }
}

pub(crate) proof fn lemma_unmarked_set(vis: Seq<bool>, i: int)
    requires
        0 <= i < vis.len(),
        !vis[i],
    ensures
        unmarked_count(vis.update(i, true)) + 1 == unmarked_count(vis),
    decreases vis.len(),
{
    let w = vis.update(i, true);
    if i < vis.len() - 1 {
        lemma_unmarked_set(vis.drop_last(), i);
        assert(w.drop_last() =~= vis.drop_last().update(i, true));
    } else {
        assert(w.drop_last() =~= vis.drop_last());
    }
}

/// The nodes marked in `vis`.
pub open spec fn marked(vis: Seq<bool>) -> Set<usize> {
    Set::new(|v: usize| v < vis.len() && vis[v as int])
}

// =============================================================================
// Breadth-first search
// =============================================================================

fn type_allowed(e: &EdgeView, types: &Vec<String>) -> (b: bool)
    ensures
        b == type_ok(*e, types@),
{
    if types.len() == 0 {
        return true;
    }
    let mut i: usize = 0;
    while i < types.len()
        invariant
            i <= types@.len(),
            forall|k: int| 0 <= k < i ==> (#[trigger] types@[k])@ != e.edge_type@,
        decreases types@.len() - i,
    {
        if str_eq(types[i].as_str(), e.edge_type.as_str()) {
            return true;
        }
        i = i + 1;
    }
    false
}

proof fn lemma_node_set_push(r: Seq<Step>, x: Step)
    ensures
        node_set(r.push(x)) == node_set(r).insert(x.0),
{
    assert forall|v: usize| #[trigger] reaches(r.push(x), v) == (reaches(r, v) || v == x.0) by {
        if reaches(r.push(x), v) {
            let i = choose|i: int| 0 <= i < r.push(x).len() && (#[trigger] r.push(x)[i]).0 == v;
            if i < r.len() {
                assert(r[i] == r.push(x)[i]);
            }
        }
        if reaches(r, v) {
            let i = choose|i: int| 0 <= i < r.len() && (#[trigger] r[i]).0 == v;
            assert(r.push(x)[i] == r[i]);
        }
        if v == x.0 {
            assert(r.push(x)[r.len() as int] == x);
        }
    }
    assert(node_set(r.push(x)) =~= node_set(r).insert(x.0));
}

/// One level of the search: the first steps from `frontier` to nodes not yet
/// marked, which it marks.
fn expand(g: &GraphView, types: &Vec<String>, frontier: &Vec<usize>, visited: &mut Vec<bool>) -> (next:
    Vec<Step>)
    requires
        g.wf(),
        old(visited)@.len() == g.ids@.len(),
        forall|k: int| 0 <= k < frontier@.len() ==> (#[trigger] frontier@[k]) < g.ids@.len(),
    ensures
        next@ == fresh(steps_of(*g, types@, frontier@), marked(old(visited)@)),
        final(visited)@.len() == old(visited)@.len(),
        marked(final(visited)@) == marked(old(visited)@) + node_set(next@),
        unmarked_count(final(visited)@) + next@.len() == unmarked_count(old(visited)@),
{
    let ghost seen0 = marked(visited@);
    let ghost free0 = unmarked_count(visited@);
    let ghost ts = types@;
    let n = visited.len();
    let mut next: Vec<Step> = Vec::new();
    let mut i: usize = 0;
    proof {
        assert(frontier@.take(0) =~= seq![]);
        assert(node_set(next@) =~= Set::empty());
        assert(marked(visited@) =~= seen0 + node_set(next@));
    }
    while i < frontier.len()
        invariant
            g.wf(),
            n == g.ids@.len(),
            visited@.len() == n,
            ts == types@,
            i <= frontier@.len(),
            forall|k: int| 0 <= k < frontier@.len() ==> (#[trigger] frontier@[k]) < g.ids@.len(),
            next@ == fresh(steps_of(*g, ts, frontier@.take(i as int)), seen0),
            marked(visited@) == seen0 + node_set(next@),
            unmarked_count(visited@) + next@.len() == free0,
        decreases frontier@.len() - i,
    {
        let u = frontier[i];
        let edges = &g.incident[u];
        let ghost a = steps_of(*g, ts, frontier@.take(i as int));
        let mut j: usize = 0;
        proof {
            assert(a + steps_from(*g, ts, u, 0) =~= a);
        }
        while j < edges.len()
            invariant
                g.wf(),
                n == g.ids@.len(),
                visited@.len() == n,
                ts == types@,
                u < g.ids@.len(),
                *edges == g.incident@[u as int],
                j <= edges@.len(),
                next@ == fresh(a + steps_from(*g, ts, u, j as int), seen0),
                marked(visited@) == seen0 + node_set(next@),
                unmarked_count(visited@) + next@.len() == free0,
            decreases edges@.len() - j,
        {
            let e = &edges[j];
            let ghost c = a + steps_from(*g, ts, u, j as int);
            if type_allowed(e, types) {
                let v = if e.source == u {
                    e.target
                } else {
                    e.source
                };
                assert(v < n) by {
                    assert(g.incident@[u as int]@[j as int] == *e);
                }
                let ghost x: Step = (v, u, j);
                proof {
                    assert(c.push(x).drop_last() =~= c);
                    assert(a + steps_from(*g, ts, u, j + 1) =~= c.push(x));
                }
                assert(marked(visited@).contains(v) == visited@[v as int]);
                if !visited[v] {
                    let ghost before = next@;
                    let ghost vis0 = visited@;
                    visited.set(v, true);
                    next.push((v, u, j));
                    proof {
                        lemma_unmarked_set(vis0, v as int);
                        assert(!reaches(before, v));
                        assert(fresh(c.push(x), seen0) == before.push(x));
                        lemma_node_set_push(before, x);
                        assert(marked(visited@) =~= marked(vis0).insert(v));
                        assert(marked(visited@) =~= seen0 + node_set(next@));
                    }
                } else {
                    assert(seen0.contains(v) || reaches(next@, v));
                    assert(fresh(c.push(x), seen0) == next@);
                }
            } else {
                proof {
                    assert(a + steps_from(*g, ts, u, j + 1) =~= c);
                }
            }
            j = j + 1;
        }
        proof {
            let t = frontier@.take(i + 1);
            assert(t.drop_last() =~= frontier@.take(i as int));
            assert(t.last() == u);
        }
        i = i + 1;
    }
    proof {
        assert(frontier@.take(frontier@.len() as int) =~= frontier@);
    }
    next
}

proof fn lemma_fresh_from(c: Seq<Step>, seen: Set<usize>)
    ensures
        forall|k: int| 0 <= k < fresh(c, seen).len() ==> c.contains(#[trigger] fresh(c, seen)[k]),
        forall|k: int| 0 <= k < fresh(c, seen).len() ==> !seen.contains(#[trigger] fresh(c, seen)[k].0),
    decreases c.len(),
{
    if c.len() > 0 {
        lemma_fresh_from(c.drop_last(), seen);
        let r = fresh(c.drop_last(), seen);
        assert forall|k: int| 0 <= k < r.len() implies c.contains(#[trigger] r[k]) by {
            let i = choose|i: int| 0 <= i < c.drop_last().len() && c.drop_last()[i] == r[k];
            assert(c[i] == c.drop_last()[i]);
        }
        if !(seen.contains(c.last().0) || reaches(r, c.last().0)) {
            let out = r.push(c.last());
            assert forall|k: int| 0 <= k < out.len() implies c.contains(#[trigger] out[k]) by {
                if k < r.len() {
                    assert(out[k] == r[k]);
                } else {
                    assert(c[c.len() - 1] == out[k]);
                }
            }
        }
    }
}

proof fn lemma_steps_from_bounds(g: GraphView, types: Seq<String>, u: usize, k: int)
    requires
        g.wf(),
        u < g.ids@.len(),
    ensures
        forall|i: int|
            0 <= i < steps_from(g, types, u, k).len() ==> (#[trigger] steps_from(g, types, u, k)[i]).0
                < g.ids@.len(),
    decreases k,
{
    if 0 < k <= g.edges_at(u).len() {
        lemma_steps_from_bounds(g, types, u, k - 1);
        let e = g.edges_at(u)[k - 1];
        assert(e == g.incident@[u as int]@[k - 1]);
        let r = steps_from(g, types, u, k - 1);
        if type_ok(e, types) {
            assert forall|i: int| 0 <= i < r.push((other_end(e, u), u, (k - 1) as usize)).len() implies (
            #[trigger] r.push((other_end(e, u), u, (k - 1) as usize))[i]).0 < g.ids@.len() by {
                if i < r.len() {
                    assert(r.push((other_end(e, u), u, (k - 1) as usize))[i] == r[i]);
                }
            }
        }
    }
}

proof fn lemma_steps_of_bounds(g: GraphView, types: Seq<String>, f: Seq<usize>)
    requires
        g.wf(),
        forall|k: int| 0 <= k < f.len() ==> (#[trigger] f[k]) < g.ids@.len(),
    ensures
        forall|i: int| 0 <= i < steps_of(g, types, f).len() ==> (#[trigger] steps_of(g, types, f)[i]).0 < g.ids@.len(),
    decreases f.len(),
{
    if f.len() > 0 {
        assert forall|k: int| 0 <= k < f.drop_last().len() implies (#[trigger] f.drop_last()[k]) < g.ids@.len() by {
            assert(f.drop_last()[k] == f[k]);
        }
        lemma_steps_of_bounds(g, types, f.drop_last());
        assert(f.last() == f[f.len() - 1]);
        lemma_steps_from_bounds(g, types, f.last(), g.edges_at(f.last()).len() as int);
        let a = steps_of(g, types, f.drop_last());
        let b = steps_from(g, types, f.last(), g.edges_at(f.last()).len() as int);
        assert forall|i: int| 0 <= i < (a + b).len() implies (#[trigger] (a + b)[i]).0 < g.ids@.len() by {
            if i < a.len() {
                assert((a + b)[i] == a[i]);
            } else {
                assert((a + b)[i] == b[i - a.len()]);
            }
        }
    }
}

/// Every node a level reaches is a node of the graph.
proof fn lemma_level_bounds(g: GraphView, types: Seq<String>, s: usize, d: nat)
    requires
        g.wf(),
        s < g.ids@.len(),
    ensures
        forall|k: int|
            0 <= k < bfs_level(g, types, s, d).0.len() ==> (#[trigger] bfs_level(g, types, s, d).0[k]).0
                < g.ids@.len(),
    decreases d,
{
    if d > 0 {
        lemma_level_bounds(g, types, s, (d - 1) as nat);
        let (prev, seen) = bfs_level(g, types, s, (d - 1) as nat);
        let f = step_nodes(prev);
        assert forall|k: int| 0 <= k < f.len() implies (#[trigger] f[k]) < g.ids@.len() by {
            assert(f[k] == prev[k].0);
        }
        lemma_steps_of_bounds(g, types, f);
        let c = steps_of(g, types, f);
        lemma_fresh_from(c, seen);
        let next = fresh(c, seen);
        assert forall|k: int| 0 <= k < next.len() implies (#[trigger] next[k]).0 < g.ids@.len() by {
            let i = choose|i: int| 0 <= i < c.len() && c[i] == next[k];
        }
    }
}

/// Once a level is empty every later one is, and the search stops growing.
proof fn lemma_empty_level(g: GraphView, types: Seq<String>, s: usize, d: nat, d2: nat)
    requires
        bfs_level(g, types, s, d).0.len() == 0,
        d <= d2,
    ensures
        bfs_level(g, types, s, d2).0.len() == 0,
        bfs_level(g, types, s, d2).1 == bfs_level(g, types, s, d).1,
        bfs_upto(g, types, s, d2) == bfs_upto(g, types, s, d),
    decreases d2 - d,
{
    if d < d2 {
        lemma_empty_level(g, types, s, d, (d2 - 1) as nat);
        let (prev, seen) = bfs_level(g, types, s, (d2 - 1) as nat);
        assert(step_nodes(prev) =~= seq![]);
        assert(steps_of(g, types, step_nodes(prev)) =~= seq![]);
        assert(node_set(seq![]) =~= Set::<usize>::empty());
        assert(seen + Set::<usize>::empty() =~= seen);
        assert(step_nodes(bfs_level(g, types, s, d2).0) =~= seq![]);
        assert(bfs_upto(g, types, s, d2) =~= bfs_upto(g, types, s, (d2 - 1) as nat));
    }
}

/// Every edge of every list joins two of `n` nodes.
pub open spec fn lists_within(lists: Seq<Vec<EdgeView>>, n: int) -> bool {
    forall|u: int, j: int|
        0 <= u < lists.len() && 0 <= j < lists[u]@.len() ==> {
            let e = #[trigger] lists[u]@[j];
            e.source < n && e.target < n
        }
}

fn list_within(list: &Vec<EdgeView>, n: usize) -> (b: bool)
    ensures
        b == forall|j: int| 0 <= j < list@.len() ==> (#[trigger] list@[j]).source < n && list@[j].target < n,
{
    let mut j: usize = 0;
    while j < list.len()
        invariant
            j <= list@.len(),
            forall|q: int| 0 <= q < j ==> (#[trigger] list@[q]).source < n && list@[q].target < n,
        decreases list@.len() - j,
    {
        if list[j].source >= n || list[j].target >= n {
            return false;
        }
        j = j + 1;
    }
    true
}

fn lists_all_within(lists: &Vec<Vec<EdgeView>>, n: usize) -> (b: bool)
    ensures
        b == lists_within(lists@, n as int),
{
    let mut u: usize = 0;
    while u < lists.len()
        invariant
            u <= lists@.len(),
            lists_within(lists@.take(u as int), n as int),
        decreases lists@.len() - u,
    {
        if !list_within(&lists[u], n) {
            proof {
                let bad = lists@[u as int];
                let j = choose|j: int| 0 <= j < bad@.len() && !(bad@[j].source < n && bad@[j].target < n);
                assert(lists@[u as int]@[j] == bad@[j]);
            }
            return false;
        }
        proof {
            let t = lists@.take(u + 1);
            assert forall|a: int, j: int| 0 <= a < t.len() && 0 <= j < t[a]@.len() implies {
                let e = #[trigger] t[a]@[j];
                e.source < n && e.target < n
            } by {
                if a < u {
                    assert(t[a] == lists@.take(u as int)[a]);
                } else {
                    assert(t[a] == lists@[u as int]);
                }
            }
        }
        u = u + 1;
    }
    assert(lists@.take(lists@.len() as int) =~= lists@);
    true
}

impl GraphView {
    /// A snapshot from node ids and, per node, the edges touching it and the
    /// edges leaving it; `None` unless it is well formed (a list per node,
    /// every edge between two of the nodes).
    pub fn checked(ids: Vec<String>, incident: Vec<Vec<EdgeView>>, outgoing: Vec<Vec<EdgeView>>) -> (r:
        Option<GraphView>)
        ensures
            r is Some <==> (incident@.len() == ids@.len() && outgoing@.len() == ids@.len()
                && lists_within(incident@, ids@.len() as int) && lists_within(outgoing@, ids@.len() as int)),
            r matches Some(g) ==> g.wf() && g.ids@ == ids@ && g.incident@ == incident@ && g.outgoing@
                == outgoing@,
    {
        let n = ids.len();
        if incident.len() != n || outgoing.len() != n {
            return None;
        }
        if !lists_all_within(&incident, n) || !lists_all_within(&outgoing, n) {
            return None;
        }
        let g = GraphView { ids, incident, outgoing };
        proof {
            assert forall|u: int| 0 <= u < g.incident@.len() implies (#[trigger] g.incident@[u])@.len() <= usize::MAX by {
                vstd::std_specs::vec::axiom_spec_len(&g.incident@[u]);
            }
            assert forall|u: int, j: int|
                0 <= u < g.incident@.len() && 0 <= j < g.incident@[u]@.len() implies {
                    let e = #[trigger] g.incident@[u]@[j];
                    e.source < g.ids@.len() && e.target < g.ids@.len()
                } by {}
            assert forall|u: int, j: int|
                0 <= u < g.outgoing@.len() && 0 <= j < g.outgoing@[u]@.len() implies {
                    let e = #[trigger] g.outgoing@[u]@[j];
                    e.source < g.ids@.len() && e.target < g.ids@.len()
                } by {}
        }
        Some(g)
    }

    /// The number of the first node whose id is `id`, or `None` when no node
    /// has it.
    pub fn node_of(&self, id: &str) -> (r: Option<usize>)
        ensures
            r matches Some(k) ==> k < self.ids@.len() && self.ids@[k as int]@ == id@ && forall|j: int|
                0 <= j < k ==> (#[trigger] self.ids@[j])@ != id@,
            r is None ==> forall|j: int| 0 <= j < self.ids@.len() ==> (#[trigger] self.ids@[j])@ != id@,
    {
        let mut k: usize = 0;
        while k < self.ids.len()
            invariant
                k <= self.ids@.len(),
                forall|j: int| 0 <= j < k ==> (#[trigger] self.ids@[j])@ != id@,
            decreases self.ids@.len() - k,
        {
            if str_eq(self.ids[k].as_str(), id) {
                return Some(k);
            }
            k = k + 1;
        }
        None
    }
}

impl GraphView {
    /// The nodes within `options.depth` steps of `start` (0 is taken as 1)
    /// over edges of the types asked for (all types when none is named), in
    /// breadth-first order, each once; `start` itself comes first when
    /// `options.include_self` asks for it, and not at all otherwise.
    pub fn neighbors(&self, start: usize, options: &NeighborOptions) -> (r: Vec<usize>)
        requires
            self.wf(),
            start < self.ids@.len(),
        ensures
            r@ == if options.include_self {
                seq![start] + bfs_upto(*self, options.edge_types@, start, search_depth(options.depth))
            } else {
                bfs_upto(*self, options.edge_types@, start, search_depth(options.depth))
            },
    {
        let ghost ts = options.edge_types@;
        let max_depth: usize = if options.depth == 0 {
            1
        } else {
            options.depth
        };
        let n = self.ids.len();
        let mut visited: Vec<bool> = Vec::new();
        let mut k: usize = 0;
        while k < n
            invariant
                k <= n,
                visited@ == Seq::new(k as nat, |i: int| i == start),
            decreases n - k,
        {
            visited.push(k == start);
            assert(visited@ =~= Seq::new((k + 1) as nat, |i: int| i == start));
            k = k + 1;
        }
        assert(marked(visited@) =~= set![start]);
        let mut frontier: Vec<usize> = Vec::new();
        frontier.push(start);
        assert(frontier@ =~= step_nodes(bfs_level(*self, ts, start, 0).0));
        let mut result: Vec<usize> = Vec::new();
        let mut d: usize = 0;
        while d < max_depth && frontier.len() > 0
            invariant
                self.wf(),
                n == self.ids@.len(),
                start < n,
                ts == options.edge_types@,
                d <= max_depth,
                max_depth == search_depth(options.depth),
                visited@.len() == n,
                frontier@ == step_nodes(bfs_level(*self, ts, start, d as nat).0),
                marked(visited@) == bfs_level(*self, ts, start, d as nat).1,
                result@ == bfs_upto(*self, ts, start, d as nat),
            decreases max_depth - d,
        {
            proof {
                lemma_level_bounds(*self, ts, start, d as nat);
                assert forall|i: int| 0 <= i < frontier@.len() implies (#[trigger] frontier@[i]) < n by {
                    assert(frontier@[i] == bfs_level(*self, ts, start, d as nat).0[i].0);
                }
            }
            let next = expand(self, &options.edge_types, &frontier, &mut visited);
            let ghost r0 = result@;
            let mut f2: Vec<usize> = Vec::new();
            let mut i: usize = 0;
            while i < next.len()
                invariant
                    i <= next@.len(),
                    f2@ == step_nodes(next@).take(i as int),
                    result@ == r0 + step_nodes(next@).take(i as int),
                decreases next@.len() - i,
            {
                f2.push(next[i].0);
                result.push(next[i].0);
                assert(step_nodes(next@).take(i + 1) =~= step_nodes(next@).take(i as int).push(next@[i as int].0));
                assert(r0 + step_nodes(next@).take(i + 1) =~= (r0 + step_nodes(next@).take(i as int)).push(next@[i as int].0));
                i = i + 1;
            }
            proof {
                assert(step_nodes(next@).take(next@.len() as int) =~= step_nodes(next@));
            }
            frontier = f2;
            d = d + 1;
        }
        if d < max_depth {
            proof {
                assert(step_nodes(bfs_level(*self, ts, start, d as nat).0).len() == 0);
                lemma_empty_level(*self, ts, start, d as nat, max_depth as nat);
            }
        }
        if options.include_self {
            let ghost r0 = result@;
            result.insert(0, start);
            assert(result@ =~= seq![start] + r0);
        }
        result
    }
}

// =============================================================================
// Shortest path
// =============================================================================

/// Walking with no type filter.
pub open spec fn any_type() -> Seq<String> {
    Seq::<String>::empty()
}

/// `t` is first reached at level `d` of the search from `s`.
pub open spec fn reached_at(g: GraphView, s: usize, t: usize, d: nat) -> bool {
    reaches(bfs_level(g, any_type(), s, d).0, t)
}

/// The breadth-first path from `s` to `v`, for `v` first reached at level
/// `d`: its nodes, and for each step the node left and the position of the
/// edge walked among those touching it.
pub open spec fn bfs_trace(g: GraphView, s: usize, d: nat, v: usize) -> (Seq<usize>, Seq<(usize, usize)>)
    decreases d,
{
    if d == 0 {
        (seq![s], seq![])
    } else {
        let lvl = bfs_level(g, any_type(), s, d).0;
        let k = choose|k: int| 0 <= k < lvl.len() && (#[trigger] lvl[k]).0 == v;
        let x = lvl[k];
        let (ns, es) = bfs_trace(g, s, (d - 1) as nat, x.1);
        (ns.push(v), es.push((x.1, x.2)))
    }
}

/// The path a breadth-first search from `s` finds to `t`: `s` alone when
/// `t` is `s`, else the chain of first discoveries back from `t`, or none
/// when `t` cannot be reached.
pub open spec fn bfs_path(g: GraphView, s: usize, t: usize) -> Option<(Seq<usize>, Seq<(usize, usize)>)> {
    if s == t {
        Some((seq![s], seq![]))
    } else if exists|d: nat| #[trigger] reached_at(g, s, t, d) {
        let d = choose|d: nat| #[trigger] reached_at(g, s, t, d);
        Some(bfs_trace(g, s, d, t))
    } else {
        None
    }
}

/// `p` names the nodes and edges of the path `t`.
pub open spec fn path_is(p: GraphPath, g: GraphView, t: (Seq<usize>, Seq<(usize, usize)>)) -> bool {
    &&& p.nodes@.len() == t.0.len()
    &&& forall|i: int| 0 <= i < t.0.len() ==> (#[trigger] p.nodes@[i])@ == g.ids@[t.0[i] as int]@
    &&& p.edges@.len() == t.1.len()
    &&& forall|i: int|
        0 <= i < t.1.len() ==> (#[trigger] p.edges@[i])@ == g.edges_at(t.1[i].0)[t.1[i].1 as int].id@
    &&& p.length == t.1.len()
}

/// Levels only grow the set of seen nodes, which holds the start.
proof fn lemma_seen_grows(g: GraphView, types: Seq<String>, s: usize, a: nat, b: nat)
    requires
        a <= b,
    ensures
        bfs_level(g, types, s, a).1.subset_of(bfs_level(g, types, s, b).1),
        bfs_level(g, types, s, b).1.contains(s),
    decreases b,
{
    if b > 0 {
        if a < b {
            lemma_seen_grows(g, types, s, a, (b - 1) as nat);
        } else {
            lemma_seen_grows(g, types, s, 0, (b - 1) as nat);
        }
    }
}

/// A level holds only nodes not seen before it, each once.
proof fn lemma_level_fresh(g: GraphView, types: Seq<String>, s: usize, d: nat)
    requires
        d > 0,
    ensures
        forall|k: int|
            0 <= k < bfs_level(g, types, s, d).0.len() ==> !bfs_level(g, types, s, (d - 1) as nat).1.contains(
                (#[trigger] bfs_level(g, types, s, d).0[k]).0,
            ),
        forall|a: int, b: int|
            0 <= a < b < bfs_level(g, types, s, d).0.len() ==> (#[trigger] bfs_level(g, types, s, d).0[a]).0
                != (#[trigger] bfs_level(g, types, s, d).0[b]).0,
        forall|k: int|
            0 <= k < bfs_level(g, types, s, d).0.len() ==> bfs_level(g, types, s, d).1.contains(
                (#[trigger] bfs_level(g, types, s, d).0[k]).0,
            ),
{
    let (prev, seen) = bfs_level(g, types, s, (d - 1) as nat);
    let c = steps_of(g, types, step_nodes(prev));
    lemma_fresh_from(c, seen);
    lemma_fresh_covers(c, seen);
    let lvl = fresh(c, seen);
    assert forall|k: int| 0 <= k < lvl.len() implies (seen + node_set(lvl)).contains((#[trigger] lvl[k]).0) by {
        assert(reaches(lvl, lvl[k].0));
    }
}

/// A node is first reached at one level at most.
proof fn lemma_reached_once(g: GraphView, s: usize, t: usize, a: nat, b: nat)
    requires
        reached_at(g, s, t, a),
        reached_at(g, s, t, b),
    ensures
        a == b,
{
    if a != b {
        let (lo, hi) = if a < b {
            (a, b)
        } else {
            (b, a)
        };
        let ts = any_type();
        let l = bfs_level(g, ts, s, lo).0;
        let h = bfs_level(g, ts, s, hi).0;
        let i = choose|i: int| 0 <= i < l.len() && (#[trigger] l[i]).0 == t;
        let k = choose|k: int| 0 <= k < h.len() && (#[trigger] h[k]).0 == t;
        if lo == 0 {
            assert(l[i] == (s, s, 0usize));
        } else {
            lemma_level_fresh(g, ts, s, lo);
        }
        lemma_seen_grows(g, ts, s, lo, (hi - 1) as nat);
        lemma_level_fresh(g, ts, s, hi);
        assert(!bfs_level(g, ts, s, (hi - 1) as nat).1.contains(h[k].0));
    }
}

/// A node outside the seen set of level `d`, whose level `d` is empty, is
/// never reached.
proof fn lemma_never_reached(g: GraphView, s: usize, t: usize, d: nat, e: nat)
    requires
        bfs_level(g, any_type(), s, d).0.len() == 0,
        !bfs_level(g, any_type(), s, d).1.contains(t),
    ensures
        !reached_at(g, s, t, e),
{
    let ts = any_type();
    if e <= d {
        lemma_seen_grows(g, ts, s, e, d);
        if reached_at(g, s, t, e) {
            let l = bfs_level(g, ts, s, e).0;
            let i = choose|i: int| 0 <= i < l.len() && (#[trigger] l[i]).0 == t;
            if e == 0 {
                assert(l[i] == (s, s, 0usize));
            } else {
                lemma_level_fresh(g, ts, s, e);
            }
        }
    } else {
        lemma_empty_level(g, ts, s, d, e);
    }
}

/// The step through which a level reaches `v` is the one it holds for `v`.
proof fn lemma_trace_step(g: GraphView, s: usize, d: nat, k: int)
    requires
        d > 0,
        0 <= k < bfs_level(g, any_type(), s, d).0.len(),
    ensures
        ({
            let x = bfs_level(g, any_type(), s, d).0[k];
            let (ns, es) = bfs_trace(g, s, (d - 1) as nat, x.1);
            bfs_trace(g, s, d, x.0) == (ns.push(x.0), es.push((x.1, x.2)))
        }),
{
    let lvl = bfs_level(g, any_type(), s, d).0;
    lemma_level_fresh(g, any_type(), s, d);
    let k2 = choose|k2: int| 0 <= k2 < lvl.len() && (#[trigger] lvl[k2]).0 == lvl[k].0;
    assert(k2 == k);
}

/// `v` read back to front.
pub open spec fn backwards<T>(v: Seq<T>) -> Seq<T> {
    Seq::new(v.len(), |i: int| v[v.len() - 1 - i])
}

/// The search's record of first discoveries: every node found at a level
/// after the start has its level and the step that found it.
pub open spec fn discoveries(
    g: GraphView,
    s: usize,
    vis: Seq<bool>,
    lev: Seq<usize>,
    pu: Seq<usize>,
    pj: Seq<usize>,
    d: nat,
) -> bool {
    forall|v: int|
        0 <= v < vis.len() && #[trigger] vis[v] && v != s ==> {
            &&& 1 <= lev[v] <= d
            &&& bfs_level(g, any_type(), s, lev[v] as nat).0.contains((v as usize, pu[v], pj[v]))
        }
}

/// What a walk back from a discovered node needs of the step that found it.
proof fn lemma_parent_step(g: GraphView, s: usize, dc: nat, cur: usize, u: usize, j: usize)
    requires
        g.wf(),
        s < g.ids@.len(),
        dc >= 1,
        bfs_level(g, any_type(), s, dc).0.contains((cur, u, j)),
    ensures
        u < g.ids@.len(),
        (j as int) < g.edges_at(u).len(),
        other_end(g.edges_at(u)[j as int], u) == cur,
        reached_at(g, s, u, (dc - 1) as nat),
        dc == 1 ==> u == s,
        dc > 1 ==> u != s && bfs_level(g, any_type(), s, (dc - 1) as nat).1.contains(u),
        ({
            let (ns, es) = bfs_trace(g, s, (dc - 1) as nat, u);
            bfs_trace(g, s, dc, cur) == (ns.push(cur), es.push((u, j)))
        }),
{
    let ts = any_type();
    let (prev, seen) = bfs_level(g, ts, s, (dc - 1) as nat);
    let f = step_nodes(prev);
    let c = steps_of(g, ts, f);
    let lvl = bfs_level(g, ts, s, dc).0;
    assert(lvl == fresh(c, seen));
    lemma_fresh_from(c, seen);
    let k = choose|k: int| 0 <= k < lvl.len() && lvl[k] == (cur, u, j);
    assert(c.contains(lvl[k]));
    lemma_steps_of_exact(g, ts, f);
    let i = choose|i: int| 0 <= i < c.len() && c[i] == lvl[k];
    let q = choose|q: int| 0 <= q < f.len() && f[q] == u;
    assert(prev[q].0 == u);
    assert(reaches(prev, u));
    lemma_level_bounds(g, ts, s, (dc - 1) as nat);
    lemma_trace_step(g, s, dc, k);
    if dc == 1 {
        assert(prev == seq![(s, s, 0usize)]);
    } else {
        lemma_level_fresh(g, ts, s, (dc - 1) as nat);
        lemma_seen_grows(g, ts, s, 0, (dc - 2) as nat);
    }
}

impl GraphView {
    /// The shortest path from `from` to `to` by breadth-first search over
    /// edges in either direction: `from` alone when the two are the same
    /// node, the chain of first discoveries back from `to` when it can be
    /// reached, else none.
    pub fn shortest_path_manual(&self, from: usize, to: usize) -> (r: Option<GraphPath>)
        requires
            self.wf(),
            from < self.ids@.len(),
            to < self.ids@.len(),
        ensures
            match (r, bfs_path(*self, from, to)) {
                (Some(p), Some(t)) => path_is(p, *self, t),
                (None, None) => true,
                _ => false,
            },
    {
        let n = self.ids.len();
        if from == to {
            let mut nodes: Vec<String> = Vec::new();
            nodes.push(self.ids[from].clone());
            return Some(GraphPath { nodes, edges: Vec::new(), length: 0 });
        }
        let ghost ts = any_type();
        let no_types: Vec<String> = Vec::new();
        assert(no_types@ =~= ts);
        let mut visited: Vec<bool> = Vec::new();
        let mut lev: Vec<usize> = Vec::new();
        let mut pu: Vec<usize> = Vec::new();
        let mut pj: Vec<usize> = Vec::new();
        let mut k: usize = 0;
        while k < n
            invariant
                k <= n,
                from < n,
                visited@ == Seq::new(k as nat, |i: int| i == from),
                unmarked_count(visited@) == if from < k {
                    k - 1
                } else {
                    k as int
                },
                lev@.len() == k,
                pu@.len() == k,
                pj@.len() == k,
                forall|i: int| 0 <= i < k ==> lev@[i] == 0,
            decreases n - k,
        {
            let ghost v0 = visited@;
            visited.push(k == from);
            assert(visited@.drop_last() =~= v0);
            assert(visited@ =~= Seq::new((k + 1) as nat, |i: int| i == from));
            lev.push(0);
            pu.push(0);
            pj.push(0);
            k = k + 1;
        }
        assert(marked(visited@) =~= set![from]);
        let mut frontier: Vec<usize> = Vec::new();
        frontier.push(from);
        assert(frontier@ =~= step_nodes(bfs_level(*self, ts, from, 0).0));
        let mut d: usize = 0;
        while frontier.len() > 0 && !visited[to]
            invariant
                self.wf(),
                n == self.ids@.len(),
                from < n,
                to < n,
                from != to,
                no_types@ == ts,
                ts == any_type(),
                visited@.len() == n,
                lev@.len() == n,
                pu@.len() == n,
                pj@.len() == n,
                frontier@ == step_nodes(bfs_level(*self, ts, from, d as nat).0),
                marked(visited@) == bfs_level(*self, ts, from, d as nat).1,
                (d + unmarked_count(visited@) < n) || (frontier@.len() == 0 && d <= n),
                lev@[from as int] == 0,
                discoveries(*self, from, visited@, lev@, pu@, pj@, d as nat),
            decreases unmarked_count(visited@), frontier@.len(),
        {
            proof {
                lemma_level_bounds(*self, ts, from, d as nat);
                assert forall|i: int| 0 <= i < frontier@.len() implies (#[trigger] frontier@[i]) < n by {
                    assert(frontier@[i] == bfs_level(*self, ts, from, d as nat).0[i].0);
                }
            }
            let ghost vis0 = visited@;
            let next = expand(self, &no_types, &frontier, &mut visited);
            d = d + 1;
            proof {
                lemma_level_fresh(*self, ts, from, d as nat);
                lemma_level_bounds(*self, ts, from, d as nat);
                assert(next@ == bfs_level(*self, ts, from, d as nat).0);
            }
            let ghost lev0 = lev@;
            let ghost pu0 = pu@;
            let ghost pj0 = pj@;
            let mut f2: Vec<usize> = Vec::new();
            let mut i: usize = 0;
            while i < next.len()
                invariant
                    i <= next@.len(),
                    n == self.ids@.len(),
                    lev@.len() == n,
                    pu@.len() == n,
                    pj@.len() == n,
                    next@ == bfs_level(*self, ts, from, d as nat).0,
                    forall|q: int| 0 <= q < next@.len() ==> (#[trigger] next@[q]).0 < n,
                    forall|a: int, b: int| 0 <= a < b < next@.len() ==> (#[trigger] next@[a]).0 != (#[trigger] next@[b]).0,
                    f2@ == step_nodes(next@).take(i as int),
                    forall|q: int|
                        0 <= q < i ==> lev@[(#[trigger] next@[q]).0 as int] == d && pu@[next@[q].0 as int]
                            == next@[q].1 && pj@[next@[q].0 as int] == next@[q].2,
                    forall|v: int|
                        0 <= v < n && !(exists|q: int| 0 <= q < i && (#[trigger] next@[q]).0 == v) ==> lev@[v]
                            == lev0[v] && pu@[v] == pu0[v] && pj@[v] == pj0[v],
                decreases next@.len() - i,
            {
                let (v, u, j) = next[i];
                lev.set(v, d);
                pu.set(v, u);
                pj.set(v, j);
                f2.push(v);
                assert(step_nodes(next@).take(i + 1) =~= step_nodes(next@).take(i as int).push(v));
                i = i + 1;
            }
            proof {
                assert(step_nodes(next@).take(next@.len() as int) =~= step_nodes(next@));
                let lvl = bfs_level(*self, ts, from, d as nat).0;
                assert forall|v: int|
                    0 <= v < visited@.len() && #[trigger] visited@[v] && v != from implies {
                    &&& 1 <= lev@[v] <= d
                    &&& bfs_level(*self, ts, from, lev@[v] as nat).0.contains((v as usize, pu@[v], pj@[v]))
                } by {
                    assert(marked(visited@).contains(v as usize));
                    if exists|q: int| 0 <= q < next@.len() && (#[trigger] next@[q]).0 == v {
                        let q = choose|q: int| 0 <= q < next@.len() && (#[trigger] next@[q]).0 == v;
                        assert(lvl[q] == (v as usize, pu@[v], pj@[v]));
                    } else {
                        assert(!reaches(next@, v as usize));
                        assert(marked(vis0).contains(v as usize));
                        assert(vis0[v]);
                    }
                }
                assert(lev@[from as int] == 0) by {
                    assert(marked(vis0).contains(from)) by {
                        lemma_seen_grows(*self, ts, from, 0, (d - 1) as nat);
                    }
                    if exists|q: int| 0 <= q < next@.len() && (#[trigger] next@[q]).0 == from {
                        let q = choose|q: int| 0 <= q < next@.len() && (#[trigger] next@[q]).0 == from;
                        assert(!bfs_level(*self, ts, from, (d - 1) as nat).1.contains(lvl[q].0));
                    }
                }
            }
            frontier = f2;
        }
        if !visited[to] {
            proof {
                assert(!marked(visited@).contains(to));
                assert forall|e: nat| !#[trigger] reached_at(*self, from, to, e) by {
                    lemma_never_reached(*self, from, to, d as nat, e);
                }
            }
            return None;
        }
        // Walk back from `to` along first discoveries
        let ghost dt = lev@[to as int] as nat;
        proof {
            assert(marked(visited@).contains(to));
            assert(bfs_level(*self, ts, from, dt).0.contains((to, pu@[to as int], pj@[to as int])));
            let l = bfs_level(*self, ts, from, dt).0;
            let q = choose|q: int| 0 <= q < l.len() && l[q] == (to, pu@[to as int], pj@[to as int]);
            assert(reached_at(*self, from, to, dt));
            let d2 = choose|d2: nat| #[trigger] reached_at(*self, from, to, d2);
            lemma_reached_once(*self, from, to, d2, dt);
        }
        let ghost full = bfs_trace(*self, from, dt, to);
        let mut cur = to;
        let mut rev_nodes: Vec<usize> = Vec::new();
        let mut rev_edges: Vec<(usize, usize)> = Vec::new();
        proof {
            assert(full.0 =~= bfs_trace(*self, from, lev@[cur as int] as nat, cur).0 + backwards(rev_nodes@));
            assert(full.1 =~= bfs_trace(*self, from, lev@[cur as int] as nat, cur).1 + backwards(rev_edges@));
        }
        while cur != from
            invariant
                self.wf(),
                n == self.ids@.len(),
                from < n,
                cur < n,
                ts == any_type(),
                visited@.len() == n,
                lev@.len() == n,
                pu@.len() == n,
                pj@.len() == n,
                lev@[from as int] == 0,
                visited@[cur as int],
                marked(visited@) == bfs_level(*self, ts, from, d as nat).1,
                discoveries(*self, from, visited@, lev@, pu@, pj@, d as nat),
                full.0 == bfs_trace(*self, from, lev@[cur as int] as nat, cur).0 + backwards(rev_nodes@),
                full.1 == bfs_trace(*self, from, lev@[cur as int] as nat, cur).1 + backwards(rev_edges@),
                forall|q: int| 0 <= q < rev_nodes@.len() ==> (#[trigger] rev_nodes@[q]) < n,
                forall|q: int|
                    0 <= q < rev_edges@.len() ==> (#[trigger] rev_edges@[q]).0 < n && (rev_edges@[q].1 as int)
                        < self.edges_at(rev_edges@[q].0).len(),
            decreases lev@[cur as int],
        {
            let u = pu[cur];
            let j = pj[cur];
            let ghost dc = lev@[cur as int] as nat;
            proof {
                lemma_parent_step(*self, from, dc, cur, u, j);
                lemma_seen_grows(*self, ts, from, 0, d as nat);
                if dc == 1 {
                    assert(marked(visited@).contains(from));
                }
                if dc > 1 {
                    lemma_seen_grows(*self, ts, from, (dc - 1) as nat, d as nat);
                    assert(marked(visited@).contains(u));
                    assert(visited@[u as int]);
                    let l = bfs_level(*self, ts, from, lev@[u as int] as nat).0;
                    let q = choose|q: int| 0 <= q < l.len() && l[q] == (u, pu@[u as int], pj@[u as int]);
                    assert(reached_at(*self, from, u, lev@[u as int] as nat));
                    lemma_reached_once(*self, from, u, lev@[u as int] as nat, (dc - 1) as nat);
                }
                let (ns, es) = bfs_trace(*self, from, (dc - 1) as nat, u);
                assert(backwards(rev_nodes@.push(cur)) =~= seq![cur] + backwards(rev_nodes@));
                assert(backwards(rev_edges@.push((u, j))) =~= seq![(u, j)] + backwards(rev_edges@));
                assert(full.0 =~= ns + backwards(rev_nodes@.push(cur)));
                assert(full.1 =~= es + backwards(rev_edges@.push((u, j))));
            }
            rev_nodes.push(cur);
            rev_edges.push((u, j));
            cur = u;
        }
        // `full` is `from` followed by the nodes walked, last first
        assert(full.0 =~= seq![from] + backwards(rev_nodes@));
        assert(full.1 =~= backwards(rev_edges@));
        let m = rev_nodes.len();
        let mut nodes: Vec<String> = Vec::new();
        nodes.push(self.ids[from].clone());
        let mut q: usize = 0;
        while q < m
            invariant
                q <= m,
                m == rev_nodes@.len(),
                n == self.ids@.len(),
                forall|x: int| 0 <= x < rev_nodes@.len() ==> (#[trigger] rev_nodes@[x]) < n,
                full.0 == seq![from] + backwards(rev_nodes@),
                nodes@.len() == q + 1,
                forall|x: int| 0 <= x <= q ==> (#[trigger] nodes@[x])@ == self.ids@[full.0[x] as int]@,
            decreases m - q,
        {
            let v = rev_nodes[m - 1 - q];
            nodes.push(self.ids[v].clone());
            q = q + 1;
        }
        let me = rev_edges.len();
        let mut edges: Vec<String> = Vec::new();
        let mut q: usize = 0;
        while q < me
            invariant
                q <= me,
                me == rev_edges@.len(),
                n == self.ids@.len(),
                self.wf(),
                forall|x: int|
                    0 <= x < rev_edges@.len() ==> (#[trigger] rev_edges@[x]).0 < n && (rev_edges@[x].1 as int)
                        < self.edges_at(rev_edges@[x].0).len(),
                full.1 == backwards(rev_edges@),
                edges@.len() == q,
                forall|x: int|
                    0 <= x < q ==> (#[trigger] edges@[x])@ == self.edges_at(full.1[x].0)[full.1[x].1 as int].id@,
            decreases me - q,
        {
            let (u, j) = rev_edges[me - 1 - q];
            edges.push(self.incident[u][j].id.clone());
            q = q + 1;
        }
        Some(GraphPath { nodes, edges, length: me })
    }
}

// =============================================================================
// Neighbourhood with hop counts
// =============================================================================

/// The nodes of levels `1..=d` of the search from `s` over all edges, each
/// with its level.
pub open spec fn hop_list(g: GraphView, s: usize, d: nat) -> Seq<(usize, usize)>
    decreases d,
{
    if d == 0 {
        seq![]
    } else {
        let lvl = step_nodes(bfs_level(g, any_type(), s, d).0);
        hop_list(g, s, (d - 1) as nat) + Seq::new(lvl.len(), |i: int| (lvl[i], d as usize))
    }
}

proof fn lemma_hops_stop(g: GraphView, s: usize, d: nat, d2: nat)
    requires
        bfs_level(g, any_type(), s, d).0.len() == 0,
        d <= d2,
    ensures
        hop_list(g, s, d2) == hop_list(g, s, d),
    decreases d2 - d,
{
    if d < d2 {
        lemma_hops_stop(g, s, d, (d2 - 1) as nat);
        lemma_empty_level(g, any_type(), s, d, d2);
        assert(hop_list(g, s, d2) =~= hop_list(g, s, (d2 - 1) as nat));
    }
}

impl GraphView {
    /// The nodes within `max_hops` steps of `start` over edges in either
    /// direction, in breadth-first order, each with the number of steps to
    /// it.
    pub fn neighborhood(&self, start: usize, max_hops: usize) -> (r: Vec<(usize, usize)>)
        requires
            self.wf(),
            start < self.ids@.len(),
        ensures
            r@ == hop_list(*self, start, max_hops as nat),
    {
        let ghost ts = any_type();
        let no_types: Vec<String> = Vec::new();
        assert(no_types@ =~= ts);
        let n = self.ids.len();
        let mut visited: Vec<bool> = Vec::new();
        let mut k: usize = 0;
        while k < n
            invariant
                k <= n,
                visited@ == Seq::new(k as nat, |i: int| i == start),
            decreases n - k,
        {
            visited.push(k == start);
            assert(visited@ =~= Seq::new((k + 1) as nat, |i: int| i == start));
            k = k + 1;
        }
        assert(marked(visited@) =~= set![start]);
        let mut frontier: Vec<usize> = Vec::new();
        frontier.push(start);
        assert(frontier@ =~= step_nodes(bfs_level(*self, ts, start, 0).0));
        let mut result: Vec<(usize, usize)> = Vec::new();
        let mut hop: usize = 0;
        while hop < max_hops && frontier.len() > 0
            invariant
                self.wf(),
                n == self.ids@.len(),
                start < n,
                no_types@ == ts,
                ts == any_type(),
                hop <= max_hops,
                visited@.len() == n,
                frontier@ == step_nodes(bfs_level(*self, ts, start, hop as nat).0),
                marked(visited@) == bfs_level(*self, ts, start, hop as nat).1,
                result@ == hop_list(*self, start, hop as nat),
            decreases max_hops - hop,
        {
            proof {
                lemma_level_bounds(*self, ts, start, hop as nat);
                assert forall|i: int| 0 <= i < frontier@.len() implies (#[trigger] frontier@[i]) < n by {
                    assert(frontier@[i] == bfs_level(*self, ts, start, hop as nat).0[i].0);
                }
            }
            let next = expand(self, &no_types, &frontier, &mut visited);
            hop = hop + 1;
            let ghost r0 = result@;
            let ghost lvl = step_nodes(next@);
            let ghost add = Seq::new(lvl.len(), |i: int| (lvl[i], hop));
            let mut f2: Vec<usize> = Vec::new();
            let mut i: usize = 0;
            while i < next.len()
                invariant
                    i <= next@.len(),
                    lvl == step_nodes(next@),
                    add == Seq::new(lvl.len(), |q: int| (lvl[q], hop)),
                    f2@ == lvl.take(i as int),
                    result@ == r0 + add.take(i as int),
                decreases next@.len() - i,
            {
                f2.push(next[i].0);
                result.push((next[i].0, hop));
                assert(lvl.take(i + 1) =~= lvl.take(i as int).push(next@[i as int].0));
                assert(add.take(i + 1) =~= add.take(i as int).push((next@[i as int].0, hop)));
                assert(r0 + add.take(i + 1) =~= (r0 + add.take(i as int)).push((next@[i as int].0, hop)));
                i = i + 1;
            }
            proof {
                assert(lvl.take(next@.len() as int) =~= lvl);
                assert(add.take(add.len() as int) =~= add);
            }
            frontier = f2;
        }
        if hop < max_hops {
            proof {
                assert(step_nodes(bfs_level(*self, ts, start, hop as nat).0).len() == 0);
                lemma_hops_stop(*self, start, hop as nat, max_hops as nat);
            }
        }
        result
    }
}

// =============================================================================
// All simple paths
// =============================================================================

/// A walk as (nodes, edges by (node left, position)).
pub type Walk = (Seq<usize>, Seq<(usize, usize)>);

/// The simple walks that extend `w` (which ends at `cur`) to `target` with
/// at most `depth` more steps, in depth-first order: the walk itself once it
/// is at the target, else its extensions over the edges at `cur` in order,
/// never through a node already on it.
pub open spec fn dfs_paths(g: GraphView, cur: usize, target: usize, depth: nat, w: Walk) -> Seq<Walk>
    decreases depth, g.edges_at(cur).len() + 1,
{
    if cur == target {
        seq![w]
    } else if depth == 0 {
        seq![]
    } else {
        dfs_edges(g, cur, target, depth, w, g.edges_at(cur).len() as int)
    }
}

/// The extensions of `w` through the first `k` edges at `cur`.
pub open spec fn dfs_edges(g: GraphView, cur: usize, target: usize, depth: nat, w: Walk, k: int) -> Seq<Walk>
    decreases depth, if k > 0 { k } else { 0 },
{
    if k <= 0 || depth == 0 {
        seq![]
    } else {
        let v = other_end(g.edges_at(cur)[k - 1], cur);
        dfs_edges(g, cur, target, depth, w, k - 1) + if w.0.contains(v) {
            seq![]
        } else {
            dfs_paths(g, v, target, (depth - 1) as nat, (w.0.push(v), w.1.push((cur, (k - 1) as usize))))
        }
    }
}

/// The nodes and edges are those of the graph.
pub open spec fn walk_ok(g: GraphView, w: Walk) -> bool {
    &&& forall|i: int| 0 <= i < w.0.len() ==> (#[trigger] w.0[i]) < g.ids@.len()
    &&& forall|i: int|
        0 <= i < w.1.len() ==> (#[trigger] w.1[i]).0 < g.ids@.len() && (w.1[i].1 as int) < g.edges_at(
            w.1[i].0,
        ).len()
}

impl GraphView {
    /// The path of node numbers `ns` and edges `es`, by ids.
    fn make_path(&self, ns: &Vec<usize>, es: &Vec<(usize, usize)>) -> (p: GraphPath)
        requires
            self.wf(),
            walk_ok(*self, (ns@, es@)),
        ensures
            path_is(p, *self, (ns@, es@)),
    {
        let mut nodes: Vec<String> = Vec::new();
        let mut q: usize = 0;
        while q < ns.len()
            invariant
                q <= ns@.len(),
                walk_ok(*self, (ns@, es@)),
                nodes@.len() == q,
                forall|x: int| 0 <= x < q ==> (#[trigger] nodes@[x])@ == self.ids@[ns@[x] as int]@,
            decreases ns@.len() - q,
        {
            assert((ns@, es@).0[q as int] < self.ids@.len());
            nodes.push(self.ids[ns[q]].clone());
            q = q + 1;
        }
        let mut edges: Vec<String> = Vec::new();
        let mut q: usize = 0;
        while q < es.len()
            invariant
                q <= es@.len(),
                self.wf(),
                walk_ok(*self, (ns@, es@)),
                edges@.len() == q,
                forall|x: int|
                    0 <= x < q ==> (#[trigger] edges@[x])@ == self.edges_at(es@[x].0)[es@[x].1 as int].id@,
            decreases es@.len() - q,
        {
            let (u, j) = es[q];
            assert((ns@, es@).1[q as int] == (u, j));
            assert(self.edges_at(u) == self.incident@[u as int]@);
            edges.push(self.incident[u][j].id.clone());
            q = q + 1;
        }
        GraphPath { nodes, edges, length: es.len() }
    }

    fn dfs_all_paths(
        &self,
        cur: usize,
        target: usize,
        remaining: usize,
        path: &mut Vec<usize>,
        steps: &mut Vec<(usize, usize)>,
        on_path: &mut Vec<bool>,
        all: &mut Vec<GraphPath>,
    )
        requires
            self.wf(),
            cur < self.ids@.len(),
            old(on_path)@.len() == self.ids@.len(),
            forall|v: usize| v < self.ids@.len() ==> old(on_path)@[v as int] == old(path)@.contains(v),
            old(path)@.len() == old(steps)@.len() + 1,
            old(path)@.last() == cur,
            walk_ok(*self, (old(path)@, old(steps)@)),
        ensures
            final(path)@ == old(path)@,
            final(steps)@ == old(steps)@,
            final(on_path)@ == old(on_path)@,
            final(all)@.len() == old(all)@.len() + dfs_paths(*self, cur, target, remaining as nat, (old(path)@, old(steps)@)).len(),
            forall|k: int| 0 <= k < old(all)@.len() ==> final(all)@[k] == old(all)@[k],
            forall|k: int|
                0 <= k < dfs_paths(*self, cur, target, remaining as nat, (old(path)@, old(steps)@)).len()
                    ==> path_is(
                    #[trigger] final(all)@[old(all)@.len() + k],
                    *self,
                    dfs_paths(*self, cur, target, remaining as nat, (old(path)@, old(steps)@))[k],
                ),
        decreases remaining,
    {
        let ghost w: Walk = (path@, steps@);
        let ghost a0 = all@;
        let ghost op_start = on_path@;
        if cur == target {
            let p = self.make_path(path, steps);
            all.push(p);
            proof {
                assert(dfs_paths(*self, cur, target, remaining as nat, w) == seq![w]);
                assert(all@[a0.len() as int] == p);
            }
            return;
        }
        if remaining == 0 {
            return;
        }
        let edges = &self.incident[cur];
        let mut k: usize = 0;
        while k < edges.len()
            invariant
                self.wf(),
                cur < self.ids@.len(),
                cur != target,
                remaining > 0,
                *edges == self.incident@[cur as int],
                k <= edges@.len(),
                w == (path@, steps@),
                on_path@.len() == self.ids@.len(),
                on_path@ == op_start,
                forall|v: usize| v < self.ids@.len() ==> on_path@[v as int] == path@.contains(v),
                path@.len() == steps@.len() + 1,
                path@.last() == cur,
                walk_ok(*self, w),
                all@.len() == a0.len() + dfs_edges(*self, cur, target, remaining as nat, w, k as int).len(),
                forall|q: int| 0 <= q < a0.len() ==> all@[q] == a0[q],
                forall|q: int|
                    0 <= q < dfs_edges(*self, cur, target, remaining as nat, w, k as int).len() ==> path_is(
                        #[trigger] all@[a0.len() + q],
                        *self,
                        dfs_edges(*self, cur, target, remaining as nat, w, k as int)[q],
                    ),
            decreases edges@.len() - k,
        {
            let e = &edges[k];
            let v = if e.source == cur {
                e.target
            } else {
                e.source
            };
            assert(v < self.ids@.len()) by {
                assert(self.incident@[cur as int]@[k as int] == *e);
            }
            let ghost before = dfs_edges(*self, cur, target, remaining as nat, w, k as int);
            let ghost a1 = all@;
            if !on_path[v] {
                let ghost w2: Walk = (path@.push(v), steps@.push((cur, k)));
                let ghost op0 = on_path@;
                path.push(v);
                steps.push((cur, k));
                on_path.set(v, true);
                proof {
                    assert(path@ == w2.0 && steps@ == w2.1);
                    assert(w2.0[w.0.len() as int] == v);
                    assert forall|x: usize| x < self.ids@.len() implies on_path@[x as int] == path@.contains(x) by {
                        if x == v {
                            assert(path@[path@.len() - 1] == v);
                        } else {
                            assert(on_path@[x as int] == op0[x as int]);
                            assert(op0[x as int] == w.0.contains(x));
                            if path@.contains(x) {
                                let i = choose|i: int| 0 <= i < path@.len() && path@[i] == x;
                                assert(i < w.0.len());
                                assert(w.0[i] == x);
                            }
                            if w.0.contains(x) {
                                let i = choose|i: int| 0 <= i < w.0.len() && w.0[i] == x;
                                assert(path@[i] == x);
                            }
                        }
                    }
                    assert(walk_ok(*self, w2)) by {
                        assert forall|i: int| 0 <= i < w2.1.len() implies (#[trigger] w2.1[i]).0 < self.ids@.len()
                            && (w2.1[i].1 as int) < self.edges_at(w2.1[i].0).len() by {
                            if i < w.1.len() {
                                assert(w2.1[i] == w.1[i]);
                            }
                        }
                        assert forall|i: int| 0 <= i < w2.0.len() implies (#[trigger] w2.0[i]) < self.ids@.len() by {
                            if i < w.0.len() {
                                assert(w2.0[i] == w.0[i]);
                            }
                        }
                    }
                }
                self.dfs_all_paths(v, target, remaining - 1, path, steps, on_path, all);
                let _ = path.pop();
                let _ = steps.pop();
                on_path.set(v, false);
                proof {
                    assert(on_path@ =~= op0);
                    assert(path@ =~= w.0);
                    assert(steps@ =~= w.1);
                    assert(!w.0.contains(v));
                    let sub = dfs_paths(*self, v, target, (remaining - 1) as nat, w2);
                    let after = dfs_edges(*self, cur, target, remaining as nat, w, k + 1);
                    assert(after == before + sub);
                    assert forall|q: int| 0 <= q < after.len() implies path_is(
                        #[trigger] all@[a0.len() + q],
                        *self,
                        after[q],
                    ) by {
                        if q < before.len() {
                            assert(after[q] == before[q]);
                            assert(all@[a0.len() + q] == a1[a0.len() + q]);
                        } else {
                            assert(after[q] == sub[q - before.len()]);
                            assert(a0.len() + q == a1.len() + (q - before.len()));
                        }
                    }
                    assert forall|x: usize| x < self.ids@.len() implies on_path@[x as int] == path@.contains(x) by {
                        if x != v {
                            if path@.contains(x) {
                                let i = choose|i: int| 0 <= i < path@.len() && path@[i] == x;
                                assert(w2.0[i] == x);
                            }
                            if w2.0.contains(x) {
                                let i = choose|i: int| 0 <= i < w2.0.len() && w2.0[i] == x;
                                assert(w2.0[w.0.len() as int] == v);
                                assert(i < w.0.len());
                                assert(path@[i] == x);
                            }
                        }
                    }
                }
            } else {
                proof {
                    assert(w.0.contains(v));
                    assert(dfs_edges(*self, cur, target, remaining as nat, w, k + 1) =~= before);
                }
            }
            k = k + 1;
        }
        proof {
            assert(dfs_paths(*self, cur, target, remaining as nat, w) == dfs_edges(
                *self,
                cur,
                target,
                remaining as nat,
                w,
                edges@.len() as int,
            ));
        }
    }

    /// All simple paths from `from` to `to` with at most `max_depth` edges,
    /// in depth-first order over each node's edges.
    pub fn all_paths(&self, from: usize, to: usize, max_depth: usize) -> (r: Vec<GraphPath>)
        requires
            self.wf(),
            from < self.ids@.len(),
        ensures
            r@.len() == dfs_paths(*self, from, to, max_depth as nat, (seq![from], seq![])).len(),
            forall|k: int|
                0 <= k < r@.len() ==> path_is(
                    #[trigger] r@[k],
                    *self,
                    dfs_paths(*self, from, to, max_depth as nat, (seq![from], seq![]))[k],
                ),
    {
        let n = self.ids.len();
        let mut on_path: Vec<bool> = Vec::new();
        let mut k: usize = 0;
        while k < n
            invariant
                k <= n,
                on_path@ == Seq::new(k as nat, |i: int| i == from),
            decreases n - k,
        {
            on_path.push(k == from);
            assert(on_path@ =~= Seq::new((k + 1) as nat, |i: int| i == from));
            k = k + 1;
        }
        let mut path: Vec<usize> = Vec::new();
        path.push(from);
        let mut steps: Vec<(usize, usize)> = Vec::new();
        let mut all: Vec<GraphPath> = Vec::new();
        proof {
            assert(path@ =~= seq![from]);
            assert(steps@ =~= seq![]);
            assert forall|v: usize| v < n implies on_path@[v as int] == path@.contains(v) by {
                if v == from {
                    assert(path@[0] == from);
                }
            }
        }
        self.dfs_all_paths(from, to, max_depth, &mut path, &mut steps, &mut on_path, &mut all);
        proof {
            assert forall|k: int| 0 <= k < all@.len() implies path_is(
                #[trigger] all@[k],
                *self,
                dfs_paths(*self, from, to, max_depth as nat, (seq![from], seq![]))[k],
            ) by {
                assert(all@[0 + k] == all@[k]);
            }
        }
        all
    }
}

// =============================================================================
// Subgraphs and common neighbours
// =============================================================================

impl GraphView {
    /// The edges leaving node `u`.
    pub open spec fn out_at(&self, u: usize) -> Seq<EdgeView> {
        if u < self.outgoing@.len() {
            self.outgoing@[u as int]@
        } else {
            seq![]
        }
    }
}

/// Among the first `k` edges leaving `u`, those that end at a node of `sel`,
/// as (u, position).
pub open spec fn edges_into(g: GraphView, sel: Seq<usize>, u: usize, k: int) -> Seq<(usize, usize)>
    decreases k,
{
    if k <= 0 || k > g.out_at(u).len() {
        seq![]
    } else {
        let r = edges_into(g, sel, u, k - 1);
        if sel.contains(g.out_at(u)[k - 1].target) {
            r.push((u, (k - 1) as usize))
        } else {
            r
        }
    }
}

/// The edges from the nodes of `f`, in order, that end at a node of `sel`.
pub open spec fn edges_among(g: GraphView, sel: Seq<usize>, f: Seq<usize>) -> Seq<(usize, usize)>
    decreases f.len(),
{
    if f.len() == 0 {
        seq![]
    } else {
        edges_among(g, sel, f.drop_last()) + edges_into(g, sel, f.last(), g.out_at(f.last()).len() as int)
    }
}

/// The id of the edge at (node, position) among those leaving the node.
pub open spec fn out_id(g: GraphView, e: (usize, usize)) -> Seq<char> {
    g.out_at(e.0)[e.1 as int].id@
}

/// The first edge of each id, in order.
pub open spec fn first_of_each_id(g: GraphView, c: Seq<(usize, usize)>) -> Seq<(usize, usize)>
    decreases c.len(),
{
    if c.len() == 0 {
        seq![]
    } else {
        let r = first_of_each_id(g, c.drop_last());
        if exists|i: int| 0 <= i < r.len() && out_id(g, #[trigger] r[i]) == out_id(g, c.last()) {
            r
        } else {
            r.push(c.last())
        }
    }
}

/// The edges of the subgraph on `sel`: those leaving a node of `sel` and
/// ending at one, node by node in the order of `sel`, each edge id once.
pub open spec fn subgraph_edges(g: GraphView, sel: Seq<usize>) -> Seq<(usize, usize)> {
    first_of_each_id(g, edges_among(g, sel, sel))
}

proof fn lemma_out_len(g: GraphView, u: usize)
    ensures
        g.out_at(u).len() <= usize::MAX,
{
    if u < g.outgoing@.len() {
        vstd::std_specs::vec::axiom_spec_len(&g.outgoing@[u as int]);
    }
}

proof fn lemma_edges_into(g: GraphView, sel: Seq<usize>, u: usize, k: int)
    ensures
        forall|t: int|
            0 <= t < edges_into(g, sel, u, k).len() ==> (#[trigger] edges_into(g, sel, u, k)[t]).0 == u
                && edges_into(g, sel, u, k)[t].1 < g.out_at(u).len() && sel.contains(
                g.out_at(u)[edges_into(g, sel, u, k)[t].1 as int].target,
            ),
        0 <= k <= g.out_at(u).len() ==> forall|j: int|
            0 <= j < k && sel.contains(#[trigger] g.out_at(u)[j].target) ==> edges_into(g, sel, u, k).contains(
                (u, j as usize),
            ),
    decreases k,
{
    if 0 < k <= g.out_at(u).len() {
        lemma_edges_into(g, sel, u, k - 1);
        lemma_out_len(g, u);
        let r = edges_into(g, sel, u, k - 1);
        let r2 = edges_into(g, sel, u, k);
        assert forall|t: int| 0 <= t < r2.len() implies (#[trigger] r2[t]).0 == u && r2[t].1 < g.out_at(u).len()
            && sel.contains(g.out_at(u)[r2[t].1 as int].target) by {
            if t < r.len() {
                assert(r2[t] == r[t]);
            }
        }
        assert forall|j: int| 0 <= j < k && sel.contains(#[trigger] g.out_at(u)[j].target) implies r2.contains(
            (u, j as usize),
        ) by {
            if j < k - 1 {
                let t = choose|t: int| 0 <= t < r.len() && r[t] == (u, j as usize);
                assert(r2[t] == r[t]);
            } else {
                assert(r2[r.len() as int] == (u, j as usize));
            }
        }
    }
}

proof fn lemma_edges_among(g: GraphView, sel: Seq<usize>, f: Seq<usize>)
    ensures
        forall|t: int|
            0 <= t < edges_among(g, sel, f).len() ==> f.contains((#[trigger] edges_among(g, sel, f)[t]).0)
                && edges_among(g, sel, f)[t].1 < g.out_at(edges_among(g, sel, f)[t].0).len() && sel.contains(
                g.out_at(edges_among(g, sel, f)[t].0)[edges_among(g, sel, f)[t].1 as int].target,
            ),
        forall|u: usize, j: int|
            f.contains(u) && 0 <= j < g.out_at(u).len() && sel.contains(#[trigger] g.out_at(u)[j].target)
                ==> edges_among(g, sel, f).contains((u, j as usize)),
    decreases f.len(),
{
    if f.len() > 0 {
        let d = f.drop_last();
        lemma_edges_among(g, sel, d);
        let u0 = f.last();
        lemma_edges_into(g, sel, u0, g.out_at(u0).len() as int);
        let a = edges_among(g, sel, d);
        let b = edges_into(g, sel, u0, g.out_at(u0).len() as int);
        assert(edges_among(g, sel, f) == a + b);
        assert forall|t: int| 0 <= t < (a + b).len() implies f.contains((#[trigger] (a + b)[t]).0) && (a
            + b)[t].1 < g.out_at((a + b)[t].0).len() && sel.contains(
            g.out_at((a + b)[t].0)[(a + b)[t].1 as int].target,
        ) by {
            if t < a.len() {
                assert((a + b)[t] == a[t]);
                let x = choose|x: int| 0 <= x < d.len() && d[x] == a[t].0;
                assert(f[x] == d[x]);
            } else {
                assert((a + b)[t] == b[t - a.len()]);
                assert(f[f.len() - 1] == u0);
            }
        }
        assert forall|u: usize, j: int|
            f.contains(u) && 0 <= j < g.out_at(u).len() && sel.contains(#[trigger] g.out_at(u)[j].target)
                implies (a + b).contains((u, j as usize)) by {
            let x = choose|x: int| 0 <= x < f.len() && f[x] == u;
            if x < d.len() {
                assert(d[x] == u);
                assert(a.contains((u, j as usize)));
                let t = choose|t: int| 0 <= t < a.len() && a[t] == (u, j as usize);
                assert((a + b)[t] == a[t]);
            } else {
                assert(u == u0);
                assert(b.contains((u, j as usize)));
                let t = choose|t: int| 0 <= t < b.len() && b[t] == (u, j as usize);
                assert((a + b)[a.len() + t] == b[t]);
            }
        }
    }
}

proof fn lemma_first_members(g: GraphView, c: Seq<(usize, usize)>)
    ensures
        forall|t: int| 0 <= t < first_of_each_id(g, c).len() ==> c.contains(#[trigger] first_of_each_id(g, c)[t]),
    decreases c.len(),
{
    if c.len() > 0 {
        let d = c.drop_last();
        lemma_first_members(g, d);
        let r = first_of_each_id(g, d);
        let y = c.last();
        let r2 = first_of_each_id(g, c);
        assert(r2 == r || r2 == r.push(y));
        assert forall|t: int| 0 <= t < r2.len() implies c.contains(#[trigger] r2[t]) by {
            if t < r.len() {
                assert(r2[t] == r[t]);
                let x = choose|x: int| 0 <= x < d.len() && d[x] == r[t];
                assert(c[x] == d[x]);
            } else {
                assert(r2[t] == y);
                assert(c[c.len() - 1] == y);
            }
        }
    }
}

proof fn lemma_first_covers(g: GraphView, c: Seq<(usize, usize)>, x: int)
    requires
        0 <= x < c.len(),
    ensures
        exists|t: int| 0 <= t < first_of_each_id(g, c).len() && #[trigger] out_id(g, first_of_each_id(g, c)[t]) == out_id(g, c[x]),
    decreases c.len(),
{
    let d = c.drop_last();
    let r = first_of_each_id(g, d);
    let y = c.last();
    let r2 = first_of_each_id(g, c);
    if x < d.len() {
        lemma_first_covers(g, d, x);
        assert(c[x] == d[x]);
        let t = choose|t: int| 0 <= t < r.len() && #[trigger] out_id(g, r[t]) == out_id(g, d[x]);
        assert(r2 == r || r2 == r.push(y));
        assert(r2[t] == r[t]);
        assert(out_id(g, r2[t]) == out_id(g, c[x]));
    } else {
        assert(c[x] == y);
        if exists|i: int| 0 <= i < r.len() && out_id(g, #[trigger] r[i]) == out_id(g, y) {
            let i = choose|i: int| 0 <= i < r.len() && out_id(g, #[trigger] r[i]) == out_id(g, y);
            assert(r2 == r);
            assert(out_id(g, r2[i]) == out_id(g, c[x]));
        } else {
            assert(r2 == r.push(y));
            assert(r2[r.len() as int] == y);
            assert(out_id(g, r2[r.len() as int]) == out_id(g, c[x]));
        }
    }
}

proof fn lemma_first_distinct(g: GraphView, c: Seq<(usize, usize)>)
    ensures
        forall|a: int, b: int|
            0 <= a < b < first_of_each_id(g, c).len() ==> out_id(g, #[trigger] first_of_each_id(g, c)[a]) != out_id(
                g,
                #[trigger] first_of_each_id(g, c)[b],
            ),
    decreases c.len(),
{
    if c.len() > 0 {
        let d = c.drop_last();
        lemma_first_distinct(g, d);
        let r = first_of_each_id(g, d);
        let y = c.last();
        let r2 = first_of_each_id(g, c);
        if exists|i: int| 0 <= i < r.len() && out_id(g, #[trigger] r[i]) == out_id(g, y) {
            assert(r2 == r);
        } else {
            assert(r2 == r.push(y));
            assert forall|a: int, b: int| 0 <= a < b < r2.len() implies out_id(g, #[trigger] r2[a]) != out_id(
                g,
                #[trigger] r2[b],
            ) by {
                assert(r2[a] == r[a]);
                if b < r.len() {
                    assert(r2[b] == r[b]);
                } else {
                    assert(r2[b] == y);
                }
            }
        }
    }
}

/// The subgraph keeps every edge between selected nodes: each edge leaving a
/// selected node for a selected node appears, by its id, exactly once, and
/// nothing else appears; two edges are never merged because they share an
/// end.
pub proof fn law_subgraph_edges(g: GraphView, sel: Seq<usize>)
    ensures
        forall|u: usize, j: int|
            sel.contains(u) && 0 <= j < g.out_at(u).len() && sel.contains(#[trigger] g.out_at(u)[j].target)
                ==> exists|k: int|
                0 <= k < subgraph_edges(g, sel).len() && g.out_at((#[trigger] subgraph_edges(g, sel)[k]).0)[subgraph_edges(
                    g,
                    sel,
                )[k].1 as int].id@ == g.out_at(u)[j].id@,
        forall|k: int|
            0 <= k < subgraph_edges(g, sel).len() ==> sel.contains((#[trigger] subgraph_edges(g, sel)[k]).0)
                && subgraph_edges(g, sel)[k].1 < g.out_at(subgraph_edges(g, sel)[k].0).len() && sel.contains(
                g.out_at(subgraph_edges(g, sel)[k].0)[subgraph_edges(g, sel)[k].1 as int].target,
            ),
        forall|a: int, b: int|
            0 <= a < b < subgraph_edges(g, sel).len() ==> g.out_at((#[trigger] subgraph_edges(g, sel)[a]).0)[subgraph_edges(
                g,
                sel,
            )[a].1 as int].id@ != g.out_at((#[trigger] subgraph_edges(g, sel)[b]).0)[subgraph_edges(g, sel)[b].1 as int].id@,
{
    let c = edges_among(g, sel, sel);
    let r = subgraph_edges(g, sel);
    lemma_edges_among(g, sel, sel);
    lemma_first_members(g, c);
    lemma_first_distinct(g, c);
    assert forall|u: usize, j: int|
        sel.contains(u) && 0 <= j < g.out_at(u).len() && sel.contains(#[trigger] g.out_at(u)[j].target)
            implies exists|k: int| 0 <= k < r.len() && g.out_at((#[trigger] r[k]).0)[r[k].1 as int].id@ == g.out_at(u)[j].id@ by {
        lemma_out_len(g, u);
        assert(c.contains((u, j as usize)));
        let x = choose|x: int| 0 <= x < c.len() && c[x] == (u, j as usize);
        lemma_first_covers(g, c, x);
        let t = choose|t: int| 0 <= t < r.len() && #[trigger] out_id(g, r[t]) == out_id(g, c[x]);
        assert(g.out_at(r[t].0)[r[t].1 as int].id@ == g.out_at(u)[j].id@);
    }
    assert forall|k: int| 0 <= k < r.len() implies sel.contains((#[trigger] r[k]).0) && r[k].1 < g.out_at(r[k].0).len()
        && sel.contains(g.out_at(r[k].0)[r[k].1 as int].target) by {
        assert(c.contains(r[k]));
        let x = choose|x: int| 0 <= x < c.len() && c[x] == r[k];
    }
    assert forall|a: int, b: int| 0 <= a < b < r.len() implies g.out_at((#[trigger] r[a]).0)[r[a].1 as int].id@
        != g.out_at((#[trigger] r[b]).0)[r[b].1 as int].id@ by {
        assert(out_id(g, r[a]) != out_id(g, r[b]));
    }
}

fn list_has(v: &Vec<usize>, x: usize) -> (b: bool)
    ensures
        b == v@.contains(x),
{
    let mut i: usize = 0;
    while i < v.len()
        invariant
            i <= v@.len(),
            forall|k: int| 0 <= k < i ==> v@[k] != x,
        decreases v@.len() - i,
    {
        if v[i] == x {
            return true;
        }
        i = i + 1;
    }
    false
}

impl GraphView {
    /// The edges among the nodes `sel`, each as (node, position among the
    /// edges leaving it).
    pub fn subgraph(&self, sel: &Vec<usize>) -> (r: Vec<(usize, usize)>)
        requires
            self.wf(),
            forall|k: int| 0 <= k < sel@.len() ==> (#[trigger] sel@[k]) < self.ids@.len(),
        ensures
            r@ == subgraph_edges(*self, sel@),
    {
        let ghost c_all = edges_among(*self, sel@, sel@);
        let mut r: Vec<(usize, usize)> = Vec::new();
        let mut i: usize = 0;
        proof {
            assert(sel@.take(0) =~= seq![]);
        }
        while i < sel.len()
            invariant
                self.wf(),
                i <= sel@.len(),
                forall|k: int| 0 <= k < sel@.len() ==> (#[trigger] sel@[k]) < self.ids@.len(),
                r@ == first_of_each_id(*self, edges_among(*self, sel@, sel@.take(i as int))),
                forall|q: int| 0 <= q < r@.len() ==> (#[trigger] r@[q]).0 < self.ids@.len() && (r@[q].1 as int)
                    < self.out_at(r@[q].0).len(),
            decreases sel@.len() - i,
        {
            let u = sel[i];
            let outs = &self.outgoing[u];
            let ghost a = edges_among(*self, sel@, sel@.take(i as int));
            let mut j: usize = 0;
            proof {
                assert(a + edges_into(*self, sel@, u, 0) =~= a);
            }
            while j < outs.len()
                invariant
                    self.wf(),
                    u < self.ids@.len(),
                    *outs == self.outgoing@[u as int],
                    j <= outs@.len(),
                    forall|k: int| 0 <= k < sel@.len() ==> (#[trigger] sel@[k]) < self.ids@.len(),
                    r@ == first_of_each_id(*self, a + edges_into(*self, sel@, u, j as int)),
                    forall|q: int| 0 <= q < r@.len() ==> (#[trigger] r@[q]).0 < self.ids@.len() && (r@[q].1 as int)
                        < self.out_at(r@[q].0).len(),
                decreases outs@.len() - j,
            {
                let e = &outs[j];
                let ghost c = a + edges_into(*self, sel@, u, j as int);
                let listed = list_has(sel, e.target);
                if listed {
                    let ghost x = (u, j);
                    proof {
                        assert(self.out_at(u)[j as int] == *e);
                        assert(a + edges_into(*self, sel@, u, j + 1) =~= c.push(x));
                        assert(c.push(x).drop_last() =~= c);
                    }
                    // Skip an edge whose id was already taken
                    let mut dup = false;
                    let mut p: usize = 0;
                    while p < r.len()
                        invariant
                            self.wf(),
                            p <= r@.len(),
                            forall|q: int| 0 <= q < r@.len() ==> (#[trigger] r@[q]).0 < self.ids@.len() && (
                            r@[q].1 as int) < self.out_at(r@[q].0).len(),
                            dup == exists|i2: int| 0 <= i2 < p && out_id(*self, #[trigger] r@[i2]) == e.id@,
                        decreases r@.len() - p,
                    {
                        let (pu, pj) = r[p];
                        assert(self.out_at(pu) == self.outgoing@[pu as int]@);
                        if str_eq(self.outgoing[pu][pj].id.as_str(), e.id.as_str()) {
                            dup = true;
                        }
                        p = p + 1;
                    }
                    proof {
                        assert(out_id(*self, x) == e.id@);
                    }
                    if !dup {
                        r.push((u, j));
                        proof {
                            assert(self.out_at(u) == self.outgoing@[u as int]@);
                        }
                    }
                } else {
                    proof {
                        assert(self.out_at(u)[j as int] == *e);
                        assert(a + edges_into(*self, sel@, u, j + 1) =~= c);
                    }
                }
                j = j + 1;
            }
            proof {
                let t = sel@.take(i + 1);
                assert(t.drop_last() =~= sel@.take(i as int));
                assert(t.last() == u);
                assert(self.out_at(u) == self.outgoing@[u as int]@);
            }
            i = i + 1;
        }
        proof {
            assert(sel@.take(sel@.len() as int) =~= sel@);
        }
        r
    }

    /// The nodes one step from both `a` and `b`, other than `a` and `b`, in
    /// the order they are found from `b`.
    pub fn common_neighbors(&self, a: usize, b: usize) -> (r: Vec<usize>)
        requires
            self.wf(),
            a < self.ids@.len(),
            b < self.ids@.len(),
        ensures
            r@ == bfs_upto(*self, any_type(), b, 1).filter(
                |v: usize| bfs_upto(*self, any_type(), a, 1).contains(v) && v != a && v != b,
            ),
    {
        let options = NeighborOptions { depth: 1, edge_types: Vec::new(), include_self: false };
        assert(options.edge_types@ =~= any_type());
        let na = self.neighbors(a, &options);
        let nb = self.neighbors(b, &options);
        let ghost keep = |v: usize| na@.contains(v) && v != a && v != b;
        let mut r: Vec<usize> = Vec::new();
        let mut i: usize = 0;
        while i < nb.len()
            invariant
                i <= nb@.len(),
                r@ == nb@.take(i as int).filter(keep),
                keep == (|v: usize| na@.contains(v) && v != a && v != b),
            decreases nb@.len() - i,
        {
            let v = nb[i];
            let found = list_has(&na, v);
            proof {
                let t = nb@.take(i + 1);
                assert(t.drop_last() =~= nb@.take(i as int));
                assert(t.last() == v);
                nb@.take(i as int).lemma_filter_push(v, keep);
                assert(t == nb@.take(i as int).push(v));
            }
            if found && v != a && v != b {
                r.push(v);
            }
            i = i + 1;
        }
        assert(nb@.take(nb@.len() as int) =~= nb@);
        r
    }
}

// =============================================================================
// Laws
// =============================================================================

/// `v` is one step from `u` over an edge the filter allows.
pub open spec fn step_to(g: GraphView, types: Seq<String>, u: usize, v: usize) -> bool {
    exists|j: int|
        0 <= j < g.edges_at(u).len() && type_ok(#[trigger] g.edges_at(u)[j], types) && other_end(
            g.edges_at(u)[j],
            u,
        ) == v
}

/// The nodes at most `d` steps from `s`.
pub open spec fn within(g: GraphView, types: Seq<String>, s: usize, d: nat) -> Set<usize>
    decreases d,
{
    if d == 0 {
        set![s]
    } else {
        let w = within(g, types, s, (d - 1) as nat);
        w + Set::new(|v: usize| exists|u: usize| w.contains(u) && #[trigger] step_to(g, types, u, v))
    }
}

proof fn lemma_fresh_covers(c: Seq<Step>, seen: Set<usize>)
    ensures
        forall|i: int| 0 <= i < c.len() ==> seen.contains((#[trigger] c[i]).0) || reaches(fresh(c, seen), c[i].0),
        forall|a: int, b: int|
            0 <= a < b < fresh(c, seen).len() ==> (#[trigger] fresh(c, seen)[a]).0 != (#[trigger] fresh(
                c,
                seen,
            )[b]).0,
    decreases c.len(),
{
    if c.len() > 0 {
        let init = c.drop_last();
        lemma_fresh_covers(init, seen);
        let r = fresh(init, seen);
        let x = c.last();
        let out = fresh(c, seen);
        assert forall|i: int| 0 <= i < r.len() implies out.contains(#[trigger] r[i]) && reaches(out, r[i].0) by {
            if !(seen.contains(x.0) || reaches(r, x.0)) {
                assert(out[i] == r[i]);
            }
        }
        assert forall|i: int| 0 <= i < c.len() implies seen.contains((#[trigger] c[i]).0) || reaches(out, c[i].0) by {
            if i < init.len() {
                assert(init[i] == c[i]);
                if reaches(r, c[i].0) {
                    let k = choose|k: int| 0 <= k < r.len() && (#[trigger] r[k]).0 == c[i].0;
                    assert(reaches(out, r[k].0));
                }
            } else {
                if reaches(r, x.0) {
                    let k = choose|k: int| 0 <= k < r.len() && (#[trigger] r[k]).0 == x.0;
                    assert(reaches(out, r[k].0));
                } else if !seen.contains(x.0) {
                    assert(out[r.len() as int] == x);
                }
            }
        }
        if !(seen.contains(x.0) || reaches(r, x.0)) {
            assert forall|a: int, b: int| 0 <= a < b < out.len() implies (#[trigger] out[a]).0 != (
            #[trigger] out[b]).0 by {
                if b < r.len() {
                    assert(out[a] == r[a] && out[b] == r[b]);
                } else {
                    assert(out[a] == r[a]);
                    assert(out[b] == x);
                }
            }
        }
    }
}

/// Every step out of `f` leaves a node of `f` by an allowed edge, and every
/// allowed edge out of a node of `f` gives a step.
proof fn lemma_steps_of_exact(g: GraphView, types: Seq<String>, f: Seq<usize>)
    requires
        g.wf(),
    ensures
        forall|i: int|
            0 <= i < steps_of(g, types, f).len() ==> {
                let x = #[trigger] steps_of(g, types, f)[i];
                &&& f.contains(x.1)
                &&& x.2 < g.edges_at(x.1).len()
                &&& type_ok(g.edges_at(x.1)[x.2 as int], types)
                &&& x.0 == other_end(g.edges_at(x.1)[x.2 as int], x.1)
            },
        forall|k: int, j: int|
            0 <= k < f.len() && 0 <= j < g.edges_at(f[k]).len() && type_ok(
                #[trigger] g.edges_at(f[k])[j],
                types,
            ) ==> reaches(steps_of(g, types, f), other_end(g.edges_at(f[k])[j], f[k])),
    decreases f.len(),
{
    if f.len() > 0 {
        let init = f.drop_last();
        lemma_steps_of_exact(g, types, init);
        let u = f.last();
        let a = steps_of(g, types, init);
        let n = g.edges_at(u).len() as int;
        lemma_steps_from_exact(g, types, u, n);
        let b = steps_from(g, types, u, n);
        assert(steps_of(g, types, f) == a + b);
        assert forall|i: int| 0 <= i < (a + b).len() implies {
            let x = #[trigger] (a + b)[i];
            &&& f.contains(x.1)
            &&& x.2 < g.edges_at(x.1).len()
            &&& type_ok(g.edges_at(x.1)[x.2 as int], types)
            &&& x.0 == other_end(g.edges_at(x.1)[x.2 as int], x.1)
        } by {
            if i < a.len() {
                assert((a + b)[i] == a[i]);
                let k = choose|k: int| 0 <= k < init.len() && init[k] == a[i].1;
                assert(f[k] == init[k]);
            } else {
                assert((a + b)[i] == b[i - a.len()]);
                assert(f[f.len() - 1] == u);
            }
        }
        assert forall|k: int, j: int|
            0 <= k < f.len() && 0 <= j < g.edges_at(f[k]).len() && type_ok(
                #[trigger] g.edges_at(f[k])[j],
                types,
            ) implies reaches(a + b, other_end(g.edges_at(f[k])[j], f[k])) by {
            if k < init.len() {
                assert(init[k] == f[k]);
                let i = choose|i: int| 0 <= i < a.len() && (#[trigger] a[i]).0 == other_end(
                    g.edges_at(init[k])[j],
                    init[k],
                );
                assert((a + b)[i] == a[i]);
            } else {
                let i = choose|i: int| 0 <= i < b.len() && (#[trigger] b[i]).0 == other_end(
                    g.edges_at(u)[j],
                    u,
                );
                assert((a + b)[a.len() + i] == b[i]);
            }
        }
    }
}

proof fn lemma_steps_from_exact(g: GraphView, types: Seq<String>, u: usize, k: int)
    requires
        g.wf(),
        0 <= k <= g.edges_at(u).len(),
    ensures
        forall|i: int|
            0 <= i < steps_from(g, types, u, k).len() ==> {
                let x = #[trigger] steps_from(g, types, u, k)[i];
                &&& x.1 == u
                &&& x.2 < k
                &&& type_ok(g.edges_at(u)[x.2 as int], types)
                &&& x.0 == other_end(g.edges_at(u)[x.2 as int], u)
            },
        forall|j: int|
            0 <= j < k && type_ok(#[trigger] g.edges_at(u)[j], types) ==> reaches(
                steps_from(g, types, u, k),
                other_end(g.edges_at(u)[j], u),
            ),
    decreases k,
{
    if k > 0 {
        lemma_steps_from_exact(g, types, u, k - 1);
        let r = steps_from(g, types, u, k - 1);
        let e = g.edges_at(u)[k - 1];
        if type_ok(e, types) {
            let x: Step = (other_end(e, u), u, (k - 1) as usize);
            let out = r.push(x);
            assert forall|i: int| 0 <= i < out.len() implies {
                let y = #[trigger] out[i];
                &&& y.1 == u
                &&& y.2 < k
                &&& type_ok(g.edges_at(u)[y.2 as int], types)
                &&& y.0 == other_end(g.edges_at(u)[y.2 as int], u)
            } by {
                if i < r.len() {
                    assert(out[i] == r[i]);
                } else {
                    assert(g.incident@[u as int]@.len() <= usize::MAX);
                    assert(out[i] == x);
                }
            }
            assert forall|j: int| 0 <= j < k && type_ok(#[trigger] g.edges_at(u)[j], types) implies reaches(
                out,
                other_end(g.edges_at(u)[j], u),
            ) by {
                if j < k - 1 {
                    let i = choose|i: int| 0 <= i < r.len() && (#[trigger] r[i]).0 == other_end(
                        g.edges_at(u)[j],
                        u,
                    );
                    assert(out[i] == r[i]);
                } else {
                    assert(out[r.len() as int] == x);
                }
            }
        }
    }
}

/// The nodes seen by level `d` are those at most `d` steps away, and every
/// step out of them lands on a node seen by level `d + 1`.
proof fn lemma_levels_within(g: GraphView, types: Seq<String>, s: usize, d: nat)
    requires
        g.wf(),
    ensures
        bfs_level(g, types, s, d).1 == within(g, types, s, d),
        forall|u: usize, v: usize|
            bfs_level(g, types, s, d).1.contains(u) && #[trigger] step_to(g, types, u, v)
                ==> bfs_level(g, types, s, d + 1).1.contains(v),
        forall|k: int|
            0 <= k < bfs_level(g, types, s, d).0.len() ==> bfs_level(g, types, s, d).1.contains(
                (#[trigger] bfs_level(g, types, s, d).0[k]).0,
            ),
    decreases d,
{
    let (lvl, seen) = bfs_level(g, types, s, d);
    let f = step_nodes(lvl);
    let c = steps_of(g, types, f);
    let next = fresh(c, seen);
    assert(bfs_level(g, types, s, d + 1) == (next, seen + node_set(next)));
    lemma_steps_of_exact(g, types, f);
    lemma_fresh_covers(c, seen);
    // steps out of the current level land in the next seen set
    assert forall|u: usize, v: usize| f.contains(u) && #[trigger] step_to(g, types, u, v) implies (seen
        + node_set(next)).contains(v) by {
        let k = choose|k: int| 0 <= k < f.len() && f[k] == u;
        let j = choose|j: int|
            0 <= j < g.edges_at(u).len() && type_ok(#[trigger] g.edges_at(u)[j], types) && other_end(
                g.edges_at(u)[j],
                u,
            ) == v;
        assert(type_ok(g.edges_at(f[k])[j], types));
        let i = choose|i: int| 0 <= i < c.len() && (#[trigger] c[i]).0 == v;
        assert(seen.contains(c[i].0) || reaches(next, c[i].0));
    }
    if d == 0 {
        assert(lvl == seq![(s, s, 0usize)]);
        assert(f =~= seq![s]);
        assert(seen =~= within(g, types, s, d));
        assert forall|u: usize, v: usize|
            seen.contains(u) && #[trigger] step_to(g, types, u, v) implies (seen + node_set(next)).contains(v) by {
            assert(f[0] == u);
        }
    } else {
        let pd = (d - 1) as nat;
        lemma_levels_within(g, types, s, pd);
        let (plvl, pseen) = bfs_level(g, types, s, pd);
        let pf = step_nodes(plvl);
        let pc = steps_of(g, types, pf);
        lemma_steps_of_exact(g, types, pf);
        lemma_fresh_from(pc, pseen);
        assert(lvl == fresh(pc, pseen));
        assert(seen == pseen + node_set(lvl));
        let w = within(g, types, s, pd);
        let nw = Set::new(|v: usize| exists|u: usize| w.contains(u) && #[trigger] step_to(g, types, u, v));
        assert(within(g, types, s, d) == w + nw);
        assert forall|v: usize| seen.contains(v) == (w + nw).contains(v) by {
            if node_set(lvl).contains(v) {
                let k = choose|k: int| 0 <= k < lvl.len() && (#[trigger] lvl[k]).0 == v;
                assert(pc.contains(lvl[k]));
                let i = choose|i: int| 0 <= i < pc.len() && pc[i] == lvl[k];
                let x = pc[i];
                let q = choose|q: int| 0 <= q < pf.len() && pf[q] == x.1;
                assert(pf[q] == plvl[q].0);
                assert(pseen.contains(x.1));
                assert(step_to(g, types, x.1, v)) by {
                    assert(type_ok(g.edges_at(x.1)[x.2 as int], types));
                }
                assert(nw.contains(v));
            }
            if nw.contains(v) {
                let u = choose|u: usize| w.contains(u) && #[trigger] step_to(g, types, u, v);
                assert(pseen.contains(u));
                assert((pseen + node_set(lvl)).contains(v));
            }
        }
        assert(seen =~= within(g, types, s, d));
        assert forall|u: usize, v: usize|
            seen.contains(u) && #[trigger] step_to(g, types, u, v) implies (seen + node_set(next)).contains(v) by {
            if pseen.contains(u) {
                assert(seen.contains(v));
            } else {
                assert(node_set(lvl).contains(u));
                let k = choose|k: int| 0 <= k < lvl.len() && (#[trigger] lvl[k]).0 == u;
                assert(f[k] == u);
            }
        }
    }
    assert forall|k: int| 0 <= k < lvl.len() implies seen.contains((#[trigger] lvl[k]).0) by {
        if d == 0 {
        } else {
            assert(reaches(lvl, lvl[k].0));
        }
    }
}

proof fn lemma_upto_seen(g: GraphView, types: Seq<String>, s: usize, d: nat)
    ensures
        forall|v: usize|
            bfs_level(g, types, s, d).1.contains(v) == (v == s || bfs_upto(g, types, s, d).contains(v)),
        !bfs_upto(g, types, s, d).contains(s),
        forall|a: int, b: int|
            0 <= a < b < bfs_upto(g, types, s, d).len() ==> (#[trigger] bfs_upto(g, types, s, d)[a]) != (
            #[trigger] bfs_upto(g, types, s, d)[b]),
    decreases d,
{
    if d == 0 {
        assert(bfs_upto(g, types, s, d) =~= seq![]);
    } else {
        let pd = (d - 1) as nat;
        lemma_upto_seen(g, types, s, pd);
        let (plvl, pseen) = bfs_level(g, types, s, pd);
        let c = steps_of(g, types, step_nodes(plvl));
        let lvl = fresh(c, pseen);
        lemma_fresh_from(c, pseen);
        lemma_fresh_covers(c, pseen);
        let prev = bfs_upto(g, types, s, pd);
        let ns = step_nodes(lvl);
        let up = bfs_upto(g, types, s, d);
        assert(up == prev + ns);
        assert forall|v: usize| node_set(lvl).contains(v) == ns.contains(v) by {
            if node_set(lvl).contains(v) {
                let k = choose|k: int| 0 <= k < lvl.len() && (#[trigger] lvl[k]).0 == v;
                assert(ns[k] == v);
            }
            if ns.contains(v) {
                let k = choose|k: int| 0 <= k < ns.len() && ns[k] == v;
                assert(lvl[k].0 == v);
            }
        }
        assert forall|v: usize| up.contains(v) == (prev.contains(v) || ns.contains(v)) by {
            if up.contains(v) {
                let k = choose|k: int| 0 <= k < up.len() && up[k] == v;
                if k >= prev.len() {
                    assert(ns[k - prev.len()] == v);
                }
            }
            if prev.contains(v) {
                let k = choose|k: int| 0 <= k < prev.len() && prev[k] == v;
                assert(up[k] == v);
            }
            if ns.contains(v) {
                let k = choose|k: int| 0 <= k < ns.len() && ns[k] == v;
                assert(up[prev.len() + k] == v);
            }
        }
        assert forall|k: int| 0 <= k < ns.len() implies !pseen.contains(#[trigger] ns[k]) by {
            assert(ns[k] == lvl[k].0);
        }
        assert forall|a: int, b: int| 0 <= a < b < up.len() implies (#[trigger] up[a]) != (#[trigger] up[b]) by {
            if b < prev.len() {
                assert(up[a] == prev[a] && up[b] == prev[b]);
            } else if a < prev.len() {
                assert(up[a] == prev[a]);
                assert(up[b] == ns[b - prev.len()]);
                assert(prev.contains(prev[a]));
                assert(pseen.contains(prev[a]));
            } else {
                assert(up[a] == ns[a - prev.len()] && up[b] == ns[b - prev.len()]);
                assert(ns[a - prev.len()] == lvl[a - prev.len()].0);
                assert(ns[b - prev.len()] == lvl[b - prev.len()].0);
            }
        }
        assert(!ns.contains(s)) by {
            if ns.contains(s) {
                let k = choose|k: int| 0 <= k < ns.len() && ns[k] == s;
                assert(pseen.contains(s));
            }
        }
    }
}

/// A neighbour query returns each node within the search depth of the start
/// exactly once, and nothing else: `v` is returned exactly when it is not the
/// start and some walk of at most that many steps, over edges of the asked
/// types, leads from the start to it.
pub proof fn law_neighbors_within(g: GraphView, types: Seq<String>, start: usize, d: nat)
    requires
        g.wf(),
    ensures
        forall|v: usize|
            bfs_upto(g, types, start, d).contains(v) == (v != start && within(g, types, start, d).contains(v)),
        forall|a: int, b: int|
            0 <= a < b < bfs_upto(g, types, start, d).len() ==> (#[trigger] bfs_upto(g, types, start, d)[a])
                != (#[trigger] bfs_upto(g, types, start, d)[b]),
{
    lemma_upto_seen(g, types, start, d);
    lemma_levels_within(g, types, start, d);
}

/// `(ns, es)` is a walk from `s` to `t`: each edge leaves the node before it
/// and arrives at the node after it.
pub open spec fn is_walk(g: GraphView, s: usize, t: usize, w: (Seq<usize>, Seq<(usize, usize)>)) -> bool {
    let (ns, es) = w;
    &&& ns.len() == es.len() + 1
    &&& ns[0] == s
    &&& ns.last() == t
    &&& forall|i: int|
        0 <= i < es.len() ==> {
            let (u, j) = #[trigger] es[i];
            &&& u == ns[i]
            &&& (j as int) < g.edges_at(u).len()
            &&& other_end(g.edges_at(u)[j as int], u) == ns[i + 1]
        }
}

proof fn lemma_trace_walk(g: GraphView, s: usize, d: nat, v: usize)
    requires
        g.wf(),
        s < g.ids@.len(),
        reached_at(g, s, v, d),
    ensures
        is_walk(g, s, v, bfs_trace(g, s, d, v)),
        bfs_trace(g, s, d, v).1.len() == d,
    decreases d,
{
    let lvl = bfs_level(g, any_type(), s, d).0;
    let k = choose|k: int| 0 <= k < lvl.len() && (#[trigger] lvl[k]).0 == v;
    if d == 0 {
        assert(lvl == seq![(s, s, 0usize)]);
        assert(v == s);
    } else {
        let x = lvl[k];
        assert(lvl.contains(x));
        lemma_parent_step(g, s, d, v, x.1, x.2);
        lemma_trace_walk(g, s, (d - 1) as nat, x.1);
        let (ns, es) = bfs_trace(g, s, (d - 1) as nat, x.1);
        let w = (ns.push(v), es.push((x.1, x.2)));
        assert forall|i: int| 0 <= i < w.1.len() implies {
            let (u, j) = #[trigger] w.1[i];
            &&& u == w.0[i]
            &&& (j as int) < g.edges_at(u).len()
            &&& other_end(g.edges_at(u)[j as int], u) == w.0[i + 1]
        } by {
            if i < es.len() {
                assert(w.1[i] == es[i]);
                assert(w.0[i] == ns[i]);
                assert(w.0[i + 1] == ns[i + 1]);
            }
        }
    }
}

proof fn lemma_seen_reached(g: GraphView, s: usize, t: usize, d: nat)
    requires
        bfs_level(g, any_type(), s, d).1.contains(t),
    ensures
        exists|e: nat| e <= d && #[trigger] reached_at(g, s, t, e),
    decreases d,
{
    if d == 0 {
        assert(bfs_level(g, any_type(), s, 0).0[0] == (s, s, 0usize));
        assert(reached_at(g, s, t, 0));
    } else {
        let (prev, seen) = bfs_level(g, any_type(), s, (d - 1) as nat);
        if seen.contains(t) {
            lemma_seen_reached(g, s, t, (d - 1) as nat);
            let e = choose|e: nat| e <= d - 1 && #[trigger] reached_at(g, s, t, e);
        } else {
            assert(reached_at(g, s, t, d));
        }
    }
}

/// The breadth-first path is a shortest walk: when `to` can be reached the
/// path is a walk from `from` to `to` and no walk with fewer steps reaches
/// `to`; there is no path exactly when no walk of any length reaches `to`.
pub proof fn law_shortest_path(g: GraphView, from: usize, to: usize)
    requires
        g.wf(),
        from < g.ids@.len(),
    ensures
        match bfs_path(g, from, to) {
            Some(w) => {
                &&& is_walk(g, from, to, w)
                &&& within(g, any_type(), from, w.1.len()).contains(to)
                &&& forall|k: nat| k < w.1.len() ==> !(#[trigger] within(g, any_type(), from, k)).contains(to)
            },
            None => forall|k: nat| !(#[trigger] within(g, any_type(), from, k)).contains(to),
        },
{
    let ts = any_type();
    if from == to {
        lemma_levels_within(g, ts, from, 0);
        lemma_seen_grows(g, ts, from, 0, 0);
    } else if exists|d: nat| #[trigger] reached_at(g, from, to, d) {
        let d = choose|d: nat| #[trigger] reached_at(g, from, to, d);
        lemma_trace_walk(g, from, d, to);
        lemma_levels_within(g, ts, from, d);
        let lvl = bfs_level(g, ts, from, d).0;
        let k = choose|k: int| 0 <= k < lvl.len() && (#[trigger] lvl[k]).0 == to;
        if d == 0 {
            assert(lvl[k] == (from, from, 0usize));
        }
        lemma_level_fresh(g, ts, from, d);
        assert(bfs_level(g, ts, from, d).1.contains(to));
        assert forall|e: nat| e < d implies !(#[trigger] within(g, ts, from, e)).contains(to) by {
            lemma_levels_within(g, ts, from, e);
            lemma_seen_grows(g, ts, from, e, (d - 1) as nat);
            assert(!bfs_level(g, ts, from, (d - 1) as nat).1.contains(lvl[k].0));
        }
    } else {
        assert forall|e: nat| !(#[trigger] within(g, ts, from, e)).contains(to) by {
            lemma_levels_within(g, ts, from, e);
            if bfs_level(g, ts, from, e).1.contains(to) {
                lemma_seen_reached(g, from, to, e);
            }
        }
    }
}

/// No node occurs twice.
pub open spec fn simple(ns: Seq<usize>) -> bool {
    forall|a: int, b: int| 0 <= a < b < ns.len() ==> (#[trigger] ns[a]) != (#[trigger] ns[b])
}

proof fn lemma_extend_walk(g: GraphView, s: usize, cur: usize, w: Walk, k: int)
    requires
        g.wf(),
        is_walk(g, s, cur, w),
        simple(w.0),
        0 < k <= g.edges_at(cur).len(),
        !w.0.contains(other_end(g.edges_at(cur)[k - 1], cur)),
    ensures
        ({
            let v = other_end(g.edges_at(cur)[k - 1], cur);
            let w2 = (w.0.push(v), w.1.push((cur, (k - 1) as usize)));
            is_walk(g, s, v, w2) && simple(w2.0) && w2.1.len() == w.1.len() + 1
        }),
{
    let v = other_end(g.edges_at(cur)[k - 1], cur);
    let w2 = (w.0.push(v), w.1.push((cur, (k - 1) as usize)));
    assert(cur < g.ids@.len());
    assert(g.incident@[cur as int]@.len() <= usize::MAX);
    assert(w.0.last() == cur);
    assert forall|i: int| 0 <= i < w2.1.len() implies {
        let (u, j) = #[trigger] w2.1[i];
        &&& u == w2.0[i]
        &&& (j as int) < g.edges_at(u).len()
        &&& other_end(g.edges_at(u)[j as int], u) == w2.0[i + 1]
    } by {
        if i < w.1.len() {
            assert(w2.1[i] == w.1[i]);
            assert(w2.0[i] == w.0[i]);
            assert(w2.0[i + 1] == w.0[i + 1]);
        } else {
            assert(w2.0[i] == w.0[w.0.len() - 1]);
        }
    }
    assert forall|a: int, b: int| 0 <= a < b < w2.0.len() implies (#[trigger] w2.0[a]) != (#[trigger] w2.0[b]) by {
        assert(w2.0[a] == w.0[a]);
        if b < w.0.len() {
            assert(w2.0[b] == w.0[b]);
        }
    }
}

proof fn lemma_dfs_paths_walks(g: GraphView, s: usize, cur: usize, target: usize, depth: nat, w: Walk)
    requires
        g.wf(),
        is_walk(g, s, cur, w),
        simple(w.0),
    ensures
        forall|k: int|
            0 <= k < dfs_paths(g, cur, target, depth, w).len() ==> {
                let p = #[trigger] dfs_paths(g, cur, target, depth, w)[k];
                is_walk(g, s, target, p) && simple(p.0) && p.1.len() <= w.1.len() + depth
            },
    decreases depth, g.edges_at(cur).len() + 1,
{
    if cur == target {
        assert(dfs_paths(g, cur, target, depth, w) == seq![w]);
        assert(seq![w][0] == w);
    } else if depth > 0 {
        lemma_dfs_edges_walks(g, s, cur, target, depth, w, g.edges_at(cur).len() as int);
        assert(dfs_paths(g, cur, target, depth, w) == dfs_edges(g, cur, target, depth, w, g.edges_at(cur).len() as int));
    }
}

proof fn lemma_dfs_edges_walks(g: GraphView, s: usize, cur: usize, target: usize, depth: nat, w: Walk, k: int)
    requires
        g.wf(),
        is_walk(g, s, cur, w),
        simple(w.0),
        k <= g.edges_at(cur).len(),
    ensures
        forall|q: int|
            0 <= q < dfs_edges(g, cur, target, depth, w, k).len() ==> {
                let p = #[trigger] dfs_edges(g, cur, target, depth, w, k)[q];
                is_walk(g, s, target, p) && simple(p.0) && p.1.len() <= w.1.len() + depth
            },
    decreases depth, if k > 0 { k } else { 0 },
{
    if k > 0 && depth > 0 {
        lemma_dfs_edges_walks(g, s, cur, target, depth, w, k - 1);
        let v = other_end(g.edges_at(cur)[k - 1], cur);
        let a = dfs_edges(g, cur, target, depth, w, k - 1);
        if !w.0.contains(v) {
            lemma_extend_walk(g, s, cur, w, k);
            let w2 = (w.0.push(v), w.1.push((cur, (k - 1) as usize)));
            lemma_dfs_paths_walks(g, s, v, target, (depth - 1) as nat, w2);
            let b = dfs_paths(g, v, target, (depth - 1) as nat, w2);
            assert(dfs_edges(g, cur, target, depth, w, k) == a + b);
            assert forall|q: int| 0 <= q < (a + b).len() implies {
                let p = #[trigger] (a + b)[q];
                is_walk(g, s, target, p) && simple(p.0) && p.1.len() <= w.1.len() + depth
            } by {
                if q < a.len() {
                    assert((a + b)[q] == a[q]);
                } else {
                    assert((a + b)[q] == b[q - a.len()]);
                }
            }
        } else {
            assert(dfs_edges(g, cur, target, depth, w, k) =~= a);
        }
    }
}

/// Every path `all_paths` finds is a simple walk from `from` to `to` with
/// at most `max_depth` edges.
pub proof fn law_all_paths_simple(g: GraphView, from: usize, to: usize, max_depth: nat)
    requires
        g.wf(),
        from < g.ids@.len(),
    ensures
        forall|k: int|
            0 <= k < dfs_paths(g, from, to, max_depth, (seq![from], seq![])).len() ==> {
                let p = #[trigger] dfs_paths(g, from, to, max_depth, (seq![from], seq![]))[k];
                is_walk(g, from, to, p) && simple(p.0) && p.1.len() <= max_depth
            },
{
    let w: Walk = (seq![from], seq![]);
    assert(is_walk(g, from, from, w));
    lemma_dfs_paths_walks(g, from, from, to, max_depth, w);
}

} // verus!
