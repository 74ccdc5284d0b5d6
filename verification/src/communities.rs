//! Community detection by label propagation over the graph's adjacency.
//!
//! Nodes are numbered `0..n`; every node starts in its own community (its
//! number), and each sweep moves every node, in order, to the community most
//! common among its neighbours (ties to the smallest community number), until
//! a sweep changes nothing or twenty sweeps have run.

use vstd::prelude::*;

use crate::text::string_views;
use crate::traversal::{lemma_unmarked_set, unmarked_count};

verus! {

/// Most sweeps of label propagation.
pub const MAX_SWEEPS: usize = 20;

/// A community of nodes
#[derive(Debug, Clone)]
pub struct Community {
    /// Community ID
    pub id: usize,
    /// Node IDs in this community
    pub members: Vec<String>,
    /// Number of internal edges
    pub internal_edges: usize,
}

/// Centrality metric type
#[derive(Debug, Clone, Copy, PartialEq, Eq, Structural)]
pub enum CentralityMetric {
    Degree,
    InDegree,
    OutDegree,
    Betweenness,
}

// =============================================================================
// Specification
// =============================================================================

/// The neighbour list of node `i` (empty when not given).
pub open spec fn nbrs_of(adj: Seq<Seq<usize>>, i: int) -> Seq<usize> {
    if 0 <= i < adj.len() {
        adj[i]
    } else {
        seq![]
    }
}

/// How many of the neighbours `nb[0..k)` that are nodes carry label `l`.
pub open spec fn label_count(labels: Seq<usize>, nb: Seq<usize>, k: int, l: usize) -> int
    decreases k,
{
    if k <= 0 || k > nb.len() {
        0
    } else {
        label_count(labels, nb, k - 1, l) + if nb[k - 1] < labels.len() && labels[nb[k - 1] as int]
            == l {
            1int
        } else {
            0
        }
    }
}

/// The best label among the labels of neighbours `nb[0..k)`: most common over
/// the whole list, ties to the smallest; `None` when no neighbour is a node.
pub open spec fn best_label(labels: Seq<usize>, nb: Seq<usize>, k: int) -> Option<usize>
    decreases k,
{
    if k <= 0 || k > nb.len() {
        None
    } else {
        let prev = best_label(labels, nb, k - 1);
        let j = nb[k - 1];
        if j >= labels.len() {
            prev
        } else {
            let l = labels[j as int];
            match prev {
                None => Some(l),
                Some(b) => {
                    let cl = label_count(labels, nb, nb.len() as int, l);
                    let cb = label_count(labels, nb, nb.len() as int, b);
                    if cl > cb || (cl == cb && l < b) {
                        Some(l)
                    } else {
                        Some(b)
                    }
                },
            }
        }
    }
}

/// One sweep over nodes `0..i`: the labels after it and whether any changed.
pub open spec fn sweep(labels: Seq<usize>, adj: Seq<Seq<usize>>, i: int) -> (Seq<usize>, bool)
    decreases i,
{
    if i <= 0 || i > labels.len() {
        (labels, false)
    } else {
        let (ls, changed) = sweep(labels, adj, i - 1);
        let nb = nbrs_of(adj, i - 1);
        match best_label(ls, nb, nb.len() as int) {
            Some(b) => if b != ls[i - 1] {
                (ls.update(i - 1, b), true)
            } else {
                (ls, changed)
            },
            None => (ls, changed),
        }
    }
}

/// Sweeps until nothing changes, at most `rounds` of them.
pub open spec fn propagate(labels: Seq<usize>, adj: Seq<Seq<usize>>, rounds: nat) -> Seq<usize>
    decreases rounds,
{
    if rounds == 0 {
        labels
    } else {
        let (ls, changed) = sweep(labels, adj, labels.len() as int);
        if !changed {
            ls
        } else {
            propagate(ls, adj, (rounds - 1) as nat)
        }
    }
}

/// Each node in its own community.
pub open spec fn initial_labels(n: nat) -> Seq<usize> {
    Seq::new(n, |i: int| i as usize)
}

/// The final community of every node.
pub open spec fn final_labels(n: nat, adj: Seq<Seq<usize>>) -> Seq<usize> {
    propagate(initial_labels(n), adj, MAX_SWEEPS as nat)
}

/// The distinct labels of `ls[0..k)`, in order of first appearance.
pub open spec fn distinct_labels(ls: Seq<usize>, k: int) -> Seq<usize>
    decreases k,
{
    if k <= 0 || k > ls.len() {
        seq![]
    } else {
        let d = distinct_labels(ls, k - 1);
        if d.contains(ls[k - 1]) {
            d
        } else {
            d.push(ls[k - 1])
        }
    }
}

/// The nodes of `ls[0..k)` with label `l`, in order.
pub open spec fn members_of(ls: Seq<usize>, k: int, l: usize) -> Seq<int>
    decreases k,
{
    if k <= 0 || k > ls.len() {
        seq![]
    } else {
        let m = members_of(ls, k - 1, l);
        if ls[k - 1] == l {
            m.push(k - 1)
        } else {
            m
        }
    }
}

/// Out-edges of the nodes `ms[0..k)` that end at a node of label `l`.
pub open spec fn internal_count(ls: Seq<usize>, out: Seq<Seq<usize>>, ms: Seq<int>, k: int, l: usize) -> int
    decreases k,
{
    if k <= 0 || k > ms.len() {
        0
    } else {
        internal_count(ls, out, ms, k - 1, l) + label_count(ls, nbrs_of(out, ms[k - 1]), nbrs_of(
            out,
            ms[k - 1],
        ).len() as int, l)
    }
}

/// A community as (label, member nodes, internal edges).
pub open spec fn community_of(ls: Seq<usize>, out: Seq<Seq<usize>>, l: usize) -> (usize, Seq<int>, int) {
    let ms = members_of(ls, ls.len() as int, l);
    (l, ms, internal_count(ls, out, ms, ms.len() as int, l))
}

/// Where a stable insertion by descending size puts `c`.
pub open spec fn size_place(cs: Seq<(usize, Seq<int>, int)>, c: (usize, Seq<int>, int)) -> int
    decreases cs.len(),
{
    if cs.len() == 0 || c.1.len() > cs[0].1.len() {
        0
    } else {
        1 + size_place(cs.drop_first(), c)
    }
}

/// The communities of labels `ds[0..k)`, stably sorted by descending size.
pub open spec fn sorted_communities(
    ls: Seq<usize>,
    out: Seq<Seq<usize>>,
    ds: Seq<usize>,
    k: int,
) -> Seq<(usize, Seq<int>, int)>
    decreases k,
{
    if k <= 0 || k > ds.len() {
        seq![]
    } else {
        let r = sorted_communities(ls, out, ds, k - 1);
        let c = community_of(ls, out, ds[k - 1]);
        r.insert(size_place(r, c), c)
    }
}

/// The communities of a graph with `n` nodes, neighbour lists `both` (edges
/// in either direction) and out-neighbour lists `out`, largest first (equal
/// sizes in order of first member).
pub open spec fn detect(n: nat, both: Seq<Seq<usize>>, out: Seq<Seq<usize>>) -> Seq<(usize, Seq<int>, int)> {
    let ls = final_labels(n, both);
    let ds = distinct_labels(ls, n as int);
    sorted_communities(ls, out, ds, ds.len() as int)
}

/// A count capped at `usize::MAX`.
pub open spec fn capped(x: int) -> usize {
    if x > usize::MAX {
        usize::MAX
    } else {
        x as usize
    }
}

/// `c` is the community `m` of nodes named `ids`.
pub open spec fn community_is(c: Community, m: (usize, Seq<int>, int), ids: Seq<String>) -> bool {
    &&& c.id == m.0
    &&& c.members@.len() == m.1.len()
    &&& forall|j: int| 0 <= j < m.1.len() ==> (#[trigger] c.members@[j])@ == ids[m.1[j]]@
    &&& c.internal_edges == capped(m.2)
}

// =============================================================================
// Implementation
// =============================================================================

fn count_label(labels: &Vec<usize>, nb: &Vec<usize>, l: usize) -> (c: usize)
    ensures
        c == label_count(labels@, nb@, nb@.len() as int, l),
{
    let mut c: usize = 0;
    let mut k: usize = 0;
    while k < nb.len()
        invariant
            k <= nb@.len(),
            c == label_count(labels@, nb@, k as int, l),
            c <= k,
        decreases nb@.len() - k,
    {
        let j = nb[k];
        if j < labels.len() && labels[j] == l {
            c = c + 1;
        }
        k = k + 1;
    }
    c
}

fn best_of(labels: &Vec<usize>, nb: &Vec<usize>) -> (b: Option<usize>)
    ensures
        b == best_label(labels@, nb@, nb@.len() as int),
{
    let mut best: Option<usize> = None;
    let mut best_count: usize = 0;
    let mut k: usize = 0;
    while k < nb.len()
        invariant
            k <= nb@.len(),
            best == best_label(labels@, nb@, k as int),
            best matches Some(b) ==> best_count == label_count(labels@, nb@, nb@.len() as int, b),
        decreases nb@.len() - k,
    {
        let j = nb[k];
        if j < labels.len() {
            let l = labels[j];
            let cl = count_label(labels, nb, l);
            match best {
                None => {
                    best = Some(l);
                    best_count = cl;
                },
                Some(b) => {
                    if cl > best_count || (cl == best_count && l < b) {
                        best = Some(l);
                        best_count = cl;
                    }
                },
            }
        }
        k = k + 1;
    }
    best
}

fn empty_list() -> (v: Vec<usize>)
    ensures
        v@.len() == 0,
{
    Vec::new()
}

/// Detect communities by label propagation. Node `i` is named `node_ids[i]`;
/// `both[i]` lists its neighbours over edges in either direction and
/// `outgoing[i]` the targets of its out-edges (by node number; numbers that
/// are not nodes, and missing lists, are ignored).
pub fn communities(node_ids: &Vec<String>, both: &Vec<Vec<usize>>, outgoing: &Vec<Vec<usize>>) -> (out:
    Vec<Community>)
    ensures
        out@.len() == detect(node_ids@.len(), vecs_view(both@), vecs_view(outgoing@)).len(),
        forall|k: int|
            0 <= k < out@.len() ==> community_is(
                #[trigger] out@[k],
                detect(node_ids@.len(), vecs_view(both@), vecs_view(outgoing@))[k],
                node_ids@,
            ),
{
    let n = node_ids.len();
    let ghost adj = vecs_view(both@);
    let ghost outs = vecs_view(outgoing@);
    // Each node starts in its own community
    let mut labels: Vec<usize> = Vec::new();
    let mut i: usize = 0;
    while i < n
        invariant
            i <= n,
            labels@ == initial_labels(i as nat),
        decreases n - i,
    {
        labels.push(i);
        assert(labels@ =~= initial_labels((i + 1) as nat));
        i = i + 1;
    }
    let ghost mut rounds: nat = MAX_SWEEPS as nat;
    let mut iter: usize = 0;
    let mut done = false;
    while iter < MAX_SWEEPS && !done
        invariant
            iter <= MAX_SWEEPS,
            labels@.len() == n,
            adj == vecs_view(both@),
            done ==> final_labels(n as nat, adj) == labels@,
            !done ==> final_labels(n as nat, adj) == propagate(
                labels@,
                adj,
                (MAX_SWEEPS - iter) as nat,
            ),
            !done && iter == MAX_SWEEPS ==> final_labels(n as nat, adj) == labels@,
        decreases MAX_SWEEPS - iter,
    {
        let ghost before = labels@;
        let mut changed = false;
        let mut v: usize = 0;
        while v < n
            invariant
                v <= n,
                labels@.len() == n,
                before.len() == n,
                adj == vecs_view(both@),
                (labels@, changed) == sweep(before, adj, v as int),
            decreases n - v,
        {
            let nb = if v < both.len() {
                &both[v]
            } else {
                &empty_list()
            };
            assert(nb@ == nbrs_of(adj, v as int)) by {
                if v < both.len() {
                    assert(adj[v as int] == both@[v as int]@);
                }
            }
            match best_of(&labels, nb) {
                Some(b) => {
                    if b != labels[v] {
                        labels.set(v, b);
                        changed = true;
                    }
                },
                None => {},
            }
            v = v + 1;
        }
        iter = iter + 1;
        if !changed {
            done = true;
        }
        proof {
            if iter == MAX_SWEEPS && changed {
                assert(propagate(labels@, adj, 0) == labels@);
            }
        }
    }
    let ghost ls = labels@;
    // Distinct labels in order of first appearance
    let mut ds: Vec<usize> = Vec::new();
    let mut k: usize = 0;
    while k < n
        invariant
            k <= n == ls.len(),
            labels@ == ls,
            ds@ == distinct_labels(ls, k as int),
        decreases n - k,
    {
        let l = labels[k];
        let mut seen = false;
        let mut j: usize = 0;
        while j < ds.len()
            invariant
                j <= ds@.len(),
                seen == (exists|q: int| 0 <= q < j && ds@[q] == l),
            decreases ds@.len() - j,
        {
            if ds[j] == l {
                seen = true;
            }
            j = j + 1;
        }
        assert(seen == ds@.contains(l));
        if !seen {
            ds.push(l);
        }
        k = k + 1;
    }
    // Build the communities, stably sorted by descending size
    let ghost dv = ds@;
    let mut result: Vec<Community> = Vec::new();
    let ghost mut model: Seq<(usize, Seq<int>, int)> = seq![];
    let mut c: usize = 0;
    while c < ds.len()
        invariant
            c <= dv.len(),
            ds@ == dv,
            labels@ == ls,
            n == ls.len(),
            n == node_ids@.len(),
            outs == vecs_view(outgoing@),
            model == sorted_communities(ls, outs, dv, c as int),
            result@.len() == model.len(),
            forall|q: int| 0 <= q < result@.len() ==> community_is(#[trigger] result@[q], model[q], node_ids@),
        decreases dv.len() - c,
    {
        let l = ds[c];
        let mut members: Vec<String> = Vec::new();
        let mut member_idx: Vec<usize> = Vec::new();
        let mut internal: usize = 0;
        let ghost mut exact: int = 0;
        let mut v: usize = 0;
        while v < n
            invariant
                v <= n == ls.len(),
                labels@ == ls,
                n == node_ids@.len(),
                outs == vecs_view(outgoing@),
                member_idx@.len() == members@.len(),
                usize_ints(member_idx@) == members_of(ls, v as int, l),
                forall|j: int| 0 <= j < members@.len() ==> (#[trigger] members@[j])@ == node_ids@[member_idx@[j] as int]@,
            decreases n - v,
        {
            if labels[v] == l {
                members.push(node_ids[v].clone());
                member_idx.push(v);
                assert(usize_ints(member_idx@) =~= members_of(ls, v + 1, l));
            } else {
                assert(usize_ints(member_idx@) =~= members_of(ls, v + 1, l));
            }
            v = v + 1;
        }
        let ghost ms = members_of(ls, n as int, l);
        let mut m: usize = 0;
        while m < member_idx.len()
            invariant
                m <= member_idx@.len(),
                usize_ints(member_idx@) == ms,
                labels@ == ls,
                outs == vecs_view(outgoing@),
                exact == internal_count(ls, outs, ms, m as int, l),
                internal == capped(exact),
                exact >= 0,
            decreases member_idx@.len() - m,
        {
            let node = member_idx[m];
            let nb = if node < outgoing.len() {
                &outgoing[node]
            } else {
                &empty_list()
            };
            assert(nb@ == nbrs_of(outs, ms[m as int])) by {
                assert(ms[m as int] == node as int);
                if node < outgoing.len() {
                    assert(outs[node as int] == outgoing@[node as int]@);
                }
            }
            let cnt = count_label(&labels, nb, l);
            proof {
                exact = exact + cnt;
            }
            internal = internal.saturating_add(cnt);
            m = m + 1;
        }
        let ghost cm = community_of(ls, outs, l);
        assert(cm == (l, ms, exact));
        let comm = Community { id: l, members, internal_edges: internal };
        assert(community_is(comm, cm, node_ids@));
        // Insert after every community at least as large
        let size = member_idx.len();
        let mut j: usize = 0;
        while j < result.len() && !(size > result[j].members.len())
            invariant
                j <= result@.len(),
                result@.len() == model.len(),
                size == ms.len(),
                forall|q: int| 0 <= q < result@.len() ==> community_is(#[trigger] result@[q], model[q], node_ids@),
                forall|q: int| 0 <= q < j ==> !(ms.len() > (#[trigger] model[q]).1.len()),
            decreases result@.len() - j,
        {
            assert(community_is(result@[j as int], model[j as int], node_ids@));
            j = j + 1;
        }
        proof {
            if j < result@.len() {
                assert(community_is(result@[j as int], model[j as int], node_ids@));
            }
            lemma_size_place(model, cm, j as int);
            assert(dv[c as int] == l);
        }
        let ghost before = result@;
        result.insert(j, comm);
        proof {
            let nm = model.insert(j as int, cm);
            assert forall|q: int| 0 <= q < result@.len() implies community_is(
                #[trigger] result@[q],
                nm[q],
                node_ids@,
            ) by {
                if q < j {
                    assert(result@[q] == before[q]);
                } else if q > j {
                    assert(result@[q] == before[q - 1]);
                    assert(nm[q] == model[q - 1]);
                }
            }
            model = nm;
        }
        c = c + 1;
    }
    result
}

/// `a` comes before `b` in a degree ranking: more edges, or as many and an
/// earlier node.
pub open spec fn degree_before(a: (usize, usize), b: (usize, usize)) -> bool {
    a.1 > b.1 || (a.1 == b.1 && a.0 < b.0)
}

/// The ranking behind degree centrality. `lists[i]` holds the edges counted
/// for node `i` (those touching it, entering it or leaving it, by metric);
/// the score divides that count by one less than the number of nodes, the
/// same for every node, so ranking by score is ranking by count. Each node
/// comes once with its count, most edges first, in node order among equals.
pub fn rank_by_degree(lists: &Vec<Vec<usize>>) -> (r: Vec<(usize, usize)>)
    ensures
        r@.len() == lists@.len(),
        forall|a: int|
            0 <= a < r@.len() ==> (#[trigger] r@[a]).0 < lists@.len() && r@[a].1 == lists@[r@[a].0 as int]@.len(),
        forall|a: int, b: int| 0 <= a < b < r@.len() ==> degree_before(#[trigger] r@[a], #[trigger] r@[b]),
{
    let mut r: Vec<(usize, usize)> = Vec::new();
    let mut i: usize = 0;
    while i < lists.len()
        invariant
            i <= lists@.len(),
            r@.len() == i,
            forall|a: int| 0 <= a < r@.len() ==> (#[trigger] r@[a]).0 < i && r@[a].1 == lists@[r@[a].0 as int]@.len(),
            forall|a: int, b: int| 0 <= a < b < r@.len() ==> degree_before(#[trigger] r@[a], #[trigger] r@[b]),
        decreases lists@.len() - i,
    {
        let c = lists[i].len();
        let mut p: usize = 0;
        while p < r.len() && r[p].1 >= c
            invariant
                p <= r@.len(),
                forall|a: int| 0 <= a < p ==> (#[trigger] r@[a]).1 >= c,
            decreases r@.len() - p,
        {
            p = p + 1;
        }
        let ghost before = r@;
        r.insert(p, (i, c));
        proof {
            assert forall|a: int| 0 <= a < r@.len() implies (#[trigger] r@[a]).0 < i + 1 && r@[a].1
                == lists@[r@[a].0 as int]@.len() by {
                if a < p {
                    assert(r@[a] == before[a]);
                } else if a > p {
                    assert(r@[a] == before[a - 1]);
                }
            }
            assert forall|a: int, b: int| 0 <= a < b < r@.len() implies degree_before(
                #[trigger] r@[a],
                #[trigger] r@[b],
            ) by {
                if b < p {
                    assert(r@[a] == before[a] && r@[b] == before[b]);
                } else if b == p {
                    assert(r@[a] == before[a]);
                } else if a < p {
                    assert(r@[a] == before[a] && r@[b] == before[b - 1]);
                } else if a == p {
                    assert(r@[b] == before[b - 1]);
                    assert(before[p as int].1 < c);
                    if b - 1 > p {
                        assert(degree_before(before[p as int], before[b - 1]));
                    }
                } else {
                    assert(r@[a] == before[a - 1] && r@[b] == before[b - 1]);
                }
            }
        }
        i = i + 1;
    }
    r
}

// =============================================================================
// Connected components
// =============================================================================

/// Edge `e` joins `u` and `v`, in either direction.
pub open spec fn joins(e: (usize, usize), u: usize, v: usize) -> bool {
    (e.0 == u && e.1 == v) || (e.0 == v && e.1 == u)
}

/// Nodes `u` and `v`, both below `n`, are joined by one of `edges`.
pub open spec fn adjacent(n: nat, edges: Seq<(usize, usize)>, u: usize, v: usize) -> bool {
    &&& u < n
    &&& v < n
    &&& exists|k: int| 0 <= k < edges.len() && #[trigger] joins(edges[k], u, v)
}

/// Node `k` of `p` is adjacent to the next one.
pub open spec fn walk_step(n: nat, edges: Seq<(usize, usize)>, p: Seq<usize>, k: int) -> bool {
    adjacent(n, edges, p[k], p[k + 1])
}

/// `p` is a walk over the edges, ignoring their direction.
pub open spec fn is_walk(n: nat, edges: Seq<(usize, usize)>, p: Seq<usize>) -> bool {
    &&& p.len() >= 1
    &&& forall|k: int| 0 <= k < p.len() - 1 ==> #[trigger] walk_step(n, edges, p, k)
}

/// A walk leads from `u` to `v`.
pub open spec fn linked(n: nat, edges: Seq<(usize, usize)>, u: usize, v: usize) -> bool {
    exists|p: Seq<usize>| #[trigger] is_walk(n, edges, p) && p[0] == u && p.last() == v
}

/// `c` is a component: nodes below `n`, each once, first its smallest, every
/// one reached from the first, and every neighbour of a member a member.
pub open spec fn component_ok(n: nat, edges: Seq<(usize, usize)>, c: Seq<usize>) -> bool {
    &&& c.len() > 0
    &&& c.no_duplicates()
    &&& forall|j: int| 0 <= j < c.len() ==> #[trigger] c[j] < n && c[0] <= c[j]
    &&& forall|j: int| 0 <= j < c.len() ==> linked(n, edges, c[0], #[trigger] c[j])
    &&& forall|j: int, w: usize| 0 <= j < c.len() && #[trigger] adjacent(n, edges, c[j], w) ==> c.contains(w)
}

/// Some component holds `v`.
pub open spec fn in_some(cs: Seq<Seq<usize>>, v: usize) -> bool {
    exists|i: int| 0 <= i < cs.len() && #[trigger] cs[i].contains(v)
}

/// Components in order: larger first, then by first node.
pub open spec fn component_before(a: Seq<usize>, b: Seq<usize>) -> bool {
    a.len() > b.len() || (a.len() == b.len() && a[0] < b[0])
}

/// `cs` are components, no node in two of them, in order.
pub open spec fn components_ok(n: nat, edges: Seq<(usize, usize)>, cs: Seq<Seq<usize>>) -> bool {
    &&& forall|i: int| 0 <= i < cs.len() ==> component_ok(n, edges, #[trigger] cs[i])
    &&& forall|i: int, i2: int, v: usize|
        0 <= i < cs.len() && 0 <= i2 < cs.len() && i != i2 && #[trigger] cs[i].contains(v) ==> !(#[trigger] cs[i2].contains(v))
    &&& forall|a: int, b: int| 0 <= a < b < cs.len() ==> component_before(#[trigger] cs[a], #[trigger] cs[b])
}

/// Every neighbour of `u` is in `nb`, and every entry of `nb` is one.
pub open spec fn neighbours_are(n: nat, edges: Seq<(usize, usize)>, u: usize, nb: Seq<usize>) -> bool {
    &&& forall|j: int| 0 <= j < nb.len() ==> adjacent(n, edges, u, #[trigger] nb[j])
    &&& forall|w: usize| #[trigger] adjacent(n, edges, u, w) ==> nb.contains(w)
}

proof fn lemma_adjacent_symmetric(n: nat, edges: Seq<(usize, usize)>, u: usize, v: usize)
    requires
        adjacent(n, edges, u, v),
    ensures
        adjacent(n, edges, v, u),
{
    let k = choose|k: int| 0 <= k < edges.len() && #[trigger] joins(edges[k], u, v);
    assert(joins(edges[k], v, u));
}

proof fn lemma_linked_step(n: nat, edges: Seq<(usize, usize)>, s: usize, u: usize, w: usize)
    requires
        linked(n, edges, s, u),
        adjacent(n, edges, u, w),
    ensures
        linked(n, edges, s, w),
{
    let p = choose|p: Seq<usize>| #[trigger] is_walk(n, edges, p) && p[0] == s && p.last() == u;
    let p2 = p.push(w);
    assert forall|k: int| 0 <= k < p2.len() - 1 implies #[trigger] walk_step(n, edges, p2, k) by {
        if k < p.len() - 1 {
            assert(walk_step(n, edges, p, k));
        }
    }
    assert(is_walk(n, edges, p2));
}

/// For each node below `n`, the nodes its edges lead to, then those whose
/// edges lead to it; edges with an end outside `0..n` are left out.
fn adjacency(n: usize, edges: &Vec<(usize, usize)>) -> (r: (Vec<Vec<usize>>, Vec<Vec<usize>>))
    ensures
        r.0@.len() == n,
        r.1@.len() == n,
        forall|u: int| 0 <= u < n ==> neighbours_are(n as nat, edges@, u as usize, #[trigger] r.0@[u]@ + r.1@[u]@),
{
    let mut out: Vec<Vec<usize>> = Vec::new();
    let mut inc: Vec<Vec<usize>> = Vec::new();
    let mut i: usize = 0;
    while i < n
        invariant
            i <= n,
            out@.len() == i,
            inc@.len() == i,
            forall|u: int| 0 <= u < i ==> (#[trigger] out@[u])@.len() == 0,
            forall|u: int| 0 <= u < i ==> (#[trigger] inc@[u])@.len() == 0,
        decreases n - i,
    {
        out.push(Vec::new());
        inc.push(Vec::new());
        i = i + 1;
    }
    let mut k: usize = 0;
    while k < edges.len()
        invariant
            k <= edges@.len(),
            out@.len() == n,
            inc@.len() == n,
            forall|u: int, j: int|
                0 <= u < n && 0 <= j < out@[u]@.len() ==> adjacent(n as nat, edges@, u as usize, #[trigger] out@[u]@[j]),
            forall|u: int, j: int|
                0 <= u < n && 0 <= j < inc@[u]@.len() ==> adjacent(n as nat, edges@, u as usize, #[trigger] inc@[u]@[j]),
            forall|kk: int|
                0 <= kk < k && (#[trigger] edges@[kk]).0 < n && edges@[kk].1 < n ==> out@[edges@[kk].0 as int]@.contains(
                    edges@[kk].1,
                ) && inc@[edges@[kk].1 as int]@.contains(edges@[kk].0),
        decreases edges@.len() - k,
    {
        let (a, b) = edges[k];
        if a < n && b < n {
            let ghost o0 = out@;
            let ghost i0 = inc@;
            out[a].push(b);
            inc[b].push(a);
            proof {
                assert(joins(edges@[k as int], a, b));
                assert(joins(edges@[k as int], b, a));
                assert forall|u: int, j: int|
                    0 <= u < n && 0 <= j < out@[u]@.len() implies adjacent(
                    n as nat,
                    edges@,
                    u as usize,
                    #[trigger] out@[u]@[j],
                ) by {
                    if u != a || j < o0[u]@.len() {
                        assert(out@[u]@[j] == o0[u]@[j]);
                    }
                }
                assert forall|u: int, j: int|
                    0 <= u < n && 0 <= j < inc@[u]@.len() implies adjacent(
                    n as nat,
                    edges@,
                    u as usize,
                    #[trigger] inc@[u]@[j],
                ) by {
                    if u != b || j < i0[u]@.len() {
                        assert(inc@[u]@[j] == i0[u]@[j]);
                    }
                }
                assert forall|kk: int|
                    0 <= kk < k + 1 && (#[trigger] edges@[kk]).0 < n && edges@[kk].1 < n implies out@[edges@[kk].0 as int]@.contains(
                    edges@[kk].1,
                ) && inc@[edges@[kk].1 as int]@.contains(edges@[kk].0) by {
                    if kk < k {
                        let x = edges@[kk].0 as int;
                        let y = edges@[kk].1 as int;
                        let j1 = choose|j: int| 0 <= j < o0[x]@.len() && o0[x]@[j] == edges@[kk].1;
                        assert(out@[x]@[j1] == o0[x]@[j1]);
                        let j2 = choose|j: int| 0 <= j < i0[y]@.len() && i0[y]@[j] == edges@[kk].0;
                        assert(inc@[y]@[j2] == i0[y]@[j2]);
                    } else {
                        assert(out@[a as int]@[o0[a as int]@.len() as int] == b);
                        assert(inc@[b as int]@[i0[b as int]@.len() as int] == a);
                    }
                }
            }
        }
        k = k + 1;
    }
    proof {
        assert forall|u: int| 0 <= u < n implies neighbours_are(
            n as nat,
            edges@,
            u as usize,
            #[trigger] out@[u]@ + inc@[u]@,
        ) by {
            let nb = out@[u]@ + inc@[u]@;
            assert forall|j: int| 0 <= j < nb.len() implies adjacent(n as nat, edges@, u as usize, #[trigger] nb[j]) by {
                if j < out@[u]@.len() {
                    assert(nb[j] == out@[u]@[j]);
                } else {
                    assert(nb[j] == inc@[u]@[j - out@[u]@.len()]);
                }
            }
            assert forall|w: usize| #[trigger] adjacent(n as nat, edges@, u as usize, w) implies nb.contains(w) by {
                let kk = choose|kk: int| 0 <= kk < edges@.len() && #[trigger] joins(edges@[kk], u as usize, w);
                let e = edges@[kk];
                if e.0 == u && e.1 == w {
                    let j = choose|j: int| 0 <= j < out@[u]@.len() && out@[u]@[j] == w;
                    assert(nb[j] == w);
                } else {
                    let j = choose|j: int| 0 <= j < inc@[u]@.len() && inc@[u]@[j] == w;
                    assert(nb[out@[u]@.len() + j] == w);
                }
            }
        }
    }
    (out, inc)
}

proof fn lemma_insert_component(n: nat, edges: Seq<(usize, usize)>, cs: Seq<Seq<usize>>, p: int, c: Seq<usize>)
    requires
        components_ok(n, edges, cs),
        component_ok(n, edges, c),
        0 <= p <= cs.len(),
        forall|v: usize| #[trigger] c.contains(v) ==> !in_some(cs, v),
        forall|a: int| 0 <= a < p ==> (#[trigger] cs[a]).len() >= c.len(),
        p < cs.len() ==> cs[p].len() < c.len(),
        forall|i: int| 0 <= i < cs.len() ==> (#[trigger] cs[i])[0] < c[0],
    ensures
        components_ok(n, edges, cs.insert(p, c)),
        forall|v: usize| #[trigger] in_some(cs.insert(p, c), v) <==> in_some(cs, v) || c.contains(v),
{
    let cs2 = cs.insert(p, c);
    assert forall|i: int| 0 <= i < cs2.len() implies component_ok(n, edges, #[trigger] cs2[i]) by {
        if i < p {
            assert(cs2[i] == cs[i]);
        } else if i > p {
            assert(cs2[i] == cs[i - 1]);
        }
    }
    assert forall|i: int, i2: int, v: usize|
        0 <= i < cs2.len() && 0 <= i2 < cs2.len() && i != i2 && #[trigger] cs2[i].contains(v) implies !(
        #[trigger] cs2[i2].contains(v)) by {
        let j = if i < p {
            i
        } else {
            i - 1
        };
        let j2 = if i2 < p {
            i2
        } else {
            i2 - 1
        };
        if i != p && i2 != p {
            assert(cs2[i] == cs[j] && cs2[i2] == cs[j2]);
        } else if i == p {
            assert(cs2[i2] == cs[j2]);
            if cs2[i2].contains(v) {
                assert(in_some(cs, v));
            }
        } else {
            assert(cs2[i] == cs[j]);
            assert(in_some(cs, v));
        }
    }
    assert forall|a: int, b: int| 0 <= a < b < cs2.len() implies component_before(#[trigger] cs2[a], #[trigger] cs2[b]) by {
        if b < p {
            assert(cs2[a] == cs[a] && cs2[b] == cs[b]);
        } else if b == p {
            assert(cs2[a] == cs[a]);
        } else if a < p {
            assert(cs2[a] == cs[a] && cs2[b] == cs[b - 1]);
        } else if a == p {
            assert(cs2[b] == cs[b - 1]);
            if b - 1 > p {
                assert(component_before(cs[p], cs[b - 1]));
            }
        } else {
            assert(cs2[a] == cs[a - 1] && cs2[b] == cs[b - 1]);
        }
    }
    assert forall|v: usize| #[trigger] in_some(cs2, v) <==> in_some(cs, v) || c.contains(v) by {
        if in_some(cs2, v) {
            let i = choose|i: int| 0 <= i < cs2.len() && #[trigger] cs2[i].contains(v);
            if i < p {
                assert(cs2[i] == cs[i]);
            } else if i > p {
                assert(cs2[i] == cs[i - 1]);
            }
        }
        if in_some(cs, v) {
            let i = choose|i: int| 0 <= i < cs.len() && #[trigger] cs[i].contains(v);
            if i < p {
                assert(cs2[i] == cs[i]);
            } else {
                assert(cs2[i + 1] == cs[i]);
            }
        }
        if c.contains(v) {
            assert(cs2[p] == c);
        }
    }
}

/// The weakly connected components of the graph on nodes `0..n` with
/// `edges` (source, target): edges are walked either way, and those with an
/// end outside `0..n` are left out. Every node is in exactly one component;
/// a component holds every node a walk reaches from any of its members, and
/// a walk reaches each of them from its first node, which is its smallest;
/// larger components come first, equal sizes by first node.
pub fn connected_components(n: usize, edges: &Vec<(usize, usize)>) -> (r: Vec<Vec<usize>>)
    ensures
        components_ok(n as nat, edges@, vecs_view(r@)),
        forall|v: usize| v < n ==> #[trigger] in_some(vecs_view(r@), v),
{
    let (out, inc) = adjacency(n, edges);
    let mut visited: Vec<bool> = Vec::new();
    let mut i: usize = 0;
    while i < n
        invariant
            i <= n,
            visited@.len() == i,
            forall|v: int| 0 <= v < i ==> !(#[trigger] visited@[v]),
        decreases n - i,
    {
        visited.push(false);
        i = i + 1;
    }
    let mut r: Vec<Vec<usize>> = Vec::new();
    let mut s: usize = 0;
    proof {
        assert forall|v: usize| v < n implies (visited@[v as int] <==> in_some(vecs_view(r@), v)) by {
            assert(!visited@[v as int]);
        }
    }
    while s < n
        invariant
            s <= n,
            visited@.len() == n,
            out@.len() == n,
            inc@.len() == n,
            forall|u: int| 0 <= u < n ==> neighbours_are(n as nat, edges@, u as usize, #[trigger] out@[u]@ + inc@[u]@),
            components_ok(n as nat, edges@, vecs_view(r@)),
            forall|v: usize| v < n ==> (visited@[v as int] <==> #[trigger] in_some(vecs_view(r@), v)),
            forall|v: usize| v < s ==> #[trigger] visited@[v as int],
            forall|i: int| 0 <= i < r@.len() ==> (#[trigger] r@[i])@[0] < s,
        decreases n - s,
    {
        if !visited[s] {
            let ghost cs = vecs_view(r@);
            let ghost vis0 = visited@;
            proof {
                lemma_unmarked_set(vis0, s as int);
            }
            visited.set(s, true);
            let mut q: Vec<usize> = Vec::new();
            q.push(s);
            let mut head: usize = 0;
            proof {
                let w = seq![s];
                assert(is_walk(n as nat, edges@, w));
                assert(linked(n as nat, edges@, s, s));
                assert forall|v: usize| v < n implies (visited@[v as int] <==> in_some(cs, v) || q@.contains(v)) by {
                    if v == s {
                        assert(q@[0] == s);
                    }
                }
            }
            while head < q.len()
                invariant
                    s < n,
                    visited@.len() == n,
                    out@.len() == n,
                    inc@.len() == n,
                    forall|u: int| 0 <= u < n ==> neighbours_are(n as nat, edges@, u as usize, #[trigger] out@[u]@ + inc@[u]@),
                    cs == vecs_view(r@),
                    components_ok(n as nat, edges@, cs),
                    forall|i: int| 0 <= i < r@.len() ==> (#[trigger] r@[i])@[0] < s,
                    head <= q@.len(),
                    q@.len() >= 1,
                    q@[0] == s,
                    q@.no_duplicates(),
                    forall|j: int|
                        0 <= j < q@.len() ==> #[trigger] q@[j] < n && s <= q@[j] && !in_some(cs, q@[j]) && linked(
                            n as nat,
                            edges@,
                            s,
                            q@[j],
                        ),
                    forall|v: usize| v < n ==> (visited@[v as int] <==> in_some(cs, v) || q@.contains(v)),
                    forall|v: usize| v < s ==> #[trigger] visited@[v as int],
                    forall|k: int, w: usize| 0 <= k < head && #[trigger] adjacent(n as nat, edges@, q@[k], w) ==> q@.contains(w),
                decreases unmarked_count(visited@), q@.len() - head,
            {
                let u = q[head];
                let mut nb: Vec<usize> = Vec::new();
                let mut j: usize = 0;
                while j < out[u].len()
                    invariant
                        u < n,
                        out@.len() == n,
                        j <= out@[u as int]@.len(),
                        nb@ == out@[u as int]@.subrange(0, j as int),
                    decreases out@[u as int]@.len() - j,
                {
                    nb.push(out[u][j]);
                    j = j + 1;
                }
                let mut j: usize = 0;
                while j < inc[u].len()
                    invariant
                        u < n,
                        inc@.len() == n,
                        j <= inc@[u as int]@.len(),
                        nb@ == out@[u as int]@ + inc@[u as int]@.subrange(0, j as int),
                    decreases inc@[u as int]@.len() - j,
                {
                    nb.push(inc[u][j]);
                    j = j + 1;
                }
                assert(nb@ =~= out@[u as int]@ + inc@[u as int]@);
                assert(neighbours_are(n as nat, edges@, u, nb@));
                let ghost free0 = unmarked_count(visited@);
                let ghost qlen0 = q@.len();
                let mut j: usize = 0;
                while j < nb.len()
                    invariant
                        s < n,
                        u < n,
                        u == q@[head as int],
                        head < qlen0 <= q@.len(),
                        visited@.len() == n,
                        neighbours_are(n as nat, edges@, u, nb@),
                        cs == vecs_view(r@),
                        components_ok(n as nat, edges@, cs),
                        q@[0] == s,
                        q@.no_duplicates(),
                        forall|jj: int|
                            0 <= jj < q@.len() ==> #[trigger] q@[jj] < n && s <= q@[jj] && !in_some(cs, q@[jj]) && linked(
                                n as nat,
                                edges@,
                                s,
                                q@[jj],
                            ),
                        forall|v: usize| v < n ==> (visited@[v as int] <==> in_some(cs, v) || q@.contains(v)),
                        forall|v: usize| v < s ==> #[trigger] visited@[v as int],
                        forall|k: int, w: usize| 0 <= k < head && #[trigger] adjacent(n as nat, edges@, q@[k], w) ==> q@.contains(w),
                        j <= nb@.len(),
                        forall|jj: int| 0 <= jj < j ==> q@.contains(#[trigger] nb@[jj]),
                        unmarked_count(visited@) + (q@.len() - qlen0) == free0,
                    decreases nb@.len() - j,
                {
                    let w = nb[j];
                    assert(adjacent(n as nat, edges@, u, nb@[j as int]));
                    if !visited[w] {
                        let ghost q0 = q@;
                        let ghost v0 = visited@;
                        proof {
                            lemma_unmarked_set(v0, w as int);
                            lemma_linked_step(n as nat, edges@, s, u, w);
                            if w < s {
                                assert(visited@[w as int]);
                            }
                            assert(!q0.contains(w));
                        }
                        visited.set(w, true);
                        q.push(w);
                        proof {
                            assert(q@ == q0.push(w));
                            assert forall|jj: int|
                                0 <= jj < q@.len() implies #[trigger] q@[jj] < n && s <= q@[jj] && !in_some(cs, q@[jj])
                                && linked(n as nat, edges@, s, q@[jj]) by {
                                if jj < q0.len() {
                                    assert(q@[jj] == q0[jj]);
                                }
                            }
                            assert forall|v: usize| v < n implies (visited@[v as int] <==> in_some(cs, v) || q@.contains(
                                v,
                            )) by {
                                if q0.contains(v) {
                                    let x = choose|x: int| 0 <= x < q0.len() && q0[x] == v;
                                    assert(q@[x] == v);
                                }
                                if q@.contains(v) && v != w {
                                    let x = choose|x: int| 0 <= x < q@.len() && q@[x] == v;
                                    assert(q0[x] == v);
                                }
                                if v == w {
                                    assert(q@[q0.len() as int] == w);
                                }
                            }
                            assert forall|k: int, x: usize|
                                0 <= k < head && #[trigger] adjacent(n as nat, edges@, q@[k], x) implies q@.contains(x) by {
                                assert(q@[k] == q0[k]);
                                assert(q0.contains(x));
                                let y = choose|y: int| 0 <= y < q0.len() && q0[y] == x;
                                assert(q@[y] == x);
                            }
                            assert forall|jj: int| 0 <= jj < j + 1 implies q@.contains(#[trigger] nb@[jj]) by {
                                if jj < j {
                                    assert(q0.contains(nb@[jj]));
                                    let y = choose|y: int| 0 <= y < q0.len() && q0[y] == nb@[jj];
                                    assert(q@[y] == nb@[jj]);
                                } else {
                                    assert(q@[q0.len() as int] == w);
                                }
                            }
                            assert(q@[head as int] == q0[head as int]);
                            assert(q@[0] == q0[0]);
                        }
                    } else {
                        proof {
                            if !q@.contains(w) {
                                assert(in_some(cs, w));
                                let i = choose|i: int| 0 <= i < cs.len() && #[trigger] cs[i].contains(w);
                                let x = choose|x: int| 0 <= x < cs[i].len() && cs[i][x] == w;
                                lemma_adjacent_symmetric(n as nat, edges@, u, w);
                                assert(component_ok(n as nat, edges@, cs[i]));
                                assert(adjacent(n as nat, edges@, cs[i][x], u));
                                assert(cs[i].contains(u));
                                assert(in_some(cs, u));
                                assert(!in_some(cs, q@[head as int]));
                            }
                        }
                    }
                    j = j + 1;
                }
                proof {
                    assert forall|k: int, x: usize|
                        0 <= k < head + 1 && #[trigger] adjacent(n as nat, edges@, q@[k], x) implies q@.contains(x) by {
                        if k == head {
                            assert(nb@.contains(x));
                            let y = choose|y: int| 0 <= y < nb@.len() && nb@[y] == x;
                            assert(q@.contains(nb@[y]));
                        }
                    }
                }
                head = head + 1;
            }
            let ghost c = q@;
            proof {
                assert forall|jj: int| 0 <= jj < c.len() implies #[trigger] c[jj] < n && c[0] <= c[jj] by {}
                assert forall|jj: int| 0 <= jj < c.len() implies linked(n as nat, edges@, c[0], #[trigger] c[jj]) by {}
                assert forall|jj: int, x: usize| 0 <= jj < c.len() && #[trigger] adjacent(n as nat, edges@, c[jj], x) implies c.contains(
                    x,
                ) by {}
                assert(component_ok(n as nat, edges@, c));
            }
            let mut p: usize = 0;
            while p < r.len() && r[p].len() >= q.len()
                invariant
                    p <= r@.len(),
                    forall|a: int| 0 <= a < p ==> (#[trigger] r@[a])@.len() >= q@.len(),
                decreases r@.len() - p,
            {
                p = p + 1;
            }
            let ghost r0 = r@;
            r.insert(p, q);
            proof {
                assert(vecs_view(r@) =~= cs.insert(p as int, c)) by {
                    assert forall|i: int| 0 <= i < r@.len() implies #[trigger] vecs_view(r@)[i] == cs.insert(p as int, c)[i] by {
                        if i < p {
                            assert(r@[i] == r0[i]);
                        } else if i > p {
                            assert(r@[i] == r0[i - 1]);
                        }
                    }
                }
                assert forall|v: usize| #[trigger] c.contains(v) implies !in_some(cs, v) by {
                    let x = choose|x: int| 0 <= x < c.len() && c[x] == v;
                    assert(!in_some(cs, c[x]));
                }
                assert forall|a: int| 0 <= a < p implies (#[trigger] cs[a]).len() >= c.len() by {
                    assert(cs[a] == r0[a]@);
                }
                assert forall|i: int| 0 <= i < cs.len() implies (#[trigger] cs[i])[0] < c[0] by {
                    assert(cs[i] == r0[i]@);
                }
                lemma_insert_component(n as nat, edges@, cs, p as int, c);
                assert forall|v: usize| v < n implies (visited@[v as int] <==> #[trigger] in_some(vecs_view(r@), v)) by {}
                assert forall|i: int| 0 <= i < r@.len() implies (#[trigger] r@[i])@[0] < s + 1 by {
                    if i < p {
                        assert(r@[i] == r0[i]);
                    } else if i > p {
                        assert(r@[i] == r0[i - 1]);
                    }
                }
            }
        }
        s = s + 1;
    }
    r
}

proof fn lemma_walk_stays(n: nat, edges: Seq<(usize, usize)>, c: Seq<usize>, p: Seq<usize>)
    requires
        component_ok(n, edges, c),
        is_walk(n, edges, p),
        c.contains(p[0]),
    ensures
        c.contains(p.last()),
    decreases p.len(),
{
    if p.len() > 1 {
        let d = p.drop_last();
        assert forall|k: int| 0 <= k < d.len() - 1 implies #[trigger] walk_step(n, edges, d, k) by {
            assert(walk_step(n, edges, p, k));
        }
        lemma_walk_stays(n, edges, c, d);
        assert(walk_step(n, edges, p, p.len() - 2));
        let x = choose|x: int| 0 <= x < c.len() && c[x] == d.last();
        assert(adjacent(n, edges, c[x], p.last()));
    }
}

proof fn lemma_linked_reverse(n: nat, edges: Seq<(usize, usize)>, u: usize, v: usize)
    requires
        linked(n, edges, u, v),
    ensures
        linked(n, edges, v, u),
{
    let p = choose|p: Seq<usize>| #[trigger] is_walk(n, edges, p) && p[0] == u && p.last() == v;
    let q = p.reverse();
    assert forall|k: int| 0 <= k < q.len() - 1 implies #[trigger] walk_step(n, edges, q, k) by {
        let m = p.len() - 2 - k;
        assert(walk_step(n, edges, p, m));
        lemma_adjacent_symmetric(n, edges, p[m], p[m + 1]);
    }
    assert(is_walk(n, edges, q));
}

proof fn lemma_linked_join(n: nat, edges: Seq<(usize, usize)>, u: usize, v: usize, w: usize)
    requires
        linked(n, edges, u, v),
        linked(n, edges, v, w),
    ensures
        linked(n, edges, u, w),
{
    let p = choose|p: Seq<usize>| #[trigger] is_walk(n, edges, p) && p[0] == u && p.last() == v;
    let q = choose|q: Seq<usize>| #[trigger] is_walk(n, edges, q) && q[0] == v && q.last() == w;
    let t = p + q.drop_first();
    assert forall|k: int| 0 <= k < t.len() - 1 implies #[trigger] walk_step(n, edges, t, k) by {
        if k < p.len() - 1 {
            assert(walk_step(n, edges, p, k));
        } else {
            let m = k - (p.len() - 1);
            assert(walk_step(n, edges, q, m));
            if k == p.len() - 1 {
                assert(t[k] == q[0]);
            } else {
                assert(t[k] == q[m]);
            }
            assert(t[k + 1] == q[m + 1]);
        }
    }
    if q.len() == 1 {
        assert(t =~= p);
    }
    assert(is_walk(n, edges, t));
}

/// A component is exactly what walks reach: a node shares the component of
/// any of its members exactly when a walk, over edges either way, joins it
/// to that member.
pub proof fn law_components_are_connectivity(n: nat, edges: Seq<(usize, usize)>, cs: Seq<Seq<usize>>, i: int, a: int, v: usize)
    requires
        components_ok(n, edges, cs),
        0 <= i < cs.len(),
        0 <= a < cs[i].len(),
    ensures
        cs[i].contains(v) <==> linked(n, edges, cs[i][a], v),
{
    let c = cs[i];
    assert(component_ok(n, edges, c));
    let u = c[a];
    assert(linked(n, edges, c[0], u));
    if c.contains(v) {
        let x = choose|x: int| 0 <= x < c.len() && c[x] == v;
        assert(linked(n, edges, c[0], c[x]));
        lemma_linked_reverse(n, edges, c[0], u);
        lemma_linked_join(n, edges, u, c[0], v);
    }
    if linked(n, edges, u, v) {
        let p = choose|p: Seq<usize>| #[trigger] is_walk(n, edges, p) && p[0] == u && p.last() == v;
        assert(c.contains(p[0]));
        lemma_walk_stays(n, edges, c, p);
    }
}

pub open spec fn vecs_view(v: Seq<Vec<usize>>) -> Seq<Seq<usize>> {
    Seq::new(v.len(), |i: int| v[i]@)
}

pub open spec fn usize_ints(v: Seq<usize>) -> Seq<int> {
    Seq::new(v.len(), |i: int| v[i] as int)
}

proof fn lemma_size_place(cs: Seq<(usize, Seq<int>, int)>, c: (usize, Seq<int>, int), j: int)
    requires
        0 <= j <= cs.len(),
        forall|q: int| 0 <= q < j ==> !(c.1.len() > (#[trigger] cs[q]).1.len()),
        j < cs.len() ==> c.1.len() > cs[j].1.len(),
    ensures
        size_place(cs, c) == j,
    decreases cs.len(),
{
    if cs.len() > 0 && j > 0 {
        assert(!(c.1.len() > cs[0].1.len()));
        let t = cs.drop_first();
        assert forall|q: int| 0 <= q < j - 1 implies !(c.1.len() > (#[trigger] t[q]).1.len()) by {
            assert(t[q] == cs[q + 1]);
        }
        if j - 1 < t.len() {
            assert(t[j - 1] == cs[j]);
        }
        lemma_size_place(t, c, j - 1);
    }
}

proof fn lemma_size_place_props(cs: Seq<(usize, Seq<int>, int)>, c: (usize, Seq<int>, int))
    ensures
        0 <= size_place(cs, c) <= cs.len(),
        forall|q: int| 0 <= q < size_place(cs, c) ==> (#[trigger] cs[q]).1.len() >= c.1.len(),
        size_place(cs, c) < cs.len() ==> c.1.len() > cs[size_place(cs, c)].1.len(),
    decreases cs.len(),
{
    if cs.len() > 0 && !(c.1.len() > cs[0].1.len()) {
        let t = cs.drop_first();
        lemma_size_place_props(t, c);
        assert forall|q: int| 0 <= q < size_place(cs, c) implies (#[trigger] cs[q]).1.len() >= c.1.len() by {
            if q > 0 {
                assert(cs[q] == t[q - 1]);
            }
        }
        if size_place(cs, c) < cs.len() {
            assert(cs[size_place(cs, c)] == t[size_place(t, c)]);
        }
    }
}

proof fn lemma_sorted_by_size(ls: Seq<usize>, out: Seq<Seq<usize>>, ds: Seq<usize>, k: int)
    ensures
        forall|a: int, b: int|
            0 <= a < b < sorted_communities(ls, out, ds, k).len() ==> (#[trigger] sorted_communities(
                ls,
                out,
                ds,
                k,
            )[a]).1.len() >= (#[trigger] sorted_communities(ls, out, ds, k)[b]).1.len(),
    decreases k,
{
    if 0 < k <= ds.len() {
        lemma_sorted_by_size(ls, out, ds, k - 1);
        let r = sorted_communities(ls, out, ds, k - 1);
        let c = community_of(ls, out, ds[k - 1]);
        lemma_size_place_props(r, c);
        let p = size_place(r, c);
        let w = r.insert(p, c);
        assert(sorted_communities(ls, out, ds, k) == w);
        assert forall|a: int, b: int| 0 <= a < b < w.len() implies (#[trigger] w[a]).1.len() >= (
        #[trigger] w[b]).1.len() by {
            if b < p {
                assert(w[a] == r[a] && w[b] == r[b]);
            } else if b == p {
                assert(w[a] == r[a]);
            } else if a < p {
                assert(w[a] == r[a] && w[b] == r[b - 1]);
            } else if a == p {
                assert(w[b] == r[b - 1]);
                if b - 1 > p {
                    assert(r[p].1.len() >= r[b - 1].1.len());
                }
            } else {
                assert(w[a] == r[a - 1] && w[b] == r[b - 1]);
            }
        }
    }
}

/// Communities come largest first.
pub proof fn law_communities_by_size(n: nat, both: Seq<Seq<usize>>, out: Seq<Seq<usize>>)
    ensures
        forall|a: int, b: int|
            0 <= a < b < detect(n, both, out).len() ==> (#[trigger] detect(n, both, out)[a]).1.len()
                >= (#[trigger] detect(n, both, out)[b]).1.len(),
{
    let ls = final_labels(n, both);
    let ds = distinct_labels(ls, n as int);
    lemma_sorted_by_size(ls, out, ds, ds.len() as int);
}

proof fn lemma_sweep_len(labels: Seq<usize>, adj: Seq<Seq<usize>>, i: int)
    ensures
        sweep(labels, adj, i).0.len() == labels.len(),
    decreases i,
{
    if 0 < i <= labels.len() {
        lemma_sweep_len(labels, adj, i - 1);
    }
}

proof fn lemma_propagate_len(labels: Seq<usize>, adj: Seq<Seq<usize>>, rounds: nat)
    ensures
        propagate(labels, adj, rounds).len() == labels.len(),
    decreases rounds,
{
    if rounds > 0 {
        lemma_sweep_len(labels, adj, labels.len() as int);
        let (ls, changed) = sweep(labels, adj, labels.len() as int);
        if changed {
            lemma_propagate_len(ls, adj, (rounds - 1) as nat);
        }
    }
}

proof fn lemma_size_place_bounds(cs: Seq<(usize, Seq<int>, int)>, c: (usize, Seq<int>, int))
    ensures
        0 <= size_place(cs, c) <= cs.len(),
    decreases cs.len(),
{
    if cs.len() > 0 && !(c.1.len() > cs[0].1.len()) {
        lemma_size_place_bounds(cs.drop_first(), c);
    }
}

/// The distinct labels hold each label once and every label of `ls[0..k)`.
proof fn lemma_distinct_labels(ls: Seq<usize>, k: int)
    requires
        0 <= k <= ls.len(),
    ensures
        forall|a: int, b: int|
            0 <= a < b < distinct_labels(ls, k).len() ==> (#[trigger] distinct_labels(ls, k)[a])
                != (#[trigger] distinct_labels(ls, k)[b]),
        forall|i: int| 0 <= i < k ==> distinct_labels(ls, k).contains(#[trigger] ls[i]),
    decreases k,
{
    if k > 0 {
        lemma_distinct_labels(ls, k - 1);
        let d = distinct_labels(ls, k - 1);
        if !d.contains(ls[k - 1]) {
            let e = d.push(ls[k - 1]);
            assert(distinct_labels(ls, k) == e);
            assert forall|a: int, b: int| 0 <= a < b < e.len() implies (#[trigger] e[a]) != (
            #[trigger] e[b]) by {
                if b == e.len() - 1 {
                    assert(e[a] == d[a]);
                } else {
                    assert(e[a] == d[a] && e[b] == d[b]);
                }
            }
            assert forall|i: int| 0 <= i < k implies e.contains(#[trigger] ls[i]) by {
                if i < k - 1 {
                    let j = choose|j: int| 0 <= j < d.len() && d[j] == ls[i];
                    assert(e[j] == d[j]);
                } else {
                    assert(e[e.len() - 1] == ls[i]);
                }
            }
        }
    }
}

/// The members of label `l` are exactly the nodes of `ls[0..k)` with that label.
proof fn lemma_members_of(ls: Seq<usize>, k: int, l: usize)
    requires
        0 <= k <= ls.len(),
    ensures
        forall|j: int|
            0 <= j < members_of(ls, k, l).len() ==> 0 <= #[trigger] members_of(ls, k, l)[j] < k
                && ls[members_of(ls, k, l)[j]] == l,
        forall|i: int| 0 <= i < k && ls[i] == l ==> #[trigger] members_of(ls, k, l).contains(i),
    decreases k,
{
    if k > 0 {
        lemma_members_of(ls, k - 1, l);
        let m = members_of(ls, k - 1, l);
        if ls[k - 1] == l {
            let e = m.push(k - 1);
            assert(members_of(ls, k, l) == e);
            assert forall|j: int| 0 <= j < e.len() implies 0 <= #[trigger] e[j] < k && ls[e[j]] == l by {
                if j < m.len() {
                    assert(e[j] == m[j]);
                }
            }
            assert forall|i: int| 0 <= i < k && ls[i] == l implies #[trigger] e.contains(i) by {
                if i < k - 1 {
                    assert(m.contains(i));
                    let j = choose|j: int| 0 <= j < m.len() && m[j] == i;
                    assert(e[j] == m[j]);
                } else {
                    assert(e[e.len() - 1] == i);
                }
            }
        } else {
            assert forall|i: int| 0 <= i < k && ls[i] == l implies #[trigger] m.contains(i) by {
                assert(i < k - 1);
            }
        }
    }
}

/// The sorted communities are those of the labels `ds[0..k)`, each once.
proof fn lemma_sorted_communities(ls: Seq<usize>, out: Seq<Seq<usize>>, ds: Seq<usize>, k: int)
    requires
        0 <= k <= ds.len(),
        forall|a: int, b: int| 0 <= a < b < ds.len() ==> (#[trigger] ds[a]) != (#[trigger] ds[b]),
    ensures
        forall|j: int|
            0 <= j < sorted_communities(ls, out, ds, k).len() ==> exists|m: int|
                0 <= m < k && #[trigger] sorted_communities(ls, out, ds, k)[j] == community_of(
                    ls,
                    out,
                    ds[m],
                ),
        forall|m: int|
            0 <= m < k ==> sorted_communities(ls, out, ds, k).contains(
                #[trigger] community_of(ls, out, ds[m]),
            ),
        forall|a: int, b: int|
            0 <= a < b < sorted_communities(ls, out, ds, k).len() ==> (#[trigger] sorted_communities(
                ls,
                out,
                ds,
                k,
            )[a]).0 != (#[trigger] sorted_communities(ls, out, ds, k)[b]).0,
    decreases k,
{
    if k > 0 {
        lemma_sorted_communities(ls, out, ds, k - 1);
        let r = sorted_communities(ls, out, ds, k - 1);
        let c = community_of(ls, out, ds[k - 1]);
        lemma_size_place_bounds(r, c);
        let p = size_place(r, c);
        r.insert_ensures(p, c);
        let e = r.insert(p, c);
        assert(sorted_communities(ls, out, ds, k) == e);
        assert forall|j: int| 0 <= j < e.len() implies exists|m: int|
            0 <= m < k && #[trigger] e[j] == community_of(ls, out, ds[m]) by {
            if j < p {
                assert(e[j] == r[j]);
            } else if j == p {
                assert(e[j] == community_of(ls, out, ds[k - 1]));
            } else {
                assert(e[j] == r[j - 1]);
            }
        }
        assert forall|m: int| 0 <= m < k implies e.contains(
            #[trigger] community_of(ls, out, ds[m]),
        ) by {
            if m < k - 1 {
                let j = choose|j: int| 0 <= j < r.len() && r[j] == community_of(ls, out, ds[m]);
                if j < p {
                    assert(e[j] == r[j]);
                } else {
                    assert(e[j + 1] == r[j]);
                }
            } else {
                assert(e[p] == c);
            }
        }
        assert forall|j: int| 0 <= j < r.len() implies (#[trigger] r[j]).0 != c.0 by {
            let m = choose|m: int| 0 <= m < k - 1 && r[j] == community_of(ls, out, ds[m]);
            assert(ds[m] != ds[k - 1]);
        }
        assert forall|a: int, b: int| 0 <= a < b < e.len() implies (#[trigger] e[a]).0 != (
        #[trigger] e[b]).0 by {
            if b < p {
                assert(e[a] == r[a] && e[b] == r[b]);
            } else if b == p {
                assert(e[a] == r[a]);
            } else if a < p {
                assert(e[a] == r[a] && e[b] == r[b - 1]);
            } else if a == p {
                assert(e[b] == r[b - 1]);
            } else {
                assert(e[a] == r[a - 1] && e[b] == r[b - 1]);
            }
        }
    }
}

/// How many of the targets `nb[0..k)` are among `ms`.
pub open spec fn targets_among(nb: Seq<usize>, k: int, ms: Seq<int>) -> int
    decreases k,
{
    if k <= 0 || k > nb.len() {
        0
    } else {
        targets_among(nb, k - 1, ms) + if ms.contains(nb[k - 1] as int) {
            1int
        } else {
            0int
        }
    }
}

/// The out-edges of the nodes `ms[0..k)` whose target is also among `ms`.
pub open spec fn edges_within(out: Seq<Seq<usize>>, ms: Seq<int>, k: int) -> int
    decreases k,
{
    if k <= 0 || k > ms.len() {
        0
    } else {
        edges_within(out, ms, k - 1) + targets_among(nbrs_of(out, ms[k - 1]), nbrs_of(out, ms[k - 1]).len() as int, ms)
    }
}

proof fn lemma_label_count_members(ls: Seq<usize>, nb: Seq<usize>, k: int, l: usize, ms: Seq<int>)
    requires
        forall|x: int| #[trigger] ms.contains(x) <==> (0 <= x < ls.len() && ls[x] == l),
    ensures
        label_count(ls, nb, k, l) == targets_among(nb, k, ms),
    decreases k,
{
    if 0 < k <= nb.len() {
        lemma_label_count_members(ls, nb, k - 1, l, ms);
        assert(ms.contains(nb[k - 1] as int) <==> (nb[k - 1] < ls.len() && ls[nb[k - 1] as int] == l));
    }
}

proof fn lemma_internal_within(ls: Seq<usize>, out: Seq<Seq<usize>>, ms: Seq<int>, k: int, l: usize)
    requires
        forall|x: int| #[trigger] ms.contains(x) <==> (0 <= x < ls.len() && ls[x] == l),
    ensures
        internal_count(ls, out, ms, k, l) == edges_within(out, ms, k),
    decreases k,
{
    if 0 < k <= ms.len() {
        lemma_internal_within(ls, out, ms, k - 1, l);
        let nb = nbrs_of(out, ms[k - 1]);
        lemma_label_count_members(ls, nb, nb.len() as int, l, ms);
    }
}

/// A community's internal edges are exactly the out-edges from one of its
/// members to another: an edge that leaves the community is never counted.
pub proof fn law_internal_edges(n: nat, both: Seq<Seq<usize>>, out: Seq<Seq<usize>>, c: int)
    requires
        0 <= c < detect(n, both, out).len(),
    ensures
        detect(n, both, out)[c].2 == edges_within(out, detect(n, both, out)[c].1, detect(n, both, out)[c].1.len() as int),
{
    let ls = final_labels(n, both);
    lemma_propagate_len(initial_labels(n), both, MAX_SWEEPS as nat);
    let ds = distinct_labels(ls, n as int);
    lemma_distinct_labels(ls, n as int);
    lemma_sorted_communities(ls, out, ds, ds.len() as int);
    let cs = detect(n, both, out);
    let m = choose|m: int| 0 <= m < ds.len() && cs[c] == community_of(ls, out, ds[m]);
    let l = ds[m];
    let ms = members_of(ls, ls.len() as int, l);
    lemma_members_of(ls, ls.len() as int, l);
    assert forall|x: int| #[trigger] ms.contains(x) <==> (0 <= x < ls.len() && ls[x] == l) by {
        if ms.contains(x) {
            let j = choose|j: int| 0 <= j < ms.len() && ms[j] == x;
        }
    }
    lemma_internal_within(ls, out, ms, ms.len() as int, l);
}

/// The communities partition the nodes: every node lies in exactly one
/// community.
pub proof fn law_communities_partition(n: nat, both: Seq<Seq<usize>>, out: Seq<Seq<usize>>, i: int)
    requires
        0 <= i < n,
    ensures
        exists|c: int| 0 <= c < detect(n, both, out).len() && (#[trigger] detect(n, both, out)[c]).1.contains(i),
        forall|c1: int, c2: int|
            0 <= c1 < detect(n, both, out).len() && 0 <= c2 < detect(n, both, out).len() && (
            #[trigger] detect(n, both, out)[c1]).1.contains(i) && (#[trigger] detect(
                n,
                both,
                out,
            )[c2]).1.contains(i) ==> c1 == c2,
{
    let ls = final_labels(n, both);
    lemma_propagate_len(initial_labels(n), both, MAX_SWEEPS as nat);
    assert(ls.len() == n);
    let ds = distinct_labels(ls, n as int);
    lemma_distinct_labels(ls, n as int);
    lemma_sorted_communities(ls, out, ds, ds.len() as int);
    let cs = detect(n, both, out);
    assert(ds.contains(ls[i]));
    let m = choose|m: int| 0 <= m < ds.len() && ds[m] == ls[i];
    let home = community_of(ls, out, ds[m]);
    lemma_members_of(ls, n as int, ls[i]);
    assert(home.1.contains(i));
    assert(cs.contains(home));
    let c = choose|c: int| 0 <= c < cs.len() && cs[c] == home;
    assert(cs[c].1.contains(i));
    assert forall|c1: int, c2: int|
        0 <= c1 < cs.len() && 0 <= c2 < cs.len() && (#[trigger] cs[c1]).1.contains(i) && (
        #[trigger] cs[c2]).1.contains(i) implies c1 == c2 by {
        let m1 = choose|m1: int| 0 <= m1 < ds.len() && cs[c1] == community_of(ls, out, ds[m1]);
        let m2 = choose|m2: int| 0 <= m2 < ds.len() && cs[c2] == community_of(ls, out, ds[m2]);
        lemma_members_of(ls, n as int, ds[m1]);
        lemma_members_of(ls, n as int, ds[m2]);
        let j1 = choose|j: int| 0 <= j < cs[c1].1.len() && cs[c1].1[j] == i;
        let j2 = choose|j: int| 0 <= j < cs[c2].1.len() && cs[c2].1[j] == i;
        assert(ls[i] == ds[m1]);
        assert(ls[i] == ds[m2]);
        if c1 != c2 {
            if c1 < c2 {
                assert(cs[c1].0 != cs[c2].0);
            } else {
                assert(cs[c2].0 != cs[c1].0);
            }
        }
    }
}

} // verus!
