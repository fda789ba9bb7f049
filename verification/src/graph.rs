//! Graphs in compressed sparse row form: construction from an edge list,
//! neighbour lists, breadth-first distances and connected components.
use vstd::prelude::*;

use std::time::Duration;
use std::collections::VecDeque;
use crate::timing::{self, is_median_sample};
use crate::text::decimal_text;
use crate::display::{push_decimal, push_str, string_from_chars};

verus! {

/// Errors reported by graph construction and queries.
#[derive(Debug, Clone, Copy, PartialEq, Eq)]
pub enum GraphError {
    EmptyGraph,
    NodeOutOfBounds { node: usize, node_count: usize },
}

/// The text of an out-of-range node error, with the node and the node count
/// in decimal.
fn node_message(node: usize, node_count: usize) -> (s: String)
    ensures
        s@ == "node "@ + decimal_text(node as nat) + " is outside graph with "@ + decimal_text(node_count as nat)
            + " nodes"@,
{
    let mut out: Vec<char> = Vec::new();
    push_str(&mut out, "node ");
    push_decimal(&mut out, node as u128);
    push_str(&mut out, " is outside graph with ");
    push_decimal(&mut out, node_count as u128);
    push_str(&mut out, " nodes");
    string_from_chars(&out)
}

/// The description of a graph error.
pub open spec fn graph_message(e: GraphError) -> Seq<char> {
    match e {
        GraphError::EmptyGraph => "graph requires at least one node"@,
        GraphError::NodeOutOfBounds { node, node_count } => "node "@ + decimal_text(node as nat)
            + " is outside graph with "@ + decimal_text(node_count as nat) + " nodes"@,
    }
}

impl GraphError {
    /// Human-readable description of the error.
    pub fn message(&self) -> (r: String)
        ensures
            r@ == graph_message(*self),
    {
        broadcast use vstd::string::to_string_from_display_ensures_for_str;

        match self {
            GraphError::EmptyGraph => "graph requires at least one node".to_string(),
            GraphError::NodeOutOfBounds { node, node_count } => node_message(*node, *node_count),
        }
    }
}

/// A graph on the nodes `0..node_count`, stored as one neighbour list per node.
#[derive(Debug, Clone, PartialEq, Eq)]
pub struct Graph {
    directed: bool,
    offsets: Vec<usize>,
    neighbors: Vec<usize>,
}

/// The edge list with each undirected edge between distinct nodes also listed
/// in the reverse direction, right after it.
pub open spec fn expand_edges(edges: Seq<(usize, usize)>, directed: bool) -> Seq<(usize, usize)>
    decreases edges.len(),
{
    if edges.len() == 0 {
        Seq::empty()
    } else {
        let rest = expand_edges(edges.drop_last(), directed);
        let e = edges.last();
        if !directed && e.0 != e.1 {
            rest.push(e).push((e.1, e.0))
        } else {
            rest.push(e)
        }
    }
}

/// The targets of the entries of `list` leaving `v`, in list order.
pub open spec fn out_list(list: Seq<(usize, usize)>, v: int) -> Seq<usize>
    decreases list.len(),
{
    if list.len() == 0 {
        Seq::empty()
    } else {
        let rest = out_list(list.drop_last(), v);
        if list.last().0 == v {
            rest.push(list.last().1)
        } else {
            rest
        }
    }
}

/// A directed graph keeps its edges as given: expanding them adds no
/// reversed edge, so each node's neighbours are the targets of the edges
/// leaving it, in edge order.
pub proof fn lemma_directed_edges_as_given(edges: Seq<(usize, usize)>)
    ensures
        expand_edges(edges, true) == edges,
    decreases edges.len(),
{
    if edges.len() > 0 {
        lemma_directed_edges_as_given(edges.drop_last());
        assert(edges.drop_last().push(edges.last()) =~= edges);
    }
}

proof fn lemma_out_list_push_keeps(list: Seq<(usize, usize)>, x: (usize, usize), v: int, w: usize)
    requires
        out_list(list, v).contains(w),
    ensures
        out_list(list.push(x), v).contains(w),
{
    assert(list.push(x).drop_last() =~= list);
    let o = out_list(list, v);
    let k = choose|k: int| 0 <= k < o.len() && o[k] == w;
    if x.0 == v {
        assert(o.push(x.1)[k] == w);
    }
}

/// An undirected graph can be walked along each edge both ways: the target
/// of every edge is a neighbour of its source, and the source a neighbour of
/// its target.
pub proof fn lemma_undirected_edges_both_ways(edges: Seq<(usize, usize)>, j: int)
    requires
        0 <= j < edges.len(),
    ensures
        out_list(expand_edges(edges, false), edges[j].0 as int).contains(edges[j].1),
        out_list(expand_edges(edges, false), edges[j].1 as int).contains(edges[j].0),
    decreases edges.len(),
{
    let d = edges.drop_last();
    let rest = expand_edges(d, false);
    let e = edges.last();
    let a = edges[j].0 as int;
    let b = edges[j].1 as int;
    if j == edges.len() - 1 {
        let l1 = rest.push(e);
        assert(l1.drop_last() =~= rest);
        assert(out_list(l1, e.0 as int) == out_list(rest, e.0 as int).push(e.1));
        assert(out_list(l1, e.0 as int).last() == e.1);
        assert(out_list(l1, e.0 as int).contains(e.1));
        if e.0 != e.1 {
            let l2 = l1.push((e.1, e.0));
            assert(l2.drop_last() =~= l1);
            lemma_out_list_push_keeps(l1, (e.1, e.0), e.0 as int, e.1);
            assert(out_list(l2, e.1 as int) == out_list(l1, e.1 as int).push(e.0));
            assert(out_list(l2, e.1 as int).last() == e.0);
            assert(out_list(l2, e.1 as int).contains(e.0));
        }
    } else {
        assert(d[j] == edges[j]);
        lemma_undirected_edges_both_ways(d, j);
        let l1 = rest.push(e);
        lemma_out_list_push_keeps(rest, e, a, edges[j].1);
        lemma_out_list_push_keeps(rest, e, b, edges[j].0);
        if e.0 != e.1 {
            lemma_out_list_push_keeps(l1, (e.1, e.0), a, edges[j].1);
            lemma_out_list_push_keeps(l1, (e.1, e.0), b, edges[j].0);
        }
    }
}

/// An undirected graph stores each edge twice, once from each end, except
/// a self-loop, which is stored once.
pub proof fn lemma_undirected_entry_count(edges: Seq<(usize, usize)>)
    ensures
        expand_edges(edges, false).len() == edges.len() + edges.filter(|e: (usize, usize)| e.0 != e.1).len(),
    decreases edges.len(),
{
    reveal(Seq::filter);
    if edges.len() > 0 {
        lemma_undirected_entry_count(edges.drop_last());
    }
}

/// Both ends of every edge are nodes below `n`.
pub open spec fn edges_valid(edges: Seq<(usize, usize)>, n: int) -> bool {
    forall|j: int| 0 <= j < edges.len() ==> (#[trigger] edges[j]).0 < n && edges[j].1 < n
}

/// Edge `j` is the first one with an end outside `0..n`, and `node` is its
/// first such end (source before target).
pub open spec fn first_bad_edge(edges: Seq<(usize, usize)>, n: int, j: int, node: usize) -> bool {
    &&& 0 <= j < edges.len()
    &&& edges_valid(edges.take(j), n)
    &&& if edges[j].0 >= n {
        node == edges[j].0
    } else {
        edges[j].1 >= n && node == edges[j].1
    }
}

proof fn lemma_expand_valid(edges: Seq<(usize, usize)>, directed: bool, n: int)
    requires
        edges_valid(edges, n),
    ensures
        edges_valid(expand_edges(edges, directed), n),
    decreases edges.len(),
{
    if edges.len() > 0 {
        assert(edges_valid(edges.drop_last(), n)) by {
            assert forall|j: int| 0 <= j < edges.drop_last().len() implies (#[trigger] edges.drop_last()[j]).0 < n
                && edges.drop_last()[j].1 < n by {
                assert(edges.drop_last()[j] == edges[j]);
            }
        }
        lemma_expand_valid(edges.drop_last(), directed, n);
        assert(edges[edges.len() - 1] == edges.last());
    }
}

proof fn lemma_out_list_valid(list: Seq<(usize, usize)>, v: int, n: int)
    requires
        edges_valid(list, n),
    ensures
        forall|k: int| 0 <= k < out_list(list, v).len() ==> #[trigger] out_list(list, v)[k] < n,
    decreases list.len(),
{
    if list.len() > 0 {
        assert(edges_valid(list.drop_last(), n)) by {
            assert forall|j: int| 0 <= j < list.drop_last().len() implies (#[trigger] list.drop_last()[j]).0 < n
                && list.drop_last()[j].1 < n by {
                assert(list.drop_last()[j] == list[j]);
            }
        }
        lemma_out_list_valid(list.drop_last(), v, n);
        assert(list[list.len() - 1] == list.last());
        assert(list.last().1 < n);
        if list.last().0 == v {
            assert(out_list(list, v) == out_list(list.drop_last(), v).push(list.last().1));
        } else {
            assert(out_list(list, v) == out_list(list.drop_last(), v));
        }
    }
}

impl Graph {
    /// Number of nodes.
    pub closed spec fn nodes(&self) -> int {
        self.offsets@.len() - 1
    }

    /// Whether edges are directed.
    pub closed spec fn directed_spec(&self) -> bool {
        self.directed
    }

    /// Total length of all neighbour lists.
    pub closed spec fn entries(&self) -> int {
        self.neighbors@.len() as int
    }

    /// The neighbour list of node `v`.
    pub closed spec fn adj(&self, v: int) -> Seq<usize> {
        self.neighbors@.subrange(self.offsets@[v] as int, self.offsets@[v + 1] as int)
    }

    pub closed spec fn wf(&self) -> bool {
        &&& self.offsets@.len() >= 2
        &&& self.offsets@[0] == 0
        &&& forall|i: int, j: int| 0 <= i <= j < self.offsets@.len() ==> #[trigger] self.offsets@[i] <= #[trigger] self.offsets@[j]
        &&& self.offsets@[self.offsets@.len() - 1] == self.neighbors@.len()
        &&& forall|k: int| 0 <= k < self.neighbors@.len() ==> #[trigger] self.neighbors@[k] < self.offsets@.len() - 1
        &&& self.offsets@.len() <= usize::MAX
    }

    /// Every neighbour list holds nodes of the graph.
    pub proof fn lemma_adj_valid(&self, v: int)
        requires
            self.wf(),
            0 <= v < self.nodes(),
        ensures
            self.nodes() >= 1,
            forall|k: int| 0 <= k < self.adj(v).len() ==> #[trigger] self.adj(v)[k] < self.nodes(),
    {
        assert(self.offsets@[v] <= self.offsets@[v + 1]);
        assert(self.offsets@[v + 1] <= self.offsets@[self.offsets@.len() - 1]);
        assert forall|k: int| 0 <= k < self.adj(v).len() implies #[trigger] self.adj(v)[k] < self.nodes() by {
            assert(self.adj(v)[k] == self.neighbors@[self.offsets@[v] + k]);
        }
    }

    /// Build a graph on `node_count` nodes. Each edge `(src, dst)` adds `dst`
    /// to the neighbours of `src`, and for an undirected graph also `src` to
    /// those of `dst` unless it is a self-loop; neighbour lists keep edge order.
    pub fn from_edges(node_count: usize, edges: &[(usize, usize)], directed: bool) -> (r: Result<Graph, GraphError>)
        ensures
            match r {
                Ok(g) => {
                    &&& node_count > 0
                    &&& edges_valid(edges@, node_count as int)
                    &&& g.wf()
                    &&& g.nodes() == node_count
                    &&& g.directed_spec() == directed
                    &&& g.entries() == expand_edges(edges@, directed).len()
                    &&& forall|v: int| 0 <= v < node_count ==> #[trigger] g.adj(v) == out_list(expand_edges(edges@, directed), v)
                    &&& directed ==> forall|v: int| 0 <= v < node_count ==> #[trigger] g.adj(v) == out_list(edges@, v)
                    &&& directed ==> g.entries() == edges@.len()
                    &&& !directed ==> g.entries() == edges@.len() + edges@.filter(|e: (usize, usize)| e.0 != e.1).len()
                    &&& !directed ==> forall|j: int|
                        0 <= j < edges@.len() ==> g.adj(#[trigger] edges@[j].0 as int).contains(edges@[j].1) && g.adj(
                            edges@[j].1 as int,
                        ).contains(edges@[j].0)
                },
                Err(e) => if node_count == 0 {
                    e == GraphError::EmptyGraph
                } else {
                    exists|j: int, node: usize|
                        #[trigger] first_bad_edge(edges@, node_count as int, j, node) && e == (GraphError::NodeOutOfBounds {
                            node,
                            node_count,
                        })
                },
            },
    {
        if node_count == 0 {
            return Err(GraphError::EmptyGraph);
        }
        let mut list: Vec<(usize, usize)> = Vec::new();
        let mut j: usize = 0;
        while j < edges.len()
            invariant
                node_count > 0,
                j <= edges@.len(),
                edges_valid(edges@.take(j as int), node_count as int),
                list@ == expand_edges(edges@.take(j as int), directed),
            decreases edges@.len() - j,
        {
            let (src, dst) = edges[j];
            if src >= node_count {
                proof {
                    assert(first_bad_edge(edges@, node_count as int, j as int, src));
                }
                return Err(GraphError::NodeOutOfBounds { node: src, node_count });
            }
            if dst >= node_count {
                proof {
                    assert(first_bad_edge(edges@, node_count as int, j as int, dst));
                }
                return Err(GraphError::NodeOutOfBounds { node: dst, node_count });
            }
            list.push((src, dst));
            if !directed && src != dst {
                list.push((dst, src));
            }
            proof {
                let t = edges@.take(j as int + 1);
                assert(t.drop_last() =~= edges@.take(j as int));
                assert(t.last() == (src, dst));
                assert forall|i: int| 0 <= i < t.len() implies (#[trigger] t[i]).0 < node_count && t[i].1 < node_count by {
                    if i < j {
                        assert(t[i] == edges@.take(j as int)[i]);
                    }
                }
            }
            j += 1;
        }
        assert(edges@.take(edges@.len() as int) =~= edges@);
        proof {
            lemma_expand_valid(edges@, directed, node_count as int);
            if directed {
                lemma_directed_edges_as_given(edges@);
            } else {
                lemma_undirected_entry_count(edges@);
                assert forall|j: int| 0 <= j < edges@.len() implies out_list(
                    expand_edges(edges@, false),
                    #[trigger] edges@[j].0 as int,
                ).contains(edges@[j].1) && out_list(expand_edges(edges@, false), edges@[j].1 as int).contains(
                    edges@[j].0,
                ) by {
                    lemma_undirected_edges_both_ways(edges@, j);
                }
            }
        }
        let mut offsets: Vec<usize> = Vec::new();
        offsets.push(0);
        let mut neighbors: Vec<usize> = Vec::new();
        let mut v: usize = 0;
        while v < node_count
            invariant
                v <= node_count,
                list@ == expand_edges(edges@, directed),
                edges_valid(list@, node_count as int),
                offsets@.len() == v + 1,
                offsets@[0] == 0,
                offsets@[v as int] == neighbors@.len(),
                forall|i: int, k: int| 0 <= i <= k < offsets@.len() ==> #[trigger] offsets@[i] <= #[trigger] offsets@[k],
                forall|u: int|
                    0 <= u < v ==> #[trigger] neighbors@.subrange(offsets@[u] as int, offsets@[u + 1] as int) == out_list(
                        list@,
                        u,
                    ),
                forall|k: int| 0 <= k < neighbors@.len() ==> #[trigger] neighbors@[k] < node_count,
                neighbors@.len() == count_before(list@, v as int),
            decreases node_count - v,
        {
            let ghost base = neighbors@;
            let mut k: usize = 0;
            proof {
                lemma_out_list_valid(list@, v as int, node_count as int);
            }
            while k < list.len()
                invariant
                    v < node_count,
                    k <= list@.len(),
                    edges_valid(list@, node_count as int),
                    neighbors@ == base + out_list(list@.take(k as int), v as int),
                    forall|q: int| 0 <= q < base.len() ==> #[trigger] base[q] < node_count,
                decreases list@.len() - k,
            {
                let ghost t = list@.take(k as int + 1);
                assert(t.drop_last() =~= list@.take(k as int));
                assert(t.last() == list@[k as int]);
                let (s, d) = list[k];
                if s == v {
                    neighbors.push(d);
                }
                k += 1;
                proof {
                    assert(list@[k - 1].1 < node_count);
                    assert(neighbors@ =~= base + out_list(list@.take(k as int), v as int));
                }
            }
            assert(list@.take(list@.len() as int) =~= list@);
            proof {
                assert forall|q: int| 0 <= q < neighbors@.len() implies #[trigger] neighbors@[q] < node_count by {
                    if q >= base.len() {
                        assert(neighbors@[q] == out_list(list@, v as int)[q - base.len()]);
                    } else {
                        assert(neighbors@[q] == base[q]);
                    }
                }
                lemma_count_before_step(list@, v as int);
            }
            let ghost old_offsets = offsets@;
            offsets.push(neighbors.len());
            proof {
                assert forall|u: int| 0 <= u < v + 1 implies #[trigger] neighbors@.subrange(
                    offsets@[u] as int,
                    offsets@[u + 1] as int,
                ) == out_list(list@, u) by {
                    if u < v {
                        assert(neighbors@.subrange(offsets@[u] as int, offsets@[u + 1] as int) =~= base.subrange(
                            old_offsets[u] as int,
                            old_offsets[u + 1] as int,
                        ));
                    } else {
                        assert(neighbors@.subrange(offsets@[u] as int, offsets@[u + 1] as int) =~= out_list(list@, u));
                    }
                }
            }
            v += 1;
        }
        let g = Graph { directed, offsets, neighbors };
        proof {
            assert(g.offsets@.len() == g.offsets.len());
            lemma_count_before_all(list@, node_count as int);
            assert forall|u: int| 0 <= u < node_count implies #[trigger] g.adj(u) == out_list(expand_edges(edges@, directed), u) by {
                assert(g.adj(u) == g.neighbors@.subrange(g.offsets@[u] as int, g.offsets@[u + 1] as int));
            }
        }
        Ok(g)
    }

    /// Number of nodes.
    pub fn node_count(&self) -> (r: usize)
        requires
            self.wf(),
        ensures
            r == self.nodes(),
    {
        self.offsets.len() - 1
    }

    /// Number of edges: neighbour-list entries, halved for an undirected graph
    /// (a self-loop of an undirected graph is listed once).
    pub fn edge_count(&self) -> (r: usize)
        requires
            self.wf(),
        ensures
            r == if self.directed_spec() { self.entries() } else { self.entries() / 2 },
    {
        if self.directed {
            self.neighbors.len()
        } else {
            self.neighbors.len() / 2
        }
    }

    pub fn is_directed(&self) -> (r: bool)
        ensures
            r == self.directed_spec(),
    {
        self.directed
    }

    /// The neighbour list of `node`.
    fn neighbors_of(&self, node: usize) -> (r: &[usize])
        requires
            self.wf(),
            node < self.nodes(),
        ensures
            r@ == self.adj(node as int),
    {
        assert(self.offsets@.len() == self.offsets.len());
        assert(self.offsets@[node as int] <= self.offsets@[node + 1]);
        assert(self.offsets@[node + 1] <= self.offsets@[self.offsets@.len() - 1]);
        vstd::slice::slice_subrange(self.neighbors.as_slice(), self.offsets[node], self.offsets[node + 1])
    }

    /// The neighbour list of `node`; `NodeOutOfBounds` for a node outside the graph.
    pub fn neighbors(&self, node: usize) -> (r: Result<&[usize], GraphError>)
        requires
            self.wf(),
        ensures
            match r {
                Ok(s) => node < self.nodes() && s@ == self.adj(node as int),
                Err(e) => node >= self.nodes() && e == (GraphError::NodeOutOfBounds {
                    node,
                    node_count: self.nodes() as usize,
                }),
            },
    {
        let n = self.node_count();
        if node >= n {
            return Err(GraphError::NodeOutOfBounds { node, node_count: n });
        }
        Ok(self.neighbors_of(node))
    }
}

/// Number of entries of `list` whose source is below `v`.
pub open spec fn count_before(list: Seq<(usize, usize)>, v: int) -> int
    decreases v,
{
    if v <= 0 {
        0
    } else {
        count_before(list, v - 1) + out_list(list, v - 1).len()
    }
}

proof fn lemma_count_before_step(list: Seq<(usize, usize)>, v: int)
    requires
        v >= 0,
    ensures
        count_before(list, v + 1) == count_before(list, v) + out_list(list, v).len(),
{
}

/// Counting the entries of each source below `n` counts every entry.
proof fn lemma_count_before_all(list: Seq<(usize, usize)>, n: int)
    requires
        n >= 0,
        edges_valid(list, n),
    ensures
        count_before(list, n) == list.len(),
    decreases list.len(),
{
    if list.len() > 0 {
        let p = list.drop_last();
        assert(edges_valid(p, n)) by {
            assert forall|j: int| 0 <= j < p.len() implies (#[trigger] p[j]).0 < n && p[j].1 < n by {
                assert(p[j] == list[j]);
            }
        }
        assert(list[list.len() - 1] == list.last());
        assert(list.last().0 < n);
        lemma_count_before_all(p, n);
        lemma_count_before_push(p, list.last(), n);
        assert(p.push(list.last()) =~= list);
    } else {
        lemma_count_before_empty(list, n);
    }
}

proof fn lemma_count_before_empty(list: Seq<(usize, usize)>, v: int)
    requires
        list.len() == 0,
        v >= 0,
    ensures
        count_before(list, v) == 0,
    decreases v,
{
    if v > 0 {
        lemma_count_before_empty(list, v - 1);
    }
}

proof fn lemma_count_before_push(p: Seq<(usize, usize)>, e: (usize, usize), v: int)
    requires
        v >= 0,
    ensures
        count_before(p.push(e), v) == count_before(p, v) + (if e.0 < v { 1int } else { 0int }),
    decreases v,
{
    if v > 0 {
        lemma_count_before_push(p, e, v - 1);
        assert(p.push(e).drop_last() =~= p);
    }
}

/// The distance recorded in a table entry (0 when unset).
pub open spec fn dval(x: Option<usize>) -> int {
    match x {
        Some(d) => d as int,
        None => 0,
    }
}

/// Node `v` has a neighbour-list predecessor one layer closer to the start.
pub open spec fn has_parent(g: Graph, dist: Seq<Option<usize>>, v: int) -> bool {
    exists|u: int|
        0 <= u < g.nodes() && #[trigger] dist[u] is Some && dval(dist[u]) == dval(dist[v]) - 1 && g.adj(u).contains(
            v as usize,
        )
}

/// `dist` is a breadth-first layering of the graph from `start`: the start is
/// at distance 0, every other reached node has a predecessor one step closer,
/// and every edge out of a reached node leads to a reached node at most one
/// step farther.
pub open spec fn bfs_layers(g: Graph, start: int, dist: Seq<Option<usize>>) -> bool {
    &&& dist.len() == g.nodes()
    &&& 0 <= start < g.nodes()
    &&& dist[start] == Some(0usize)
    &&& forall|v: int| 0 <= v < g.nodes() && #[trigger] dist[v] is Some && v != start ==> dval(dist[v]) > 0 && has_parent(g, dist, v)
    &&& forall|u: int, k: int|
        0 <= u < g.nodes() && dist[u] is Some && 0 <= k < g.adj(u).len() ==> dist[#[trigger] g.adj(u)[k] as int] is Some
            && dval(dist[g.adj(u)[k] as int]) <= dval(dist[u]) + 1
}

/// `p` is a walk: a non-empty sequence of nodes, each joined to the next by an edge.
pub open spec fn is_walk(g: Graph, p: Seq<int>) -> bool {
    &&& p.len() >= 1
    &&& forall|i: int| 0 <= i < p.len() ==> 0 <= #[trigger] p[i] < g.nodes()
    &&& forall|i: int| 0 <= i < p.len() - 1 ==> g.adj(#[trigger] p[i]).contains(p[i + 1] as usize)
}

/// Number of set entries.
pub open spec fn num_some(s: Seq<Option<usize>>) -> int
    decreases s.len(),
{
    if s.len() == 0 {
        0
    } else {
        num_some(s.drop_last()) + if s.last() is Some { 1int } else { 0int }
    }
}

proof fn lemma_num_some_bound(s: Seq<Option<usize>>)
    ensures
        0 <= num_some(s) <= s.len(),
    decreases s.len(),
{
    if s.len() > 0 {
        lemma_num_some_bound(s.drop_last());
    }
}

proof fn lemma_num_some_set(s: Seq<Option<usize>>, i: int, x: usize)
    requires
        0 <= i < s.len(),
        s[i] is None,
    ensures
        num_some(s.update(i, Some(x))) == num_some(s) + 1,
    decreases s.len(),
{
    let t = s.update(i, Some(x));
    if i == s.len() - 1 {
        assert(t.drop_last() =~= s.drop_last());
    } else {
        assert(t.drop_last() =~= s.drop_last().update(i, Some(x)));
        lemma_num_some_set(s.drop_last(), i, x);
    }
}

/// A node at breadth-first distance `d` is reached from the start by a walk of
/// `d` edges.
#[verifier::rlimit(40)]
pub proof fn lemma_bfs_walk(g: Graph, start: int, dist: Seq<Option<usize>>, v: int) -> (p: Seq<int>)
    requires
        g.wf(),
        bfs_layers(g, start, dist),
        0 <= v < g.nodes(),
        dist[v] is Some,
    ensures
        is_walk(g, p),
        p[0] == start,
        p.last() == v,
        p.len() == dval(dist[v]) + 1,
    decreases dval(dist[v]),
{
    if v == start {
        seq![v]
    } else {
        assert(has_parent(g, dist, v));
        let u = choose|u: int|
            0 <= u < g.nodes() && #[trigger] dist[u] is Some && dval(dist[u]) == dval(dist[v]) - 1 && g.adj(u).contains(
                v as usize,
            );
        let q = lemma_bfs_walk(g, start, dist, u);
        let p = q.push(v);
        assert forall|i: int| 0 <= i < p.len() - 1 implies g.adj(#[trigger] p[i]).contains(p[i + 1] as usize) by {
            if i < q.len() - 1 {
                assert(p[i] == q[i] && p[i + 1] == q[i + 1]);
            } else {
                assert(p[i] == u);
            }
        }
        assert forall|i: int| 0 <= i < p.len() implies 0 <= #[trigger] p[i] < g.nodes() by {
            if i < q.len() {
                assert(p[i] == q[i]);
            }
        }
        p
    }
}

/// Every walk from the start ends at a node whose breadth-first distance is at
/// most the walk's length: breadth-first distances are shortest walk lengths,
/// and nodes left without a distance are not reachable.
pub proof fn lemma_walk_bounds_distance(g: Graph, start: int, dist: Seq<Option<usize>>, p: Seq<int>)
    requires
        g.wf(),
        bfs_layers(g, start, dist),
        is_walk(g, p),
        p[0] == start,
    ensures
        dist[p.last()] is Some,
        dval(dist[p.last()]) <= p.len() - 1,
    decreases p.len(),
{
    if p.len() > 1 {
        let q = p.drop_last();
        assert(is_walk(g, q)) by {
            assert forall|i: int| 0 <= i < q.len() - 1 implies g.adj(#[trigger] q[i]).contains(q[i + 1] as usize) by {
                assert(q[i] == p[i] && q[i + 1] == p[i + 1]);
            }
            assert forall|i: int| 0 <= i < q.len() implies 0 <= #[trigger] q[i] < g.nodes() by {
                assert(q[i] == p[i]);
            }
        }
        lemma_walk_bounds_distance(g, start, dist, q);
        let u = q.last();
        assert(u == p[p.len() - 2]);
        assert(g.adj(p[p.len() - 2]).contains(p[p.len() - 1] as usize));
        let w = p.last();
        assert(0 <= w < g.nodes());
        assert(g.nodes() < usize::MAX);
        assert((w as usize) as int == w);
        let j = choose|j: int| 0 <= j < g.adj(u).len() && g.adj(u)[j] == w as usize;
        assert(g.adj(u)[j] as int == w);
        assert(dist[g.adj(u)[j] as int] is Some && dval(dist[g.adj(u)[j] as int]) <= dval(dist[u]) + 1);
    } else {
        assert(p.last() == p[0]);
    }
}

/// The bookkeeping of a breadth-first search: `order` lists the reached nodes
/// (start first) in nondecreasing distance, each at a distance at most its
/// position, and every reached node other than the start has a predecessor
/// one step closer.
#[verifier::opaque]
pub open spec fn bfs_core(g: Graph, start: int, dist: Seq<Option<usize>>, order: Seq<usize>) -> bool {
    &&& dist.len() == g.nodes()
    &&& 0 <= start < g.nodes()
    &&& order.len() >= 1
    &&& order.len() == num_some(dist)
    &&& order[0] == start
    &&& dist[start] == Some(0usize)
    &&& forall|j: int| 0 <= j < order.len() ==> #[trigger] order[j] < g.nodes() && dist[order[j] as int] is Some
    &&& forall|j: int| 0 <= j < order.len() ==> dval(dist[#[trigger] order[j] as int]) <= j
    &&& forall|a: int, b: int|
        0 <= a <= b < order.len() ==> dval(dist[#[trigger] order[a] as int]) <= dval(dist[#[trigger] order[b] as int])
    &&& forall|v: int| 0 <= v < g.nodes() && #[trigger] dist[v] is Some ==> exists|j: int| 0 <= j < order.len() && order[j] == v
    &&& forall|v: int| 0 <= v < g.nodes() && #[trigger] dist[v] is Some && v != start ==> dval(dist[v]) > 0 && has_parent(g, dist, v)
}

/// Facts about the search state that the loops use.
proof fn lemma_core_facts(g: Graph, start: int, dist: Seq<Option<usize>>, order: Seq<usize>, j: int)
    requires
        bfs_core(g, start, dist, order),
        0 <= j < order.len(),
    ensures
        dist.len() == g.nodes(),
        0 <= start < g.nodes(),
        order.len() == num_some(dist),
        order.len() <= g.nodes(),
        order[j] < g.nodes(),
        dist[order[j] as int] is Some,
        dval(dist[order[j] as int]) <= j,
        dist[start] == Some(0usize),
{
    reveal(bfs_core);
    lemma_num_some_bound(dist);
}

/// The search state with only the start reached.
proof fn lemma_core_init(g: Graph, start: int, dist: Seq<Option<usize>>)
    requires
        g.wf(),
        0 <= start < g.nodes(),
        dist.len() == g.nodes(),
        forall|k: int| 0 <= k < dist.len() ==> dist[k] is None,
    ensures
        bfs_core(g, start, dist.update(start, Some(0usize)), seq![start as usize]),
{
    reveal(bfs_core);
    let d2 = dist.update(start, Some(0usize));
    lemma_num_some_none(dist);
    lemma_num_some_set(dist, start, 0);
    let order = seq![start as usize];
    assert forall|v: int| 0 <= v < g.nodes() && #[trigger] d2[v] is Some implies exists|j: int| 0 <= j < order.len() && order[j] == v by {
        assert(v == start);
        assert(order[0] == v);
    }
}

/// Reaching a new node `w` from the node `u` at distance `d` at the head of the
/// queue keeps the bookkeeping.
proof fn lemma_core_discover(
    g: Graph,
    start: int,
    dist: Seq<Option<usize>>,
    order: Seq<usize>,
    h: int,
    u: usize,
    d: usize,
    w: usize,
)
    requires
        g.wf(),
        bfs_core(g, start, dist, order),
        0 <= h < order.len(),
        order[h] == u,
        dist[u as int] == Some(d),
        forall|j: int| h <= j < order.len() ==> dval(dist[#[trigger] order[j] as int]) <= d + 1,
        g.adj(u as int).contains(w),
        w < g.nodes(),
        dist[w as int] is None,
        d + 1 <= usize::MAX,
    ensures
        bfs_core(g, start, dist.update(w as int, Some((d + 1) as usize)), order.push(w)),
        order.len() + 1 <= g.nodes(),
{
    reveal(bfs_core);
    let d2 = dist.update(w as int, Some((d + 1) as usize));
    let o2 = order.push(w);
    lemma_num_some_set(dist, w as int, (d + 1) as usize);
    lemma_num_some_bound(d2);
    assert(dval(dist[order[h] as int]) <= h);
    assert forall|j: int| 0 <= j < o2.len() implies #[trigger] o2[j] < g.nodes() && d2[o2[j] as int] is Some by {
        if j < order.len() {
            assert(o2[j] == order[j]);
        }
    }
    assert forall|j: int| 0 <= j < o2.len() implies dval(d2[#[trigger] o2[j] as int]) <= j by {
        if j < order.len() {
            assert(o2[j] == order[j]);
            assert(order[j] != w);
        }
    }
    assert forall|a: int, b: int| 0 <= a <= b < o2.len() implies dval(d2[#[trigger] o2[a] as int]) <= dval(d2[#[trigger] o2[b] as int]) by {
        if b < order.len() {
            assert(o2[a] == order[a] && o2[b] == order[b]);
            assert(order[a] != w && order[b] != w);
        } else if a < order.len() {
            assert(o2[a] == order[a]);
            assert(order[a] != w);
            if a < h {
                assert(dval(dist[order[a] as int]) <= dval(dist[order[h] as int]));
            }
        }
    }
    assert forall|v: int| 0 <= v < g.nodes() && #[trigger] d2[v] is Some implies exists|j: int| 0 <= j < o2.len() && o2[j] == v by {
        if v == w {
            assert(o2[o2.len() - 1] == v);
        } else {
            assert(dist[v] is Some);
            let j = choose|j: int| 0 <= j < order.len() && order[j] == v;
            assert(o2[j] == v);
        }
    }
    assert forall|v: int| 0 <= v < g.nodes() && #[trigger] d2[v] is Some && v != start implies dval(d2[v]) > 0 && has_parent(g, d2, v) by {
        if v == w {
            assert(d2[u as int] is Some);
            assert(dval(d2[u as int]) == dval(d2[v]) - 1);
            assert(0 <= u < g.nodes());
        } else {
            assert(dist[v] is Some);
            assert(has_parent(g, dist, v));
            let p = choose|p: int|
                0 <= p < g.nodes() && #[trigger] dist[p] is Some && dval(dist[p]) == dval(dist[v]) - 1 && g.adj(p).contains(
                    v as usize,
                );
            assert(d2[p] == dist[p]);
        }
    }
}

/// When every reached node has been expanded, the bookkeeping is a layering.
proof fn lemma_core_done(g: Graph, start: int, dist: Seq<Option<usize>>, order: Seq<usize>)
    requires
        g.wf(),
        bfs_core(g, start, dist, order),
        forall|j: int, k: int|
            0 <= j < order.len() && 0 <= k < g.adj(order[j] as int).len() ==> dist[#[trigger] g.adj(order[j] as int)[k] as int] is Some
                && dval(dist[g.adj(order[j] as int)[k] as int]) <= dval(dist[order[j] as int]) + 1,
    ensures
        bfs_layers(g, start, dist),
{
    reveal(bfs_core);
    assert forall|v: int, q: int|
        0 <= v < g.nodes() && dist[v] is Some && 0 <= q < g.adj(v).len() implies dist[#[trigger] g.adj(v)[q] as int] is Some
            && dval(dist[g.adj(v)[q] as int]) <= dval(dist[v]) + 1 by {
        let j = choose|j: int| 0 <= j < order.len() && order[j] == v;
        assert(g.adj(order[j] as int)[q] == g.adj(v)[q]);
    }
}

impl Graph {
    /// Breadth-first distances (in edges) from `start`; `None` for nodes it
    /// does not reach. `NodeOutOfBounds` for a start outside the graph.
    pub fn bfs_distances(&self, start: usize) -> (r: Result<Vec<Option<usize>>, GraphError>)
        requires
            self.wf(),
        ensures
            match r {
                Ok(d) => start < self.nodes() && bfs_layers(*self, start as int, d@),
                Err(e) => start >= self.nodes() && e == (GraphError::NodeOutOfBounds {
                    node: start,
                    node_count: self.nodes() as usize,
                }),
            },
    {
        let n = self.node_count();
        if start >= n {
            return Err(GraphError::NodeOutOfBounds { node: start, node_count: n });
        }
        let mut dist: Vec<Option<usize>> = Vec::new();
        let mut i: usize = 0;
        while i < n
            invariant
                i <= n,
                dist@.len() == i,
                forall|k: int| 0 <= k < i ==> dist@[k] is None,
            decreases n - i,
        {
            dist.push(None);
            i += 1;
        }
        proof {
            lemma_core_init(*self, start as int, dist@);
        }
        dist.set(start, Some(0));
        let ghost mut order: Seq<usize> = seq![start];
        let mut queue: VecDeque<usize> = VecDeque::new();
        queue.push_back(start);
        let ghost mut h: int = 0;
        assert(queue@ =~= order.subrange(h, order.len() as int));
        loop
            invariant
                self.wf(),
                n == self.nodes(),
                bfs_core(*self, start as int, dist@, order),
                dist@.len() == n,
                0 <= h <= order.len(),
                queue@ == order.subrange(h, order.len() as int),
                forall|j: int| h <= j < order.len() ==> dval(dist@[#[trigger] order[j] as int]) <= dval(dist@[order[h] as int]) + 1,
                forall|j: int, k: int|
                    0 <= j < h && 0 <= k < self.adj(order[j] as int).len() ==> dist@[#[trigger] self.adj(order[j] as int)[k] as int] is Some
                        && dval(dist@[self.adj(order[j] as int)[k] as int]) <= dval(dist@[order[j] as int]) + 1,
            ensures
                bfs_core(*self, start as int, dist@, order),
                h == order.len(),
                forall|j: int, k: int|
                    0 <= j < h && 0 <= k < self.adj(order[j] as int).len() ==> dist@[#[trigger] self.adj(order[j] as int)[k] as int] is Some
                        && dval(dist@[self.adj(order[j] as int)[k] as int]) <= dval(dist@[order[j] as int]) + 1,
            decreases n - h,
        {
            let u = match queue.pop_front() {
                Some(x) => x,
                None => {
                    break;
                },
            };
            assert(u == order[h]);
            proof {
                lemma_core_facts(*self, start as int, dist@, order, h);
            }
            let d = match dist[u] {
                Some(x) => x,
                None => 0,
            };
            let nbrs = self.neighbors_of(u);
            proof {
                self.lemma_adj_valid(u as int);
            }
            let mut k: usize = 0;
            while k < nbrs.len()
                invariant
                    self.wf(),
                    n == self.nodes(),
                    bfs_core(*self, start as int, dist@, order),
                    dist@.len() == n,
                    h < order.len(),
                    queue@ == order.subrange(h + 1, order.len() as int),
                    u == order[h as int],
                    u < n,
                    dist@[u as int] == Some(d),
                    d <= h,
                    h < n,
                    nbrs@ == self.adj(u as int),
                    forall|q: int| 0 <= q < nbrs@.len() ==> #[trigger] nbrs@[q] < n,
                    k <= nbrs@.len(),
                    forall|j: int| h <= j < order.len() ==> dval(dist@[#[trigger] order[j] as int]) <= d + 1,
                    forall|j: int, q: int|
                        0 <= j < h && 0 <= q < self.adj(order[j] as int).len() ==> dist@[#[trigger] self.adj(order[j] as int)[q] as int] is Some
                            && dval(dist@[self.adj(order[j] as int)[q] as int]) <= dval(dist@[order[j] as int]) + 1,
                    forall|q: int| 0 <= q < k ==> dist@[#[trigger] nbrs@[q] as int] is Some && dval(dist@[nbrs@[q] as int]) <= d + 1,
                decreases nbrs@.len() - k,
            {
                let w = nbrs[k];
                if dist[w].is_none() {
                    proof {
                        assert(nbrs@[k as int] == w);
                        assert(self.adj(u as int).contains(w));
                        lemma_core_discover(*self, start as int, dist@, order, h as int, u, d, w);
                    }
                    let ghost od = dist@;
                    let ghost oo = order;
                    dist.set(w, Some(d + 1));
                    queue.push_back(w);
                    proof {
                        order = order.push(w);
                    }
                    proof {
                        assert forall|j: int, q: int|
                            0 <= j < h && 0 <= q < self.adj(order[j] as int).len() implies dist@[#[trigger] self.adj(
                                order[j] as int,
                            )[q] as int] is Some && dval(dist@[self.adj(order[j] as int)[q] as int]) <= dval(
                            dist@[order[j] as int],
                        ) + 1 by {
                            assert(order[j] == oo[j]);
                            assert(od[self.adj(oo[j] as int)[q] as int] is Some);
                            lemma_core_facts(*self, start as int, od, oo, j);
                        }
                        assert forall|j: int| h <= j < order.len() implies dval(dist@[#[trigger] order[j] as int]) <= d + 1 by {
                            if j < oo.len() {
                                assert(order[j] == oo[j]);
                                lemma_core_facts(*self, start as int, od, oo, j);
                            }
                        }
                        assert forall|q: int| 0 <= q < k + 1 implies dist@[#[trigger] nbrs@[q] as int] is Some && dval(
                            dist@[nbrs@[q] as int],
                        ) <= d + 1 by {
                            if q < k {
                                assert(od[nbrs@[q] as int] is Some);
                            }
                        }
                    }
                } else {
                    proof {
                        reveal(bfs_core);
                        assert(dist@[w as int] is Some);
                        let j = choose|j: int| 0 <= j < order.len() && order[j] == w;
                        if j < h {
                            assert(dval(dist@[order[j] as int]) <= dval(dist@[order[h as int] as int]));
                        }
                        assert(nbrs@[k as int] == w);
                    }
                }
                k += 1;
            }
            proof {
                h = h + 1;
                if h < order.len() {
                    reveal(bfs_core);
                    assert(dval(dist@[order[h - 1] as int]) <= dval(dist@[order[h as int] as int]));
                }
            }
        }
        proof {
            lemma_core_done(*self, start as int, dist@, order);
        }
        Ok(dist)
    }
}

/// Entry `i` of `c` is a neighbour of an entry listed before it.
pub open spec fn has_earlier_parent(g: Graph, c: Seq<usize>, i: int) -> bool {
    exists|p: int| 0 <= p < i && #[trigger] g.adj(c[p] as int).contains(c[i])
}

/// The views of a list of node lists.
pub open spec fn cviews(cs: Seq<Vec<usize>>) -> Seq<Seq<usize>> {
    Seq::new(cs.len(), |k: int| cs[k]@)
}

/// Node `v` appears in one of the lists.
pub open spec fn listed(cs: Seq<Seq<usize>>, v: int) -> bool {
    exists|k: int| 0 <= k < cs.len() && (#[trigger] cs[k]).contains(v as usize)
}

/// Node `v` appears in one of the first `m` lists.
pub open spec fn listed_before(cs: Seq<Seq<usize>>, m: int, v: int) -> bool {
    exists|k: int| 0 <= k < m && (#[trigger] cs[k]).contains(v as usize)
}

/// The lists hold nodes of the graph, none of them twice.
pub open spec fn disjoint_nodes(g: Graph, cs: Seq<Seq<usize>>) -> bool {
    &&& forall|k: int, i: int| 0 <= k < cs.len() && 0 <= i < cs[k].len() ==> #[trigger] cs[k][i] < g.nodes()
    &&& forall|k1: int, i1: int, k2: int, i2: int|
        0 <= k1 < cs.len() && 0 <= i1 < cs[k1].len() && 0 <= k2 < cs.len() && 0 <= i2 < cs[k2].len() && (k1 != k2 || i1
            != i2) ==> #[trigger] cs[k1][i1] != #[trigger] cs[k2][i2]
}

/// The first position of `v` in `a` (the length of `a` where `v` is absent).
pub open spec fn first_index(a: Seq<usize>, v: usize) -> int
    decreases a.len(),
{
    if a.len() == 0 {
        0
    } else {
        let r = first_index(a.drop_last(), v);
        if r < a.len() - 1 {
            r
        } else if a.last() == v {
            a.len() - 1
        } else {
            a.len() as int
        }
    }
}

/// The first of the nodes `c[0..m]` whose neighbours include `v` (`m` where
/// none does).
pub open spec fn first_parent(g: Graph, c: Seq<usize>, v: usize, m: int) -> int
    decreases m,
{
    if m <= 0 {
        0
    } else {
        let r = first_parent(g, c, v, m - 1);
        if r < m - 1 {
            r
        } else if g.adj(c[m - 1] as int).contains(v) {
            m - 1
        } else {
            m
        }
    }
}

/// The position, in list `c`, of the first node listed before `c[i]` that
/// has `c[i]` as a neighbour.
pub open spec fn parent_of(g: Graph, c: Seq<usize>, i: int) -> int {
    first_parent(g, c, c[i], i)
}

/// Node `c[i]` is found by a breadth-first search before node `c[j]`: its
/// parent comes first in `c`, or they share the parent and `c[i]` comes first
/// in the parent's neighbour list.
pub open spec fn found_before(g: Graph, c: Seq<usize>, i: int, j: int) -> bool {
    let pi = parent_of(g, c, i);
    let pj = parent_of(g, c, j);
    pi < pj || (pi == pj && first_index(g.adj(c[pi] as int), c[i]) < first_index(g.adj(c[pj] as int), c[j]))
}

/// The nodes after the first come in the order in which a breadth-first
/// search from the first one finds them.
pub open spec fn bfs_ordered(g: Graph, c: Seq<usize>) -> bool {
    &&& forall|i: int| 1 <= i < c.len() ==> #[trigger] parent_of(g, c, i) < i
    &&& forall|i: int, j: int| 1 <= i < j < c.len() ==> #[trigger] found_before(g, c, i, j)
}

/// While node `c[h]` has its neighbours scanned up to position `k`: every node
/// after the first was found from an earlier node, or from `c[h]` before
/// position `k`.
pub open spec fn bfs_front(g: Graph, c: Seq<usize>, h: int, k: int) -> bool {
    forall|i: int|
        1 <= i < c.len() ==> #[trigger] parent_of(g, c, i) < h || (parent_of(g, c, i) == h && first_index(
            g.adj(c[h] as int),
            c[i],
        ) < k)
}

proof fn lemma_first_index(a: Seq<usize>, v: usize)
    ensures
        0 <= first_index(a, v) <= a.len(),
        forall|q: int| 0 <= q < first_index(a, v) ==> a[q] != v,
        first_index(a, v) < a.len() ==> a[first_index(a, v)] == v,
    decreases a.len(),
{
    if a.len() > 0 {
        let d = a.drop_last();
        lemma_first_index(d, v);
        assert forall|q: int| 0 <= q < first_index(a, v) implies a[q] != v by {
            if q < d.len() {
                assert(a[q] == d[q]);
            }
        }
    }
}

proof fn lemma_first_parent(g: Graph, c: Seq<usize>, v: usize, m: int)
    requires
        0 <= m <= c.len(),
    ensures
        0 <= first_parent(g, c, v, m) <= m,
        forall|p: int| 0 <= p < first_parent(g, c, v, m) ==> !g.adj(#[trigger] c[p] as int).contains(v),
        first_parent(g, c, v, m) < m ==> g.adj(c[first_parent(g, c, v, m)] as int).contains(v),
    decreases m,
{
    if m > 0 {
        lemma_first_parent(g, c, v, m - 1);
    }
}

proof fn lemma_first_parent_push(g: Graph, c: Seq<usize>, x: usize, v: usize, m: int)
    requires
        0 <= m <= c.len(),
    ensures
        first_parent(g, c.push(x), v, m) == first_parent(g, c, v, m),
    decreases m,
{
    if m > 0 {
        lemma_first_parent_push(g, c, x, v, m - 1);
        assert(c.push(x)[m - 1] == c[m - 1]);
    }
}

/// Appending a node keeps the parents and positions of the nodes before it.
proof fn lemma_parent_push(g: Graph, c: Seq<usize>, x: usize, i: int)
    requires
        0 <= i < c.len(),
    ensures
        parent_of(g, c.push(x), i) == parent_of(g, c, i),
        c.push(x)[i] == c[i],
        parent_of(g, c, i) <= i,
        parent_of(g, c, i) < c.len() ==> c.push(x)[parent_of(g, c, i)] == c[parent_of(g, c, i)],
{
    lemma_first_parent_push(g, c, x, c[i], i);
    lemma_first_parent(g, c, c[i], i);
}

/// Appending `w`, found from `c[h]` at position `k` of its neighbour list,
/// keeps the list in breadth-first order.
proof fn lemma_bfs_discover(g: Graph, c: Seq<usize>, h: int, k: int, w: usize)
    requires
        bfs_ordered(g, c),
        bfs_front(g, c, h, k),
        0 <= h < c.len(),
        0 <= k < g.adj(c[h] as int).len(),
        g.adj(c[h] as int)[k] == w,
        forall|q: int| 0 <= q < k ==> g.adj(c[h] as int)[q] != w,
        forall|p: int| 0 <= p < h ==> !g.adj(#[trigger] c[p] as int).contains(w),
    ensures
        bfs_ordered(g, c.push(w)),
        bfs_front(g, c.push(w), h, k + 1),
{
    let c2 = c.push(w);
    let m = c.len() as int;
    assert(c2[m] == w);
    assert(c2[h] == c[h]);
    lemma_first_parent(g, c2, w, m);
    assert(g.adj(c2[h] as int).contains(w)) by {
        assert(g.adj(c2[h] as int)[k] == w);
    }
    assert forall|p: int| 0 <= p < h implies !g.adj(#[trigger] c2[p] as int).contains(w) by {
        assert(c2[p] == c[p]);
    }
    assert(parent_of(g, c2, m) == h);
    lemma_first_index(g.adj(c[h] as int), w);
    assert(first_index(g.adj(c[h] as int), w) == k);
    assert forall|i: int| 1 <= i < c2.len() implies #[trigger] parent_of(g, c2, i) < i by {
        if i < m {
            lemma_parent_push(g, c, w, i);
            assert(parent_of(g, c, i) < i);
        }
    }
    assert forall|i: int, j: int| 1 <= i < j < c2.len() implies #[trigger] found_before(g, c2, i, j) by {
        lemma_parent_push(g, c, w, i);
        assert(parent_of(g, c, i) < i);
        if j < m {
            lemma_parent_push(g, c, w, j);
            assert(parent_of(g, c, j) < j);
            assert(found_before(g, c, i, j));
        } else {
            assert(parent_of(g, c, i) < h || (parent_of(g, c, i) == h && first_index(g.adj(c[h] as int), c[i]) < k));
        }
    }
    assert forall|i: int| 1 <= i < c2.len() implies #[trigger] parent_of(g, c2, i) < h || (parent_of(g, c2, i) == h
        && first_index(g.adj(c2[h] as int), c2[i]) < k + 1) by {
        if i < m {
            lemma_parent_push(g, c, w, i);
            assert(parent_of(g, c, i) < h || (parent_of(g, c, i) == h && first_index(g.adj(c[h] as int), c[i]) < k));
        }
    }
}

/// What `connected_components` returns: every node appears in exactly one
/// component; component `k` starts with the smallest node not in an earlier
/// one (so starts increase); every edge out of component `k` leads into it or
/// an earlier component; every node after the first is a neighbour of a
/// node listed before it in its component; and each component lists its
/// nodes in the order of a breadth-first search from its first node.
pub open spec fn components_ok(g: Graph, cs: Seq<Seq<usize>>) -> bool {
    &&& disjoint_nodes(g, cs)
    &&& forall|v: int| 0 <= v < g.nodes() ==> #[trigger] listed(cs, v)
    &&& forall|k: int| 0 <= k < cs.len() ==> (#[trigger] cs[k]).len() >= 1
    &&& forall|k: int, v: int| 0 <= k < cs.len() && 0 <= v < cs[k][0] ==> #[trigger] listed_before(cs, k, v)
    &&& forall|j: int, k: int| 0 <= j < k < cs.len() ==> #[trigger] cs[j][0] < #[trigger] cs[k][0]
    &&& forall|k: int, i: int, q: int|
        0 <= k < cs.len() && 0 <= i < cs[k].len() && 0 <= q < g.adj(cs[k][i] as int).len() ==> listed_before(
            cs,
            k + 1,
            #[trigger] g.adj(cs[k][i] as int)[q] as int,
        )
    &&& forall|k: int, i: int|
        0 <= k < cs.len() && 1 <= i < cs[k].len() ==> #[trigger] has_earlier_parent(g, cs[k], i)
    &&& forall|k: int| 0 <= k < cs.len() ==> bfs_ordered(g, #[trigger] cs[k])
}

/// Number of set flags.
pub open spec fn num_true(s: Seq<bool>) -> int
    decreases s.len(),
{
    if s.len() == 0 {
        0
    } else {
        num_true(s.drop_last()) + if s.last() { 1int } else { 0int }
    }
}

proof fn lemma_num_true_bound(s: Seq<bool>)
    ensures
        0 <= num_true(s) <= s.len(),
    decreases s.len(),
{
    if s.len() > 0 {
        lemma_num_true_bound(s.drop_last());
    }
}

proof fn lemma_num_true_set(s: Seq<bool>, i: int)
    requires
        0 <= i < s.len(),
        !s[i],
    ensures
        num_true(s.update(i, true)) == num_true(s) + 1,
    decreases s.len(),
{
    let t = s.update(i, true);
    if i == s.len() - 1 {
        assert(t.drop_last() =~= s.drop_last());
    } else {
        assert(t.drop_last() =~= s.drop_last().update(i, true));
        lemma_num_true_set(s.drop_last(), i);
    }
}

proof fn lemma_num_true_none(s: Seq<bool>)
    requires
        forall|k: int| 0 <= k < s.len() ==> !s[k],
    ensures
        num_true(s) == 0,
    decreases s.len(),
{
    if s.len() > 0 {
        lemma_num_true_none(s.drop_last());
    }
}

/// Total number of entries of the lists.
pub open spec fn total_len(cs: Seq<Seq<usize>>) -> int
    decreases cs.len(),
{
    if cs.len() == 0 {
        0
    } else {
        total_len(cs.drop_last()) + cs.last().len()
    }
}

/// The component search before start node `s`: the components found so far
/// satisfy the component conditions on the nodes they hold, the flags mark
/// exactly the listed nodes, and every node below `s` is listed.
#[verifier::opaque]
pub open spec fn cc_outer(g: Graph, seen: Seq<bool>, cs: Seq<Seq<usize>>, s: int) -> bool {
    &&& seen.len() == g.nodes()
    &&& 0 <= s <= g.nodes()
    &&& disjoint_nodes(g, cs)
    &&& forall|v: int| 0 <= v < g.nodes() ==> (seen[v] <==> #[trigger] listed(cs, v))
    &&& forall|v: int| 0 <= v < s ==> #[trigger] seen[v]
    &&& num_true(seen) == total_len(cs)
    &&& forall|k: int| 0 <= k < cs.len() ==> (#[trigger] cs[k]).len() >= 1
    &&& forall|k: int| 0 <= k < cs.len() ==> #[trigger] cs[k][0] < s
    &&& forall|k: int, v: int| 0 <= k < cs.len() && 0 <= v < cs[k][0] ==> #[trigger] listed_before(cs, k, v)
    &&& forall|j: int, k: int| 0 <= j < k < cs.len() ==> #[trigger] cs[j][0] < #[trigger] cs[k][0]
    &&& forall|k: int, i: int, q: int|
        0 <= k < cs.len() && 0 <= i < cs[k].len() && 0 <= q < g.adj(cs[k][i] as int).len() ==> listed_before(
            cs,
            k + 1,
            #[trigger] g.adj(cs[k][i] as int)[q] as int,
        )
    &&& forall|k: int, i: int|
        0 <= k < cs.len() && 1 <= i < cs[k].len() ==> #[trigger] has_earlier_parent(g, cs[k], i)
    &&& forall|k: int| 0 <= k < cs.len() ==> bfs_ordered(g, #[trigger] cs[k])
}

/// The breadth-first search of a new component `comp` from start node `s`:
/// the earlier components are untouched, `comp` holds new nodes reached from
/// `s`, and the neighbours of its first `h` nodes are all flagged.
#[verifier::opaque]
pub open spec fn cc_inner(g: Graph, seen: Seq<bool>, cs: Seq<Seq<usize>>, s: int, comp: Seq<usize>, h: int) -> bool {
    &&& seen.len() == g.nodes()
    &&& 0 <= s < g.nodes()
    &&& disjoint_nodes(g, cs.push(comp))
    &&& forall|v: int| 0 <= v < g.nodes() ==> (seen[v] <==> #[trigger] listed(cs.push(comp), v))
    &&& forall|v: int| 0 <= v < s ==> #[trigger] listed(cs, v)
    &&& num_true(seen) == total_len(cs.push(comp))
    &&& comp.len() >= 1
    &&& comp[0] == s
    &&& 0 <= h <= comp.len()
    &&& forall|k: int| 0 <= k < cs.len() ==> (#[trigger] cs[k]).len() >= 1
    &&& forall|k: int| 0 <= k < cs.len() ==> #[trigger] cs[k][0] < s
    &&& forall|k: int, v: int| 0 <= k < cs.len() && 0 <= v < cs[k][0] ==> #[trigger] listed_before(cs, k, v)
    &&& forall|j: int, k: int| 0 <= j < k < cs.len() ==> #[trigger] cs[j][0] < #[trigger] cs[k][0]
    &&& forall|k: int, i: int, q: int|
        0 <= k < cs.len() && 0 <= i < cs[k].len() && 0 <= q < g.adj(cs[k][i] as int).len() ==> listed_before(
            cs,
            k + 1,
            #[trigger] g.adj(cs[k][i] as int)[q] as int,
        )
    &&& forall|k: int, i: int|
        0 <= k < cs.len() && 1 <= i < cs[k].len() ==> #[trigger] has_earlier_parent(g, cs[k], i)
    &&& forall|i: int, q: int| 0 <= i < h && 0 <= q < g.adj(comp[i] as int).len() ==> seen[#[trigger] g.adj(comp[i] as int)[q] as int]
    &&& forall|i: int| 1 <= i < comp.len() ==> #[trigger] has_earlier_parent(g, comp, i)
    &&& forall|k: int| 0 <= k < cs.len() ==> bfs_ordered(g, #[trigger] cs[k])
}


proof fn lemma_total_len_push(cs: Seq<Seq<usize>>, c: Seq<usize>)
    ensures
        total_len(cs.push(c)) == total_len(cs) + c.len(),
{
    assert(cs.push(c).drop_last() =~= cs);
}

proof fn lemma_listed_push(cs: Seq<Seq<usize>>, c: Seq<usize>, v: int)
    ensures
        listed(cs.push(c), v) <==> (listed(cs, v) || c.contains(v as usize)),
        forall|m: int| 0 <= m <= cs.len() ==> (#[trigger] listed_before(cs.push(c), m, v) <==> listed_before(cs, m, v)),
        listed_before(cs.push(c), cs.len() as int + 1, v) <==> listed(cs.push(c), v),
        listed_before(cs, cs.len() as int, v) <==> listed(cs, v),
{
    let t = cs.push(c);
    if listed(t, v) {
        let k = choose|k: int| 0 <= k < t.len() && (#[trigger] t[k]).contains(v as usize);
        if k < cs.len() {
            assert(t[k] == cs[k]);
        }
    }
    if listed(cs, v) {
        let k = choose|k: int| 0 <= k < cs.len() && (#[trigger] cs[k]).contains(v as usize);
        assert(t[k] == cs[k]);
    }
    if c.contains(v as usize) {
        assert(t[cs.len() as int] == c);
    }
    assert forall|m: int| 0 <= m <= cs.len() implies (#[trigger] listed_before(t, m, v) <==> listed_before(cs, m, v)) by {
        if listed_before(t, m, v) {
            let k = choose|k: int| 0 <= k < m && (#[trigger] t[k]).contains(v as usize);
            assert(t[k] == cs[k]);
        }
        if listed_before(cs, m, v) {
            let k = choose|k: int| 0 <= k < m && (#[trigger] cs[k]).contains(v as usize);
            assert(t[k] == cs[k]);
        }
    }
}

proof fn lemma_total_len_nonneg(cs: Seq<Seq<usize>>)
    ensures
        total_len(cs) >= 0,
    decreases cs.len(),
{
    if cs.len() > 0 {
        lemma_total_len_nonneg(cs.drop_last());
    }
}

proof fn lemma_cc_init(g: Graph, seen: Seq<bool>)
    requires
        g.wf(),
        seen.len() == g.nodes(),
        forall|k: int| 0 <= k < seen.len() ==> !seen[k],
    ensures
        cc_outer(g, seen, Seq::empty(), 0),
{
    reveal(cc_outer);
    lemma_num_true_none(seen);
    let cs = Seq::<Seq<usize>>::empty();
    assert forall|v: int| 0 <= v < g.nodes() implies (seen[v] <==> #[trigger] listed(cs, v)) by {
    }
}

proof fn lemma_cc_outer_facts(g: Graph, seen: Seq<bool>, cs: Seq<Seq<usize>>, s: int)
    requires
        cc_outer(g, seen, cs, s),
    ensures
        seen.len() == g.nodes(),
        0 <= s <= g.nodes(),
        s < g.nodes() ==> (seen[s] <==> listed(cs, s)),
        forall|k: int, i: int| 0 <= k < cs.len() && 0 <= i < cs[k].len() ==> #[trigger] cs[k][i] < g.nodes(),
{
    reveal(cc_outer);
}

proof fn lemma_cc_skip(g: Graph, seen: Seq<bool>, cs: Seq<Seq<usize>>, s: int)
    requires
        cc_outer(g, seen, cs, s),
        0 <= s < g.nodes(),
        seen[s],
    ensures
        cc_outer(g, seen, cs, s + 1),
{
    reveal(cc_outer);
}

proof fn lemma_cc_start(g: Graph, seen: Seq<bool>, cs: Seq<Seq<usize>>, s: int)
    requires
        g.wf(),
        cc_outer(g, seen, cs, s),
        0 <= s < g.nodes(),
        !seen[s],
    ensures
        cc_inner(g, seen.update(s, true), cs, s, seq![s as usize], 0),
{
    reveal(cc_outer);
    reveal(cc_inner);
    let c = seq![s as usize];
    let t = cs.push(c);
    let seen2 = seen.update(s, true);
    lemma_num_true_set(seen, s);
    lemma_total_len_push(cs, c);
    assert(!listed(cs, s));
    assert forall|v: int| 0 <= v < g.nodes() implies (seen2[v] <==> #[trigger] listed(t, v)) by {
        lemma_listed_push(cs, c, v);
        if v == s {
            assert(c[0] == s as usize);
        }
        if c.contains(v as usize) {
            let i = choose|i: int| 0 <= i < c.len() && c[i] == v as usize;
            assert(i == 0);
        }
    }
    assert forall|v: int| 0 <= v < s implies #[trigger] listed(cs, v) by {
        assert(seen[v]);
    }
    assert forall|k1: int, i1: int, k2: int, i2: int|
        0 <= k1 < t.len() && 0 <= i1 < t[k1].len() && 0 <= k2 < t.len() && 0 <= i2 < t[k2].len() && (k1 != k2 || i1 != i2)
            implies #[trigger] t[k1][i1] != #[trigger] t[k2][i2] by {
        if k1 < cs.len() && k2 < cs.len() {
            assert(t[k1] == cs[k1] && t[k2] == cs[k2]);
        } else if k1 < cs.len() {
            assert(t[k1] == cs[k1]);
            assert(cs[k1].contains(cs[k1][i1]));
            assert(listed(cs, cs[k1][i1] as int));
        } else if k2 < cs.len() {
            assert(t[k2] == cs[k2]);
            assert(cs[k2].contains(cs[k2][i2]));
            assert(listed(cs, cs[k2][i2] as int));
        }
    }
    assert forall|k: int, i: int| 0 <= k < t.len() && 0 <= i < t[k].len() implies #[trigger] t[k][i] < g.nodes() by {
        if k < cs.len() {
            assert(t[k] == cs[k]);
        }
    }
}

proof fn lemma_cc_inner_facts(g: Graph, seen: Seq<bool>, cs: Seq<Seq<usize>>, s: int, comp: Seq<usize>, h: int)
    requires
        cc_inner(g, seen, cs, s, comp, h),
    ensures
        seen.len() == g.nodes(),
        0 <= h <= comp.len(),
        comp.len() <= g.nodes(),
        forall|i: int| 0 <= i < comp.len() ==> #[trigger] comp[i] < g.nodes(),
        comp[0] == s,
{
    reveal(cc_inner);
    lemma_num_true_bound(seen);
    lemma_total_len_push(cs, comp);
    lemma_total_len_nonneg(cs);
    assert forall|i: int| 0 <= i < comp.len() implies #[trigger] comp[i] < g.nodes() by {
        assert(cs.push(comp)[cs.len() as int] == comp);
        assert(cs.push(comp)[cs.len() as int][i] < g.nodes());
    }
}

proof fn lemma_cc_discover(g: Graph, seen: Seq<bool>, cs: Seq<Seq<usize>>, s: int, comp: Seq<usize>, h: int, w: usize)
    requires
        g.wf(),
        cc_inner(g, seen, cs, s, comp, h),
        0 <= h < comp.len(),
        g.adj(comp[h] as int).contains(w),
        w < g.nodes(),
        !seen[w as int],
    ensures
        cc_inner(g, seen.update(w as int, true), cs, s, comp.push(w), h),
{
    reveal(cc_inner);
    let c2 = comp.push(w);
    let t = cs.push(comp);
    let t2 = cs.push(c2);
    let seen2 = seen.update(w as int, true);
    lemma_num_true_set(seen, w as int);
    lemma_total_len_push(cs, comp);
    lemma_total_len_push(cs, c2);
    lemma_listed_push(cs, comp, w as int);
    assert(!listed(t, w as int));
    assert(!comp.contains(w));
    assert forall|v: int| 0 <= v < g.nodes() implies (seen2[v] <==> #[trigger] listed(t2, v)) by {
        lemma_listed_push(cs, comp, v);
        lemma_listed_push(cs, c2, v);
        if c2.contains(v as usize) {
            let i = choose|i: int| 0 <= i < c2.len() && c2[i] == v as usize;
            if i < comp.len() {
                assert(comp[i] == v as usize);
            }
        }
        if comp.contains(v as usize) {
            let i = choose|i: int| 0 <= i < comp.len() && comp[i] == v as usize;
            assert(c2[i] == v as usize);
        }
        if v == w {
            assert(c2[comp.len() as int] == w);
        }
    }
    assert forall|k: int, i: int| 0 <= k < t2.len() && 0 <= i < t2[k].len() implies #[trigger] t2[k][i] < g.nodes() by {
        if k < cs.len() {
            assert(t2[k] == t[k]);
        } else if i < comp.len() {
            assert(t2[k][i] == t[k][i]);
        }
    }
    assert forall|k1: int, i1: int, k2: int, i2: int|
        0 <= k1 < t2.len() && 0 <= i1 < t2[k1].len() && 0 <= k2 < t2.len() && 0 <= i2 < t2[k2].len() && (k1 != k2 || i1
            != i2) implies #[trigger] t2[k1][i1] != #[trigger] t2[k2][i2] by {
        let last1 = k1 == cs.len() && i1 == comp.len();
        let last2 = k2 == cs.len() && i2 == comp.len();
        if !last1 && !last2 {
            assert(t2[k1][i1] == t[k1][i1]);
            assert(t2[k2][i2] == t[k2][i2]);
        } else if last1 && !last2 {
            assert(t2[k2][i2] == t[k2][i2]);
            assert(t[k2].contains(t[k2][i2]));
            assert(listed(t, t[k2][i2] as int));
        } else if last2 && !last1 {
            assert(t2[k1][i1] == t[k1][i1]);
            assert(t[k1].contains(t[k1][i1]));
            assert(listed(t, t[k1][i1] as int));
        }
    }
    assert forall|i: int, q: int| 0 <= i < h && 0 <= q < g.adj(c2[i] as int).len() implies seen2[#[trigger] g.adj(c2[i] as int)[q] as int] by {
        assert(c2[i] == comp[i]);
        assert(seen[g.adj(comp[i] as int)[q] as int]);
    }
    assert forall|i: int| 1 <= i < c2.len() implies #[trigger] has_earlier_parent(g, c2, i) by {
        if i < comp.len() {
            assert(has_earlier_parent(g, comp, i));
            let p = choose|p: int| 0 <= p < i && #[trigger] g.adj(comp[p] as int).contains(comp[i]);
            assert(c2[p] == comp[p] && c2[i] == comp[i]);
            assert(g.adj(c2[p] as int).contains(c2[i]));
        } else {
            assert(c2[h] == comp[h]);
            assert(g.adj(c2[h] as int).contains(c2[i]));
        }
    }
    assert(c2[0] == comp[0]);
}

/// A node not yet flagged is no neighbour of the nodes already scanned.
proof fn lemma_cc_unseen(g: Graph, seen: Seq<bool>, cs: Seq<Seq<usize>>, s: int, comp: Seq<usize>, h: int, w: usize)
    requires
        cc_inner(g, seen, cs, s, comp, h),
        w < seen.len(),
        !seen[w as int],
    ensures
        forall|p: int| 0 <= p < h ==> !g.adj(#[trigger] comp[p] as int).contains(w),
{
    reveal(cc_inner);
    assert forall|p: int| 0 <= p < h implies !g.adj(#[trigger] comp[p] as int).contains(w) by {
        if g.adj(comp[p] as int).contains(w) {
            let q = choose|q: int| 0 <= q < g.adj(comp[p] as int).len() && g.adj(comp[p] as int)[q] == w;
            assert(seen[g.adj(comp[p] as int)[q] as int]);
        }
    }
}

proof fn lemma_bfs_front_step(g: Graph, c: Seq<usize>, h: int, k: int)
    requires
        bfs_front(g, c, h, k),
    ensures
        bfs_front(g, c, h, k + 1),
        bfs_front(g, c, h + 1, 0),
{
}

proof fn lemma_cc_advance(g: Graph, seen: Seq<bool>, cs: Seq<Seq<usize>>, s: int, comp: Seq<usize>, h: int)
    requires
        cc_inner(g, seen, cs, s, comp, h),
        0 <= h < comp.len(),
        forall|q: int| 0 <= q < g.adj(comp[h] as int).len() ==> seen[#[trigger] g.adj(comp[h] as int)[q] as int],
    ensures
        cc_inner(g, seen, cs, s, comp, h + 1),
{
    reveal(cc_inner);
}

proof fn lemma_cc_finish(g: Graph, seen: Seq<bool>, cs: Seq<Seq<usize>>, s: int, comp: Seq<usize>)
    requires
        g.wf(),
        cc_inner(g, seen, cs, s, comp, comp.len() as int),
        bfs_ordered(g, comp),
    ensures
        cc_outer(g, seen, cs.push(comp), s + 1),
{
    reveal(cc_inner);
    reveal(cc_outer);
    let t = cs.push(comp);
    let n = cs.len() as int;
    assert(t[n] == comp);
    assert forall|v: int| 0 <= v < s + 1 implies #[trigger] seen[v] by {
        lemma_listed_push(cs, comp, v);
        if v == s {
            assert(comp[0] == s as usize);
            assert(comp.contains(s as usize));
        }
    }
    assert forall|k: int| 0 <= k < t.len() implies (#[trigger] t[k]).len() >= 1 by {
        if k < n {
            assert(t[k] == cs[k]);
        }
    }
    assert forall|k: int| 0 <= k < t.len() implies #[trigger] t[k][0] < s + 1 by {
        if k < n {
            assert(t[k] == cs[k]);
        }
    }
    assert forall|k: int, v: int| 0 <= k < t.len() && 0 <= v < t[k][0] implies #[trigger] listed_before(t, k, v) by {
        lemma_listed_push(cs, comp, v);
        if k < n {
            assert(t[k] == cs[k]);
            assert(listed_before(cs, k, v));
        } else {
            assert(listed(cs, v));
        }
    }
    assert forall|j: int, k: int| 0 <= j < k < t.len() implies #[trigger] t[j][0] < #[trigger] t[k][0] by {
        assert(t[j] == cs[j]);
        if k < n {
            assert(t[k] == cs[k]);
        }
    }
    assert forall|k: int, i: int, q: int|
        0 <= k < t.len() && 0 <= i < t[k].len() && 0 <= q < g.adj(t[k][i] as int).len() implies listed_before(
            t,
            k + 1,
            #[trigger] g.adj(t[k][i] as int)[q] as int,
        ) by {
        let x = g.adj(t[k][i] as int)[q] as int;
        lemma_listed_push(cs, comp, x);
        if k < n {
            assert(t[k] == cs[k]);
            assert(listed_before(cs, k + 1, x));
        } else {
            assert(seen[g.adj(comp[i] as int)[q] as int]);
            g.lemma_adj_valid(comp[i] as int);
        }
    }
    assert forall|k: int, i: int| 0 <= k < t.len() && 1 <= i < t[k].len() implies #[trigger] has_earlier_parent(g, t[k], i) by {
        if k < n {
            assert(t[k] == cs[k]);
            assert(has_earlier_parent(g, cs[k], i));
        } else {
            assert(has_earlier_parent(g, comp, i));
        }
    }
    assert forall|k: int| 0 <= k < t.len() implies bfs_ordered(g, #[trigger] t[k]) by {
        if k < n {
            assert(t[k] == cs[k]);
        }
    }
}

proof fn lemma_cc_done(g: Graph, seen: Seq<bool>, cs: Seq<Seq<usize>>)
    requires
        cc_outer(g, seen, cs, g.nodes()),
    ensures
        components_ok(g, cs),
{
    reveal(cc_outer);
}

impl Graph {
    /// Components in order of their smallest node; each lists the nodes a
    /// breadth-first search from that node reaches without entering an
    /// earlier component, in the order the search visits them.
    #[verifier::rlimit(60)]
    pub fn connected_components(&self) -> (r: Vec<Vec<usize>>)
        requires
            self.wf(),
        ensures
            components_ok(*self, cviews(r@)),
    {
        let n = self.node_count();
        let mut seen: Vec<bool> = Vec::new();
        let mut i: usize = 0;
        while i < n
            invariant
                i <= n,
                seen@.len() == i,
                forall|k: int| 0 <= k < i ==> !seen@[k],
            decreases n - i,
        {
            seen.push(false);
            i += 1;
        }
        let mut components: Vec<Vec<usize>> = Vec::new();
        proof {
            lemma_cc_init(*self, seen@);
            assert(cviews(components@) =~= Seq::<Seq<usize>>::empty());
        }
        let mut s: usize = 0;
        while s < n
            invariant
                self.wf(),
                n == self.nodes(),
                s <= n,
                seen@.len() == n,
                cc_outer(*self, seen@, cviews(components@), s as int),
            decreases n - s,
        {
            proof {
                lemma_cc_outer_facts(*self, seen@, cviews(components@), s as int);
            }
            if seen[s] {
                proof {
                    lemma_cc_skip(*self, seen@, cviews(components@), s as int);
                }
                s += 1;
                continue;
            }
            proof {
                lemma_cc_start(*self, seen@, cviews(components@), s as int);
            }
            seen.set(s, true);
            let ghost mut disc: Seq<usize> = seq![s];
            let mut comp: Vec<usize> = Vec::new();
            let mut queue: VecDeque<usize> = VecDeque::new();
            queue.push_back(s);
            assert(bfs_ordered(*self, disc));
            assert(bfs_front(*self, disc, 0, 0));
            let ghost mut h: int = 0;
            assert(queue@ =~= disc.subrange(h, disc.len() as int));
            assert(comp@ =~= disc.take(h));
            loop
                invariant
                    self.wf(),
                    n == self.nodes(),
                    s < n,
                    seen@.len() == n,
                    0 <= h <= disc.len(),
                    queue@ == disc.subrange(h, disc.len() as int),
                    comp@ == disc.take(h),
                    cc_inner(*self, seen@, cviews(components@), s as int, disc, h),
                    bfs_ordered(*self, disc),
                    bfs_front(*self, disc, h, 0),
                ensures
                    h == disc.len(),
                    comp@ == disc,
                    cc_inner(*self, seen@, cviews(components@), s as int, disc, h),
                    bfs_ordered(*self, disc),
                decreases n - h,
            {
                proof {
                    lemma_cc_inner_facts(*self, seen@, cviews(components@), s as int, disc, h);
                }
                let u = match queue.pop_front() {
                    Some(x) => x,
                    None => {
                        assert(disc.take(h) =~= disc);
                        break;
                    },
                };
                assert(u == disc[h]);
                comp.push(u);
                assert(comp@ =~= disc.take(h + 1));
                let nbrs = self.neighbors_of(u);
                proof {
                    self.lemma_adj_valid(u as int);
                }
                let mut k: usize = 0;
                while k < nbrs.len()
                    invariant
                        self.wf(),
                        n == self.nodes(),
                        s < n,
                        seen@.len() == n,
                        0 <= h < disc.len(),
                        queue@ == disc.subrange(h + 1, disc.len() as int),
                        comp@ == disc.take(h + 1),
                        u == disc[h],
                        nbrs@ == self.adj(u as int),
                        forall|q: int| 0 <= q < nbrs@.len() ==> #[trigger] nbrs@[q] < n,
                        cc_inner(*self, seen@, cviews(components@), s as int, disc, h),
                        k <= nbrs@.len(),
                        forall|q: int| 0 <= q < k ==> seen@[#[trigger] nbrs@[q] as int],
                        bfs_ordered(*self, disc),
                        bfs_front(*self, disc, h, k as int),
                    decreases nbrs@.len() - k,
                {
                    let w = nbrs[k];
                    if !seen[w] {
                        proof {
                            assert(nbrs@[k as int] == w);
                            assert(self.adj(u as int).contains(w));
                            lemma_cc_discover(*self, seen@, cviews(components@), s as int, disc, h, w);
                            lemma_cc_unseen(*self, seen@, cviews(components@), s as int, disc, h, w);
                            assert forall|q: int| 0 <= q < k implies nbrs@[q] != w by {
                                assert(seen@[nbrs@[q] as int]);
                            }
                            lemma_bfs_discover(*self, disc, h, k as int, w);
                        }
                        seen.set(w, true);
                        queue.push_back(w);
                        proof {
                            disc = disc.push(w);
                            assert(queue@ =~= disc.subrange(h + 1, disc.len() as int));
                            assert(comp@ =~= disc.take(h + 1));
                        }
                    } else {
                        proof {
                            lemma_bfs_front_step(*self, disc, h, k as int);
                        }
                    }
                    k += 1;
                }
                proof {
                    lemma_cc_advance(*self, seen@, cviews(components@), s as int, disc, h);
                    lemma_bfs_front_step(*self, disc, h, k as int);
                    h = h + 1;
                }
            }
            proof {
                lemma_cc_finish(*self, seen@, cviews(components@), s as int, disc);
            }
            let ghost before = components@;
            components.push(comp);
            proof {
                assert(cviews(components@) =~= cviews(before).push(comp@));
            }
            s += 1;
        }
        proof {
            lemma_cc_done(*self, seen@, cviews(components@));
        }
        components
    }
}

proof fn lemma_num_some_none(s: Seq<Option<usize>>)
    requires
        forall|k: int| 0 <= k < s.len() ==> s[k] is None,
    ensures
        num_some(s) == 0,
    decreases s.len(),
{
    if s.len() > 0 {
        lemma_num_some_none(s.drop_last());
    }
}

/// The median of non-empty timing samples, as [`crate::timing::median_duration`]
/// computes it.
pub fn median_duration(samples: Vec<Duration>) -> (r: Duration)
    requires
        samples.len() > 0,
    ensures
        is_median_sample(samples@, r),
{
    timing::median_duration(samples)
}

} // verus!
