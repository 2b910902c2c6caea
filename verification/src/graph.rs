//! The snap graph of a model: parts as nodes, snap relations as edges.

use petgraph::Undirected;
use petgraph::graphmap::GraphMap;
use petgraph::visit::Bfs;
use petgraph::visit::IntoNodeIdentifiers;
use petgraph::visit::Visitable;
use std::collections::hash_map::RandomState;
use std::hash::BuildHasher;
use vstd::prelude::*;

use crate::paths::closed_under;
use crate::paths::lemma_closed_holds_reached;
use crate::paths::lemma_reaches_self;
use crate::paths::lemma_reaches_step;
use crate::paths::lemma_reaches_sym;
use crate::paths::lemma_reaches_trans;
use crate::paths::reaches;
use crate::paths::symmetric;

verus! {

/// `petgraph::Undirected`, the marker of graphs whose edges have no
/// direction. Nothing is claimed of it.
#[verifier::external_type_specification]
#[verifier::external_body]
pub struct ExUndirected(Undirected);

/// `petgraph::graphmap::GraphMap`, a graph over node values. Its contents
/// are opaque here; `graph_nodes` and `graph_edges` name them.
#[verifier::external_type_specification]
#[verifier::external_body]
#[verifier::reject_recursive_types(N)]
#[verifier::reject_recursive_types(E)]
#[verifier::reject_recursive_types(Ty)]
#[verifier::reject_recursive_types(S)]
pub struct ExGraphMap<N, E, Ty, S: BuildHasher>(GraphMap<N, E, Ty, S>);

/// The nodes that a graph map holds. The wrappers below say, after
/// petgraph's source, how each method that this library calls changes or
/// reads them.
pub uninterp spec fn graph_nodes(g: GraphMap<u64, (), Undirected, RandomState>) -> Set<u64>;

/// The edges that a graph map holds, each as the pair of its end points with
/// the smaller one first.
pub uninterp spec fn graph_edges(g: GraphMap<u64, (), Undirected, RandomState>) -> Set<(u64, u64)>;

/// The pair under which an undirected edge between `a` and `b` is kept.
pub open spec fn edge_key(a: u64, b: u64) -> (u64, u64) {
    if a <= b {
        (a, b)
    } else {
        (b, a)
    }
}

/// `GraphMap::new`: the new graph has no node and no edge.
#[verifier::external_body]
fn graph_new() -> (g: GraphMap<u64, (), Undirected, RandomState>)
    ensures
        graph_nodes(g) == Set::<u64>::empty(),
        graph_edges(g) == Set::<(u64, u64)>::empty(),
{
    GraphMap::new()
}

/// `GraphMap::add_node`: the node joins the graph; the edges stay.
#[verifier::external_body]
fn graph_add_node(g: &mut GraphMap<u64, (), Undirected, RandomState>, n: u64)
    ensures
        graph_nodes(*final(g)) == graph_nodes(*old(g)).insert(n),
        graph_edges(*final(g)) == graph_edges(*old(g)),
{
    g.add_node(n);
}

/// `GraphMap::add_edge`: the edge joins the graph under its key, and so do
/// both end points where they were missing.
#[verifier::external_body]
fn graph_add_edge(g: &mut GraphMap<u64, (), Undirected, RandomState>, a: u64, b: u64)
    ensures
        graph_nodes(*final(g)) == graph_nodes(*old(g)).insert(a).insert(b),
        graph_edges(*final(g)) == graph_edges(*old(g)).insert(edge_key(a, b)),
{
    g.add_edge(a, b, ());
}

/// `GraphMap::remove_node`: reports whether the node was there; if so it
/// leaves together with every edge that ends in it, else nothing changes.
#[verifier::external_body]
fn graph_remove_node(g: &mut GraphMap<u64, (), Undirected, RandomState>, n: u64) -> (was: bool)
    ensures
        was == graph_nodes(*old(g)).contains(n),
        graph_nodes(*final(g)) == graph_nodes(*old(g)).remove(n),
        was ==> graph_edges(*final(g)) == graph_edges(*old(g)).filter(
            |e: (u64, u64)| e.0 != n && e.1 != n,
        ),
        !was ==> graph_edges(*final(g)) == graph_edges(*old(g)),
{
    g.remove_node(n)
}

/// `GraphMap::contains_node`: whether the node is in the graph.
#[verifier::external_body]
fn graph_contains_node(g: &GraphMap<u64, (), Undirected, RandomState>, n: u64) -> (has: bool)
    ensures
        has == graph_nodes(*g).contains(n),
{
    g.contains_node(n)
}

/// `GraphMap::node_count`: the number of nodes.
#[verifier::external_body]
fn graph_node_count(g: &GraphMap<u64, (), Undirected, RandomState>) -> (n: usize)
    ensures
        n == graph_nodes(*g).len(),
{
    g.node_count()
}

/// `GraphMap::edge_count`: the number of edges.
#[verifier::external_body]
fn graph_edge_count(g: &GraphMap<u64, (), Undirected, RandomState>) -> (n: usize)
    ensures
        n == graph_edges(*g).len(),
{
    g.edge_count()
}

/// `IntoNodeIdentifiers::node_identifiers` on a graph map: every node once.
/// Nothing is claimed of the order.
#[verifier::external_body]
fn graph_node_identifiers(g: &GraphMap<u64, (), Undirected, RandomState>) -> (ids: Vec<u64>)
    ensures
        ids@.no_duplicates(),
        ids@.to_set() == graph_nodes(*g),
{
    g.node_identifiers().collect()
}

/// `GraphMap::neighbors`: every node that shares an edge with `a`, once.
/// Nothing is claimed of the order.
#[verifier::external_body]
fn graph_neighbors(g: &GraphMap<u64, (), Undirected, RandomState>, a: u64) -> (out: Vec<u64>)
    ensures
        out@.no_duplicates(),
        out@.to_set() == Set::new(|b: u64| graph_edges(*g).contains(edge_key(a, b))),
{
    g.neighbors(a).collect()
}

/// An undirected graph over entity ids.
pub struct SnapGraph {
    map: GraphMap<u64, (), Undirected, RandomState>,
}

impl SnapGraph {
    /// The nodes of the graph.
    pub closed spec fn nodes(&self) -> Set<u64> {
        graph_nodes(self.map)
    }

    /// The edges of the graph, each under its key.
    pub closed spec fn edges(&self) -> Set<(u64, u64)> {
        graph_edges(self.map)
    }

    /// An edge joins `a` and `b`.
    pub open spec fn adjacent(&self, a: u64, b: u64) -> bool {
        self.edges().contains(edge_key(a, b))
    }

    /// The adjacency relation as a value.
    pub open spec fn adjacency(&self) -> spec_fn(u64, u64) -> bool {
        |a: u64, b: u64| self.adjacent(a, b)
    }

    /// The nodes that share an edge with `a`.
    pub open spec fn neighbor_set(&self, a: u64) -> Set<u64> {
        Set::new(|b: u64| self.adjacent(a, b))
    }

    /// Finitely many nodes and edges, every edge under its key and between
    /// two nodes of the graph.
    pub open spec fn wf(&self) -> bool {
        &&& self.nodes().finite()
        &&& self.edges().finite()
        &&& forall|e: (u64, u64)| #[trigger]
            self.edges().contains(e) ==> e.0 <= e.1 && self.nodes().contains(e.0)
                && self.nodes().contains(e.1)
    }

    /// Every node reaches every other along edges. The empty graph is
    /// connected.
    pub open spec fn connected(&self) -> bool {
        forall|a: u64, b: u64|
            self.nodes().contains(a) && self.nodes().contains(b) ==> #[trigger] reaches(
                self.adjacency(),
                a,
                b,
            )
    }

    /// Adjacency does not depend on the order of the end points, and joins
    /// nodes of the graph only.
    pub proof fn lemma_adjacency(&self)
        requires
            self.wf(),
        ensures
            symmetric(self.adjacency()),
            closed_under(self.adjacency(), self.nodes()),
            forall|a: u64, b: u64| #[trigger]
                self.adjacent(a, b) ==> self.nodes().contains(a) && self.nodes().contains(b),
    {
        assert forall|a: u64, b: u64| #[trigger] self.adjacent(a, b) implies self.nodes().contains(
            a,
        ) && self.nodes().contains(b) by {
            assert(self.edges().contains(edge_key(a, b)));
        }
        assert forall|a: u64, b: u64| #[trigger] (self.adjacency())(a, b) implies (
        self.adjacency())(b, a) by {
            assert(edge_key(a, b) == edge_key(b, a));
        }
        assert forall|a: u64, b: u64|
            self.nodes().contains(a) && #[trigger] (self.adjacency())(a, b)
                implies self.nodes().contains(
        b) by {
            assert(self.adjacent(a, b));
        }
    }

    /// A graph with no node and no edge.
    pub fn new() -> (g: Self)
        ensures
            g.wf(),
            g.nodes() == Set::<u64>::empty(),
            g.edges() == Set::<(u64, u64)>::empty(),
    {
        SnapGraph { map: graph_new() }
    }

    /// Adds the node `n`; a node that is there already stays as it is.
    pub fn add_node(&mut self, n: u64)
        requires
            old(self).wf(),
        ensures
            final(self).wf(),
            final(self).nodes() == old(self).nodes().insert(n),
            final(self).edges() == old(self).edges(),
    {
        graph_add_node(&mut self.map, n);
    }

    /// Adds an edge between `a` and `b`, and the end points where missing.
    pub fn add_edge(&mut self, a: u64, b: u64)
        requires
            old(self).wf(),
        ensures
            final(self).wf(),
            final(self).nodes() == old(self).nodes().insert(a).insert(b),
            final(self).edges() == old(self).edges().insert(edge_key(a, b)),
            forall|x: u64, y: u64|
                final(self).adjacent(x, y) <==> old(self).adjacent(x, y) || edge_key(x, y)
                    == edge_key(a, b),
    {
        graph_add_edge(&mut self.map, a, b);
    }

    /// Removes the node `n` and every edge that ends in it. Returns whether
    /// the node was there.
    pub fn remove_node(&mut self, n: u64) -> (was: bool)
        requires
            old(self).wf(),
        ensures
            final(self).wf(),
            was == old(self).nodes().contains(n),
            final(self).nodes() == old(self).nodes().remove(n),
            forall|x: u64, y: u64|
                final(self).adjacent(x, y) <==> old(self).adjacent(x, y) && x != n && y != n,
    {
        let ghost before = self.map;
        let was = graph_remove_node(&mut self.map, n);
        proof {
            if was {
                graph_edges(before).lemma_len_filter(|e: (u64, u64)| e.0 != n && e.1 != n);
            } else {
                assert forall|x: u64, y: u64| graph_edges(before).contains(edge_key(x, y)) implies x
                    != n && y != n by {
                    let e = edge_key(x, y);
                    assert(graph_nodes(before).contains(e.0));
                    assert(graph_nodes(before).contains(e.1));
                }
            }
        }
        was
    }

    /// Whether `n` is a node.
    pub fn contains_node(&self, n: u64) -> (has: bool)
        ensures
            has == self.nodes().contains(n),
    {
        graph_contains_node(&self.map, n)
    }

    /// The number of nodes.
    pub fn node_count(&self) -> (n: usize)
        ensures
            n == self.nodes().len(),
    {
        graph_node_count(&self.map)
    }

    /// The number of edges.
    pub fn edge_count(&self) -> (n: usize)
        ensures
            n == self.edges().len(),
    {
        graph_edge_count(&self.map)
    }

    /// Every node once, in no stated order.
    pub fn node_identifiers(&self) -> (ids: Vec<u64>)
        ensures
            ids@.no_duplicates(),
            ids@.to_set() == self.nodes(),
    {
        graph_node_identifiers(&self.map)
    }

    /// Every neighbour of `a` once, in no stated order.
    pub fn neighbors(&self, a: u64) -> (out: Vec<u64>)
        ensures
            out@.no_duplicates(),
            out@.to_set() == self.neighbor_set(a),
    {
        let out = graph_neighbors(&self.map, a);
        assert(out@.to_set() =~= self.neighbor_set(a));
        out
    }
}

/// `petgraph::visit::Bfs` over a graph map: a breadth-first traversal in
/// progress. The traversal holds a queue of nodes and the set of nodes
/// found so far; `bfs_queue` and `bfs_discovered` name the two. The value is
/// kept behind this struct because the set is of a type that the library
/// cannot name.
#[verifier::external_body]
pub struct BfsState {
    inner: Bfs<u64, <GraphMap<u64, (), Undirected, RandomState> as Visitable>::Map>,
}

/// The nodes that a traversal has found and not handed out yet, in the order
/// in which it will hand them out.
pub uninterp spec fn bfs_queue(b: BfsState) -> Seq<u64>;

/// The nodes that a traversal has found so far.
pub uninterp spec fn bfs_discovered(b: BfsState) -> Set<u64>;

/// `Bfs::new`: a traversal that has found its start node and nothing else.
#[verifier::external_body]
fn bfs_new(g: &GraphMap<u64, (), Undirected, RandomState>, start: u64) -> (b: BfsState)
    ensures
        bfs_queue(b) == seq![start],
        bfs_discovered(b) == set![start],
{
    BfsState { inner: Bfs::new(g, start) }
}

/// `Bfs::next`: with nothing queued it returns `None` and changes nothing.
/// Otherwise it hands out the head of the queue, marks all neighbours of
/// that node as found, and queues behind the rest those of them that had not
/// been found before, each once.
#[verifier::external_body]
fn bfs_next(b: &mut BfsState, g: &GraphMap<u64, (), Undirected, RandomState>) -> (out: Option<u64>)
    ensures
        bfs_queue(*old(b)).len() == 0 ==> out is None && bfs_queue(*final(b)) == bfs_queue(*old(b))
            && bfs_discovered(*final(b)) == bfs_discovered(*old(b)),
        bfs_queue(*old(b)).len() > 0 ==> {
            let head = bfs_queue(*old(b))[0];
            let rest = bfs_queue(*old(b)).len() - 1;
            let near = Set::new(|n: u64| graph_edges(*g).contains(edge_key(head, n)));
            &&& out == Some(head)
            &&& bfs_discovered(*final(b)) == bfs_discovered(*old(b)).union(near)
            &&& bfs_queue(*final(b)).len() >= rest
            &&& bfs_queue(*final(b)).subrange(0, rest) == bfs_queue(*old(b)).skip(1)
            &&& bfs_queue(*final(b)).skip(rest).no_duplicates()
            &&& bfs_queue(*final(b)).skip(rest).to_set() == near.difference(
                bfs_discovered(*old(b)),
            )
        },
{
    b.inner.next(g)
}

/// Whether every node of the graph can be reached from every other.
pub fn is_connected(graph: &SnapGraph) -> (connected: bool)
    requires
        graph.wf(),
    ensures
        connected == graph.connected(),
{
    if graph.node_count() == 0 {
        assert(graph.nodes() =~= Set::<u64>::empty());
        return true;
    }
    let ids = graph.node_identifiers();
    if ids.len() == 0 {
        assert(graph.nodes() =~= Set::<u64>::empty());
        return true;
    }
    let start: u64 = ids[0];
    let total: usize = graph.node_count();
    let ghost adj = graph.adjacency();
    proof {
        assert(ids@.to_set().contains(ids@[0]));
        graph.lemma_adjacency();
        lemma_reaches_self(adj, start);
    }
    let mut bfs = bfs_new(&graph.map, start);
    let mut count: usize = 0;
    let ghost mut visited: Set<u64> = Set::empty();
    proof {
        assert(seq![start].to_set() =~= set![start]) by {
            assert(seq![start][0] == start);
        }
        assert(bfs_discovered(bfs) =~= visited.union(bfs_queue(bfs).to_set()));
    }
    loop
        invariant_except_break
            graph.wf(),
            adj == graph.adjacency(),
            symmetric(adj),
            closed_under(adj, graph.nodes()),
            graph.nodes().contains(start),
            total == graph.nodes().len(),
            bfs_queue(bfs).no_duplicates(),
            visited.finite(),
            count == visited.len(),
            visited.disjoint(bfs_queue(bfs).to_set()),
            bfs_discovered(bfs) == visited.union(bfs_queue(bfs).to_set()),
            bfs_discovered(bfs).contains(start),
            forall|x: u64| bfs_discovered(bfs).contains(x) ==> reaches(adj, start, x),
            forall|x: u64| bfs_discovered(bfs).contains(x) ==> graph.nodes().contains(x),
            forall|x: u64, y: u64|
                visited.contains(x) && #[trigger] adj(x, y) ==> bfs_discovered(bfs).contains(y),
        ensures
            visited.finite(),
            count == visited.len(),
            visited.contains(start),
            closed_under(adj, visited),
            forall|x: u64| visited.contains(x) ==> reaches(adj, start, x),
            forall|x: u64| visited.contains(x) ==> graph.nodes().contains(x),
        decreases graph.nodes().len() - visited.len(),
    {
        let ghost before = bfs;
        let next = bfs_next(&mut bfs, &graph.map);
        match next {
            None => {
                proof {
                    assert(bfs_queue(bfs).to_set() =~= Set::<u64>::empty());
                    assert(bfs_discovered(bfs) =~= visited);
                }
                break ;
            },
            Some(node) => {
                proof {
                    let queue = bfs_queue(before);
                    let rest = queue.len() - 1;
                    let after = bfs_queue(bfs);
                    let fresh = after.skip(rest);
                    let near = Set::new(|n: u64| graph_edges(graph.map).contains(edge_key(node,
                        n)));
                    assert(queue.to_set().contains(queue[0]));
                    assert(bfs_discovered(before).contains(node));
                    assert(!visited.contains(node));
                    vstd::set_lib::lemma_len_subset(visited.insert(node), graph.nodes());
                    assert(after =~= queue.skip(1) + fresh) by {
                        assert(after.subrange(0, rest) =~= queue.skip(1));
                    }
                    assert forall|i: int, j: int|
                        0 <= i < after.len() && 0 <= j < after.len() && i != j implies after[i]
                        != after[j] by {
                        if i < rest && j < rest {
                            assert(after[i] == queue[i + 1] && after[j] == queue[j + 1]);
                        } else if i >= rest && j >= rest {
                            assert(after[i] == fresh[i - rest] && after[j] == fresh[j - rest]);
                        } else {
                            let (lo, hi) = if i < rest {
                                (i, j)
                            } else {
                                (j, i)
                            };
                            assert(after[lo] == queue[lo + 1]);
                            assert(queue.to_set().contains(queue[lo + 1]));
                            assert(after[hi] == fresh[hi - rest]);
                            assert(fresh.to_set().contains(fresh[hi - rest]));
                        }
                    }
                    assert forall|x: u64| after.to_set().contains(x) implies !visited.insert(
                        node,
                    ).contains(x) by {
                        let i = choose|i: int| 0 <= i < after.len() && after[i] == x;
                        if i < rest {
                            assert(after[i] == queue[i + 1]);
                            assert(queue.to_set().contains(queue[i + 1]));
                        } else {
                            assert(after[i] == fresh[i - rest]);
                            assert(fresh.to_set().contains(x));
                        }
                    }
                    assert(bfs_discovered(bfs) =~= visited.insert(node).union(after.to_set())) by {
                        assert forall|x: u64|
                            bfs_discovered(bfs).contains(x) implies visited.insert(node).union(
                            after.to_set(),
                        ).contains(x) by {
                            if bfs_discovered(before).contains(x) {
                                if !visited.contains(x) && x != node {
                                    let i = choose|i: int| 0 <= i < queue.len() && queue[i] == x;
                                    assert(after[i - 1] == queue[i]);
                                }
                            } else {
                                assert(fresh.to_set().contains(x));
                                let i = choose|i: int| 0 <= i < fresh.len() && fresh[i] == x;
                                assert(after[i + rest] == x);
                            }
                        }
                        assert forall|x: u64|
                            visited.insert(node).union(after.to_set()).contains(
                                x,
                            ) implies bfs_discovered(bfs).contains(x) by {
                            if after.to_set().contains(x) {
                                let i = choose|i: int| 0 <= i < after.len() && after[i] == x;
                                if i < rest {
                                    assert(after[i] == queue[i + 1]);
                                    assert(queue.to_set().contains(queue[i + 1]));
                                } else {
                                    assert(after[i] == fresh[i - rest]);
                                    assert(fresh.to_set().contains(x));
                                }
                            }
                        }
                    }
                    assert forall|x: u64| bfs_discovered(bfs).contains(x) implies reaches(
                        adj,
                        start,
                        x,
                    ) && graph.nodes().contains(x) by {
                        if !bfs_discovered(before).contains(x) {
                            assert(near.contains(x));
                            assert(adj(node, x));
                            lemma_reaches_step(adj, start, node, x);
                        }
                    }
                    assert forall|x: u64, y: u64|
                        visited.insert(node).contains(x) && #[trigger] adj(
                            x,
                            y,
                        ) implies bfs_discovered(bfs).contains(y) by {
                        if x == node {
                            assert(near.contains(y));
                        }
                    }
                    visited = visited.insert(node);
                }
                count = count + 1;
            },
        }
    }
    proof {
        vstd::set_lib::lemma_len_subset(visited, graph.nodes());
        if count == total {
            vstd::set_lib::lemma_subset_equality(visited, graph.nodes());
            assert forall|a: u64, b: u64|
                graph.nodes().contains(a) && graph.nodes().contains(b) implies #[trigger] reaches(
                adj,
                a,
                b,
            ) by {
                lemma_reaches_sym(adj, start, a);
                lemma_reaches_trans(adj, a, start, b);
            }
        } else {
            if graph.connected() {
                assert forall|x: u64| graph.nodes().contains(x) implies visited.contains(x) by {
                    assert(reaches(adj, start, x));
                    lemma_closed_holds_reached(adj, visited, start, x);
                }
                assert(visited =~= graph.nodes());
            }
        }
    }
    count == total
}

} // verus!
