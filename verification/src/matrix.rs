//! The snap graph of a whole scene as an adjacency matrix.

use petgraph::matrix_graph::NodeIndex;
use petgraph::matrix_graph::UnMatrix;
use vstd::prelude::*;

verus! {

/// `petgraph::matrix_graph::UnMatrix<u64, bool>`: an undirected adjacency
/// matrix over the entities of a scene. Nodes are only ever added, so the
/// index of a node is its position in the order of insertion. An edge
/// carries a flag: one of its end points is an anchor. `matrix_nodes` and
/// `matrix_edges` name what the matrix holds; the wrappers below say, after
/// petgraph's source, how each method that this library calls changes or
/// reads it. Indices are sixteen bits wide there, which bounds the number
/// of nodes.
#[verifier::external_body]
pub struct SceneMatrix {
    inner: UnMatrix<u64, bool>,
}

/// The largest number of nodes that a scene matrix takes.
pub const MAX_NODES: usize = 65535;

/// The node weights of a scene matrix, by node index.
pub uninterp spec fn matrix_nodes(m: SceneMatrix) -> Seq<u64>;

/// The edges of a scene matrix with their flags, each under the pair of the
/// indices of its end points with the smaller one first.
pub uninterp spec fn matrix_edges(m: SceneMatrix) -> Map<(int, int), bool>;

/// The pair under which the edge between the nodes at `a` and `b` is kept.
pub open spec fn pair_key(a: int, b: int) -> (int, int) {
    if a <= b {
        (a, b)
    } else {
        (b, a)
    }
}

/// No edge at all.
pub open spec fn no_edges() -> Map<(int, int), bool> {
    Map::empty()
}

/// `MatrixGraph::with_capacity`: a matrix with no node and no edge.
#[verifier::external_body]
fn matrix_with_capacity(capacity: usize) -> (m: SceneMatrix)
    requires
        capacity <= MAX_NODES,
    ensures
        matrix_nodes(m) == Seq::<u64>::empty(),
        matrix_edges(m) == no_edges(),
{
    SceneMatrix { inner: UnMatrix::with_capacity(capacity) }
}

/// `MatrixGraph::add_node` on a matrix from which no node was removed: the
/// node takes the next index, which is returned; the edges stay.
#[verifier::external_body]
fn matrix_add_node(m: &mut SceneMatrix, weight: u64) -> (index: usize)
    requires
        matrix_nodes(*old(m)).len() < MAX_NODES,
    ensures
        index == matrix_nodes(*old(m)).len(),
        matrix_nodes(*final(m)) == matrix_nodes(*old(m)).push(weight),
        matrix_edges(*final(m)) == matrix_edges(*old(m)),
{
    m.inner.add_node(weight).index()
}

/// `MatrixGraph::node_count`: the number of nodes.
#[verifier::external_body]
fn matrix_node_count(m: &SceneMatrix) -> (n: usize)
    ensures
        n == matrix_nodes(*m).len(),
{
    m.inner.node_count()
}

/// `MatrixGraph::has_edge`: whether an edge joins the two nodes.
#[verifier::external_body]
fn matrix_has_edge(m: &SceneMatrix, a: usize, b: usize) -> (has: bool)
    requires
        a < matrix_nodes(*m).len(),
        b < matrix_nodes(*m).len(),
    ensures
        has == matrix_edges(*m).dom().contains(pair_key(a as int, b as int)),
{
    m.inner.has_edge(NodeIndex::new(a), NodeIndex::new(b))
}

/// `MatrixGraph::add_edge` between two nodes that no edge joins yet: the
/// edge joins the matrix with its flag; the nodes stay.
#[verifier::external_body]
fn matrix_add_edge(m: &mut SceneMatrix, a: usize, b: usize, anchored: bool)
    requires
        a < matrix_nodes(*old(m)).len(),
        b < matrix_nodes(*old(m)).len(),
        !matrix_edges(*old(m)).dom().contains(pair_key(a as int, b as int)),
    ensures
        matrix_nodes(*final(m)) == matrix_nodes(*old(m)),
        matrix_edges(*final(m)) == matrix_edges(*old(m)).insert(
            pair_key(a as int, b as int),
            anchored,
        ),
{
    m.inner.add_edge(NodeIndex::new(a), NodeIndex::new(b), anchored);
}

/// `MatrixGraph::edges`: the edges at the node `a`, each once, as the index
/// `a`, the index of the other end point and the flag. Nothing is claimed of
/// the order.
#[verifier::external_body]
fn matrix_edges_at(m: &SceneMatrix, a: usize) -> (out: Vec<(usize, usize, bool)>)
    requires
        a < matrix_nodes(*m).len(),
    ensures
        forall|i: int| 0 <= i < out@.len() ==> (#[trigger] out@[i]).0 == a,
        forall|i: int|
            0 <= i < out@.len() ==> matrix_edges(*m).dom().contains(
                pair_key(a as int, (#[trigger] out@[i]).1 as int),
            ) && out@[i].2 == matrix_edges(*m)[pair_key(a as int, out@[i].1 as int)],
        forall|i: int, j: int|
            0 <= i < j < out@.len() ==> (#[trigger] out@[i]).1 != (#[trigger] out@[j]).1,
        forall|b: int|
            matrix_edges(*m).dom().contains(#[trigger] pair_key(a as int, b)) ==> exists|i: int|
                0 <= i < out@.len() && (#[trigger] out@[i]).1 == b,
{
    m.inner.edges(NodeIndex::new(a)).map(|(x, y, w)| (x.index(), y.index(), *w)).collect()
}

impl SceneMatrix {
    /// The number of nodes.
    pub open spec fn len(&self) -> nat {
        matrix_nodes(*self).len()
    }

    /// The entity at a node.
    pub open spec fn entity(&self, i: int) -> u64 {
        matrix_nodes(*self)[i]
    }

    /// An edge joins the nodes at `a` and `b`.
    pub open spec fn linked(&self, a: int, b: int) -> bool {
        matrix_edges(*self).dom().contains(pair_key(a, b))
    }

    /// The flag of the edge between the nodes at `a` and `b`.
    pub open spec fn flag(&self, a: int, b: int) -> bool {
        matrix_edges(*self)[pair_key(a, b)]
    }

    /// Every edge joins two nodes of the matrix.
    pub open spec fn wf(&self) -> bool {
        &&& self.len() <= MAX_NODES
        &&& forall|k: (int, int)| #[trigger]
            matrix_edges(*self).dom().contains(k) ==> 0 <= k.0 <= k.1 < self.len()
    }

    /// Edges have no direction, and end in nodes.
    pub proof fn lemma_linked(&self)
        requires
            self.wf(),
        ensures
            forall|a: int, b: int| #[trigger] self.linked(a, b) ==> self.linked(b, a),
            forall|a: int, b: int| #[trigger] self.linked(a, b) ==> self.flag(a, b)
                == self.flag(b, a),
            forall|a: int, b: int| #[trigger]
                self.linked(a, b) ==> 0 <= a < self.len() && 0 <= b < self.len(),
    {
        assert forall|a: int, b: int| #[trigger] self.linked(a, b) implies self.linked(b, a)
            && self.flag(a, b) == self.flag(b, a) && 0 <= a < self.len() && 0 <= b < self.len() by {
            assert(pair_key(a, b) == pair_key(b, a));
            assert(matrix_edges(*self).dom().contains(pair_key(a, b)));
        }
    }

    /// A matrix with no node and no edge, with room for `capacity` nodes.
    pub fn with_capacity(capacity: usize) -> (m: Self)
        requires
            capacity <= MAX_NODES,
        ensures
            m.wf(),
            m.len() == 0,
            forall|a: int, b: int| !m.linked(a, b),
    {
        matrix_with_capacity(capacity)
    }

    /// Adds a node for `entity` and returns its index.
    pub fn add_node(&mut self, entity: u64) -> (index: usize)
        requires
            old(self).wf(),
            old(self).len() < MAX_NODES,
        ensures
            final(self).wf(),
            index == old(self).len(),
            final(self).len() == old(self).len() + 1,
            final(self).entity(index as int) == entity,
            forall|i: int| 0 <= i < old(self).len() ==> final(self).entity(i)
                == old(self).entity(i),
            forall|a: int, b: int| final(self).linked(a, b) == old(self).linked(a, b),
            forall|a: int, b: int| final(self).flag(a, b) == old(self).flag(a, b),
    {
        matrix_add_node(self, entity)
    }

    /// The number of nodes.
    pub fn node_count(&self) -> (n: usize)
        ensures
            n == self.len(),
    {
        matrix_node_count(self)
    }

    /// Whether an edge joins the nodes at `a` and `b`.
    pub fn has_edge(&self, a: usize, b: usize) -> (has: bool)
        requires
            a < self.len(),
            b < self.len(),
        ensures
            has == self.linked(a as int, b as int),
    {
        matrix_has_edge(self, a, b)
    }

    /// Joins the nodes at `a` and `b`, which no edge joins yet.
    pub fn add_edge(&mut self, a: usize, b: usize, anchored: bool)
        requires
            old(self).wf(),
            a < old(self).len(),
            b < old(self).len(),
            !old(self).linked(a as int, b as int),
        ensures
            final(self).wf(),
            final(self).len() == old(self).len(),
            forall|i: int| final(self).entity(i) == old(self).entity(i),
            forall|x: int, y: int|
                final(self).linked(x, y) == (old(self).linked(x, y) || pair_key(x, y) == pair_key(
                    a as int,
                    b as int,
                )),
            forall|x: int, y: int|
                final(self).flag(x, y) == if pair_key(x, y) == pair_key(a as int, b as int) {
                    anchored
                } else {
                    old(self).flag(x, y)
                },
    {
        matrix_add_edge(self, a, b, anchored);
    }

    /// The edges at the node `a`, each once: the index `a`, the index of the
    /// other end point, and the flag.
    pub fn edges(&self, a: usize) -> (out: Vec<(usize, usize, bool)>)
        requires
            self.wf(),
            a < self.len(),
        ensures
            forall|i: int|
                0 <= i < out@.len() ==> {
                    &&& (#[trigger] out@[i]).0 == a
                    &&& out@[i].1 < self.len()
                    &&& self.linked(a as int, out@[i].1 as int)
                    &&& out@[i].2 == self.flag(a as int, out@[i].1 as int)
                },
            forall|i: int, j: int|
                0 <= i < j < out@.len() ==> (#[trigger] out@[i]).1 != (#[trigger] out@[j]).1,
            forall|b: int|
                #![trigger self.linked(a as int, b)]
                self.linked(a as int, b) ==> exists|i: int|
                    0 <= i < out@.len() && (#[trigger] out@[i]).1 == b,
    {
        let out = matrix_edges_at(self, a);
        proof {
            self.lemma_linked();
            assert forall|b: int| #![trigger self.linked(a as int, b)] self.linked(a as int, b)
                implies exists|i: int|
                0 <= i < out@.len() && (#[trigger] out@[i]).1 == b by {
                assert(matrix_edges(*self).dom().contains(pair_key(a as int, b)));
            }
        }
        out
    }
}

} // verus!
