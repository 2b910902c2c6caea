//! Models, and how a model whose graph has fallen apart is split.

use vstd::prelude::*;

use crate::components::Hand;
use crate::components::covered;
use crate::components::in_hand;
use crate::graph::SnapGraph;
use crate::idset::IdSet;
use crate::paths::closed_under;
use crate::paths::lemma_closed_holds_reached;
use crate::paths::lemma_reaches_self;
use crate::paths::lemma_reaches_step;
use crate::paths::lemma_reaches_sym;
use crate::paths::lemma_reaches_trans;
use crate::paths::lemma_reaches_within;
use crate::paths::reaches;

verus! {

/// A rigid group of snapped parts: the snap graph of its members, the
/// anchors that hold it, and whether it lost a member since it was last
/// looked at.
pub struct Model {
    pub graph: SnapGraph,
    pub anchors: IdSet,
    pub dirty: bool,
}

/// One connected piece of a model that is being split: its members and
/// the edges among them.
pub struct Submodel {
    pub graph: SnapGraph,
    pub set: IdSet,
}

/// The nodes of `graph` that `start` reaches.
pub open spec fn piece_of(graph: &SnapGraph, start: u64) -> Set<u64> {
    Set::new(|e: u64| reaches(graph.adjacency(), start, e))
}

impl Submodel {
    /// The piece is the one of `start`: its members are what `start` reaches
    /// in the graph of the model, and its graph holds the edges among them.
    pub open spec fn is_piece_of(&self, model: &Model, start: u64) -> bool {
        &&& self.set@ == piece_of(&model.graph, start)
        &&& self.set@.finite()
        &&& self.graph.wf()
        &&& self.graph.nodes() == self.set@
        &&& forall|x: u64, y: u64|
            #![trigger self.graph.adjacent(x, y)]
            #![trigger model.graph.adjacent(x, y)]
            self.graph.adjacent(x, y) <==> self.set@.contains(x) && self.set@.contains(y)
                && model.graph.adjacent(x, y)
    }
}

/// The pieces are those of the model: each is the piece of every one of its
/// members, no two share a member, and every node of the model is in one of
/// them.
pub open spec fn is_decomposition(pieces: Seq<Submodel>, model: &Model) -> bool {
    &&& forall|i: int, x: u64|
        0 <= i < pieces.len() && #[trigger] pieces[i].set@.contains(x)
            ==> model.graph.nodes().contains(x) && pieces[i].is_piece_of(model, x)
    &&& forall|i: int| 0 <= i < pieces.len() ==> (#[trigger] pieces[i]).set@.len() > 0
    &&& forall|i: int, j: int, x: u64|
        0 <= i < j < pieces.len() && #[trigger] pieces[i].set@.contains(x) ==> !(
        #[trigger] pieces[j].set@.contains(x))
    &&& forall|x: u64|
        model.graph.nodes().contains(x) ==> exists|i: int|
            0 <= i < pieces.len() && #[trigger] pieces[i].set@.contains(x)
}

/// Every member of a piece spans the same piece.
pub proof fn lemma_piece_of_member(graph: &SnapGraph, start: u64, member: u64)
    requires
        graph.wf(),
        piece_of(graph, start).contains(member),
    ensures
        piece_of(graph, member) == piece_of(graph, start),
{
    let adj = graph.adjacency();
    graph.lemma_adjacency();
    lemma_reaches_sym(adj, start, member);
    assert forall|e: u64| piece_of(graph, member).contains(e) <==> piece_of(graph, start).contains(
        e,
    ) by {
        if reaches(adj, member, e) {
            lemma_reaches_trans(adj, start, member, e);
        }
        if reaches(adj, start, e) {
            lemma_reaches_trans(adj, member, start, e);
        }
    }
    assert(piece_of(graph, member) =~= piece_of(graph, start));
}

/// The graph of a piece of a model is connected.
pub proof fn lemma_piece_connected(model: &Model, piece: &Submodel, start: u64)
    requires
        model.graph.wf(),
        piece.is_piece_of(model, start),
    ensures
        piece.graph.connected(),
{
    let adj = model.graph.adjacency();
    let inner = piece.graph.adjacency();
    model.graph.lemma_adjacency();
    assert(closed_under(adj, piece.set@)) by {
        assert forall|a: u64, b: u64| piece.set@.contains(a) && #[trigger] adj(a, b)
            implies piece.set@.contains(
            b,
        ) by {
            lemma_reaches_step(adj, start, a, b);
        }
    }
    assert forall|x: u64, y: u64|
        piece.set@.contains(x) && piece.set@.contains(y) && #[trigger] adj(x, y) implies inner(
        x,
        y,
    ) by {
        assert(model.graph.adjacent(x, y));
        assert(piece.graph.adjacent(x, y));
    }
    assert forall|a: u64, b: u64|
        piece.graph.nodes().contains(a) && piece.graph.nodes().contains(b)
            implies #[trigger] reaches(
        inner,
        a,
        b,
    ) by {
        lemma_reaches_sym(adj, start, a);
        lemma_reaches_trans(adj, a, start, b);
        lemma_reaches_within(adj, inner, piece.set@, a, b);
    }
}

/// A depth-first walk over one piece of a model in progress.
struct Cut {
    graph: SnapGraph,
    set: IdSet,
    stack: Vec<u64>,
    visited: IdSet,
}

impl Cut {
    /// What holds of a walk from `start` once the nodes in `done` have been
    /// handled, with the node in `hand` half way through its neighbours.
    /// `before` holds what earlier walks have visited.
    spec fn inv(
        &self,
        whole: &SnapGraph,
        start: u64,
        before: Set<u64>,
        done: Set<u64>,
        hand: Hand,
    ) -> bool {
        let adj = whole.adjacency();
        &&& whole.wf()
        &&& closed_under(adj, before)
        &&& !before.contains(start)
        &&& self.stack@.no_duplicates()
        &&& forall|t: int|
            0 <= t < self.stack@.len() ==> {
                let q = #[trigger] self.stack@[t];
                &&& !before.contains(q)
                &&& !done.contains(q)
                &&& !in_hand(hand, q)
                &&& reaches(adj, start, q)
                &&& whole.nodes().contains(q)
                &&& (self.graph.nodes().contains(q) || (q == start && hand is None && done
                    == Set::<u64>::empty()))
            }
        &&& forall|x: u64| #[trigger]
            done.contains(x) ==> !before.contains(x) && reaches(adj, start, x)
                && whole.nodes().contains(x) && self.graph.nodes().contains(x)
        &&& hand matches Some((a, handled)) ==> {
            &&& !before.contains(a)
            &&& !done.contains(a)
            &&& reaches(adj, start, a)
            &&& whole.nodes().contains(a)
            &&& self.graph.nodes().contains(a)
            &&& forall|y: u64| handled.contains(y) && #[trigger] adj(a, y)
                ==> self.graph.nodes().contains(y)
        }
        &&& forall|x: u64| #[trigger]
            self.graph.nodes().contains(x) ==> done.contains(x) || in_hand(hand, x)
                || self.stack@.contains(x)
        &&& forall|x: u64| #[trigger]
            self.visited@.contains(x) <==> before.contains(x) || done.contains(x) || in_hand(
                hand,
                x,
            ) || self.stack@.contains(x)
        &&& !done.contains(start) && !in_hand(hand, start) ==> hand is None && self.stack@ == seq![
            start,
        ]
        &&& forall|x: u64, y: u64|
            done.contains(x) && #[trigger] adj(x, y) ==> self.graph.nodes().contains(y)
        &&& self.graph.wf()
        &&& self.set@ == self.graph.nodes()
        &&& forall|x: u64, y: u64|
            #![trigger self.graph.adjacent(x, y)]
            #![trigger whole.adjacent(x, y)]
            self.graph.adjacent(x, y) <==> (covered(done, hand, x, y) || covered(done, hand, y, x))
                && whole.adjacent(x, y)
    }

    /// Walks the edge from the node in hand to its neighbour `b`.
    fn visit_edge(
        &mut self,
        whole: &SnapGraph,
        Ghost(start): Ghost<u64>,
        Ghost(before): Ghost<Set<u64>>,
        Ghost(done): Ghost<Set<u64>>,
        Ghost(handled): Ghost<Set<u64>>,
        a: u64,
        b: u64,
    )
        requires
            old(self).inv(whole, start, before, done, Some((a, handled))),
            whole.adjacent(a, b),
            !handled.contains(b),
        ensures
            final(self).inv(whole, start, before, done, Some((a, handled.insert(b)))),
    {
        let ghost adj = whole.adjacency();
        let ghost hand: Hand = Some((a, handled));
        let ghost hand_next: Hand = Some((a, handled.insert(b)));
        let ghost old_self = *self;
        proof {
            whole.lemma_adjacency();
            assert(adj(a, b));
            assert(adj(b, a));
            assert(!before.contains(b));
        }
        if !self.visited.contains(b) {
            self.graph.add_node(b);
            self.set.insert(b);
            self.visited.insert(b);
            self.stack.push(b);
            proof {
                lemma_reaches_step(adj, start, a, b);
                assert(self.stack@ =~= old_self.stack@.push(b));
                assert forall|u: int, v: int|
                    0 <= u < self.stack@.len() && 0 <= v < self.stack@.len() && u
                        != v implies self.stack@[u] != self.stack@[v] by {
                    if u < old_self.stack@.len() && v < old_self.stack@.len() {
                    } else {
                        let w = if u < old_self.stack@.len() {
                            u
                        } else {
                            v
                        };
                        assert(old_self.stack@.contains(old_self.stack@[w]));
                    }
                }
                assert forall|t: int| 0 <= t < self.stack@.len()
                    implies self.graph.nodes().contains(
                    #[trigger] self.stack@[t],
                ) by {
                    if t < old_self.stack@.len() {
                        assert(self.stack@[t] == old_self.stack@[t]);
                    }
                }
                assert forall|x: u64| #[trigger]
                    self.visited@.contains(x) <==> before.contains(x) || done.contains(x)
                        || in_hand(hand_next, x) || self.stack@.contains(x) by {
                    if old_self.stack@.contains(x) {
                        let u = choose|u: int| 0 <= u < old_self.stack@.len() && old_self.stack@[u]
                            == x;
                        assert(self.stack@[u] == x);
                    }
                    if x == b {
                        assert(self.stack@[self.stack@.len() - 1] == b);
                    }
                    if self.stack@.contains(x) && x != b {
                        let u = choose|u: int| 0 <= u < self.stack@.len() && self.stack@[u] == x;
                        assert(old_self.stack@[u] == x);
                    }
                }
            }
        } else {
            proof {
                assert(self.graph.nodes().contains(b)) by {
                    if old_self.stack@.contains(b) {
                        let u = choose|u: int| 0 <= u < old_self.stack@.len() && old_self.stack@[u]
                            == b;
                    }
                }
            }
        }
        let ghost mid = *self;
        proof {
            assert forall|x: u64| #[trigger] mid.graph.nodes().contains(x) implies done.contains(x)
                || in_hand(hand_next, x) || mid.stack@.contains(x) by {
                if old_self.graph.nodes().contains(x) {
                    if old_self.stack@.contains(x) {
                        let u = choose|u: int| 0 <= u < old_self.stack@.len() && old_self.stack@[u]
                            == x;
                        assert(mid.stack@[u] == x);
                    }
                } else {
                    assert(mid.stack@[mid.stack@.len() - 1] == x);
                }
            }
        }
        self.graph.add_edge(a, b);
        proof {
            assert(self.graph.nodes() =~= mid.graph.nodes());
            assert(self.set@ =~= self.graph.nodes());
            assert forall|x: u64, y: u64|
                #![trigger self.graph.adjacent(x, y)]
                #![trigger whole.adjacent(x, y)]
                self.graph.adjacent(x, y) <==> (covered(done, hand_next, x, y) || covered(
                    done,
                    hand_next,
                    y,
                    x,
                )) && whole.adjacent(x, y) by {
                assert(old_self.graph.adjacent(x, y) <==> (covered(done, hand, x, y) || covered(
                    done,
                    hand,
                    y,
                    x,
                )) && whole.adjacent(x, y));
                assert(mid.graph.adjacent(x, y) == old_self.graph.adjacent(x, y));
                assert(self.graph.adjacent(x, y) <==> mid.graph.adjacent(x, y)
                    || crate::graph::edge_key(x, y) == crate::graph::edge_key(a, b));
                assert(crate::graph::edge_key(x, y) == crate::graph::edge_key(a, b) <==> (x == a
                    && y == b) || (x == b && y == a));
                if (x == a && y == b) || (x == b && y == a) {
                    assert(whole.adjacent(x, y)) by {
                        assert(crate::graph::edge_key(x, y) == crate::graph::edge_key(a, b));
                    }
                }
            }
            assert forall|y: u64|
                handled.insert(b).contains(y) && #[trigger] adj(a, y)
                    implies self.graph.nodes().contains(
                y,
            ) by {
                if y != b {
                    assert(old_self.graph.nodes().contains(y));
                }
            }
            assert forall|x: u64, y: u64|
                done.contains(x) && #[trigger] adj(x, y) implies self.graph.nodes().contains(y) by {
                assert(old_self.graph.nodes().contains(y));
            }
        }
    }

    /// Walks all edges of the node `a`, which has just left the stack.
    fn visit_node(
        &mut self,
        whole: &SnapGraph,
        Ghost(start): Ghost<u64>,
        Ghost(before): Ghost<Set<u64>>,
        Ghost(done): Ghost<Set<u64>>,
        a: u64,
    )
        requires
            old(self).inv(whole, start, before, done, Some((a, Set::<u64>::empty()))),
        ensures
            final(self).inv(whole, start, before, done.insert(a), None),
    {
        let ghost adj = whole.adjacency();
        let near = whole.neighbors(a);
        let ghost mut handled: Set<u64> = Set::empty();
        let mut t: usize = 0;
        while t < near.len()
            invariant
                self.inv(whole, start, before, done, Some((a, handled))),
                t <= near@.len(),
                near@.no_duplicates(),
                near@.to_set() == whole.neighbor_set(a),
                forall|y: u64| handled.contains(y) <==> exists|i: int| 0 <= i < t && near@[i] == y,
            decreases near@.len() - t,
        {
            let b = near[t];
            proof {
                assert(near@.to_set().contains(b));
                assert(whole.adjacent(a, b));
                assert(!handled.contains(b)) by {
                    if handled.contains(b) {
                        let i = choose|i: int| 0 <= i < t && near@[i] == b;
                    }
                }
            }
            self.visit_edge(whole, Ghost(start), Ghost(before), Ghost(done), Ghost(handled), a, b);
            proof {
                let next = handled.insert(b);
                assert forall|y: u64| next.contains(y) <==> exists|i: int|
                    0 <= i < t + 1 && near@[i] == y by {
                    if handled.contains(y) {
                        let i = choose|i: int| 0 <= i < t && near@[i] == y;
                        assert(0 <= i < t + 1 && near@[i] == y);
                    }
                    if y == b {
                        assert(near@[t as int] == y);
                    }
                    if exists|i: int| 0 <= i < t + 1 && near@[i] == y {
                        let i = choose|i: int| 0 <= i < t + 1 && near@[i] == y;
                        if i < t {
                            assert(handled.contains(y));
                        }
                    }
                }
                handled = next;
            }
            t = t + 1;
        }
        proof {
            let hand: Hand = Some((a, handled));
            let done_next = done.insert(a);
            assert forall|y: u64| whole.adjacent(a, y) implies handled.contains(y) by {
                assert(whole.neighbor_set(a).contains(y));
                assert(near@.to_set().contains(y));
                let i = choose|i: int| 0 <= i < near@.len() && near@[i] == y;
            }
            assert forall|x: u64, y: u64|
                done_next.contains(x) && #[trigger] adj(x, y) implies self.graph.nodes().contains(
                y,
            ) by {
                if x == a {
                    assert(whole.adjacent(a, y));
                }
            }
            assert forall|x: u64, y: u64|
                #![trigger self.graph.adjacent(x, y)]
                #![trigger whole.adjacent(x, y)]
                self.graph.adjacent(x, y) <==> (covered(done_next, None, x, y) || covered(
                    done_next,
                    None,
                    y,
                    x,
                )) && whole.adjacent(x, y) by {
                assert(self.graph.adjacent(x, y) <==> (covered(done, hand, x, y) || covered(
                    done,
                    hand,
                    y,
                    x,
                )) && whole.adjacent(x, y));
                if whole.adjacent(x, y) {
                    if y == a {
                        assert(crate::graph::edge_key(x, y) == crate::graph::edge_key(y, x));
                        assert(whole.adjacent(a, x));
                    }
                }
            }
            assert forall|x: u64| #[trigger] self.graph.nodes().contains(x)
                implies done_next.contains(
                x,
            ) || in_hand(None, x) || self.stack@.contains(x) by {
                assert(done.contains(x) || in_hand(hand, x) || self.stack@.contains(x));
            }
            assert forall|x: u64| #[trigger]
                self.visited@.contains(x) <==> before.contains(x) || done_next.contains(x)
                    || in_hand(None, x) || self.stack@.contains(x) by {
                assert(self.visited@.contains(x) <==> before.contains(x) || done.contains(x)
                    || in_hand(hand, x) || self.stack@.contains(x));
            }
        }
    }
}

/// Collects the piece of the model that holds `start`, and marks its
/// members as visited.
fn collect_piece(model: &Model, start: u64, visited: IdSet) -> (out: (Submodel, IdSet))
    requires
        model.graph.wf(),
        model.graph.nodes().contains(start),
        !visited@.contains(start),
        closed_under(model.graph.adjacency(), visited@),
    ensures
        out.0.is_piece_of(model, start),
        out.1@ == visited@.union(out.0.set@),
{
    let ghost whole = model.graph;
    let ghost adj = model.graph.adjacency();
    let ghost before = visited@;
    let mut cut = Cut { graph: SnapGraph::new(), set: IdSet::new(), stack: Vec::new(), visited };
    cut.stack.push(start);
    cut.visited.insert(start);
    let ghost mut done: Set<u64> = Set::empty();
    proof {
        lemma_reaches_self(adj, start);
        assert(cut.stack@ =~= seq![start]);
        assert(cut.stack@[0] == start);
        assert forall|x: u64| #[trigger]
            cut.visited@.contains(x) <==> before.contains(x) || done.contains(x) || in_hand(
                None,
                x,
            ) || cut.stack@.contains(x) by {
            if cut.stack@.contains(x) {
                let u = choose|u: int| 0 <= u < cut.stack@.len() && cut.stack@[u] == x;
            }
        }
        assert(cut.inv(&model.graph, start, before, done, None));
    }
    loop
        invariant_except_break
            cut.inv(&model.graph, start, before, done, None),
            model.graph.nodes().contains(start),
            adj == model.graph.adjacency(),
            done.subset_of(model.graph.nodes()),
        ensures
            cut.inv(&model.graph, start, before, done, None),
            cut.stack@.len() == 0,
            adj == model.graph.adjacency(),
            done.subset_of(model.graph.nodes()),
        decreases model.graph.nodes().len() - done.len(),
    {
        let ghost old_cut = cut;
        let popped = cut.stack.pop();
        if popped.is_none() {
            break ;
        }
        let a = popped.unwrap();
        proof {
            let last = old_cut.stack@.len() - 1;
            assert(old_cut.stack@[last] == a);
            assert(cut.stack@ =~= old_cut.stack@.take(last));
            assert forall|t: int| 0 <= t < cut.stack@.len() implies #[trigger] cut.stack@[t]
                != a by {
                assert(cut.stack@[t] == old_cut.stack@[t]);
            }
            assert forall|t: int| 0 <= t < cut.stack@.len() implies cut.graph.nodes().contains(
                #[trigger] cut.stack@[t],
            ) by {
                assert(cut.stack@[t] == old_cut.stack@[t]);
            }
        }
        cut.graph.add_node(a);
        cut.set.insert(a);
        proof {
            let hand: Hand = Some((a, Set::<u64>::empty()));
            assert(cut.set@ =~= cut.graph.nodes());
            assert forall|x: u64| #[trigger] cut.graph.nodes().contains(x) implies done.contains(x)
                || in_hand(hand, x) || cut.stack@.contains(x) by {
                if x != a && !done.contains(x) {
                    assert(old_cut.graph.nodes().contains(x));
                    let u = choose|u: int| 0 <= u < old_cut.stack@.len() && old_cut.stack@[u] == x;
                    assert(cut.stack@[u] == x);
                }
            }
            assert forall|x: u64| #[trigger]
                cut.visited@.contains(x) <==> before.contains(x) || done.contains(x) || in_hand(
                    hand,
                    x,
                ) || cut.stack@.contains(x) by {
                if old_cut.stack@.contains(x) && x != a {
                    let u = choose|u: int| 0 <= u < old_cut.stack@.len() && old_cut.stack@[u] == x;
                    assert(cut.stack@[u] == x);
                }
                if cut.stack@.contains(x) {
                    let u = choose|u: int| 0 <= u < cut.stack@.len() && cut.stack@[u] == x;
                    assert(old_cut.stack@[u] == x);
                }
                if x == a {
                    assert(old_cut.stack@.contains(a));
                }
            }
            assert forall|x: u64, y: u64|
                #![trigger cut.graph.adjacent(x, y)]
                #![trigger model.graph.adjacent(x, y)]
                cut.graph.adjacent(x, y) <==> (covered(done, hand, x, y) || covered(
                    done,
                    hand,
                    y,
                    x,
                )) && model.graph.adjacent(x, y) by {
                assert(old_cut.graph.adjacent(x, y) <==> (covered(done, None, x, y) || covered(
                    done,
                    None,
                    y,
                    x,
                )) && model.graph.adjacent(x, y));
            }
            assert forall|x: u64, y: u64|
                done.contains(x) && #[trigger] adj(x, y) implies cut.graph.nodes().contains(y) by {
                assert(old_cut.graph.nodes().contains(y));
            }
            assert(cut.inv(&model.graph, start, before, done, hand));
        }
        cut.visit_node(&model.graph, Ghost(start), Ghost(before), Ghost(done), a);
        proof {
            vstd::set_lib::lemma_len_subset(done.insert(a), model.graph.nodes());
            done = done.insert(a);
        }
    }
    proof {
        model.graph.lemma_adjacency();
        vstd::set_lib::lemma_len_subset(done, model.graph.nodes());
        assert(cut.graph.nodes() =~= done) by {
            assert forall|x: u64| cut.graph.nodes().contains(x) implies done.contains(x) by {
                if cut.stack@.contains(x) {
                }
            }
        }
        assert(done.contains(start));
        assert(cut.set@ =~= piece_of(&model.graph, start)) by {
            assert(closed_under(adj, done));
            assert forall|e: u64| reaches(adj, start, e) implies done.contains(e) by {
                lemma_closed_holds_reached(adj, done, start, e);
            }
        }
        assert(cut.visited@ =~= before.union(cut.set@)) by {
            assert forall|x: u64| cut.visited@.contains(x) implies before.union(cut.set@).contains(
                x,
            ) by {
                if cut.stack@.contains(x) {
                }
            }
        }
        assert forall|x: u64, y: u64|
            #![trigger cut.graph.adjacent(x, y)]
            #![trigger model.graph.adjacent(x, y)]
            cut.graph.adjacent(x, y) <==> cut.set@.contains(x) && cut.set@.contains(y)
                && model.graph.adjacent(x, y) by {
            if model.graph.adjacent(x, y) {
                assert(adj(x, y));
                assert(adj(y, x));
            }
        }
    }
    (Submodel { graph: cut.graph, set: cut.set }, cut.visited)
}

/// What holds of the pieces collected so far: they are pieces of the model
/// that share no member, and `visited` holds exactly their members.
#[verifier::opaque]
spec fn pieces_so_far(pieces: Seq<Submodel>, model: &Model, visited: Set<u64>) -> bool {
    &&& closed_under(model.graph.adjacency(), visited)
    &&& forall|x: u64| #[trigger]
        visited.contains(x) <==> exists|c: int|
            0 <= c < pieces.len() && #[trigger] pieces[c].set@.contains(x)
    &&& forall|c: int, x: u64|
        0 <= c < pieces.len() && #[trigger] pieces[c].set@.contains(x)
            ==> model.graph.nodes().contains(x) && pieces[c].is_piece_of(model, x)
    &&& forall|c: int| 0 <= c < pieces.len() ==> (#[trigger] pieces[c]).set@.len() > 0
    &&& forall|c: int, d: int, x: u64|
        0 <= c < d < pieces.len() && #[trigger] pieces[c].set@.contains(x) ==> !(
        #[trigger] pieces[d].set@.contains(x))
}

/// Two pieces that share a member hold each other's start.
proof fn lemma_pieces_meet(model: &Model, other: Submodel, piece: Submodel, start: u64, x: u64)
    requires
        model.graph.wf(),
        other.set@ == piece_of(&model.graph, x),
        piece.set@ == piece_of(&model.graph, start),
        piece.set@.contains(x),
    ensures
        other.set@.contains(start),
{
    lemma_piece_of_member(&model.graph, start, x);
    lemma_reaches_self(model.graph.adjacency(), start);
}

/// A piece holds nodes of the model only, and is the piece of each of its
/// members.
proof fn lemma_piece_members(model: &Model, piece: Submodel, start: u64, x: u64)
    requires
        model.graph.wf(),
        model.graph.nodes().contains(start),
        piece.is_piece_of(model, start),
        piece.set@.contains(x),
    ensures
        model.graph.nodes().contains(x),
        piece.is_piece_of(model, x),
{
    model.graph.lemma_adjacency();
    lemma_closed_holds_reached(model.graph.adjacency(), model.graph.nodes(), start, x);
    lemma_piece_of_member(&model.graph, start, x);
}

/// No edge leaves a piece.
proof fn lemma_piece_closed(model: &Model, piece: Submodel, start: u64)
    requires
        piece.set@ == piece_of(&model.graph, start),
    ensures
        closed_under(model.graph.adjacency(), piece.set@),
{
    let adj = model.graph.adjacency();
    assert forall|a: u64, b: u64| piece.set@.contains(a) && #[trigger] adj(a, b)
        implies piece.set@.contains(
        b,
    ) by {
        lemma_reaches_step(adj, start, a, b);
    }
}

/// A piece that starts outside of what was visited can join the pieces
/// collected so far.
proof fn lemma_push_piece(
    model: &Model,
    pieces: Seq<Submodel>,
    visited: Set<u64>,
    piece: Submodel,
    start: u64,
)
    requires
        model.graph.wf(),
        pieces_so_far(pieces, model, visited),
        model.graph.nodes().contains(start),
        !visited.contains(start),
        piece.is_piece_of(model, start),
    ensures
        pieces_so_far(pieces.push(piece), model, visited.union(piece.set@)),
{
    reveal(pieces_so_far);
    let adj = model.graph.adjacency();
    let next = pieces.push(piece);
    let seen = visited.union(piece.set@);
    assert(piece.set@.len() > 0) by {
        lemma_reaches_self(adj, start);
        assert(piece.set@.contains(start));
        if piece.set@.len() == 0 {
            piece.set@.lemma_len0_is_empty();
        }
    }
    assert(closed_under(adj, seen)) by {
        lemma_piece_closed(model, piece, start);
    }
    assert forall|x: u64| #[trigger]
        seen.contains(x) <==> exists|c: int|
            0 <= c < next.len() && #[trigger] next[c].set@.contains(x) by {
        if visited.contains(x) {
            let c = choose|c: int| 0 <= c < pieces.len() && #[trigger] pieces[c].set@.contains(x);
            assert(next[c].set@.contains(x));
        }
        if piece.set@.contains(x) {
            assert(next[pieces.len() as int].set@.contains(x));
        }
        if exists|c: int| 0 <= c < next.len() && #[trigger] next[c].set@.contains(x) {
            let c = choose|c: int| 0 <= c < next.len() && #[trigger] next[c].set@.contains(x);
            if c < pieces.len() {
                assert(pieces[c].set@.contains(x));
            }
        }
    }
    assert forall|c: int, x: u64|
        0 <= c < next.len() && #[trigger] next[c].set@.contains(x)
            implies model.graph.nodes().contains(
        x,
    ) && next[c].is_piece_of(model, x) by {
        if c < pieces.len() {
            assert(pieces[c].set@.contains(x));
        } else {
            lemma_piece_members(model, piece, start, x);
        }
    }
    assert forall|c: int| 0 <= c < next.len() implies (#[trigger] next[c]).set@.len() > 0 by {
        if c < pieces.len() {
            assert(next[c] == pieces[c]);
        }
    }
    assert forall|c: int, d: int, x: u64|
        0 <= c < d < next.len() && #[trigger] next[c].set@.contains(x) implies !(
    #[trigger] next[d].set@.contains(x)) by {
        assert(pieces[c].set@.contains(x));
        if d < pieces.len() {
            assert(next[d] == pieces[d]);
        } else if piece.set@.contains(x) {
            lemma_pieces_meet(model, pieces[c], piece, start, x);
            assert(visited.contains(start));
        }
    }
}

/// Splits a model into its connected pieces. The graph is walked as it
/// stands; snap detection is not run again.
pub fn decompose(model: &Model) -> (pieces: Vec<Submodel>)
    requires
        model.graph.wf(),
    ensures
        is_decomposition(pieces@, model),
        pieces@.len() <= model.graph.nodes().len(),
{
    let mut submodels: Vec<Submodel> = Vec::new();
    let mut visited: IdSet = IdSet::new();
    let ids = model.graph.node_identifiers();
    let mut i: usize = 0;
    proof {
        reveal(pieces_so_far);
        assert(pieces_so_far(submodels@, model, visited@));
    }
    while i < ids.len()
        invariant
            model.graph.wf(),
            i <= ids@.len(),
            submodels@.len() <= i,
            ids@.no_duplicates(),
            ids@.to_set() == model.graph.nodes(),
            pieces_so_far(submodels@, model, visited@),
            forall|t: int| 0 <= t < i ==> visited@.contains(#[trigger] ids@[t]),
        decreases ids@.len() - i,
    {
        let start_node = ids[i];
        if !visited.contains(start_node) {
            proof {
                assert(ids@.to_set().contains(ids@[i as int]));
                assert(closed_under(model.graph.adjacency(), visited@)) by {
                    reveal(pieces_so_far);
                }
            }
            let ghost visited_before = visited@;
            let (piece, seen) = collect_piece(model, start_node, visited);
            visited = seen;
            proof {
                lemma_push_piece(model, submodels@, visited_before, piece, start_node);
                lemma_reaches_self(model.graph.adjacency(), start_node);
            }
            submodels.push(piece);
        }
        i = i + 1;
    }
    proof {
        reveal(pieces_so_far);
        ids@.unique_seq_to_set();
        assert forall|x: u64| model.graph.nodes().contains(x) implies exists|c: int|
            0 <= c < submodels@.len() && #[trigger] submodels@[c].set@.contains(x) by {
            assert(ids@.to_set().contains(x));
            let t = choose|t: int| 0 <= t < ids@.len() && ids@[t] == x;
            assert(visited@.contains(ids@[t]));
        }
    }
    submodels
}

} // verus!
