//! The connected components of the snap graph of a scene, anchors left out.

use std::collections::VecDeque;
use vstd::prelude::*;

use crate::graph::SnapGraph;
use crate::idset::IdSet;
use crate::idset::IdTable;
use crate::matrix::SceneMatrix;
use crate::parts::Geometry;
use crate::paths::lemma_closed_holds_reached;
use crate::paths::lemma_reaches_self;
use crate::paths::lemma_reaches_step;
use crate::paths::reaches;
use crate::scene::PartInfo;
use crate::scene::is_snap_matrix;
use crate::scene::snapped;

verus! {

/// A snap edge joins the entities `x` and `y`, and neither is an anchor.
pub open spec fn free_edge(infos: Seq<PartInfo>, geometry: &Geometry, x: u64, y: u64) -> bool {
    snapped(infos, geometry, x as int, y as int) && !infos[x as int].anchor
        && !infos[y as int].anchor
}

/// A snap edge joins the entity `x`, which is no anchor, and the anchor `k`.
pub open spec fn anchor_edge(infos: Seq<PartInfo>, geometry: &Geometry, x: u64, k: u64) -> bool {
    snapped(infos, geometry, x as int, k as int) && !infos[x as int].anchor
        && infos[k as int].anchor
}

/// The relation `free_edge` as a value.
pub open spec fn free_edges(
    infos: Seq<PartInfo>,
    geometry: &Geometry,
) -> spec_fn(u64, u64) -> bool {
    |x: u64, y: u64| free_edge(infos, geometry, x, y)
}

/// The entities that `start` reaches along snap edges without passing
/// through an anchor.
pub open spec fn component_of(infos: Seq<PartInfo>, geometry: &Geometry, start: u64) -> Set<u64> {
    Set::new(|e: u64| reaches(free_edges(infos, geometry), start, e))
}

/// The anchor `k` is listed with the member `x`.
pub open spec fn lists(anchors: Map<u64, Set<u64>>, k: u64, x: u64) -> bool {
    anchors.dom().contains(k) && anchors[k].contains(x)
}

/// One connected group of parts: its members, the snap graph among them, and
/// for each anchor that a member snaps to, the members that do.
pub struct Component {
    pub set: IdSet,
    pub graph: SnapGraph,
    pub anchors: IdTable,
}

impl Component {
    /// The component is the one of `start`: its members are what `start`
    /// reaches, its graph holds the snap edges among them, and its anchor
    /// table lists each anchor with exactly the members that snap to it.
    pub open spec fn is_component_of(
        &self,
        infos: Seq<PartInfo>,
        geometry: &Geometry,
        start: u64,
    ) -> bool {
        &&& self.set@ == component_of(infos, geometry, start)
        &&& self.set@.finite()
        &&& self.graph.wf()
        &&& self.graph.nodes() == self.set@
        &&& forall|x: u64, y: u64|
            #![trigger self.graph.adjacent(x, y)]
            #![trigger free_edge(infos, geometry, x, y)]
            self.graph.adjacent(x, y) <==> self.set@.contains(x) && self.set@.contains(y)
                && free_edge(infos, geometry, x, y)
        &&& forall|k: u64, x: u64| #[trigger]
            lists(self.anchors@, k, x) <==> self.set@.contains(x) && anchor_edge(
                infos,
                geometry,
                x,
                k,
            )
        &&& forall|k: u64| #[trigger]
            self.anchors@.dom().contains(k) ==> exists|x: u64| lists(self.anchors@, k, x)
        &&& forall|k: u64| #[trigger] self.anchors@.dom().contains(k) ==> self.anchors@[k].finite()
    }
}

/// A set of ids below `n` has at most `n` members.
pub proof fn lemma_bounded_set_len(s: Set<u64>, n: nat)
    requires
        forall|x: u64| s.contains(x) ==> x < n,
    ensures
        s.finite(),
        s.len() <= n,
    decreases n,
{
    if n == 0 {
        assert(s =~= Set::<u64>::empty());
    } else {
        let last = (n - 1) as u64;
        if n - 1 <= u64::MAX {
            lemma_bounded_set_len(s.remove(last), (n - 1) as nat);
            if s.contains(last) {
                assert(s =~= s.remove(last).insert(last));
            } else {
                assert(s =~= s.remove(last));
            }
        } else {
            lemma_bounded_set_len(s, (n - 1) as nat);
        }
    }
}

/// The node in hand, if any, with those of its neighbours whose edges have
/// been walked already.
pub type Hand = Option<(u64, Set<u64>)>;

/// The edges at `x` that lead to `y` have been walked.
pub open spec fn covered(done: Set<u64>, hand: Hand, x: u64, y: u64) -> bool {
    done.contains(x) || (hand matches Some((node, handled)) && x == node && handled.contains(y))
}

/// `x` is the node in hand.
pub open spec fn in_hand(hand: Hand, x: u64) -> bool {
    hand matches Some((node, _)) && x == node
}

/// A breadth-first walk over the free edges of a scene in progress.
struct Walk {
    set: IdSet,
    graph: SnapGraph,
    anchors: IdTable,
    queue: VecDeque<u64>,
}

impl Walk {
    /// What holds of a walk from `start` once the nodes in `done` have been
    /// handled, with the node in `hand` half way through its edges.
    spec fn inv(
        &self,
        infos: Seq<PartInfo>,
        geometry: &Geometry,
        start: u64,
        done: Set<u64>,
        hand: Hand,
    ) -> bool {
        let adj = free_edges(infos, geometry);
        let n = infos.len();
        &&& self.queue@.no_duplicates()
        &&& forall|t: int|
            0 <= t < self.queue@.len() ==> {
                let q = #[trigger] self.queue@[t];
                &&& q < n
                &&& infos[q as int].active
                &&& !infos[q as int].anchor
                &&& !done.contains(q)
                &&& !in_hand(hand, q)
                &&& reaches(adj, start, q)
                &&& (self.graph.nodes().contains(q) || (q == start && hand is None && done
                    == Set::<u64>::empty()))
            }
        &&& done.finite()
        &&& forall|x: u64| #[trigger]
            done.contains(x) ==> x < n && !infos[x as int].anchor && reaches(adj, start, x)
                && self.graph.nodes().contains(x)
        &&& hand matches Some((a, handled)) ==> {
            &&& a < n
            &&& infos[a as int].active
            &&& !infos[a as int].anchor
            &&& !done.contains(a)
            &&& reaches(adj, start, a)
            &&& self.graph.nodes().contains(a)
            &&& forall|y: u64| handled.contains(y) && #[trigger] adj(a, y)
                ==> self.graph.nodes().contains(y)
        }
        &&& forall|x: u64| #[trigger]
            self.graph.nodes().contains(x) ==> done.contains(x) || in_hand(hand, x)
                || self.queue@.contains(x)
        &&& !done.contains(start) && !in_hand(hand, start) ==> hand is None && self.queue@ == seq![
            start,
        ]
        &&& forall|x: u64, y: u64|
            done.contains(x) && #[trigger] adj(x, y) ==> self.graph.nodes().contains(y)
        &&& self.graph.wf()
        &&& self.set@ == self.graph.nodes()
        &&& forall|x: u64, y: u64|
            self.graph.adjacent(x, y) <==> (covered(done, hand, x, y) || covered(done, hand, y, x))
                && free_edge(infos, geometry, x, y)
        &&& forall|k: u64, x: u64| #[trigger]
            lists(self.anchors@, k, x) <==> covered(done, hand, x, k) && anchor_edge(
                infos,
                geometry,
                x,
                k,
            )
        &&& forall|k: u64| #[trigger]
            self.anchors@.dom().contains(k) ==> exists|x: u64| lists(self.anchors@, k, x)
        &&& forall|k: u64| #[trigger] self.anchors@.dom().contains(k) ==> self.anchors@[k].finite()
    }

    /// Walks one edge of the node in hand: a free neighbour that is new
    /// joins the graph and the queue, and the edge joins the graph; an
    /// anchor is listed with the node.
    fn visit_edge(
        &mut self,
        infos: &Vec<PartInfo>,
        geometry: &Geometry,
        Ghost(start): Ghost<u64>,
        Ghost(done): Ghost<Set<u64>>,
        Ghost(handled): Ghost<Set<u64>>,
        a: u64,
        b: u64,
        anchored: bool,
    )
        requires
            old(self).inv(infos@, geometry, start, done, Some((a, handled))),
            b < infos@.len(),
            snapped(infos@, geometry, a as int, b as int),
            anchored == infos@[b as int].anchor,
            !handled.contains(b),
        ensures
            final(self).inv(infos@, geometry, start, done, Some((a, handled.insert(b)))),
    {
        let ghost adj = free_edges(infos@, geometry);
        let ghost hand: Hand = Some((a, handled));
        let ghost hand_next: Hand = Some((a, handled.insert(b)));
        let ghost before = *self;
        assert(b != a);
        if !self.graph.contains_node(b) && !anchored {
            self.graph.add_node(b);
            self.set.insert(b);
            self.queue.push_back(b);
            proof {
                assert(adj(a, b));
                lemma_reaches_step(adj, start, a, b);
                assert(self.queue@ =~= before.queue@.push(b));
                assert forall|u: int, v: int|
                    0 <= u < self.queue@.len() && 0 <= v < self.queue@.len() && u
                        != v implies self.queue@[u] != self.queue@[v] by {
                    if u < before.queue@.len() && v < before.queue@.len() {
                    } else {
                        let w = if u < before.queue@.len() {
                            u
                        } else {
                            v
                        };
                        assert(before.graph.nodes().contains(before.queue@[w]));
                    }
                }
                assert(!done.contains(b));
                assert forall|t: int| 0 <= t < self.queue@.len()
                    implies self.graph.nodes().contains(
                    #[trigger] self.queue@[t],
                ) by {
                    if t < before.queue@.len() {
                        assert(self.queue@[t] == before.queue@[t]);
                    }
                }
            }
        }
        let ghost mid = *self;
        proof {
            assert forall|x: u64| #[trigger] mid.graph.nodes().contains(x) implies done.contains(x)
                || in_hand(hand_next, x) || mid.queue@.contains(x) by {
                if before.graph.nodes().contains(x) {
                    if before.queue@.contains(x) {
                        let u = choose|u: int| 0 <= u < before.queue@.len() && before.queue@[u]
                            == x;
                        assert(mid.queue@[u] == x);
                    }
                } else {
                    assert(mid.queue@[mid.queue@.len() - 1] == x);
                }
            }
        }
        if anchored {
            // The anchor stays outside the graph: it is listed with the
            // member that touches it.
            let taken = self.anchors.remove(b);
            let mut set = match taken {
                Some(s) => s,
                None => IdSet::new(),
            };
            let ghost set_before = set@;
            set.insert(a);
            self.anchors.insert(b, set);
            proof {
                let map_before = before.anchors@;
                assert(anchor_edge(infos@, geometry, a, b));
                assert(set@ == set_before.insert(a));
                assert(map_before.dom().contains(b) ==> set_before == map_before[b]);
                assert(!map_before.dom().contains(b) ==> set_before == Set::<u64>::empty());
                assert(self.anchors@ == map_before.remove(b).insert(b, set@));
                assert(lists(self.anchors@, b, a));
                assert forall|k: u64, x: u64| #[trigger]
                    lists(self.anchors@, k, x) <==> covered(done, hand_next, x, k) && anchor_edge(
                        infos@,
                        geometry,
                        x,
                        k,
                    ) by {
                    assert(lists(map_before, k, x) <==> covered(done, hand, x, k) && anchor_edge(
                        infos@,
                        geometry,
                        x,
                        k,
                    ));
                    if k == b {
                        assert(lists(self.anchors@, k, x) <==> lists(map_before, k, x) || x == a);
                    } else {
                        assert(lists(self.anchors@, k, x) <==> lists(map_before, k, x));
                    }
                }
                assert forall|k: u64| #[trigger] self.anchors@.dom().contains(k) implies (exists|
                    x: u64,
                | lists(self.anchors@, k, x)) && self.anchors@[k].finite() by {
                    if k != b {
                        let x = choose|x: u64| lists(map_before, k, x);
                        assert(lists(self.anchors@, k, x));
                    }
                }
                assert forall|x: u64, y: u64|
                    self.graph.adjacent(x, y) <==> (covered(done, hand_next, x, y) || covered(
                        done,
                        hand_next,
                        y,
                        x,
                    )) && free_edge(infos@, geometry, x, y) by {
                    assert(before.graph.adjacent(x, y) <==> (covered(done, hand, x, y) || covered(
                        done,
                        hand,
                        y,
                        x,
                    )) && free_edge(infos@, geometry, x, y));
                }
            }
        } else {
            self.graph.add_edge(a, b);
            proof {
                assert(free_edge(infos@, geometry, a, b));
                assert(self.set@ =~= self.graph.nodes());
                assert(self.graph.nodes() =~= mid.graph.nodes());
                assert forall|x: u64, y: u64|
                    self.graph.adjacent(x, y) <==> (covered(done, hand_next, x, y) || covered(
                        done,
                        hand_next,
                        y,
                        x,
                    )) && free_edge(infos@, geometry, x, y) by {
                    assert(before.graph.adjacent(x, y) <==> (covered(done, hand, x, y) || covered(
                        done,
                        hand,
                        y,
                        x,
                    )) && free_edge(infos@, geometry, x, y));
                    assert(mid.graph.adjacent(x, y) == before.graph.adjacent(x, y));
                    assert(self.graph.adjacent(x, y) <==> mid.graph.adjacent(x, y)
                        || crate::graph::edge_key(x, y) == crate::graph::edge_key(a, b));
                    assert(crate::graph::edge_key(x, y) == crate::graph::edge_key(a, b) <==> (x == a
                        && y == b) || (x == b && y == a));
                    if (x == a && y == b) || (x == b && y == a) {
                        assert(free_edge(infos@, geometry, x, y));
                    }
                }
                assert forall|k: u64, x: u64| #[trigger]
                    lists(self.anchors@, k, x) <==> covered(done, hand_next, x, k) && anchor_edge(
                        infos@,
                        geometry,
                        x,
                        k,
                    ) by {
                    assert(lists(before.anchors@, k, x) <==> covered(done, hand, x, k)
                        && anchor_edge(infos@, geometry, x, k));
                }
            }
        }
        proof {
            assert forall|y: u64|
                handled.insert(b).contains(y) && #[trigger] adj(a, y)
                    implies self.graph.nodes().contains(
                y,
            ) by {
                if y != b {
                    assert(before.graph.nodes().contains(y));
                }
            }
            assert forall|x: u64, y: u64|
                done.contains(x) && #[trigger] adj(x, y) implies self.graph.nodes().contains(y) by {
                assert(before.graph.nodes().contains(y));
            }
        }
    }

    /// Walks all edges of the node `a`, which has just left the queue.
    fn visit_node(
        &mut self,
        matrix: &SceneMatrix,
        infos: &Vec<PartInfo>,
        geometry: &Geometry,
        Ghost(start): Ghost<u64>,
        Ghost(done): Ghost<Set<u64>>,
        a: u64,
    )
        requires
            is_snap_matrix(matrix, infos@, geometry),
            old(self).inv(infos@, geometry, start, done, Some((a, Set::<u64>::empty()))),
        ensures
            final(self).inv(infos@, geometry, start, done.insert(a), None),
    {
        let ghost adj = free_edges(infos@, geometry);
        let edges = matrix.edges(a as usize);
        let ghost mut handled: Set<u64> = Set::empty();
        let mut t: usize = 0;
        while t < edges.len()
            invariant
                is_snap_matrix(matrix, infos@, geometry),
                self.inv(infos@, geometry, start, done, Some((a, handled))),
                t <= edges@.len(),
                forall|i: int|
                    0 <= i < edges@.len() ==> {
                        &&& (#[trigger] edges@[i]).0 == a
                        &&& edges@[i].1 < matrix.len()
                        &&& matrix.linked(a as int, edges@[i].1 as int)
                        &&& edges@[i].2 == matrix.flag(a as int, edges@[i].1 as int)
                    },
                forall|i: int, j: int|
                    0 <= i < j < edges@.len() ==> (#[trigger] edges@[i]).1 != (
                    #[trigger] edges@[j]).1,
                forall|y: u64|
                    handled.contains(y) <==> exists|i: int|
                        0 <= i < t && (#[trigger] edges@[i]).1 == y,
            decreases edges@.len() - t,
        {
            let edge = edges[t];
            let b = edge.1 as u64;
            proof {
                matrix.lemma_linked();
                assert(matrix.linked(a as int, edge.1 as int));
                assert(!handled.contains(b)) by {
                    if handled.contains(b) {
                        let i = choose|i: int| 0 <= i < t && (#[trigger] edges@[i]).1 == b;
                        assert(edges@[i].1 != edges@[t as int].1);
                    }
                }
            }
            self.visit_edge(infos,
                geometry, Ghost(start), Ghost(done), Ghost(handled), a, b, edge.2);
            proof {
                let next = handled.insert(b);
                assert forall|y: u64|
                    next.contains(y) <==> exists|i: int|
                        0 <= i < t + 1 && (#[trigger] edges@[i]).1 == y by {
                    if handled.contains(y) {
                        let i = choose|i: int| 0 <= i < t && (#[trigger] edges@[i]).1 == y;
                        assert(0 <= i < t + 1 && edges@[i].1 == y);
                    }
                    if y == b {
                        assert(edges@[t as int].1 == y);
                    }
                    if exists|i: int| 0 <= i < t + 1 && (#[trigger] edges@[i]).1 == y {
                        let i = choose|i: int| 0 <= i < t + 1 && (#[trigger] edges@[i]).1 == y;
                        if i < t {
                            assert(handled.contains(y));
                        }
                    }
                }
                handled = next;
            }
            t = t + 1;
        }
        proof {
            let hand: Hand = Some((a, handled));
            let done_next = done.insert(a);
            assert forall|y: u64|
                snapped(infos@, geometry, a as int, y as int) implies handled.contains(y) by {
                assert(matrix.linked(a as int, y as int));
                let i = choose|i: int| 0 <= i < edges@.len() && (#[trigger] edges@[i]).1 == y;
            }
            assert forall|x: u64, y: u64|
                done_next.contains(x) && #[trigger] adj(x, y) implies self.graph.nodes().contains(
                y,
            ) by {
                if x == a {
                    assert(snapped(infos@, geometry, a as int, y as int));
                }
            }
            assert forall|x: u64, y: u64|
                self.graph.adjacent(x, y) <==> (covered(done_next, None, x, y) || covered(
                    done_next,
                    None,
                    y,
                    x,
                )) && free_edge(infos@, geometry, x, y) by {
                assert(self.graph.adjacent(x, y) <==> (covered(done, hand, x, y) || covered(
                    done,
                    hand,
                    y,
                    x,
                )) && free_edge(infos@, geometry, x, y));
                if free_edge(infos@, geometry, x, y) {
                    if x == a {
                        assert(snapped(infos@, geometry, a as int, y as int));
                    }
                    if y == a {
                        assert(snapped(infos@, geometry, a as int, x as int));
                    }
                }
            }
            assert forall|k: u64, x: u64| #[trigger]
                lists(self.anchors@, k, x) <==> covered(done_next, None, x, k) && anchor_edge(
                    infos@,
                    geometry,
                    x,
                    k,
                ) by {
                assert(lists(self.anchors@, k, x) <==> covered(done, hand, x, k) && anchor_edge(
                    infos@,
                    geometry,
                    x,
                    k,
                ));
                if x == a && anchor_edge(infos@, geometry, x, k) {
                    assert(snapped(infos@, geometry, a as int, k as int));
                }
            }
            assert forall|x: u64| #[trigger] self.graph.nodes().contains(x)
                implies done_next.contains(
                x,
            ) || in_hand(None, x) || self.queue@.contains(x) by {
                assert(done.contains(x) || in_hand(hand, x) || self.queue@.contains(x));
            }
        }
    }
}

/// Collects the component of the entity at `start` by a breadth-first walk
/// over the free edges of the matrix, and marks its members in `dirty`.
pub fn collect_component(
    matrix: &SceneMatrix,
    infos: &Vec<PartInfo>,
    geometry: &Geometry,
    start: usize,
    dirty: &mut Vec<bool>,
) -> (component: Component)
    requires
        is_snap_matrix(matrix, infos@, geometry),
        start < infos@.len(),
        infos@[start as int].active,
        !infos@[start as int].anchor,
        old(dirty)@.len() == infos@.len(),
    ensures
        component.is_component_of(infos@, geometry, start as u64),
        final(dirty)@.len() == infos@.len(),
        forall|i: int|
            0 <= i < infos@.len() ==> final(dirty)@[i] == (old(dirty)@[i]
                || component.set@.contains(
                i as u64,
            )),
{
    let ghost adj = free_edges(infos@, geometry);
    let ghost n = infos@.len();
    let mut walk = Walk {
        set: IdSet::new(),
        graph: SnapGraph::new(),
        anchors: IdTable::new(),
        queue: VecDeque::new(),
    };
    walk.queue.push_back(start as u64);
    let ghost mut done: Set<u64> = Set::empty();
    proof {
        lemma_reaches_self(adj, start as u64);
        assert(walk.queue@ =~= seq![start as u64]);
        assert(walk.inv(infos@, geometry, start as u64, done, None));
    }
    loop
        invariant_except_break
            is_snap_matrix(matrix, infos@, geometry),
            adj == free_edges(infos@, geometry),
            n == infos@.len(),
            n <= crate::matrix::MAX_NODES,
            start < n,
            dirty@.len() == n,
            walk.inv(infos@, geometry, start as u64, done, None),
            forall|i: int|
                0 <= i < n ==> dirty@[i] == (old(dirty)@[i] || done.contains(i as u64)),
        ensures
            n == infos@.len(),
            n <= crate::matrix::MAX_NODES,
            dirty@.len() == n,
            walk.inv(infos@, geometry, start as u64, done, None),
            walk.queue@.len() == 0,
            forall|i: int|
                0 <= i < n ==> dirty@[i] == (old(dirty)@[i] || done.contains(i as u64)),
        decreases n - done.len(),
    {
        let ghost before = walk;
        let popped = walk.queue.pop_front();
        if popped.is_none() {
            break ;
        }
        let a = popped.unwrap();
        proof {
            assert(before.queue@[0] == a);
            assert(walk.queue@ =~= before.queue@.skip(1));
            assert forall|t: int| 0 <= t < walk.queue@.len() implies #[trigger] walk.queue@[t]
                != a by {
                assert(walk.queue@[t] == before.queue@[t + 1]);
            }
            assert forall|t: int| 0 <= t < walk.queue@.len() implies walk.graph.nodes().contains(
                #[trigger] walk.queue@[t],
            ) by {
                assert(walk.queue@[t] == before.queue@[t + 1]);
                if before.queue@[t + 1] == start {
                }
            }
        }
        dirty.set(a as usize, true);
        if !walk.graph.contains_node(a) {
            walk.graph.add_node(a);
            walk.set.insert(a);
        }
        proof {
            let hand: Hand = Some((a, Set::<u64>::empty()));
            assert(walk.set@ =~= walk.graph.nodes());
            assert forall|x: u64| #[trigger] walk.graph.nodes().contains(x) implies done.contains(x)
                || in_hand(hand, x) || walk.queue@.contains(x) by {
                if x != a && !done.contains(x) {
                    assert(before.graph.nodes().contains(x));
                    let u = choose|u: int| 0 <= u < before.queue@.len() && before.queue@[u] == x;
                    assert(walk.queue@[u - 1] == x);
                }
            }
            assert forall|x: u64, y: u64|
                walk.graph.adjacent(x, y) <==> (covered(done, hand, x, y) || covered(
                    done,
                    hand,
                    y,
                    x,
                )) && free_edge(infos@, geometry, x, y) by {
                assert(before.graph.adjacent(x, y) <==> (covered(done, None, x, y) || covered(
                    done,
                    None,
                    y,
                    x,
                )) && free_edge(infos@, geometry, x, y));
            }
            assert forall|k: u64, x: u64| #[trigger]
                lists(walk.anchors@, k, x) <==> covered(done, hand, x, k) && anchor_edge(
                    infos@,
                    geometry,
                    x,
                    k,
                ) by {
                assert(lists(before.anchors@, k, x) <==> covered(done, None, x, k) && anchor_edge(
                    infos@,
                    geometry,
                    x,
                    k,
                ));
            }
            assert forall|x: u64, y: u64|
                done.contains(x) && #[trigger] adj(x, y) implies walk.graph.nodes().contains(y) by {
                assert(before.graph.nodes().contains(y));
            }
            assert(walk.inv(infos@, geometry, start as u64, done, hand));
        }
        walk.visit_node(matrix, infos, geometry, Ghost(start as u64), Ghost(done), a);
        proof {
            lemma_bounded_set_len(done.insert(a), n);
            done = done.insert(a);
        }
    }
    proof {
        assert(walk.graph.nodes() =~= done) by {
            assert forall|x: u64| walk.graph.nodes().contains(x) implies done.contains(x) by {
                if walk.queue@.contains(x) {
                }
            }
        }
        assert(done.contains(start as u64));
        assert(walk.set@ =~= component_of(infos@, geometry, start as u64)) by {
            assert(crate::paths::closed_under(adj, done));
            assert forall|e: u64| reaches(adj, start as u64, e) implies done.contains(e) by {
                lemma_closed_holds_reached(adj, done, start as u64, e);
            }
        }
    }
    Component { set: walk.set, graph: walk.graph, anchors: walk.anchors }
}

/// Snap edges have no direction.
pub proof fn lemma_free_edges_symmetric(infos: Seq<PartInfo>, geometry: &Geometry)
    ensures
        crate::paths::symmetric(free_edges(infos, geometry)),
{
}

/// Every member of a component spans the same component.
pub proof fn lemma_component_of_member(
    infos: Seq<PartInfo>,
    geometry: &Geometry,
    start: u64,
    member: u64,
)
    requires
        component_of(infos, geometry, start).contains(member),
    ensures
        component_of(infos, geometry, member) == component_of(infos, geometry, start),
{
    let adj = free_edges(infos, geometry);
    lemma_free_edges_symmetric(infos, geometry);
    crate::paths::lemma_reaches_sym(adj, start, member);
    assert forall|e: u64|
        component_of(infos, geometry, member).contains(e) <==> component_of(
            infos,
            geometry,
            start,
        ).contains(e) by {
        if reaches(adj, member, e) {
            crate::paths::lemma_reaches_trans(adj, start, member, e);
        }
        if reaches(adj, start, e) {
            crate::paths::lemma_reaches_trans(adj, member, start, e);
        }
    }
    assert(component_of(infos, geometry, member) =~= component_of(infos, geometry, start));
}

/// An entity that takes part in snap detection and is no anchor.
pub open spec fn is_free(infos: Seq<PartInfo>, e: u64) -> bool {
    e < infos.len() && infos[e as int].active && !infos[e as int].anchor
}

/// What a component holds besides its start is free as well.
pub proof fn lemma_component_is_free(infos: Seq<PartInfo>, geometry: &Geometry, start: u64, e: u64)
    requires
        is_free(infos, start),
        component_of(infos, geometry, start).contains(e),
    ensures
        is_free(infos, e),
{
    let adj = free_edges(infos, geometry);
    let free = Set::new(|x: u64| is_free(infos, x));
    assert(crate::paths::closed_under(adj, free));
    lemma_closed_holds_reached(adj, free, start, e);
}

/// The components are those of the scene: each is the component of every
/// one of its members, no two share a member, and every free entity is in
/// one of them.
pub open spec fn is_partition(
    collections: Seq<Component>,
    infos: Seq<PartInfo>,
    geometry: &Geometry,
) -> bool {
    &&& forall|i: int, x: u64|
        0 <= i < collections.len() && #[trigger] collections[i].set@.contains(x) ==> is_free(
            infos,
            x,
        ) && collections[i].is_component_of(infos, geometry, x)
    &&& forall|i: int| 0 <= i < collections.len() ==> (#[trigger] collections[i]).set@.len() > 0
    &&& forall|i: int, j: int, x: u64|
        0 <= i < j < collections.len() && #[trigger] collections[i].set@.contains(x) ==> !(
        #[trigger] collections[j].set@.contains(x))
    &&& forall|x: u64|
        is_free(infos, x) ==> exists|i: int|
            0 <= i < collections.len() && #[trigger] collections[i].set@.contains(x)
}

/// Splits the free entities of a scene into the connected components of its
/// snap graph. Anchors join no component: a component only lists the ones
/// that its members snap to.
pub fn partition(matrix: &SceneMatrix, infos: &Vec<PartInfo>, geometry: &Geometry) -> (collections:
    Vec<Component>)
    requires
        is_snap_matrix(matrix, infos@, geometry),
    ensures
        is_partition(collections@, infos@, geometry),
        collections@.len() <= infos@.len(),
{
    let n = matrix.node_count();
    let mut dirty: Vec<bool> = Vec::new();
    let mut k: usize = 0;
    while k < n
        invariant
            k <= n,
            dirty@.len() == k,
            forall|i: int| 0 <= i < k ==> !dirty@[i],
        decreases n - k,
    {
        dirty.push(false);
        k = k + 1;
    }
    let mut collections: Vec<Component> = Vec::new();
    let mut i: usize = 0;
    while i < n
        invariant
            is_snap_matrix(matrix, infos@, geometry),
            n == infos@.len(),
            n <= crate::matrix::MAX_NODES,
            i <= n,
            collections@.len() <= i,
            dirty@.len() == n,
            forall|e: int|
                0 <= e < n ==> (#[trigger] dirty@[e] <==> exists|c: int|
                    0 <= c < collections@.len() && #[trigger] collections@[c].set@.contains(
                        e as u64,
                    )),
            forall|e: u64| e < i && is_free(infos@, e) ==> dirty@[e as int],
            forall|c: int, x: u64|
                0 <= c < collections@.len() && #[trigger] collections@[c].set@.contains(x)
                    ==> is_free(infos@, x) && collections@[c].is_component_of(infos@, geometry, x),
            forall|c: int| 0 <= c < collections@.len()
                ==> (#[trigger] collections@[c]).set@.len() > 0,
            forall|c: int, d: int, x: u64|
                0 <= c < d < collections@.len() && #[trigger] collections@[c].set@.contains(x)
                    ==> !(#[trigger] collections@[d].set@.contains(x)),
        decreases n - i,
    {
        // A node that an earlier walk has reached starts no walk, and no
        // walk starts at an anchor.
        if !dirty[i] && infos[i].active && !infos[i].anchor {
            let ghost dirty_before = dirty@;
            let ghost before = collections@;
            let start = i as u64;
            let component = collect_component(matrix, infos, geometry, i, &mut dirty);
            proof {
                let adj = free_edges(infos@, geometry);
                lemma_reaches_self(adj, start);
                assert(component.set@.contains(start));
                assert(component.set@.len() > 0) by {
                    if component.set@.len() == 0 {
                        component.set@.lemma_len0_is_empty();
                    }
                }
                assert forall|x: u64| component.set@.contains(x) implies is_free(infos@, x)
                    && component.is_component_of(infos@, geometry, x) by {
                    lemma_component_is_free(infos@, geometry, start, x);
                    lemma_component_of_member(infos@, geometry, start, x);
                }
                assert forall|c: int, x: u64|
                    0 <= c < before.len() && #[trigger] before[c].set@.contains(x) implies !(
                component.set@.contains(x)) by {
                    if component.set@.contains(x) {
                        lemma_component_of_member(infos@, geometry, start, x);
                        assert(before[c].is_component_of(infos@, geometry, x));
                        assert(before[c].set@.contains(start));
                        assert(dirty_before[i as int]);
                    }
                }
            }
            collections.push(component);
            proof {
                assert forall|e: int| 0 <= e < n implies (#[trigger] dirty@[e] <==> exists|c: int|
                    0 <= c < collections@.len() && #[trigger] collections@[c].set@.contains(
                        e as u64,
                    )) by {
                    if dirty_before[e] {
                        let c = choose|c: int|
                            0 <= c < before.len() && #[trigger] before[c].set@.contains(e as u64);
                        assert(collections@[c].set@.contains(e as u64));
                    }
                    if component.set@.contains(e as u64) {
                        assert(collections@[before.len() as int].set@.contains(e as u64));
                    }
                    if exists|c: int|
                        0 <= c < collections@.len() && #[trigger] collections@[c].set@.contains(
                            e as u64,
                        ) {
                        let c = choose|c: int|
                            0 <= c < collections@.len() && #[trigger] collections@[c].set@.contains(
                                e as u64,
                            );
                        if c < before.len() {
                            assert(before[c].set@.contains(e as u64));
                        }
                    }
                }
                assert forall|c: int, x: u64|
                    0 <= c < collections@.len() && #[trigger] collections@[c].set@.contains(
                        x,
                    ) implies is_free(infos@, x) && collections@[c].is_component_of(
                    infos@,
                    geometry,
                    x,
                ) by {
                    if c < before.len() {
                        assert(before[c].set@.contains(x));
                    }
                }
                assert forall|c: int, d: int, x: u64|
                    0 <= c < d < collections@.len() && #[trigger] collections@[c].set@.contains(
                        x,
                    ) implies !(#[trigger] collections@[d].set@.contains(x)) by {
                    assert(before[c].set@.contains(x));
                    if d < before.len() {
                        assert(collections@[d] == before[d]);
                    }
                }
            }
        }
        i = i + 1;
    }
    proof {
        assert forall|x: u64| is_free(infos@, x) implies exists|c: int|
            0 <= c < collections@.len() && #[trigger] collections@[c].set@.contains(x) by {
            assert(dirty@[x as int]);
        }
    }
    collections
}

} // verus!
