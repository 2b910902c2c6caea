//! The snap relation of a scene: which parts take part, and which of them
//! snap to which.

use vstd::prelude::*;

use crate::matrix::MAX_NODES;
use crate::matrix::SceneMatrix;
use crate::parts::Geometry;
use crate::parts::StudInfo;
use crate::parts::snaps;
use crate::parts::touch_check;

verus! {

/// What snap detection reads of one entity. Entities that are no parts, that
/// belong to a model already, or that do not stand upright, are not active:
/// they never snap.
#[derive(Clone, Copy, Debug, PartialEq, Eq, Structural)]
pub struct PartInfo {
    pub active: bool,
    pub anchor: bool,
    pub studs: StudInfo,
}

/// The contact test succeeds for the ordered pair `(a, b)`.
pub open spec fn snaps_at(infos: Seq<PartInfo>, geometry: &Geometry, a: int, b: int) -> bool {
    snaps(geometry.contact_at(a, b), infos[a].studs, infos[b].studs)
}

/// Both entities are active and distinct, and not both are anchors.
pub open spec fn may_join(infos: Seq<PartInfo>, a: int, b: int) -> bool {
    &&& 0 <= a < infos.len()
    &&& 0 <= b < infos.len()
    &&& a != b
    &&& infos[a].active
    &&& infos[b].active
    &&& !(infos[a].anchor && infos[b].anchor)
}

/// The entities `a` and `b` are joined by a snap edge: both are active, not
/// both are anchors, and the contact test succeeds for the pair in one order
/// or the other.
pub open spec fn snapped(infos: Seq<PartInfo>, geometry: &Geometry, a: int, b: int) -> bool {
    may_join(infos, a, b) && (snaps_at(infos, geometry, a, b) || snaps_at(infos, geometry, b, a))
}

/// The pair `(x, y)` comes before `(i, j)` in the order in which the scan
/// visits pairs.
pub open spec fn scanned(x: int, y: int, i: int, j: int) -> bool {
    x < i || (x == i && y < j)
}

/// The edge that the scan has made for `a` and `b` by the time it stands at
/// `(i, j)`.
pub open spec fn joined_by(
    infos: Seq<PartInfo>,
    geometry: &Geometry,
    a: int,
    b: int,
    i: int,
    j: int,
) -> bool {
    may_join(infos, a, b) && ((scanned(a, b, i, j) && snaps_at(infos, geometry, a, b)) || (scanned(
        b,
        a,
        i,
        j,
    ) && snaps_at(infos, geometry, b, a)))
}

/// The matrix holds one node per entity, in order, and exactly the snap
/// edges, each flagged where an anchor is one of its end points.
pub open spec fn is_snap_matrix(
    m: &SceneMatrix,
    infos: Seq<PartInfo>,
    geometry: &Geometry,
) -> bool {
    &&& m.wf()
    &&& m.len() == infos.len()
    &&& forall|a: int, b: int| #[trigger] m.linked(a, b) <==> snapped(infos, geometry, a, b)
    &&& forall|a: int, b: int| #[trigger]
        m.linked(a, b) ==> m.flag(a, b) == (infos[a].anchor || infos[b].anchor)
}

/// Builds the snap graph of the scene: tests every ordered pair of active
/// entities and joins those that snap, unless both are anchors.
pub fn snap_matrix(infos: &Vec<PartInfo>, geometry: &Geometry) -> (m: SceneMatrix)
    requires
        infos@.len() <= MAX_NODES,
    ensures
        is_snap_matrix(&m, infos@, geometry),
{
    let n = infos.len();
    let mut graph = SceneMatrix::with_capacity(n);
    let mut k: usize = 0;
    while k < n
        invariant
            n == infos@.len(),
            n <= MAX_NODES,
            k <= n,
            graph.wf(),
            graph.len() == k,
            forall|a: int, b: int| !graph.linked(a, b),
        decreases n - k,
    {
        graph.add_node(k as u64);
        k = k + 1;
    }
    let mut i: usize = 0;
    while i < n
        invariant
            n == infos@.len(),
            i <= n,
            graph.wf(),
            graph.len() == n,
            forall|a: int, b: int| #[trigger]
                graph.linked(a, b) <==> joined_by(infos@, geometry, a, b, i as int, 0),
            forall|a: int, b: int| #[trigger]
                graph.linked(a, b) ==> graph.flag(a, b) == (infos@[a].anchor || infos@[b].anchor),
        decreases n - i,
    {
        let mut j: usize = 0;
        while j < n
            invariant
                n == infos@.len(),
                i < n,
                j <= n,
                graph.wf(),
                graph.len() == n,
                forall|a: int, b: int| #[trigger]
                    graph.linked(a, b) <==> joined_by(infos@, geometry, a, b, i as int, j as int),
                forall|a: int, b: int| #[trigger]
                    graph.linked(a, b) ==> graph.flag(a, b) == (infos@[a].anchor
                        || infos@[b].anchor),
            decreases n - j,
        {
            let ghost before = graph;
            let ghost mut added = false;
            if j != i && infos[i].active && infos[j].active && !graph.has_edge(i, j) {
                let part_a = &infos[i];
                let part_b = &infos[j];
                let contact = geometry.contact(i, j);
                let check = touch_check(&contact, &part_a.studs, &part_b.studs);
                // Two anchors make no model, so no edge joins them.
                if check && !(part_a.anchor && part_b.anchor) {
                    graph.add_edge(i, j, part_a.anchor || part_b.anchor);
                    proof {
                        added = true;
                    }
                }
            }
            proof {
                before.lemma_linked();
                let (ii, jj) = (i as int, j as int);
                assert(before.linked(ii, jj) <==> joined_by(infos@, geometry, ii, jj, ii, jj));
                assert(before.linked(jj, ii) <==> joined_by(infos@, geometry, jj, ii, ii, jj));
                assert(added <==> !before.linked(ii, jj) && may_join(infos@, ii, jj) && snaps_at(
                    infos@,
                    geometry,
                    ii,
                    jj,
                ));
                assert forall|a: int, b: int| #[trigger]
                    graph.linked(a, b) <==> joined_by(infos@, geometry, a, b, ii, jj + 1) by {
                    assert(before.linked(a, b) <==> joined_by(infos@, geometry, a, b, ii, jj));
                    let hit = crate::matrix::pair_key(a, b) == crate::matrix::pair_key(ii, jj);
                    assert(hit <==> (a == ii && b == jj) || (a == jj && b == ii));
                    assert(graph.linked(a, b) == (before.linked(a, b) || (added && hit)));
                    if !hit {
                        assert(scanned(a, b, ii, jj + 1) == scanned(a, b, ii, jj));
                        assert(scanned(b, a, ii, jj + 1) == scanned(b, a, ii, jj));
                    }
                }
                assert forall|a: int, b: int| #[trigger] graph.linked(a, b) implies graph.flag(a, b)
                    == (infos@[a].anchor || infos@[b].anchor) by {
                    let hit = crate::matrix::pair_key(a, b) == crate::matrix::pair_key(ii, jj);
                    assert(hit <==> (a == ii && b == jj) || (a == jj && b == ii));
                    if added && hit {
                    } else {
                        assert(graph.flag(a, b) == before.flag(a, b));
                        assert(before.linked(a, b));
                    }
                }
            }
            j = j + 1;
        }
        proof {
            assert forall|a: int, b: int| #[trigger]
                graph.linked(a, b) <==> joined_by(infos@, geometry, a, b, i as int + 1, 0) by {
                assert(graph.linked(a, b) <==> joined_by(
                    infos@,
                    geometry,
                    a,
                    b,
                    i as int,
                    n as int,
                ));
            }
        }
        i = i + 1;
    }
    proof {
        assert forall|a: int, b: int| #[trigger]
            graph.linked(a, b) <==> snapped(infos@, geometry, a, b) by {
            assert(graph.linked(a, b) <==> joined_by(infos@, geometry, a, b, n as int, 0));
        }
    }
    graph
}

} // verus!
