//! What holds of building, of every sound world, and of the release of
//! parts and models when their anchors go.

use vstd::prelude::*;

use crate::components::anchor_edge;
use crate::components::component_of;
use crate::components::free_edges;
use crate::components::is_free;
use crate::model::piece_of;
use crate::model_graph::anchors_holding;
use crate::model_graph::anchors_of_group;
use crate::model_graph::anchors_touching;
use crate::model_graph::built;
use crate::model_graph::child_split;
use crate::model_graph::member_built;
use crate::model_graph::model_split;
use crate::model_graph::scene_infos;
use crate::parts::Geometry;
use crate::paths::lemma_reaches_self;
use crate::paths::reaches;
use crate::physics::BodyPose;
use crate::physics::RigidBodyType;
use crate::physics::ShapeHandle;
use crate::physics::ShapeOffset;
use crate::physics_state::bodies_follow_anchors;
use crate::setup::child_attached;
use crate::setup::collider_of_embodied;
use crate::setup::has_body;
use crate::setup::in_bodiless_model;
use crate::setup::model_embodied;
use crate::setup::models_embodied;
use crate::setup::parts_set_up;
use crate::transform::anchors_lost_by_model;
use crate::transform::body_let_loose;
use crate::transform::drained;
use crate::transform::lost_by;
use crate::transform::models_loosened;
use crate::transform::released;
use crate::world::World;

verus! {

/// Two free parts share a model after building if and only if a chain of
/// snap edges that passes through no anchor connects them.
pub proof fn lemma_share_model_iff_connected(
    before: &World,
    after: &World,
    geometry: &Geometry,
    a: u64,
    b: u64,
)
    requires
        after.wf(),
        built(before, after, geometry),
        is_free(scene_infos(before, geometry), a),
        is_free(scene_infos(before, geometry), b),
        a != b,
    ensures
        (after.part(a).child_of is Some && after.part(a).child_of == after.part(b).child_of)
            <==> reaches(free_edges(scene_infos(before, geometry), geometry), a, b),
{
    let infos = scene_infos(before, geometry);
    let adj = free_edges(infos, geometry);
    let free = Set::new(|e: u64| is_free(infos, e));
    assert(free.contains(a) && free.contains(b));
    assert(member_built(before, after, infos, geometry, a));
    assert(member_built(before, after, infos, geometry, b));
    if reaches(adj, a, b) {
        assert(component_of(infos, geometry, a).contains(b));
        let m = after.part(a).child_of->0;
        assert(after.part(a).child_of is Some);
        assert(after.model_wf(m));
        assert(after.model(m).model.graph.nodes().contains(b));
        assert(after.is_child(b, m));
    }
    if after.part(a).child_of is Some && after.part(a).child_of == after.part(b).child_of {
        lemma_reaches_self(adj, b);
        assert(component_of(infos, geometry, b).contains(b));
        assert(component_of(infos, geometry, a).contains(b));
    }
}

/// An anchor is never the child of a model and never has a body.
pub proof fn lemma_anchor_exclusive(world: &World, e: u64)
    requires
        world.wf(),
        world.is_part(e),
        world.part(e).anchor,
    ensures
        world.part(e).child_of is None,
        world.part(e).body is None,
        forall|m: u64| world.is_model(m) ==> !world.model(m).model.graph.nodes().contains(e),
{
    assert(world.part_wf(e));
    assert forall|m: u64| world.is_model(m) implies !world.model(m).model.graph.nodes().contains(
        e,
    ) by {
        if world.model(m).model.graph.nodes().contains(e) {
            assert(world.model_wf(m));
            assert(world.is_child(e, m));
        }
    }
}

/// Every key that building adds to the anchor table is an anchor, before
/// and after, and some free part snaps to it.
pub proof fn lemma_new_keys_are_anchors(
    before: &World,
    after: &World,
    geometry: &Geometry,
    k: u64,
)
    requires
        built(before, after, geometry),
        after.anchors.anchors@.dom().contains(k),
        !before.anchors.anchors@.dom().contains(k),
    ensures
        before.is_part(k),
        before.part(k).anchor,
        after.is_part(k),
        after.part(k).anchor,
        exists|x: u64|
            is_free(scene_infos(before, geometry), x) && #[trigger] anchor_edge(
                scene_infos(before, geometry),
                geometry,
                x,
                k,
            ),
{
    let infos = scene_infos(before, geometry);
    let free = Set::new(|e: u64| is_free(infos, e));
    assert(anchors_of_group(infos, geometry, free).contains(k));
    let x = choose|x: u64| free.contains(x) && anchor_edge(infos, geometry, x, k);
    assert(is_free(infos, x) && anchor_edge(infos, geometry, x, k));
    assert(!free.contains(k));
    assert(after.entities@[k as int] == before.entities@[k as int]);
}

/// Every part that building lists under an anchor is a free part that snaps
/// to the anchor, and no anchor itself.
pub proof fn lemma_new_dependents_are_no_anchors(
    before: &World,
    after: &World,
    geometry: &Geometry,
    k: u64,
    x: u64,
)
    requires
        built(before, after, geometry),
        after.anchors.lists(k, x),
        !before.anchors.lists(k, x),
    ensures
        is_free(scene_infos(before, geometry), x),
        anchor_edge(scene_infos(before, geometry), geometry, x, k),
        after.is_part(x),
        !after.part(x).anchor,
        after.part(x).anchor_set().contains(k),
{
    let infos = scene_infos(before, geometry);
    let free = Set::new(|e: u64| is_free(infos, e));
    assert(free.contains(x) && anchor_edge(infos, geometry, x, k));
    assert(member_built(before, after, infos, geometry, x));
    assert(anchors_touching(infos, geometry, x).contains(k));
}

/// A part that has lost its model is no anchor: the children of a model
/// never are.
pub proof fn lemma_children_are_no_anchors(world: &World, c: u64, m: u64)
    requires
        world.wf(),
        world.is_child(c, m),
    ensures
        !world.part(c).anchor,
{
    assert(world.part_wf(c));
}

/// When a model is split, an anchor of the model that holds one of its
/// children goes on holding the child, and the new model that takes the
/// child in has the anchor among its own.
pub proof fn lemma_split_keeps_anchor(before: &World, after: &World, m: u64, x: u64, k: u64)
    requires
        before.wf(),
        before.is_model(m),
        model_split(before, after, m),
        before.model(m).model.graph.nodes().contains(x),
        before.model(m).model.anchors@.contains(k),
        before.part(x).anchor_set().contains(k),
    ensures
        after.is_part(x),
        after.part(x).anchor_set().contains(k),
        after.part(x).child_of matches Some(m2) ==> after.is_model(m2) && after.model(
            m2,
        ).model.anchors@.contains(k),
{
    assert(child_split(before, after, m, x));
    lemma_reaches_self(before.model(m).model.graph.adjacency(), x);
    let piece = piece_of(&before.model(m).model.graph, x);
    assert(piece.contains(x) && before.part(x).anchor_set().contains(k));
    assert(anchors_holding(before, piece, before.model(m).model.anchors@).contains(k));
}

/// When a model is split, a new model has only anchors of the old one that
/// hold a part of its piece: a piece that no anchor of the old model holds
/// gives a model without anchors.
pub proof fn lemma_split_anchors_held(before: &World, after: &World, m: u64, x: u64, k: u64)
    requires
        before.wf(),
        before.is_model(m),
        model_split(before, after, m),
        before.model(m).model.graph.nodes().contains(x),
        after.part(x).child_of is Some,
        after.model(after.part(x).child_of->0).model.anchors@.contains(k),
    ensures
        before.model(m).model.anchors@.contains(k),
        exists|y: u64| #[trigger]
            piece_of(&before.model(m).model.graph, x).contains(y) && before.part(
                y,
            ).anchor_set().contains(k),
{
    let piece = piece_of(&before.model(m).model.graph, x);
    assert(child_split(before, after, m, x));
    assert(anchors_holding(before, piece, before.model(m).model.anchors@).contains(k));
}

/// In a sound world every part that has the component naming its anchors
/// is held by at least one anchor; every part under a model is a node of
/// the graph of that model and of no other; and every node of the graph of
/// a model is a part under that model.
pub proof fn lemma_invariant_closure(world: &World)
    requires
        world.wf(),
    ensures
        forall|x: u64| #[trigger]
            world.is_part(x) && world.part(x).anchored is Some ==> world.part(x).anchor_set().len()
                > 0,
        forall|x: u64, m: u64| #[trigger]
            world.is_child(x, m) ==> world.is_model(m)
                && world.model(m).model.graph.nodes().contains(
                x,
            ),
        forall|x: u64, m: u64|
            world.is_model(m) && #[trigger] world.model(m).model.graph.nodes().contains(x)
                ==> world.is_child(x, m),
        forall|x: u64, m1: u64, m2: u64|
            world.is_model(m1) && world.is_model(m2) && #[trigger] world.model(
                m1,
            ).model.graph.nodes().contains(x)
                && #[trigger] world.model(m2).model.graph.nodes().contains(x)
                ==> m1 == m2,
{
    assert forall|x: u64| #[trigger]
        world.is_part(x) && world.part(x).anchored is Some implies world.part(x).anchor_set().len()
        > 0 by {
        assert(world.part_wf(x));
    }
    assert forall|x: u64, m: u64| #[trigger] world.is_child(x, m) implies world.is_model(m)
        && world.model(m).model.graph.nodes().contains(x) by {
        assert(world.part_wf(x));
    }
    assert forall|x: u64, m: u64|
        world.is_model(m) && #[trigger] world.model(m).model.graph.nodes().contains(
            x,
        ) implies world.is_child(x, m) by {
        assert(world.model_wf(m));
    }
    assert forall|x: u64, m1: u64, m2: u64|
        world.is_model(m1) && world.is_model(m2) && #[trigger] world.model(
            m1,
        ).model.graph.nodes().contains(x)
            && #[trigger] world.model(m2).model.graph.nodes().contains(
            x,
        ) implies m1 == m2 by {
        assert(world.model_wf(m1));
        assert(world.model_wf(m2));
        assert(world.is_child(x, m1));
        assert(world.is_child(x, m2));
    }
}

/// A part that an anchor still holds after the drain, because that anchor
/// was not queued or did not list the part, stays as it is but for the
/// anchors that it lost: it keeps the component that names its anchors,
/// with exactly the anchors that are left, and if it stands on its own its
/// body moves as before.
pub proof fn lemma_held_until_all_gone(before: &World, after: &World, x: u64, k: u64)
    requires
        before.wf(),
        drained(before, after),
        before.is_part(x),
        before.part(x).anchor_set().contains(k),
        !lost_by(before, x).contains(k),
    ensures
        after.is_part(x),
        after.part(x).anchored is Some,
        after.part(x).anchor_set() == before.part(x).anchor_set().difference(lost_by(before, x)),
        after.part(x).anchor_set().contains(k),
        after.part(x).body == before.part(x).body,
        before.part(x).body matches Some(h) ==> after.physics.body(h) == before.physics.body(h),
{
    assert(before.part_wf(x));
    assert(!released(before, x));
    if before.part(x).body is Some {
        let h = before.part(x).body->0;
        assert(before.physics.body(h) is Some);
        assert(!body_let_loose(before, h)) by {
            if body_let_loose(before, h) {
                let y = choose|y: u64| #[trigger]
                    released(before, y) && before.part(y).child_of is None && before.part(y).body
                        == Some(h);
                assert(before.part_wf(y));
                assert(y == x);
            }
        }
    }
}

/// A part that only queued anchors held, each of which listed it, is
/// released by the drain: it loses the component that names its anchors,
/// and if it stands on its own its body is dynamic afterwards.
pub proof fn lemma_released_when_all_gone(before: &World, after: &World, x: u64)
    requires
        before.wf(),
        drained(before, after),
        before.is_part(x),
        before.part(x).anchored is Some,
        before.part(x).anchor_set().subset_of(lost_by(before, x)),
    ensures
        after.is_part(x),
        after.part(x).anchored is None,
        after.part(x).anchor_set() == Set::<u64>::empty(),
        before.part(x).child_of is None ==> (before.part(x).body matches Some(h)
            ==> after.physics.body(h) matches Some(b) && b.body_type == RigidBodyType::Dynamic),
{
    assert(before.part_wf(x));
    let set = before.part(x).anchor_set();
    let k = set.choose();
    assert(set.contains(k)) by {
        if !set.contains(k) {
            assert(set =~= Set::<u64>::empty()) by {
                assert forall|y: u64| !set.contains(y) by {
                    if set.contains(y) {
                        assert(set.contains(set.choose()));
                    }
                }
            }
        }
    }
    let lost = lost_by(before, x);
    assert(lost.contains(k));
    assert(lost.subset_of(set)) by {
        assert forall|a: u64| lost.contains(a) implies set.contains(a) by {
            assert(before.anchors.lists(a, x));
        }
    }
    vstd::set_lib::lemma_len_subset(lost, set);
    assert(lost.len() > 0) by {
        if lost.len() == 0 {
            lost.lemma_len0_is_empty();
        }
    }
    assert(released(before, x));
    assert(after.part(x).anchor_set() =~= Set::<u64>::empty());
    if before.part(x).child_of is None && before.part(x).body is Some {
        let h = before.part(x).body->0;
        assert(before.physics.body(h) is Some);
        assert(body_let_loose(before, h));
    }
}

/// A free part that no anchor held before and that snaps to anchors is
/// held by exactly these anchors after building; and if it has become the
/// child of a model, the model has these anchors among its own.
pub proof fn lemma_anchor_propagates(
    before: &World,
    after: &World,
    geometry: &Geometry,
    a: u64,
    x: u64,
)
    requires
        before.wf(),
        built(before, after, geometry),
        is_free(scene_infos(before, geometry), a),
        before.part(a).anchored is None,
        anchors_touching(scene_infos(before, geometry), geometry, a).contains(x),
    ensures
        after.is_part(a),
        after.part(a).anchored is Some,
        after.part(a).anchor_set() == anchors_touching(scene_infos(before, geometry), geometry, a),
        after.part(a).child_of matches Some(m) ==> after.model(m).model.anchors@.contains(x),
{
    let infos = scene_infos(before, geometry);
    let free = Set::new(|e: u64| is_free(infos, e));
    assert(free.contains(a));
    assert(member_built(before, after, infos, geometry, a));
    let touching = anchors_touching(infos, geometry, a);
    assert(infos[a as int].active);
    assert(before.is_part(a));
    assert(before.part_wf(a));
    assert(touching.subset_of(after.part(a).anchor_set()));
    assert(after.part(a).anchor_set() =~= touching);
    if touching.len() == 0 {
        assert(after.part(a).anchor_set().finite());
        touching.lemma_len0_is_empty();
    }
    if after.part(a).child_of is Some {
        lemma_reaches_self(free_edges(infos, geometry), a);
        assert(component_of(infos, geometry, a).contains(a));
    }
}

/// The model `m` has a body, which is fixed exactly if the model had
/// anchors before.
pub open spec fn body_fixed_iff_held(before: &World, after: &World, m: u64) -> bool {
    match after.model(m).body {
        Some(h) => match after.physics.body(h) {
            Some(b) => b.body_type == RigidBodyType::Fixed
                <==> !before.model(m).model.anchors@.is_empty(),
            None => false,
        },
        None => false,
    }
}

/// At scene build a part on its own that anchors hold gets a fixed body,
/// and a model gets a fixed body exactly if anchors hold it.
pub proof fn lemma_held_is_fixed(before: &World, mid: &World, after: &World)
    requires
        before.wf(),
        parts_set_up(before, mid, true, before.entities@.len() as int),
        models_embodied(mid, after, ShapeOffset::Authored, mid.entities@.len() as int),
    ensures
        forall|e: u64| #[trigger]
            before.is_part(e) && before.part(e).child_of is None && before.part(e).shape is None
                && before.part(e).body is None && !before.part(e).anchor ==> has_body(
                mid,
                e,
                if before.part(e).anchored is Some {
                    RigidBodyType::Fixed
                } else {
                    RigidBodyType::Dynamic
                },
                BodyPose::Authored,
                None,
            ),
        forall|m: u64| #[trigger]
            mid.is_model(m) && mid.model(m).body is None ==> body_fixed_iff_held(mid, after, m),
{
    assert forall|e: u64| #[trigger]
        before.is_part(e) && before.part(e).child_of is None && before.part(e).shape is None
            && before.part(e).body is None && !before.part(e).anchor implies has_body(
        mid,
        e,
        if before.part(e).anchored is Some {
            RigidBodyType::Fixed
        } else {
            RigidBodyType::Dynamic
        },
        BodyPose::Authored,
        None,
    ) by {
        assert(crate::setup::awaits_setup(before.entities@[e as int], true));
    }
    assert forall|m: u64| #[trigger]
        mid.is_model(m) && mid.model(m).body is None implies body_fixed_iff_held(mid, after, m) by {
        assert(model_embodied(after, m, ShapeOffset::Authored));
    }
}

/// Where every collider sat on a body of the ledger, if on any, the
/// colliders on the body that a model gets are those of its children and no
/// others: a collider on that body is the one that its owner goes by, and
/// its owner is a child of the model.
pub proof fn lemma_only_children_on_new_body(
    before: &World,
    after: &World,
    offset: ShapeOffset,
    m: u64,
    s: ShapeHandle,
)
    requires
        before.wf(),
        after.wf(),
        models_embodied(before, after, offset, before.entities@.len() as int),
        before.is_model(m),
        before.model(m).body is None,
        forall|q: ShapeHandle| #[trigger]
            before.physics.collider(q) is Some ==> (before.physics.collider(q)->0.parent matches Some(
                h,
            ) ==> h.0 < before.physics.rigid_bodies@.len()),
        after.physics.collider(s) is Some,
        after.physics.collider(s)->0.parent == after.model(m).body,
    ensures
        after.is_child(after.physics.collider(s)->0.owner, m),
        after.part(after.physics.collider(s)->0.owner).shape == Some(s),
{
    let h = after.model(m).body->0;
    assert(model_embodied(after, m, offset));
    if s.0 < before.physics.colliders@.len() {
        assert(before.physics.collider(s) is Some);
        assert(after.physics.collider(s) == before.physics.collider(s));
    } else {
        assert(collider_of_embodied(before, after, s, before.entities@.len() as int));
        let c = choose|c: u64|
            before.is_part(c) && in_bodiless_model(before, c, before.entities@.len() as int) && (
            #[trigger] after.part(c)).shape == Some(s);
        let m2 = before.part(c).child_of->0;
        assert(before.part_wf(c));
        assert(before.is_model(m2));
        assert(model_embodied(after, m2, offset));
        let h2 = after.model(m2).body->0;
        assert(after.model(m2).model.graph.nodes().contains(c));
        assert(child_attached(after, c, h2, offset));
        assert(h2 == h);
        assert(after.physics.body(h)->0.user_data == m);
        assert(after.physics.body(h2)->0.user_data == m2);
    }
}

/// A model all of whose anchors are lost to the drain has none left, and
/// after the models that nothing holds have been released its body is
/// dynamic.
pub proof fn lemma_model_released(before: &World, mid: &World, after: &World, m: u64)
    requires
        before.wf(),
        drained(before, mid),
        models_loosened(mid, after),
        before.is_model(m),
        before.model(m).model.anchors@.subset_of(anchors_lost_by_model(before, m)),
    ensures
        after.is_model(m),
        after.model(m).model.anchors@ == Set::<u64>::empty(),
        before.model(m).body matches Some(h) ==> (after.physics.body(h) matches Some(b)
            && b.body_type == RigidBodyType::Dynamic),
{
    assert(mid.is_model(m));
    assert(mid.model(m).model.anchors@ =~= Set::<u64>::empty());
    if before.model(m).body is Some {
        let h = before.model(m).body->0;
        assert(before.physics.body(h) is Some);
        assert(mid.physics.body(h) is Some);
        assert(crate::transform::body_of_free_model(mid, h)) by {
            assert(mid.is_model(m) && mid.model(m).model.anchors@.is_empty() && mid.model(m).body
                == Some(h));
        }
    }
}

/// Building leaves the bodies of the models as they follow the anchors:
/// the models that there were stay as they are, and the new ones have no
/// body yet.
pub proof fn lemma_build_follows(before: &World, after: &World, geometry: &Geometry)
    requires
        before.wf(),
        built(before, after, geometry),
        bodies_follow_anchors(before),
    ensures
        bodies_follow_anchors(after),
{
    let infos = scene_infos(before, geometry);
    let free = Set::new(|e: u64| is_free(infos, e));
    assert forall|m: u64| #[trigger] after.is_model(m) implies match after.model(m).body {
        Some(h) => match after.physics.body(h) {
            Some(b) => b.body_type == crate::setup::model_kind(&after.model(m).model),
            None => false,
        },
        None => true,
    } by {
        if m < before.entities@.len() {
            if free.contains(m) {
                assert(member_built(before, after, infos, geometry, m));
            } else {
                assert(after.entities@[m as int] == before.entities@[m as int]);
                assert(before.is_model(m));
            }
        } else {
            let e = choose|e: u64| free.contains(e) && after.part(e).child_of == Some(m);
            assert(member_built(before, after, infos, geometry, e));
        }
    }
}

} // verus!
