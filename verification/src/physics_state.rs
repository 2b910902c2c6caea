//! The passes over a world in their order, and the read-back of poses.

use vstd::prelude::*;

use crate::model_graph::all_models_whole;
use crate::model_graph::child_split;
use crate::model_graph::handle_model_transform;
use crate::model_graph::body_of_split_model;
use crate::model_graph::in_split_model;
use crate::model_graph::needs_split;
use crate::model_graph::transformed;
use crate::physics::BodyHandle;
use crate::physics::PhysicsState;
use crate::physics::ShapeHandle;
use crate::physics::ShapeOffset;
use crate::setup::all_children_have_colliders;
use crate::setup::awaits_setup;
use crate::setup::model_embodied;
use crate::setup::model_kind;
use crate::setup::models_embodied;
use crate::setup::parts_set_up;
use crate::setup::setup_models;
use crate::setup::setup_parts;
use crate::transform::drained;
use crate::transform::body_let_loose;
use crate::transform::body_of_free_model;
use crate::transform::body_of_untagged;
use crate::transform::free_model_without_body;
use crate::transform::released;
use crate::transform::handle_anchor_queue;
use crate::transform::handle_model_unanchor;
use crate::transform::handle_part_unanchor;
use crate::transform::handle_submodel;
use crate::transform::handle_subpart;
use crate::transform::models_loosened;
use crate::transform::orphan_upto;
use crate::transform::orphans_embodied;
use crate::transform::parts_loosened;
use crate::world::Entry;
use crate::world::MAX_ENTITIES;
use crate::world::PassError;
use crate::world::World;

verus! {

/// Where the pose of an entity is read from after a step.
#[derive(Clone, Copy, Debug, PartialEq, Eq, Structural)]
pub enum PoseSource {
    /// From the body: the entity is a part on its own.
    Body(BodyHandle),
    /// From the collider: the entity is a child of a model, and shares the
    /// body of the model with the other children.
    Collider(ShapeHandle),
}

/// One pose to copy into the position and rotation of an entity.
#[derive(Clone, Copy, Debug, PartialEq, Eq, Structural)]
pub struct PoseCopy {
    pub entity: u64,
    pub source: PoseSource,
}

/// The copy for the child `c`, if it is a part under a model that has a
/// collider.
pub open spec fn child_copy(world: &World, c: u64) -> Seq<PoseCopy> {
    if world.is_part(c) && world.part(c).child_of is Some && world.part(c).shape is Some {
        seq![PoseCopy { entity: c, source: PoseSource::Collider(world.part(c).shape->0) }]
    } else {
        Seq::empty()
    }
}

/// The copies for the children of a model, in the order of the children.
pub open spec fn children_copies(world: &World, children: Seq<u64>) -> Seq<PoseCopy>
    decreases children.len(),
{
    if children.len() == 0 {
        Seq::empty()
    } else {
        children_copies(world, children.drop_last()) + child_copy(world, children.last())
    }
}

/// The copies that one awake body gives rise to: the owner of the body is
/// found by the tag of the body. A part on its own reads its pose from the
/// body; under a model each child reads its pose from its own collider. A
/// body that does not exist, or whose owner is neither, gives none.
pub open spec fn body_copies(world: &World, h: BodyHandle) -> Seq<PoseCopy> {
    match world.physics.body(h) {
        Some(b) => {
            let e = b.user_data;
            if world.is_part(e) && world.part(e).child_of is None {
                seq![PoseCopy { entity: e, source: PoseSource::Body(h) }]
            } else if world.is_model(e) {
                children_copies(world, world.model(e).children@)
            } else {
                Seq::empty()
            }
        },
        None => Seq::empty(),
    }
}

/// The copies that the awake bodies give rise to, in their order.
pub open spec fn all_copies(world: &World, awake: Seq<BodyHandle>) -> Seq<PoseCopy>
    decreases awake.len(),
{
    if awake.len() == 0 {
        Seq::empty()
    } else {
        all_copies(world, awake.drop_last()) + body_copies(world, awake.last())
    }
}

impl PhysicsState {
    /// Says for every awake body which poses are to be copied back into
    /// which entities.
    pub fn update_bricks(world: &World, awake: &Vec<BodyHandle>) -> (copies: Vec<PoseCopy>)
        ensures
            copies@ == all_copies(world, awake@),
    {
        let mut copies: Vec<PoseCopy> = Vec::new();
        let mut i: usize = 0;
        while i < awake.len()
            invariant
                i <= awake@.len(),
                copies@ == all_copies(world, awake@.take(i as int)),
            decreases awake@.len() - i,
        {
            let h = awake[i];
            let ghost before = copies@;
            proof {
                assert(awake@.take(i as int + 1).drop_last() =~= awake@.take(i as int));
                assert(awake@.take(i as int + 1).last() == h);
            }
            match world.physics.get_body(h) {
                Some(body) => {
                    let e = body.user_data;
                    if e < world.entities.len() as u64 {
                        let at = world.slot(e);
                        match &world.entities[at] {
                            Entry::Part(p) => {
                                if p.child_of.is_none() {
                                    copies.push(PoseCopy { entity: e,
                                        source: PoseSource::Body(h) });
                                    proof {
                                        assert(copies@ =~= before + body_copies(world, h));
                                    }
                                } else {
                                    proof {
                                        assert(copies@ =~= before + body_copies(world, h));
                                    }
                                }
                            },
                            Entry::Model(m) => {
                                let mut j: usize = 0;
                                proof {
                                    assert(m.children@.take(0) =~= Seq::<u64>::empty());
                                    assert(copies@ =~= before + children_copies(
                                        world,
                                        m.children@.take(0),
                                    ));
                                }
                                while j < m.children.len()
                                    invariant
                                        j <= m.children@.len(),
                                        copies@ == before + children_copies(
                                            world,
                                            m.children@.take(j as int),
                                        ),
                                    decreases m.children@.len() - j,
                                {
                                    let c = m.children[j];
                                    let ghost mid = copies@;
                                    proof {
                                        assert(m.children@.take(j as int + 1).drop_last()
                                            =~= m.children@.take(j as int));
                                        assert(m.children@.take(j as int + 1).last() == c);
                                    }
                                    if c < world.entities.len() as u64 {
                                        let slot = world.slot(c);
                                        match &world.entities[slot] {
                                            Entry::Part(p) => {
                                                if p.child_of.is_some() {
                                                    match p.shape {
                                                        Some(s) => {
                                                            copies.push(
                                                                PoseCopy {
                                                                    entity: c,
                                                                    source: PoseSource::Collider(s),
                                                                },
                                                            );
                                                        },
                                                        None => {},
                                                    }
                                                }
                                            },
                                            _ => {},
                                        }
                                    }
                                    proof {
                                        assert(copies@ =~= mid + child_copy(world, c));
                                        assert(copies@ =~= before + children_copies(
                                            world,
                                            m.children@.take(j as int + 1),
                                        ));
                                    }
                                    j = j + 1;
                                }
                                proof {
                                    assert(m.children@.take(m.children@.len() as int)
                                        =~= m.children@);
                                }
                            },
                            Entry::Vacant => {
                                proof {
                                    assert(copies@ =~= before + body_copies(world, h));
                                }
                            },
                        }
                    } else {
                        proof {
                            assert(copies@ =~= before + body_copies(world, h));
                        }
                    }
                },
                None => {
                    proof {
                        assert(copies@ =~= before + body_copies(world, h));
                    }
                },
            }
            i = i + 1;
        }
        proof {
            assert(awake@.take(awake@.len() as int) =~= awake@);
        }
        copies
    }
}

/// Every model has a body.
pub open spec fn all_models_embodied(world: &World) -> bool {
    forall|m: u64| #[trigger] world.is_model(m) ==> world.model(m).body is Some
}

/// Every part under a model has a collider.
pub open spec fn all_children_collide(world: &World) -> bool {
    forall|x: u64| #[trigger]
        world.is_part(x) && world.part(x).child_of is Some ==> world.part(x).shape is Some
}

/// No part under a model has a body but no collider: every part under a
/// model either has a collider or can be given one.
pub open spec fn ready(world: &World) -> bool {
    forall|x: u64| #[trigger]
        world.is_part(x) && world.part(x).child_of is Some ==> !(world.part(x).shape is None
            && world.part(x).body is Some)
}

/// The first half of a pass of maintenance, through the worlds between
/// its steps: new parts are set up, parts that have lost their model get
/// bodies, models are split, and the parts that end up alone get bodies.
pub open spec fn split_steps(
    before: &World,
    w1: &World,
    w2: &World,
    w3: &World,
    after: &World,
) -> bool {
    &&& w1.wf() && w2.wf() && w3.wf()
    &&& parts_set_up(before, w1, false, before.entities@.len() as int)
    &&& orphans_embodied(w1, w2, w1.freed@.len() as int)
    &&& transformed(w2, w3, w2.entities@.len() as int)
    &&& orphans_embodied(w3, after, w3.freed@.len() as int)
}

/// The second half of a pass of maintenance, through the worlds between
/// its steps: models get bodies, the anchor queue is drained, and what
/// nothing holds any more is released.
pub open spec fn settle_steps(
    before: &World,
    w5: &World,
    w6: &World,
    w7: &World,
    after: &World,
) -> bool {
    &&& w5.wf() && w6.wf() && w7.wf()
    &&& models_embodied(before, w5, ShapeOffset::KeepWorldPose, before.entities@.len() as int)
    &&& drained(w5, w6)
    &&& parts_loosened(w6, w7)
    &&& models_loosened(w7, after)
}

/// The first half of a pass of maintenance leads from `before` to `after`.
pub open spec fn split_done(before: &World, after: &World) -> bool {
    exists|w1: World, w2: World, w3: World| #[trigger] split_steps(before, &w1, &w2, &w3, after)
}

/// A whole pass of maintenance leads from `before` to `after`: after its
/// first half every child of a model without a body has a collider, and
/// the second half follows.
pub open spec fn maintained(before: &World, after: &World) -> bool {
    exists|w4: World|
        #[trigger] split_done(before, &w4) && w4.wf() && all_children_have_colliders(&w4)
            && exists|w5: World, w6: World, w7: World| #[trigger]
            settle_steps(&w4, &w5, &w6, &w7, after)
}

/// A world at rest after a pass of maintenance: nothing is queued, every
/// model is clean, connected and has a body.
pub open spec fn settled(world: &World) -> bool {
    &&& world.freed@.len() == 0
    &&& world.untagged@.len() == 0
    &&& world.anchors.delete_queue@.len() == 0
    &&& all_models_whole(world)
    &&& all_models_embodied(world)
}

proof fn lemma_set_up_children(before: &World, after: &World)
    requires
        before.wf(),
        ready(before),
        parts_set_up(before, after, false, before.entities@.len() as int),
    ensures
        all_children_collide(after),
{
    assert forall|x: u64| #[trigger] after.is_part(x) && after.part(x).child_of is Some
        implies after.part(
        x,
    ).shape is Some by {
        if awaits_setup(before.entities@[x as int], false) {
            assert(before.is_part(x));
        } else {
            assert(after.entities@[x as int] == before.entities@[x as int]);
            assert(before.is_part(x));
        }
    }
}

proof fn lemma_orphans_keep(before: &World, after: &World)
    requires
        before.wf(),
        orphans_embodied(before, after, before.freed@.len() as int),
    ensures
        all_children_collide(before) ==> all_children_collide(after),
        all_models_whole(before) ==> all_models_whole(after),
        after.entities@.len() == before.entities@.len(),
{
    let n = before.freed@.len() as int;
    assert forall|e: u64| #[trigger] after.is_model(e) implies before.is_model(e)
        && after.entities@[e as int] == before.entities@[e as int] by {
        if orphan_upto(before, e, n) {
            assert(after.is_part(e));
        }
    }
    if all_children_collide(before) {
        assert forall|x: u64| #[trigger] after.is_part(x) && after.part(x).child_of is Some
            implies after.part(
            x,
        ).shape is Some by {
            if orphan_upto(before, x, n) {
            } else {
                assert(after.entities@[x as int] == before.entities@[x as int]);
                assert(before.is_part(x));
            }
        }
    }
}

proof fn lemma_transform_keeps(before: &World, after: &World)
    requires
        before.wf(),
        transformed(before, after, before.entities@.len() as int),
        all_children_collide(before),
    ensures
        all_children_collide(after),
{
    let n = before.entities@.len() as int;
    assert forall|x: u64| #[trigger] after.is_part(x) && after.part(x).child_of is Some
        implies after.part(
        x,
    ).shape is Some by {
        if x < before.entities@.len() {
            if before.is_part(x) {
                if in_split_model(before, x, n) {
                    assert(child_split(before, after, before.part(x).child_of->0, x));
                } else {
                    assert(after.entities@[x as int] == before.entities@[x as int]);
                }
            } else if before.is_model(x) {
                assert(!after.is_part(x));
            } else {
                assert(before.entities@[x as int] is Vacant);
                assert(after.entities@[x as int] is Vacant);
            }
        } else {
            assert(after.is_model(x));
        }
    }
}

proof fn lemma_children_ready(world: &World)
    requires
        world.wf(),
        all_children_collide(world),
    ensures
        all_children_have_colliders(world),
{
    assert forall|m: u64, c: u64|
        world.is_model(m) && world.model(m).body is None && #[trigger] world.model(
            m,
        ).model.graph.nodes().contains(c) implies world.part(c).shape is Some by {
        assert(world.model_wf(m));
        assert(world.is_child(c, m));
        assert(world.is_part(c));
    }
}

proof fn lemma_embodied_keeps(before: &World, after: &World)
    requires
        before.wf(),
        all_models_whole(before),
        models_embodied(
            before,
            after,
            ShapeOffset::KeepWorldPose,
            before.entities@.len() as int,
        ),
    ensures
        all_models_whole(after),
        all_models_embodied(after),
{
    assert forall|m: u64| #[trigger] after.is_model(m) implies before.is_model(m) by {
        if before.is_part(m) {
            assert(after.is_part(m));
        }
        if m < before.entities@.len() && before.entities@[m as int] is Vacant {
            assert(after.entities@[m as int] is Vacant);
        }
    }
    assert forall|m: u64| #[trigger] after.is_model(m) implies !after.model(m).model.dirty
        && after.model(m).model.graph.connected() && after.model(m).body is Some by {
        assert(before.is_model(m));
    }
}

proof fn lemma_drained_keeps(before: &World, after: &World)
    requires
        before.wf(),
        all_models_whole(before),
        all_models_embodied(before),
        drained(before, after),
    ensures
        all_models_whole(after),
        all_models_embodied(after),
{
    assert forall|m: u64| #[trigger] after.is_model(m) implies before.is_model(m) by {
        if before.is_part(m) {
            assert(after.is_part(m));
        }
        if m < before.entities@.len() && before.entities@[m as int] is Vacant {
            assert(after.entities@[m as int] is Vacant);
        }
    }
    assert forall|m: u64| #[trigger] after.is_model(m) implies !after.model(m).model.dirty
        && after.model(m).model.graph.connected() && after.model(m).body is Some by {
        assert(before.is_model(m));
    }
}

/// The body of every model that has one moves as the anchors of the model
/// call for: it is fixed while anchors hold the model, and dynamic
/// otherwise.
pub open spec fn bodies_follow_anchors(world: &World) -> bool {
    forall|m: u64| #[trigger]
        world.is_model(m) ==> match world.model(m).body {
            Some(h) => match world.physics.body(h) {
                Some(b) => b.body_type == model_kind(&world.model(m).model),
                None => false,
            },
            None => true,
        }
}

proof fn lemma_set_up_follows(before: &World, after: &World, at_build: bool)
    requires
        before.wf(),
        bodies_follow_anchors(before),
        parts_set_up(before, after, at_build, before.entities@.len() as int),
    ensures
        bodies_follow_anchors(after),
{
    assert forall|m: u64| #[trigger] after.is_model(m) implies match after.model(m).body {
        Some(h) => match after.physics.body(h) {
            Some(b) => b.body_type == model_kind(&after.model(m).model),
            None => false,
        },
        None => true,
    } by {
        if awaits_setup(before.entities@[m as int], at_build) {
            assert(after.is_part(m));
        }
        assert(after.entities@[m as int] == before.entities@[m as int]);
        assert(before.is_model(m));
        if before.model(m).body is Some {
            let h = before.model(m).body->0;
            assert(before.physics.body(h) is Some);
            assert(after.physics.rigid_bodies@.take(before.physics.rigid_bodies@.len() as int)[h.0 as int]
                == after.physics.rigid_bodies@[h.0 as int]);
        }
    }
}

proof fn lemma_orphans_follow(before: &World, after: &World)
    requires
        before.wf(),
        bodies_follow_anchors(before),
        orphans_embodied(before, after, before.freed@.len() as int),
    ensures
        bodies_follow_anchors(after),
{
    let n = before.freed@.len() as int;
    assert forall|m: u64| #[trigger] after.is_model(m) implies match after.model(m).body {
        Some(h) => match after.physics.body(h) {
            Some(b) => b.body_type == model_kind(&after.model(m).model),
            None => false,
        },
        None => true,
    } by {
        if orphan_upto(before, m, n) {
            assert(after.is_part(m));
        }
        assert(after.entities@[m as int] == before.entities@[m as int]);
        assert(before.is_model(m));
        if before.model(m).body is Some {
            assert(before.physics.body(before.model(m).body->0) is Some);
        }
    }
}

proof fn lemma_transform_follows(before: &World, after: &World)
    requires
        before.wf(),
        bodies_follow_anchors(before),
        transformed(before, after, before.entities@.len() as int),
    ensures
        bodies_follow_anchors(after),
{
    let n = before.entities@.len() as int;
    assert forall|m: u64| #[trigger] after.is_model(m) implies match after.model(m).body {
        Some(h) => match after.physics.body(h) {
            Some(b) => b.body_type == model_kind(&after.model(m).model),
            None => false,
        },
        None => true,
    } by {
        if m < before.entities@.len() {
            if before.is_part(m) {
                if in_split_model(before, m, n) {
                    assert(child_split(before, after, before.part(m).child_of->0, m));
                }
                assert(after.is_part(m));
            }
            if before.entities@[m as int] is Vacant {
                assert(after.entities@[m as int] is Vacant);
            }
            assert(before.is_model(m));
            assert(after.entities@[m as int] == before.entities@[m as int]);
            if before.model(m).body is Some {
                let h = before.model(m).body->0;
                assert(before.physics.body(h) is Some);
                assert(!body_of_split_model(before, h, n)) by {
                    if body_of_split_model(before, h, n) {
                        let q = choose|q: u64|
                            q < n && #[trigger] needs_split(before, q) && before.model(q).body
                                == Some(h);
                        assert(before.is_model(q));
                        assert(q == m);
                    }
                }
            }
        } else {
            let x = choose|x: u64|
                in_split_model(before, x, n) && after.part(x).child_of == Some(m);
            assert(before.is_part(x));
            assert(child_split(before, after, before.part(x).child_of->0, x));
        }
    }
}

proof fn lemma_embodied_follows(before: &World, after: &World, offset: ShapeOffset)
    requires
        before.wf(),
        bodies_follow_anchors(before),
        models_embodied(before, after, offset, before.entities@.len() as int),
    ensures
        bodies_follow_anchors(after),
{
    assert forall|m: u64| #[trigger] after.is_model(m) implies match after.model(m).body {
        Some(h) => match after.physics.body(h) {
            Some(b) => b.body_type == model_kind(&after.model(m).model),
            None => false,
        },
        None => true,
    } by {
        if before.is_part(m) {
            assert(after.is_part(m));
        }
        if m < before.entities@.len() && before.entities@[m as int] is Vacant {
            assert(after.entities@[m as int] is Vacant);
        }
        assert(before.is_model(m));
        if before.model(m).body is None {
            assert(model_embodied(after, m, offset));
        } else {
            assert(before.physics.body(before.model(m).body->0) is Some);
        }
    }
}

proof fn lemma_release_follows(before: &World, w6: &World, w7: &World, after: &World)
    requires
        before.wf(),
        w6.wf(),
        w7.wf(),
        bodies_follow_anchors(before),
        drained(before, w6),
        parts_loosened(w6, w7),
        models_loosened(w7, after),
    ensures
        bodies_follow_anchors(after),
{
    assert forall|m: u64| #[trigger] after.is_model(m) implies match after.model(m).body {
        Some(h) => match after.physics.body(h) {
            Some(b) => b.body_type == model_kind(&after.model(m).model),
            None => false,
        },
        None => true,
    } by {
        assert(w7.is_model(m));
        assert(w6.is_model(m));
        if before.is_part(m) {
            assert(w6.is_part(m));
        }
        if m < before.entities@.len() && before.entities@[m as int] is Vacant {
            assert(w6.entities@[m as int] is Vacant);
        }
        assert(before.is_model(m));
        if before.model(m).body is Some {
            let h = before.model(m).body->0;
            assert(before.physics.body(h) is Some);
            assert(before.physics.body(h)->0.user_data == m);
            assert(!body_let_loose(before, h)) by {
                if body_let_loose(before, h) {
                    let x = choose|x: u64| #[trigger]
                        released(before, x) && before.part(x).child_of is None && before.part(
                            x,
                        ).body == Some(h);
                    assert(before.part_wf(x));
                }
            }
            assert(w6.physics.body(h) == before.physics.body(h));
            assert(!body_of_untagged(w6, h)) by {
                if body_of_untagged(w6, h) {
                    let i = choose|i: int|
                        0 <= i < w6.untagged@.len() && w6.is_part(#[trigger] w6.untagged@[i])
                            && w6.part(w6.untagged@[i]).child_of is None && w6.part(
                            w6.untagged@[i],
                        ).body == Some(h);
                    assert(w6.part_wf(w6.untagged@[i]));
                    assert(w6.physics.body(h)->0.user_data == w6.untagged@[i]);
                }
            }
            assert(w7.physics.body(h) == w6.physics.body(h));
            if body_of_free_model(w7, h) {
                let q = choose|q: u64| #[trigger]
                    w7.is_model(q) && w7.model(q).model.anchors@.is_empty() && w7.model(q).body
                        == Some(h);
                assert(w7.physics.body(h)->0.user_data == q);
                assert(q == m);
            } else {
                assert(!(w7.is_model(m) && w7.model(m).model.anchors@.is_empty() && w7.model(
                    m,
                ).body == Some(h)));
                assert(!w6.model(m).model.anchors@.is_empty());
                assert(!before.model(m).model.anchors@.is_empty()) by {
                    if before.model(m).model.anchors@.is_empty() {
                        assert(w6.model(m).model.anchors@ =~= Set::<u64>::empty());
                    }
                }
            }
        }
    }
}

proof fn lemma_same_entities_keep(before: &World, after: &World)
    requires
        after.entities == before.entities,
        all_models_whole(before),
        all_models_embodied(before),
    ensures
        all_models_whole(after),
        all_models_embodied(after),
{
    assert forall|m: u64| #[trigger] after.is_model(m) implies !after.model(m).model.dirty
        && after.model(m).model.graph.connected() && after.model(m).body is Some by {
        assert(before.is_model(m));
    }
}

impl PhysicsState {
    /// Sets a new scene up: first the parts that belong to no model, then
    /// the models.
    pub fn setup_system(world: &mut World)
        requires
            old(world).wf(),
        ensures
            final(world).wf(),
            exists|mid: World| #[trigger]
                mid.wf() && parts_set_up(
                    old(world),
                    &mid,
                    true,
                    old(world).entities@.len() as int,
                ) && models_embodied(
                    &mid,
                    final(world),
                    ShapeOffset::Authored,
                    mid.entities@.len() as int,
                ),
            all_models_embodied(final(world)),
            bodies_follow_anchors(old(world)) ==> bodies_follow_anchors(final(world)),
    {
        setup_parts(world);
        let ghost mid = *world;
        setup_models(world);
        proof {
            if bodies_follow_anchors(old(world)) {
                lemma_set_up_follows(old(world), &mid, true);
                lemma_embodied_follows(&mid, world, ShapeOffset::Authored);
            }
            assert forall|m: u64| #[trigger] world.is_model(m) implies world.model(m).body is Some by {
                if mid.is_part(m) {
                    assert(world.is_part(m));
                }
                if m < mid.entities@.len() && mid.entities@[m as int] is Vacant {
                    assert(world.entities@[m as int] is Vacant);
                }
                assert(mid.is_model(m));
                if mid.model(m).body is None {
                    assert(model_embodied(world, m, ShapeOffset::Authored));
                }
            }
            assert(mid.wf() && parts_set_up(
                old(world),
                &mid,
                true,
                old(world).entities@.len() as int,
            ) && models_embodied(&mid, world, ShapeOffset::Authored, mid.entities@.len() as int));
        }
    }

    /// One pass of maintenance, to be run after every step of the engine.
    /// In this order: new parts get their colliders and bodies; parts that
    /// have lost their model get a body of their own; models that have
    /// lost a node or are not connected are split, the parts that end up
    /// alone get a body of their own, and the new models get theirs; the
    /// dependents of destroyed anchors are told; bodies that nothing holds
    /// any more become dynamic.
    ///
    /// The pass gives up if, once the models have been split, a child of a
    /// model without a body has no collider; it then leaves the world as
    /// it is at that point. This cannot happen in a world in which each
    /// part under a model has a collider or can be given one.
    pub fn update_system(world: &mut World) -> (result: Result<(), PassError>)
        requires
            old(world).wf(),
            old(world).entities@.len() <= MAX_ENTITIES,
        ensures
            final(world).wf(),
            ready(old(world)) ==> result is Ok,
            result is Ok ==> maintained(old(world), final(world)) && settled(final(world)),
            result is Ok && bodies_follow_anchors(old(world)) ==> bodies_follow_anchors(
                final(world),
            ),
            result matches Err(e) ==> e == PassError::MissingCollider && !ready(old(world))
                && split_done(old(world), final(world)) && !all_children_have_colliders(
                final(world),
            ) && all_models_whole(final(world)) && final(world).freed@.len() == 0,
    {
        PhysicsState::add_bricks(world);
        let ghost w1 = *world;
        handle_subpart(world);
        let ghost w2 = *world;
        handle_model_transform(world);
        let ghost w3 = *world;
        handle_subpart(world);
        let ghost w4 = *world;
        proof {
            assert(split_steps(old(world), &w1, &w2, &w3, &w4));
            lemma_orphans_keep(&w1, &w2);
            lemma_orphans_keep(&w3, &w4);
            if ready(old(world)) {
                lemma_set_up_children(old(world), &w1);
                lemma_transform_keeps(&w2, &w3);
                lemma_children_ready(&w4);
            }
        }
        match handle_submodel(world) {
            Ok(_) => {},
            Err(e) => {
                return Err(e);
            },
        }
        let ghost w5 = *world;
        handle_anchor_queue(world);
        let ghost w6 = *world;
        handle_part_unanchor(world);
        let ghost w7 = *world;
        proof {
            lemma_embodied_keeps(&w4, &w5);
            lemma_drained_keeps(&w5, &w6);
            assert(w7.entities == w6.entities);
            lemma_same_entities_keep(&w6, &w7);
            assert(!free_model_without_body(&w7)) by {
                if free_model_without_body(&w7) {
                    let m = choose|m: u64| #[trigger]
                        w7.is_model(m) && w7.model(m).model.anchors@.is_empty()
                            && w7.model(m).body is None;
                    assert(w7.is_model(m));
                }
            }
        }
        match handle_model_unanchor(world) {
            Ok(_) => {},
            Err(e) => {
                return Err(e);
            },
        }
        proof {
            lemma_same_entities_keep(&w7, world);
            if bodies_follow_anchors(old(world)) {
                lemma_set_up_follows(old(world), &w1, false);
                lemma_orphans_follow(&w1, &w2);
                lemma_transform_follows(&w2, &w3);
                lemma_orphans_follow(&w3, &w4);
                lemma_embodied_follows(&w4, &w5, ShapeOffset::KeepWorldPose);
                lemma_release_follows(&w5, &w6, &w7, world);
            }
            assert(settle_steps(&w4, &w5, &w6, &w7, world));
            assert(split_done(old(world), &w4) && w4.wf() && all_children_have_colliders(&w4));
        }
        Ok(())
    }
}

} // verus!
