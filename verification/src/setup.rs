//! Giving new parts and models their colliders and bodies.

use vstd::prelude::*;

use crate::model::Model;
use crate::physics::BodyHandle;
use crate::physics::BodyPose;
use crate::physics::Collider;
use crate::physics::RigidBody;
use crate::physics::RigidBodyType;
use crate::physics::ShapeHandle;
use crate::physics::ShapeOffset;
use crate::world::Entry;
use crate::world::ModelEntry;
use crate::world::PartEntry;
use crate::world::World;
use crate::world::lemma_wf_model_body;
use crate::world::lemma_wf_part_handles;

verus! {

/// The collider that a part gets when it gets nothing else: it has no body
/// and stands where the part was authored.
pub open spec fn bare_collider(e: u64) -> Collider {
    Collider { owner: e, parent: None, offset: ShapeOffset::Authored }
}

/// Gives the part a collider without a body, placed where the part was
/// authored.
pub fn build_shape(world: &mut World, e: u64)
    requires
        old(world).wf(),
        old(world).is_part(e),
    ensures
        final(world).wf(),
        final(world).physics.rigid_bodies@ == old(world).physics.rigid_bodies@,
        final(world).physics.colliders@ == old(world).physics.colliders@.push(
            Some(bare_collider(e)),
        ),
        final(world).is_part(e),
        final(world).entities@.len() == old(world).entities@.len(),
        forall|x: int|
            0 <= x < old(world).entities@.len() && x != e ==> final(world).entities@[x] == old(
                world,
            ).entities@[x],
        crate::world::same_but_handles(old(world).part(e), final(world).part(e)),
        final(world).part(e).body == old(world).part(e).body,
        final(world).part(e).shape matches Some(s) && s.0 == old(world).physics.colliders@.len(),
        final(world).anchors == old(world).anchors,
        final(world).freed == old(world).freed,
        final(world).untagged == old(world).untagged,
{
    let shape_handle = world.physics.insert_collider(
        Collider { owner: e, parent: None, offset: ShapeOffset::Authored },
    );
    let at = world.slot(e);
    let entry = world.take(at);
    match entry {
        Entry::Part(part) => {
            let PartEntry { part, studs, anchor, anchored, child_of, shape, body } = part;
            world.put(
                at,
                Entry::Part(
                    PartEntry { part,
                        studs, anchor, anchored, child_of, shape: Some(shape_handle), body },
                ),
            );
        },
        _ => {},
    }
    proof {
        assert(old(world).part_wf(e));
        lemma_wf_part_handles(old(world), world, e, None);
    }
}

/// Gives the part a body of the given kind, placed as `pose` says and with
/// the velocity of `velocity_of`, and a collider on it. A collider that the
/// part has already is put on the body; otherwise a new one is made.
pub fn build_body(
    world: &mut World,
    e: u64,
    body_type: RigidBodyType,
    pose: BodyPose,
    velocity_of: Option<BodyHandle>,
)
    requires
        old(world).wf(),
        old(world).is_part(e),
        !old(world).part(e).anchor,
    ensures
        final(world).wf(),
        final(world).is_part(e),
        final(world).entities@.len() == old(world).entities@.len(),
        forall|x: int|
            0 <= x < old(world).entities@.len() && x != e ==> final(world).entities@[x] == old(
                world,
            ).entities@[x],
        crate::world::same_but_handles(old(world).part(e), final(world).part(e)),
        final(world).part(e).body matches Some(h) && h.0 == old(world).physics.rigid_bodies@.len(),
        final(world).physics.rigid_bodies@ == old(world).physics.rigid_bodies@.push(
            Some(RigidBody { body_type, user_data: e, pose, velocity_of }),
        ),
        match old(world).part(e).shape {
            Some(h) => {
                &&& final(world).part(e).shape == Some(h)
                &&& final(world).physics.colliders@ == old(world).physics.colliders@.update(
                    h.0 as int,
                    Some(
                        Collider {
                            owner: e,
                            parent: final(world).part(e).body,
                            offset: ShapeOffset::Identity,
                        },
                    ),
                )
            },
            None => {
                &&& final(world).part(e).shape matches Some(s) && s.0 == old(
                    world,
                ).physics.colliders@.len()
                &&& final(world).physics.colliders@ == old(world).physics.colliders@.push(
                    Some(
                        Collider {
                            owner: e,
                            parent: final(world).part(e).body,
                            offset: ShapeOffset::Identity,
                        },
                    ),
                )
            },
        },
        final(world).anchors == old(world).anchors,
        final(world).freed == old(world).freed,
        final(world).untagged == old(world).untagged,
{
    proof {
        assert(old(world).part_wf(e));
    }
    let body_handle = world.physics.insert_body(
        RigidBody { body_type, user_data: e, pose, velocity_of },
    );
    let at = world.slot(e);
    let entry = world.take(at);
    match entry {
        Entry::Part(part) => {
            let PartEntry { part, studs, anchor, anchored, child_of, shape, body } = part;
            let shape_handle = match shape {
                Some(h) => {
                    world.physics.set_parent(h, Some(body_handle), ShapeOffset::Identity);
                    h
                },
                None => world.physics.insert_collider(
                    Collider { owner: e, parent: Some(body_handle), offset: ShapeOffset::Identity },
                ),
            };
            world.put(
                at,
                Entry::Part(
                    PartEntry {
                        part,
                        studs,
                        anchor,
                        anchored,
                        child_of,
                        shape: Some(shape_handle),
                        body: Some(body_handle),
                    },
                ),
            );
        },
        _ => {},
    }
    proof {
        lemma_wf_part_handles(old(world), world, e, None);
    }
}

/// The part has a body of the given kind, placed as `pose` says, and a
/// collider exactly on it.
pub open spec fn has_body(
    world: &World,
    e: u64,
    body_type: RigidBodyType,
    pose: BodyPose,
    velocity_of: Option<BodyHandle>,
) -> bool {
    &&& world.part(e).body matches Some(h) && world.physics.body(h) == Some(
        RigidBody { body_type, user_data: e, pose, velocity_of },
    )
    &&& world.part(e).shape matches Some(s) && world.physics.collider(s) == Some(
        Collider { owner: e, parent: world.part(e).body, offset: ShapeOffset::Identity },
    )
}

/// The part has a collider where it was authored, and no body.
pub open spec fn has_shape_only(world: &World, e: u64) -> bool {
    &&& world.part(e).body is None
    &&& world.part(e).shape matches Some(s) && world.physics.collider(s) == Some(bare_collider(e))
}

/// The ledger has grown at its end, if at all.
pub open spec fn ledger_grown(before: &World, after: &World) -> bool {
    &&& after.physics.rigid_bodies@.len() >= before.physics.rigid_bodies@.len()
    &&& after.physics.colliders@.len() >= before.physics.colliders@.len()
    &&& after.physics.rigid_bodies@.take(before.physics.rigid_bodies@.len() as int)
        == before.physics.rigid_bodies@
    &&& after.physics.colliders@.take(before.physics.colliders@.len() as int)
        == before.physics.colliders@
}

/// The part has neither collider nor body yet, and is one that this kind of
/// pass looks at: the pass at scene build leaves the children of models to
/// their models.
pub open spec fn awaits_setup(entry: Entry, at_build: bool) -> bool {
    entry matches Entry::Part(p) && p.shape is None && p.body is None && (!at_build
        || p.child_of is None)
}

/// How the body of a new part moves: at scene build a part that anchors
/// hold is fixed; any other is dynamic.
pub open spec fn setup_kind(part: PartEntry, at_build: bool) -> RigidBodyType {
    if at_build && part.anchored is Some {
        RigidBodyType::Fixed
    } else {
        RigidBodyType::Dynamic
    }
}

/// A part that awaits setup stands at position `e`.
pub open spec fn awaits_at(world: &World, at_build: bool, e: int) -> bool {
    0 <= e < world.entities@.len() && awaits_setup(world.entities@[e], at_build)
}

/// The number of parts below `upto` that await setup: each gets one
/// collider.
pub open spec fn awaiting_parts(world: &World, at_build: bool, upto: int) -> int
    decreases upto,
{
    if upto <= 0 {
        0
    } else {
        awaiting_parts(world, at_build, upto - 1) + if awaits_at(world, at_build, upto - 1) {
            1int
        } else {
            0int
        }
    }
}

/// The number of parts below `upto` that await setup and are no anchors:
/// each gets one body.
pub open spec fn awaiting_bodies(world: &World, at_build: bool, upto: int) -> int
    decreases upto,
{
    if upto <= 0 {
        0
    } else {
        awaiting_bodies(world, at_build, upto - 1) + if awaits_at(world, at_build, upto - 1)
            && !world.entities@[upto - 1]->Part_0.anchor {
            1int
        } else {
            0int
        }
    }
}

/// The handle `h` is that of the body of a part below `upto` that awaited
/// setup.
pub open spec fn body_of_set_up(
    before: &World,
    after: &World,
    h: BodyHandle,
    at_build: bool,
    upto: int,
) -> bool {
    exists|e: u64|
        e < upto && awaits_at(before, at_build, e as int) && (#[trigger] after.part(e)).body
            == Some(h)
}

/// The handle `s` is that of the collider of a part below `upto` that
/// awaited setup.
pub open spec fn collider_of_set_up(
    before: &World,
    after: &World,
    s: ShapeHandle,
    at_build: bool,
    upto: int,
) -> bool {
    exists|e: u64|
        e < upto && awaits_at(before, at_build, e as int) && (#[trigger] after.part(e)).shape
            == Some(s)
}

/// What a setup pass has done to the entities below `upto`. The ledger
/// keeps what it held and grows by one collider for each part that awaited
/// setup and one body for each of them that is no anchor, and by nothing
/// else.
pub open spec fn parts_set_up(before: &World, after: &World, at_build: bool, upto: int) -> bool {
    &&& after.entities@.len() == before.entities@.len()
    &&& ledger_grown(before, after)
    &&& after.physics.rigid_bodies@.len() == before.physics.rigid_bodies@.len() + awaiting_bodies(
        before,
        at_build,
        upto,
    )
    &&& after.physics.colliders@.len() == before.physics.colliders@.len() + awaiting_parts(
        before,
        at_build,
        upto,
    )
    &&& forall|h: BodyHandle|
        before.physics.rigid_bodies@.len() <= h.0 < after.physics.rigid_bodies@.len()
            ==> #[trigger] body_of_set_up(before, after, h, at_build, upto)
    &&& forall|s: ShapeHandle|
        before.physics.colliders@.len() <= s.0 < after.physics.colliders@.len()
            ==> #[trigger] collider_of_set_up(before, after, s, at_build, upto)
    &&& forall|e: u64|
        e < before.entities@.len() ==> if e < upto && awaits_setup(
            #[trigger] before.entities@[e as int],
            at_build,
        ) {
            &&& after.is_part(e)
            &&& crate::world::same_but_handles(before.part(e), after.part(e))
            &&& if before.part(e).anchor {
                has_shape_only(after, e)
            } else {
                has_body(
                    after,
                    e,
                    setup_kind(before.part(e), at_build),
                    BodyPose::Authored,
                    None,
                )
            }
        } else {
            after.entities@[e as int] == before.entities@[e as int]
        }
    &&& after.anchors == before.anchors
    &&& after.freed == before.freed
    &&& after.untagged == before.untagged
}

/// Gives every part that has neither collider nor body what it needs: an
/// anchor a bare collider, any other part a body with a collider on it.
fn set_up_parts(world: &mut World, at_build: bool)
    requires
        old(world).wf(),
    ensures
        final(world).wf(),
        parts_set_up(old(world), final(world), at_build, old(world).entities@.len() as int),
{
    let n = world.entities.len();
    let mut i: usize = 0;
    proof {
        assert(world.physics.rigid_bodies@.take(world.physics.rigid_bodies@.len() as int)
            =~= world.physics.rigid_bodies@);
        assert(world.physics.colliders@.take(world.physics.colliders@.len() as int)
            =~= world.physics.colliders@);
    }
    while i < n
        invariant
            n == old(world).entities@.len(),
            i <= n,
            world.wf(),
            parts_set_up(old(world), world, at_build, i as int),
        decreases n - i,
    {
        let ghost mid = *world;
        let e = i as u64;
        let plan = match &world.entities[i] {
            Entry::Part(p) => {
                if p.shape.is_none() && p.body.is_none() && (!at_build || p.child_of.is_none()) {
                    if p.anchor {
                        Some(None)
                    } else if at_build && p.anchored.is_some() {
                        Some(Some(RigidBodyType::Fixed))
                    } else {
                        Some(Some(RigidBodyType::Dynamic))
                    }
                } else {
                    None
                }
            },
            _ => None,
        };
        proof {
            assert(mid.entities@[i as int] == old(world).entities@[i as int]);
        }
        match plan {
            Some(None) => {
                build_shape(world, e);
            },
            Some(Some(body_type)) => {
                build_body(world, e, body_type, BodyPose::Authored, None);
            },
            None => {},
        }
        proof {
            let b0 = old(world).physics.rigid_bodies@.len() as int;
            let c0 = old(world).physics.colliders@.len() as int;
            let up = i + 1;
            assert(awaits_at(old(world), at_build, i as int) <==> plan is Some);
            assert(awaiting_parts(old(world), at_build, up) == awaiting_parts(
                old(world),
                at_build,
                up - 1,
            ) + if plan is Some {
                1int
            } else {
                0int
            });
            assert(awaiting_bodies(old(world), at_build, up) == awaiting_bodies(
                old(world),
                at_build,
                up - 1,
            ) + if plan is Some && plan->0 is Some {
                1int
            } else {
                0int
            });
            assert forall|h: BodyHandle| b0 <= h.0 < world.physics.rigid_bodies@.len()
                implies #[trigger] body_of_set_up(old(world), world, h, at_build, up) by {
                if h.0 < mid.physics.rigid_bodies@.len() {
                    assert(body_of_set_up(old(world), &mid, h, at_build, i as int));
                    let x = choose|x: u64|
                        x < i && awaits_at(old(world), at_build, x as int) && (#[trigger] mid.part(
                            x,
                        )).body == Some(h);
                    assert(world.entities@[x as int] == mid.entities@[x as int]);
                    assert(x < up && awaits_at(old(world), at_build, x as int) && world.part(x).body
                        == Some(h));
                } else {
                    assert(e < up && awaits_at(old(world), at_build, e as int) && world.part(e).body
                        == Some(h));
                }
            }
            assert forall|s: ShapeHandle| c0 <= s.0 < world.physics.colliders@.len()
                implies #[trigger] collider_of_set_up(old(world), world, s, at_build, up) by {
                if s.0 < mid.physics.colliders@.len() {
                    assert(collider_of_set_up(old(world), &mid, s, at_build, i as int));
                    let x = choose|x: u64|
                        x < i && awaits_at(old(world), at_build, x as int) && (#[trigger] mid.part(
                            x,
                        )).shape == Some(s);
                    assert(world.entities@[x as int] == mid.entities@[x as int]);
                    assert(x < up && awaits_at(old(world), at_build, x as int) && world.part(
                        x,
                    ).shape == Some(s));
                } else {
                    assert(e < up && awaits_at(old(world), at_build, e as int) && world.part(
                        e,
                    ).shape == Some(s));
                }
            }
            assert(world.physics.rigid_bodies@.take(b0) =~= old(world).physics.rigid_bodies@) by {
                assert(mid.physics.rigid_bodies@.take(b0) == old(world).physics.rigid_bodies@);
                assert forall|j: int| 0 <= j < b0 implies world.physics.rigid_bodies@[j] == old(
                    world,
                ).physics.rigid_bodies@[j] by {
                    assert(mid.physics.rigid_bodies@.take(b0)[j] == mid.physics.rigid_bodies@[j]);
                }
            }
            assert(world.physics.colliders@.take(c0) =~= old(world).physics.colliders@) by {
                assert(mid.physics.colliders@.take(c0) == old(world).physics.colliders@);
                assert forall|j: int| 0 <= j < c0 implies world.physics.colliders@[j] == old(
                    world,
                ).physics.colliders@[j] by {
                    assert(mid.physics.colliders@.take(c0)[j] == mid.physics.colliders@[j]);
                }
            }
            assert forall|x: u64| x < old(world).entities@.len() implies if x < i + 1
                && awaits_setup(#[trigger] old(world).entities@[x as int], at_build) {
                &&& world.is_part(x)
                &&& crate::world::same_but_handles(old(world).part(x), world.part(x))
                &&& if old(world).part(x).anchor {
                    has_shape_only(world, x)
                } else {
                    has_body(
                        world,
                        x,
                        setup_kind(old(world).part(x), at_build),
                        BodyPose::Authored,
                        None,
                    )
                }
            } else {
                world.entities@[x as int] == old(world).entities@[x as int]
            } by {
                if x != e {
                    assert(world.entities@[x as int] == mid.entities@[x as int]);
                    if x < i && awaits_setup(old(world).entities@[x as int], at_build) {
                        assert(mid.is_part(x));
                        assert(world.part(x) == mid.part(x));
                        let s = mid.part(x).shape->0;
                        assert(mid.physics.collider(s) is Some);
                        assert(world.physics.collider(s) == mid.physics.collider(s));
                        if !old(world).part(x).anchor {
                            let h = mid.part(x).body->0;
                            assert(mid.physics.body(h) is Some);
                            assert(world.physics.body(h) == mid.physics.body(h));
                        }
                    }
                } else {
                    if awaits_setup(old(world).entities@[x as int], at_build) {
                        assert(plan is Some);
                        assert(world.is_part(x));
                        if old(world).part(x).anchor {
                            let s = world.part(x).shape->0;
                            assert(s.0 == mid.physics.colliders@.len());
                            assert(world.physics.collider(s) == Some(bare_collider(e)));
                        } else {
                            let h = world.part(x).body->0;
                            assert(h.0 == mid.physics.rigid_bodies@.len());
                            let s = world.part(x).shape->0;
                            assert(s.0 == mid.physics.colliders@.len());
                        }
                    } else {
                        assert(plan is None);
                    }
                }
            }
        }
        i = i + 1;
    }
}

/// Gives the parts of a new scene that belong to no model their colliders
/// and bodies: an anchor gets a bare collider; a part that anchors hold
/// gets a fixed body, any other part a dynamic one, with a collider on it.
pub fn setup_parts(world: &mut World)
    requires
        old(world).wf(),
    ensures
        final(world).wf(),
        parts_set_up(old(world), final(world), true, old(world).entities@.len() as int),
{
    set_up_parts(world, true);
}

impl crate::physics::PhysicsState {
    /// Gives the parts that were added while the world was running their
    /// colliders and bodies: an anchor gets a bare collider, any other part
    /// a dynamic body with a collider on it.
    pub fn add_bricks(world: &mut World)
        requires
            old(world).wf(),
        ensures
            final(world).wf(),
            parts_set_up(old(world), final(world), false, old(world).entities@.len() as int),
    {
        set_up_parts(world, false);
    }
}

/// How the body of a model moves: fixed while anchors hold the model,
/// dynamic otherwise.
pub open spec fn model_kind(model: &Model) -> RigidBodyType {
    if model.anchors@.is_empty() {
        RigidBodyType::Dynamic
    } else {
        RigidBodyType::Fixed
    }
}

/// The collider of the part `c` stands at position `at` of the ledger.
pub open spec fn shape_at(world: &World, c: u64, at: int) -> bool {
    world.part(c).shape matches Some(s) && s.0 == at
}

/// The child `c` of a model has a collider on the body `h` of the model,
/// placed as `offset` says.
pub open spec fn child_attached(world: &World, c: u64, h: BodyHandle, offset: ShapeOffset) -> bool {
    world.part(c).shape matches Some(s) && world.physics.collider(s) == Some(
        Collider { owner: c, parent: Some(h), offset },
    )
}

/// The model has a body of the kind that its anchors call for, at the
/// origin, and every child has a collider on that body.
pub open spec fn model_embodied(world: &World, m: u64, offset: ShapeOffset) -> bool {
    let entry = world.model(m);
    &&& entry.body matches Some(h) && world.physics.body(h) == Some(
        RigidBody {
            body_type: model_kind(&entry.model),
            user_data: m,
            pose: BodyPose::Origin,
            velocity_of: entry.velocity_of,
        },
    ) && forall|c: u64| #[trigger]
        entry.model.graph.nodes().contains(c) ==> child_attached(world, c, h, offset)
}

/// Gives the model a body and puts a collider for each child on it. With
/// `reuse`, each child's collider is taken out and entered anew so that it
/// keeps its place in the world; without, each child gets a new collider
/// where the child was authored.
fn embody_model(world: &mut World, m: u64, reuse: bool)
    requires
        old(world).wf(),
        old(world).is_model(m),
        reuse ==> forall|c: u64| #[trigger]
            old(world).model(m).model.graph.nodes().contains(c)
                ==> old(world).part(c).shape is Some,
    ensures
        final(world).wf(),
        final(world).entities@.len() == old(world).entities@.len(),
        final(world).is_model(m),
        crate::world::same_but_body(old(world).model(m), final(world).model(m)),
        model_embodied(
            final(world),
            m,
            if reuse {
                ShapeOffset::KeepWorldPose
            } else {
                ShapeOffset::Authored
            },
        ),
        final(world).model(m).body matches Some(h) && h.0 == old(world).physics.rigid_bodies@.len(),
        forall|x: u64|
            x < old(world).entities@.len()
                ==> if old(world).model(m).model.graph.nodes().contains(x) {
                final(world).is_part(x) && crate::world::same_but_handles(
                    old(world).part(x),
                    final(world).part(x),
                ) && final(world).part(x).body == old(world).part(x).body
            } else if x == m {
                true
            } else {
                #[trigger] final(world).entities@[x as int] == old(world).entities@[x as int]
            },
        final(world).physics.rigid_bodies@.len() == old(world).physics.rigid_bodies@.len() + 1,
        final(world).physics.rigid_bodies@.take(old(world).physics.rigid_bodies@.len() as int)
            == old(world).physics.rigid_bodies@,
        final(world).physics.colliders@.len() == old(world).physics.colliders@.len() + old(
            world,
        ).model(m).children@.len(),
        forall|s: ShapeHandle| #[trigger]
            old(world).physics.collider(s) is Some ==> final(world).physics.collider(s) == if reuse
                && old(world).model(m).model.graph.nodes().contains(
                old(world).physics.collider(s)->0.owner,
            ) && old(world).part(old(world).physics.collider(s)->0.owner).shape == Some(s) {
                None
            } else {
                old(world).physics.collider(s)
            },
        forall|j: int|
            0 <= j < old(world).physics.colliders@.len() && old(world).physics.colliders@[j] is None
                ==> #[trigger] final(world).physics.colliders@[j] is None,
        forall|j: int|
            0 <= j < old(world).model(m).children@.len() ==> shape_at(
                final(world),
                #[trigger] old(world).model(m).children@[j],
                old(world).physics.colliders@.len() + j,
            ),
        final(world).anchors == old(world).anchors,
        final(world).freed == old(world).freed,
        final(world).untagged == old(world).untagged,
{
    let ghost offset = if reuse {
        ShapeOffset::KeepWorldPose
    } else {
        ShapeOffset::Authored
    };
    let at = world.slot(m);
    let (fixed, velocity_of) = match &world.entities[at] {
        Entry::Model(entry) => (!entry.model.anchors.is_empty(), entry.velocity_of),
        _ => (false, None),
    };
    let body_type = if fixed {
        RigidBodyType::Fixed
    } else {
        RigidBodyType::Dynamic
    };
    let new_handle = world.physics.insert_body(
        RigidBody { body_type, user_data: m, pose: BodyPose::Origin, velocity_of },
    );
    let ghost nodes = old(world).model(m).model.graph.nodes();
    let ghost kids = old(world).model(m).children@;
    proof {
        assert(old(world).model_wf(m));
        assert(world.wf()) by {
            assert(world.entities == old(world).entities);
            assert(world.physics.rigid_bodies@.take(old(world).physics.rigid_bodies@.len() as int)
                =~= old(world).physics.rigid_bodies@);
            assert(world.physics.colliders@.take(old(world).physics.colliders@.len() as int)
                =~= old(world).physics.colliders@);
            lemma_ledger_push_wf(old(world), world);
        }
    }
    let count = world.child_count(m);
    let mut i: usize = 0;
    while i < count
        invariant
            world.wf(),
            old(world).wf(),
            old(world).is_model(m),
            world.is_model(m),
            world.entities@[m as int] == old(world).entities@[m as int],
            world.entities@.len() == old(world).entities@.len(),
            nodes == old(world).model(m).model.graph.nodes(),
            kids == old(world).model(m).children@,
            kids.no_duplicates(),
            kids.to_set() == nodes,
            count == kids.len(),
            i <= count,
            new_handle.0 == old(world).physics.rigid_bodies@.len(),
            world.physics.rigid_bodies@ == old(world).physics.rigid_bodies@.push(
                Some(RigidBody { body_type, user_data: m, pose: BodyPose::Origin, velocity_of }),
            ),
            world.physics.colliders@.len() == old(world).physics.colliders@.len() + i,
            forall|j: int|
                0 <= j < old(world).physics.colliders@.len() && old(world).physics.colliders@[j]
                    is None ==> #[trigger] world.physics.colliders@[j] is None,
            forall|j: int|
                0 <= j < i ==> shape_at(
                    world,
                    #[trigger] kids[j],
                    old(world).physics.colliders@.len() + j,
                ),
            reuse ==> forall|c: u64| #[trigger] nodes.contains(c)
                ==> old(world).part(c).shape is Some,
            offset == if reuse {
                ShapeOffset::KeepWorldPose
            } else {
                ShapeOffset::Authored
            },
            forall|x: u64|
                x < old(world).entities@.len() ==> if exists|j: int| 0 <= j < i && kids[j] == x {
                    world.is_part(x) && crate::world::same_but_handles(
                        old(world).part(x),
                        world.part(x),
                    ) && world.part(x).body == old(world).part(x).body && child_attached(
                        world,
                        x,
                        new_handle,
                        offset,
                    )
                } else {
                    #[trigger] world.entities@[x as int] == old(world).entities@[x as int]
                },
            forall|s: ShapeHandle| #[trigger]
                old(world).physics.collider(s) is Some ==> world.physics.collider(s) == if reuse
                    && (exists|j: int|
                    0 <= j < i && kids[j] == old(world).physics.collider(s)->0.owner) && old(
                    world,
                ).part(old(world).physics.collider(s)->0.owner).shape == Some(s) {
                    None
                } else {
                    old(world).physics.collider(s)
                },
            world.anchors == old(world).anchors,
            world.freed == old(world).freed,
            world.untagged == old(world).untagged,
        decreases count - i,
    {
        let ghost mid = *world;
        let child = world.child_at(m, i);
        proof {
            assert(kids.to_set().contains(kids[i as int]));
            assert(old(world).is_child(child, m));
            assert(!(exists|j: int| 0 <= j < i && kids[j] == child));
            assert(world.entities@[child as int] == old(world).entities@[child as int]);
            assert(mid.part_wf(child));
        }
        let slot = world.slot(child);
        let entry = world.take(slot);
        let ghost mut gone: Option<ShapeHandle> = None;
        match entry {
            Entry::Part(part) => {
                let PartEntry { part, studs, anchor, anchored, child_of, shape, body } = part;
                let handle = if reuse {
                    match shape {
                        Some(h) => {
                            world.physics.remove_collider(h);
                            proof {
                                gone = Some(h);
                            }
                        },
                        None => {},
                    }
                    world.physics.insert_collider(
                        Collider {
                            owner: child,
                            parent: Some(new_handle),
                            offset: ShapeOffset::KeepWorldPose,
                        },
                    )
                } else {
                    world.physics.insert_collider(
                        Collider {
                            owner: child,
                            parent: Some(new_handle),
                            offset: ShapeOffset::Authored,
                        },
                    )
                };
                world.put(
                    slot,
                    Entry::Part(
                        PartEntry { part,
                            studs, anchor, anchored, child_of, shape: Some(handle), body },
                    ),
                );
            },
            _ => {},
        }
        proof {
            lemma_wf_part_handles(&mid, world, child, gone);
            assert forall|j: int| 0 <= j < i + 1 implies shape_at(
                world,
                #[trigger] kids[j],
                old(world).physics.colliders@.len() + j,
            ) by {
                if j < i {
                    assert(kids[j] != child);
                    assert(kids.to_set().contains(kids[j]));
                    assert(old(world).is_child(kids[j], m));
                    assert(world.entities@[kids[j] as int] == mid.entities@[kids[j] as int]);
                }
            }
            assert forall|x: u64| x < old(world).entities@.len() implies if exists|j: int|
                0 <= j < i + 1 && kids[j] == x {
                world.is_part(x) && crate::world::same_but_handles(
                    old(world).part(x),
                    world.part(x),
                ) && world.part(x).body == old(world).part(x).body && child_attached(
                    world,
                    x,
                    new_handle,
                    offset,
                )
            } else {
                #[trigger] world.entities@[x as int] == old(world).entities@[x as int]
            } by {
                if x == child {
                    assert(kids[i as int] == x);
                } else {
                    assert(world.entities@[x as int] == mid.entities@[x as int]);
                    if exists|j: int| 0 <= j < i && kids[j] == x {
                        let j = choose|j: int| 0 <= j < i && kids[j] == x;
                        assert(0 <= j < i + 1 && kids[j] == x);
                        let s = mid.part(x).shape->0;
                        assert(mid.physics.collider(s) is Some);
                        assert(mid.physics.collider(s)->0.owner == x);
                        assert(gone != Some(s)) by {
                            if gone == Some(s) {
                                assert(mid.physics.collider(s)->0.owner == child);
                            }
                        }
                        assert(world.physics.collider(s) == mid.physics.collider(s));
                    }
                    if exists|j: int| 0 <= j < i + 1 && kids[j] == x {
                        let j = choose|j: int| 0 <= j < i + 1 && kids[j] == x;
                        assert(j < i);
                    }
                }
            }
            assert forall|s: ShapeHandle| #[trigger]
                old(world).physics.collider(s) is Some implies world.physics.collider(s) == if reuse
                && (exists|j: int|
                0 <= j < i + 1 && kids[j] == old(world).physics.collider(s)->0.owner) && old(
                world,
            ).part(old(world).physics.collider(s)->0.owner).shape == Some(s) {
                None
            } else {
                old(world).physics.collider(s)
            } by {
                let owner = old(world).physics.collider(s)->0.owner;
                if exists|j: int| 0 <= j < i && kids[j] == owner {
                    let j = choose|j: int| 0 <= j < i && kids[j] == owner;
                    assert(0 <= j < i + 1 && kids[j] == owner);
                }
                if owner == child {
                    assert(kids[i as int] == owner);
                }
                if exists|j: int| 0 <= j < i + 1 && kids[j] == owner {
                    let j = choose|j: int| 0 <= j < i + 1 && kids[j] == owner;
                    if j < i {
                    } else {
                        assert(owner == child);
                    }
                }
                if gone == Some(s) {
                    assert(mid.physics.collider(s) is Some);
                    assert(old(world).part(child).shape == Some(s));
                    assert(old(world).physics.collider(s)->0.owner == child) by {
                        assert(old(world).part_wf(child));
                    }
                }
            }
        }
        i = i + 1;
    }
    let ghost mid = *world;
    let entry = world.take(at);
    match entry {
        Entry::Model(model_entry) => {
            let ModelEntry { model, children, body, velocity_of } = model_entry;
            world.put(
                at,
                Entry::Model(ModelEntry { model, children, body: Some(new_handle), velocity_of }),
            );
        },
        _ => {},
    }
    proof {
        lemma_wf_model_body(&mid, world, m);
        assert(world.physics.rigid_bodies@.take(old(world).physics.rigid_bodies@.len() as int)
            =~= old(world).physics.rigid_bodies@);
        assert forall|j: int| 0 <= j < kids.len() implies shape_at(
            world,
            #[trigger] kids[j],
            old(world).physics.colliders@.len() + j,
        ) by {
            assert(kids.to_set().contains(kids[j]));
            assert(old(world).is_child(kids[j], m));
            assert(world.entities@[kids[j] as int] == mid.entities@[kids[j] as int]);
        }
        assert forall|c: u64| #[trigger] nodes.contains(c) implies child_attached(
            world,
            c,
            new_handle,
            offset,
        ) && (exists|j: int| 0 <= j < count && kids[j] == c) by {
            assert(kids.to_set().contains(c));
            let j = choose|j: int| 0 <= j < kids.len() && kids[j] == c;
            assert(0 <= j < i && kids[j] == c);
            assert(old(world).is_child(c, m));
            assert(world.entities@[c as int] == mid.entities@[c as int]);
        }
        assert forall|x: u64| x < old(world).entities@.len() implies if nodes.contains(x) {
            world.is_part(x) && crate::world::same_but_handles(old(world).part(x), world.part(x))
                && world.part(x).body == old(world).part(x).body
        } else if x == m {
            true
        } else {
            #[trigger] world.entities@[x as int] == old(world).entities@[x as int]
        } by {
            if nodes.contains(x) {
                assert(old(world).is_child(x, m));
                assert(world.entities@[x as int] == mid.entities@[x as int]);
            } else if x != m {
                assert(world.entities@[x as int] == mid.entities@[x as int]);
                if exists|j: int| 0 <= j < i && kids[j] == x {
                    let j = choose|j: int| 0 <= j < i && kids[j] == x;
                    assert(kids.to_set().contains(kids[j]));
                }
            }
        }
        assert forall|s: ShapeHandle| #[trigger]
            old(world).physics.collider(s) is Some implies world.physics.collider(s) == if reuse
            && nodes.contains(old(world).physics.collider(s)->0.owner) && old(world).part(
            old(world).physics.collider(s)->0.owner,
        ).shape == Some(s) {
            None
        } else {
            old(world).physics.collider(s)
        } by {
            let owner = old(world).physics.collider(s)->0.owner;
            if nodes.contains(owner) {
            } else {
                if exists|j: int| 0 <= j < i && kids[j] == owner {
                    let j = choose|j: int| 0 <= j < i && kids[j] == owner;
                    assert(kids.to_set().contains(kids[j]));
                }
            }
        }
    }
}

/// A world stays sound when the ledger grows at its end and nothing else
/// changes.
pub proof fn lemma_ledger_push_wf(before: &World, after: &World)
    requires
        before.wf(),
        after.entities == before.entities,
        after.anchors == before.anchors,
        after.physics.rigid_bodies@.len() >= before.physics.rigid_bodies@.len(),
        after.physics.colliders@.len() >= before.physics.colliders@.len(),
        after.physics.rigid_bodies@.take(before.physics.rigid_bodies@.len() as int)
            == before.physics.rigid_bodies@,
        after.physics.colliders@.take(before.physics.colliders@.len() as int)
            == before.physics.colliders@,
    ensures
        after.wf(),
{
    let b0 = before.physics.rigid_bodies@.len() as int;
    let c0 = before.physics.colliders@.len() as int;
    assert forall|h: BodyHandle| #[trigger] before.physics.body(h) is Some
        implies after.physics.body(
        h,
    ) == before.physics.body(h) by {
        assert(after.physics.rigid_bodies@.take(b0)[h.0 as int]
            == after.physics.rigid_bodies@[h.0 as int]);
    }
    assert forall|h: ShapeHandle| #[trigger]
        before.physics.collider(h) is Some implies after.physics.collider(h)
        == before.physics.collider(h) by {
        assert(after.physics.colliders@.take(c0)[h.0 as int]
            == after.physics.colliders@[h.0 as int]);
    }
    assert forall|m: u64| #[trigger] after.is_model(m) implies after.model_wf(m) && (after.model(
        m,
    ).body matches Some(h) ==> after.physics.body(h) matches Some(b) && b.user_data == m) by {
        assert(before.is_model(m));
        assert(before.model_wf(m));
        assert forall|c: u64| #[trigger]
            after.model(m).model.graph.nodes().contains(c) implies after.is_child(c, m) by {
            assert(before.is_child(c, m));
        }
        if before.model(m).body is Some {
            assert(before.physics.body(before.model(m).body->0) is Some);
        }
    }
    assert forall|x: u64| #[trigger] after.is_part(x) implies after.part_wf(x) by {
        assert(before.is_part(x));
        assert(before.part_wf(x));
        if before.part(x).shape is Some {
            assert(before.physics.collider(before.part(x).shape->0) is Some);
        }
        if before.part(x).body is Some {
            assert(before.physics.body(before.part(x).body->0) is Some);
        }
    }
    assert forall|k: u64, x: u64| #[trigger] after.anchors.lists(k, x) implies after.is_part(x)
        && after.part(x).anchor_set().contains(k) by {
        assert(before.anchors.lists(k, x));
        assert(before.is_part(x));
    }
    assert forall|i: int| 0 <= i < after.anchors.delete_queue@.len() implies !after.is_part(
        #[trigger] after.anchors.delete_queue@[i],
    ) by {
        assert(!before.is_part(before.anchors.delete_queue@[i]));
    }
}

/// A model without a body stands at position `m`.
pub open spec fn is_bodiless_model(world: &World, m: int) -> bool {
    0 <= m < world.entities@.len() && world.entities@[m] is Model
        && world.entities@[m]->Model_0.body is None
}

/// The number of models below `upto` that have no body.
pub open spec fn bodiless_models(world: &World, upto: int) -> int
    decreases upto,
{
    if upto <= 0 {
        0
    } else {
        bodiless_models(world, upto - 1) + if is_bodiless_model(world, upto - 1) {
            1int
        } else {
            0int
        }
    }
}

/// The number of children of the models below `upto` that have no body.
pub open spec fn children_of_bodiless(world: &World, upto: int) -> int
    decreases upto,
{
    if upto <= 0 {
        0
    } else {
        children_of_bodiless(world, upto - 1) + if is_bodiless_model(world, upto - 1) {
            world.entities@[upto - 1]->Model_0.children@.len() as int
        } else {
            0int
        }
    }
}

/// What becomes of the collider behind `s` when the models below `upto`
/// that have no body get one. Where the children's colliders are entered
/// anew to keep their place, the collider of such a child leaves its old
/// position. Every other collider stays as it is.
pub open spec fn collider_after_embodying(
    before: &World,
    s: ShapeHandle,
    offset: ShapeOffset,
    upto: int,
) -> Option<Collider> {
    match before.physics.collider(s) {
        Some(c) => if offset is KeepWorldPose && before.is_part(c.owner) && in_bodiless_model(
            before,
            c.owner,
            upto,
        ) && before.part(c.owner).shape == Some(s) {
            None
        } else {
            Some(c)
        },
        None => None,
    }
}

/// The handle `h` is that of the body of a model below `upto` that had no
/// body before.
pub open spec fn body_of_embodied(before: &World, after: &World, h: BodyHandle, upto: int) -> bool {
    exists|m: u64|
        m < upto && before.is_model(m) && before.model(m).body is None && (#[trigger] after.model(
            m,
        )).body == Some(h)
}

/// The handle `s` is that of the collider of a child of a model below
/// `upto` that had no body before.
pub open spec fn collider_of_embodied(
    before: &World,
    after: &World,
    s: ShapeHandle,
    upto: int,
) -> bool {
    exists|c: u64|
        before.is_part(c) && in_bodiless_model(before, c, upto) && (#[trigger] after.part(
            c,
        )).shape == Some(s)
}

/// What a pass that gives bodies to models has done: every model below
/// `upto` that had no body has one now, a new entry of the ledger, with a
/// collider for each of its children on it, a new entry too; other models
/// stay as they are; parts keep all but their colliders, and keep those too
/// unless their model is among the former. The ledger grows by one body for
/// each such model and one collider for each of their children, and by
/// nothing else; what it held before stays as it is, but for the colliders
/// that are entered anew.
pub open spec fn models_embodied(
    before: &World,
    after: &World,
    offset: ShapeOffset,
    upto: int,
) -> bool {
    &&& after.entities@.len() == before.entities@.len()
    &&& forall|m: u64| #[trigger]
        before.is_model(m) ==> after.is_model(m) && crate::world::same_but_body(
            before.model(m),
            after.model(m),
        ) && if m < upto && before.model(m).body is None {
            model_embodied(after, m, offset) && (after.model(m).body->0).0
                >= before.physics.rigid_bodies@.len()
        } else {
            after.model(m).body == before.model(m).body
        }
    &&& forall|e: u64| #[trigger]
        before.is_part(e) ==> after.is_part(e) && crate::world::same_but_handles(
            before.part(e),
            after.part(e),
        ) && after.part(e).body == before.part(e).body && if in_bodiless_model(before, e, upto) {
            after.part(e).shape is Some && (after.part(e).shape->0).0
                >= before.physics.colliders@.len()
        } else {
            after.part(e).shape == before.part(e).shape
        }
    &&& after.physics.rigid_bodies@.len() == before.physics.rigid_bodies@.len() + bodiless_models(
        before,
        upto,
    )
    &&& after.physics.colliders@.len() == before.physics.colliders@.len() + children_of_bodiless(
        before,
        upto,
    )
    &&& forall|h: BodyHandle|
        before.physics.rigid_bodies@.len() <= h.0 < after.physics.rigid_bodies@.len()
            ==> #[trigger] body_of_embodied(before, after, h, upto)
    &&& forall|s: ShapeHandle|
        before.physics.colliders@.len() <= s.0 < after.physics.colliders@.len()
            ==> #[trigger] collider_of_embodied(before, after, s, upto)
    &&& forall|s: ShapeHandle|
        s.0 < before.physics.colliders@.len() ==> #[trigger] after.physics.collider(s)
            == collider_after_embodying(before, s, offset, upto)
    &&& forall|e: u64| e < before.entities@.len() && #[trigger] before.entities@[e as int] is Vacant
        ==> after.entities@[e as int] is Vacant
    &&& forall|h: BodyHandle| #[trigger]
        before.physics.body(h) is Some ==> after.physics.body(h) == before.physics.body(h)
    &&& after.anchors == before.anchors
    &&& after.freed == before.freed
    &&& after.untagged == before.untagged
}

/// What giving the model `m` its body has done to the world `mid`.
spec fn embodied_one(mid: &World, after: &World, m: u64, offset: ShapeOffset) -> bool {
    let nodes = mid.model(m).model.graph.nodes();
    let kids = mid.model(m).children@;
    &&& after.wf()
    &&& after.entities@.len() == mid.entities@.len()
    &&& after.is_model(m)
    &&& crate::world::same_but_body(mid.model(m), after.model(m))
    &&& model_embodied(after, m, offset)
    &&& after.model(m).body matches Some(h) && h.0 == mid.physics.rigid_bodies@.len()
    &&& forall|x: u64|
        x < mid.entities@.len() ==> if nodes.contains(x) {
            after.is_part(x) && crate::world::same_but_handles(mid.part(x), after.part(x))
                && after.part(x).body == mid.part(x).body
        } else if x == m {
            true
        } else {
            #[trigger] after.entities@[x as int] == mid.entities@[x as int]
        }
    &&& after.physics.rigid_bodies@.len() == mid.physics.rigid_bodies@.len() + 1
    &&& after.physics.rigid_bodies@.take(mid.physics.rigid_bodies@.len() as int)
        == mid.physics.rigid_bodies@
    &&& after.physics.colliders@.len() == mid.physics.colliders@.len() + kids.len()
    &&& forall|s: ShapeHandle| #[trigger]
        mid.physics.collider(s) is Some ==> after.physics.collider(s) == if offset is KeepWorldPose
            && nodes.contains(mid.physics.collider(s)->0.owner) && mid.part(
            mid.physics.collider(s)->0.owner,
        ).shape == Some(s) {
            None
        } else {
            mid.physics.collider(s)
        }
    &&& forall|j: int|
        0 <= j < mid.physics.colliders@.len() && mid.physics.colliders@[j] is None
            ==> #[trigger] after.physics.colliders@[j] is None
    &&& forall|j: int|
        0 <= j < kids.len() ==> shape_at(
            after,
            #[trigger] kids[j],
            mid.physics.colliders@.len() + j,
        )
    &&& after.anchors == mid.anchors
    &&& after.freed == mid.freed
    &&& after.untagged == mid.untagged
}

/// The pass stands before the model `m`, which has no body, and `after` is
/// the world in which it has got one.
spec fn embody_here(
    before: &World,
    mid: &World,
    after: &World,
    m: u64,
    offset: ShapeOffset,
) -> bool {
    &&& before.wf()
    &&& mid.wf()
    &&& m < before.entities@.len()
    &&& models_embodied(before, mid, offset, m as int)
    &&& mid.is_model(m)
    &&& mid.model(m).body is None
    &&& embodied_one(mid, after, m, offset)
}

proof fn lemma_counts_grow(world: &World, upto: int)
    ensures
        bodiless_models(world, upto) >= 0,
        children_of_bodiless(world, upto) >= 0,
    decreases upto,
{
    if upto > 0 {
        lemma_counts_grow(world, upto - 1);
    }
}

proof fn lemma_embody_basics(
    before: &World,
    mid: &World,
    after: &World,
    m: u64,
    offset: ShapeOffset,
)
    requires
        embody_here(before, mid, after, m, offset),
    ensures
        before.is_model(m),
        before.model(m).body is None,
        is_bodiless_model(before, m as int),
        mid.model(m).model == before.model(m).model,
        mid.model(m).children == before.model(m).children,
        mid.physics.rigid_bodies@.len() >= before.physics.rigid_bodies@.len(),
        mid.physics.colliders@.len() >= before.physics.colliders@.len(),
        mid.model(m).children@.no_duplicates(),
        mid.model(m).children@.to_set() == mid.model(m).model.graph.nodes(),
        forall|x: u64| #[trigger]
            mid.model(m).model.graph.nodes().contains(x) ==> before.is_part(x) && mid.is_part(x)
                && before.part(x).child_of == Some(m) && !in_bodiless_model(before, x, m as int)
                && mid.part(x).shape == before.part(x).shape,
        forall|x: u64|
            before.is_part(x) && before.part(x).child_of == Some(m) ==> #[trigger] mid.model(
                m,
            ).model.graph.nodes().contains(x),
{
    lemma_counts_grow(before, m as int);
    if before.is_part(m) {
        assert(mid.is_part(m));
    }
    if before.entities@[m as int] is Vacant {
        assert(mid.entities@[m as int] is Vacant);
    }
    assert(before.is_model(m));
    assert(mid.model_wf(m));
    assert forall|x: u64| #[trigger]
        mid.model(m).model.graph.nodes().contains(x) implies before.is_part(x) && mid.is_part(x)
        && before.part(x).child_of == Some(m) && !in_bodiless_model(before, x, m as int)
        && mid.part(x).shape == before.part(x).shape by {
        assert(before.model_wf(m));
        assert(before.is_child(x, m));
    }
    assert forall|x: u64| before.is_part(x) && before.part(x).child_of == Some(m)
        implies #[trigger] mid.model(m).model.graph.nodes().contains(x) by {
        assert(before.part_wf(x));
    }
}

proof fn lemma_embody_models(
    before: &World,
    mid: &World,
    after: &World,
    m: u64,
    offset: ShapeOffset,
    up: int,
    x: u64,
)
    requires
        embody_here(before, mid, after, m, offset),
        up == m + 1,
        before.is_model(x),
    ensures
        after.is_model(x),
        crate::world::same_but_body(before.model(x), after.model(x)),
        if x < up && before.model(x).body is None {
            model_embodied(after, x, offset) && (after.model(x).body->0).0
                >= before.physics.rigid_bodies@.len()
        } else {
            after.model(x).body == before.model(x).body
        },
{
    lemma_embody_basics(before, mid, after, m, offset);
    let nodes = mid.model(m).model.graph.nodes();
    assert(mid.is_model(x));
    if x != m {
        assert(!nodes.contains(x));
        assert(after.entities@[x as int] == mid.entities@[x as int]);
        if x < m && before.model(x).body is None {
            let h = mid.model(x).body->0;
            assert(mid.physics.body(h) is Some);
            assert(after.physics.rigid_bodies@.take(
                mid.physics.rigid_bodies@.len() as int,
            )[h.0 as int] == after.physics.rigid_bodies@[h.0 as int]);
            assert forall|c: u64| #[trigger]
                after.model(x).model.graph.nodes().contains(c) implies child_attached(
                after,
                c,
                h,
                offset,
            ) by {
                assert(child_attached(mid, c, h, offset));
                assert(mid.model_wf(x));
                assert(mid.is_child(c, x));
                assert(!nodes.contains(c));
                assert(after.entities@[c as int] == mid.entities@[c as int]);
                let s = mid.part(c).shape->0;
                assert(mid.physics.collider(s) is Some);
            }
        }
    }
}

proof fn lemma_embody_parts(
    before: &World,
    mid: &World,
    after: &World,
    m: u64,
    offset: ShapeOffset,
    up: int,
    e: u64,
)
    requires
        embody_here(before, mid, after, m, offset),
        up == m + 1,
        before.is_part(e),
    ensures
        after.is_part(e),
        crate::world::same_but_handles(before.part(e), after.part(e)),
        after.part(e).body == before.part(e).body,
        if in_bodiless_model(before, e, up) {
            after.part(e).shape is Some && (after.part(e).shape->0).0
                >= before.physics.colliders@.len()
        } else {
            after.part(e).shape == before.part(e).shape
        },
{
    lemma_embody_basics(before, mid, after, m, offset);
    let nodes = mid.model(m).model.graph.nodes();
    let kids = mid.model(m).children@;
    assert(mid.is_part(e));
    if nodes.contains(e) {
        assert(kids.to_set().contains(e));
        let j = choose|j: int| 0 <= j < kids.len() && kids[j] == e;
        assert(shape_at(after, kids[j], mid.physics.colliders@.len() + j));
        assert(in_bodiless_model(before, e, up));
    } else {
        assert(after.entities@[e as int] == mid.entities@[e as int]);
        if in_bodiless_model(before, e, up) {
            assert(in_bodiless_model(before, e, m as int));
        }
    }
}

proof fn lemma_embody_lengths(
    before: &World,
    mid: &World,
    after: &World,
    m: u64,
    offset: ShapeOffset,
    up: int,
)
    requires
        embody_here(before, mid, after, m, offset),
        up == m + 1,
    ensures
        after.physics.rigid_bodies@.len() == before.physics.rigid_bodies@.len() + bodiless_models(
            before,
            up,
        ),
        after.physics.colliders@.len() == before.physics.colliders@.len() + children_of_bodiless(
            before,
            up,
        ),
{
    lemma_embody_basics(before, mid, after, m, offset);
    assert(bodiless_models(before, up) == bodiless_models(before, up - 1) + 1);
    assert(children_of_bodiless(before, up) == children_of_bodiless(before, up - 1)
        + before.entities@[up - 1]->Model_0.children@.len());
}

proof fn lemma_embody_new_body(
    before: &World,
    mid: &World,
    after: &World,
    m: u64,
    offset: ShapeOffset,
    up: int,
    h: BodyHandle,
)
    requires
        embody_here(before, mid, after, m, offset),
        up == m + 1,
        before.physics.rigid_bodies@.len() <= h.0 < after.physics.rigid_bodies@.len(),
    ensures
        body_of_embodied(before, after, h, up),
{
    lemma_embody_basics(before, mid, after, m, offset);
    let nodes = mid.model(m).model.graph.nodes();
    if h.0 < mid.physics.rigid_bodies@.len() {
        assert(body_of_embodied(before, mid, h, m as int));
        let x = choose|x: u64|
            x < m && before.is_model(x) && before.model(x).body is None && (#[trigger] mid.model(
                x,
            )).body == Some(h);
        assert(mid.is_model(x));
        assert(!nodes.contains(x));
        assert(after.entities@[x as int] == mid.entities@[x as int]);
        assert(x < up && before.is_model(x) && before.model(x).body is None && after.model(x).body
            == Some(h));
    } else {
        assert(m < up && before.is_model(m) && before.model(m).body is None && after.model(m).body
            == Some(h));
    }
}

proof fn lemma_embody_new_collider(
    before: &World,
    mid: &World,
    after: &World,
    m: u64,
    offset: ShapeOffset,
    up: int,
    s: ShapeHandle,
)
    requires
        embody_here(before, mid, after, m, offset),
        up == m + 1,
        before.physics.colliders@.len() <= s.0 < after.physics.colliders@.len(),
    ensures
        collider_of_embodied(before, after, s, up),
{
    lemma_embody_basics(before, mid, after, m, offset);
    let nodes = mid.model(m).model.graph.nodes();
    let kids = mid.model(m).children@;
    if s.0 < mid.physics.colliders@.len() {
        assert(collider_of_embodied(before, mid, s, m as int));
        let c = choose|c: u64|
            before.is_part(c) && in_bodiless_model(before, c, m as int) && (#[trigger] mid.part(
                c,
            )).shape == Some(s);
        assert(!nodes.contains(c));
        assert(after.entities@[c as int] == mid.entities@[c as int]);
        assert(before.is_part(c) && in_bodiless_model(before, c, up) && after.part(c).shape
            == Some(s));
    } else {
        let j = s.0 - mid.physics.colliders@.len();
        let c = kids[j];
        assert(kids.to_set().contains(c));
        assert(shape_at(after, kids[j], mid.physics.colliders@.len() + j));
        assert(before.is_part(c) && in_bodiless_model(before, c, up) && after.part(c).shape
            == Some(s));
    }
}

proof fn lemma_embody_old_collider(
    before: &World,
    mid: &World,
    after: &World,
    m: u64,
    offset: ShapeOffset,
    up: int,
    s: ShapeHandle,
)
    requires
        embody_here(before, mid, after, m, offset),
        up == m + 1,
        s.0 < before.physics.colliders@.len(),
    ensures
        after.physics.collider(s) == collider_after_embodying(before, s, offset, up),
{
    lemma_embody_basics(before, mid, after, m, offset);
    let nodes = mid.model(m).model.graph.nodes();
    assert(mid.physics.collider(s) == collider_after_embodying(before, s, offset, m as int));
    match mid.physics.collider(s) {
        Some(c) => {
            assert(before.physics.collider(s) == Some(c));
            if nodes.contains(c.owner) {
                assert(in_bodiless_model(before, c.owner, up));
            }
            if before.is_part(c.owner) && in_bodiless_model(before, c.owner, up) {
                if !in_bodiless_model(before, c.owner, m as int) {
                    assert(before.part(c.owner).child_of == Some(m));
                    assert(nodes.contains(c.owner));
                }
            }
        },
        None => {
            assert(mid.physics.colliders@[s.0 as int] is None);
            assert(after.physics.colliders@[s.0 as int] is None);
            if before.physics.collider(s) is Some {
                let c = before.physics.collider(s)->0;
                assert(in_bodiless_model(before, c.owner, m as int));
                assert(in_bodiless_model(before, c.owner, up));
            }
        },
    }
}

/// Giving one more model its body carries the pass on.
proof fn lemma_embody_step(
    before: &World,
    mid: &World,
    after: &World,
    m: u64,
    offset: ShapeOffset,
    up: int,
)
    requires
        embody_here(before, mid, after, m, offset),
        up == m + 1,
    ensures
        models_embodied(before, after, offset, up),
{
    lemma_embody_basics(before, mid, after, m, offset);
    lemma_embody_lengths(before, mid, after, m, offset, up);
    let nodes = mid.model(m).model.graph.nodes();
    assert forall|x: u64| #[trigger] before.is_model(x) implies after.is_model(x)
        && crate::world::same_but_body(before.model(x), after.model(x)) && if x < up
        && before.model(x).body is None {
        model_embodied(after, x, offset) && (after.model(x).body->0).0
            >= before.physics.rigid_bodies@.len()
    } else {
        after.model(x).body == before.model(x).body
    } by {
        lemma_embody_models(before, mid, after, m, offset, up, x);
    }
    assert forall|e: u64| #[trigger] before.is_part(e) implies after.is_part(e)
        && crate::world::same_but_handles(before.part(e), after.part(e)) && after.part(e).body
        == before.part(e).body && if in_bodiless_model(before, e, up) {
        after.part(e).shape is Some && (after.part(e).shape->0).0
            >= before.physics.colliders@.len()
    } else {
        after.part(e).shape == before.part(e).shape
    } by {
        lemma_embody_parts(before, mid, after, m, offset, up, e);
    }
    assert forall|h: BodyHandle|
        before.physics.rigid_bodies@.len() <= h.0 < after.physics.rigid_bodies@.len()
            implies #[trigger] body_of_embodied(before, after, h, up) by {
        lemma_embody_new_body(before, mid, after, m, offset, up, h);
    }
    assert forall|s: ShapeHandle|
        before.physics.colliders@.len() <= s.0 < after.physics.colliders@.len()
            implies #[trigger] collider_of_embodied(before, after, s, up) by {
        lemma_embody_new_collider(before, mid, after, m, offset, up, s);
    }
    assert forall|s: ShapeHandle| s.0 < before.physics.colliders@.len()
        implies #[trigger] after.physics.collider(s) == collider_after_embodying(
        before,
        s,
        offset,
        up,
    ) by {
        lemma_embody_old_collider(before, mid, after, m, offset, up, s);
    }
    assert forall|e: u64|
        e < before.entities@.len() && #[trigger] before.entities@[e as int] is Vacant
            implies after.entities@[e as int] is Vacant by {
        assert(mid.entities@[e as int] is Vacant);
        assert(!nodes.contains(e)) by {
            if nodes.contains(e) {
                assert(mid.is_part(e));
            }
        }
        assert(after.entities@[e as int] == mid.entities@[e as int]);
    }
    assert forall|h: BodyHandle| #[trigger] before.physics.body(h) is Some
        implies after.physics.body(h) == before.physics.body(h) by {
        assert(mid.physics.body(h) is Some);
        assert(after.physics.rigid_bodies@.take(
            mid.physics.rigid_bodies@.len() as int,
        )[h.0 as int] == after.physics.rigid_bodies@[h.0 as int]);
    }
}

/// Passing over an entity that is no model without a body carries the pass
/// on.
proof fn lemma_embody_skip(before: &World, after: &World, offset: ShapeOffset, m: u64, up: int)
    requires
        before.wf(),
        m < before.entities@.len(),
        up == m + 1,
        models_embodied(before, after, offset, m as int),
        !is_bodiless_model(after, m as int),
    ensures
        models_embodied(before, after, offset, up),
{
    let i = m as int;
    assert(!is_bodiless_model(before, i)) by {
        if is_bodiless_model(before, i) {
            assert(before.is_model(m));
        }
    }
    assert(bodiless_models(before, up) == bodiless_models(before, up - 1));
    assert(children_of_bodiless(before, up) == children_of_bodiless(before, up - 1));
    assert forall|e: u64| #[trigger]
        before.is_part(e) implies (in_bodiless_model(before, e, up) <==> in_bodiless_model(
        before,
        e,
        i,
    )) by {}
    assert forall|h: BodyHandle|
        before.physics.rigid_bodies@.len() <= h.0 < after.physics.rigid_bodies@.len()
            implies #[trigger] body_of_embodied(before, after, h, up) by {
        assert(body_of_embodied(before, after, h, i));
        let x = choose|x: u64|
            x < i && before.is_model(x) && before.model(x).body is None && (#[trigger] after.model(
                x,
            )).body == Some(h);
        assert(x < up && before.is_model(x) && before.model(x).body is None && after.model(x).body
            == Some(h));
    }
    assert forall|s: ShapeHandle|
        before.physics.colliders@.len() <= s.0 < after.physics.colliders@.len()
            implies #[trigger] collider_of_embodied(before, after, s, up) by {
        assert(collider_of_embodied(before, after, s, i));
        let c = choose|c: u64|
            before.is_part(c) && in_bodiless_model(before, c, i) && (#[trigger] after.part(
                c,
            )).shape == Some(s);
        assert(before.is_part(c) && in_bodiless_model(before, c, up) && after.part(c).shape
            == Some(s));
    }
    assert forall|s: ShapeHandle| s.0 < before.physics.colliders@.len()
        implies #[trigger] after.physics.collider(s) == collider_after_embodying(
        before,
        s,
        offset,
        up,
    ) by {
        assert(after.physics.collider(s) == collider_after_embodying(before, s, offset, i));
        if before.physics.collider(s) is Some {
            let c = before.physics.collider(s)->0;
            if before.is_part(c.owner) {
                assert(in_bodiless_model(before, c.owner, up) <==> in_bodiless_model(
                    before,
                    c.owner,
                    i,
                ));
            }
        }
    }
}

/// Gives every model without a body its body.
pub(crate) fn embody_models(world: &mut World, reuse: bool)
    requires
        old(world).wf(),
        reuse ==> all_children_have_colliders(old(world)),
    ensures
        final(world).wf(),
        models_embodied(
            old(world),
            final(world),
            if reuse {
                ShapeOffset::KeepWorldPose
            } else {
                ShapeOffset::Authored
            },
            old(world).entities@.len() as int,
        ),
{
    let ghost offset = if reuse {
        ShapeOffset::KeepWorldPose
    } else {
        ShapeOffset::Authored
    };
    let n = world.entities.len();
    let mut i: usize = 0;
    while i < n
        invariant
            n == old(world).entities@.len(),
            i <= n,
            old(world).wf(),
            world.wf(),
            offset == if reuse {
                ShapeOffset::KeepWorldPose
            } else {
                ShapeOffset::Authored
            },
            reuse ==> all_children_have_colliders(old(world)),
            models_embodied(old(world), world, offset, i as int),
        decreases n - i,
    {
        let ghost mid = *world;
        let ghost up = i + 1;
        let m = i as u64;
        let bodiless = match &world.entities[i] {
            Entry::Model(entry) => entry.body.is_none(),
            _ => false,
        };
        if bodiless {
            proof {
                assert(old(world).is_model(m)) by {
                    if old(world).is_part(m) {
                        assert(world.is_part(m));
                    }
                    if old(world).entities@[m as int] is Vacant {
                        assert(world.entities@[m as int] is Vacant);
                    }
                }
                assert(old(world).model_wf(m));
                assert(mid.model_wf(m));
                if reuse {
                    assert forall|c: u64| #[trigger]
                        mid.model(m).model.graph.nodes().contains(c)
                            implies mid.part(c).shape is Some by {
                        assert(old(world).is_child(c, m));
                        assert(old(world).part(c).shape is Some);
                        assert(mid.is_child(c, m));
                    }
                }
            }
            embody_model(world, m, reuse);
            proof {
                assert(embodied_one(&mid, world, m, offset));
                lemma_embody_step(old(world), &mid, world, m, offset, up as int);
            }
        } else {
            proof {
                lemma_embody_skip(old(world), world, offset, m, up as int);
            }
        }
        i = i + 1;
    }
}

/// The part is a child of a model below `upto` that has no body.
pub open spec fn in_bodiless_model(world: &World, e: u64, upto: int) -> bool {
    match world.part(e).child_of {
        Some(m) => m < upto && world.is_model(m) && world.model(m).body is None,
        None => false,
    }
}

/// Every child of a model without a body has a collider.
pub open spec fn all_children_have_colliders(world: &World) -> bool {
    forall|m: u64, c: u64|
        world.is_model(m) && world.model(m).body is None && #[trigger] world.model(
            m,
        ).model.graph.nodes().contains(c) ==> world.part(c).shape is Some
}

/// Gives the models of a new scene their bodies: one body per model, fixed
/// while anchors hold the model and dynamic otherwise, with a new collider
/// for each child on it, placed where the child was authored.
pub fn setup_models(world: &mut World)
    requires
        old(world).wf(),
    ensures
        final(world).wf(),
        models_embodied(
            old(world),
            final(world),
            ShapeOffset::Authored,
            old(world).entities@.len() as int,
        ),
{
    embody_models(world, false);
}

} // verus!
