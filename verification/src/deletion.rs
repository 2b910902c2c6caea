//! What follows when an entity loses its collider, its body or its model.

use vstd::prelude::*;

use crate::model::Model;
use crate::physics::released;
use crate::sets::remove_value;
use crate::world::Entry;
use crate::world::ModelEntry;
use crate::world::World;

verus! {

/// The part under `entity` loses its collider: the collider leaves the
/// ledger, and if the part is an anchor of the anchor table it is queued,
/// so that its dependents are told at the next pass. The part keeps the
/// handle; taking it away is up to the caller.
pub fn handle_shape_removal(world: &mut World, entity: u64)
    requires
        old(world).is_part(entity),
        old(world).part(entity).shape is Some,
    ensures
        final(world).entities == old(world).entities,
        final(world).physics.rigid_bodies@ == old(world).physics.rigid_bodies@,
        final(world).physics.colliders@ == {
            let h = old(world).part(entity).shape->0;
            if h.0 < old(world).physics.colliders@.len() {
                old(world).physics.colliders@.update(h.0 as int, None)
            } else {
                old(world).physics.colliders@
            }
        },
        final(world).anchors.anchors == old(world).anchors.anchors,
        final(world).anchors.delete_queue@ == if old(world).anchors.anchors@.dom().contains(
            entity,
        ) {
            old(world).anchors.delete_queue@.push(entity)
        } else {
            old(world).anchors.delete_queue@
        },
        final(world).freed == old(world).freed,
        final(world).untagged == old(world).untagged,
{
    let at = world.slot(entity);
    let handle = match &world.entities[at] {
        Entry::Part(p) => p.shape,
        _ => None,
    };
    match handle {
        Some(h) => {
            world.physics.remove_collider(h);
        },
        None => {},
    }
    if world.anchors.anchors.contains_key(entity) {
        world.anchors.delete_queue.push_back(entity);
    }
}

/// The body of an entity, be it a part or a model.
pub open spec fn body_of(entry: Entry) -> Option<crate::physics::BodyHandle> {
    match entry {
        Entry::Part(p) => p.body,
        Entry::Model(m) => m.body,
        Entry::Vacant => None,
    }
}

/// The entity still has children.
pub open spec fn has_children(entry: Entry) -> bool {
    entry matches Entry::Model(m) && m.children@.len() > 0
}

/// The entity under `entity` loses its body: the body leaves the ledger.
/// The colliders on it go with it if the entity still has children;
/// otherwise they stay, without a body. The entity keeps the handle; taking
/// it away is up to the caller.
pub fn handle_body_removal(world: &mut World, entity: u64)
    requires
        entity < old(world).entities@.len(),
        body_of(old(world).entities@[entity as int]) is Some,
    ensures
        final(world).entities == old(world).entities,
        final(world).anchors == old(world).anchors,
        final(world).freed == old(world).freed,
        final(world).untagged == old(world).untagged,
        final(world).physics.colliders@.len() == old(world).physics.colliders@.len(),
        ({
            let h = body_of(old(world).entities@[entity as int])->0;
            let found = old(world).physics.body(h) is Some;
            &&& final(world).physics.rigid_bodies@ == if found {
                old(world).physics.rigid_bodies@.update(h.0 as int, None)
            } else {
                old(world).physics.rigid_bodies@
            }
            &&& forall|i: int|
                0 <= i < old(world).physics.colliders@.len()
                    ==> #[trigger] final(world).physics.colliders@[i] == if found {
                    released(
                        old(world).physics.colliders@[i],
                        h,
                        has_children(old(world).entities@[entity as int]),
                    )
                } else {
                    old(world).physics.colliders@[i]
                }
        }),
{
    let at = world.slot(entity);
    let (handle, remove_colliders) = match &world.entities[at] {
        Entry::Part(p) => (p.body, false),
        Entry::Model(m) => (m.body, m.children.len() > 0),
        Entry::Vacant => (None, false),
    };
    match handle {
        Some(h) => {
            world.physics.remove_body(h, remove_colliders);
        },
        None => {},
    }
}

/// A child is about to leave its model: the model loses the child as a
/// node of its graph, with every edge that ends in it, and as a child, and
/// is marked dirty. If the parent is no model nothing happens. The child
/// keeps naming its parent; taking that away is up to the caller.
pub fn handle_part_of_model_deletion(world: &mut World, child: u64)
    requires
        old(world).is_part(child),
        old(world).part(child).child_of is Some,
        ({
            let p = old(world).part(child).child_of->0;
            old(world).is_model(p) ==> old(world).model(p).model.graph.wf() && old(world).model(
                p,
            ).children@.no_duplicates()
        }),
    ensures
        final(world).entities@.len() == old(world).entities@.len(),
        final(world).anchors == old(world).anchors,
        final(world).physics == old(world).physics,
        final(world).freed == old(world).freed,
        final(world).untagged == old(world).untagged,
        ({
            let p = old(world).part(child).child_of->0;
            &&& forall|x: int|
                0 <= x < old(world).entities@.len() && x != p ==> final(world).entities@[x] == old(
                    world,
                ).entities@[x]
            &&& !old(world).is_model(p) ==> final(world).entities@ == old(world).entities@
            &&& old(world).is_model(p) ==> final(world).is_model(p) && child_removed(
                old(world).model(p),
                final(world).model(p),
                child,
            )
        }),
{
    let ghost p = old(world).part(child).child_of->0;
    let at = world.slot(child);
    let parent = match &world.entities[at] {
        Entry::Part(part) => part.child_of,
        _ => None,
    };
    match parent {
        Some(parent_id) => {
            if parent_id < world.entities.len() as u64 {
                let slot = world.slot(parent_id);
                let entry = world.take(slot);
                match entry {
                    Entry::Model(model_entry) => {
                        let ModelEntry { model, children, body, velocity_of } = model_entry;
                        let Model { graph, anchors, dirty } = model;
                        let mut graph = graph;
                        let mut children = children;
                        graph.remove_node(child);
                        remove_value(&mut children, child);
                        world.put(
                            slot,
                            Entry::Model(
                                ModelEntry {
                                    model: Model { graph, anchors, dirty: true },
                                    children,
                                    body,
                                    velocity_of,
                                },
                            ),
                        );
                    },
                    other => {
                        world.put(slot, other);
                        proof {
                            assert(world.entities@ =~= old(world).entities@);
                        }
                    },
                }
            }
        },
        None => {},
    }
}

/// The model is as it was but for one child less: the child has left the
/// graph with every edge that ended in it, and the list of children; the
/// model is dirty.
pub open spec fn child_removed(before: ModelEntry, after: ModelEntry, child: u64) -> bool {
    &&& after.model.graph.wf()
    &&& after.model.graph.nodes() == before.model.graph.nodes().remove(child)
    &&& forall|x: u64, y: u64|
        #![trigger after.model.graph.adjacent(x, y)]
        #![trigger before.model.graph.adjacent(x, y)]
        after.model.graph.adjacent(x, y) <==> before.model.graph.adjacent(x, y) && x != child && y
            != child
    &&& after.model.anchors == before.model.anchors
    &&& after.model.dirty
    &&& after.children@.no_duplicates()
    &&& after.children@.to_set() == before.children@.to_set().remove(child)
    &&& after.body == before.body
    &&& after.velocity_of == before.velocity_of
}

} // verus!
