use freebricks::deletion::handle_body_removal;
use freebricks::deletion::handle_part_of_model_deletion;
use freebricks::deletion::handle_shape_removal;
use freebricks::edits::despawn;
use freebricks::edits::detach;
use freebricks::edits::purge_member;
use freebricks::edits::release_children;
use freebricks::edits::remove_anchor;
use freebricks::model_graph::build_models;
use freebricks::model_graph::handle_model_transform;
use freebricks::parts::Contact;
use freebricks::parts::Geometry;
use freebricks::parts::Part;
use freebricks::parts::StudInfo;
use freebricks::physics::BodyHandle;
use freebricks::physics::BodyPose;
use freebricks::physics::Collider;
use freebricks::physics::PhysicsState;
use freebricks::physics::RigidBody;
use freebricks::physics::RigidBodyType;
use freebricks::physics::ShapeHandle;
use freebricks::physics::ShapeOffset;
use freebricks::physics_state::PoseCopy;
use freebricks::physics_state::PoseSource;
use freebricks::setup::build_body;
use freebricks::setup::build_shape;
use freebricks::setup::setup_models;
use freebricks::setup::setup_parts;
use freebricks::transform::handle_anchor_queue;
use freebricks::transform::handle_model_unanchor;
use freebricks::transform::handle_part_unanchor;
use freebricks::transform::handle_submodel;
use freebricks::transform::handle_subpart;
use freebricks::world::Entry;
use freebricks::world::Freed;
use freebricks::world::ModelEntry;
use freebricks::world::PartEntry;
use freebricks::world::PassError;
use freebricks::world::World;

/// A column of unit parts: the part at height `h` stands on the one at
/// height `h - 1`.
fn column(heights: &[(i32, bool)]) -> (World, Geometry) {
    let mut world = World::new();
    for (_, anchor) in heights {
        world.spawn_part(Part::default(), StudInfo::default(), *anchor);
    }
    let mut contacts = Vec::new();
    for (a, _) in heights {
        let mut row = Vec::new();
        for (b, _) in heights {
            row.push(Contact {
                touch: (a - b).abs() <= 1,
                rests_on: a - b == 1,
                carries: b - a == 1,
            });
        }
        contacts.push(row);
    }
    (world, Geometry { upright: vec![true; heights.len()], contacts })
}

fn built(heights: &[(i32, bool)]) -> World {
    let (mut world, placed) = column(heights);
    build_models(&mut world, &placed);
    PhysicsState::setup_system(&mut world);
    assert_eq!(PhysicsState::update_system(&mut world), Ok(()));
    world
}

fn part(world: &World, e: u64) -> &PartEntry {
    match &world.entities[e as usize] {
        Entry::Part(p) => p,
        _ => panic!("no part under {}", e),
    }
}

fn model(world: &World, e: u64) -> &ModelEntry {
    match &world.entities[e as usize] {
        Entry::Model(m) => m,
        _ => panic!("no model under {}", e),
    }
}

fn children(world: &World, e: u64) -> Vec<u64> {
    let mut v = model(world, e).children.clone();
    v.sort();
    v
}

fn models(world: &World) -> Vec<u64> {
    (0..world.entities.len() as u64)
        .filter(|&e| matches!(world.entities[e as usize], Entry::Model(_)))
        .collect()
}

fn anchors_of(world: &World, e: u64) -> Vec<u64> {
    let mut v: Vec<u64> = match &part(world, e).anchored {
        Some(a) => a.0.members(),
        None => Vec::new(),
    };
    v.sort();
    v
}

fn body_type(world: &World, h: Option<BodyHandle>) -> RigidBodyType {
    world.physics.get_body(h.expect("no body")).expect("body is gone").body_type
}

#[test]
fn two_snapped_parts_make_one_model() {
    let world = built(&[(0, false), (1, false)]);
    let found = models(&world);
    assert_eq!(found, vec![2]);
    let entry = model(&world, 2);
    assert_eq!(entry.model.graph.node_count(), 2);
    assert_eq!(entry.model.graph.edge_count(), 1);
    assert!(!entry.model.dirty);
    assert_eq!(part(&world, 0).child_of, Some(2));
    assert_eq!(part(&world, 1).child_of, Some(2));
}

#[test]
fn parts_on_either_side_of_an_anchor_do_not_share_a_model() {
    // 0 - 1 - [2] - 3 - 4
    let world = built(&[(0, false), (1, false), (2, true), (3, false), (4, false)]);
    let low = part(&world, 0).child_of.expect("0 is in a model");
    let high = part(&world, 4).child_of.expect("4 is in a model");
    assert_ne!(low, high);
    assert_eq!(part(&world, 1).child_of, Some(low));
    assert_eq!(part(&world, 3).child_of, Some(high));
    assert_eq!(models(&world).len(), 2);
    // the anchor is no child, has a collider and no body
    let anchor = part(&world, 2);
    assert!(anchor.anchor);
    assert_eq!(anchor.child_of, None);
    assert!(anchor.shape.is_some());
    assert_eq!(anchor.body, None);
    assert_eq!(
        world.physics.get_collider(anchor.shape.unwrap()),
        Some(Collider { owner: 2, parent: None, offset: ShapeOffset::Authored })
    );
    for m in [low, high] {
        assert!(!model(&world, m).model.graph.contains_node(2));
        assert_eq!(model(&world, m).model.anchors.members(), vec![2]);
        assert_eq!(body_type(&world, model(&world, m).body), RigidBodyType::Fixed);
    }
    assert_eq!(anchors_of(&world, 1), vec![2]);
    assert_eq!(anchors_of(&world, 3), vec![2]);
    assert_eq!(anchors_of(&world, 0), Vec::<u64>::new());
    let mut listed: Vec<u64> = world.anchors.anchors.members(2);
    listed.sort();
    assert_eq!(listed, vec![1, 3]);
}

#[test]
fn a_part_on_an_anchor_is_fixed_until_the_anchor_goes() {
    // [0] - 1
    let mut world = built(&[(0, true), (1, false)]);
    assert!(models(&world).is_empty());
    assert_eq!(anchors_of(&world, 1), vec![0]);
    assert_eq!(body_type(&world, part(&world, 1).body), RigidBodyType::Fixed);
    let body = world.physics.get_body(part(&world, 1).body.unwrap()).unwrap();
    assert_eq!(
        body,
        RigidBody {
            body_type: RigidBodyType::Fixed,
            user_data: 1,
            pose: BodyPose::Authored,
            velocity_of: None
        }
    );
    assert_eq!(
        world.physics.get_collider(part(&world, 1).shape.unwrap()),
        Some(Collider { owner: 1, parent: part(&world, 1).body, offset: ShapeOffset::Identity })
    );
    despawn(&mut world, 0);
    assert_eq!(world.anchors.delete_queue.iter().copied().collect::<Vec<u64>>(), vec![0]);
    // nothing is told before the pass
    assert_eq!(anchors_of(&world, 1), vec![0]);
    assert_eq!(PhysicsState::update_system(&mut world), Ok(()));
    assert!(part(&world, 1).anchored.is_none());
    assert_eq!(body_type(&world, part(&world, 1).body), RigidBodyType::Dynamic);
    assert!(world.anchors.delete_queue.is_empty());
    assert!(!world.anchors.anchors.contains_key(0));
}

#[test]
fn a_part_between_two_anchors_is_held_until_both_are_gone() {
    // [0] - 1 - [2]
    let mut world = built(&[(0, true), (1, false), (2, true)]);
    assert_eq!(anchors_of(&world, 1), vec![0, 2]);
    assert_eq!(body_type(&world, part(&world, 1).body), RigidBodyType::Fixed);
    despawn(&mut world, 0);
    assert_eq!(PhysicsState::update_system(&mut world), Ok(()));
    assert_eq!(anchors_of(&world, 1), vec![2]);
    assert_eq!(body_type(&world, part(&world, 1).body), RigidBodyType::Fixed);
    assert!(world.anchors.anchors.contains_key(2));
    despawn(&mut world, 2);
    assert_eq!(PhysicsState::update_system(&mut world), Ok(()));
    assert!(part(&world, 1).anchored.is_none());
    assert_eq!(body_type(&world, part(&world, 1).body), RigidBodyType::Dynamic);
    assert_eq!(world.anchors.anchors.len(), 0);
}

#[test]
fn both_anchors_gone_in_one_frame() {
    // [0] - 1 - 2 - [3]: the model loses both anchors at once
    let mut world = built(&[(0, true), (1, false), (2, false), (3, true)]);
    let m = part(&world, 1).child_of.unwrap();
    assert_eq!(model(&world, m).model.anchors.len(), 2);
    assert_eq!(body_type(&world, model(&world, m).body), RigidBodyType::Fixed);
    despawn(&mut world, 0);
    despawn(&mut world, 3);
    assert_eq!(world.anchors.delete_queue.iter().copied().collect::<Vec<u64>>(), vec![0, 3]);
    handle_anchor_queue(&mut world);
    assert!(model(&world, m).model.anchors.is_empty());
    assert!(part(&world, 1).anchored.is_none());
    assert!(part(&world, 2).anchored.is_none());
    // the body follows at the end of the pass
    assert_eq!(body_type(&world, model(&world, m).body), RigidBodyType::Fixed);
    assert_eq!(handle_model_unanchor(&mut world), Ok(()));
    assert_eq!(body_type(&world, model(&world, m).body), RigidBodyType::Dynamic);
}

#[test]
fn a_model_keeps_the_anchor_that_is_left() {
    // [0] - 1 - 2 - [3]
    let mut world = built(&[(0, true), (1, false), (2, false), (3, true)]);
    let m = part(&world, 1).child_of.unwrap();
    despawn(&mut world, 0);
    assert_eq!(PhysicsState::update_system(&mut world), Ok(()));
    assert_eq!(model(&world, m).model.anchors.members(), vec![3]);
    assert_eq!(body_type(&world, model(&world, m).body), RigidBodyType::Fixed);
    assert!(part(&world, 1).anchored.is_none());
    assert_eq!(anchors_of(&world, 2), vec![3]);
}

#[test]
fn the_middle_of_three_gone_leaves_two_parts_and_no_model() {
    let mut world = built(&[(0, false), (1, false), (2, false)]);
    let m = part(&world, 0).child_of.unwrap();
    let old_body = model(&world, m).body;
    despawn(&mut world, 1);
    assert!(model(&world, m).model.dirty);
    assert_eq!(children(&world, m), vec![0, 2]);
    assert_eq!(PhysicsState::update_system(&mut world), Ok(()));
    assert!(models(&world).is_empty());
    assert!(matches!(world.entities[m as usize], Entry::Vacant));
    assert!(matches!(world.entities[1], Entry::Vacant));
    assert!(world.physics.get_body(old_body.unwrap()).is_none());
    for e in [0u64, 2] {
        let p = part(&world, e);
        assert_eq!(p.child_of, None);
        let body = world.physics.get_body(p.body.unwrap()).unwrap();
        assert_eq!(
            body,
            RigidBody {
                body_type: RigidBodyType::Dynamic,
                user_data: e,
                pose: BodyPose::AtCollider(p.shape.unwrap()),
                velocity_of: old_body,
            }
        );
        assert_eq!(
            world.physics.get_collider(p.shape.unwrap()),
            Some(Collider { owner: e, parent: p.body, offset: ShapeOffset::Identity })
        );
    }
}

#[test]
fn new_models_take_over_the_velocity_and_keep_their_colliders_in_place() {
    let mut world = built(&[(0, false), (1, false), (2, false), (3, false), (4, false)]);
    let m = part(&world, 0).child_of.unwrap();
    let old_body = model(&world, m).body;
    let old_shape = part(&world, 0).shape;
    despawn(&mut world, 2);
    assert_eq!(PhysicsState::update_system(&mut world), Ok(()));
    let found = models(&world);
    assert_eq!(found.len(), 2);
    for id in found {
        let entry = model(&world, id);
        assert_eq!(entry.velocity_of, old_body);
        let body = world.physics.get_body(entry.body.unwrap()).unwrap();
        assert_eq!(
            body,
            RigidBody {
                body_type: RigidBodyType::Dynamic,
                user_data: id,
                pose: BodyPose::Origin,
                velocity_of: old_body
            }
        );
        for c in &entry.children {
            let p = part(&world, *c);
            assert_eq!(p.child_of, Some(id));
            assert_eq!(p.body, None);
            assert_eq!(
                world.physics.get_collider(p.shape.unwrap()),
                Some(Collider { owner: *c, parent: entry.body, offset: ShapeOffset::KeepWorldPose })
            );
        }
    }
    // the collider was taken out and entered anew
    assert_ne!(part(&world, 0).shape, old_shape);
    assert!(world.physics.get_collider(old_shape.unwrap()).is_none());
}

#[test]
fn a_detached_child_gets_a_body_where_its_collider_stands() {
    // [0] - 1 - 2
    let mut world = built(&[(0, true), (1, false), (2, false)]);
    let m = part(&world, 1).child_of.unwrap();
    let shape = part(&world, 1).shape.unwrap();
    detach(&mut world, 1, None);
    assert_eq!(world.freed, vec![Freed { part: 1, velocity_of: None }]);
    assert_eq!(part(&world, 1).child_of, None);
    assert!(model(&world, m).model.dirty);
    assert_eq!(model(&world, m).model.graph.node_count(), 1);
    handle_subpart(&mut world);
    assert!(world.freed.is_empty());
    let p = part(&world, 1);
    assert_eq!(p.shape, Some(shape));
    assert_eq!(
        world.physics.get_body(p.body.unwrap()),
        Some(RigidBody {
            body_type: RigidBodyType::Fixed,
            user_data: 1,
            pose: BodyPose::AtCollider(shape),
            velocity_of: None
        })
    );
    assert_eq!(
        world.physics.get_collider(shape),
        Some(Collider { owner: 1, parent: p.body, offset: ShapeOffset::Identity })
    );
    // no anchor lists the part any more; it still names the anchor
    assert!(world.anchors.anchors.members(0).is_empty());
    assert_eq!(anchors_of(&world, 1), vec![0]);
    // the rest of the frame takes the model of one part apart
    assert_eq!(PhysicsState::update_system(&mut world), Ok(()));
    assert!(models(&world).is_empty());
    assert_eq!(body_type(&world, part(&world, 2).body), RigidBodyType::Dynamic);
}

#[test]
fn handle_subpart_passes_over_what_cannot_get_a_body() {
    let mut world = built(&[(0, false), (1, false), (5, false), (9, true)]);
    let before_bodies = world.physics.rigid_bodies.len();
    let before_colliders = world.physics.colliders.clone();
    world.freed.push(Freed { part: 0, velocity_of: None }); // still under its model
    world.freed.push(Freed { part: 3, velocity_of: None }); // an anchor
    world.freed.push(Freed { part: 40, velocity_of: None }); // no such entity
    handle_subpart(&mut world);
    assert!(world.freed.is_empty());
    assert_eq!(world.physics.rigid_bodies.len(), before_bodies);
    assert_eq!(world.physics.colliders, before_colliders);
    assert_eq!(part(&world, 3).body, None);
}

#[test]
fn handle_subpart_gives_a_new_body_for_every_note_of_a_part_on_its_own() {
    let mut world = built(&[(0, false), (1, false), (5, false), (9, true)]);
    let bodies = world.physics.rigid_bodies.len();
    let colliders = world.physics.colliders.len();
    let old_body = part(&world, 2).body.expect("2 has a body of its own");
    let shape = part(&world, 2).shape.unwrap();
    world.freed.push(Freed { part: 2, velocity_of: Some(BodyHandle(0)) });
    world.freed.push(Freed { part: 2, velocity_of: None });
    handle_subpart(&mut world);
    assert!(world.freed.is_empty());
    // one body for each note, in their order, and nothing else
    assert_eq!(world.physics.rigid_bodies.len(), bodies + 2);
    assert_eq!(world.physics.colliders.len(), colliders);
    assert_eq!(
        world.physics.rigid_bodies[bodies],
        Some(RigidBody {
            body_type: RigidBodyType::Dynamic,
            user_data: 2,
            pose: BodyPose::AtCollider(shape),
            velocity_of: Some(BodyHandle(0)),
        })
    );
    assert_eq!(
        world.physics.rigid_bodies[bodies + 1],
        Some(RigidBody {
            body_type: RigidBodyType::Dynamic,
            user_data: 2,
            pose: BodyPose::AtCollider(shape),
            velocity_of: None,
        })
    );
    // the part goes by the last one; the body that it had stays in the ledger
    assert_eq!(part(&world, 2).body, Some(BodyHandle(bodies + 1)));
    assert_eq!(part(&world, 2).shape, Some(shape));
    assert!(world.physics.get_body(old_body).is_some());
    assert_eq!(
        world.physics.get_collider(shape),
        Some(Collider {
            owner: 2,
            parent: Some(BodyHandle(bodies + 1)),
            offset: ShapeOffset::Identity
        })
    );
}

#[test]
fn a_split_piece_keeps_the_anchor_that_holds_a_member() {
    // 0 - 1 - 2 - 3 - 4 - [5]
    let mut world =
        built(&[(0, false), (1, false), (2, false), (3, false), (4, false), (5, true)]);
    let whole = part(&world, 0).child_of.unwrap();
    assert_eq!(model(&world, whole).model.anchors.members(), vec![5]);
    assert_eq!(body_type(&world, model(&world, whole).body), RigidBodyType::Fixed);
    despawn(&mut world, 2);
    assert_eq!(PhysicsState::update_system(&mut world), Ok(()));
    let found = models(&world);
    assert_eq!(found.len(), 2);
    let low = part(&world, 0).child_of.expect("0 is in a model");
    let high = part(&world, 4).child_of.expect("4 is in a model");
    assert_ne!(low, high);
    assert_eq!(children(&world, low), vec![0, 1]);
    assert_eq!(children(&world, high), vec![3, 4]);
    // the upper piece is still held by the anchor, the lower one is free
    assert_eq!(model(&world, high).model.anchors.members(), vec![5]);
    assert!(model(&world, low).model.anchors.is_empty());
    assert_eq!(body_type(&world, model(&world, high).body), RigidBodyType::Fixed);
    assert_eq!(body_type(&world, model(&world, low).body), RigidBodyType::Dynamic);
    assert_eq!(anchors_of(&world, 4), vec![5]);
    // and is released when the anchor goes
    despawn(&mut world, 5);
    assert_eq!(PhysicsState::update_system(&mut world), Ok(()));
    assert!(model(&world, high).model.anchors.is_empty());
    assert_eq!(body_type(&world, model(&world, high).body), RigidBodyType::Dynamic);
}

#[test]
fn a_part_alone_in_its_piece_keeps_its_anchor_and_is_fixed() {
    // 0 - 1 - 2 - [3]
    let mut world = built(&[(0, false), (1, false), (2, false), (3, true)]);
    despawn(&mut world, 1);
    assert_eq!(PhysicsState::update_system(&mut world), Ok(()));
    assert!(models(&world).is_empty());
    assert_eq!(anchors_of(&world, 2), vec![3]);
    assert_eq!(body_type(&world, part(&world, 2).body), RigidBodyType::Fixed);
    assert_eq!(body_type(&world, part(&world, 0).body), RigidBodyType::Dynamic);
}

#[test]
fn building_names_exactly_the_anchors_that_parts_snap_to() {
    // 0 - [1] - 2, and 5 - [6] apart from them, and [9] that nothing touches
    let (mut world, placed) =
        column(&[(0, false), (1, true), (2, false), (5, false), (6, true), (9, true)]);
    build_models(&mut world, &placed);
    let mut keys = world.anchors.anchors.keys();
    keys.sort();
    assert_eq!(keys, vec![1, 4]);
    let mut listed = world.anchors.anchors.members(1);
    listed.sort();
    assert_eq!(listed, vec![0, 2]);
    assert_eq!(world.anchors.anchors.members(4), vec![3]);
    assert!(!world.anchors.anchors.contains_key(5));
    assert!(models(&world).is_empty());
}

#[test]
fn building_parts_that_do_not_touch_leaves_the_anchor_table_empty() {
    let (mut world, placed) = column(&[(0, false), (2, false), (4, false), (6, false)]);
    build_models(&mut world, &placed);
    assert_eq!(world.anchors.anchors.len(), 0);
    assert!(models(&world).is_empty());
    for e in 0..4 {
        assert!(part(&world, e).anchored.is_none());
        assert_eq!(part(&world, e).child_of, None);
    }
}

#[test]
fn setup_enters_one_body_for_each_model_and_one_collider_for_each_child() {
    // 0 - 1 - 2 - [3], and 7 on its own
    let (mut world, placed) =
        column(&[(0, false), (1, false), (2, false), (3, true), (7, false)]);
    build_models(&mut world, &placed);
    setup_parts(&mut world);
    // the anchor's collider and the lone part's body and collider
    assert_eq!(world.physics.rigid_bodies.len(), 1);
    assert_eq!(world.physics.colliders.len(), 2);
    let before = world.physics.colliders.clone();
    let lone_body = part(&world, 4).body;
    setup_models(&mut world);
    assert_eq!(world.physics.rigid_bodies.len(), 2);
    assert_eq!(world.physics.colliders.len(), 5);
    // what was there stays as it was
    assert_eq!(&world.physics.colliders[..2], &before[..]);
    assert_eq!(part(&world, 4).body, lone_body);
    let m = models(&world)[0];
    let body = model(&world, m).body.unwrap();
    assert_eq!(body, BodyHandle(1));
    // exactly the children's colliders sit on the body of the model
    let mut on_body: Vec<u64> = world
        .physics
        .colliders
        .iter()
        .filter_map(|c| c.as_ref())
        .filter(|c| c.parent == Some(body))
        .map(|c| c.owner)
        .collect();
    on_body.sort();
    assert_eq!(on_body, vec![0, 1, 2]);
    let mut new_handles: Vec<usize> =
        (0..3u64).map(|c| part(&world, c).shape.unwrap().0).collect();
    new_handles.sort();
    assert_eq!(new_handles, vec![2, 3, 4]);
    let anchor_shape = part(&world, 3).shape.unwrap();
    assert_eq!(
        world.physics.get_collider(anchor_shape),
        Some(Collider { owner: 3, parent: None, offset: ShapeOffset::Authored })
    );
}

#[test]
fn submodel_pass_empties_the_old_places_of_the_colliders() {
    // 0 - 1 - 2 - 3 - 4
    let mut world = built(&[(0, false), (1, false), (2, false), (3, false), (4, false)]);
    let old_shapes: Vec<ShapeHandle> =
        [0u64, 1, 3, 4].iter().map(|c| part(&world, *c).shape.unwrap()).collect();
    despawn(&mut world, 2);
    handle_model_transform(&mut world);
    handle_subpart(&mut world);
    let bodies = world.physics.rigid_bodies.len();
    let colliders = world.physics.colliders.len();
    assert_eq!(handle_submodel(&mut world), Ok(()));
    assert_eq!(world.physics.rigid_bodies.len(), bodies + 2);
    assert_eq!(world.physics.colliders.len(), colliders + 4);
    for s in old_shapes {
        assert_eq!(world.physics.get_collider(s), None);
    }
    for c in [0u64, 1, 3, 4] {
        let m = part(&world, c).child_of.unwrap();
        let s = part(&world, c).shape.unwrap();
        assert!(s.0 >= colliders);
        assert_eq!(
            world.physics.get_collider(s),
            Some(Collider {
                owner: c,
                parent: model(&world, m).body,
                offset: ShapeOffset::KeepWorldPose
            })
        );
    }
}

#[test]
fn parts_added_later_enter_the_ledger_once_each() {
    let mut world = built(&[(0, false), (1, false)]);
    let bodies = world.physics.rigid_bodies.len();
    let colliders = world.physics.colliders.len();
    let a = world.spawn_part(Part::default(), StudInfo::default(), false);
    let x = world.spawn_part(Part::default(), StudInfo::default(), true);
    PhysicsState::add_bricks(&mut world);
    assert_eq!(world.physics.rigid_bodies.len(), bodies + 1);
    assert_eq!(world.physics.colliders.len(), colliders + 2);
    assert_eq!(part(&world, a).body, Some(BodyHandle(bodies)));
    assert_eq!(part(&world, x).body, None);
    let mut shapes = vec![part(&world, a).shape.unwrap().0, part(&world, x).shape.unwrap().0];
    shapes.sort();
    assert_eq!(shapes, vec![colliders, colliders + 1]);
    PhysicsState::add_bricks(&mut world);
    assert_eq!(world.physics.rigid_bodies.len(), bodies + 1);
    assert_eq!(world.physics.colliders.len(), colliders + 2);
}

#[test]
fn release_children_frees_every_child_once() {
    let mut world = built(&[(0, false), (1, false), (2, false)]);
    let m = part(&world, 0).child_of.unwrap();
    let hint = Some(BodyHandle(9));
    release_children(&mut world, m, hint);
    assert!(model(&world, m).children.is_empty());
    assert_eq!(model(&world, m).model.graph.node_count(), 0);
    assert!(model(&world, m).model.dirty);
    let mut freed: Vec<u64> = world.freed.iter().map(|f| f.part).collect();
    freed.sort();
    assert_eq!(freed, vec![0, 1, 2]);
    assert!(world.freed.iter().all(|f| f.velocity_of == hint));
    for e in 0..3 {
        assert_eq!(part(&world, e).child_of, None);
    }
}

#[test]
fn despawn_of_nothing_changes_nothing() {
    let mut world = built(&[(0, false)]);
    despawn(&mut world, 17);
    despawn(&mut world, 0);
    despawn(&mut world, 0);
    assert!(matches!(world.entities[0], Entry::Vacant));
    assert_eq!(world.entities.len(), 1);
    assert!(world.physics.rigid_bodies[0].is_none());
    assert!(world.physics.colliders[0].is_none());
}

#[test]
fn despawn_strikes_the_part_from_the_anchor_table() {
    // [0] - 1
    let mut world = built(&[(0, true), (1, false)]);
    despawn(&mut world, 1);
    assert!(world.anchors.anchors.members(0).is_empty());
    assert!(world.anchors.delete_queue.is_empty());
    despawn(&mut world, 0);
    assert_eq!(PhysicsState::update_system(&mut world), Ok(()));
    assert_eq!(world.anchors.anchors.len(), 0);
}

#[test]
fn purge_member_leaves_the_keys() {
    let mut world = built(&[(0, true), (1, false), (2, true)]);
    purge_member(&mut world, 1);
    assert!(world.anchors.anchors.members(0).is_empty());
    assert!(world.anchors.anchors.members(2).is_empty());
    assert_eq!(world.anchors.anchors.len(), 2);
}

#[test]
fn removal_hooks_act_on_the_ledger_and_the_queue() {
    // [0] - 1
    let mut world = built(&[(0, true), (1, false)]);
    let shape = part(&world, 1).shape.unwrap();
    let body = part(&world, 1).body.unwrap();
    handle_body_removal(&mut world, 1);
    assert!(world.physics.get_body(body).is_none());
    assert_eq!(
        world.physics.get_collider(shape),
        Some(Collider { owner: 1, parent: None, offset: ShapeOffset::KeepWorldPose })
    );
    handle_shape_removal(&mut world, 1);
    assert!(world.physics.get_collider(shape).is_none());
    assert!(world.anchors.delete_queue.is_empty());
    handle_shape_removal(&mut world, 0);
    assert_eq!(world.anchors.delete_queue.iter().copied().collect::<Vec<u64>>(), vec![0]);
}

#[test]
fn a_model_with_children_takes_its_colliders_along() {
    let mut world = built(&[(0, false), (1, false)]);
    let m = part(&world, 0).child_of.unwrap();
    let shapes = [part(&world, 0).shape.unwrap(), part(&world, 1).shape.unwrap()];
    handle_body_removal(&mut world, m);
    assert!(world.physics.get_collider(shapes[0]).is_none());
    assert!(world.physics.get_collider(shapes[1]).is_none());
}

#[test]
fn child_deletion_hook_cuts_the_graph() {
    let mut world = built(&[(0, false), (1, false), (2, false)]);
    let m = part(&world, 1).child_of.unwrap();
    handle_part_of_model_deletion(&mut world, 1);
    let entry = model(&world, m);
    assert!(entry.model.dirty);
    assert_eq!(children(&world, m), vec![0, 2]);
    assert_eq!(entry.model.graph.node_count(), 2);
    assert_eq!(entry.model.graph.edge_count(), 0);
    assert_eq!(part(&world, 1).child_of, Some(m));
}

#[test]
fn transform_leaves_whole_models_alone() {
    let mut world = built(&[(0, false), (1, false)]);
    let m = part(&world, 0).child_of.unwrap();
    handle_model_transform(&mut world);
    assert_eq!(models(&world), vec![m]);
    assert!(world.freed.is_empty());
}

#[test]
fn transform_rebuilds_a_dirty_model_even_if_connected() {
    let mut world = built(&[(0, false), (1, false), (2, false)]);
    let m = part(&world, 0).child_of.unwrap();
    despawn(&mut world, 2);
    handle_model_transform(&mut world);
    assert!(matches!(world.entities[m as usize], Entry::Vacant));
    let found = models(&world);
    assert_eq!(found.len(), 1);
    assert_eq!(model(&world, found[0]).children.len(), 2);
    assert!(!model(&world, found[0]).model.dirty);
    assert_eq!(model(&world, found[0]).body, None);
    assert_eq!(world.freed.len(), 2);
}

#[test]
fn submodel_pass_gives_up_on_a_child_without_collider() {
    let (mut world, placed) = column(&[(0, false), (1, false)]);
    build_models(&mut world, &placed);
    let bodies = world.physics.rigid_bodies.len();
    assert_eq!(handle_submodel(&mut world), Err(PassError::MissingCollider));
    assert_eq!(world.physics.rigid_bodies.len(), bodies);
    assert_eq!(model(&world, 2).body, None);
    setup_models(&mut world);
    assert_eq!(handle_submodel(&mut world), Ok(()));
}

#[test]
fn update_gives_up_where_a_child_can_get_no_collider() {
    let (mut world, placed) = column(&[(0, false), (1, false)]);
    build_models(&mut world, &placed);
    // a child with a body but no collider
    let handle = world.physics.insert_body(RigidBody {
        body_type: RigidBodyType::Dynamic,
        user_data: 0,
        pose: BodyPose::Authored,
        velocity_of: None,
    });
    if let Entry::Part(p) = &mut world.entities[0] {
        p.body = Some(handle);
    }
    assert_eq!(PhysicsState::update_system(&mut world), Err(PassError::MissingCollider));
}

#[test]
fn unanchor_pass_gives_up_on_a_model_without_body() {
    let (mut world, placed) = column(&[(0, false), (1, false)]);
    build_models(&mut world, &placed);
    assert_eq!(handle_model_unanchor(&mut world), Err(PassError::MissingBody));
    PhysicsState::setup_system(&mut world);
    assert_eq!(handle_model_unanchor(&mut world), Ok(()));
}

#[test]
fn unanchor_pass_leaves_held_models_alone() {
    let (mut world, placed) = column(&[(0, false), (1, false), (2, true)]);
    build_models(&mut world, &placed);
    // the model is held, so that it has no body does not matter
    assert_eq!(handle_model_unanchor(&mut world), Ok(()));
}

#[test]
fn an_anchor_that_loses_its_tag_is_noted() {
    let mut world = built(&[(0, true), (1, false)]);
    remove_anchor(&mut world, 1);
    assert!(world.untagged.is_empty());
    remove_anchor(&mut world, 0);
    assert_eq!(world.untagged, vec![0]);
    assert!(!part(&world, 0).anchor);
    handle_part_unanchor(&mut world);
    assert!(world.untagged.is_empty());
    assert_eq!(part(&world, 0).body, None);
    // the part that it held is still held
    assert_eq!(body_type(&world, part(&world, 1).body), RigidBodyType::Fixed);
}

#[test]
fn a_fixed_part_that_lost_its_tag_becomes_dynamic() {
    let mut world = World::new();
    world.spawn_part(Part::default(), StudInfo::default(), false);
    build_body(&mut world, 0, RigidBodyType::Fixed, BodyPose::Authored, None);
    world.untagged.push(0);
    handle_part_unanchor(&mut world);
    assert_eq!(body_type(&world, part(&world, 0).body), RigidBodyType::Dynamic);
}

#[test]
fn parts_added_later_get_dynamic_bodies() {
    let mut world = built(&[(0, true), (1, false)]);
    let late = world.spawn_part(Part::Ball, StudInfo::default(), false);
    let late_anchor = world.spawn_part(Part::default(), StudInfo::default(), true);
    assert_eq!(PhysicsState::update_system(&mut world), Ok(()));
    assert_eq!(body_type(&world, part(&world, late).body), RigidBodyType::Dynamic);
    assert_eq!(part(&world, late).part, Part::Ball);
    assert!(part(&world, late).shape.is_some());
    assert_eq!(part(&world, late_anchor).body, None);
    assert_eq!(
        world.physics.get_collider(part(&world, late_anchor).shape.unwrap()),
        Some(Collider { owner: late_anchor, parent: None, offset: ShapeOffset::Authored })
    );
}

#[test]
fn setup_gives_each_child_a_collider_on_the_body_of_the_model() {
    let (mut world, placed) = column(&[(0, false), (1, false), (2, true)]);
    build_models(&mut world, &placed);
    setup_parts(&mut world);
    assert!(part(&world, 0).shape.is_none());
    assert!(part(&world, 2).shape.is_some());
    setup_models(&mut world);
    let entry = model(&world, 3);
    let body = world.physics.get_body(entry.body.unwrap()).unwrap();
    assert_eq!(
        body,
        RigidBody {
            body_type: RigidBodyType::Fixed,
            user_data: 3,
            pose: BodyPose::Origin,
            velocity_of: None
        }
    );
    for c in [0u64, 1] {
        assert_eq!(
            world.physics.get_collider(part(&world, c).shape.unwrap()),
            Some(Collider { owner: c, parent: entry.body, offset: ShapeOffset::Authored })
        );
        assert_eq!(part(&world, c).body, None);
    }
}

#[test]
fn build_shape_and_build_body_fill_the_ledger() {
    let mut world = World::new();
    world.spawn_part(Part::default(), StudInfo::default(), true);
    world.spawn_part(Part::default(), StudInfo::default(), false);
    build_shape(&mut world, 0);
    assert_eq!(part(&world, 0).shape, Some(ShapeHandle(0)));
    build_body(&mut world, 1, RigidBodyType::Dynamic, BodyPose::Authored, Some(BodyHandle(5)));
    assert_eq!(part(&world, 1).shape, Some(ShapeHandle(1)));
    assert_eq!(part(&world, 1).body, Some(BodyHandle(0)));
    assert_eq!(world.physics.get_body(BodyHandle(0)).unwrap().velocity_of, Some(BodyHandle(5)));
    assert_eq!(world.physics.get_body(BodyHandle(1)), None);
    assert_eq!(world.physics.get_collider(ShapeHandle(2)), None);
}

#[test]
fn ledger_operations() {
    let mut ledger = PhysicsState::new();
    let body = RigidBody {
        body_type: RigidBodyType::Fixed,
        user_data: 4,
        pose: BodyPose::Origin,
        velocity_of: None,
    };
    let h = ledger.insert_body(body);
    let other = ledger.insert_body(RigidBody { user_data: 5, ..body });
    assert_eq!((h, other), (BodyHandle(0), BodyHandle(1)));
    let authored = ShapeOffset::Authored;
    let on = ledger.insert_collider(Collider { owner: 4, parent: Some(h), offset: authored });
    let off = ledger.insert_collider(Collider { owner: 5, parent: Some(other), offset: authored });
    assert!(ledger.set_body_type(h, RigidBodyType::Dynamic));
    assert!(!ledger.set_body_type(BodyHandle(7), RigidBodyType::Dynamic));
    assert_eq!(ledger.get_body(h).unwrap().body_type, RigidBodyType::Dynamic);
    assert_eq!(ledger.get_body(h).unwrap().user_data, 4);
    ledger.set_parent(off, None, ShapeOffset::Identity);
    assert_eq!(
        ledger.get_collider(off),
        Some(Collider { owner: 5, parent: None, offset: ShapeOffset::Identity })
    );
    ledger.set_parent(ShapeHandle(9), Some(h), ShapeOffset::Identity);
    assert_eq!(ledger.remove_body(h, false).unwrap().user_data, 4);
    assert_eq!(ledger.remove_body(h, false), None);
    assert_eq!(
        ledger.get_collider(on),
        Some(Collider { owner: 4, parent: None, offset: ShapeOffset::KeepWorldPose })
    );
    ledger.set_parent(on, Some(other), ShapeOffset::Identity);
    assert!(ledger.remove_body(other, true).is_some());
    assert_eq!(ledger.get_collider(on), None);
    assert_eq!(ledger.get_collider(off).unwrap().owner, 5);
    assert_eq!(ledger.remove_collider(off).unwrap().owner, 5);
    assert_eq!(ledger.remove_collider(off), None);
    assert_eq!(ledger.remove_collider(ShapeHandle(30)), None);
}

#[test]
fn poses_are_read_from_bodies_and_from_colliders() {
    // 0 - 1 and 5 on its own, [9] an anchor
    let world = built(&[(0, false), (1, false), (5, false), (9, true)]);
    let m = part(&world, 0).child_of.unwrap();
    let model_body = model(&world, m).body.unwrap();
    let own_body = part(&world, 2).body.unwrap();
    let copies =
        PhysicsState::update_bricks(&world, &vec![own_body, BodyHandle(70), model_body, own_body]);
    assert_eq!(copies.len(), 4);
    assert_eq!(copies[0], PoseCopy { entity: 2, source: PoseSource::Body(own_body) });
    assert_eq!(copies[3], copies[0]);
    // the children come in the order in which the model lists them
    let listed = model(&world, m).children.clone();
    for (i, c) in listed.iter().enumerate() {
        assert_eq!(
            copies[1 + i],
            PoseCopy { entity: *c, source: PoseSource::Collider(part(&world, *c).shape.unwrap()) }
        );
    }
    assert!(PhysicsState::update_bricks(&world, &Vec::new()).is_empty());
}

#[test]
fn a_rotated_part_joins_no_model() {
    let (mut world, mut placed) = column(&[(0, false), (1, false), (2, false)]);
    placed.upright[1] = false;
    build_models(&mut world, &placed);
    assert!(models(&world).is_empty());
    PhysicsState::setup_system(&mut world);
    for e in 0..3 {
        assert_eq!(body_type(&world, part(&world, e).body), RigidBodyType::Dynamic);
    }
}

#[test]
fn building_again_leaves_the_children_of_models_alone() {
    let (mut world, placed) = column(&[(0, false), (1, false), (2, false)]);
    build_models(&mut world, &placed);
    build_models(&mut world, &placed);
    assert_eq!(models(&world), vec![3]);
    assert_eq!(world.entities.len(), 4);
}

#[test]
fn a_sound_world_after_many_edits() {
    let mut world = built(&[
        (0, true),
        (1, false),
        (2, false),
        (3, false),
        (4, true),
        (5, false),
        (6, false),
        (9, false),
    ]);
    despawn(&mut world, 2);
    detach(&mut world, 6, None);
    world.spawn_part(Part::default(), StudInfo::default(), false);
    despawn(&mut world, 4);
    assert_eq!(PhysicsState::update_system(&mut world), Ok(()));
    assert!(world.freed.is_empty());
    assert!(world.anchors.delete_queue.is_empty());
    for e in 0..world.entities.len() as u64 {
        match &world.entities[e as usize] {
            Entry::Part(p) => {
                if let Some(a) = &p.anchored {
                    assert!(!a.0.is_empty());
                }
                if let Some(m) = p.child_of {
                    assert!(model(&world, m).model.graph.contains_node(e));
                    assert!(!p.anchor);
                }
                assert!(p.shape.is_some());
            }
            Entry::Model(m) => {
                assert!(m.children.len() >= 2);
                assert_eq!(m.model.graph.node_count(), m.children.len());
                assert!(freebricks::graph::is_connected(&m.model.graph));
                assert!(!m.model.dirty);
                assert!(m.body.is_some());
                for c in &m.children {
                    assert_eq!(part(&world, *c).child_of, Some(e));
                }
            }
            Entry::Vacant => {}
        }
    }
    // 1, 3 and 5 have got bodies of their own, and so has 6
    assert!(models(&world).is_empty());
    assert_eq!(anchors_of(&world, 1), vec![0]);
    assert_eq!(body_type(&world, part(&world, 1).body), RigidBodyType::Fixed);
    // no anchor listed 3 and 5 any more when the anchor 4 went, so that
    // nothing told them
    assert_eq!(anchors_of(&world, 3), vec![4]);
    assert_eq!(anchors_of(&world, 5), vec![4]);
    assert!(!world.anchors.anchors.contains_key(4));
    assert!(world.anchors.anchors.members(0).is_empty());
    assert_eq!(body_type(&world, part(&world, 6).body), RigidBodyType::Dynamic);
}
