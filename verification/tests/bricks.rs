use freebricks::model_graph::build_models;
use freebricks::parts::Geometry;
use freebricks::parts::Part;
use freebricks::parts::StudInfo;
use freebricks::physics::PhysicsState;
use freebricks::physics::RigidBodyType;
use freebricks::world::Entry;
use freebricks::world::World;

fn lone_scene(anchor: bool) -> (World, u64) {
    let mut world = World::new();
    let entity = world.spawn_part(Part::default(), StudInfo::default(), anchor);
    let placed = Geometry { upright: vec![true], contacts: Vec::new() };
    build_models(&mut world, &placed);
    PhysicsState::setup_system(&mut world);
    assert_eq!(PhysicsState::update_system(&mut world), Ok(()));
    (world, entity)
}

#[test]
pub fn one_brick() {
    let message = "Testing one brick";
    let (world, entity) = lone_scene(false);

    match &world.entities[entity as usize] {
        Entry::Part(p) => {
            assert!(p.anchored.is_none(), "{} - is entity anchored?", message);
            assert!(!p.anchor, "{} - Is entity an anchor?", message);
            assert!(p.child_of.is_none(), "{} - is entity a child?", message);
            let shape = p.shape.expect("does entity have a collider?");
            let body = p.body.expect("does entity have a rigid body?");
            let found = world.physics.get_collider(shape);
            assert!(found.is_some(), "{} - Couldn't get collider", message);
            let found = world.physics.get_body(body).expect("Couldn't get rigid body");
            assert_eq!(found.body_type, RigidBodyType::Dynamic);
        }
        _ => panic!("{} - entity is no part", message),
    }
}

#[test]
pub fn one_anchored_brick() {
    let message = "Testing one brick";
    let (world, entity) = lone_scene(true);

    match &world.entities[entity as usize] {
        Entry::Part(p) => {
            assert!(p.anchored.is_none(), "{} - is entity anchored?", message);
            assert!(p.anchor, "{} - Is entity an anchor?", message);
            assert!(p.child_of.is_none(), "{} - is entity a child?", message);
            let shape = p.shape.expect("does entity have a collider?");
            assert!(p.body.is_none(), "{} - does entity have a rigid body?", message);
            let found = world.physics.get_collider(shape);
            assert!(found.is_some(), "{} - Couldn't get collider", message);
        }
        _ => panic!("{} - entity is no part", message),
    }
}
