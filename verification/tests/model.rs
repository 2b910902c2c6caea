use freebricks::edits::despawn;
use freebricks::model_graph::build_models;
use freebricks::parts::Contact;
use freebricks::parts::Geometry;
use freebricks::parts::Part;
use freebricks::parts::StudInfo;
use freebricks::physics::PhysicsState;
use freebricks::physics::RigidBodyType;
use freebricks::world::Entry;
use freebricks::world::World;

/// A world together with what the library does not hold: where the parts
/// stand and how large they are.
struct Scene {
    world: World,
    boxes: Vec<([f32; 3], [f32; 3])>,
}

fn util_setup() -> Scene {
    Scene { world: World::new(), boxes: Vec::new() }
}

fn spawn_p(scene: &mut Scene, anchor: bool, position: [f32; 3]) -> u64 {
    let id = scene.world.spawn_part(Part::default(), StudInfo::default(), anchor);
    assert_eq!(id as usize, scene.boxes.len());
    scene.boxes.push((position, [4.0, 1.0, 2.0]));
    id
}

fn contact(a: &([f32; 3], [f32; 3]), b: &([f32; 3], [f32; 3])) -> Contact {
    let lo = |x: &([f32; 3], [f32; 3]), i: usize| x.0[i] - x.1[i] / 2.0;
    let hi = |x: &([f32; 3], [f32; 3]), i: usize| x.0[i] + x.1[i] / 2.0;
    let touch = (0..3).all(|i| lo(a, i) <= hi(b, i) && hi(a, i) >= lo(b, i));
    Contact {
        touch,
        rests_on: (lo(a, 1) - hi(b, 1)).abs() < f32::EPSILON,
        carries: (hi(a, 1) - lo(b, 1)).abs() < f32::EPSILON,
    }
}

fn geometry(scene: &Scene) -> Geometry {
    let n = scene.boxes.len();
    let mut contacts = Vec::new();
    for a in 0..n {
        let mut row = Vec::new();
        for b in 0..n {
            row.push(contact(&scene.boxes[a], &scene.boxes[b]));
        }
        contacts.push(row);
    }
    Geometry { upright: vec![true; n], contacts }
}

fn sched_start(scene: &mut Scene) {
    let placed = geometry(scene);
    build_models(&mut scene.world, &placed);
    PhysicsState::setup_system(&mut scene.world);
}

fn sched_update(scene: &mut Scene) {
    assert_eq!(PhysicsState::update_system(&mut scene.world), Ok(()));
}

#[allow(clippy::too_many_arguments)]
fn guarantee(
    world: &World,
    message: &str,
    entity: u64,
    anchored: bool,
    anchor: bool,
    child: bool,
    parent: bool,
    shape: bool,
    body: bool,
) {
    match &world.entities[entity as usize] {
        Entry::Part(p) => {
            assert_eq!(p.anchored.is_some(), anchored, "{} - is entity anchored?", message);
            assert_eq!(p.anchor, anchor, "{} - Is entity an anchor?", message);
            assert_eq!(p.child_of.is_some(), child, "{} - is entity a child?", message);
            assert!(!parent, "{} - is entity a parent?", message);
            assert_eq!(p.shape.is_some(), shape, "{} - does entity have a collider?", message);
            assert_eq!(p.body.is_some(), body, "{} - does entity have a rigid body?", message);
        }
        Entry::Model(m) => {
            assert!(!anchored && !anchor && !child && !shape, "{} - entity is a model", message);
            assert_eq!(!m.children.is_empty(), parent, "{} - is entity a parent?", message);
            assert_eq!(m.body.is_some(), body, "{} - does entity have a rigid body?", message);
        }
        Entry::Vacant => panic!("{} - entity is gone", message),
    }
}

fn collider_check(world: &World, message: &str, entity: u64) {
    let handle = match &world.entities[entity as usize] {
        Entry::Part(p) => p.shape.unwrap_or_else(|| panic!("{} - Can't get shape query", message)),
        _ => panic!("{} - Can't get shape query", message),
    };
    assert!(
        world.physics.get_collider(handle).is_some(),
        "{} - Couldn't get collider",
        message
    );
}

fn body_check(world: &World, message: &str, entity: u64, body_type: RigidBodyType) {
    let handle = match &world.entities[entity as usize] {
        Entry::Part(p) => p.body,
        Entry::Model(m) => m.body,
        Entry::Vacant => None,
    };
    let handle = handle.unwrap_or_else(|| panic!("{} - Can't get body query", message));
    let body = world
        .physics
        .get_body(handle)
        .unwrap_or_else(|| panic!("{} - Couldn't get rigid body", message));
    assert_eq!(body.user_data, entity);
    assert_eq!(
        body.body_type, body_type,
        "{} - Checking if rigid body type of {:?} is {:?}",
        message, body.body_type, body_type
    );
}

fn guarantee_model(
    world: &World,
    message: &str,
    entity: u64,
    num_children: usize,
    num_anchors: usize,
    num_edges: usize,
) {
    let entry = match &world.entities[entity as usize] {
        Entry::Model(m) => m,
        _ => panic!("{} - Couldn't find model", message),
    };
    let actual_num_children = entry.children.len();
    assert_eq!(
        entry.model.graph.node_count(),
        actual_num_children,
        "{} - Graph nodes don't match Children size",
        message
    );
    assert_eq!(
        num_children, actual_num_children,
        "{} - Children size doesn't match children specified by argument",
        message
    );
    assert_eq!(entry.model.graph.edge_count(), num_edges, "{} - Edge counts don't match", message);
    assert_eq!(entry.model.anchors.len(), num_anchors, "{} - Anchor counts don't match", message);
}

fn get_models(world: &World) -> Vec<u64> {
    (0..world.entities.len())
        .filter(|&e| matches!(world.entities[e], Entry::Model(_)))
        .map(|e| e as u64)
        .collect()
}

fn children_of(world: &World, model: u64) -> Vec<u64> {
    match &world.entities[model as usize] {
        Entry::Model(m) => m.children.clone(),
        _ => Vec::new(),
    }
}

#[test]
pub fn separate_bricks() {
    let message = "Testing multiple separate bricks";
    let mut scene = util_setup();

    let positions = vec![
        [0.0, 0.0, 0.0],
        [0.0, 2.0, 0.0],
        [0.0, 4.0, 0.0],
        [0.0, 6.0, 0.0],
        [8.0, 0.0, 0.0],
        [8.0, 2.0, 0.0],
        [0.0, 4.0, 8.0],
        [0.0, 6.0, 8.0],
    ];

    let entities: Vec<u64> =
        positions.iter().map(|position| spawn_p(&mut scene, false, *position)).collect();

    sched_start(&mut scene);
    sched_update(&mut scene);

    for entity in entities {
        guarantee(&scene.world, message, entity, false, false, false, false, true, true);
        collider_check(&scene.world, message, entity);
        body_check(&scene.world, message, entity, RigidBodyType::Dynamic);
    }

    assert_eq!(get_models(&scene.world).len(), 0, "{} - Models exist", message);
}

#[test]
pub fn connected_bricks() {
    let message = "Testing multiple separate bricks";
    let mut scene = util_setup();

    let positions = vec![
        [0.0, 0.0, 0.0],
        [0.0, 1.0, 0.0],
        [0.0, 4.0, 0.0],
        [0.0, 5.0, 0.0],
        [8.0, 0.0, 0.0],
        [8.0, 1.0, 0.0],
        [0.0, 4.0, 8.0],
        [0.0, 5.0, 8.0],
    ];

    let entities: Vec<u64> =
        positions.iter().map(|position| spawn_p(&mut scene, false, *position)).collect();

    sched_start(&mut scene);
    sched_update(&mut scene);

    for entity in entities {
        guarantee(&scene.world, message, entity, false, false, true, false, true, false);
        collider_check(&scene.world, message, entity);
    }

    let models = get_models(&scene.world);

    assert_eq!(models.len(), 4, "{} - Four models don't exist", message);
    for model_id in models {
        guarantee_model(&scene.world, message, model_id, 2, 0, 1);
    }
}

#[test]
pub fn model_touches_anchor() {
    let message = "Testing multiple separate bricks";
    let mut scene = util_setup();

    let positions = vec![[0.0, 0.0, 0.0], [0.0, 1.0, 0.0], [0.0, 2.0, 0.0]];

    let _ = positions
        .iter()
        .map(|position| spawn_p(&mut scene, false, *position))
        .collect::<Vec<u64>>();
    spawn_p(&mut scene, true, [0.0, 3.0, 0.0]);

    sched_start(&mut scene);
    sched_update(&mut scene);

    let models = get_models(&scene.world);

    assert_eq!(models.len(), 1, "{} - Model doesn't exist", message);
    let model_id = *models.first().unwrap();
    guarantee_model(&scene.world, message, model_id, 3, 1, 2);
    body_check(&scene.world, message, model_id, RigidBodyType::Fixed);
}

#[test]
pub fn model_anchor_deletion() {
    let message = "Testing multiple separate bricks";
    let mut scene = util_setup();

    let positions = vec![[0.0, 0.0, 0.0], [0.0, 1.0, 0.0], [0.0, 2.0, 0.0]];

    let _ = positions
        .iter()
        .map(|position| spawn_p(&mut scene, false, *position))
        .collect::<Vec<u64>>();
    let anchor_id = spawn_p(&mut scene, true, [0.0, 3.0, 0.0]);

    sched_start(&mut scene);
    sched_update(&mut scene);

    let models = get_models(&scene.world);

    assert_eq!(models.len(), 1, "{} - Model doesn't exist", message);
    let model_id = *models.first().unwrap();
    guarantee_model(&scene.world, message, model_id, 3, 1, 2);
    body_check(&scene.world, message, model_id, RigidBodyType::Fixed);

    despawn(&mut scene.world, anchor_id);

    sched_update(&mut scene);

    guarantee_model(&scene.world, message, model_id, 3, 0, 2);
    body_check(&scene.world, message, model_id, RigidBodyType::Dynamic);
}

#[test]
pub fn model_into_parts() {
    let message = "Testing popping a model into parts";
    let mut scene = util_setup();

    let positions = vec![[0.0, 0.0, 0.0], [0.0, 1.0, 0.0], [0.0, 2.0, 0.0]];

    let children = positions
        .iter()
        .map(|position| spawn_p(&mut scene, false, *position))
        .collect::<Vec<u64>>();

    sched_start(&mut scene);
    sched_update(&mut scene);

    let models = get_models(&scene.world);

    assert_eq!(models.len(), 1, "{} - Model doesn't exist", message);
    let model_id = *models.first().unwrap();

    guarantee_model(&scene.world, message, model_id, 3, 0, 2);
    body_check(&scene.world, message, model_id, RigidBodyType::Dynamic);

    // Now test deleting it: the model lets go of its children and goes.
    let mut let_go = children_of(&scene.world, model_id);
    let_go.sort();
    assert_eq!(let_go, children);
    despawn(&mut scene.world, model_id);

    sched_update(&mut scene);

    let models = get_models(&scene.world);
    assert_eq!(models.len(), 0, "{} - Models shouldn't exist", message);

    for child in children {
        guarantee(&scene.world, message, child, false, false, false, false, true, true);
        body_check(&scene.world, message, child, RigidBodyType::Dynamic);
    }
}

#[test]
pub fn model_into_models() {
    let message = "Testing cutting a model into submodels";
    let mut scene = util_setup();

    let positions = vec![[0.0, 0.0, 0.0], [0.0, 1.0, 0.0], [0.0, 3.0, 0.0], [0.0, 4.0, 0.0]];
    let _ = positions
        .iter()
        .map(|position| spawn_p(&mut scene, false, *position))
        .collect::<Vec<u64>>();

    let cut_id = spawn_p(&mut scene, false, [0.0, 2.0, 0.0]);

    sched_start(&mut scene);
    sched_update(&mut scene);

    let models = get_models(&scene.world);

    assert_eq!(models.len(), 1, "{} - Model doesn't exist", message);
    let model_id = *models.first().unwrap();

    guarantee_model(&scene.world, message, model_id, 5, 0, 4);
    body_check(&scene.world, message, model_id, RigidBodyType::Dynamic);

    // Now test deleting it
    despawn(&mut scene.world, cut_id);

    sched_update(&mut scene);

    let models = get_models(&scene.world);
    assert_eq!(models.len(), 2, "{} - There aren't two models", message);

    for model_id in models {
        guarantee_model(&scene.world, message, model_id, 2, 0, 1);
        body_check(&scene.world, message, model_id, RigidBodyType::Dynamic);
    }
}

#[test]
pub fn model_into_mixed() {
    let message = "Testing cutting a model into a model and part";
    let mut scene = util_setup();

    let positions = vec![[0.0, 0.0, 0.0], [0.0, 1.0, 0.0], [0.0, 3.0, 0.0]];
    let _ = positions
        .iter()
        .map(|position| spawn_p(&mut scene, false, *position))
        .collect::<Vec<u64>>();

    let cut_id = spawn_p(&mut scene, false, [0.0, 2.0, 0.0]);

    sched_start(&mut scene);
    sched_update(&mut scene);

    let models = get_models(&scene.world);

    assert_eq!(models.len(), 1, "{} - Model doesn't exist", message);
    let model_id = *models.first().unwrap();

    guarantee_model(&scene.world, message, model_id, 4, 0, 3);
    body_check(&scene.world, message, model_id, RigidBodyType::Dynamic);

    // Now test deleting it
    despawn(&mut scene.world, cut_id);

    sched_update(&mut scene);

    let models = get_models(&scene.world);
    assert_eq!(models.len(), 1, "{} - There isn't one model", message);

    for model_id in models {
        guarantee_model(&scene.world, message, model_id, 2, 0, 1);
        body_check(&scene.world, message, model_id, RigidBodyType::Dynamic);
    }
}

#[test]
pub fn model_into_models_with_anchor() {
    let message = "Testing cutting a model into submodels where one is anchored";
    let mut scene = util_setup();

    spawn_p(&mut scene, true, [0.0, 5.0, 0.0]);
    let positions = vec![[0.0, 0.0, 0.0], [0.0, 1.0, 0.0], [0.0, 3.0, 0.0], [0.0, 4.0, 0.0]];
    let _ = positions
        .iter()
        .map(|position| spawn_p(&mut scene, false, *position))
        .collect::<Vec<u64>>();

    let cut_id = spawn_p(&mut scene, false, [0.0, 2.0, 0.0]);

    sched_start(&mut scene);
    sched_update(&mut scene);

    let models = get_models(&scene.world);

    assert_eq!(models.len(), 1, "{} - Model doesn't exist", message);
    let model_id = *models.first().unwrap();

    guarantee_model(&scene.world, message, model_id, 5, 1, 4);
    body_check(&scene.world, message, model_id, RigidBodyType::Fixed);

    // Now test deleting it
    despawn(&mut scene.world, cut_id);

    sched_update(&mut scene);

    let models = get_models(&scene.world);
    assert_eq!(models.len(), 2, "{} - There aren't two models", message);

    for model_id in models {
        let empty = match &scene.world.entities[model_id as usize] {
            Entry::Model(m) => m.model.anchors.is_empty(),
            _ => panic!("Couldn't get model"),
        };

        if empty {
            guarantee_model(&scene.world, message, model_id, 2, 0, 1);
            body_check(&scene.world, message, model_id, RigidBodyType::Dynamic);
        } else {
            guarantee_model(&scene.world, message, model_id, 2, 1, 1);
            body_check(&scene.world, message, model_id, RigidBodyType::Fixed);
        }
    }
}
