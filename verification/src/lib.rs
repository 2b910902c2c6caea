//! Rigid assemblies of snapped bricks: the connectivity graph of a brick
//! scene, its grouping into models, the anchors that hold parts fixed, and
//! the bookkeeping that keeps physics bodies in step with every edit.

pub mod components;
pub mod deletion;
pub mod edits;
pub mod graph;
pub mod idset;
pub mod laws;
pub mod matrix;
pub mod model;
pub mod model_graph;
pub mod parts;
pub mod paths;
pub mod physics;
pub mod physics_state;
pub mod queries;
pub mod scene;
pub mod sets;
pub mod setup;
pub mod transform;
pub mod world;
