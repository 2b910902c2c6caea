//! The ledger of rigid bodies and colliders, and the table of anchors.
//!
//! The ledger records which bodies and colliders exist, who owns them, how
//! each body moves and where each was placed. The engine that simulates them
//! lives outside and follows the ledger.

use std::collections::VecDeque;
use vstd::prelude::*;

use crate::idset::IdTable;

verus! {

/// How a rigid body moves.
#[derive(Clone, Copy, Debug, PartialEq, Eq, Structural)]
pub enum RigidBodyType {
    /// Moved by forces and contacts.
    Dynamic,
    /// Never moves.
    Fixed,
}

/// Names one rigid body of the ledger.
#[derive(Clone, Copy, Debug, PartialEq, Eq, Structural)]
pub struct BodyHandle(pub usize);

/// Names one collider of the ledger.
#[derive(Clone, Copy, Debug, PartialEq, Eq, Structural)]
pub struct ShapeHandle(pub usize);

/// Where a new body is placed.
#[derive(Clone, Copy, Debug, PartialEq, Eq, Structural)]
pub enum BodyPose {
    /// Where its owner was authored.
    Authored,
    /// At the origin, unrotated: the pose carries no meaning.
    Origin,
    /// Where the collider stands in the world right now.
    AtCollider(ShapeHandle),
}

/// Where a collider sits relative to its body, or to the world if it has no
/// body.
#[derive(Clone, Copy, Debug, PartialEq, Eq, Structural)]
pub enum ShapeOffset {
    /// Where its owner was authored.
    Authored,
    /// Exactly on its body.
    Identity,
    /// Such that it stays where it last stood in the world.
    KeepWorldPose,
}

/// One rigid body.
#[derive(Clone, Copy, Debug, PartialEq, Eq, Structural)]
pub struct RigidBody {
    pub body_type: RigidBodyType,
    /// The entity that owns the body.
    pub user_data: u64,
    pub pose: BodyPose,
    /// The body whose velocity this one takes over, if any.
    pub velocity_of: Option<BodyHandle>,
}

/// One collider.
#[derive(Clone, Copy, Debug, PartialEq, Eq, Structural)]
pub struct Collider {
    /// The entity that owns the collider.
    pub owner: u64,
    /// The body that carries the collider, if any.
    pub parent: Option<BodyHandle>,
    pub offset: ShapeOffset,
}

/// What becomes of a collider when the body `gone` is removed: one that sat
/// on the body goes with it if `with_colliders` is set, and else stays
/// where it stood, without a body. Any other collider stays as it is.
pub open spec fn released(
    collider: Option<Collider>,
    gone: BodyHandle,
    with_colliders: bool,
) -> Option<Collider> {
    match collider {
        Some(c) => if c.parent == Some(gone) {
            if with_colliders {
                None
            } else {
                Some(Collider { owner: c.owner, parent: None, offset: ShapeOffset::KeepWorldPose })
            }
        } else {
            Some(c)
        },
        None => None,
    }
}

/// The bodies and colliders of a world. A handle is a position in one of the
/// two tables; what was removed leaves a gap, so no handle is given twice.
pub struct PhysicsState {
    pub rigid_bodies: Vec<Option<RigidBody>>,
    pub colliders: Vec<Option<Collider>>,
}

impl PhysicsState {
    /// The body behind a handle, if it exists.
    pub open spec fn body(&self, handle: BodyHandle) -> Option<RigidBody> {
        if handle.0 < self.rigid_bodies@.len() {
            self.rigid_bodies@[handle.0 as int]
        } else {
            None
        }
    }

    /// The collider behind a handle, if it exists.
    pub open spec fn collider(&self, handle: ShapeHandle) -> Option<Collider> {
        if handle.0 < self.colliders@.len() {
            self.colliders@[handle.0 as int]
        } else {
            None
        }
    }

    /// A ledger without bodies and colliders.
    pub fn new() -> (state: Self)
        ensures
            state.rigid_bodies@.len() == 0,
            state.colliders@.len() == 0,
    {
        PhysicsState { rigid_bodies: Vec::new(), colliders: Vec::new() }
    }

    /// Enters a body and returns its handle, which no body had before.
    pub fn insert_body(&mut self, body: RigidBody) -> (handle: BodyHandle)
        ensures
            handle.0 == old(self).rigid_bodies@.len(),
            final(self).rigid_bodies@ == old(self).rigid_bodies@.push(Some(body)),
            final(self).colliders@ == old(self).colliders@,
    {
        let index = self.rigid_bodies.len();
        self.rigid_bodies.push(Some(body));
        BodyHandle(index)
    }

    /// Enters a collider and returns its handle, which no collider had
    /// before.
    pub fn insert_collider(&mut self, collider: Collider) -> (handle: ShapeHandle)
        ensures
            handle.0 == old(self).colliders@.len(),
            final(self).colliders@ == old(self).colliders@.push(Some(collider)),
            final(self).rigid_bodies@ == old(self).rigid_bodies@,
    {
        let index = self.colliders.len();
        self.colliders.push(Some(collider));
        ShapeHandle(index)
    }

    /// Removes a collider. Returns what was behind the handle.
    pub fn remove_collider(&mut self, handle: ShapeHandle) -> (removed: Option<Collider>)
        ensures
            removed == old(self).collider(handle),
            final(self).rigid_bodies@ == old(self).rigid_bodies@,
            final(self).colliders@ == if handle.0 < old(self).colliders@.len() {
                old(self).colliders@.update(handle.0 as int, None)
            } else {
                old(self).colliders@
            },
    {
        if handle.0 < self.colliders.len() {
            let removed = self.colliders[handle.0];
            self.colliders.set(handle.0, None);
            removed
        } else {
            None
        }
    }

    /// Removes a body. Its colliders go with it if `remove_colliders` is
    /// set; otherwise they stay, without a body. Returns what was behind the
    /// handle.
    pub fn remove_body(&mut self, handle: BodyHandle, remove_colliders: bool) -> (removed: Option<
        RigidBody,
    >)
        ensures
            removed == old(self).body(handle),
            final(self).rigid_bodies@ == if removed is Some {
                old(self).rigid_bodies@.update(handle.0 as int, None)
            } else {
                old(self).rigid_bodies@
            },
            final(self).colliders@.len() == old(self).colliders@.len(),
            forall|i: int|
                0 <= i < old(self).colliders@.len() ==> #[trigger] final(self).colliders@[i]
                    == if removed is Some {
                    released(old(self).colliders@[i], handle, remove_colliders)
                } else {
                    old(self).colliders@[i]
                },
    {
        if handle.0 >= self.rigid_bodies.len() {
            return None;
        }
        let removed = self.rigid_bodies[handle.0];
        if removed.is_none() {
            return None;
        }
        self.rigid_bodies.set(handle.0, None);
        let ghost before = self.colliders@;
        let mut i: usize = 0;
        while i < self.colliders.len()
            invariant
                i <= self.colliders@.len(),
                self.colliders@.len() == before.len(),
                self.rigid_bodies@ == old(self).rigid_bodies@.update(handle.0 as int, None),
                forall|j: int|
                    0 <= j < before.len() ==> #[trigger] self.colliders@[j] == if j < i {
                        released(before[j], handle, remove_colliders)
                    } else {
                        before[j]
                    },
            decreases self.colliders@.len() - i,
        {
            match self.colliders[i] {
                Some(c) => {
                    if c.parent == Some(handle) {
                        if remove_colliders {
                            self.colliders.set(i, None);
                        } else {
                            self.colliders.set(
                                i,
                                Some(
                                    Collider {
                                        owner: c.owner,
                                        parent: None,
                                        offset: ShapeOffset::KeepWorldPose,
                                    },
                                ),
                            );
                        }
                    }
                },
                None => {},
            }
            i = i + 1;
        }
        removed
    }

    /// Puts a collider on a body, or takes it off its body, and sets its
    /// offset. Nothing happens if the collider does not exist.
    pub fn set_parent(
        &mut self,
        handle: ShapeHandle,
        parent: Option<BodyHandle>,
        offset: ShapeOffset,
    )
        ensures
            final(self).rigid_bodies@ == old(self).rigid_bodies@,
            final(self).colliders@ == match old(self).collider(handle) {
                Some(c) => old(self).colliders@.update(
                    handle.0 as int,
                    Some(Collider { owner: c.owner, parent, offset }),
                ),
                None => old(self).colliders@,
            },
    {
        if handle.0 < self.colliders.len() {
            match self.colliders[handle.0] {
                Some(c) => {
                    self.colliders.set(handle.0, Some(Collider { owner: c.owner, parent, offset }));
                },
                None => {},
            }
        }
    }

    /// Changes how a body moves. Returns whether the body exists.
    pub fn set_body_type(&mut self, handle: BodyHandle, body_type: RigidBodyType) -> (found: bool)
        ensures
            found == old(self).body(handle) is Some,
            final(self).colliders@ == old(self).colliders@,
            final(self).rigid_bodies@ == match old(self).body(handle) {
                Some(b) => old(self).rigid_bodies@.update(
                    handle.0 as int,
                    Some(RigidBody { body_type, ..b }),
                ),
                None => old(self).rigid_bodies@,
            },
    {
        if handle.0 < self.rigid_bodies.len() {
            match self.rigid_bodies[handle.0] {
                Some(body) => {
                    self.rigid_bodies.set(
                        handle.0,
                        Some(
                            RigidBody {
                                body_type,
                                user_data: body.user_data,
                                pose: body.pose,
                                velocity_of: body.velocity_of,
                            },
                        ),
                    );
                    true
                },
                None => false,
            }
        } else {
            false
        }
    }

    /// The body behind a handle, if it exists.
    pub fn get_body(&self, handle: BodyHandle) -> (body: Option<RigidBody>)
        ensures
            body == self.body(handle),
    {
        if handle.0 < self.rigid_bodies.len() {
            self.rigid_bodies[handle.0]
        } else {
            None
        }
    }

    /// The collider behind a handle, if it exists.
    pub fn get_collider(&self, handle: ShapeHandle) -> (collider: Option<Collider>)
        ensures
            collider == self.collider(handle),
    {
        if handle.0 < self.colliders.len() {
            self.colliders[handle.0]
        } else {
            None
        }
    }
}

/// For each anchor the entities that depend on it, and the anchors whose
/// collider was destroyed and whose dependents have not been told yet.
pub struct AnchorMap {
    pub anchors: IdTable,
    pub delete_queue: VecDeque<u64>,
}

impl AnchorMap {
    /// The anchor `k` lists the entity `x` as a dependent.
    pub open spec fn lists(&self, k: u64, x: u64) -> bool {
        self.anchors@.dom().contains(k) && self.anchors@[k].contains(x)
    }

    /// A table without anchors, with nothing queued.
    pub fn new() -> (map: Self)
        ensures
            map.anchors@ == Map::<u64, Set<u64>>::empty(),
            map.delete_queue@ == Seq::<u64>::empty(),
    {
        AnchorMap { anchors: IdTable::new(), delete_queue: VecDeque::new() }
    }
}

} // verus!
