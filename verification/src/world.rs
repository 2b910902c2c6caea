//! The entities of a brick world: parts and models with their components,
//! the anchor table and the physics ledger.

use vstd::prelude::*;

use crate::idset::IdSet;
use crate::model::Model;
use crate::parts::Part;
use crate::parts::StudInfo;
use crate::physics::AnchorMap;
use crate::physics::BodyHandle;
use crate::physics::PhysicsState;
use crate::physics::ShapeHandle;
use crate::sets::extend_set;

verus! {

/// The largest number of entities that a pass which may spawn models takes.
pub const MAX_ENTITIES: usize = 0xFFFF_FFFF;

/// The anchors that hold a part fixed.
pub struct Anchored(pub IdSet);

/// The components of one part.
pub struct PartEntry {
    pub part: Part,
    pub studs: StudInfo,
    /// The part is an anchor: an immovable boundary.
    pub anchor: bool,
    pub anchored: Option<Anchored>,
    /// The model that the part belongs to.
    pub child_of: Option<u64>,
    pub shape: Option<ShapeHandle>,
    pub body: Option<BodyHandle>,
}

/// The components of one model.
pub struct ModelEntry {
    pub model: Model,
    pub children: Vec<u64>,
    pub body: Option<BodyHandle>,
    /// The body of the model that this one was cut from, if any: the body
    /// of this model takes over its velocity.
    pub velocity_of: Option<BodyHandle>,
}

/// Why a pass over the world gave up.
#[derive(Clone, Copy, Debug, PartialEq, Eq, Structural)]
pub enum PassError {
    /// A child of a model that is to get its body has no collider.
    MissingCollider,
    /// A model that is to be released has no body.
    MissingBody,
}

/// A part that has lost its model.
#[derive(Clone, Copy, Debug, PartialEq, Eq, Structural)]
pub struct Freed {
    pub part: u64,
    /// The body of the model, if the model was taken apart: a body that the
    /// part gets takes over its velocity.
    pub velocity_of: Option<BodyHandle>,
}

/// What stands under one entity id.
pub enum Entry {
    /// Nothing: the entity was despawned.
    Vacant,
    Part(PartEntry),
    Model(ModelEntry),
}

/// A brick world. An entity id is a position in the table of entities; a
/// despawned entity leaves a gap, so no id is given twice.
pub struct World {
    pub entities: Vec<Entry>,
    pub anchors: AnchorMap,
    pub physics: PhysicsState,
    /// Parts that have lost their model since the last pass.
    pub freed: Vec<Freed>,
    /// Entities that have lost their anchor tag since the last pass.
    pub untagged: Vec<u64>,
}

impl PartEntry {
    /// The anchors that hold the part; none without the component.
    pub open spec fn anchor_set(&self) -> Set<u64> {
        match self.anchored {
            Some(a) => a.0@,
            None => Set::empty(),
        }
    }
}

impl World {
    /// The number of entity ids given out so far.
    pub open spec fn len(&self) -> nat {
        self.entities@.len()
    }

    /// A part stands under `e`.
    pub open spec fn is_part(&self, e: u64) -> bool {
        e < self.entities@.len() && self.entities@[e as int] is Part
    }

    /// A model stands under `e`.
    pub open spec fn is_model(&self, e: u64) -> bool {
        e < self.entities@.len() && self.entities@[e as int] is Model
    }

    /// The part under `e`.
    pub open spec fn part(&self, e: u64) -> PartEntry {
        self.entities@[e as int]->Part_0
    }

    /// The model under `e`.
    pub open spec fn model(&self, e: u64) -> ModelEntry {
        self.entities@[e as int]->Model_0
    }

    /// The part under `e` is a child of the model `m`.
    pub open spec fn is_child(&self, e: u64, m: u64) -> bool {
        self.is_part(e) && self.part(e).child_of == Some(m)
    }

    /// The model under `m` is sound in itself and with its children: its
    /// graph is well formed, its children are exactly the nodes of its
    /// graph, and each child is a part that names the model as its parent.
    pub open spec fn model_wf(&self, m: u64) -> bool {
        let entry = self.model(m);
        &&& entry.model.graph.wf()
        &&& entry.children@.no_duplicates()
        &&& entry.children@.to_set() == entry.model.graph.nodes()
        &&& forall|c: u64| #[trigger] entry.model.graph.nodes().contains(c) ==> self.is_child(c, m)
    }

    /// The part under `e` is sound with its surroundings: its parent is a
    /// model that has it as a node; an anchor has no parent and no body; if
    /// it has the component that names the anchors that hold it, there are
    /// such anchors; its handles lead to a collider and to a body of its own.
    pub open spec fn part_wf(&self, e: u64) -> bool {
        let entry = self.part(e);
        &&& entry.child_of matches Some(m) ==> self.is_model(m)
            && self.model(m).model.graph.nodes().contains(e)
        &&& entry.anchor ==> entry.child_of is None && entry.body is None
        &&& entry.anchored matches Some(a) ==> a.0@.finite() && a.0@.len() > 0
        &&& entry.shape matches Some(h) ==> self.physics.collider(h) matches Some(c) && c.owner == e
        &&& entry.body matches Some(h) ==> self.physics.body(h) matches Some(b) && b.user_data == e
    }

    /// The anchor table is sound: who is listed under an anchor is a part
    /// that has the anchor among those that hold it, and what is queued is
    /// an anchor of the table that has been despawned, once.
    pub open spec fn anchors_wf(&self) -> bool {
        &&& forall|k: u64, x: u64| #[trigger]
            self.anchors.lists(k, x) ==> self.is_part(x) && self.part(x).anchor_set().contains(k)
        &&& forall|k: u64| #[trigger]
            self.anchors.anchors@.dom().contains(k) ==> self.anchors.anchors@[k].finite()
        &&& self.anchors.delete_queue@.no_duplicates()
        &&& forall|i: int|
            0 <= i < self.anchors.delete_queue@.len() ==> self.anchors.anchors@.dom().contains(
                #[trigger] self.anchors.delete_queue@[i],
            ) && self.anchors.delete_queue@[i] < self.entities@.len() && !self.is_part(
                self.anchors.delete_queue@[i],
            )
    }

    /// The world is sound.
    pub open spec fn wf(&self) -> bool {
        &&& forall|m: u64| #[trigger] self.is_model(m) ==> self.model_wf(m)
            && (self.model(m).body matches Some(
            h,
        ) ==> self.physics.body(h) matches Some(b) && b.user_data == m)
        &&& forall|e: u64| #[trigger] self.is_part(e) ==> self.part_wf(e)
        &&& self.anchors_wf()
    }

    /// A world without entities.
    pub fn new() -> (world: Self)
        ensures
            world.wf(),
            world.len() == 0,
            world.freed@.len() == 0,
            world.untagged@.len() == 0,
            world.anchors.anchors@.dom() == Set::<u64>::empty(),
            world.anchors.delete_queue@.len() == 0,
            world.physics.rigid_bodies@.len() == 0,
            world.physics.colliders@.len() == 0,
    {
        World {
            entities: Vec::new(),
            anchors: AnchorMap::new(),
            physics: PhysicsState::new(),
            freed: Vec::new(),
            untagged: Vec::new(),
        }
    }

    /// Spawns a part without a parent, without anchors that hold it, and
    /// without collider and body. Returns its id.
    pub fn spawn_part(&mut self, part: Part, studs: StudInfo, anchor: bool) -> (id: u64)
        requires
            old(self).wf(),
            old(self).len() < u64::MAX,
        ensures
            final(self).wf(),
            id == old(self).len(),
            final(self).entities@ == old(self).entities@.push(
                Entry::Part(
                    PartEntry {
                        part,
                        studs,
                        anchor,
                        anchored: None,
                        child_of: None,
                        shape: None,
                        body: None,
                    },
                ),
            ),
            final(self).anchors == old(self).anchors,
            final(self).physics == old(self).physics,
            final(self).freed == old(self).freed,
            final(self).untagged == old(self).untagged,
    {
        let id = self.entities.len() as u64;
        self.entities.push(
            Entry::Part(
                PartEntry {
                    part,
                    studs,
                    anchor,
                    anchored: None,
                    child_of: None,
                    shape: None,
                    body: None,
                },
            ),
        );
        proof {
            let before = *old(self);
            assert forall|m: u64| #[trigger] self.is_model(m) implies self.model_wf(m)
                && (self.model(
                m,
            ).body matches Some(h) ==> self.physics.body(h) matches Some(b) && b.user_data
                == m) by {
                assert(before.is_model(m));
                assert(before.model_wf(m));
                assert forall|c: u64| #[trigger]
                    self.model(m).model.graph.nodes().contains(c) implies self.is_child(c, m) by {
                    assert(before.is_child(c, m));
                }
            }
            assert forall|e: u64| #[trigger] self.is_part(e) implies self.part_wf(e) by {
                if e != id {
                    assert(before.is_part(e));
                    assert(before.part_wf(e));
                }
            }
            assert forall|k: u64, x: u64| #[trigger] self.anchors.lists(k, x) implies self.is_part(
                x,
            ) && self.part(x).anchor_set().contains(k) by {
                assert(before.anchors.lists(k, x));
            }
            assert forall|i: int| 0 <= i < self.anchors.delete_queue@.len() implies !self.is_part(
                #[trigger] self.anchors.delete_queue@[i],
            ) by {
                assert(!before.is_part(before.anchors.delete_queue@[i]));
            }
        }
        id
    }

    /// The position of the entity `e` in the table.
    pub fn slot(&self, e: u64) -> (i: usize)
        requires
            e < self.entities@.len(),
        ensures
            i == e,
    {
        let n = self.entities.len();
        assert(e < n);
        e as usize
    }

    /// The child of the model `m` at position `i` of its list of children.
    pub fn child_at(&self, m: u64, i: usize) -> (c: u64)
        requires
            self.is_model(m),
            i < self.model(m).children@.len(),
        ensures
            c == self.model(m).children@[i as int],
    {
        let at = self.slot(m);
        match &self.entities[at] {
            Entry::Model(entry) => entry.children[i],
            _ => 0,
        }
    }

    /// The number of children of the model `m`.
    pub fn child_count(&self, m: u64) -> (n: usize)
        requires
            self.is_model(m),
        ensures
            n == self.model(m).children@.len(),
    {
        let at = self.slot(m);
        match &self.entities[at] {
            Entry::Model(entry) => entry.children.len(),
            _ => 0,
        }
    }

    /// Takes the entry under `e` out of the table and leaves a gap.
    pub(crate) fn take(&mut self, e: usize) -> (entry: Entry)
        requires
            e < old(self).entities@.len(),
        ensures
            entry == old(self).entities@[e as int],
            final(self).entities@ == old(self).entities@.update(e as int, Entry::Vacant),
            final(self).anchors == old(self).anchors,
            final(self).physics == old(self).physics,
            final(self).freed == old(self).freed,
            final(self).untagged == old(self).untagged,
    {
        let mut entry = Entry::Vacant;
        std::mem::swap(&mut self.entities[e], &mut entry);
        entry
    }

    /// Puts an entry under `e`.
    pub(crate) fn put(&mut self, e: usize, entry: Entry)
        requires
            e < old(self).entities@.len(),
        ensures
            final(self).entities@ == old(self).entities@.update(e as int, entry),
            final(self).anchors == old(self).anchors,
            final(self).physics == old(self).physics,
            final(self).freed == old(self).freed,
            final(self).untagged == old(self).untagged,
    {
        self.entities[e] = entry;
    }

    /// Adds `extra` to the anchors that hold the part under `x`.
    pub(crate) fn tie(&mut self, x: u64, extra: &IdSet)
        requires
            old(self).is_part(x),
            old(self).part(x).anchor_set().finite(),
            extra@.finite(),
            extra@.len() > 0,
        ensures
            final(self).entities@.len() == old(self).entities@.len(),
            final(self).is_part(x),
            final(self).part(x).anchored is Some,
            final(self).part(x).anchor_set() == old(self).part(x).anchor_set().union(extra@),
            final(self).part(x).anchor_set().finite(),
            final(self).part(x).anchor_set().len() > 0,
            same_but_anchored(old(self).part(x), final(self).part(x)),
            forall|e: int|
                0 <= e < old(self).entities@.len() && e != x ==> final(self).entities@[e] == old(
                    self,
                ).entities@[e],
            final(self).anchors == old(self).anchors,
            final(self).physics == old(self).physics,
            final(self).freed == old(self).freed,
            final(self).untagged == old(self).untagged,
    {
        let at = self.slot(x);
        let entry = self.take(at);
        match entry {
            Entry::Part(part) => {
                let PartEntry { part, studs, anchor, anchored, child_of, shape, body } = part;
                let mut set = match anchored {
                    Some(Anchored(s)) => s,
                    None => IdSet::new(),
                };
                extend_set(&mut set, extra);
                proof {
                    let k = extra@.choose();
                    assert(extra@.contains(k)) by {
                        if !extra@.contains(k) {
                            assert(extra@ =~= Set::<u64>::empty()) by {
                                assert forall|y: u64| !extra@.contains(y) by {
                                    if extra@.contains(y) {
                                        assert(extra@.contains(extra@.choose()));
                                    }
                                }
                            }
                        }
                    }
                    assert(set@.contains(k));
                    if set@.len() == 0 {
                        set@.lemma_len0_is_empty();
                    }
                }
                self.put(
                    at,
                    Entry::Part(
                        PartEntry {
                            part,
                            studs,
                            anchor,
                            anchored: Some(Anchored(set)),
                            child_of,
                            shape,
                            body,
                        },
                    ),
                );
            },
            _ => {},
        }
    }

    /// Makes the part under `x` a child of `parent`, or a part of its own.
    pub(crate) fn set_child_of(&mut self, x: u64, parent: Option<u64>)
        requires
            old(self).is_part(x),
        ensures
            final(self).entities@ == old(self).entities@.update(
                x as int,
                Entry::Part(PartEntry { child_of: parent, ..old(self).part(x) }),
            ),
            final(self).anchors == old(self).anchors,
            final(self).physics == old(self).physics,
            final(self).freed == old(self).freed,
            final(self).untagged == old(self).untagged,
    {
        let at = self.slot(x);
        let entry = self.take(at);
        match entry {
            Entry::Part(part) => {
                let PartEntry { part, studs, anchor, anchored, child_of, shape, body } = part;
                self.put(
                    at,
                    Entry::Part(
                        PartEntry { part, studs, anchor, anchored, child_of: parent, shape, body },
                    ),
                );
            },
            _ => {},
        }
    }
}

/// The two parts differ at most in the anchors that hold them.
pub open spec fn same_but_anchored(before: PartEntry, after: PartEntry) -> bool {
    &&& after.part == before.part
    &&& after.studs == before.studs
    &&& after.anchor == before.anchor
    &&& after.child_of == before.child_of
    &&& after.shape == before.shape
    &&& after.body == before.body
}

/// Every body and collider of `before` is still there in `after`, with the
/// same owner, but perhaps for the collider `gone`.
pub open spec fn ledger_keeps(
    before: &PhysicsState,
    after: &PhysicsState,
    gone: Option<ShapeHandle>,
) -> bool {
    &&& forall|h: BodyHandle| #[trigger]
        before.body(h) is Some ==> (after.body(h) matches Some(b) && b.user_data == before.body(
            h,
        )->0.user_data)
    &&& forall|h: ShapeHandle| #[trigger]
        before.collider(h) is Some && gone != Some(h) ==> (after.collider(h) matches Some(c)
            && c.owner == before.collider(h)->0.owner)
}

/// The two parts differ at most in their collider and their body.
pub open spec fn same_but_handles(before: PartEntry, after: PartEntry) -> bool {
    &&& after.part == before.part
    &&& after.studs == before.studs
    &&& after.anchor == before.anchor
    &&& after.anchored == before.anchored
    &&& after.child_of == before.child_of
}

/// The two models differ at most in their body.
pub open spec fn same_but_body(before: ModelEntry, after: ModelEntry) -> bool {
    &&& after.model == before.model
    &&& after.children == before.children
    &&& after.velocity_of == before.velocity_of
}

/// A world stays sound when one part gets other handles that lead to a
/// collider and a body of its own, and the ledger keeps what it had, but
/// perhaps for a collider of that part.
pub proof fn lemma_wf_part_handles(
    before: &World,
    after: &World,
    e: u64,
    gone: Option<ShapeHandle>,
)
    requires
        before.wf(),
        before.is_part(e),
        after.is_part(e),
        after.entities@.len() == before.entities@.len(),
        forall|x: int|
            0 <= x < before.entities@.len() && x != e ==> after.entities@[x] == before.entities@[x],
        same_but_handles(before.part(e), after.part(e)),
        ledger_keeps(&before.physics, &after.physics, gone),
        gone matches Some(g) ==> before.physics.collider(g) matches Some(c) && c.owner == e,
        after.part(e).shape matches Some(h) ==> after.physics.collider(h) matches Some(c)
            && c.owner == e,
        after.part(e).body matches Some(h) ==> after.physics.body(h) matches Some(b)
            && b.user_data == e,
        after.part(e).anchor ==> after.part(e).body is None,
        after.anchors == before.anchors,
    ensures
        after.wf(),
{
    assert forall|m: u64| #[trigger] after.is_model(m) implies after.model_wf(m) && (after.model(
        m,
    ).body matches Some(h) ==> after.physics.body(h) matches Some(b) && b.user_data == m) by {
        assert(before.is_model(m));
        assert(before.model_wf(m));
        assert forall|c: u64| #[trigger]
            after.model(m).model.graph.nodes().contains(c) implies after.is_child(c, m) by {
            assert(before.is_child(c, m));
        }
        if before.model(m).body is Some {
            assert(before.physics.body(before.model(m).body->0) is Some);
        }
    }
    assert forall|x: u64| #[trigger] after.is_part(x) implies after.part_wf(x) by {
        assert(before.is_part(x));
        assert(before.part_wf(x));
        if x != e {
            if before.part(x).shape is Some {
                assert(before.physics.collider(before.part(x).shape->0) is Some);
            }
            if before.part(x).body is Some {
                assert(before.physics.body(before.part(x).body->0) is Some);
            }
        }
    }
    assert forall|k: u64, x: u64| #[trigger] after.anchors.lists(k, x) implies after.is_part(x)
        && after.part(x).anchor_set().contains(k) by {
        assert(before.anchors.lists(k, x));
        assert(before.is_part(x));
    }
    assert forall|i: int| 0 <= i < after.anchors.delete_queue@.len() implies !after.is_part(
        #[trigger] after.anchors.delete_queue@[i],
    ) by {
        assert(!before.is_part(before.anchors.delete_queue@[i]));
    }
}

/// A world stays sound when one model gets a body of its own, and the
/// ledger keeps what it had.
pub proof fn lemma_wf_model_body(before: &World, after: &World, m: u64)
    requires
        before.wf(),
        before.is_model(m),
        after.is_model(m),
        after.entities@.len() == before.entities@.len(),
        forall|x: int|
            0 <= x < before.entities@.len() && x != m ==> after.entities@[x] == before.entities@[x],
        same_but_body(before.model(m), after.model(m)),
        ledger_keeps(&before.physics, &after.physics, None),
        after.model(m).body matches Some(h) ==> after.physics.body(h) matches Some(b)
            && b.user_data == m,
        after.anchors == before.anchors,
    ensures
        after.wf(),
{
    assert forall|x: u64| #[trigger] after.is_model(x) implies after.model_wf(x) && (after.model(
        x,
    ).body matches Some(h) ==> after.physics.body(h) matches Some(b) && b.user_data == x) by {
        assert(before.is_model(x));
        assert(before.model_wf(x));
        assert forall|c: u64| #[trigger]
            after.model(x).model.graph.nodes().contains(c) implies after.is_child(c, x) by {
            assert(before.is_child(c, x));
        }
        if x != m && before.model(x).body is Some {
            assert(before.physics.body(before.model(x).body->0) is Some);
        }
    }
    assert forall|x: u64| #[trigger] after.is_part(x) implies after.part_wf(x) by {
        assert(before.is_part(x));
        assert(before.part_wf(x));
        if before.part(x).shape is Some {
            assert(before.physics.collider(before.part(x).shape->0) is Some);
        }
        if before.part(x).body is Some {
            assert(before.physics.body(before.part(x).body->0) is Some);
        }
    }
    assert forall|k: u64, x: u64| #[trigger] after.anchors.lists(k, x) implies after.is_part(x)
        && after.part(x).anchor_set().contains(k) by {
        assert(before.anchors.lists(k, x));
        assert(before.is_part(x));
    }
    assert forall|i: int| 0 <= i < after.anchors.delete_queue@.len() implies !after.is_part(
        #[trigger] after.anchors.delete_queue@[i],
    ) by {
        assert(!before.is_part(before.anchors.delete_queue@[i]));
    }
}

} // verus!
