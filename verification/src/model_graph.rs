//! Building the models of a scene, and keeping them true to their graphs.

use vstd::prelude::*;

use crate::components::Component;
use crate::components::anchor_edge;
use crate::components::component_of;
use crate::components::free_edge;
use crate::components::is_free;
use crate::components::is_partition;
use crate::components::lemma_bounded_set_len;
use crate::components::lists;
use crate::components::partition;
use crate::edits::body_released;
use crate::edits::release_children;
use crate::edits::vacate_model;
use crate::graph::is_connected;
use crate::idset::IdSet;
use crate::idset::IdTable;
use crate::matrix::MAX_NODES;
use crate::model::Model;
use crate::model::Submodel;
use crate::model::decompose;
use crate::model::is_decomposition;
use crate::model::lemma_piece_connected;
use crate::model::piece_of;
use crate::parts::Geometry;
use crate::parts::StudInfo;
use crate::parts::StudType;
use crate::paths::lemma_closed_holds_reached;
use crate::physics::BodyHandle;
use crate::physics::Collider;
use crate::physics::ShapeOffset;
use crate::scene::PartInfo;
use crate::scene::snap_matrix;
use crate::sets::key_set;
use crate::sets::keys_listing;
use crate::sets::map_keys;
use crate::sets::set_members;
use crate::world::Entry;
use crate::world::MAX_ENTITIES;
use crate::world::ModelEntry;
use crate::world::PartEntry;
use crate::world::World;
use crate::world::same_but_anchored;

verus! {

/// What snap detection reads of an entry. Only parts that stand upright and
/// belong to no model take part.
pub open spec fn info_of(entry: Entry, upright: bool) -> PartInfo {
    match entry {
        Entry::Part(p) => PartInfo {
            active: upright && p.child_of is None,
            anchor: p.anchor,
            studs: p.studs,
        },
        _ => PartInfo {
            active: false,
            anchor: false,
            studs: StudInfo { top: StudType::Flat, bottom: StudType::Flat },
        },
    }
}

/// What snap detection reads of the entities of a world.
pub open spec fn scene_infos(world: &World, geometry: &Geometry) -> Seq<PartInfo> {
    Seq::new(
        world.entities@.len(),
        |e: int| info_of(world.entities@[e], geometry.upright_at(e)),
    )
}

/// Reads off what snap detection needs of each entity.
pub fn part_infos(world: &World, geometry: &Geometry) -> (infos: Vec<PartInfo>)
    ensures
        infos@ == scene_infos(world, geometry),
{
    let mut infos: Vec<PartInfo> = Vec::new();
    let n = world.entities.len();
    let mut e: usize = 0;
    while e < n
        invariant
            n == world.entities@.len(),
            e <= n,
            infos@.len() == e,
            forall|i: int|
                0 <= i < e ==> infos@[i] == info_of(world.entities@[i], geometry.upright_at(i)),
        decreases n - e,
    {
        let upright = geometry.is_upright(e);
        let info = match &world.entities[e] {
            Entry::Part(p) => PartInfo {
                active: upright && p.child_of.is_none(),
                anchor: p.anchor,
                studs: p.studs,
            },
            _ => PartInfo {
                active: false,
                anchor: false,
                studs: StudInfo { top: StudType::Flat, bottom: StudType::Flat },
            },
        };
        infos.push(info);
        e = e + 1;
    }
    assert(infos@ =~= scene_infos(world, geometry));
    infos
}

/// The anchors of the table that list `x`.
pub open spec fn touched(anchors: Map<u64, Set<u64>>, x: u64) -> Set<u64> {
    Set::new(|k: u64| lists(anchors, k, x))
}

/// The part is as it was, but for the anchors in `extra`, which now hold it
/// too.
pub open spec fn tied(before: PartEntry, after: PartEntry, extra: Set<u64>) -> bool {
    &&& same_but_anchored(before, after)
    &&& after.anchor_set() == before.anchor_set().union(extra)
    &&& extra.len() > 0 ==> after.anchored is Some && after.anchor_set().len() > 0
    &&& extra.len() == 0 ==> after.anchored == before.anchored
}

/// Gives each of the members the anchors that list it.
fn anchor_members(world: &mut World, members: &Vec<u64>, anchors: &IdTable)
    requires
        members@.no_duplicates(),
        forall|i: int|
            0 <= i < members@.len() ==> old(world).is_part(#[trigger] members@[i]) && old(
                world,
            ).part(members@[i]).anchor_set().finite(),
    ensures
        final(world).entities@.len() == old(world).entities@.len(),
        forall|e: u64|
            e < old(world).entities@.len() ==> if members@.contains(e) {
                final(world).is_part(e) && tied(
                    old(world).part(e),
                    final(world).part(e),
                    touched(anchors@, e),
                ) && final(world).part(e).anchor_set().finite()
            } else {
                #[trigger] final(world).entities@[e as int] == old(world).entities@[e as int]
            },
        final(world).anchors == old(world).anchors,
        final(world).physics == old(world).physics,
        final(world).freed == old(world).freed,
        final(world).untagged == old(world).untagged,
{
    let mut i: usize = 0;
    while i < members.len()
        invariant
            i <= members@.len(),
            members@.no_duplicates(),
            world.entities@.len() == old(world).entities@.len(),
            forall|j: int|
                0 <= j < members@.len() ==> old(world).is_part(#[trigger] members@[j]) && old(
                    world,
                ).part(members@[j]).anchor_set().finite(),
            forall|e: u64|
                e < old(world).entities@.len() ==> if exists|j: int|
                    0 <= j < i && members@[j] == e {
                    world.is_part(e) && tied(
                        old(world).part(e),
                        world.part(e),
                        touched(anchors@, e),
                    ) && world.part(e).anchor_set().finite()
                } else {
                    #[trigger] world.entities@[e as int] == old(world).entities@[e as int]
                },
            world.anchors == old(world).anchors,
            world.physics == old(world).physics,
            world.freed == old(world).freed,
            world.untagged == old(world).untagged,
        decreases members@.len() - i,
    {
        let x = members[i];
        let ghost mid = *world;
        let connected = keys_listing(anchors, x);
        proof {
            assert(connected@ =~= touched(anchors@, x));
            assert(!(exists|j: int| 0 <= j < i && members@[j] == x));
            assert(world.entities@[x as int] == old(world).entities@[x as int]);
        }
        if !connected.is_empty() {
            proof {
                assert(connected@.len() > 0) by {
                    if connected@.len() == 0 {
                        connected@.lemma_len0_is_empty();
                    }
                }
            }
            world.tie(x, &connected);
        } else {
            proof {
                assert(connected@ =~= Set::<u64>::empty());
                assert(world.part(x).anchor_set().union(connected@) =~= world.part(x).anchor_set());
            }
        }
        proof {
            assert forall|e: u64| e < old(world).entities@.len() implies if exists|j: int|
                0 <= j < i + 1 && members@[j] == e {
                world.is_part(e) && tied(old(world).part(e), world.part(e), touched(anchors@, e))
                    && world.part(e).anchor_set().finite()
            } else {
                #[trigger] world.entities@[e as int] == old(world).entities@[e as int]
            } by {
                if e == x {
                    assert(members@[i as int] == e);
                } else {
                    assert(world.entities@[e as int] == mid.entities@[e as int]);
                    if exists|j: int| 0 <= j < i && members@[j] == e {
                        let j = choose|j: int| 0 <= j < i && members@[j] == e;
                        assert(0 <= j < i + 1 && members@[j] == e);
                    }
                    if exists|j: int| 0 <= j < i + 1 && members@[j] == e {
                        let j = choose|j: int| 0 <= j < i + 1 && members@[j] == e;
                        assert(j < i);
                    }
                }
            }
        }
        i = i + 1;
    }
    proof {
        assert forall|e: u64| e < old(world).entities@.len() implies if members@.contains(e) {
            world.is_part(e) && tied(old(world).part(e), world.part(e), touched(anchors@, e))
                && world.part(e).anchor_set().finite()
        } else {
            #[trigger] world.entities@[e as int] == old(world).entities@[e as int]
        } by {
            if members@.contains(e) {
                let j = choose|j: int| 0 <= j < members@.len() && members@[j] == e;
                assert(0 <= j < i && members@[j] == e);
            }
            if exists|j: int| 0 <= j < i && members@[j] == e {
                let j = choose|j: int| 0 <= j < i && members@[j] == e;
                assert(members@.contains(e));
            }
        }
    }
}

/// Spawns a model and makes the members its children.
fn adopt(
    world: &mut World,
    model: Model,
    members: Vec<u64>,
    velocity_of: Option<crate::physics::BodyHandle>,
) -> (id: u64)
    requires
        old(world).entities@.len() < u64::MAX,
        forall|i: int| 0 <= i < members@.len() ==> old(world).is_part(#[trigger] members@[i]),
    ensures
        id == old(world).entities@.len(),
        final(world).entities@.len() == old(world).entities@.len() + 1,
        final(world).entities@[id as int] == Entry::Model(
            ModelEntry { model, children: members, body: None, velocity_of },
        ),
        forall|e: u64|
            e < old(world).entities@.len() ==> #[trigger] final(world).entities@[e as int]
                == if members@.contains(e) {
                Entry::Part(PartEntry { child_of: Some(id), ..old(world).part(e) })
            } else {
                old(world).entities@[e as int]
            },
        final(world).anchors == old(world).anchors,
        final(world).physics == old(world).physics,
        final(world).freed == old(world).freed,
        final(world).untagged == old(world).untagged,
{
    let id = world.entities.len() as u64;
    let mut i: usize = 0;
    while i < members.len()
        invariant
            i <= members@.len(),
            id == old(world).entities@.len(),
            world.entities@.len() == old(world).entities@.len(),
            forall|j: int| 0 <= j < members@.len() ==> old(world).is_part(#[trigger] members@[j]),
            forall|e: u64|
                e < old(world).entities@.len() ==> #[trigger] world.entities@[e as int]
                    == if exists|j: int| 0 <= j < i && members@[j] == e {
                    Entry::Part(PartEntry { child_of: Some(id), ..old(world).part(e) })
                } else {
                    old(world).entities@[e as int]
                },
            world.anchors == old(world).anchors,
            world.physics == old(world).physics,
            world.freed == old(world).freed,
            world.untagged == old(world).untagged,
        decreases members@.len() - i,
    {
        let x = members[i];
        let ghost mid = *world;
        proof {
            assert(mid.is_part(x));
            assert(PartEntry { child_of: Some(id), ..mid.part(x) } == PartEntry {
                child_of: Some(id),
                ..old(world).part(x)
            });
        }
        world.set_child_of(x, Some(id));
        proof {
            assert forall|e: u64| e < old(world).entities@.len()
                implies #[trigger] world.entities@[e as int]
                == if exists|j: int| 0 <= j < i + 1 && members@[j] == e {
                Entry::Part(PartEntry { child_of: Some(id), ..old(world).part(e) })
            } else {
                old(world).entities@[e as int]
            } by {
                if e == x {
                    assert(members@[i as int] == e);
                } else {
                    assert(world.entities@[e as int] == mid.entities@[e as int]);
                    if exists|j: int| 0 <= j < i && members@[j] == e {
                        let j = choose|j: int| 0 <= j < i && members@[j] == e;
                        assert(0 <= j < i + 1 && members@[j] == e);
                    }
                    if exists|j: int| 0 <= j < i + 1 && members@[j] == e {
                        let j = choose|j: int| 0 <= j < i + 1 && members@[j] == e;
                        assert(j < i);
                    }
                }
            }
        }
        i = i + 1;
    }
    proof {
        assert forall|e: u64| e < old(world).entities@.len() implies ((exists|j: int|
            0 <= j < i && members@[j] == e) <==> members@.contains(e)) by {
            if members@.contains(e) {
                let j = choose|j: int| 0 <= j < members@.len() && members@[j] == e;
                assert(0 <= j < i && members@[j] == e);
            }
        }
    }
    world.entities.push(Entry::Model(ModelEntry { model,
        children: members, body: None, velocity_of }));
    id
}

/// Adds the dependents of each anchor of `more` to the anchor table of the
/// world.
fn merge_anchors(world: &mut World, more: &IdTable)
    requires
        forall|k: u64| #[trigger]
            old(world).anchors.anchors@.dom().contains(k)
                ==> old(world).anchors.anchors@[k].finite(),
        forall|k: u64| #[trigger] more@.dom().contains(k) ==> more@[k].finite(),
    ensures
        forall|k: u64, x: u64| #[trigger]
            final(world).anchors.lists(k, x) <==> old(world).anchors.lists(k, x) || lists(
                more@,
                k,
                x,
            ),
        final(world).anchors.anchors@.dom() == old(world).anchors.anchors@.dom().union(more@.dom()),
        forall|k: u64| #[trigger]
            final(world).anchors.anchors@.dom().contains(k)
                ==> final(world).anchors.anchors@[k].finite(),
        final(world).anchors.delete_queue == old(world).anchors.delete_queue,
        final(world).entities == old(world).entities,
        final(world).physics == old(world).physics,
        final(world).freed == old(world).freed,
        final(world).untagged == old(world).untagged,
{
    let keys = map_keys(more);
    let mut i: usize = 0;
    while i < keys.len()
        invariant
            i <= keys@.len(),
            keys@.no_duplicates(),
            keys@.to_set() == more@.dom(),
            forall|k: u64| #[trigger] more@.dom().contains(k) ==> more@[k].finite(),
            forall|k: u64, x: u64| #[trigger]
                world.anchors.lists(k, x) <==> old(world).anchors.lists(k, x) || (lists(
                    more@,
                    k,
                    x,
                ) && exists|j: int| 0 <= j < i && keys@[j] == k),
            forall|k: u64|
                world.anchors.anchors@.dom().contains(k) <==> old(
                    world,
                ).anchors.anchors@.dom().contains(k) || exists|j: int|
                    0 <= j < i && keys@[j] == k,
            forall|k: u64| #[trigger]
                world.anchors.anchors@.dom().contains(k) ==> world.anchors.anchors@[k].finite(),
            world.anchors.delete_queue == old(world).anchors.delete_queue,
            world.entities == old(world).entities,
            world.physics == old(world).physics,
            world.freed == old(world).freed,
            world.untagged == old(world).untagged,
        decreases keys@.len() - i,
    {
        let k = keys[i];
        let ghost mid = *world;
        proof {
            assert(keys@.to_set().contains(keys@[i as int]));
            assert(more@.dom().contains(k));
        }
        let taken = world.anchors.anchors.remove(k);
        let mut set = match taken {
            Some(s) => s,
            None => IdSet::new(),
        };
        let ghost set_before = set@;
        let extra = more.members(k);
        crate::sets::extend_from(&mut set, &extra);
        world.anchors.anchors.insert(k, set);
        proof {
            assert(set@ == set_before.union(more@[k]));
            assert(mid.anchors.anchors@.dom().contains(k) ==> set_before
                == mid.anchors.anchors@[k]);
            assert(!mid.anchors.anchors@.dom().contains(k) ==> set_before == Set::<u64>::empty());
            assert(world.anchors.anchors@ == mid.anchors.anchors@.remove(k).insert(k, set@));
            assert forall|key: u64, x: u64| #[trigger]
                world.anchors.lists(key, x) <==> old(world).anchors.lists(key, x) || (lists(
                    more@,
                    key,
                    x,
                ) && exists|j: int| 0 <= j < i + 1 && keys@[j] == key) by {
                assert(mid.anchors.lists(key, x) <==> old(world).anchors.lists(key, x) || (lists(
                    more@,
                    key,
                    x,
                ) && exists|j: int| 0 <= j < i && keys@[j] == key));
                if key == k {
                    assert(keys@[i as int] == key);
                    assert(world.anchors.lists(key, x) <==> mid.anchors.lists(key, x) || lists(
                        more@,
                        key,
                        x,
                    ));
                    if exists|j: int| 0 <= j < i && keys@[j] == key {
                        let j = choose|j: int| 0 <= j < i && keys@[j] == key;
                        assert(false);
                    }
                } else {
                    assert(world.anchors.lists(key, x) <==> mid.anchors.lists(key, x));
                    if exists|j: int| 0 <= j < i && keys@[j] == key {
                        let j = choose|j: int| 0 <= j < i && keys@[j] == key;
                        assert(0 <= j < i + 1 && keys@[j] == key);
                    }
                    if exists|j: int| 0 <= j < i + 1 && keys@[j] == key {
                        let j = choose|j: int| 0 <= j < i + 1 && keys@[j] == key;
                        assert(j < i);
                    }
                }
            }
            assert forall|key: u64|
                world.anchors.anchors@.dom().contains(key) <==> old(
                    world,
                ).anchors.anchors@.dom().contains(key) || exists|j: int|
                    0 <= j < i + 1 && keys@[j] == key by {
                if key == k {
                    assert(keys@[i as int] == key);
                } else {
                    assert(world.anchors.anchors@.dom().contains(key)
                        == mid.anchors.anchors@.dom().contains(key));
                    if exists|j: int| 0 <= j < i && keys@[j] == key {
                        let j = choose|j: int| 0 <= j < i && keys@[j] == key;
                        assert(0 <= j < i + 1 && keys@[j] == key);
                    }
                    if exists|j: int| 0 <= j < i + 1 && keys@[j] == key {
                        let j = choose|j: int| 0 <= j < i + 1 && keys@[j] == key;
                        assert(j < i);
                    }
                }
            }
            assert forall|key: u64| #[trigger]
                world.anchors.anchors@.dom().contains(key)
                    implies world.anchors.anchors@[key].finite() by {
                if key != k {
                    assert(mid.anchors.anchors@.dom().contains(key));
                }
            }
        }
        i = i + 1;
    }
    proof {
        assert forall|k: u64, x: u64| #[trigger]
            world.anchors.lists(k, x) <==> old(world).anchors.lists(k, x) || lists(more@, k, x) by {
            if lists(more@, k, x) {
                assert(keys@.to_set().contains(k));
                let j = choose|j: int| 0 <= j < keys@.len() && keys@[j] == k;
                assert(0 <= j < i && keys@[j] == k);
            }
        }
        assert forall|k: u64|
            world.anchors.anchors@.dom().contains(k) <==> old(world).anchors.anchors@.dom().union(
                more@.dom(),
            ).contains(k) by {
            if more@.dom().contains(k) {
                assert(keys@.to_set().contains(k));
                let j = choose|j: int| 0 <= j < keys@.len() && keys@[j] == k;
                assert(0 <= j < i && keys@[j] == k);
            }
            if exists|j: int| 0 <= j < i && keys@[j] == k {
                let j = choose|j: int| 0 <= j < i && keys@[j] == k;
                assert(keys@.to_set().contains(keys@[j]));
            }
        }
        assert(world.anchors.anchors@.dom() =~= old(world).anchors.anchors@.dom().union(
            more@.dom(),
        ));
    }
}

/// The component can be applied to the world: its members are parts of the
/// world that have no parent and are no anchors, its graph spans exactly its
/// members, and its anchor table lists members only.
pub open spec fn fits(world: &World, component: &Component) -> bool {
    &&& component.set@.finite()
    &&& component.set@.len() > 0
    &&& forall|x: u64| #[trigger]
        component.set@.contains(x) ==> world.is_part(x) && world.part(x).child_of is None
            && !world.part(x).anchor
    &&& component.graph.wf()
    &&& component.graph.nodes() == component.set@
    &&& forall|k: u64, x: u64| #[trigger]
        lists(component.anchors@, k, x) ==> component.set@.contains(x)
    &&& forall|k: u64| #[trigger]
        component.anchors@.dom().contains(k) ==> component.anchors@[k].finite()
}

/// The model entry is the one that a component gives rise to.
pub open spec fn model_from(entry: ModelEntry, component: &Component) -> bool {
    &&& entry.model.graph == component.graph
    &&& entry.model.anchors@ == component.anchors@.dom()
    &&& !entry.model.dirty
    &&& entry.children@.no_duplicates()
    &&& entry.children@.to_set() == component.set@
    &&& entry.body is None
    &&& entry.velocity_of is None
}

/// What applying a component does to a world: each member is held by the
/// anchors that list it, besides those that held it before; a component of
/// two or more members becomes a model, the newest entity, with the members
/// as its children; the anchor table takes up what the component lists.
/// Everything else stays.
pub open spec fn applied(before: &World, after: &World, component: &Component) -> bool {
    let grouped = component.set@.len() > 1;
    let id = before.entities@.len() as u64;
    &&& after.entities@.len() == before.entities@.len() + if grouped {
        1int
    } else {
        0int
    }
    &&& forall|e: u64|
        e < before.entities@.len() ==> if component.set@.contains(e) {
            &&& after.is_part(e)
            &&& tied(
                before.part(e),
                PartEntry { child_of: None, ..after.part(e) },
                touched(component.anchors@, e),
            )
            &&& after.part(e).anchor_set().finite()
            &&& after.part(e).child_of == if grouped {
                Some(id)
            } else {
                None
            }
        } else {
            #[trigger] after.entities@[e as int] == before.entities@[e as int]
        }
    &&& grouped ==> after.is_model(id) && model_from(after.model(id), component)
    &&& forall|k: u64, x: u64| #[trigger]
        after.anchors.lists(k, x) <==> before.anchors.lists(k, x) || lists(
            component.anchors@,
            k,
            x,
        )
    &&& after.anchors.anchors@.dom() == before.anchors.anchors@.dom().union(
        component.anchors@.dom(),
    )
    &&& forall|k: u64| #[trigger]
        after.anchors.anchors@.dom().contains(k) ==> after.anchors.anchors@[k].finite()
    &&& after.anchors.delete_queue == before.anchors.delete_queue
    &&& after.physics == before.physics
    &&& after.freed == before.freed
    &&& after.untagged == before.untagged
}

/// Applying a component that fits a sound world leaves the world sound.
pub proof fn lemma_applied_wf(before: &World, after: &World, component: &Component)
    requires
        before.wf(),
        before.entities@.len() < u64::MAX,
        fits(before, component),
        applied(before, after, component),
    ensures
        after.wf(),
{
    let grouped = component.set@.len() > 1;
    let id = before.entities@.len() as u64;
    assert forall|m: u64| #[trigger] after.is_model(m) implies after.model_wf(m) && (after.model(
        m,
    ).body matches Some(h) ==> after.physics.body(h) matches Some(b) && b.user_data == m) by {
        if m < before.entities@.len() {
            assert(after.entities@[m as int] == before.entities@[m as int]);
            assert(before.is_model(m));
            assert(before.model_wf(m));
            assert forall|c: u64| #[trigger]
                after.model(m).model.graph.nodes().contains(c) implies after.is_child(c, m) by {
                assert(before.is_child(c, m));
                assert(!component.set@.contains(c));
                assert(after.entities@[c as int] == before.entities@[c as int]);
            }
        } else {
            assert(m == id);
            assert forall|c: u64| #[trigger]
                after.model(m).model.graph.nodes().contains(c) implies after.is_child(c, m) by {
                assert(component.set@.contains(c));
            }
        }
    }
    assert forall|e: u64| #[trigger] after.is_part(e) implies after.part_wf(e) by {
        if e < before.entities@.len() {
            if component.set@.contains(e) {
                assert(before.part_wf(e));
            } else {
                assert(after.entities@[e as int] == before.entities@[e as int]);
                assert(before.is_part(e));
                assert(before.part_wf(e));
                if before.part(e).child_of is Some {
                    let m = before.part(e).child_of->0;
                    assert(before.is_model(m));
                    assert(!component.set@.contains(m));
                    assert(after.entities@[m as int] == before.entities@[m as int]);
                }
            }
        }
    }
    assert forall|k: u64, x: u64| #[trigger] after.anchors.lists(k, x) implies after.is_part(x)
        && after.part(x).anchor_set().contains(k) by {
        if before.anchors.lists(k, x) {
            assert(before.is_part(x));
            if !component.set@.contains(x) {
                assert(after.entities@[x as int] == before.entities@[x as int]);
            }
        } else {
            assert(lists(component.anchors@, k, x));
            assert(component.set@.contains(x));
            assert(touched(component.anchors@, x).contains(k));
        }
    }
    assert forall|i: int| 0 <= i < after.anchors.delete_queue@.len()
        implies after.anchors.anchors@.dom().contains(
        #[trigger] after.anchors.delete_queue@[i],
    ) && after.anchors.delete_queue@[i] < after.entities@.len() && !after.is_part(
        after.anchors.delete_queue@[i],
    ) by {
        let q = before.anchors.delete_queue@[i];
        assert(before.anchors.anchors@.dom().contains(q));
        assert(!before.is_part(q));
        if q < before.entities@.len() {
            assert(!component.set@.contains(q));
            assert(after.entities@[q as int] == before.entities@[q as int]);
        }
    }
    assert(after.anchors_wf());
}

/// Applies one component of the scene to the world.
pub fn apply_component(world: &mut World, component: Component)
    requires
        old(world).wf(),
        old(world).entities@.len() < u64::MAX,
        fits(old(world), &component),
    ensures
        final(world).wf(),
        applied(old(world), final(world), &component),
{
    let ghost whole = component;
    let Component { set, graph, anchors } = component;
    let members = set_members(&set);
    let count = set.len();
    proof {
        members@.unique_seq_to_set();
        assert forall|i: int| 0 <= i < members@.len() implies old(world).is_part(
            #[trigger] members@[i],
        ) && old(world).part(members@[i]).anchor_set().finite() by {
            assert(members@.to_set().contains(members@[i]));
            assert(old(world).part_wf(members@[i]));
        }
    }
    anchor_members(world, &members, &anchors);
    let ghost mid = *world;
    proof {
        assert forall|x: u64| set@.contains(x) <==> members@.contains(x) by {
            if set@.contains(x) {
                assert(members@.to_set().contains(x));
            }
            if members@.contains(x) {
                assert(members@.to_set().contains(x));
            }
        }
    }
    if count > 1 {
        let model = Model { graph, anchors: key_set(&anchors), dirty: false };
        proof {
            assert forall|i: int| 0 <= i < members@.len() implies world.is_part(
                #[trigger] members@[i],
            ) by {
                assert(members@.contains(members@[i]));
            }
        }
        adopt(world, model, members, None);
    }
    let ghost mid2 = *world;
    proof {
        assert forall|k: u64| #[trigger]
            world.anchors.anchors@.dom().contains(k) implies world.anchors.anchors@[k].finite() by {
            assert(old(world).anchors_wf());
        }
    }
    merge_anchors(world, &anchors);
    proof {
        assert forall|e: u64| e < old(world).entities@.len() implies if whole.set@.contains(e) {
            &&& world.is_part(e)
            &&& tied(
                old(world).part(e),
                PartEntry { child_of: None, ..world.part(e) },
                touched(whole.anchors@, e),
            )
            &&& world.part(e).anchor_set().finite()
            &&& world.part(e).child_of == if count > 1 {
                Some(old(world).entities@.len() as u64)
            } else {
                None
            }
        } else {
            #[trigger] world.entities@[e as int] == old(world).entities@[e as int]
        } by {
            if whole.set@.contains(e) {
                assert(members@.contains(e));
                assert(mid.is_part(e));
                assert(tied(old(world).part(e), mid.part(e), touched(whole.anchors@, e)));
                assert(old(world).part(e).child_of is None);
            } else {
                assert(!members@.contains(e));
                assert(mid.entities@[e as int] == old(world).entities@[e as int]);
            }
        }
        lemma_applied_wf(old(world), world, &whole);
    }
}

/// The anchors that the entity `e` snaps to.
pub open spec fn anchors_touching(infos: Seq<PartInfo>, geometry: &Geometry, e: u64) -> Set<u64> {
    Set::new(|k: u64| anchor_edge(infos, geometry, e, k))
}

/// The anchors that some member of `group` snaps to.
pub open spec fn anchors_of_group(
    infos: Seq<PartInfo>,
    geometry: &Geometry,
    group: Set<u64>,
) -> Set<u64> {
    Set::new(|k: u64| exists|x: u64| group.contains(x) && anchor_edge(infos, geometry, x, k))
}

/// The model entry is the model of the connected group `group`: its graph
/// holds the members and the snap edges among them, its anchors are those
/// that a member snaps to, its children are the members; it is clean and
/// has no body yet.
pub open spec fn model_of(
    entry: ModelEntry,
    infos: Seq<PartInfo>,
    geometry: &Geometry,
    group: Set<u64>,
) -> bool {
    &&& entry.model.graph.wf()
    &&& entry.model.graph.nodes() == group
    &&& forall|x: u64, y: u64|
        #![trigger entry.model.graph.adjacent(x, y)]
        #![trigger free_edge(infos, geometry, x, y)]
        entry.model.graph.adjacent(x, y) <==> group.contains(x) && group.contains(y) && free_edge(
            infos,
            geometry,
            x,
            y,
        )
    &&& entry.model.anchors@ == anchors_of_group(infos, geometry, group)
    &&& !entry.model.dirty
    &&& entry.children@.no_duplicates()
    &&& entry.children@.to_set() == group
    &&& entry.body is None
    &&& entry.velocity_of is None
}

/// What building does to the free part `e`: the anchors that it snaps to
/// hold it, besides those that held it before; if it is connected to other
/// parts it is a child of the model of its group, a new entity; if not, it
/// stays a part of its own.
pub open spec fn member_built(
    before: &World,
    after: &World,
    infos: Seq<PartInfo>,
    geometry: &Geometry,
    e: u64,
) -> bool {
    &&& after.is_part(e)
    &&& tied(
        before.part(e),
        PartEntry { child_of: None, ..after.part(e) },
        anchors_touching(infos, geometry, e),
    )
    &&& match after.part(e).child_of {
        Some(m) => {
            &&& before.entities@.len() <= m < after.entities@.len()
            &&& after.is_model(m)
            &&& model_of(after.model(m), infos, geometry, component_of(infos, geometry, e))
            &&& exists|x: u64| x != e && component_of(infos, geometry, e).contains(x)
        },
        None => forall|x: u64| component_of(infos, geometry, e).contains(x) ==> x == e,
    }
}

/// What building has done once the free parts in `done` have been dealt
/// with.
pub open spec fn built_on(
    before: &World,
    after: &World,
    geometry: &Geometry,
    done: Set<u64>,
) -> bool {
    let infos = scene_infos(before, geometry);
    &&& after.entities@.len() >= before.entities@.len()
    &&& forall|e: u64| #[trigger] done.contains(e)
        ==> member_built(before, after, infos, geometry, e)
    &&& forall|e: u64|
        e < before.entities@.len() && !done.contains(e) ==> #[trigger] after.entities@[e as int]
            == before.entities@[e as int]
    &&& forall|m: u64|
        before.entities@.len() <= m < after.entities@.len() ==> #[trigger] after.is_model(m)
            && exists|e: u64| done.contains(e) && after.part(e).child_of == Some(m)
    &&& forall|k: u64, x: u64| #[trigger]
        after.anchors.lists(k, x) <==> before.anchors.lists(k, x) || (done.contains(x)
            && anchor_edge(infos, geometry, x, k))
    &&& after.anchors.anchors@.dom() == before.anchors.anchors@.dom().union(
        anchors_of_group(infos, geometry, done),
    )
    &&& after.anchors.delete_queue == before.anchors.delete_queue
    &&& after.physics == before.physics
    &&& after.freed == before.freed
    &&& after.untagged == before.untagged
}

/// What building the models of a scene does to a world. The free parts are
/// those that stand upright and belong to no model. Each of them is dealt
/// with as `member_built` says; every new entity is the model of one group
/// of them; the anchor table lists each free part under each anchor that
/// it snaps to, besides what it listed before. Everything else stays.
pub open spec fn built(before: &World, after: &World, geometry: &Geometry) -> bool {
    built_on(
        before,
        after,
        geometry,
        Set::new(|e: u64| is_free(scene_infos(before, geometry), e)),
    )
}

/// A set of one member has no other member.
proof fn lemma_single(s: Set<u64>, e: u64, x: u64)
    requires
        s.finite(),
        s.len() == 1,
        s.contains(e),
        s.contains(x),
    ensures
        x == e,
{
    if x != e {
        let t = s.remove(e);
        assert(t.contains(x));
        assert(t.len() == 0);
        t.lemma_len0_is_empty();
    }
}

/// A set of two or more members has a member besides any given one.
proof fn lemma_other(s: Set<u64>, e: u64) -> (x: u64)
    requires
        s.finite(),
        s.len() > 1,
        s.contains(e),
    ensures
        x != e,
        s.contains(x),
{
    let t = s.remove(e);
    assert(t.len() > 0);
    let x = t.choose();
    assert(t.contains(x)) by {
        if !t.contains(x) {
            assert(t =~= Set::<u64>::empty()) by {
                assert forall|y: u64| !t.contains(y) by {
                    if t.contains(y) {
                        assert(t.contains(t.choose()));
                    }
                }
            }
        }
    }
    x
}

/// A component of a partition fits the world that the partition was made
/// of.
proof fn lemma_partition_fits(world: &World, geometry: &Geometry, comps: Seq<Component>, j: int)
    requires
        is_partition(comps, scene_infos(world, geometry), geometry),
        0 <= j < comps.len(),
    ensures
        fits(world, &comps[j]),
{
    let infos = scene_infos(world, geometry);
    let comp = comps[j];
    assert(comp.set@.len() > 0);
    let e = comp.set@.choose();
    assert(comp.set@.contains(e)) by {
        if !comp.set@.contains(e) {
            assert(comp.set@ =~= Set::<u64>::empty()) by {
                assert forall|y: u64| !comp.set@.contains(y) by {
                    if comp.set@.contains(y) {
                        assert(comp.set@.contains(comp.set@.choose()));
                    }
                }
            }
        }
    }
    assert(comp.is_component_of(infos, geometry, e));
    assert forall|x: u64| #[trigger] comp.set@.contains(x) implies world.is_part(x) && world.part(
        x,
    ).child_of is None && !world.part(x).anchor by {
        assert(is_free(infos, x));
    }
}

/// The model that a component gives rise to is the model of its group.
proof fn lemma_model_of(
    entry: ModelEntry,
    comp: &Component,
    infos: Seq<PartInfo>,
    geometry: &Geometry,
    e: u64,
)
    requires
        model_from(entry, comp),
        comp.is_component_of(infos, geometry, e),
    ensures
        model_of(entry, infos, geometry, component_of(infos, geometry, e)),
{
    let group = component_of(infos, geometry, e);
    assert forall|k: u64|
        comp.anchors@.dom().contains(k)
            <==> anchors_of_group(infos, geometry, group).contains(k) by {
        if comp.anchors@.dom().contains(k) {
            let x = choose|x: u64| lists(comp.anchors@, k, x);
            assert(group.contains(x) && anchor_edge(infos, geometry, x, k));
        }
        if anchors_of_group(infos, geometry, group).contains(k) {
            let x = choose|x: u64| group.contains(x) && anchor_edge(infos, geometry, x, k);
            assert(lists(comp.anchors@, k, x));
        }
    }
    assert(entry.model.anchors@ =~= anchors_of_group(infos, geometry, group));
}

/// Applying one more component of the partition carries building on.
proof fn lemma_built_step(
    before: &World,
    mid: &World,
    after: &World,
    geometry: &Geometry,
    done: Set<u64>,
    comp: &Component,
)
    requires
        built_on(before, mid, geometry, done),
        fits(mid, comp),
        applied(mid, after, comp),
        mid.entities@.len() < u64::MAX,
        forall|x: u64| #[trigger]
            comp.set@.contains(x) ==> !done.contains(x) && x < before.entities@.len()
                && comp.is_component_of(scene_infos(before, geometry), geometry, x),
    ensures
        built_on(before, after, geometry, done.union(comp.set@)),
{
    let infos = scene_infos(before, geometry);
    let next = done.union(comp.set@);
    let grouped = comp.set@.len() > 1;
    let id = mid.entities@.len() as u64;
    assert(after.anchors.anchors@.dom() =~= before.anchors.anchors@.dom().union(
        anchors_of_group(infos, geometry, next),
    )) by {
        let any = comp.set@.choose();
        assert(comp.set@.contains(any)) by {
            if !comp.set@.contains(any) {
                assert(comp.set@ =~= Set::<u64>::empty()) by {
                    assert forall|y: u64| !comp.set@.contains(y) by {
                        if comp.set@.contains(y) {
                            assert(comp.set@.contains(comp.set@.choose()));
                        }
                    }
                }
            }
        }
        assert(comp.is_component_of(infos, geometry, any));
        assert forall|k: u64|
            comp.anchors@.dom().contains(k) <==> anchors_of_group(
                infos,
                geometry,
                comp.set@,
            ).contains(k) by {
            if comp.anchors@.dom().contains(k) {
                let x = choose|x: u64| lists(comp.anchors@, k, x);
                assert(comp.set@.contains(x));
                assert(comp.is_component_of(infos, geometry, x));
                assert(comp.set@.contains(x) && anchor_edge(infos, geometry, x, k));
            }
            if anchors_of_group(infos, geometry, comp.set@).contains(k) {
                let x = choose|x: u64| comp.set@.contains(x) && anchor_edge(infos, geometry, x, k);
                assert(comp.is_component_of(infos, geometry, x));
                assert(lists(comp.anchors@, k, x));
            }
        }
        assert forall|k: u64|
            anchors_of_group(infos, geometry, next).contains(k) <==> anchors_of_group(
                infos,
                geometry,
                done,
            ).contains(k) || anchors_of_group(infos, geometry, comp.set@).contains(k) by {
            if anchors_of_group(infos, geometry, next).contains(k) {
                let x = choose|x: u64| next.contains(x) && anchor_edge(infos, geometry, x, k);
                if done.contains(x) {
                    assert(done.contains(x) && anchor_edge(infos, geometry, x, k));
                } else {
                    assert(comp.set@.contains(x) && anchor_edge(infos, geometry, x, k));
                }
            }
            if anchors_of_group(infos, geometry, done).contains(k) {
                let x = choose|x: u64| done.contains(x) && anchor_edge(infos, geometry, x, k);
                assert(next.contains(x) && anchor_edge(infos, geometry, x, k));
            }
            if anchors_of_group(infos, geometry, comp.set@).contains(k) {
                let x = choose|x: u64| comp.set@.contains(x) && anchor_edge(infos, geometry, x, k);
                assert(next.contains(x) && anchor_edge(infos, geometry, x, k));
            }
        }
    }
    assert forall|e: u64| #[trigger] next.contains(e) implies member_built(
        before,
        after,
        infos,
        geometry,
        e,
    ) by {
        if comp.set@.contains(e) {
            assert(mid.entities@[e as int] == before.entities@[e as int]);
            assert(comp.is_component_of(infos, geometry, e));
            assert(touched(comp.anchors@, e) =~= anchors_touching(infos, geometry, e)) by {
                assert forall|k: u64|
                    touched(comp.anchors@, e).contains(k) <==> anchors_touching(
                        infos,
                        geometry,
                        e,
                    ).contains(k) by {
                    assert(lists(comp.anchors@, k, e) <==> comp.set@.contains(e) && anchor_edge(
                        infos,
                        geometry,
                        e,
                        k,
                    ));
                }
            }
            if grouped {
                lemma_model_of(after.model(id), comp, infos, geometry, e);
                let x = lemma_other(comp.set@, e);
            } else {
                assert forall|x: u64| component_of(infos, geometry, e).contains(x) implies x
                    == e by {
                    lemma_single(comp.set@, e, x);
                }
            }
        } else {
            assert(member_built(before, mid, infos, geometry, e));
            assert(mid.is_part(e));
            assert(after.entities@[e as int] == mid.entities@[e as int]);
            if mid.part(e).child_of is Some {
                let m = mid.part(e).child_of->0;
                assert(mid.is_model(m));
                assert(!comp.set@.contains(m));
                assert(after.entities@[m as int] == mid.entities@[m as int]);
            }
        }
    }
    assert forall|e: u64| e < before.entities@.len() && !next.contains(e)
        implies #[trigger] after.entities@[e as int]
        == before.entities@[e as int] by {
        assert(after.entities@[e as int] == mid.entities@[e as int]);
    }
    assert forall|m: u64| before.entities@.len() <= m < after.entities@.len()
        implies #[trigger] after.is_model(
        m,
    ) && exists|e: u64| next.contains(e) && after.part(e).child_of == Some(m) by {
        if m < mid.entities@.len() {
            assert(mid.is_model(m));
            assert(!comp.set@.contains(m));
            assert(after.entities@[m as int] == mid.entities@[m as int]);
            let e = choose|e: u64| done.contains(e) && mid.part(e).child_of == Some(m);
            assert(member_built(before, mid, infos, geometry, e));
            assert(after.entities@[e as int] == mid.entities@[e as int]);
            assert(next.contains(e) && after.part(e).child_of == Some(m));
        } else {
            assert(m == id);
            let e = comp.set@.choose();
            assert(comp.set@.contains(e)) by {
                if !comp.set@.contains(e) {
                    assert(comp.set@ =~= Set::<u64>::empty()) by {
                        assert forall|y: u64| !comp.set@.contains(y) by {
                            if comp.set@.contains(y) {
                                assert(comp.set@.contains(comp.set@.choose()));
                            }
                        }
                    }
                }
            }
            assert(next.contains(e) && after.part(e).child_of == Some(m));
        }
    }
    assert forall|k: u64, x: u64| #[trigger]
        after.anchors.lists(k, x) <==> before.anchors.lists(k, x) || (next.contains(x)
            && anchor_edge(infos, geometry, x, k)) by {
        assert(mid.anchors.lists(k, x) <==> before.anchors.lists(k, x) || (done.contains(x)
            && anchor_edge(infos, geometry, x, k)));
        assert(after.anchors.lists(k, x) <==> mid.anchors.lists(k, x) || lists(
            comp.anchors@,
            k,
            x,
        ));
        if comp.set@.contains(x) {
            assert(comp.is_component_of(infos, geometry, x));
            assert(lists(comp.anchors@, k, x) <==> comp.set@.contains(x) && anchor_edge(
                infos,
                geometry,
                x,
                k,
            ));
        } else {
            if lists(comp.anchors@, k, x) {
                assert(comp.set@.contains(x));
            }
        }
    }
}

/// Groups the free parts of a scene into models. Parts that snap together,
/// directly or through other parts but never through an anchor, become the
/// children of one new model; a part that snaps to an anchor is held by it,
/// and the anchor table lists it.
pub fn build_models(world: &mut World, geometry: &Geometry)
    requires
        old(world).wf(),
        old(world).entities@.len() <= MAX_NODES,
    ensures
        final(world).wf(),
        built(old(world), final(world), geometry),
{
    let part_info = part_infos(world, geometry);
    let graph = snap_matrix(&part_info, geometry);
    let mut collections = partition(&graph, &part_info, geometry);
    let ghost infos = scene_infos(world, geometry);
    let ghost comps = collections@;
    let ghost mut done: Set<u64> = Set::empty();
    proof {
        assert(world.anchors.anchors@.dom() =~= world.anchors.anchors@.dom().union(
            anchors_of_group(infos, geometry, done),
        ));
        assert(built_on(old(world), world, geometry, done));
    }
    while collections.len() > 0
        invariant
            world.wf(),
            infos == scene_infos(old(world), geometry),
            is_partition(comps, infos, geometry),
            comps.len() <= MAX_NODES,
            old(world).entities@.len() <= MAX_NODES,
            collections@.len() <= comps.len(),
            collections@ == comps.take(collections@.len() as int),
            world.entities@.len() <= old(world).entities@.len() + comps.len() - collections@.len(),
            built_on(old(world), world, geometry, done),
            forall|e: u64|
                done.contains(e) <==> exists|j: int|
                    collections@.len() <= j < comps.len() && #[trigger] comps[j].set@.contains(e),
        decreases collections@.len(),
    {
        let ghost r = collections@.len() - 1;
        let ghost mid = *world;
        let ghost rest = collections@;
        let popped = collections.pop();
        let component = popped.unwrap();
        proof {
            assert(component == comps[r]);
            assert(collections@ =~= comps.take(r));
            lemma_partition_fits(old(world), geometry, comps, r);
            assert forall|x: u64| #[trigger] component.set@.contains(x) implies !done.contains(x)
                && x < old(world).entities@.len() && component.is_component_of(
                infos,
                geometry,
                x,
            ) && mid.entities@[x as int] == old(world).entities@[x as int] by {
                assert(comps[r].set@.contains(x));
                assert(is_free(infos, x));
                if done.contains(x) {
                    let j = choose|j: int|
                        r < j < comps.len() && #[trigger] comps[j].set@.contains(x);
                    assert(!comps[j].set@.contains(x));
                }
            }
            assert(fits(&mid, &component)) by {
                assert(fits(old(world), &component));
            }
        }
        apply_component(world, component);
        proof {
            lemma_built_step(old(world), &mid, world, geometry, done, &component);
            let next = done.union(component.set@);
            assert forall|e: u64|
                next.contains(e) <==> exists|j: int|
                    r <= j < comps.len() && #[trigger] comps[j].set@.contains(e) by {
                if done.contains(e) {
                    let j = choose|j: int|
                        r < j < comps.len() && #[trigger] comps[j].set@.contains(e);
                    assert(r <= j < comps.len() && comps[j].set@.contains(e));
                }
                if component.set@.contains(e) {
                    assert(comps[r].set@.contains(e));
                }
                if exists|j: int| r <= j < comps.len() && #[trigger] comps[j].set@.contains(e) {
                    let j = choose|j: int|
                        r <= j < comps.len() && #[trigger] comps[j].set@.contains(e);
                    if j > r {
                        assert(done.contains(e));
                    }
                }
            }
            done = next;
        }
    }
    proof {
        let all = Set::new(|e: u64| is_free(infos, e));
        assert(done =~= all) by {
            assert forall|e: u64| done.contains(e) <==> all.contains(e) by {
                if done.contains(e) {
                    let j = choose|j: int|
                        0 <= j < comps.len() && #[trigger] comps[j].set@.contains(e);
                    assert(is_free(infos, e));
                }
                if is_free(infos, e) {
                    let j = choose|j: int|
                        0 <= j < comps.len() && #[trigger] comps[j].set@.contains(e);
                }
            }
        }
    }
}

/// The anchors among `anchors` that hold a member of `piece`.
pub open spec fn anchors_holding(world: &World, piece: Set<u64>, anchors: Set<u64>) -> Set<u64> {
    Set::new(
        |k: u64|
            anchors.contains(k) && exists|y: u64| #[trigger]
                piece.contains(y) && world.part(y).anchor_set().contains(k),
    )
}

/// Which anchors hold a member of a piece depends only on what holds the
/// members.
pub proof fn lemma_anchors_holding_same(a: &World, b: &World, piece: Set<u64>, anchors: Set<u64>)
    requires
        forall|y: u64| #[trigger]
            piece.contains(y) ==> a.part(y).anchor_set() == b.part(y).anchor_set(),
    ensures
        anchors_holding(a, piece, anchors) == anchors_holding(b, piece, anchors),
{
    assert forall|k: u64|
        anchors_holding(a, piece, anchors).contains(k) <==> anchors_holding(
            b,
            piece,
            anchors,
        ).contains(k) by {
        if anchors_holding(a, piece, anchors).contains(k) {
            let y = choose|y: u64| #[trigger]
                piece.contains(y) && a.part(y).anchor_set().contains(k);
            assert(piece.contains(y) && b.part(y).anchor_set().contains(k));
        }
        if anchors_holding(b, piece, anchors).contains(k) {
            let y = choose|y: u64| #[trigger]
                piece.contains(y) && b.part(y).anchor_set().contains(k);
            assert(piece.contains(y) && a.part(y).anchor_set().contains(k));
        }
    }
    assert(anchors_holding(a, piece, anchors) =~= anchors_holding(b, piece, anchors));
}

/// Whether the anchor `k` holds one of the members.
fn holds_one(world: &World, members: &Vec<u64>, k: u64) -> (found: bool)
    requires
        forall|i: int| 0 <= i < members@.len() ==> world.is_part(#[trigger] members@[i]),
    ensures
        found == exists|i: int|
            0 <= i < members@.len() && world.part(#[trigger] members@[i]).anchor_set().contains(k),
{
    let mut i: usize = 0;
    while i < members.len()
        invariant
            i <= members@.len(),
            forall|j: int| 0 <= j < members@.len() ==> world.is_part(#[trigger] members@[j]),
            forall|j: int|
                0 <= j < i ==> !world.part(#[trigger] members@[j]).anchor_set().contains(k),
        decreases members@.len() - i,
    {
        let x = members[i];
        assert(world.is_part(members@[i as int]));
        let at = world.slot(x);
        let held = match &world.entities[at] {
            Entry::Part(part) => match &part.anchored {
                Some(anchored) => anchored.0.contains(k),
                None => false,
            },
            _ => false,
        };
        if held {
            assert(world.part(members@[i as int]).anchor_set().contains(k));
            return true;
        }
        i = i + 1;
    }
    false
}

/// The anchors of the list that hold one of the members.
fn held_anchors(world: &World, members: &Vec<u64>, anchors: &Vec<u64>) -> (out: IdSet)
    requires
        forall|i: int| 0 <= i < members@.len() ==> world.is_part(#[trigger] members@[i]),
    ensures
        out@ == anchors_holding(world, members@.to_set(), anchors@.to_set()),
{
    let ghost piece = members@.to_set();
    let ghost wanted = anchors_holding(world, piece, anchors@.to_set());
    let mut out: IdSet = IdSet::new();
    let mut i: usize = 0;
    while i < anchors.len()
        invariant
            i <= anchors@.len(),
            piece == members@.to_set(),
            wanted == anchors_holding(world, piece, anchors@.to_set()),
            forall|j: int| 0 <= j < members@.len() ==> world.is_part(#[trigger] members@[j]),
            forall|k: u64|
                #![trigger out@.contains(k)]
                out@.contains(k) <==> wanted.contains(k) && exists|j: int|
                    0 <= j < i && anchors@[j] == k,
        decreases anchors@.len() - i,
    {
        let k = anchors[i];
        let ghost before = out@;
        let found = holds_one(world, members, k);
        proof {
            assert(anchors@.to_set().contains(anchors@[i as int]));
            if found {
                let j = choose|j: int|
                    0 <= j < members@.len() && world.part(
                        #[trigger] members@[j],
                    ).anchor_set().contains(k);
                assert(piece.contains(members@[j]));
                assert(wanted.contains(k));
            } else {
                if wanted.contains(k) {
                    let y = choose|y: u64| #[trigger]
                        piece.contains(y) && world.part(y).anchor_set().contains(k);
                    let j = choose|j: int| 0 <= j < members@.len() && members@[j] == y;
                    assert(world.part(members@[j]).anchor_set().contains(k));
                }
            }
        }
        if found {
            out.insert(k);
        }
        proof {
            assert forall|q: u64|
                #![trigger out@.contains(q)]
                out@.contains(q) <==> wanted.contains(q) && exists|j: int|
                    0 <= j < i + 1 && anchors@[j] == q by {
                if before.contains(q) {
                    let j = choose|j: int| 0 <= j < i && anchors@[j] == q;
                    assert(0 <= j < i + 1 && anchors@[j] == q);
                }
                if q == k {
                    assert(anchors@[i as int] == q);
                }
                if exists|j: int| 0 <= j < i + 1 && anchors@[j] == q {
                    let j = choose|j: int| 0 <= j < i + 1 && anchors@[j] == q;
                    if j < i {
                    }
                }
            }
        }
        i = i + 1;
    }
    proof {
        assert forall|k: u64| out@.contains(k) <==> wanted.contains(k) by {
            if wanted.contains(k) {
                assert(anchors@.to_set().contains(k));
                let j = choose|j: int| 0 <= j < anchors@.len() && anchors@[j] == k;
                assert(0 <= j < i && anchors@[j] == k);
            }
        }
        assert(out@ =~= wanted);
    }
    out
}

/// The model entry is the model of the piece of `old_entry` that holds
/// `x`: its graph holds the members of the piece and the edges among them
/// and is connected, its anchors are those anchors of the old model that
/// hold a member of the piece, its children are the members; it is clean,
/// has no body yet, and its body is to take over the velocity of the old
/// one.
pub open spec fn piece_model(
    before: &World,
    entry: ModelEntry,
    old_entry: ModelEntry,
    x: u64,
) -> bool {
    let piece = piece_of(&old_entry.model.graph, x);
    &&& entry.model.graph.wf()
    &&& entry.model.graph.nodes() == piece
    &&& forall|a: u64, b: u64|
        #![trigger entry.model.graph.adjacent(a, b)]
        #![trigger old_entry.model.graph.adjacent(a, b)]
        entry.model.graph.adjacent(a, b) <==> piece.contains(a) && piece.contains(b)
            && old_entry.model.graph.adjacent(a, b)
    &&& entry.model.graph.connected()
    &&& entry.model.anchors@ == anchors_holding(before, piece, old_entry.model.anchors@)
    &&& !entry.model.dirty
    &&& entry.children@.no_duplicates()
    &&& entry.children@.to_set() == piece
    &&& entry.body is None
    &&& entry.velocity_of == old_entry.body
}

/// What splitting has done to the former child `x` of the model `m`: it is
/// as it was but for its parent; if its piece holds other parts, it is a
/// child of the model of that piece, a new entity; if not, it is a part of
/// its own.
pub open spec fn child_split(before: &World, after: &World, m: u64, x: u64) -> bool {
    &&& after.is_part(x)
    &&& after.part(x) == PartEntry { child_of: after.part(x).child_of, ..before.part(x) }
    &&& match after.part(x).child_of {
        Some(m2) => {
            &&& before.entities@.len() <= m2 < after.entities@.len()
            &&& after.is_model(m2)
            &&& piece_model(before, after.model(m2), before.model(m), x)
            &&& exists|y: u64| y != x && piece_of(&before.model(m).model.graph, x).contains(y)
        },
        None => forall|y: u64| piece_of(&before.model(m).model.graph, x).contains(y) ==> y == x,
    }
}

/// What splitting the model `m` has done once the former children in
/// `done` have been dealt with; `start` is the world in which the model has
/// let go of its children and has been taken out.
pub open spec fn split_on(
    before: &World,
    start: &World,
    after: &World,
    m: u64,
    done: Set<u64>,
) -> bool {
    let nodes = before.model(m).model.graph.nodes();
    &&& after.entities@.len() >= start.entities@.len()
    &&& forall|x: u64| #[trigger] done.contains(x) ==> nodes.contains(x)
        && child_split(before, after, m, x)
    &&& forall|x: u64|
        x < start.entities@.len() && !done.contains(x) ==> #[trigger] after.entities@[x as int]
            == start.entities@[x as int]
    &&& forall|m2: u64|
        start.entities@.len() <= m2 < after.entities@.len() ==> #[trigger] after.is_model(m2)
            && exists|x: u64| done.contains(x) && after.part(x).child_of == Some(m2)
    &&& after.anchors == start.anchors
    &&& after.physics == start.physics
    &&& after.freed == start.freed
    &&& after.untagged == start.untagged
}

/// What splitting the model `m` does to a world. The model is taken out
/// and its body leaves the ledger. Each of its children is dealt with as
/// `child_split` says and is noted as freed, once, together with the body
/// of the model. Every new entity is the model of one connected piece of
/// the old graph. Everything else stays.
pub open spec fn model_split(before: &World, after: &World, m: u64) -> bool {
    let nodes = before.model(m).model.graph.nodes();
    let added = after.freed@.skip(before.freed@.len() as int);
    &&& after.entities@.len() >= before.entities@.len()
    &&& after.entities@[m as int] is Vacant
    &&& forall|x: u64| #[trigger] nodes.contains(x) ==> child_split(before, after, m, x)
    &&& forall|x: u64|
        x < before.entities@.len() && x != m && !nodes.contains(x)
            ==> #[trigger] after.entities@[x as int]
            == before.entities@[x as int]
    &&& forall|m2: u64|
        before.entities@.len() <= m2 < after.entities@.len() ==> #[trigger] after.is_model(m2)
            && exists|x: u64| nodes.contains(x) && after.part(x).child_of == Some(m2)
    &&& after.freed@.len() >= before.freed@.len()
    &&& after.freed@.take(before.freed@.len() as int) == before.freed@
    &&& forall|i: int|
        0 <= i < added.len() ==> nodes.contains((#[trigger] added[i]).part) && added[i].velocity_of
            == before.model(m).body
    &&& forall|i: int, j: int|
        0 <= i < j < added.len() ==> (#[trigger] added[i]).part != (#[trigger] added[j]).part
    &&& forall|x: u64| nodes.contains(x) ==> exists|i: int| 0 <= i < added.len()
        && (#[trigger] added[i]).part == x
    &&& body_released(before, after, before.model(m).body)
    &&& after.anchors == before.anchors
    &&& after.untagged == before.untagged
}

/// A world stays sound when parts without a parent that are no anchors
/// become the children of a new model whose graph spans exactly them.
pub proof fn lemma_adopted_wf(before: &World, after: &World, members: Set<u64>)
    requires
        before.wf(),
        before.entities@.len() < u64::MAX,
        after.entities@.len() == before.entities@.len() + 1,
        after.is_model(before.entities@.len() as u64),
        ({
            let entry = after.model(before.entities@.len() as u64);
            &&& entry.model.graph.wf()
            &&& entry.model.graph.nodes() == members
            &&& entry.children@.no_duplicates()
            &&& entry.children@.to_set() == members
            &&& entry.body is None
        }),
        forall|x: u64| #[trigger]
            members.contains(x) ==> before.is_part(x) && before.part(x).child_of is None
                && !before.part(x).anchor,
        forall|e: u64|
            e < before.entities@.len() ==> #[trigger] after.entities@[e as int]
                == if members.contains(
                e,
            ) {
                Entry::Part(
                    PartEntry { child_of: Some(before.entities@.len() as u64), ..before.part(e) },
                )
            } else {
                before.entities@[e as int]
            },
        after.anchors == before.anchors,
        after.physics == before.physics,
    ensures
        after.wf(),
{
    let id = before.entities@.len() as u64;
    assert forall|m: u64| #[trigger] after.is_model(m) implies after.model_wf(m) && (after.model(
        m,
    ).body matches Some(h) ==> after.physics.body(h) matches Some(b) && b.user_data == m) by {
        if m < before.entities@.len() {
            assert(after.entities@[m as int] == before.entities@[m as int]);
            assert(before.is_model(m));
            assert(before.model_wf(m));
            assert forall|c: u64| #[trigger]
                after.model(m).model.graph.nodes().contains(c) implies after.is_child(c, m) by {
                assert(before.is_child(c, m));
                assert(!members.contains(c));
                assert(after.entities@[c as int] == before.entities@[c as int]);
            }
        } else {
            assert(m == id);
            assert forall|c: u64| #[trigger]
                after.model(m).model.graph.nodes().contains(c) implies after.is_child(c, m) by {
                assert(members.contains(c));
                assert(after.entities@[c as int] == Entry::Part(
                    PartEntry { child_of: Some(id), ..before.part(c) },
                ));
            }
        }
    }
    assert forall|e: u64| #[trigger] after.is_part(e) implies after.part_wf(e) by {
        if e < before.entities@.len() {
            assert(after.entities@[e as int] == if members.contains(e) {
                Entry::Part(PartEntry { child_of: Some(id), ..before.part(e) })
            } else {
                before.entities@[e as int]
            });
            assert(before.is_part(e));
            assert(before.part_wf(e));
            if !members.contains(e) {
                if before.part(e).child_of is Some {
                    let m = before.part(e).child_of->0;
                    assert(before.is_model(m));
                    assert(after.entities@[m as int] == before.entities@[m as int]);
                }
            }
        }
    }
    assert forall|k: u64, x: u64| #[trigger] after.anchors.lists(k, x) implies after.is_part(x)
        && after.part(x).anchor_set().contains(k) by {
        assert(before.anchors.lists(k, x));
        assert(before.is_part(x));
        assert(after.entities@[x as int] == if members.contains(x) {
            Entry::Part(PartEntry { child_of: Some(id), ..before.part(x) })
        } else {
            before.entities@[x as int]
        });
    }
    assert forall|i: int| 0 <= i < after.anchors.delete_queue@.len()
        implies after.anchors.delete_queue@[i]
        < after.entities@.len() && !after.is_part(#[trigger] after.anchors.delete_queue@[i]) by {
        let q = before.anchors.delete_queue@[i];
        assert(!before.is_part(q));
        assert(!members.contains(q));
        assert(after.entities@[q as int] == before.entities@[q as int]);
    }
}

/// What dealing with one more piece does to the entities.
spec fn piece_dealt(
    before: &World,
    mid: &World,
    after: &World,
    m: u64,
    piece: &Submodel,
) -> bool {
    &&& after.anchors == mid.anchors
    &&& after.physics == mid.physics
    &&& after.freed == mid.freed
    &&& after.untagged == mid.untagged
    &&& piece.set@.len() == 1 ==> after.entities@ == mid.entities@
    &&& piece.set@.len() > 1 ==> {
        let id = mid.entities@.len() as u64;
        &&& after.entities@.len() == mid.entities@.len() + 1
        &&& after.is_model(id)
        &&& after.model(id).model.graph == piece.graph
        &&& after.model(id).model.anchors@ == anchors_holding(
            before,
            piece.set@,
            before.model(m).model.anchors@,
        )
        &&& !after.model(id).model.dirty
        &&& after.model(id).children@.no_duplicates()
        &&& after.model(id).children@.to_set() == piece.set@
        &&& after.model(id).body is None
        &&& after.model(id).velocity_of == before.model(m).body
        &&& forall|e: u64|
            e < mid.entities@.len() ==> #[trigger] after.entities@[e as int]
                == if piece.set@.contains(
                e,
            ) {
                Entry::Part(PartEntry { child_of: Some(id), ..mid.part(e) })
            } else {
                mid.entities@[e as int]
            }
    }
}

/// The piece is one of the model `m` whose members have not been dealt
/// with yet.
spec fn piece_pending(
    before: &World,
    start: &World,
    m: u64,
    done: Set<u64>,
    piece: &Submodel,
) -> bool {
    &&& piece.set@.len() > 0
    &&& forall|x: u64| #[trigger]
        piece.set@.contains(x) ==> !done.contains(x)
            && before.model(m).model.graph.nodes().contains(
            x,
        ) && piece.is_piece_of(&before.model(m).model, x) && start.entities@[x as int]
            == Entry::Part(PartEntry { child_of: None, ..before.part(x) })
}

/// A member of the piece that has just been dealt with is split.
proof fn lemma_split_member(
    before: &World,
    start: &World,
    mid: &World,
    after: &World,
    m: u64,
    done: Set<u64>,
    piece: &Submodel,
    x: u64,
)
    requires
        before.wf(),
        before.is_model(m),
        split_on(before, start, mid, m, done),
        mid.entities@.len() < u64::MAX,
        start.entities@.len() == before.entities@.len(),
        piece_pending(before, start, m, done, piece),
        piece_dealt(before, mid, after, m, piece),
        piece.set@.contains(x),
    ensures
        child_split(before, after, m, x),
{
    assert(before.model_wf(m));
    assert(before.is_child(x, m));
    assert(x < start.entities@.len());
    assert(mid.entities@[x as int] == start.entities@[x as int]);
    assert(piece.is_piece_of(&before.model(m).model, x));
    if piece.set@.len() > 1 {
        lemma_piece_connected(&before.model(m).model, piece, x);
        let y = lemma_other(piece.set@, x);
    } else {
        assert forall|y: u64| piece_of(&before.model(m).model.graph, x).contains(y) implies y
            == x by {
            lemma_single(piece.set@, x, y);
        }
    }
}

/// What was dealt with before stays as it is when one more piece is dealt
/// with.
proof fn lemma_split_kept(
    before: &World,
    start: &World,
    mid: &World,
    after: &World,
    m: u64,
    done: Set<u64>,
    piece: &Submodel,
    x: u64,
)
    requires
        before.wf(),
        before.is_model(m),
        split_on(before, start, mid, m, done),
        start.entities@.len() == before.entities@.len(),
        piece_pending(before, start, m, done, piece),
        piece_dealt(before, mid, after, m, piece),
        done.contains(x),
    ensures
        child_split(before, after, m, x),
{
    assert(before.model_wf(m));
    assert(child_split(before, mid, m, x));
    assert(mid.is_part(x));
    assert(!piece.set@.contains(x));
    assert(after.entities@[x as int] == mid.entities@[x as int]);
    if mid.part(x).child_of is Some {
        let m2 = mid.part(x).child_of->0;
        assert(mid.is_model(m2));
        assert(!piece.set@.contains(m2)) by {
            if piece.set@.contains(m2) {
                assert(before.is_child(m2, m));
            }
        }
        assert(after.entities@[m2 as int] == mid.entities@[m2 as int]);
    }
}

/// Every new entity is the model of a part that has been dealt with.
proof fn lemma_split_new(
    before: &World,
    start: &World,
    mid: &World,
    after: &World,
    m: u64,
    done: Set<u64>,
    piece: &Submodel,
    m2: u64,
)
    requires
        before.wf(),
        before.is_model(m),
        split_on(before, start, mid, m, done),
        mid.entities@.len() < u64::MAX,
        start.entities@.len() == before.entities@.len(),
        piece_pending(before, start, m, done, piece),
        piece_dealt(before, mid, after, m, piece),
        start.entities@.len() <= m2 < after.entities@.len(),
    ensures
        after.is_model(m2),
        exists|x: u64| done.union(piece.set@).contains(x) && after.part(x).child_of == Some(m2),
{
    let next = done.union(piece.set@);
    let id = mid.entities@.len() as u64;
    assert(before.model_wf(m));
    if m2 < mid.entities@.len() {
        assert(mid.is_model(m2));
        assert(!piece.set@.contains(m2)) by {
            if piece.set@.contains(m2) {
                assert(before.is_child(m2, m));
            }
        }
        assert(after.entities@[m2 as int] == mid.entities@[m2 as int]);
        let x = choose|x: u64| done.contains(x) && mid.part(x).child_of == Some(m2);
        assert(child_split(before, mid, m, x));
        assert(!piece.set@.contains(x));
        assert(after.entities@[x as int] == mid.entities@[x as int]);
        assert(next.contains(x) && after.part(x).child_of == Some(m2));
    } else {
        assert(m2 == id);
        let x = piece.set@.choose();
        assert(piece.set@.contains(x)) by {
            if !piece.set@.contains(x) {
                assert(piece.set@ =~= Set::<u64>::empty()) by {
                    assert forall|y: u64| !piece.set@.contains(y) by {
                        if piece.set@.contains(y) {
                            assert(piece.set@.contains(piece.set@.choose()));
                        }
                    }
                }
            }
        }
        assert(before.is_child(x, m));
        assert(mid.entities@[x as int] == start.entities@[x as int]);
        assert(next.contains(x) && after.part(x).child_of == Some(m2));
    }
}

/// Dealing with one more piece carries splitting on.
proof fn lemma_split_step(
    before: &World,
    start: &World,
    mid: &World,
    after: &World,
    m: u64,
    done: Set<u64>,
    piece: &Submodel,
)
    requires
        before.wf(),
        before.is_model(m),
        split_on(before, start, mid, m, done),
        mid.entities@.len() < u64::MAX,
        start.entities@.len() == before.entities@.len(),
        piece_pending(before, start, m, done, piece),
        piece_dealt(before, mid, after, m, piece),
    ensures
        split_on(before, start, after, m, done.union(piece.set@)),
{
    let next = done.union(piece.set@);
    let nodes = before.model(m).model.graph.nodes();
    assert forall|x: u64| #[trigger] next.contains(x) implies nodes.contains(x) && child_split(
        before,
        after,
        m,
        x,
    ) by {
        if piece.set@.contains(x) {
            lemma_split_member(before, start, mid, after, m, done, piece, x);
        } else {
            lemma_split_kept(before, start, mid, after, m, done, piece, x);
        }
    }
    assert forall|x: u64| x < start.entities@.len() && !next.contains(x)
        implies #[trigger] after.entities@[x as int]
        == start.entities@[x as int] by {
        assert(after.entities@[x as int] == mid.entities@[x as int]);
    }
    assert forall|m2: u64| start.entities@.len() <= m2 < after.entities@.len()
        implies #[trigger] after.is_model(
        m2,
    ) && exists|x: u64| next.contains(x) && after.part(x).child_of == Some(m2) by {
        lemma_split_new(before, start, mid, after, m, done, piece, m2);
    }
}

/// Splits the model `m` into its connected pieces: the model lets go of
/// its children and is taken out; each piece of two or more parts becomes
/// a new model; a part that is alone in its piece stays on its own.
pub fn split_model(world: &mut World, m: u64)
    requires
        old(world).wf(),
        old(world).is_model(m),
        old(world).entities@.len() + old(world).model(m).children@.len() < u64::MAX,
    ensures
        final(world).wf(),
        model_split(old(world), final(world), m),
        final(world).entities@.len() <= old(world).entities@.len() + old(world).model(
            m,
        ).children@.len(),
{
    let ghost nodes = old(world).model(m).model.graph.nodes();
    proof {
        assert(old(world).model_wf(m));
        old(world).model(m).children@.unique_seq_to_set();
    }
    let at = world.slot(m);
    let (pieces, old_body, old_anchors) = match &world.entities[at] {
        Entry::Model(entry) => (
            decompose(&entry.model),
            entry.body,
            set_members(&entry.model.anchors),
        ),
        _ => (Vec::new(), None, Vec::new()),
    };
    let mut pieces = pieces;
    let ghost pcs = pieces@;
    release_children(world, m, old_body);
    vacate_model(world, m);
    let ghost start = *world;
    let ghost mut done: Set<u64> = Set::empty();
    proof {
        assert forall|x: u64| nodes.contains(x) implies #[trigger] start.entities@[x as int]
            == Entry::Part(PartEntry { child_of: None, ..old(world).part(x) }) by {
            assert(old(world).is_child(x, m));
        }
    }
    while pieces.len() > 0
        invariant
            world.wf(),
            old(world).wf(),
            old(world).is_model(m),
            nodes == old(world).model(m).model.graph.nodes(),
            is_decomposition(pcs, &old(world).model(m).model),
            pcs.len() <= nodes.len(),
            old(world).entities@.len() + nodes.len() < u64::MAX,
            start.entities@.len() == old(world).entities@.len(),
            forall|x: u64|
                nodes.contains(x) ==> #[trigger] start.entities@[x as int] == Entry::Part(
                    PartEntry { child_of: None, ..old(world).part(x) },
                ),
            old_body == old(world).model(m).body,
            old_anchors@.to_set() == old(world).model(m).model.anchors@,
            pieces@.len() <= pcs.len(),
            pieces@ == pcs.take(pieces@.len() as int),
            world.entities@.len() <= start.entities@.len() + pcs.len() - pieces@.len(),
            split_on(old(world), &start, world, m, done),
            forall|x: u64|
                done.contains(x) <==> exists|j: int|
                    pieces@.len() <= j < pcs.len() && #[trigger] pcs[j].set@.contains(x),
        decreases pieces@.len(),
    {
        let ghost r = pieces@.len() - 1;
        let ghost mid = *world;
        let popped = pieces.pop();
        let piece = popped.unwrap();
        let ghost whole = piece;
        proof {
            assert(piece == pcs[r]);
            assert(pieces@ =~= pcs.take(r));
            assert(old(world).model_wf(m));
            assert forall|x: u64| #[trigger] piece.set@.contains(x) implies !done.contains(x)
                && nodes.contains(x) && piece.is_piece_of(&old(world).model(m).model, x)
                && start.entities@[x as int] == Entry::Part(
                PartEntry { child_of: None, ..old(world).part(x) },
            ) && mid.entities@[x as int] == start.entities@[x as int]
                && x < start.entities@.len() by {
                assert(pcs[r].set@.contains(x));
                if done.contains(x) {
                    let j = choose|j: int| r < j < pcs.len() && #[trigger] pcs[j].set@.contains(x);
                    assert(!pcs[j].set@.contains(x));
                }
                assert(old(world).is_child(x, m));
            }
            assert(pcs[r].set@.len() > 0);
            let any = piece.set@.choose();
            assert(piece.set@.contains(any)) by {
                if !piece.set@.contains(any) {
                    assert(piece.set@ =~= Set::<u64>::empty()) by {
                        assert forall|y: u64| !piece.set@.contains(y) by {
                            if piece.set@.contains(y) {
                                assert(piece.set@.contains(piece.set@.choose()));
                            }
                        }
                    }
                }
            }
            assert(piece.is_piece_of(&old(world).model(m).model, any));
        }
        if piece.graph.node_count() > 1 {
            let Submodel { graph, set } = piece;
            let members = set_members(&set);
            proof {
                assert forall|i: int| 0 <= i < members@.len() implies world.is_part(
                    #[trigger] members@[i],
                ) by {
                    assert(members@.to_set().contains(members@[i]));
                }
                assert forall|x: u64| set@.contains(x) <==> members@.contains(x) by {
                    if set@.contains(x) {
                        assert(members@.to_set().contains(x));
                    }
                    if members@.contains(x) {
                        assert(members@.to_set().contains(x));
                    }
                }
            }
            let anchors = held_anchors(world, &members, &old_anchors);
            proof {
                assert(members@.to_set() =~= whole.set@);
                assert forall|y: u64| #[trigger] whole.set@.contains(y) implies mid.part(
                    y,
                ).anchor_set() == old(world).part(y).anchor_set() by {
                    assert(mid.entities@[y as int] == start.entities@[y as int]);
                }
                lemma_anchors_holding_same(
                    &mid,
                    old(world),
                    whole.set@,
                    old(world).model(m).model.anchors@,
                );
            }
            adopt(world, Model { graph, anchors, dirty: false }, members, old_body);
            proof {
                assert forall|x: u64| #[trigger] whole.set@.contains(x) implies mid.is_part(x)
                    && mid.part(x).child_of is None && !mid.part(x).anchor by {
                    assert(old(world).is_child(x, m));
                    assert(old(world).part_wf(x));
                }
                lemma_adopted_wf(&mid, world, whole.set@);
            }
        } else {
            proof {
                assert(whole.set@.len() == 1);
            }
        }
        proof {
            assert(piece_pending(old(world), &start, m, done, &whole));
            assert(piece_dealt(old(world), &mid, world, m, &whole));
            lemma_split_step(old(world), &start, &mid, world, m, done, &whole);
            let next = done.union(whole.set@);
            assert forall|x: u64|
                next.contains(x) <==> exists|j: int|
                    r <= j < pcs.len() && #[trigger] pcs[j].set@.contains(x) by {
                if done.contains(x) {
                    let j = choose|j: int| r < j < pcs.len() && #[trigger] pcs[j].set@.contains(x);
                    assert(r <= j < pcs.len() && pcs[j].set@.contains(x));
                }
                if whole.set@.contains(x) {
                    assert(pcs[r].set@.contains(x));
                }
                if exists|j: int| r <= j < pcs.len() && #[trigger] pcs[j].set@.contains(x) {
                    let j = choose|j: int|
                        r <= j < pcs.len() && #[trigger] pcs[j].set@.contains(x);
                    if j > r {
                        assert(done.contains(x));
                    }
                }
            }
            done = next;
        }
    }
    proof {
        assert(done =~= nodes) by {
            assert forall|x: u64| done.contains(x) <==> nodes.contains(x) by {
                if nodes.contains(x) {
                    let j = choose|j: int| 0 <= j < pcs.len() && #[trigger] pcs[j].set@.contains(x);
                }
            }
        }
        assert forall|x: u64|
            x < old(world).entities@.len() && x != m && !nodes.contains(x)
                implies #[trigger] world.entities@[x as int]
            == old(world).entities@[x as int] by {
            assert(world.entities@[x as int] == start.entities@[x as int]);
        }
        assert(world.entities@[m as int] == start.entities@[m as int]) by {
            assert(!nodes.contains(m)) by {
                if nodes.contains(m) {
                    assert(old(world).is_child(m, m));
                }
            }
        }
    }
}

/// The model under `m` has to be split: it has lost a node since it was
/// last looked at, or its graph is not connected.
pub open spec fn needs_split(world: &World, m: u64) -> bool {
    world.is_model(m) && (world.model(m).model.dirty || !world.model(m).model.graph.connected())
}

/// The part under `x` is a child of a model below `upto` that has to be
/// split.
pub open spec fn in_split_model(world: &World, x: u64, upto: int) -> bool {
    world.is_part(x) && match world.part(x).child_of {
        Some(m) => m < upto && needs_split(world, m),
        None => false,
    }
}

/// The body `h` belongs to a model below `upto` that has to be split.
pub open spec fn body_of_split_model(world: &World, h: BodyHandle, upto: int) -> bool {
    exists|m: u64| m < upto && #[trigger] needs_split(world, m) && world.model(m).body == Some(h)
}

/// What becomes of a collider when the models below `upto` that have to be
/// split are split: one that sat on the body of such a model stays where
/// it stood, without a body.
pub open spec fn collider_after_split(
    world: &World,
    collider: Option<Collider>,
    upto: int,
) -> Option<Collider> {
    match collider {
        Some(c) => if c.parent is Some && body_of_split_model(world, c.parent->0, upto) {
            Some(Collider { owner: c.owner, parent: None, offset: ShapeOffset::KeepWorldPose })
        } else {
            Some(c)
        },
        None => None,
    }
}

/// What a pass of splitting has done once the models below `upto` have
/// been looked at. A model that had to be split is gone, with its body;
/// each of its children is dealt with as `child_split` says and noted as
/// freed with the body of the model; every new entity is the model of a
/// piece of such a model. Everything else stays.
pub open spec fn transformed(before: &World, after: &World, upto: int) -> bool {
    &&& after.entities@.len() >= before.entities@.len()
    &&& forall|m: u64| #[trigger]
        before.is_model(m) ==> if m < upto && needs_split(before, m) {
            after.entities@[m as int] is Vacant
        } else {
            after.entities@[m as int] == before.entities@[m as int]
        }
    &&& forall|x: u64| #[trigger]
        before.is_part(x) ==> if in_split_model(before, x, upto) {
            child_split(before, after, before.part(x).child_of->0, x)
        } else {
            after.entities@[x as int] == before.entities@[x as int]
        }
    &&& forall|e: u64|
        e < before.entities@.len() && #[trigger] before.entities@[e as int] is Vacant
            ==> after.entities@[e as int] is Vacant
    &&& forall|m2: u64|
        before.entities@.len() <= m2 < after.entities@.len() ==> #[trigger] after.is_model(m2)
            && exists|x: u64| in_split_model(before, x, upto) && after.part(x).child_of == Some(m2)
    &&& after.freed@.len() >= before.freed@.len()
    &&& forall|i: int| 0 <= i < before.freed@.len() ==> #[trigger] after.freed@[i]
        == before.freed@[i]
    &&& forall|i: int|
        before.freed@.len() <= i < after.freed@.len() ==> in_split_model(
            before,
            (#[trigger] after.freed@[i]).part,
            upto,
        ) && after.freed@[i].velocity_of == before.model(
            before.part(after.freed@[i].part).child_of->0,
        ).body
    &&& forall|x: u64|
        in_split_model(before, x, upto) ==> exists|i: int|
            before.freed@.len() <= i < after.freed@.len() && (#[trigger] after.freed@[i]).part == x
    &&& after.physics.rigid_bodies@.len() == before.physics.rigid_bodies@.len()
    &&& after.physics.colliders@.len() == before.physics.colliders@.len()
    &&& forall|h: BodyHandle| #[trigger]
        after.physics.body(h) == if body_of_split_model(before, h, upto) {
            None
        } else {
            before.physics.body(h)
        }
    &&& forall|s: crate::physics::ShapeHandle| #[trigger]
        after.physics.collider(s) == collider_after_split(before, before.physics.collider(s), upto)
    &&& after.anchors == before.anchors
    &&& after.untagged == before.untagged
}

/// Every model is clean and its graph is connected.
pub open spec fn all_models_whole(world: &World) -> bool {
    forall|m: u64| #[trigger]
        world.is_model(m) ==> !world.model(m).model.dirty && world.model(m).model.graph.connected()
}

proof fn lemma_square_bound(i: int, n: int)
    requires
        0 <= i < n,
        n <= 0xFFFF_FFFF,
    ensures
        n + i * n + n < 0xFFFF_FFFF_FFFF_FFFF,
        (i + 1) * n == i * n + n,
        i * n >= 0,
{
    assert(i * n <= (n - 1) * n) by (nonlinear_arith)
        requires
            0 <= i <= n - 1,
            0 <= n,
    ;
    assert((n - 1) * n <= 0xFFFF_FFFE * 0xFFFF_FFFF) by (nonlinear_arith)
        requires
            1 <= n <= 0xFFFF_FFFF,
    ;
    assert((i + 1) * n == i * n + n) by (nonlinear_arith);
    assert(i * n >= 0) by (nonlinear_arith)
        requires
            0 <= i,
            0 <= n,
    ;
}

/// The pass stands before the model `i`, which has to be split, and
/// `after` is the world in which it has been.
spec fn split_here(before: &World, mid: &World, after: &World, i: u64) -> bool {
    &&& before.wf()
    &&& mid.wf()
    &&& transformed(before, mid, i as int)
    &&& needs_split(before, i)
    &&& model_split(mid, after, i)
}

proof fn lemma_split_here_basics(before: &World, mid: &World, after: &World, i: u64, up: int)
    requires
        split_here(before, mid, after, i),
        up == i + 1,
    ensures
        mid.is_model(i),
        mid.entities@[i as int] == before.entities@[i as int],
        forall|x: u64| #[trigger]
            before.model(i).model.graph.nodes().contains(x) ==> before.is_child(x, i)
                && mid.entities@[x as int] == before.entities@[x as int] && in_split_model(
                before,
                x,
                up,
            ) && !in_split_model(before, x, i as int),
{
    assert(before.is_model(i));
    assert(before.model_wf(i));
    assert forall|x: u64| #[trigger]
        before.model(i).model.graph.nodes().contains(x) implies before.is_child(x, i)
        && mid.entities@[x as int] == before.entities@[x as int] && in_split_model(
        before,
        x,
        up,
    ) && !in_split_model(before, x, i as int) by {
        assert(before.is_child(x, i));
        assert(before.is_part(x));
    }
}

proof fn lemma_transform_models(before: &World, mid: &World, after: &World, i: u64, up: int, m: u64)
    requires
        split_here(before, mid, after, i),
        up == i + 1,
        before.is_model(m),
    ensures
        if m < up && needs_split(before, m) {
            after.entities@[m as int] is Vacant
        } else {
            after.entities@[m as int] == before.entities@[m as int]
        },
{
    lemma_split_here_basics(before, mid, after, i, up);
    if m != i {
        assert(!mid.model(i).model.graph.nodes().contains(m)) by {
            if mid.model(i).model.graph.nodes().contains(m) {
                assert(before.is_child(m, i));
            }
        }
        assert(after.entities@[m as int] == mid.entities@[m as int]);
    }
}

proof fn lemma_transform_parts(before: &World, mid: &World, after: &World, i: u64, up: int, x: u64)
    requires
        split_here(before, mid, after, i),
        up == i + 1,
        before.is_part(x),
    ensures
        if in_split_model(before, x, up) {
            child_split(before, after, before.part(x).child_of->0, x)
        } else {
            after.entities@[x as int] == before.entities@[x as int]
        },
{
    lemma_split_here_basics(before, mid, after, i, up);
    let nodes = mid.model(i).model.graph.nodes();
    if nodes.contains(x) {
        assert(child_split(mid, after, i, x));
        let piece = piece_of(&mid.model(i).model.graph, x);
        mid.model(i).model.graph.lemma_adjacency();
        assert forall|y: u64| #[trigger] piece.contains(y) implies mid.part(y).anchor_set()
            == before.part(y).anchor_set() by {
            lemma_closed_holds_reached(mid.model(i).model.graph.adjacency(), nodes, x, y);
        }
        lemma_anchors_holding_same(mid, before, piece, mid.model(i).model.anchors@);
        assert(child_split(before, after, i, x));
    } else {
        assert(x != i);
        assert(after.entities@[x as int] == mid.entities@[x as int]);
        if in_split_model(before, x, up) {
            let m = before.part(x).child_of->0;
            assert(before.part_wf(x));
            assert(m != i) by {
                if m == i {
                    assert(before.model(i).model.graph.nodes().contains(x));
                }
            }
            assert(in_split_model(before, x, i as int));
            assert(child_split(before, mid, m, x));
            if mid.part(x).child_of is Some {
                let m2 = mid.part(x).child_of->0;
                assert(mid.is_model(m2));
                assert(m2 != i);
                assert(!nodes.contains(m2)) by {
                    if nodes.contains(m2) {
                        assert(before.is_child(m2, i));
                    }
                }
                assert(after.entities@[m2 as int] == mid.entities@[m2 as int]);
            }
        } else {
            assert(!in_split_model(before, x, i as int));
        }
    }
}

proof fn lemma_transform_new(before: &World, mid: &World, after: &World, i: u64, up: int, m2: u64)
    requires
        split_here(before, mid, after, i),
        up == i + 1,
        before.entities@.len() <= m2 < after.entities@.len(),
    ensures
        after.is_model(m2),
        exists|x: u64| in_split_model(before, x, up) && after.part(x).child_of == Some(m2),
{
    lemma_split_here_basics(before, mid, after, i, up);
    let nodes = mid.model(i).model.graph.nodes();
    if m2 < mid.entities@.len() {
        assert(mid.is_model(m2));
        assert(!nodes.contains(m2)) by {
            if nodes.contains(m2) {
                assert(before.is_child(m2, i));
            }
        }
        assert(after.entities@[m2 as int] == mid.entities@[m2 as int]);
        let x = choose|x: u64| in_split_model(before, x, i as int) && mid.part(x).child_of
            == Some(m2);
        assert(!nodes.contains(x));
        assert(after.entities@[x as int] == mid.entities@[x as int]);
        assert(in_split_model(before, x, up) && after.part(x).child_of == Some(m2));
    } else {
        assert(after.is_model(m2));
        let x = choose|x: u64| nodes.contains(x) && after.part(x).child_of == Some(m2);
        assert(nodes.contains(x));
        assert(in_split_model(before, x, up) && after.part(x).child_of == Some(m2));
    }
}

proof fn lemma_transform_freed(before: &World, mid: &World, after: &World, i: u64, up: int)
    requires
        split_here(before, mid, after, i),
        up == i + 1,
    ensures
        after.freed@.len() >= before.freed@.len(),
        forall|k: int| 0 <= k < before.freed@.len() ==> #[trigger] after.freed@[k]
            == before.freed@[k],
        forall|k: int|
            before.freed@.len() <= k < after.freed@.len() ==> in_split_model(
                before,
                (#[trigger] after.freed@[k]).part,
                up,
            ) && after.freed@[k].velocity_of == before.model(
                before.part(after.freed@[k].part).child_of->0,
            ).body,
        forall|x: u64|
            in_split_model(before, x, up) ==> exists|k: int|
                before.freed@.len() <= k < after.freed@.len() && (#[trigger] after.freed@[k]).part
                    == x,
{
    lemma_split_here_basics(before, mid, after, i, up);
    let b = before.freed@.len() as int;
    let c = mid.freed@.len() as int;
    let nodes = mid.model(i).model.graph.nodes();
    let added = after.freed@.skip(c);
    assert forall|k: int| 0 <= k < c implies #[trigger] after.freed@[k] == mid.freed@[k] by {
        assert(after.freed@.take(c)[k] == after.freed@[k]);
    }
    assert forall|k: int| b <= k < after.freed@.len() implies in_split_model(
        before,
        (#[trigger] after.freed@[k]).part,
        up,
    ) && after.freed@[k].velocity_of == before.model(
        before.part(after.freed@[k].part).child_of->0,
    ).body by {
        if k < c {
            assert(after.freed@[k] == mid.freed@[k]);
            assert(in_split_model(before, mid.freed@[k].part, i as int));
        } else {
            assert(added[k - c] == after.freed@[k]);
            assert(nodes.contains(added[k - c].part));
        }
    }
    assert forall|x: u64| in_split_model(before, x, up) implies exists|k: int|
        b <= k < after.freed@.len() && (#[trigger] after.freed@[k]).part == x by {
        if in_split_model(before, x, i as int) {
            let k = choose|k: int| b <= k < c && (#[trigger] mid.freed@[k]).part == x;
            assert(after.freed@[k] == mid.freed@[k]);
        } else {
            assert(before.part(x).child_of == Some(i));
            assert(before.part_wf(x));
            assert(nodes.contains(x));
            let k = choose|k: int| 0 <= k < added.len() && (#[trigger] added[k]).part == x;
            assert(after.freed@[k + c] == added[k]);
        }
    }
}

proof fn lemma_transform_bodies(
    before: &World,
    mid: &World,
    after: &World,
    i: u64,
    up: int,
    h: BodyHandle,
)
    requires
        split_here(before, mid, after, i),
        up == i + 1,
    ensures
        after.physics.rigid_bodies@.len() == before.physics.rigid_bodies@.len(),
        after.physics.body(h) == if body_of_split_model(before, h, up) {
            None
        } else {
            before.physics.body(h)
        },
{
    lemma_split_here_basics(before, mid, after, i, up);
    let gone = mid.model(i).body;
    assert(mid.physics.body(h) == if body_of_split_model(before, h, i as int) {
        None
    } else {
        before.physics.body(h)
    });
    if gone is Some {
        assert(before.physics.body(gone->0) is Some);
        assert(before.physics.body(gone->0)->0.user_data == i);
    }
    if body_of_split_model(before, h, i as int) {
        let m = choose|m: u64| m < i && #[trigger] needs_split(before, m) && before.model(m).body
            == Some(h);
        assert(needs_split(before, m) && before.model(m).body == Some(h) && m < up);
    }
    if body_of_split_model(before, h, up) && !body_of_split_model(before, h, i as int) {
        let m = choose|m: u64|
            m < up && #[trigger] needs_split(before, m) && before.model(m).body == Some(h);
        assert(m == i);
    }
    if gone == Some(h) {
        assert(needs_split(before, i) && before.model(i).body == Some(h));
    }
}

proof fn lemma_transform_colliders(
    before: &World,
    mid: &World,
    after: &World,
    i: u64,
    up: int,
    s: crate::physics::ShapeHandle,
)
    requires
        split_here(before, mid, after, i),
        up == i + 1,
    ensures
        after.physics.colliders@.len() == before.physics.colliders@.len(),
        after.physics.collider(s) == collider_after_split(before, before.physics.collider(s), up),
{
    lemma_split_here_basics(before, mid, after, i, up);
    let gone = mid.model(i).body;
    let c0 = before.physics.collider(s);
    assert(mid.physics.collider(s) == collider_after_split(before, c0, i as int));
    if gone is Some && s.0 < mid.physics.colliders@.len() {
        assert(after.physics.colliders@[s.0 as int] == crate::physics::released(
            mid.physics.colliders@[s.0 as int],
            gone->0,
            false,
        ));
    }
    if c0 is Some && c0->0.parent is Some {
        let h = c0->0.parent->0;
        if body_of_split_model(before, h, i as int) {
            let m = choose|m: u64|
                m < i && #[trigger] needs_split(before, m) && before.model(m).body == Some(h);
            assert(needs_split(before, m) && before.model(m).body == Some(h) && m < up);
        }
        if body_of_split_model(before, h, up) && !body_of_split_model(before, h, i as int) {
            let m = choose|m: u64|
                m < up && #[trigger] needs_split(before, m) && before.model(m).body == Some(h);
            assert(m == i);
        }
        if gone == Some(h) {
            assert(needs_split(before, i) && before.model(i).body == Some(h));
        }
    }
}

/// Splitting the model `i` carries the pass on.
proof fn lemma_transform_split(before: &World, mid: &World, after: &World, i: u64, up: int)
    requires
        split_here(before, mid, after, i),
        up == i + 1,
    ensures
        transformed(before, after, up),
{
    lemma_split_here_basics(before, mid, after, i, up);
    assert forall|m: u64| #[trigger] before.is_model(m) implies if m < up && needs_split(
        before,
        m,
    ) {
        after.entities@[m as int] is Vacant
    } else {
        after.entities@[m as int] == before.entities@[m as int]
    } by {
        lemma_transform_models(before, mid, after, i, up, m);
    }
    assert forall|x: u64| #[trigger] before.is_part(x) implies if in_split_model(before, x, up) {
        child_split(before, after, before.part(x).child_of->0, x)
    } else {
        after.entities@[x as int] == before.entities@[x as int]
    } by {
        lemma_transform_parts(before, mid, after, i, up, x);
    }
    assert forall|e: u64|
        e < before.entities@.len() && #[trigger] before.entities@[e as int] is Vacant
            implies after.entities@[e as int] is Vacant by {
        assert(mid.entities@[e as int] is Vacant);
        assert(!mid.model(i).model.graph.nodes().contains(e)) by {
            if mid.model(i).model.graph.nodes().contains(e) {
                assert(before.is_child(e, i));
            }
        }
        assert(after.entities@[e as int] == mid.entities@[e as int]);
    }
    assert forall|m2: u64| before.entities@.len() <= m2 < after.entities@.len()
        implies #[trigger] after.is_model(
        m2,
    ) && exists|x: u64| in_split_model(before, x, up) && after.part(x).child_of == Some(m2) by {
        lemma_transform_new(before, mid, after, i, up, m2);
    }
    lemma_transform_freed(before, mid, after, i, up);
    assert forall|h: BodyHandle| #[trigger]
        after.physics.body(h) == if body_of_split_model(before, h, up) {
            None
        } else {
            before.physics.body(h)
        } by {
        lemma_transform_bodies(before, mid, after, i, up, h);
    }
    assert forall|s: crate::physics::ShapeHandle| #[trigger]
        after.physics.collider(s)
            == collider_after_split(before, before.physics.collider(s), up) by {
        lemma_transform_colliders(before, mid, after, i, up, s);
    }
    lemma_transform_bodies(before, mid, after, i, up, BodyHandle(0));
    assert(after.physics.rigid_bodies@.len() == before.physics.rigid_bodies@.len());
    assert(after.physics.colliders@.len() == before.physics.colliders@.len());
}

/// Passing by an entity that is no model to be split carries the pass on.
proof fn lemma_transform_skip(before: &World, after: &World, i: u64, up: int)
    requires
        transformed(before, after, i as int),
        !needs_split(before, i),
        up == i + 1,
    ensures
        transformed(before, after, up),
{
    assert forall|x: u64| in_split_model(before, x, up) <==> in_split_model(
        before,
        x,
        i as int,
    ) by {
    }
    assert forall|h: BodyHandle| body_of_split_model(before, h, up) <==> body_of_split_model(
        before,
        h,
        i as int,
    ) by {
        if body_of_split_model(before, h, up) {
            let m = choose|m: u64|
                m < up && #[trigger] needs_split(before, m) && before.model(m).body == Some(h);
            assert(m < i);
        }
        if body_of_split_model(before, h, i as int) {
            let m = choose|m: u64|
                m < i && #[trigger] needs_split(before, m) && before.model(m).body == Some(h);
            assert(m < up && needs_split(before, m) && before.model(m).body == Some(h));
        }
    }
    assert forall|s: crate::physics::ShapeHandle| #[trigger]
        after.physics.collider(s)
            == collider_after_split(before, before.physics.collider(s), up) by {
        let c0 = before.physics.collider(s);
        if c0 is Some && c0->0.parent is Some {
            assert(body_of_split_model(before, c0->0.parent->0, up) <==> body_of_split_model(
                before,
                c0->0.parent->0,
                i as int,
            ));
        }
    }
    assert forall|h: BodyHandle| #[trigger]
        after.physics.body(h) == if body_of_split_model(before, h, up) {
            None
        } else {
            before.physics.body(h)
        } by {
        assert(body_of_split_model(before, h, up) <==> body_of_split_model(before, h, i as int));
    }
    assert forall|m2: u64| before.entities@.len() <= m2 < after.entities@.len()
        implies #[trigger] after.is_model(
        m2,
    ) && exists|x: u64| in_split_model(before, x, up) && after.part(x).child_of == Some(m2) by {
        assert(after.is_model(m2));
        let x = choose|x: u64| in_split_model(before, x, i as int) && after.part(x).child_of
            == Some(m2);
        assert(in_split_model(before, x, i as int));
        assert(in_split_model(before, x, up) && after.part(x).child_of == Some(m2));
    }
    assert forall|k: int| before.freed@.len() <= k < after.freed@.len() implies in_split_model(
        before,
        (#[trigger] after.freed@[k]).part,
        up,
    ) by {
        assert(in_split_model(before, after.freed@[k].part, i as int));
    }
    assert forall|x: u64| in_split_model(before, x, up) implies exists|k: int|
        before.freed@.len() <= k < after.freed@.len() && (#[trigger] after.freed@[k]).part == x by {
        assert(in_split_model(before, x, i as int));
    }
    assert forall|x: u64| #[trigger] before.is_part(x) implies if in_split_model(before, x, up) {
        child_split(before, after, before.part(x).child_of->0, x)
    } else {
        after.entities@[x as int] == before.entities@[x as int]
    } by {
        assert(in_split_model(before, x, up) <==> in_split_model(before, x, i as int));
    }
}

/// Looks at every model and splits those that have lost a node or whose
/// graph is not connected. The graphs are walked as they stand; snap
/// detection is not run again. When the pass is over every model is clean
/// and connected.
pub fn handle_model_transform(world: &mut World)
    requires
        old(world).wf(),
        old(world).entities@.len() <= MAX_ENTITIES,
    ensures
        final(world).wf(),
        transformed(old(world), final(world), old(world).entities@.len() as int),
        all_models_whole(final(world)),
{
    let n = world.entities.len();
    let mut i: usize = 0;
    proof {
        assert(0 * n == 0) by (nonlinear_arith);
        assert(transformed(old(world), world, 0)) by {
            assert forall|h: BodyHandle| !body_of_split_model(old(world), h, 0) by {
            }
            assert forall|s: crate::physics::ShapeHandle| #[trigger]
                world.physics.collider(s) == collider_after_split(
                    old(world),
                    old(world).physics.collider(s),
                    0,
                ) by {
                let c0 = old(world).physics.collider(s);
                if c0 is Some && c0->0.parent is Some {
                    assert(!body_of_split_model(old(world), c0->0.parent->0, 0));
                }
            }
        }
    }
    while i < n
        invariant
            n == old(world).entities@.len(),
            n <= MAX_ENTITIES,
            i <= n,
            old(world).wf(),
            world.wf(),
            transformed(old(world), world, i as int),
            world.entities@.len() <= n + i * n,
        decreases n - i,
    {
        let ghost mid = *world;
        let m = i as u64;
        proof {
            if mid.is_model(m) {
                assert(mid.model_wf(m));
            }
        }
        let needs = match &world.entities[i] {
            Entry::Model(entry) => entry.model.dirty || !is_connected(&entry.model.graph),
            _ => false,
        };
        proof {
            if old(world).is_part(m) {
                if in_split_model(old(world), m, i as int) {
                    assert(child_split(old(world), &mid, old(world).part(m).child_of->0, m));
                }
                assert(mid.is_part(m));
            }
            if old(world).entities@[m as int] is Vacant {
                assert(mid.entities@[m as int] is Vacant);
            }
            if old(world).is_model(m) {
                assert(mid.entities@[m as int] == old(world).entities@[m as int]);
            }
            assert(needs == needs_split(old(world), m));
            lemma_square_bound(i as int, n as int);
        }
        if needs {
            proof {
                assert(mid.model_wf(m));
                let kids = mid.model(m).children@;
                kids.unique_seq_to_set();
                assert forall|x: u64| kids.to_set().contains(x) implies x < n by {
                    assert(mid.is_child(x, m));
                    assert(old(world).model_wf(m));
                    assert(old(world).is_child(x, m));
                }
                lemma_bounded_set_len(kids.to_set(), n as nat);
            }
            split_model(world, m);
            proof {
                lemma_transform_split(old(world), &mid, world, m, i + 1);
            }
        } else {
            proof {
                lemma_transform_skip(old(world), world, m, i + 1);
            }
        }
        i = i + 1;
    }
    proof {
        assert forall|m: u64| #[trigger] world.is_model(m) implies !world.model(m).model.dirty
            && world.model(m).model.graph.connected() by {
            if m < n {
                if old(world).is_part(m) {
                    if in_split_model(old(world), m, n as int) {
                        assert(child_split(old(world), world, old(world).part(m).child_of->0, m));
                    }
                    assert(world.is_part(m));
                }
                if old(world).entities@[m as int] is Vacant {
                    assert(world.entities@[m as int] is Vacant);
                }
                assert(old(world).is_model(m));
            } else {
                let x = choose|x: u64|
                    in_split_model(old(world), x, n as int) && world.part(x).child_of == Some(m);
                assert(old(world).is_part(x));
                assert(child_split(old(world), world, old(world).part(x).child_of->0, x));
            }
        }
    }
}

} // verus!
