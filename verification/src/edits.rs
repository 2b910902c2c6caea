//! Edits of a world: taking entities out and taking children away from
//! their models.

use vstd::prelude::*;

use crate::deletion::child_removed;
use crate::deletion::handle_body_removal;
use crate::deletion::handle_part_of_model_deletion;
use crate::deletion::handle_shape_removal;
use crate::physics::BodyHandle;
use crate::physics::released;
use crate::sets::map_keys;
use crate::world::Entry;
use crate::world::Freed;
use crate::world::PartEntry;
use crate::world::World;

verus! {

/// Strikes the entity `x` from the dependents of every anchor.
pub fn purge_member(world: &mut World, x: u64)
    requires
        forall|k: u64| #[trigger]
            old(world).anchors.anchors@.dom().contains(k)
                ==> old(world).anchors.anchors@[k].finite(),
    ensures
        forall|k: u64, y: u64| #[trigger]
            final(world).anchors.lists(k, y) <==> old(world).anchors.lists(k, y) && y != x,
        final(world).anchors.anchors@.dom() == old(world).anchors.anchors@.dom(),
        forall|k: u64| #[trigger]
            final(world).anchors.anchors@.dom().contains(k)
                ==> final(world).anchors.anchors@[k].finite(),
        final(world).anchors.delete_queue == old(world).anchors.delete_queue,
        final(world).entities == old(world).entities,
        final(world).physics == old(world).physics,
        final(world).freed == old(world).freed,
        final(world).untagged == old(world).untagged,
{
    let keys = map_keys(&world.anchors.anchors);
    let mut i: usize = 0;
    while i < keys.len()
        invariant
            i <= keys@.len(),
            keys@.no_duplicates(),
            keys@.to_set() == old(world).anchors.anchors@.dom(),
            world.anchors.anchors@.dom() == old(world).anchors.anchors@.dom(),
            forall|k: u64, y: u64| #[trigger]
                world.anchors.lists(k, y) <==> old(world).anchors.lists(k, y) && !(y == x
                    && exists|j: int| 0 <= j < i && keys@[j] == k),
            forall|k: u64| #[trigger]
                world.anchors.anchors@.dom().contains(k) ==> world.anchors.anchors@[k].finite(),
            world.anchors.delete_queue == old(world).anchors.delete_queue,
            world.entities == old(world).entities,
            world.physics == old(world).physics,
            world.freed == old(world).freed,
            world.untagged == old(world).untagged,
        decreases keys@.len() - i,
    {
        let k = keys[i];
        let ghost mid = *world;
        proof {
            assert(keys@.to_set().contains(keys@[i as int]));
        }
        let taken = world.anchors.anchors.remove(k);
        match taken {
            Some(set) => {
                let mut set = set;
                set.remove(x);
                world.anchors.anchors.insert(k, set);
                proof {
                    assert(world.anchors.anchors@
                        == mid.anchors.anchors@.remove(k).insert(k, set@));
                    assert(world.anchors.anchors@.dom() =~= mid.anchors.anchors@.dom());
                }
            },
            None => {},
        }
        proof {
            assert forall|key: u64, y: u64| #[trigger]
                world.anchors.lists(key, y) <==> old(world).anchors.lists(key, y) && !(y == x
                    && exists|j: int| 0 <= j < i + 1 && keys@[j] == key) by {
                assert(mid.anchors.lists(key, y) <==> old(world).anchors.lists(key, y) && !(y == x
                    && exists|j: int| 0 <= j < i && keys@[j] == key));
                if key == k {
                    assert(keys@[i as int] == key);
                    assert(world.anchors.lists(key, y) <==> mid.anchors.lists(key, y) && y != x);
                } else {
                    assert(world.anchors.lists(key, y) <==> mid.anchors.lists(key, y));
                    if exists|j: int| 0 <= j < i && keys@[j] == key {
                        let j = choose|j: int| 0 <= j < i && keys@[j] == key;
                        assert(0 <= j < i + 1 && keys@[j] == key);
                    }
                    if exists|j: int| 0 <= j < i + 1 && keys@[j] == key {
                        let j = choose|j: int| 0 <= j < i + 1 && keys@[j] == key;
                        assert(j < i);
                    }
                }
            }
            assert forall|key: u64| #[trigger]
                world.anchors.anchors@.dom().contains(key)
                    implies world.anchors.anchors@[key].finite() by {
                assert(mid.anchors.anchors@.dom().contains(key));
            }
        }
        i = i + 1;
    }
    proof {
        assert forall|k: u64, y: u64| #[trigger]
            world.anchors.lists(k, y) <==> old(world).anchors.lists(k, y) && y != x by {
            if old(world).anchors.lists(k, y) && y == x {
                assert(keys@.to_set().contains(k));
                let j = choose|j: int| 0 <= j < keys@.len() && keys@[j] == k;
                assert(0 <= j < i && keys@[j] == k);
            }
        }
    }
}

/// What the colliders of the ledger are after the part `p` has been taken
/// out of the world: its own collider is gone, and a collider that sat on
/// its body stays where it stood, without a body.
pub open spec fn collider_after(
    p: PartEntry,
    i: int,
    before: Option<crate::physics::Collider>,
) -> Option<crate::physics::Collider> {
    if p.shape matches Some(s) && s.0 == i {
        None
    } else if p.body is Some {
        released(before, p.body->0, false)
    } else {
        before
    }
}

/// What taking the part `e` out of a world does: its entry is vacant; its
/// model, if it had one, has lost it as a child and is dirty; its collider
/// and its body have left the ledger; no anchor lists it any more; and if
/// it was an anchor of the anchor table, it is queued. Everything else
/// stays.
pub open spec fn part_despawned(before: &World, after: &World, e: u64) -> bool {
    let p = before.part(e);
    &&& after.entities@.len() == before.entities@.len()
    &&& after.entities@[e as int] is Vacant
    &&& forall|x: u64|
        x < before.entities@.len() && x != e && p.child_of != Some(x)
            ==> #[trigger] after.entities@[x as int]
            == before.entities@[x as int]
    &&& p.child_of matches Some(m) ==> after.is_model(m) && child_removed(
        before.model(m),
        after.model(m),
        e,
    )
    &&& after.physics.rigid_bodies@ == match p.body {
        Some(h) => before.physics.rigid_bodies@.update(h.0 as int, None),
        None => before.physics.rigid_bodies@,
    }
    &&& after.physics.colliders@.len() == before.physics.colliders@.len()
    &&& forall|i: int|
        0 <= i < before.physics.colliders@.len() ==> #[trigger] after.physics.colliders@[i]
            == collider_after(p, i, before.physics.colliders@[i])
    &&& forall|k: u64, y: u64| #[trigger]
        after.anchors.lists(k, y) <==> before.anchors.lists(k, y) && y != e
    &&& after.anchors.anchors@.dom() == before.anchors.anchors@.dom()
    &&& forall|k: u64| #[trigger]
        after.anchors.anchors@.dom().contains(k) ==> after.anchors.anchors@[k].finite()
    &&& after.anchors.delete_queue@ == if before.anchors.anchors@.dom().contains(e)
        && p.shape is Some {
        before.anchors.delete_queue@.push(e)
    } else {
        before.anchors.delete_queue@
    }
    &&& after.freed == before.freed
    &&& after.untagged == before.untagged
}

/// Taking a part out of a sound world leaves the world sound.
pub proof fn lemma_part_despawned_wf(before: &World, after: &World, e: u64)
    requires
        before.wf(),
        before.is_part(e),
        part_despawned(before, after, e),
    ensures
        after.wf(),
{
    let p = before.part(e);
    assert(before.part_wf(e));
    assert forall|m: u64| #[trigger] after.is_model(m) implies after.model_wf(m) && (after.model(
        m,
    ).body matches Some(h) ==> after.physics.body(h) matches Some(b) && b.user_data == m) by {
        assert(before.is_model(m));
        assert(before.model_wf(m));
        assert forall|c: u64| #[trigger]
            after.model(m).model.graph.nodes().contains(c) implies after.is_child(c, m) by {
            assert(before.model(m).model.graph.nodes().contains(c));
            assert(before.is_child(c, m));
            assert(c != e);
            assert(after.entities@[c as int] == before.entities@[c as int]);
        }
        if before.model(m).body is Some {
            let h = before.model(m).body->0;
            assert(before.physics.body(h) is Some);
            if p.body is Some {
                assert(before.physics.body(p.body->0) is Some);
                assert(p.body->0 != h);
            }
        }
    }
    assert forall|x: u64| #[trigger] after.is_part(x) implies after.part_wf(x) by {
        assert(x != e);
        assert(after.entities@[x as int] == before.entities@[x as int]);
        assert(before.is_part(x));
        assert(before.part_wf(x));
        let q = before.part(x);
        if q.child_of is Some {
            let m = q.child_of->0;
            assert(before.is_model(m));
            assert(after.is_model(m));
        }
        if q.shape is Some {
            let s = q.shape->0;
            assert(before.physics.collider(s) is Some);
            assert(before.physics.collider(s)->0.owner == x);
            if p.shape is Some {
                assert(before.physics.collider(p.shape->0)->0.owner == e);
            }
            assert(after.physics.colliders@[s.0 as int] == collider_after(
                p,
                s.0 as int,
                before.physics.colliders@[s.0 as int],
            ));
        }
        if q.body is Some {
            let h = q.body->0;
            assert(before.physics.body(h) is Some);
            if p.body is Some {
                assert(before.physics.body(p.body->0) is Some);
                assert(p.body->0 != h);
            }
        }
    }
    assert forall|k: u64, x: u64| #[trigger] after.anchors.lists(k, x) implies after.is_part(x)
        && after.part(x).anchor_set().contains(k) by {
        assert(before.anchors.lists(k, x));
        assert(before.is_part(x));
        assert(after.entities@[x as int] == before.entities@[x as int]);
    }
    assert forall|i: int| 0 <= i < after.anchors.delete_queue@.len()
        implies after.anchors.anchors@.dom().contains(
        #[trigger] after.anchors.delete_queue@[i],
    ) && after.anchors.delete_queue@[i] < after.entities@.len() && !after.is_part(
        after.anchors.delete_queue@[i],
    ) by {
        if i < before.anchors.delete_queue@.len() {
            let q = before.anchors.delete_queue@[i];
            assert(!before.is_part(q));
            assert(after.anchors.delete_queue@[i] == q);
            if q != e {
                if p.child_of == Some(q) {
                    assert(after.is_model(q));
                } else {
                    assert(after.entities@[q as int] == before.entities@[q as int]);
                }
            }
        }
    }
    assert(after.anchors.delete_queue@.no_duplicates()) by {
        assert forall|i: int, j: int|
            0 <= i < after.anchors.delete_queue@.len() && 0 <= j < after.anchors.delete_queue@.len()
                && i != j implies after.anchors.delete_queue@[i]
                    != after.anchors.delete_queue@[j] by {
            let n = before.anchors.delete_queue@.len();
            if i < n && j < n {
            } else {
                let w = if i < n {
                    i
                } else {
                    j
                };
                assert(!before.is_part(before.anchors.delete_queue@[w]));
            }
        }
    }
}

/// Takes the part under `e` out of the world.
pub fn despawn_part(world: &mut World, e: u64)
    requires
        old(world).wf(),
        old(world).is_part(e),
    ensures
        final(world).wf(),
        part_despawned(old(world), final(world), e),
{
    proof {
        assert(old(world).part_wf(e));
        if old(world).part(e).child_of is Some {
            assert(old(world).model_wf(old(world).part(e).child_of->0));
        }
    }
    let at = world.slot(e);
    let (child_of, shape, body) = match &world.entities[at] {
        Entry::Part(p) => (p.child_of, p.shape, p.body),
        _ => (None, None, None),
    };
    if child_of.is_some() {
        handle_part_of_model_deletion(world, e);
    }
    let ghost w1 = *world;
    proof {
        assert(w1.entities@[e as int] == old(world).entities@[e as int]);
    }
    if shape.is_some() {
        handle_shape_removal(world, e);
    }
    let ghost w2 = *world;
    if body.is_some() {
        handle_body_removal(world, e);
    }
    let ghost w3 = *world;
    proof {
        assert forall|k: u64| #[trigger] world.anchors.anchors@.dom().contains(k)
            implies world.anchors.anchors@[k].finite() by {
            assert(old(world).anchors_wf());
        }
    }
    purge_member(world, e);
    world.put(at, Entry::Vacant);
    proof {
        let p = old(world).part(e);
        assert forall|i: int| 0 <= i < old(world).physics.colliders@.len()
            implies #[trigger] world.physics.colliders@[i]
            == collider_after(p, i, old(world).physics.colliders@[i]) by {
            if p.shape is Some {
                assert(old(world).physics.collider(p.shape->0) is Some);
            }
            if p.body is Some {
                assert(old(world).physics.body(p.body->0) is Some);
                assert(w3.physics.colliders@[i] == released(
                    w2.physics.colliders@[i],
                    p.body->0,
                    false,
                ));
            }
        }
        lemma_part_despawned_wf(old(world), world, e);
    }
}

/// What taking the child `c` away from its model does: the part has no
/// parent any more and is noted as freed; the model has lost it as a child
/// and is dirty. Everything else stays.
pub open spec fn child_detached(
    before: &World,
    after: &World,
    c: u64,
    velocity_of: Option<BodyHandle>,
) -> bool {
    let m = before.part(c).child_of->0;
    &&& after.entities@.len() == before.entities@.len()
    &&& after.entities@[c as int] == Entry::Part(PartEntry { child_of: None, ..before.part(c) })
    &&& after.is_model(m)
    &&& child_removed(before.model(m), after.model(m), c)
    &&& forall|x: u64|
        x < before.entities@.len() && x != c && x != m ==> #[trigger] after.entities@[x as int]
            == before.entities@[x as int]
    &&& after.freed@ == before.freed@.push(Freed { part: c, velocity_of })
    &&& after.anchors == before.anchors
    &&& after.physics == before.physics
    &&& after.untagged == before.untagged
}

/// Taking a child away from its model leaves a sound world sound.
pub proof fn lemma_child_detached_wf(
    before: &World,
    after: &World,
    c: u64,
    velocity_of: Option<BodyHandle>,
)
    requires
        before.wf(),
        before.is_part(c),
        before.part(c).child_of is Some,
        child_detached(before, after, c, velocity_of),
    ensures
        after.wf(),
{
    let m = before.part(c).child_of->0;
    assert(before.part_wf(c));
    assert forall|x: u64| #[trigger] after.is_model(x) implies after.model_wf(x) && (after.model(
        x,
    ).body matches Some(h) ==> after.physics.body(h) matches Some(b) && b.user_data == x) by {
        assert(before.is_model(x));
        assert(before.model_wf(x));
        assert forall|d: u64| #[trigger]
            after.model(x).model.graph.nodes().contains(d) implies after.is_child(d, x) by {
            assert(before.model(x).model.graph.nodes().contains(d));
            assert(before.is_child(d, x));
            assert(d != c);
            assert(after.entities@[d as int] == before.entities@[d as int]);
        }
    }
    assert forall|x: u64| #[trigger] after.is_part(x) implies after.part_wf(x) by {
        assert(before.is_part(x));
        assert(before.part_wf(x));
        if x != c {
            assert(after.entities@[x as int] == before.entities@[x as int]);
            if before.part(x).child_of is Some {
                let q = before.part(x).child_of->0;
                assert(before.is_model(q));
            }
        }
    }
    assert forall|k: u64, x: u64| #[trigger] after.anchors.lists(k, x) implies after.is_part(x)
        && after.part(x).anchor_set().contains(k) by {
        assert(before.anchors.lists(k, x));
        assert(before.is_part(x));
        if x != c {
            assert(after.entities@[x as int] == before.entities@[x as int]);
        }
    }
    assert forall|i: int| 0 <= i < after.anchors.delete_queue@.len() implies !after.is_part(
        #[trigger] after.anchors.delete_queue@[i],
    ) by {
        let q = before.anchors.delete_queue@[i];
        assert(!before.is_part(q));
        if q != m && q != c {
            assert(after.entities@[q as int] == before.entities@[q as int]);
        }
    }
}

/// Takes the child `c` away from its model. The part stays in the world,
/// on its own, and is noted as freed together with the body whose velocity
/// it is to take over.
pub fn detach(world: &mut World, c: u64, velocity_of: Option<BodyHandle>)
    requires
        old(world).wf(),
        old(world).is_part(c),
        old(world).part(c).child_of is Some,
    ensures
        final(world).wf(),
        child_detached(old(world), final(world), c, velocity_of),
{
    proof {
        assert(old(world).part_wf(c));
        assert(old(world).model_wf(old(world).part(c).child_of->0));
    }
    handle_part_of_model_deletion(world, c);
    proof {
        assert(world.entities@[c as int] == old(world).entities@[c as int]);
    }
    world.set_child_of(c, None);
    world.freed.push(Freed { part: c, velocity_of });
    proof {
        lemma_child_detached_wf(old(world), world, c, velocity_of);
    }
}

/// What taking all children away from the model `m` does: the model is
/// left without children, each former child is a part of its own and is
/// noted as freed, once. Everything else stays.
pub open spec fn children_released(
    before: &World,
    after: &World,
    m: u64,
    velocity_of: Option<BodyHandle>,
) -> bool {
    let nodes = before.model(m).model.graph.nodes();
    let added = after.freed@.skip(before.freed@.len() as int);
    &&& after.entities@.len() == before.entities@.len()
    &&& after.is_model(m)
    &&& after.model(m).model.graph.wf()
    &&& after.model(m).model.graph.nodes() == Set::<u64>::empty()
    &&& after.model(m).children@.len() == 0
    &&& after.model(m).model.anchors == before.model(m).model.anchors
    &&& after.model(m).model.dirty == (before.model(m).model.dirty
        || before.model(m).children@.len()
        > 0)
    &&& after.model(m).body == before.model(m).body
    &&& after.model(m).velocity_of == before.model(m).velocity_of
    &&& forall|x: u64|
        x < before.entities@.len() && x != m ==> #[trigger] after.entities@[x as int]
            == if nodes.contains(x) {
            Entry::Part(PartEntry { child_of: None, ..before.part(x) })
        } else {
            before.entities@[x as int]
        }
    &&& after.freed@.len() >= before.freed@.len()
    &&& after.freed@.take(before.freed@.len() as int) == before.freed@
    &&& forall|i: int|
        0 <= i < added.len() ==> nodes.contains((#[trigger] added[i]).part) && added[i].velocity_of
            == velocity_of
    &&& forall|i: int, j: int|
        0 <= i < j < added.len() ==> (#[trigger] added[i]).part != (#[trigger] added[j]).part
    &&& forall|x: u64| nodes.contains(x) ==> exists|i: int| 0 <= i < added.len()
        && (#[trigger] added[i]).part == x
    &&& after.anchors == before.anchors
    &&& after.physics == before.physics
    &&& after.untagged == before.untagged
}

/// Takes all children away from the model `m`.
pub fn release_children(world: &mut World, m: u64, velocity_of: Option<BodyHandle>)
    requires
        old(world).wf(),
        old(world).is_model(m),
    ensures
        final(world).wf(),
        children_released(old(world), final(world), m, velocity_of),
{
    let ghost nodes = old(world).model(m).model.graph.nodes();
    let ghost base = old(world).freed@.len() as int;
    proof {
        assert(old(world).model_wf(m));
        assert(world.freed@.take(base) =~= old(world).freed@);
        assert(world.freed@.skip(base) =~= Seq::<Freed>::empty());
    }
    loop
        invariant_except_break
            world.wf(),
            old(world).wf(),
            old(world).is_model(m),
            world.is_model(m),
            nodes == old(world).model(m).model.graph.nodes(),
            base == old(world).freed@.len(),
            world.entities@.len() == old(world).entities@.len(),
            world.model(m).model.graph.nodes().subset_of(nodes),
            world.model(m).model.anchors == old(world).model(m).model.anchors,
            world.model(m).model.dirty == (old(world).model(m).model.dirty || world.freed@.len()
                > base),
            world.model(m).body == old(world).model(m).body,
            world.model(m).velocity_of == old(world).model(m).velocity_of,
            forall|x: u64|
                x < old(world).entities@.len() && x != m ==> #[trigger] world.entities@[x as int]
                    == if nodes.contains(x) && !world.model(m).model.graph.nodes().contains(x) {
                    Entry::Part(PartEntry { child_of: None, ..old(world).part(x) })
                } else {
                    old(world).entities@[x as int]
                },
            world.freed@.len() >= base,
            world.freed@.take(base) == old(world).freed@,
            forall|i: int|
                0 <= i < world.freed@.len() - base ==> nodes.contains(
                    (#[trigger] world.freed@.skip(base)[i]).part,
                ) && !world.model(m).model.graph.nodes().contains(world.freed@.skip(base)[i].part)
                    && world.freed@.skip(base)[i].velocity_of == velocity_of,
            forall|i: int, j: int|
                0 <= i < j < world.freed@.len() - base ==> (#[trigger] world.freed@.skip(
                    base,
                )[i]).part != (#[trigger] world.freed@.skip(base)[j]).part,
            forall|x: u64|
                nodes.contains(x) && !world.model(m).model.graph.nodes().contains(x) ==> exists|
                    i: int,
                | 0 <= i < world.freed@.len() - base && (#[trigger] world.freed@.skip(base)[i]).part
                    == x,
            world.anchors == old(world).anchors,
            world.physics == old(world).physics,
            world.untagged == old(world).untagged,
        ensures
            world.wf(),
            children_released(old(world), world, m, velocity_of),
        decreases world.model(m).children@.len(),
    {
        let count = world.child_count(m);
        if count == 0 {
            proof {
                assert(world.model_wf(m));
                assert(world.model(m).children@.to_set() =~= Set::<u64>::empty()) by {
                    assert forall|x: u64| !world.model(m).children@.to_set().contains(x) by {
                        if world.model(m).children@.to_set().contains(x) {
                            let i = choose|i: int|
                                0 <= i < world.model(m).children@.len() && world.model(
                                    m,
                                ).children@[i] == x;
                        }
                    }
                }
                if old(world).model(m).children@.len() > 0 {
                    let c0 = old(world).model(m).children@[0];
                    assert(old(world).model(m).children@.to_set().contains(c0));
                    assert(nodes.contains(c0));
                    let i = choose|i: int|
                        0 <= i < world.freed@.len() - base
                            && (#[trigger] world.freed@.skip(base)[i]).part
                            == c0;
                } else {
                    assert(nodes =~= Set::<u64>::empty()) by {
                        assert(old(world).model(m).children@.to_set() =~= Set::<u64>::empty()) by {
                            assert forall|x: u64| !old(world).model(m).children@.to_set().contains(
                                x,
                            ) by {
                                if old(world).model(m).children@.to_set().contains(x) {
                                    let i = choose|i: int|
                                        0 <= i < old(world).model(m).children@.len() && old(
                                            world,
                                        ).model(m).children@[i] == x;
                                }
                            }
                        }
                    }
                    if world.freed@.len() > base {
                        assert(nodes.contains(world.freed@.skip(base)[0].part));
                    }
                }
            }
            break ;
        }
        let ghost mid = *world;
        let c = world.child_at(m, 0);
        proof {
            assert(mid.model_wf(m));
            assert(mid.model(m).children@.to_set().contains(mid.model(m).children@[0]));
            assert(mid.is_child(c, m));
        }
        detach(world, c, velocity_of);
        proof {
            let kids = mid.model(m).children@;
            let kids2 = world.model(m).children@;
            assert(kids2.len() < kids.len()) by {
                kids.unique_seq_to_set();
                kids2.unique_seq_to_set();
                assert(kids.to_set().contains(c));
            }
            assert(world.freed@.skip(base) =~= mid.freed@.skip(base).push(
                Freed { part: c, velocity_of },
            ));
            assert(world.freed@.take(base) =~= mid.freed@.take(base));
            assert forall|x: u64|
                x < old(world).entities@.len() && x != m
                    implies #[trigger] world.entities@[x as int]
                == if nodes.contains(x) && !world.model(m).model.graph.nodes().contains(x) {
                Entry::Part(PartEntry { child_of: None, ..old(world).part(x) })
            } else {
                old(world).entities@[x as int]
            } by {
                if x == c {
                    assert(mid.entities@[c as int] == old(world).entities@[c as int]);
                } else {
                    assert(world.entities@[x as int] == mid.entities@[x as int]);
                }
            }
            assert forall|i: int|
                0 <= i < world.freed@.len() - base implies nodes.contains(
                (#[trigger] world.freed@.skip(base)[i]).part,
            ) && !world.model(m).model.graph.nodes().contains(world.freed@.skip(base)[i].part)
                && world.freed@.skip(base)[i].velocity_of == velocity_of by {
                if i < mid.freed@.len() - base {
                    assert(world.freed@.skip(base)[i] == mid.freed@.skip(base)[i]);
                }
            }
            assert forall|i: int, j: int|
                0 <= i < j < world.freed@.len() - base implies (#[trigger] world.freed@.skip(
                base,
            )[i]).part != (#[trigger] world.freed@.skip(base)[j]).part by {
                assert(world.freed@.skip(base)[i] == mid.freed@.skip(base)[i]);
                if j < mid.freed@.len() - base {
                    assert(world.freed@.skip(base)[j] == mid.freed@.skip(base)[j]);
                } else {
                    assert(!mid.model(m).model.graph.nodes().contains(
                        mid.freed@.skip(base)[i].part,
                    ));
                }
            }
            assert forall|x: u64|
                nodes.contains(x) && !world.model(m).model.graph.nodes().contains(
                    x,
                ) implies exists|i: int|
                0 <= i < world.freed@.len() - base && (#[trigger] world.freed@.skip(base)[i]).part
                    == x by {
                if x == c {
                    assert(world.freed@.skip(base)[mid.freed@.len() - base].part == c);
                } else {
                    let i = choose|i: int|
                        0 <= i < mid.freed@.len() - base
                            && (#[trigger] mid.freed@.skip(base)[i]).part
                            == x;
                    assert(world.freed@.skip(base)[i] == mid.freed@.skip(base)[i]);
                }
            }
        }
    }
}

/// What the ledger is after the body `gone` of a model without children
/// has been removed: the body is gone, and a collider that sat on it stays
/// where it stood, without a body. With no body to remove nothing changes.
pub open spec fn body_released(before: &World, after: &World, gone: Option<BodyHandle>) -> bool {
    &&& after.physics.colliders@.len() == before.physics.colliders@.len()
    &&& match gone {
        Some(h) => {
            &&& after.physics.rigid_bodies@ == before.physics.rigid_bodies@.update(h.0 as int, None)
            &&& forall|i: int|
                0 <= i < before.physics.colliders@.len() ==> #[trigger] after.physics.colliders@[i]
                    == released(before.physics.colliders@[i], h, false)
        },
        None => after.physics == before.physics,
    }
}

/// What taking a model without children out of a world does: its entry is
/// vacant and its body has left the ledger. Everything else stays.
pub open spec fn model_vacated(before: &World, after: &World, m: u64) -> bool {
    &&& after.entities@ == before.entities@.update(m as int, Entry::Vacant)
    &&& body_released(before, after, before.model(m).body)
    &&& after.anchors == before.anchors
    &&& after.freed == before.freed
    &&& after.untagged == before.untagged
}

/// Taking a model without children out of a sound world leaves the world
/// sound.
pub proof fn lemma_model_vacated_wf(before: &World, after: &World, m: u64)
    requires
        before.wf(),
        before.is_model(m),
        before.model(m).children@.len() == 0,
        model_vacated(before, after, m),
    ensures
        after.wf(),
{
    assert(before.model_wf(m));
    assert(before.model(m).model.graph.nodes() =~= Set::<u64>::empty()) by {
        assert forall|x: u64| !before.model(m).children@.to_set().contains(x) by {
            if before.model(m).children@.to_set().contains(x) {
                let i = choose|i: int|
                    0 <= i < before.model(m).children@.len() && before.model(m).children@[i] == x;
            }
        }
        assert(before.model(m).children@.to_set() =~= Set::<u64>::empty());
    }
    let gone = before.model(m).body;
    if gone is Some {
        assert(before.physics.body(gone->0) is Some);
    }
    assert forall|x: u64| #[trigger] after.is_model(x) implies after.model_wf(x) && (after.model(
        x,
    ).body matches Some(h) ==> after.physics.body(h) matches Some(b) && b.user_data == x) by {
        assert(before.is_model(x));
        assert(before.model_wf(x));
        assert forall|d: u64| #[trigger]
            after.model(x).model.graph.nodes().contains(d) implies after.is_child(d, x) by {
            assert(before.is_child(d, x));
        }
        if before.model(x).body is Some {
            assert(before.physics.body(before.model(x).body->0) is Some);
        }
    }
    assert forall|x: u64| #[trigger] after.is_part(x) implies after.part_wf(x) by {
        assert(before.is_part(x));
        assert(before.part_wf(x));
        let q = before.part(x);
        if q.child_of is Some {
            assert(q.child_of->0 != m);
        }
        if q.shape is Some {
            let s = q.shape->0;
            assert(before.physics.collider(s) is Some);
            if gone is Some {
                assert(after.physics.colliders@[s.0 as int] == released(
                    before.physics.colliders@[s.0 as int],
                    gone->0,
                    false,
                ));
            }
        }
        if q.body is Some {
            assert(before.physics.body(q.body->0) is Some);
        }
    }
    assert forall|k: u64, x: u64| #[trigger] after.anchors.lists(k, x) implies after.is_part(x)
        && after.part(x).anchor_set().contains(k) by {
        assert(before.anchors.lists(k, x));
        assert(before.is_part(x));
    }
    assert forall|i: int| 0 <= i < after.anchors.delete_queue@.len() implies !after.is_part(
        #[trigger] after.anchors.delete_queue@[i],
    ) by {
        assert(!before.is_part(before.anchors.delete_queue@[i]));
    }
}

/// Takes the model under `m`, which has no children, out of the world.
pub fn vacate_model(world: &mut World, m: u64)
    requires
        old(world).wf(),
        old(world).is_model(m),
        old(world).model(m).children@.len() == 0,
    ensures
        final(world).wf(),
        model_vacated(old(world), final(world), m),
{
    let at = world.slot(m);
    let has_body = match &world.entities[at] {
        Entry::Model(entry) => entry.body.is_some(),
        _ => false,
    };
    proof {
        if old(world).model(m).body is Some {
            assert(old(world).physics.body(old(world).model(m).body->0) is Some);
        }
    }
    if has_body {
        handle_body_removal(world, m);
    }
    world.put(at, Entry::Vacant);
    proof {
        lemma_model_vacated_wf(old(world), world, m);
    }
}

/// What despawning the entity `e` does. A part is taken out as
/// `part_despawned` says. A model lets go of all its children, which stay
/// in the world as parts of their own, and is then taken out. Where nothing
/// stands nothing happens.
pub open spec fn despawned(before: &World, after: &World, e: u64) -> bool {
    if before.is_part(e) {
        part_despawned(before, after, e)
    } else if before.is_model(e) {
        exists|mid: World| #[trigger]
            children_released(before, &mid, e, None) && mid.wf() && model_vacated(&mid, after, e)
    } else {
        after == before
    }
}

/// Despawns the entity `e`.
pub fn despawn(world: &mut World, e: u64)
    requires
        old(world).wf(),
    ensures
        final(world).wf(),
        despawned(old(world), final(world), e),
{
    if e >= world.entities.len() as u64 {
        return ;
    }
    let at = world.slot(e);
    let kind: u8 = match &world.entities[at] {
        Entry::Part(_) => 1,
        Entry::Model(_) => 2,
        Entry::Vacant => 0,
    };
    if kind == 1 {
        despawn_part(world, e);
    } else if kind == 2 {
        release_children(world, e, None);
        let ghost mid = *world;
        vacate_model(world, e);
        proof {
            assert(children_released(old(world), &mid, e, None) && mid.wf() && model_vacated(
                &mid,
                world,
                e,
            ));
        }
    }
}

/// A world stays sound when the anchor table lists fewer dependents and
/// nothing else changes.
pub proof fn lemma_wf_purged(before: &World, after: &World)
    requires
        before.wf(),
        after.entities == before.entities,
        after.physics == before.physics,
        forall|k: u64, y: u64| #[trigger] after.anchors.lists(k, y) ==> before.anchors.lists(k, y),
        after.anchors.anchors@.dom() == before.anchors.anchors@.dom(),
        forall|k: u64| #[trigger]
            after.anchors.anchors@.dom().contains(k) ==> after.anchors.anchors@[k].finite(),
        after.anchors.delete_queue == before.anchors.delete_queue,
    ensures
        after.wf(),
{
    assert forall|m: u64| #[trigger] after.is_model(m) implies after.model_wf(m) && (after.model(
        m,
    ).body matches Some(h) ==> after.physics.body(h) matches Some(b) && b.user_data == m) by {
        assert(before.is_model(m));
        assert(before.model_wf(m));
        assert forall|c: u64| #[trigger]
            after.model(m).model.graph.nodes().contains(c) implies after.is_child(c, m) by {
            assert(before.is_child(c, m));
        }
    }
    assert forall|x: u64| #[trigger] after.is_part(x) implies after.part_wf(x) by {
        assert(before.is_part(x));
        assert(before.part_wf(x));
    }
    assert forall|k: u64, x: u64| #[trigger] after.anchors.lists(k, x) implies after.is_part(x)
        && after.part(x).anchor_set().contains(k) by {
        assert(before.anchors.lists(k, x));
        assert(before.is_part(x));
    }
    assert forall|i: int| 0 <= i < after.anchors.delete_queue@.len()
        implies after.anchors.anchors@.dom().contains(
        #[trigger] after.anchors.delete_queue@[i],
    ) && !after.is_part(after.anchors.delete_queue@[i]) by {
        assert(!before.is_part(before.anchors.delete_queue@[i]));
        assert(before.anchors.anchors@.dom().contains(before.anchors.delete_queue@[i]));
    }
}

/// Takes the anchor tag away from the part under `e`, and notes that it
/// has lost it. Where no anchor stands nothing happens.
pub fn remove_anchor(world: &mut World, e: u64)
    requires
        old(world).wf(),
    ensures
        final(world).wf(),
        if old(world).is_part(e) && old(world).part(e).anchor {
            &&& final(world).entities@ == old(world).entities@.update(
                e as int,
                Entry::Part(PartEntry { anchor: false, ..old(world).part(e) }),
            )
            &&& final(world).untagged@ == old(world).untagged@.push(e)
        } else {
            &&& final(world).entities@ == old(world).entities@
            &&& final(world).untagged@ == old(world).untagged@
        },
        final(world).anchors == old(world).anchors,
        final(world).physics == old(world).physics,
        final(world).freed == old(world).freed,
{
    if e >= world.entities.len() as u64 {
        return ;
    }
    let at = world.slot(e);
    let entry = world.take(at);
    match entry {
        Entry::Part(part) => {
            let PartEntry { part, studs, anchor, anchored, child_of, shape, body } = part;
            world.put(
                at,
                Entry::Part(
                    PartEntry { part, studs, anchor: false, anchored, child_of, shape, body },
                ),
            );
            if anchor {
                world.untagged.push(e);
            } else {
                proof {
                    assert(world.entities@ =~= old(world).entities@);
                }
            }
        },
        other => {
            world.put(at, other);
            proof {
                assert(world.entities@ =~= old(world).entities@);
            }
        },
    }
    proof {
        let before = old(world);
        assert forall|m: u64| #[trigger] world.is_model(m) implies world.model_wf(m)
            && (world.model(
            m,
        ).body matches Some(h) ==> world.physics.body(h) matches Some(b) && b.user_data == m) by {
            assert(before.is_model(m));
            assert(before.model_wf(m));
            assert forall|c: u64| #[trigger]
                world.model(m).model.graph.nodes().contains(c) implies world.is_child(c, m) by {
                assert(before.is_child(c, m));
            }
        }
        assert forall|x: u64| #[trigger] world.is_part(x) implies world.part_wf(x) by {
            assert(before.is_part(x));
            assert(before.part_wf(x));
        }
        assert forall|k: u64, x: u64| #[trigger] world.anchors.lists(k, x) implies world.is_part(x)
            && world.part(x).anchor_set().contains(k) by {
            assert(before.anchors.lists(k, x));
            assert(before.is_part(x));
        }
        assert forall|i: int| 0 <= i < world.anchors.delete_queue@.len() implies !world.is_part(
            #[trigger] world.anchors.delete_queue@[i],
        ) by {
            assert(!before.is_part(before.anchors.delete_queue@[i]));
        }
    }
}

} // verus!
