//! Keeping bodies and anchors in step with the entities after edits.

use vstd::prelude::*;

use crate::components::lists;
use crate::edits::lemma_wf_purged;
use crate::edits::purge_member;
use crate::idset::IdSet;
use crate::idset::IdTable;
use crate::model::Model;
use crate::physics::BodyHandle;
use crate::physics::BodyPose;
use crate::physics::Collider;
use crate::physics::RigidBody;
use crate::physics::RigidBodyType;
use crate::physics::ShapeHandle;
use crate::physics::ShapeOffset;
use crate::sets::map_keys;
use crate::sets::set_members;
use crate::setup::all_children_have_colliders;
use crate::setup::build_body;
use crate::setup::embody_models;
use crate::setup::models_embodied;
use crate::world::Anchored;
use crate::world::Entry;
use crate::world::ModelEntry;
use crate::world::PartEntry;
use crate::world::PassError;
use crate::world::World;
use crate::world::same_but_anchored;
use crate::world::same_but_handles;

verus! {

/// The part is as it was, but for the anchors in `lost`, which hold it no
/// more. If no anchor is left, the component that names its anchors is
/// gone too.
pub open spec fn stripped(before: PartEntry, after: PartEntry, lost: Set<u64>) -> bool {
    &&& same_but_anchored(before, after)
    &&& after.anchor_set() == before.anchor_set().difference(lost)
    &&& after.anchored is Some <==> before.anchored is Some && after.anchor_set().len() > 0
    &&& after.anchor_set().finite()
}

/// Takes the anchor `k` away from the part `x`, and notes in `changed`
/// that the part has lost it.
fn strip_part(world: &mut World, x: u64, k: u64, changed: &mut IdTable)
    requires
        old(world).is_part(x),
        old(world).part(x).anchor_set().finite(),
        forall|y: u64| #[trigger]
            old(changed)@.dom().contains(y) ==> old(changed)@[y].finite(),
    ensures
        final(world).entities@.len() == old(world).entities@.len(),
        final(world).is_part(x),
        stripped(old(world).part(x), final(world).part(x), set![k]),
        forall|e: int|
            0 <= e < old(world).entities@.len() && e != x ==> final(world).entities@[e] == old(
                world,
            ).entities@[e],
        final(world).anchors == old(world).anchors,
        final(world).physics == old(world).physics,
        final(world).freed == old(world).freed,
        final(world).untagged == old(world).untagged,
        forall|y: u64, a: u64| #[trigger]
            lists(final(changed)@, y, a) <==> lists(old(changed)@, y, a) || (y == x && a == k),
        forall|y: u64| #[trigger]
            final(changed)@.dom().contains(y) ==> final(changed)@[y].finite(),
        final(changed)@.dom() == old(changed)@.dom().insert(x),
{
    let at = world.slot(x);
    let entry = world.take(at);
    match entry {
        Entry::Part(part) => {
            let PartEntry { part, studs, anchor, anchored, child_of, shape, body } = part;
            let anchored = match anchored {
                Some(Anchored(set)) => {
                    let mut set = set;
                    set.remove(k);
                    proof {
                        assert(set@ =~= old(world).part(x).anchor_set().difference(set![k]));
                        if set@.len() == 0 {
                            set@.lemma_len0_is_empty();
                        }
                    }
                    if set.is_empty() {
                        None
                    } else {
                        Some(Anchored(set))
                    }
                },
                None => {
                    proof {
                        assert(Set::<u64>::empty() =~= old(world).part(x).anchor_set().difference(
                            set![k],
                        ));
                    }
                    None
                },
            };
            world.put(
                at,
                Entry::Part(PartEntry { part, studs, anchor, anchored, child_of, shape, body }),
            );
        },
        _ => {},
    }
    let ghost before = changed@;
    let taken = changed.remove(x);
    let mut set = match taken {
        Some(s) => s,
        None => IdSet::new(),
    };
    let ghost set_before = set@;
    set.insert(k);
    changed.insert(x, set);
    proof {
        assert(before.dom().contains(x) ==> set_before == before[x]);
        assert(!before.dom().contains(x) ==> set_before == Set::<u64>::empty());
        assert(changed@ == before.remove(x).insert(x, set@));
        assert(changed@.dom() =~= before.dom().insert(x));
        assert forall|y: u64, a: u64| #[trigger]
            lists(changed@, y, a) <==> lists(before, y, a) || (y == x && a == k) by {
            if y == x {
                assert(lists(changed@, y, a) <==> lists(before, y, a) || a == k);
            } else {
                assert(lists(changed@, y, a) <==> lists(before, y, a));
            }
        }
        assert forall|y: u64| #[trigger] changed@.dom().contains(y)
            implies changed@[y].finite() by {
            if y != x {
                assert(before.dom().contains(y));
            }
        }
    }
}

/// What telling the dependents of the anchor at the head of the queue does:
/// the anchor leaves the queue and the anchor table; each part that it
/// listed is held by it no more, and `changed` notes so. Everything else
/// stays.
pub open spec fn head_stripped(
    before: &World,
    after: &World,
    was: Map<u64, Set<u64>>,
    now: Map<u64, Set<u64>>,
) -> bool {
    let k = before.anchors.delete_queue@[0];
    &&& after.entities@.len() == before.entities@.len()
    &&& after.anchors.delete_queue@ == before.anchors.delete_queue@.skip(1)
    &&& after.anchors.anchors@ == before.anchors.anchors@.remove(k)
    &&& forall|x: u64|
        x < before.entities@.len() ==> if before.anchors.lists(k, x) {
            after.is_part(x) && stripped(before.part(x), after.part(x), set![k])
        } else {
            #[trigger] after.entities@[x as int] == before.entities@[x as int]
        }
    &&& forall|y: u64, a: u64| #[trigger]
        lists(now, y, a) <==> lists(was, y, a) || (a == k && before.anchors.lists(k, y))
    &&& forall|y: u64| #[trigger] now.dom().contains(y) ==> now[y].finite()
    &&& forall|y: u64| #[trigger]
        now.dom().contains(y) <==> was.dom().contains(y) || before.anchors.lists(k, y)
    &&& after.physics == before.physics
    &&& after.freed == before.freed
    &&& after.untagged == before.untagged
}

/// Telling the dependents of one anchor leaves a sound world sound.
proof fn lemma_head_stripped_wf(
    before: &World,
    after: &World,
    was: Map<u64, Set<u64>>,
    now: Map<u64, Set<u64>>,
)
    requires
        before.wf(),
        before.anchors.delete_queue@.len() > 0,
        head_stripped(before, after, was, now),
    ensures
        after.wf(),
{
    let k = before.anchors.delete_queue@[0];
    assert forall|x: u64| x < before.entities@.len() implies (before.is_part(x) <==> after.is_part(
        x,
    )) && (before.is_model(x) ==> after.entities@[x as int] == before.entities@[x as int]) by {
        if before.anchors.lists(k, x) {
            assert(before.is_part(x));
        } else {
            assert(after.entities@[x as int] == before.entities@[x as int]);
        }
    }
    assert forall|m: u64| #[trigger] after.is_model(m) implies after.model_wf(m) && (after.model(
        m,
    ).body matches Some(h) ==> after.physics.body(h) matches Some(b) && b.user_data == m) by {
        assert(before.is_model(m)) by {
            if !before.is_model(m) {
                if before.anchors.lists(k, m) {
                } else {
                    assert(after.entities@[m as int] == before.entities@[m as int]);
                }
            }
        }
        assert(before.model_wf(m));
        assert forall|c: u64| #[trigger]
            after.model(m).model.graph.nodes().contains(c) implies after.is_child(c, m) by {
            assert(before.is_child(c, m));
            if before.anchors.lists(k, c) {
            } else {
                assert(after.entities@[c as int] == before.entities@[c as int]);
            }
        }
    }
    assert forall|x: u64| #[trigger] after.is_part(x) implies after.part_wf(x) by {
        assert(before.is_part(x));
        assert(before.part_wf(x));
        if before.anchors.lists(k, x) {
        } else {
            assert(after.entities@[x as int] == before.entities@[x as int]);
        }
        if before.part(x).child_of is Some {
            let m = before.part(x).child_of->0;
            assert(before.is_model(m));
            assert(after.entities@[m as int] == before.entities@[m as int]);
        }
    }
    assert forall|a: u64, x: u64| #[trigger] after.anchors.lists(a, x) implies after.is_part(x)
        && after.part(x).anchor_set().contains(a) by {
        assert(before.anchors.lists(a, x));
        assert(a != k);
        assert(before.is_part(x));
        if before.anchors.lists(k, x) {
        } else {
            assert(after.entities@[x as int] == before.entities@[x as int]);
        }
    }
    assert forall|i: int| 0 <= i < after.anchors.delete_queue@.len()
        implies after.anchors.anchors@.dom().contains(
        #[trigger] after.anchors.delete_queue@[i],
    ) && after.anchors.delete_queue@[i] < after.entities@.len() && !after.is_part(
        after.anchors.delete_queue@[i],
    ) by {
        let q = before.anchors.delete_queue@[i + 1];
        assert(after.anchors.delete_queue@[i] == q);
        assert(q != k);
        assert(!before.is_part(q));
    }
    assert(after.anchors.delete_queue@.no_duplicates()) by {
        assert forall|i: int, j: int|
            0 <= i < after.anchors.delete_queue@.len() && 0 <= j < after.anchors.delete_queue@.len()
                && i != j implies after.anchors.delete_queue@[i]
                    != after.anchors.delete_queue@[j] by {
            assert(after.anchors.delete_queue@[i] == before.anchors.delete_queue@[i + 1]);
            assert(after.anchors.delete_queue@[j] == before.anchors.delete_queue@[j + 1]);
        }
    }
    assert forall|a: u64| #[trigger]
        after.anchors.anchors@.dom().contains(a) implies after.anchors.anchors@[a].finite() by {
        assert(before.anchors.anchors@.dom().contains(a));
    }
}

/// Takes the anchor at the head of the queue out of the anchor table and
/// away from every part that it listed.
fn strip_next(world: &mut World, changed: &mut IdTable)
    requires
        old(world).wf(),
        old(world).anchors.delete_queue@.len() > 0,
        forall|y: u64| #[trigger] old(changed)@.dom().contains(y) ==> old(changed)@[y].finite(),
    ensures
        final(world).wf(),
        head_stripped(old(world), final(world), old(changed)@, final(changed)@),
{
    let popped = world.anchors.delete_queue.pop_front();
    let k = popped.unwrap();
    let ghost was = changed@;
    proof {
        assert(old(world).anchors.anchors@.dom().contains(k));
    }
    let taken = world.anchors.anchors.remove(k);
    let dependents = match taken {
        Some(set) => set,
        None => IdSet::new(),
    };
    let members = set_members(&dependents);
    proof {
        assert(dependents@ == old(world).anchors.anchors@[k]);
        assert forall|x: u64| members@.contains(x) <==> old(world).anchors.lists(k, x) by {
            if members@.contains(x) {
                assert(members@.to_set().contains(x));
            }
            if old(world).anchors.lists(k, x) {
                assert(members@.to_set().contains(x));
            }
        }
    }
    let mut i: usize = 0;
    while i < members.len()
        invariant
            i <= members@.len(),
            members@.no_duplicates(),
            old(world).wf(),
            old(world).anchors.delete_queue@.len() > 0,
            k == old(world).anchors.delete_queue@[0],
            forall|x: u64| members@.contains(x) <==> old(world).anchors.lists(k, x),
            world.entities@.len() == old(world).entities@.len(),
            world.anchors.delete_queue@ == old(world).anchors.delete_queue@.skip(1),
            world.anchors.anchors@ == old(world).anchors.anchors@.remove(k),
            forall|x: u64|
                x < old(world).entities@.len() ==> if exists|j: int| 0 <= j < i && members@[j]
                    == x {
                    world.is_part(x) && stripped(old(world).part(x), world.part(x), set![k])
                } else {
                    #[trigger] world.entities@[x as int] == old(world).entities@[x as int]
                },
            forall|y: u64, a: u64| #[trigger]
                lists(changed@, y, a) <==> lists(was, y, a) || (a == k && exists|j: int|
                    0 <= j < i && members@[j] == y),
            forall|y: u64| #[trigger] changed@.dom().contains(y) ==> changed@[y].finite(),
            forall|y: u64| #[trigger]
                changed@.dom().contains(y) <==> was.dom().contains(y) || exists|j: int|
                    0 <= j < i && members@[j] == y,
            world.physics == old(world).physics,
            world.freed == old(world).freed,
            world.untagged == old(world).untagged,
        decreases members@.len() - i,
    {
        let x = members[i];
        let ghost mid = *world;
        let ghost mid_changed = changed@;
        proof {
            assert(members@.contains(x));
            assert(old(world).anchors.lists(k, x));
            assert(old(world).is_part(x));
            assert(old(world).part_wf(x));
            assert(!(exists|j: int| 0 <= j < i && members@[j] == x));
            assert(world.entities@[x as int] == old(world).entities@[x as int]);
        }
        strip_part(world, x, k, changed);
        proof {
            assert forall|e: u64| e < old(world).entities@.len() implies if exists|j: int|
                0 <= j < i + 1 && members@[j] == e {
                world.is_part(e) && stripped(old(world).part(e), world.part(e), set![k])
            } else {
                #[trigger] world.entities@[e as int] == old(world).entities@[e as int]
            } by {
                if e == x {
                    assert(members@[i as int] == e);
                } else {
                    assert(world.entities@[e as int] == mid.entities@[e as int]);
                    if exists|j: int| 0 <= j < i && members@[j] == e {
                        let j = choose|j: int| 0 <= j < i && members@[j] == e;
                        assert(0 <= j < i + 1 && members@[j] == e);
                    }
                    if exists|j: int| 0 <= j < i + 1 && members@[j] == e {
                        let j = choose|j: int| 0 <= j < i + 1 && members@[j] == e;
                        assert(j < i);
                    }
                }
            }
            assert forall|y: u64, a: u64| #[trigger]
                lists(changed@, y, a) <==> lists(was, y, a) || (a == k && exists|j: int|
                    0 <= j < i + 1 && members@[j] == y) by {
                assert(lists(mid_changed, y, a) <==> lists(was, y, a) || (a == k && exists|j: int|
                    0 <= j < i && members@[j] == y));
                if y == x {
                    assert(members@[i as int] == y);
                }
                if exists|j: int| 0 <= j < i && members@[j] == y {
                    let j = choose|j: int| 0 <= j < i && members@[j] == y;
                    assert(0 <= j < i + 1 && members@[j] == y);
                }
                if exists|j: int| 0 <= j < i + 1 && members@[j] == y {
                    let j = choose|j: int| 0 <= j < i + 1 && members@[j] == y;
                    if j == i {
                        assert(y == x);
                    }
                }
            }
            assert forall|y: u64| #[trigger]
                changed@.dom().contains(y) <==> was.dom().contains(y) || exists|j: int|
                    0 <= j < i + 1 && members@[j] == y by {
                assert(mid_changed.dom().contains(y) <==> was.dom().contains(y) || exists|j: int|
                    0 <= j < i && members@[j] == y);
                if y == x {
                    assert(members@[i as int] == y);
                }
                if exists|j: int| 0 <= j < i && members@[j] == y {
                    let j = choose|j: int| 0 <= j < i && members@[j] == y;
                    assert(0 <= j < i + 1 && members@[j] == y);
                }
                if exists|j: int| 0 <= j < i + 1 && members@[j] == y {
                    let j = choose|j: int| 0 <= j < i + 1 && members@[j] == y;
                    if j == i {
                        assert(y == x);
                    }
                }
            }
        }
        i = i + 1;
    }
    proof {
        assert forall|x: u64| x < old(world).entities@.len() implies if old(world).anchors.lists(
            k,
            x,
        ) {
            world.is_part(x) && stripped(old(world).part(x), world.part(x), set![k])
        } else {
            #[trigger] world.entities@[x as int] == old(world).entities@[x as int]
        } by {
            if members@.contains(x) {
                let j = choose|j: int| 0 <= j < members@.len() && members@[j] == x;
                assert(0 <= j < i && members@[j] == x);
            }
            if exists|j: int| 0 <= j < i && members@[j] == x {
                let j = choose|j: int| 0 <= j < i && members@[j] == x;
                assert(members@.contains(x));
            }
        }
        assert forall|y: u64, a: u64| #[trigger]
            lists(changed@, y, a) <==> lists(was, y, a) || (a == k && old(world).anchors.lists(
                k,
                y,
            )) by {
            if members@.contains(y) {
                let j = choose|j: int| 0 <= j < members@.len() && members@[j] == y;
                assert(0 <= j < i && members@[j] == y);
            }
            if exists|j: int| 0 <= j < i && members@[j] == y {
                let j = choose|j: int| 0 <= j < i && members@[j] == y;
                assert(members@.contains(y));
            }
        }
        assert forall|y: u64| #[trigger]
            changed@.dom().contains(y) <==> was.dom().contains(y) || old(world).anchors.lists(
                k,
                y,
            ) by {
            if members@.contains(y) {
                let j = choose|j: int| 0 <= j < members@.len() && members@[j] == y;
                assert(0 <= j < i && members@[j] == y);
            }
            if exists|j: int| 0 <= j < i && members@[j] == y {
                let j = choose|j: int| 0 <= j < i && members@[j] == y;
                assert(members@.contains(y));
            }
        }
        lemma_head_stripped_wf(old(world), world, was, changed@);
    }
}

/// The anchors among the first `upto` of the queue that list the part `x`.
pub open spec fn lost_upto(world: &World, x: u64, upto: int) -> Set<u64> {
    Set::new(
        |k: u64|
            world.anchors.lists(k, x) && exists|j: int|
                0 <= j < upto && j < world.anchors.delete_queue@.len()
                    && world.anchors.delete_queue@[j] == k,
    )
}

/// The queued anchors that list the part `x`.
pub open spec fn lost_by(world: &World, x: u64) -> Set<u64> {
    lost_upto(world, x, world.anchors.delete_queue@.len() as int)
}

/// What telling the dependents of the first `upto` anchors of the queue
/// does: those anchors leave the queue and the anchor table; each part
/// that one of them listed is held by none of them any more, and `changed`
/// notes for each such part the anchors that it lost. Everything else
/// stays.
pub open spec fn queue_stripped(
    before: &World,
    after: &World,
    changed: Map<u64, Set<u64>>,
    upto: int,
) -> bool {
    &&& after.entities@.len() == before.entities@.len()
    &&& after.anchors.delete_queue@ == before.anchors.delete_queue@.skip(upto)
    &&& forall|k: u64|
        #![trigger after.anchors.anchors@.dom().contains(k)]
        after.anchors.anchors@.dom().contains(k) <==> before.anchors.anchors@.dom().contains(k)
            && !(exists|j: int| 0 <= j < upto && before.anchors.delete_queue@[j] == k)
    &&& forall|k: u64| #[trigger]
        after.anchors.anchors@.dom().contains(k) ==> after.anchors.anchors@[k]
            == before.anchors.anchors@[k]
    &&& forall|x: u64|
        x < before.entities@.len() ==> if lost_upto(before, x, upto).len() > 0 {
            after.is_part(x) && stripped(before.part(x), after.part(x), lost_upto(before, x, upto))
        } else {
            #[trigger] after.entities@[x as int] == before.entities@[x as int]
        }
    &&& forall|y: u64, a: u64| #[trigger]
        lists(changed, y, a) <==> lost_upto(before, y, upto).contains(a)
    &&& forall|y: u64| #[trigger] changed.dom().contains(y) ==> changed[y].finite()
    &&& forall|y: u64| #[trigger]
        changed.dom().contains(y) ==> exists|a: u64| lost_upto(before, y, upto).contains(a)
    &&& after.physics == before.physics
    &&& after.freed == before.freed
    &&& after.untagged == before.untagged
}

/// The anchors that a part has lost are finitely many.
proof fn lemma_lost_finite(world: &World, x: u64, upto: int)
    requires
        world.wf(),
    ensures
        lost_upto(world, x, upto).finite(),
        lost_upto(world, x, upto).len() > 0
            <==> exists|k: u64| lost_upto(world, x, upto).contains(k),
{
    let lost = lost_upto(world, x, upto);
    if exists|k: u64| world.anchors.lists(k, x) {
        let k = choose|k: u64| world.anchors.lists(k, x);
        assert(world.is_part(x));
        assert(world.part_wf(x));
        assert(lost.subset_of(world.part(x).anchor_set()));
        vstd::set_lib::lemma_len_subset(lost, world.part(x).anchor_set());
    } else {
        assert(lost =~= Set::<u64>::empty());
    }
    if lost.len() > 0 {
        assert(lost.contains(lost.choose())) by {
            if !lost.contains(lost.choose()) {
                assert(lost =~= Set::<u64>::empty()) by {
                    assert forall|y: u64| !lost.contains(y) by {
                        if lost.contains(y) {
                            assert(lost.contains(lost.choose()));
                        }
                    }
                }
            }
        }
    }
    if exists|k: u64| lost.contains(k) {
        if lost.len() == 0 {
            lost.lemma_len0_is_empty();
        }
    }
}

/// Telling the dependents of one more anchor carries the stripping on.
proof fn lemma_strip_step(
    before: &World,
    mid: &World,
    after: &World,
    was: Map<u64, Set<u64>>,
    now: Map<u64, Set<u64>>,
    r: int,
)
    requires
        before.wf(),
        mid.wf(),
        0 <= r < before.anchors.delete_queue@.len(),
        queue_stripped(before, mid, was, r),
        head_stripped(mid, after, was, now),
    ensures
        queue_stripped(before, after, now, r + 1),
{
    let up = r + 1;
    let k = before.anchors.delete_queue@[r];
    let queue = before.anchors.delete_queue@;
    assert(mid.anchors.delete_queue@[0] == k);
    assert(after.anchors.delete_queue@ =~= queue.skip(up));
    assert(mid.anchors.anchors@.dom().contains(k)) by {
        assert(before.anchors.anchors@.dom().contains(queue[r]));
        if exists|j: int| 0 <= j < r && queue[j] == k {
            let j = choose|j: int| 0 <= j < r && queue[j] == k;
            assert(queue[j] != queue[r]);
        }
    }
    assert forall|x: u64| mid.anchors.lists(k, x) <==> before.anchors.lists(k, x) by {
    }
    assert forall|a: u64|
        #![trigger after.anchors.anchors@.dom().contains(a)]
        after.anchors.anchors@.dom().contains(a) <==> before.anchors.anchors@.dom().contains(a)
            && !(exists|j: int| 0 <= j < up && queue[j] == a) by {
        if exists|j: int| 0 <= j < r && queue[j] == a {
            let j = choose|j: int| 0 <= j < r && queue[j] == a;
            assert(0 <= j < up && queue[j] == a);
        }
        if exists|j: int| 0 <= j < up && queue[j] == a {
            let j = choose|j: int| 0 <= j < up && queue[j] == a;
            if j < r {
            } else {
                assert(a == k);
            }
        }
        if a == k {
            assert(0 <= r < up && queue[r] == a);
        }
    }
    assert forall|x: u64|
        #![trigger lost_upto(before, x, up)]
        lost_upto(before, x, up) == if before.anchors.lists(k, x) {
            lost_upto(before, x, r).insert(k)
        } else {
            lost_upto(before, x, r)
        } by {
        let big = lost_upto(before, x, up);
        let small = lost_upto(before, x, r);
        assert forall|a: u64| big.contains(a) <==> small.contains(a) || (a == k
            && before.anchors.lists(k, x)) by {
            if small.contains(a) {
                let j = choose|j: int| 0 <= j < r && j < queue.len() && queue[j] == a;
                assert(0 <= j < up && j < queue.len() && queue[j] == a);
            }
            if big.contains(a) {
                let j = choose|j: int| 0 <= j < up && j < queue.len() && queue[j] == a;
                if j < r {
                } else {
                    assert(a == k);
                }
            }
            if a == k && before.anchors.lists(k, x) {
                assert(0 <= r < up && r < queue.len() && queue[r] == a);
            }
        }
        if before.anchors.lists(k, x) {
            assert(big =~= small.insert(k));
        } else {
            assert(big =~= small);
        }
    }
    assert forall|x: u64| x < before.entities@.len() implies if lost_upto(before, x, up).len()
        > 0 {
        after.is_part(x) && stripped(before.part(x), after.part(x), lost_upto(before, x, up))
    } else {
        #[trigger] after.entities@[x as int] == before.entities@[x as int]
    } by {
        lemma_lost_finite(before, x, r);
        lemma_lost_finite(before, x, up);
        let small = lost_upto(before, x, r);
        let big = lost_upto(before, x, up);
        assert(big == if before.anchors.lists(k, x) {
            small.insert(k)
        } else {
            small
        });
        if before.anchors.lists(k, x) {
            assert(big.contains(k));
            assert(mid.anchors.lists(k, x));
            assert(before.is_part(x));
            assert(after.is_part(x) && stripped(mid.part(x), after.part(x), set![k]));
            if small.len() > 0 {
                assert(stripped(before.part(x), mid.part(x), small));
                assert(after.part(x).anchor_set() =~= before.part(x).anchor_set().difference(big));
            } else {
                assert(mid.entities@[x as int] == before.entities@[x as int]);
                assert(small =~= Set::<u64>::empty()) by {
                    small.lemma_len0_is_empty();
                }
                assert(after.part(x).anchor_set() =~= before.part(x).anchor_set().difference(big));
            }
        } else {
            assert(after.entities@[x as int] == mid.entities@[x as int]);
        }
    }
    assert forall|y: u64, a: u64| #[trigger]
        lists(now, y, a) <==> lost_upto(before, y, up).contains(a) by {
        assert(lists(was, y, a) <==> lost_upto(before, y, r).contains(a));
        assert(lost_upto(before, y, up) == if before.anchors.lists(k, y) {
            lost_upto(before, y, r).insert(k)
        } else {
            lost_upto(before, y, r)
        });
        assert(mid.anchors.lists(k, y) <==> before.anchors.lists(k, y));
    }
    assert forall|a: u64| #[trigger]
        after.anchors.anchors@.dom().contains(a) implies after.anchors.anchors@[a]
        == before.anchors.anchors@[a] by {
        assert(mid.anchors.anchors@.dom().contains(a));
    }
    assert forall|y: u64| #[trigger] now.dom().contains(y) implies exists|a: u64|
        lost_upto(before, y, up).contains(a) by {
        assert(lost_upto(before, y, up) == if before.anchors.lists(k, y) {
            lost_upto(before, y, r).insert(k)
        } else {
            lost_upto(before, y, r)
        });
        if was.dom().contains(y) {
            let a = choose|a: u64| lost_upto(before, y, r).contains(a);
            assert(lost_upto(before, y, up).contains(a));
        } else {
            assert(mid.anchors.lists(k, y));
            assert(lost_upto(before, y, up).contains(k));
        }
    }
}

/// Tells the dependents of every queued anchor that the anchor is gone.
/// Returns for each part that has lost anchors the anchors that it lost.
fn strip_queue(world: &mut World) -> (changed: IdTable)
    requires
        old(world).wf(),
    ensures
        final(world).wf(),
        queue_stripped(
            old(world),
            final(world),
            changed@,
            old(world).anchors.delete_queue@.len() as int,
        ),
{
    let mut changed: IdTable = IdTable::new();
    let ghost mut r: int = 0;
    proof {
        assert(world.anchors.delete_queue@.skip(0) =~= world.anchors.delete_queue@);
        assert forall|x: u64| lost_upto(old(world), x, 0) =~= Set::<u64>::empty() by {
        }
        assert forall|x: u64| x < old(world).entities@.len() implies lost_upto(
            old(world),
            x,
            0,
        ).len() == 0 by {
            assert(lost_upto(old(world), x, 0) =~= Set::<u64>::empty());
        }
        assert forall|y: u64, a: u64| #[trigger]
            lists(changed@, y, a) <==> lost_upto(old(world), y, 0).contains(a) by {
        }
    }
    while world.anchors.delete_queue.len() > 0
        invariant
            old(world).wf(),
            world.wf(),
            0 <= r <= old(world).anchors.delete_queue@.len(),
            world.anchors.delete_queue@.len() == old(world).anchors.delete_queue@.len() - r,
            queue_stripped(old(world), world, changed@, r),
        decreases world.anchors.delete_queue@.len(),
    {
        let ghost mid = *world;
        let ghost was = changed@;
        strip_next(world, &mut changed);
        proof {
            lemma_strip_step(old(world), &mid, world, was, changed@, r);
            r = r + 1;
        }
    }
    changed
}

/// No anchor holds the part.
pub open spec fn let_go(world: &World, x: u64) -> bool {
    world.is_part(x) && world.part(x).anchored is None
}

/// What releasing the part `x`, which no anchor holds any more, does: if
/// it is on its own, its body becomes dynamic; if it is the child of a
/// model, the model loses the anchors in `lost`. Everything else stays.
pub open spec fn part_released(before: &World, after: &World, x: u64, lost: Set<u64>) -> bool {
    let p = before.part(x);
    &&& after.entities@.len() == before.entities@.len()
    &&& after.entities@[x as int] == Entry::Part(PartEntry { anchored: None, ..p })
    &&& forall|e: u64|
        e < before.entities@.len() && e != x && p.child_of != Some(e)
            ==> #[trigger] after.entities@[e as int]
            == before.entities@[e as int]
    &&& p.child_of matches Some(m) ==> {
        &&& after.is_model(m)
        &&& after.model(m).model.graph == before.model(m).model.graph
        &&& after.model(m).model.dirty == before.model(m).model.dirty
        &&& after.model(m).model.anchors@ == before.model(m).model.anchors@.difference(lost)
        &&& after.model(m).children == before.model(m).children
        &&& after.model(m).body == before.model(m).body
        &&& after.model(m).velocity_of == before.model(m).velocity_of
    }
    &&& after.physics.colliders@ == before.physics.colliders@
    &&& after.physics.rigid_bodies@ == if p.child_of is None && p.body is Some
        && before.physics.body(p.body->0) is Some {
        before.physics.rigid_bodies@.update(
            (p.body->0).0 as int,
            Some(
                RigidBody {
                    body_type: RigidBodyType::Dynamic,
                    ..before.physics.body(p.body->0)->0
                },
            ),
        )
    } else {
        before.physics.rigid_bodies@
    }
    &&& after.anchors == before.anchors
    &&& after.freed == before.freed
    &&& after.untagged == before.untagged
}

/// Releasing a part that no anchor holds leaves a sound world sound.
proof fn lemma_part_released_wf(before: &World, after: &World, x: u64, lost: Set<u64>)
    requires
        before.wf(),
        let_go(before, x),
        part_released(before, after, x, lost),
    ensures
        after.wf(),
{
    let p = before.part(x);
    assert(before.part_wf(x));
    assert forall|m: u64| #[trigger] after.is_model(m) implies after.model_wf(m) && (after.model(
        m,
    ).body matches Some(h) ==> after.physics.body(h) matches Some(b) && b.user_data == m) by {
        assert(before.is_model(m));
        assert(before.model_wf(m));
        assert forall|c: u64| #[trigger]
            after.model(m).model.graph.nodes().contains(c) implies after.is_child(c, m) by {
            assert(before.is_child(c, m));
            if c != x {
                assert(after.entities@[c as int] == before.entities@[c as int]);
            }
        }
        if before.model(m).body is Some {
            let h = before.model(m).body->0;
            assert(before.physics.body(h) is Some);
            if p.body is Some {
                assert(before.physics.body(p.body->0) is Some);
            }
        }
    }
    assert forall|e: u64| #[trigger] after.is_part(e) implies after.part_wf(e) by {
        assert(before.is_part(e));
        assert(before.part_wf(e));
        if e != x {
            assert(after.entities@[e as int] == before.entities@[e as int]);
        }
        let q = before.part(e);
        if q.child_of is Some {
            assert(before.is_model(q.child_of->0));
        }
        if q.body is Some {
            assert(before.physics.body(q.body->0) is Some);
            if p.body is Some {
                assert(before.physics.body(p.body->0) is Some);
            }
        }
        if q.shape is Some {
            assert(before.physics.collider(q.shape->0) == after.physics.collider(q.shape->0));
        }
    }
    assert forall|k: u64, e: u64| #[trigger] after.anchors.lists(k, e) implies after.is_part(e)
        && after.part(e).anchor_set().contains(k) by {
        assert(before.anchors.lists(k, e));
        assert(before.is_part(e));
        assert(before.part(e).anchor_set().contains(k));
        assert(e != x);
        assert(after.entities@[e as int] == before.entities@[e as int]);
    }
    assert forall|i: int| 0 <= i < after.anchors.delete_queue@.len() implies !after.is_part(
        #[trigger] after.anchors.delete_queue@[i],
    ) by {
        let q = before.anchors.delete_queue@[i];
        assert(!before.is_part(q));
        if p.child_of == Some(q) {
            assert(after.is_model(q));
        } else {
            assert(after.entities@[q as int] == before.entities@[q as int]);
        }
    }
}

/// Releases the part `x`, which no anchor holds any more.
fn release_part(world: &mut World, x: u64, lost: &Vec<u64>)
    requires
        old(world).wf(),
        let_go(old(world), x),
    ensures
        final(world).wf(),
        part_released(old(world), final(world), x, lost@.to_set()),
{
    proof {
        assert(old(world).part_wf(x));
    }
    let at = world.slot(x);
    let entry = world.take(at);
    let mut parent: Option<u64> = None;
    let mut own_body: Option<BodyHandle> = None;
    match entry {
        Entry::Part(part) => {
            let PartEntry { part, studs, anchor, anchored, child_of, shape, body } = part;
            parent = child_of;
            own_body = body;
            world.put(
                at,
                Entry::Part(PartEntry { part,
                    studs, anchor, anchored: None, child_of, shape, body }),
            );
        },
        other => {
            world.put(at, other);
        },
    }
    match parent {
        None => {
            match own_body {
                Some(h) => {
                    world.physics.set_body_type(h, RigidBodyType::Dynamic);
                },
                None => {},
            }
        },
        Some(parent_id) => {
            let slot = world.slot(parent_id);
            let parent_entry = world.take(slot);
            match parent_entry {
                Entry::Model(model_entry) => {
                    let ModelEntry { model, children, body, velocity_of } = model_entry;
                    let Model { graph, anchors, dirty } = model;
                    let mut anchors = anchors;
                    crate::sets::subtract_from(&mut anchors, lost);
                    world.put(
                        slot,
                        Entry::Model(
                            ModelEntry {
                                model: Model { graph, anchors, dirty },
                                children,
                                body,
                                velocity_of,
                            },
                        ),
                    );
                },
                other => {
                    world.put(slot, other);
                },
            }
        },
    }
    proof {
        lemma_part_released_wf(old(world), world, x, lost@.to_set());
    }
}

/// The anchors that the model `m` loses because children in `done` were
/// let go.
pub open spec fn gone_of(
    mid: &World,
    changed: Map<u64, Set<u64>>,
    done: Set<u64>,
    m: u64,
) -> Set<u64> {
    Set::new(
        |k: u64|
            exists|x: u64|
                done.contains(x) && let_go(mid, x) && mid.part(x).child_of == Some(m)
                    && #[trigger] lists(
                    changed,
                    x,
                    k,
                ),
    )
}

/// The body `h` belongs to a part in `done` that stands on its own and was
/// let go.
pub open spec fn freed_body(mid: &World, done: Set<u64>, h: BodyHandle) -> bool {
    exists|x: u64|
        done.contains(x) && #[trigger] let_go(mid, x) && mid.part(x).child_of is None && mid.part(
            x,
        ).body == Some(h)
}

/// A body as it is once its part was let go: dynamic.
pub open spec fn loosened(body: Option<RigidBody>, loose: bool) -> Option<RigidBody> {
    match body {
        Some(b) => if loose {
            Some(RigidBody { body_type: RigidBodyType::Dynamic, ..b })
        } else {
            Some(b)
        },
        None => None,
    }
}

/// What releasing has done once the parts in `done` have been looked at.
pub open spec fn settled_on(
    mid: &World,
    after: &World,
    changed: Map<u64, Set<u64>>,
    done: Set<u64>,
) -> bool {
    &&& after.entities@.len() == mid.entities@.len()
    &&& forall|x: u64| #[trigger]
        mid.is_part(x) ==> after.entities@[x as int] == if done.contains(x) && let_go(mid, x) {
            Entry::Part(PartEntry { anchored: None, ..mid.part(x) })
        } else {
            mid.entities@[x as int]
        }
    &&& forall|m: u64| #[trigger]
        mid.is_model(m) ==> {
            &&& after.is_model(m)
            &&& after.model(m).model.graph == mid.model(m).model.graph
            &&& after.model(m).model.dirty == mid.model(m).model.dirty
            &&& after.model(m).model.anchors@ == mid.model(m).model.anchors@.difference(
                gone_of(mid, changed, done, m),
            )
            &&& after.model(m).children == mid.model(m).children
            &&& after.model(m).body == mid.model(m).body
            &&& after.model(m).velocity_of == mid.model(m).velocity_of
        }
    &&& forall|e: u64|
        e < mid.entities@.len() && #[trigger] mid.entities@[e as int] is Vacant
            ==> after.entities@[e as int] is Vacant
    &&& after.physics.colliders@ == mid.physics.colliders@
    &&& after.physics.rigid_bodies@.len() == mid.physics.rigid_bodies@.len()
    &&& forall|h: BodyHandle| #[trigger]
        after.physics.body(h) == loosened(mid.physics.body(h), freed_body(mid, done, h))
    &&& after.anchors == mid.anchors
    &&& after.freed == mid.freed
    &&& after.untagged == mid.untagged
}

/// What looking at the part `x` does: if no anchor holds it any more it is
/// released, and otherwise nothing happens.
spec fn looked_at(w: &World, next: &World, x: u64, lost: Set<u64>) -> bool {
    if let_go(w, x) {
        part_released(w, next, x, lost)
    } else {
        next == w
    }
}

proof fn lemma_settle_parts(
    mid: &World,
    w: &World,
    next: &World,
    changed: Map<u64, Set<u64>>,
    done: Set<u64>,
    x: u64,
    e: u64,
)
    requires
        mid.wf(),
        w.wf(),
        settled_on(mid, w, changed, done),
        !done.contains(x),
        mid.is_part(x),
        changed.dom().contains(x),
        looked_at(w, next, x, changed[x]),
        mid.is_part(e),
    ensures
        next.entities@[e as int] == if done.insert(x).contains(e) && let_go(mid, e) {
            Entry::Part(PartEntry { anchored: None, ..mid.part(e) })
        } else {
            mid.entities@[e as int]
        },
        let_go(w, x) == let_go(mid, x),
{
    assert(w.entities@[x as int] == mid.entities@[x as int]);
    if let_go(w, x) {
        if e != x {
            assert(w.part(x).child_of != Some(e)) by {
                if w.part(x).child_of == Some(e) {
                    assert(w.part_wf(x));
                    assert(w.is_model(e));
                }
            }
            assert(next.entities@[e as int] == w.entities@[e as int]);
        }
    }
}

proof fn lemma_settle_models(
    mid: &World,
    w: &World,
    next: &World,
    changed: Map<u64, Set<u64>>,
    done: Set<u64>,
    x: u64,
    m: u64,
)
    requires
        mid.wf(),
        w.wf(),
        settled_on(mid, w, changed, done),
        !done.contains(x),
        mid.is_part(x),
        changed.dom().contains(x),
        looked_at(w, next, x, changed[x]),
        mid.is_model(m),
    ensures
        next.is_model(m),
        next.model(m).model.graph == mid.model(m).model.graph,
        next.model(m).model.dirty == mid.model(m).model.dirty,
        next.model(m).model.anchors@ == mid.model(m).model.anchors@.difference(
            gone_of(mid, changed, done.insert(x), m),
        ),
        next.model(m).children == mid.model(m).children,
        next.model(m).body == mid.model(m).body,
        next.model(m).velocity_of == mid.model(m).velocity_of,
{
    assert(w.entities@[x as int] == mid.entities@[x as int]);
    let small = gone_of(mid, changed, done, m);
    let big = gone_of(mid, changed, done.insert(x), m);
    let hit = let_go(mid, x) && mid.part(x).child_of == Some(m);
    assert forall|k: u64| big.contains(k) <==> small.contains(k) || (hit
        && lists(changed, x, k)) by {
        if small.contains(k) {
            let y = choose|y: u64|
                done.contains(y) && let_go(mid, y) && mid.part(y).child_of == Some(m)
                    && #[trigger] lists(
                    changed,
                    y,
                    k,
                );
            assert(done.insert(x).contains(y) && let_go(mid, y) && mid.part(y).child_of == Some(m)
                && lists(changed, y, k));
        }
        if big.contains(k) {
            let y = choose|y: u64|
                done.insert(x).contains(y) && let_go(mid, y) && mid.part(y).child_of == Some(m)
                    && #[trigger] lists(changed, y, k);
            if y != x {
                assert(done.contains(y) && let_go(mid, y) && mid.part(y).child_of == Some(m)
                    && lists(changed, y, k));
            }
        }
        if hit && lists(changed, x, k) {
            assert(done.insert(x).contains(x) && let_go(mid, x) && mid.part(x).child_of == Some(m)
                && lists(changed, x, k));
        }
    }
    if hit {
        assert(big =~= small.union(changed[x]));
        assert(next.model(m).model.anchors@ =~= mid.model(m).model.anchors@.difference(big));
    } else {
        assert(big =~= small);
        if let_go(w, x) {
            assert(next.entities@[m as int] == w.entities@[m as int]);
        }
    }
}

proof fn lemma_settle_bodies(
    mid: &World,
    w: &World,
    next: &World,
    changed: Map<u64, Set<u64>>,
    done: Set<u64>,
    x: u64,
    h: BodyHandle,
)
    requires
        mid.wf(),
        w.wf(),
        settled_on(mid, w, changed, done),
        !done.contains(x),
        mid.is_part(x),
        changed.dom().contains(x),
        looked_at(w, next, x, changed[x]),
    ensures
        next.physics.body(h) == loosened(mid.physics.body(h), freed_body(mid, done.insert(x), h)),
        next.physics.rigid_bodies@.len() == mid.physics.rigid_bodies@.len(),
        next.physics.colliders@ == mid.physics.colliders@,
{
    assert(w.entities@[x as int] == mid.entities@[x as int]);
    assert(mid.part_wf(x));
    let hit = let_go(mid, x) && mid.part(x).child_of is None && mid.part(x).body == Some(h);
    assert(freed_body(mid, done.insert(x), h) <==> freed_body(mid, done, h) || hit) by {
        if freed_body(mid, done, h) {
            let y = choose|y: u64|
                done.contains(y) && #[trigger] let_go(mid, y) && mid.part(y).child_of is None
                    && mid.part(y).body == Some(h);
            assert(done.insert(x).contains(y) && let_go(mid, y) && mid.part(y).child_of is None
                && mid.part(y).body == Some(h));
        }
        if freed_body(mid, done.insert(x), h) {
            let y = choose|y: u64|
                done.insert(x).contains(y) && #[trigger] let_go(mid, y)
                    && mid.part(y).child_of is None
                    && mid.part(y).body == Some(h);
            if y != x {
                assert(done.contains(y) && let_go(mid, y) && mid.part(y).child_of is None
                    && mid.part(y).body == Some(h));
            }
        }
        if hit {
            assert(done.insert(x).contains(x) && let_go(mid, x));
        }
    }
    assert(w.physics.body(h) == loosened(mid.physics.body(h), freed_body(mid, done, h)));
    if let_go(mid, x) {
        let p = mid.part(x);
        if p.child_of is None && p.body is Some {
            let hx = p.body->0;
            assert(mid.physics.body(hx) is Some);
            assert(w.physics.body(hx) == loosened(
                mid.physics.body(hx),
                freed_body(mid, done, hx),
            ));
        }
    }
}

/// Looking at one more part carries the releasing on.
proof fn lemma_settle_step(
    mid: &World,
    w: &World,
    next: &World,
    changed: Map<u64, Set<u64>>,
    done: Set<u64>,
    x: u64,
)
    requires
        mid.wf(),
        w.wf(),
        settled_on(mid, w, changed, done),
        !done.contains(x),
        mid.is_part(x),
        changed.dom().contains(x),
        looked_at(w, next, x, changed[x]),
    ensures
        settled_on(mid, next, changed, done.insert(x)),
{
    assert(w.entities@[x as int] == mid.entities@[x as int]);
    assert forall|e: u64| #[trigger] mid.is_part(e) implies next.entities@[e as int]
        == if done.insert(x).contains(e) && let_go(mid, e) {
        Entry::Part(PartEntry { anchored: None, ..mid.part(e) })
    } else {
        mid.entities@[e as int]
    } by {
        lemma_settle_parts(mid, w, next, changed, done, x, e);
    }
    assert forall|m: u64| #[trigger] mid.is_model(m) implies {
        &&& next.is_model(m)
        &&& next.model(m).model.graph == mid.model(m).model.graph
        &&& next.model(m).model.dirty == mid.model(m).model.dirty
        &&& next.model(m).model.anchors@ == mid.model(m).model.anchors@.difference(
            gone_of(mid, changed, done.insert(x), m),
        )
        &&& next.model(m).children == mid.model(m).children
        &&& next.model(m).body == mid.model(m).body
        &&& next.model(m).velocity_of == mid.model(m).velocity_of
    } by {
        lemma_settle_models(mid, w, next, changed, done, x, m);
    }
    assert forall|e: u64|
        e < mid.entities@.len() && #[trigger] mid.entities@[e as int] is Vacant
            implies next.entities@[e as int] is Vacant by {
        assert(w.entities@[e as int] is Vacant);
        if let_go(w, x) {
            assert(w.part_wf(x));
            assert(next.entities@[e as int] == w.entities@[e as int]);
        }
    }
    assert forall|h: BodyHandle| #[trigger]
        next.physics.body(h)
            == loosened(mid.physics.body(h), freed_body(mid, done.insert(x), h)) by {
        lemma_settle_bodies(mid, w, next, changed, done, x, h);
    }
    lemma_settle_bodies(mid, w, next, changed, done, x, BodyHandle(0));
}

/// Releases every part that has lost anchors and is held by none any more.
fn settle_released(world: &mut World, changed: &IdTable)
    requires
        old(world).wf(),
        forall|x: u64| #[trigger] changed@.dom().contains(x) ==> old(world).is_part(x),
    ensures
        final(world).wf(),
        settled_on(old(world), final(world), changed@, changed@.dom()),
{
    let keys = map_keys(changed);
    let ghost mut done: Set<u64> = Set::empty();
    let mut i: usize = 0;
    proof {
        assert forall|m: u64| gone_of(old(world), changed@, done, m) =~= Set::<u64>::empty() by {
        }
        assert forall|m: u64| #[trigger] old(world).is_model(m)
            implies world.model(m).model.anchors@
            == old(world).model(m).model.anchors@.difference(
            gone_of(old(world), changed@, done, m),
        ) by {
            assert(gone_of(old(world), changed@, done, m) =~= Set::<u64>::empty());
            assert(world.model(m).model.anchors@ =~= old(world).model(m).model.anchors@.difference(
                Set::<u64>::empty(),
            ));
        }
        assert forall|h: BodyHandle| #[trigger]
            world.physics.body(h) == loosened(
                old(world).physics.body(h),
                freed_body(old(world), done, h),
            ) by {
            assert(!freed_body(old(world), done, h));
        }
    }
    while i < keys.len()
        invariant
            i <= keys@.len(),
            keys@.no_duplicates(),
            keys@.to_set() == changed@.dom(),
            old(world).wf(),
            world.wf(),
            forall|x: u64| #[trigger] changed@.dom().contains(x) ==> old(world).is_part(x),
            forall|x: u64| done.contains(x) <==> exists|j: int| 0 <= j < i && keys@[j] == x,
            settled_on(old(world), world, changed@, done),
        decreases keys@.len() - i,
    {
        let x = keys[i];
        let ghost w = *world;
        proof {
            assert(keys@.to_set().contains(keys@[i as int]));
            assert(changed@.dom().contains(x));
            assert(old(world).is_part(x));
            assert(!done.contains(x)) by {
                if done.contains(x) {
                    let j = choose|j: int| 0 <= j < i && keys@[j] == x;
                }
            }
            assert(w.entities@[x as int] == old(world).entities@[x as int]);
        }
        let at = world.slot(x);
        let empty = match &world.entities[at] {
            Entry::Part(p) => p.anchored.is_none(),
            _ => false,
        };
        proof {
            assert(empty == let_go(&w, x));
        }
        if empty {
            let lost = changed.members(x);
            release_part(world, x, &lost);
        }
        proof {
            lemma_settle_step(old(world), &w, world, changed@, done, x);
            let next = done.insert(x);
            assert forall|y: u64| next.contains(y) <==> exists|j: int|
                0 <= j < i + 1 && keys@[j] == y by {
                if done.contains(y) {
                    let j = choose|j: int| 0 <= j < i && keys@[j] == y;
                    assert(0 <= j < i + 1 && keys@[j] == y);
                }
                if y == x {
                    assert(keys@[i as int] == y);
                }
                if exists|j: int| 0 <= j < i + 1 && keys@[j] == y {
                    let j = choose|j: int| 0 <= j < i + 1 && keys@[j] == y;
                    if j < i {
                    }
                }
            }
            done = next;
        }
        i = i + 1;
    }
    proof {
        assert(done =~= changed@.dom()) by {
            assert forall|y: u64| done.contains(y) <==> changed@.dom().contains(y) by {
                if changed@.dom().contains(y) {
                    assert(keys@.to_set().contains(y));
                    let j = choose|j: int| 0 <= j < keys@.len() && keys@[j] == y;
                    assert(0 <= j < i && keys@[j] == y);
                }
                if done.contains(y) {
                    let j = choose|j: int| 0 <= j < i && keys@[j] == y;
                    assert(keys@.to_set().contains(keys@[j]));
                }
            }
        }
    }
}

/// The part `x` is released by the drain: queued anchors list it, and no
/// other anchor holds it.
pub open spec fn released(world: &World, x: u64) -> bool {
    world.is_part(x) && lost_by(world, x).len() > 0 && world.part(x).anchor_set().subset_of(
        lost_by(world, x),
    )
}

/// The anchors that the model `m` loses in the drain: those that its
/// released children lose.
pub open spec fn anchors_lost_by_model(world: &World, m: u64) -> Set<u64> {
    Set::new(
        |k: u64|
            exists|x: u64| #[trigger]
                released(world, x) && world.part(x).child_of == Some(m) && lost_by(
                    world,
                    x,
                ).contains(k),
    )
}

/// The body `h` belongs to a part that stands on its own and is released
/// by the drain.
pub open spec fn body_let_loose(world: &World, h: BodyHandle) -> bool {
    exists|x: u64| #[trigger]
        released(world, x) && world.part(x).child_of is None && world.part(x).body == Some(h)
}

/// What draining the queue of anchors does. Every queued anchor leaves the
/// queue and the anchor table. A part is held no more by the queued
/// anchors that listed it; if none holds it any more, it is released: it
/// loses the component that names its anchors, and if it stands on its own
/// its body becomes dynamic. A model loses the anchors that its released
/// children have lost. Everything else stays.
pub open spec fn drained(before: &World, after: &World) -> bool {
    &&& after.entities@.len() == before.entities@.len()
    &&& after.anchors.delete_queue@.len() == 0
    &&& forall|k: u64|
        #![trigger after.anchors.anchors@.dom().contains(k)]
        after.anchors.anchors@.dom().contains(k) <==> before.anchors.anchors@.dom().contains(k)
            && !before.anchors.delete_queue@.contains(k)
    &&& forall|k: u64| #[trigger]
        after.anchors.anchors@.dom().contains(k) ==> after.anchors.anchors@[k]
            == before.anchors.anchors@[k]
    &&& forall|x: u64| #[trigger]
        before.is_part(x) ==> {
            &&& after.is_part(x)
            &&& same_but_anchored(before.part(x), after.part(x))
            &&& after.part(x).anchor_set() == before.part(x).anchor_set().difference(
                lost_by(before, x),
            )
            &&& after.part(x).anchored is Some <==> before.part(x).anchored is Some && !released(
                before,
                x,
            )
        }
    &&& forall|m: u64| #[trigger]
        before.is_model(m) ==> {
            &&& after.is_model(m)
            &&& after.model(m).model.graph == before.model(m).model.graph
            &&& after.model(m).model.dirty == before.model(m).model.dirty
            &&& after.model(m).model.anchors@ == before.model(m).model.anchors@.difference(
                anchors_lost_by_model(before, m),
            )
            &&& after.model(m).children == before.model(m).children
            &&& after.model(m).body == before.model(m).body
            &&& after.model(m).velocity_of == before.model(m).velocity_of
        }
    &&& forall|e: u64|
        e < before.entities@.len() && #[trigger] before.entities@[e as int] is Vacant
            ==> after.entities@[e as int] is Vacant
    &&& after.physics.colliders@ == before.physics.colliders@
    &&& after.physics.rigid_bodies@.len() == before.physics.rigid_bodies@.len()
    &&& forall|h: BodyHandle| #[trigger]
        after.physics.body(h) == loosened(before.physics.body(h), body_let_loose(before, h))
    &&& after.freed == before.freed
    &&& after.untagged == before.untagged
}

/// The two phases of the drain, seen from before.
spec fn two_phases(
    before: &World,
    mid: &World,
    after: &World,
    changed: Map<u64, Set<u64>>,
) -> bool {
    &&& before.wf()
    &&& mid.wf()
    &&& queue_stripped(before, mid, changed, before.anchors.delete_queue@.len() as int)
    &&& settled_on(mid, after, changed, changed.dom())
}

proof fn lemma_phase_part(
    before: &World,
    mid: &World,
    after: &World,
    changed: Map<u64, Set<u64>>,
    x: u64,
)
    requires
        two_phases(before, mid, after, changed),
        before.is_part(x),
    ensures
        mid.is_part(x),
        same_but_anchored(before.part(x), mid.part(x)),
        mid.part(x).child_of == before.part(x).child_of,
        mid.part(x).body == before.part(x).body,
        changed.dom().contains(x) <==> lost_by(before, x).len() > 0,
        forall|k: u64| lists(changed, x, k) <==> lost_by(before, x).contains(k),
        changed.dom().contains(x) && let_go(mid, x) <==> released(before, x),
        mid.part(x).anchor_set() == before.part(x).anchor_set().difference(lost_by(before, x)),
        mid.part(x).anchored is Some <==> before.part(x).anchored is Some && !released(before, x),
{
    let n = before.anchors.delete_queue@.len() as int;
    let lost = lost_by(before, x);
    lemma_lost_finite(before, x, n);
    assert(before.part_wf(x));
    if lost.len() > 0 {
        let k = choose|k: u64| lost.contains(k);
        assert(lists(changed, x, k));
        assert(before.anchors.lists(k, x));
        assert(before.part(x).anchor_set().contains(k));
        assert(mid.part(x).anchor_set() =~= Set::<u64>::empty()
            <==> before.part(x).anchor_set().subset_of(
            lost,
        )) by {
            if before.part(x).anchor_set().subset_of(lost) {
                assert(before.part(x).anchor_set().difference(lost) =~= Set::<u64>::empty());
            }
            if mid.part(x).anchor_set() =~= Set::<u64>::empty() {
                assert forall|a: u64| before.part(x).anchor_set().contains(a) implies lost.contains(
                    a,
                ) by {
                    if !lost.contains(a) {
                        assert(before.part(x).anchor_set().difference(lost).contains(a));
                    }
                }
            }
        }
        if mid.part(x).anchor_set().len() == 0 {
            mid.part(x).anchor_set().lemma_len0_is_empty();
        }
    } else {
        assert(mid.entities@[x as int] == before.entities@[x as int]);
        assert(lost =~= Set::<u64>::empty()) by {
            lost.lemma_len0_is_empty();
        }
        assert(mid.part(x).anchor_set() =~= before.part(x).anchor_set().difference(lost));
        if changed.dom().contains(x) {
            let a = choose|a: u64| lost_upto(before, x, n).contains(a);
        }
    }
}

proof fn lemma_phase_model(
    before: &World,
    mid: &World,
    after: &World,
    changed: Map<u64, Set<u64>>,
    m: u64,
)
    requires
        two_phases(before, mid, after, changed),
        before.is_model(m),
    ensures
        mid.entities@[m as int] == before.entities@[m as int],
        gone_of(mid, changed, changed.dom(), m) == anchors_lost_by_model(before, m),
{
    let n = before.anchors.delete_queue@.len() as int;
    lemma_lost_finite(before, m, n);
    if lost_upto(before, m, n).len() > 0 {
        let k = choose|k: u64| lost_upto(before, m, n).contains(k);
        assert(before.anchors.lists(k, m));
        assert(before.is_part(m));
    }
    let a = gone_of(mid, changed, changed.dom(), m);
    let b = anchors_lost_by_model(before, m);
    assert forall|k: u64| a.contains(k) <==> b.contains(k) by {
        if a.contains(k) {
            let x = choose|x: u64|
                changed.dom().contains(x) && let_go(mid, x) && mid.part(x).child_of == Some(m)
                    && #[trigger] lists(changed, x, k);
            assert(lost_upto(before, x, n).contains(k));
            assert(before.anchors.lists(k, x));
            assert(before.is_part(x));
            lemma_phase_part(before, mid, after, changed, x);
            assert(released(before, x) && before.part(x).child_of == Some(m) && lost_by(
                before,
                x,
            ).contains(k));
        }
        if b.contains(k) {
            let x = choose|x: u64| #[trigger]
                released(before, x) && before.part(x).child_of == Some(m) && lost_by(
                    before,
                    x,
                ).contains(k);
            lemma_phase_part(before, mid, after, changed, x);
            assert(changed.dom().contains(x) && let_go(mid, x) && mid.part(x).child_of == Some(m)
                && lists(changed, x, k));
        }
    }
    assert(a =~= b);
}

proof fn lemma_phase_body(
    before: &World,
    mid: &World,
    after: &World,
    changed: Map<u64, Set<u64>>,
    h: BodyHandle,
)
    requires
        two_phases(before, mid, after, changed),
    ensures
        freed_body(mid, changed.dom(), h) == body_let_loose(before, h),
{
    let n = before.anchors.delete_queue@.len() as int;
    if freed_body(mid, changed.dom(), h) {
        let x = choose|x: u64|
            changed.dom().contains(x) && #[trigger] let_go(mid, x) && mid.part(x).child_of is None
                && mid.part(x).body == Some(h);
        let a = choose|a: u64| lost_upto(before, x, n).contains(a);
        assert(before.anchors.lists(a, x));
        assert(before.is_part(x));
        lemma_phase_part(before, mid, after, changed, x);
        assert(released(before, x) && before.part(x).child_of is None && before.part(x).body
            == Some(h));
    }
    if body_let_loose(before, h) {
        let x = choose|x: u64| #[trigger]
            released(before, x) && before.part(x).child_of is None && before.part(x).body == Some(
                h,
            );
        lemma_phase_part(before, mid, after, changed, x);
        assert(changed.dom().contains(x) && let_go(mid, x) && mid.part(x).child_of is None
            && mid.part(x).body == Some(h));
    }
}

/// The two phases together drain the queue.
proof fn lemma_two_phases(
    before: &World,
    mid: &World,
    after: &World,
    changed: Map<u64, Set<u64>>,
)
    requires
        two_phases(before, mid, after, changed),
    ensures
        drained(before, after),
{
    let n = before.anchors.delete_queue@.len() as int;
    let queue = before.anchors.delete_queue@;
    assert(after.anchors.delete_queue@.len() == 0);
    assert forall|k: u64|
        #![trigger after.anchors.anchors@.dom().contains(k)]
        after.anchors.anchors@.dom().contains(k) <==> before.anchors.anchors@.dom().contains(k)
            && !queue.contains(k) by {
        if queue.contains(k) {
            let j = choose|j: int| 0 <= j < queue.len() && queue[j] == k;
            assert(0 <= j < n && queue[j] == k);
        }
        if exists|j: int| 0 <= j < n && queue[j] == k {
            let j = choose|j: int| 0 <= j < n && queue[j] == k;
            assert(queue.contains(k));
        }
    }
    assert forall|x: u64| #[trigger] before.is_part(x) implies {
        &&& after.is_part(x)
        &&& same_but_anchored(before.part(x), after.part(x))
        &&& after.part(x).anchor_set() == before.part(x).anchor_set().difference(lost_by(before, x))
        &&& after.part(x).anchored is Some <==> before.part(x).anchored is Some && !released(
            before,
            x,
        )
    } by {
        lemma_phase_part(before, mid, after, changed, x);
        assert(mid.is_part(x));
        if released(before, x) {
            assert(after.part(x).anchor_set() =~= before.part(x).anchor_set().difference(
                lost_by(before, x),
            ));
        }
    }
    assert forall|m: u64| #[trigger] before.is_model(m) implies {
        &&& after.is_model(m)
        &&& after.model(m).model.graph == before.model(m).model.graph
        &&& after.model(m).model.dirty == before.model(m).model.dirty
        &&& after.model(m).model.anchors@ == before.model(m).model.anchors@.difference(
            anchors_lost_by_model(before, m),
        )
        &&& after.model(m).children == before.model(m).children
        &&& after.model(m).body == before.model(m).body
        &&& after.model(m).velocity_of == before.model(m).velocity_of
    } by {
        lemma_phase_model(before, mid, after, changed, m);
        assert(mid.is_model(m));
    }
    assert forall|e: u64|
        e < before.entities@.len() && #[trigger] before.entities@[e as int] is Vacant
            implies after.entities@[e as int] is Vacant by {
        lemma_lost_finite(before, e, n);
        if lost_upto(before, e, n).len() > 0 {
            let k = choose|k: u64| lost_upto(before, e, n).contains(k);
            assert(before.anchors.lists(k, e));
            assert(before.is_part(e));
        }
        assert(mid.entities@[e as int] is Vacant);
    }
    assert forall|h: BodyHandle| #[trigger]
        after.physics.body(h) == loosened(before.physics.body(h), body_let_loose(before, h)) by {
        lemma_phase_body(before, mid, after, changed, h);
    }
}

/// Tells the dependents of every queued anchor that the anchor is gone,
/// and releases those that no anchor holds any more. The pass cannot fail:
/// in a sound world every queued anchor is a key of the anchor table, every
/// dependent that the table lists has the component that names its
/// anchors, and every handle leads to its body, so that no lookup of the
/// pass comes back empty. A world in which one would is not sound, and the
/// pass does not take it.
pub fn handle_anchor_queue(world: &mut World)
    requires
        old(world).wf(),
    ensures
        final(world).wf(),
        drained(old(world), final(world)),
{
    if world.anchors.delete_queue.len() == 0 {
        proof {
            lemma_nothing_drained(world);
        }
        return ;
    }
    let changed = strip_queue(world);
    let ghost mid = *world;
    proof {
        let n = old(world).anchors.delete_queue@.len() as int;
        assert forall|x: u64| #[trigger] changed@.dom().contains(x) implies mid.is_part(x) by {
            let a = choose|a: u64| lost_upto(old(world), x, n).contains(a);
            assert(old(world).anchors.lists(a, x));
            assert(old(world).is_part(x));
            lemma_lost_finite(old(world), x, n);
        }
    }
    settle_released(world, &changed);
    proof {
        lemma_two_phases(old(world), &mid, world, changed@);
    }
}

/// With nothing queued the drain changes nothing.
proof fn lemma_nothing_drained(world: &World)
    requires
        world.wf(),
        world.anchors.delete_queue@.len() == 0,
    ensures
        drained(world, world),
{
    assert forall|x: u64| lost_by(world, x) =~= Set::<u64>::empty() by {
    }
    assert forall|x: u64| !released(world, x) by {
        assert(lost_by(world, x) =~= Set::<u64>::empty());
    }
    assert forall|x: u64| #[trigger] world.is_part(x) implies world.part(x).anchor_set()
        == world.part(x).anchor_set().difference(lost_by(world, x)) by {
        assert(lost_by(world, x) =~= Set::<u64>::empty());
        assert(world.part(x).anchor_set() =~= world.part(x).anchor_set().difference(
            Set::<u64>::empty(),
        ));
    }
    assert forall|m: u64| #[trigger] world.is_model(m) implies world.model(m).model.anchors@
        == world.model(m).model.anchors@.difference(anchors_lost_by_model(world, m)) by {
        assert(anchors_lost_by_model(world, m) =~= Set::<u64>::empty());
        assert(world.model(m).model.anchors@ =~= world.model(m).model.anchors@.difference(
            Set::<u64>::empty(),
        ));
    }
    assert forall|h: BodyHandle| #[trigger]
        world.physics.body(h) == loosened(world.physics.body(h), body_let_loose(world, h)) by {
        assert(!body_let_loose(world, h));
    }
    assert forall|k: u64| !world.anchors.delete_queue@.contains(k) by {
    }
}

/// Whether every child of a model without a body has a collider.
fn children_have_colliders(world: &World) -> (ok: bool)
    requires
        world.wf(),
    ensures
        ok == all_children_have_colliders(world),
{
    let n = world.entities.len();
    let mut i: usize = 0;
    while i < n
        invariant
            n == world.entities@.len(),
            i <= n,
            world.wf(),
            forall|m: u64, c: u64|
                m < i && world.is_model(m) && world.model(m).body is None && #[trigger] world.model(
                    m,
                ).model.graph.nodes().contains(c) ==> world.part(c).shape is Some,
        decreases n - i,
    {
        let m = i as u64;
        let bodiless = match &world.entities[i] {
            Entry::Model(entry) => entry.body.is_none(),
            _ => false,
        };
        if bodiless {
            proof {
                assert(world.is_model(m));
                assert(world.model_wf(m));
            }
            let count = world.child_count(m);
            let mut j: usize = 0;
            while j < count
                invariant
                    world.wf(),
                    world.is_model(m),
                    world.model(m).body is None,
                    count == world.model(m).children@.len(),
                    j <= count,
                    forall|t: int|
                        0 <= t < j ==> world.part(
                            #[trigger] world.model(m).children@[t],
                        ).shape is Some,
                decreases count - j,
            {
                let c = world.child_at(m, j);
                proof {
                    assert(world.model_wf(m));
                    assert(world.model(m).children@.to_set().contains(
                        world.model(m).children@[j as int],
                    ));
                    assert(world.is_child(c, m));
                }
                let at = world.slot(c);
                let found = match &world.entities[at] {
                    Entry::Part(p) => p.shape.is_some(),
                    _ => false,
                };
                if !found {
                    proof {
                        assert(world.model(m).model.graph.nodes().contains(c));
                    }
                    return false;
                }
                j = j + 1;
            }
            proof {
                assert forall|c: u64| #[trigger]
                    world.model(m).model.graph.nodes().contains(c)
                        implies world.part(c).shape is Some by {
                    assert(world.model(m).children@.to_set().contains(c));
                    let t = choose|t: int|
                        0 <= t < world.model(m).children@.len() && world.model(m).children@[t] == c;
                    assert(world.part(world.model(m).children@[t]).shape is Some);
                }
            }
        }
        i = i + 1;
    }
    true
}

/// Gives every model that has no body its body: one body per model, fixed
/// while anchors hold the model and dynamic otherwise, which takes over
/// the velocity of the body of the model that this one was cut from. The
/// collider of each child is taken out of the ledger and entered anew on
/// the new body, so that it keeps its place in the world; the child gets
/// the new handle. If a child of such a model has no collider the pass
/// gives up before it changes anything.
pub fn handle_submodel(world: &mut World) -> (result: Result<(), PassError>)
    requires
        old(world).wf(),
    ensures
        final(world).wf(),
        match result {
            Ok(_) => all_children_have_colliders(old(world)) && models_embodied(
                old(world),
                final(world),
                ShapeOffset::KeepWorldPose,
                old(world).entities@.len() as int,
            ),
            Err(e) => e == PassError::MissingCollider && !all_children_have_colliders(old(world))
                && *final(world) == *old(world),
        },
{
    if !children_have_colliders(world) {
        return Err(PassError::MissingCollider);
    }
    embody_models(world, true);
    Ok(())
}

/// A model that no anchor holds has the body `h`.
pub open spec fn body_of_free_model(world: &World, h: BodyHandle) -> bool {
    exists|m: u64| #[trigger]
        world.is_model(m) && world.model(m).model.anchors@.is_empty() && world.model(m).body
            == Some(h)
}

/// Some model that no anchor holds has no body.
pub open spec fn free_model_without_body(world: &World) -> bool {
    exists|m: u64| #[trigger]
        world.is_model(m) && world.model(m).model.anchors@.is_empty() && world.model(m).body is None
}

/// What releasing the models that no anchor holds does: the body of each
/// of them is dynamic. Everything else stays.
pub open spec fn models_loosened(before: &World, after: &World) -> bool {
    &&& after.entities == before.entities
    &&& after.anchors == before.anchors
    &&& after.freed == before.freed
    &&& after.untagged == before.untagged
    &&& after.physics.colliders@ == before.physics.colliders@
    &&& after.physics.rigid_bodies@.len() == before.physics.rigid_bodies@.len()
    &&& forall|h: BodyHandle| #[trigger]
        after.physics.body(h) == loosened(before.physics.body(h), body_of_free_model(before, h))
}

/// Makes the body of every model that no anchor holds dynamic. If such a
/// model has no body the pass gives up before it changes anything.
pub fn handle_model_unanchor(world: &mut World) -> (result: Result<(), PassError>)
    requires
        old(world).wf(),
    ensures
        final(world).wf(),
        match result {
            Ok(_) => !free_model_without_body(old(world)) && models_loosened(
                old(world),
                final(world),
            ),
            Err(e) => e == PassError::MissingBody && free_model_without_body(old(world))
                && *final(world) == *old(world),
        },
{
    let n = world.entities.len();
    let mut i: usize = 0;
    while i < n
        invariant
            n == world.entities@.len(),
            i <= n,
            old(world).wf(),
            *world == *old(world),
            forall|m: u64|
                m < i ==> !(#[trigger] world.is_model(m) && world.model(m).model.anchors@.is_empty()
                    && world.model(m).body is None),
        decreases n - i,
    {
        let missing = match &world.entities[i] {
            Entry::Model(entry) => entry.model.anchors.is_empty() && entry.body.is_none(),
            _ => false,
        };
        if missing {
            proof {
                assert(world.is_model(i as u64));
            }
            return Err(PassError::MissingBody);
        }
        i = i + 1;
    }
    proof {
        assert(!free_model_without_body(old(world)));
    }
    let mut i: usize = 0;
    let ghost free_below = |h: BodyHandle, upto: int|
        exists|m: u64|
            m < upto && #[trigger] old(world).is_model(m)
                && old(world).model(m).model.anchors@.is_empty()
                && old(world).model(m).body == Some(h);
    proof {
        assert forall|h: BodyHandle| #[trigger]
            world.physics.body(h) == loosened(old(world).physics.body(h), free_below(h, 0)) by {
            assert(!free_below(h, 0));
        }
    }
    while i < n
        invariant
            n == world.entities@.len(),
            i <= n,
            old(world).wf(),
            world.wf(),
            world.entities == old(world).entities,
            world.anchors == old(world).anchors,
            world.freed == old(world).freed,
            world.untagged == old(world).untagged,
            world.physics.colliders@ == old(world).physics.colliders@,
            world.physics.rigid_bodies@.len() == old(world).physics.rigid_bodies@.len(),
            free_below == |h: BodyHandle, upto: int|
                exists|m: u64|
                    m < upto && #[trigger] old(world).is_model(m) && old(world).model(
                        m,
                    ).model.anchors@.is_empty() && old(world).model(m).body == Some(h),
            forall|h: BodyHandle| #[trigger]
                world.physics.body(h)
                    == loosened(old(world).physics.body(h), free_below(h, i as int)),
        decreases n - i,
    {
        let ghost mid = *world;
        let m = i as u64;
        let body = match &world.entities[i] {
            Entry::Model(entry) => if entry.model.anchors.is_empty() {
                entry.body
            } else {
                None
            },
            _ => None,
        };
        match body {
            Some(h) => {
                world.physics.set_body_type(h, RigidBodyType::Dynamic);
            },
            None => {},
        }
        proof {
            let up = i as int + 1;
            assert forall|h: BodyHandle| #[trigger]
                world.physics.body(h)
                    == loosened(old(world).physics.body(h), free_below(h, up)) by {
                let hit = old(world).is_model(m) && old(world).model(m).model.anchors@.is_empty()
                    && old(world).model(m).body == Some(h);
                assert(free_below(h, up) <==> free_below(h, i as int) || hit) by {
                    if free_below(h, i as int) {
                        let q = choose|q: u64|
                            q < i && #[trigger] old(world).is_model(q) && old(world).model(
                                q,
                            ).model.anchors@.is_empty() && old(world).model(q).body == Some(h);
                        assert(q < up && old(world).is_model(q));
                    }
                    if free_below(h, up) {
                        let q = choose|q: u64|
                            q < up && #[trigger] old(world).is_model(q) && old(world).model(
                                q,
                            ).model.anchors@.is_empty() && old(world).model(q).body == Some(h);
                        if q < i {
                            assert(free_below(h, i as int));
                        }
                    }
                    if hit {
                        assert(m < up && old(world).is_model(m));
                    }
                }
                assert(mid.physics.body(h) == loosened(
                    old(world).physics.body(h),
                    free_below(h, i as int),
                ));
                if body is Some {
                    let hm = body->0;
                    assert(old(world).is_model(m));
                    assert(old(world).physics.body(hm) is Some);
                    assert(mid.physics.body(hm) == loosened(
                        old(world).physics.body(hm),
                        free_below(hm, i as int),
                    ));
                }
            }
            lemma_bodies_loosened_wf(&mid, world);
        }
        i = i + 1;
    }
    proof {
        assert forall|h: BodyHandle| #[trigger]
            world.physics.body(h) == loosened(
                old(world).physics.body(h),
                body_of_free_model(old(world), h),
            ) by {
            assert(free_below(h, n as int) <==> body_of_free_model(old(world), h)) by {
                if free_below(h, n as int) {
                    let q = choose|q: u64|
                        q < n && #[trigger] old(world).is_model(q) && old(world).model(
                            q,
                        ).model.anchors@.is_empty() && old(world).model(q).body == Some(h);
                    assert(old(world).is_model(q) && old(world).model(q).model.anchors@.is_empty()
                        && old(world).model(q).body == Some(h));
                }
                if body_of_free_model(old(world), h) {
                    let q = choose|q: u64| #[trigger]
                        old(world).is_model(q) && old(world).model(q).model.anchors@.is_empty()
                            && old(world).model(q).body == Some(h);
                    assert(q < n && old(world).is_model(q));
                }
            }
        }
    }
    Ok(())
}

/// A world stays sound when bodies change the way they move and nothing
/// else changes.
pub proof fn lemma_bodies_loosened_wf(before: &World, after: &World)
    requires
        before.wf(),
        after.entities == before.entities,
        after.anchors == before.anchors,
        after.physics.colliders@ == before.physics.colliders@,
        forall|h: BodyHandle| #[trigger]
            before.physics.body(h) is Some ==> (after.physics.body(h) matches Some(b) && b.user_data
                == before.physics.body(h)->0.user_data),
    ensures
        after.wf(),
{
    assert forall|m: u64| #[trigger] after.is_model(m) implies after.model_wf(m) && (after.model(
        m,
    ).body matches Some(h) ==> after.physics.body(h) matches Some(b) && b.user_data == m) by {
        assert(before.is_model(m));
        assert(before.model_wf(m));
        assert forall|c: u64| #[trigger]
            after.model(m).model.graph.nodes().contains(c) implies after.is_child(c, m) by {
            assert(before.is_child(c, m));
        }
        if before.model(m).body is Some {
            assert(before.physics.body(before.model(m).body->0) is Some);
        }
    }
    assert forall|x: u64| #[trigger] after.is_part(x) implies after.part_wf(x) by {
        assert(before.is_part(x));
        assert(before.part_wf(x));
        if before.part(x).shape is Some {
            assert(before.physics.collider(before.part(x).shape->0) == after.physics.collider(
                before.part(x).shape->0,
            ));
        }
        if before.part(x).body is Some {
            assert(before.physics.body(before.part(x).body->0) is Some);
        }
    }
    assert forall|k: u64, x: u64| #[trigger] after.anchors.lists(k, x) implies after.is_part(x)
        && after.part(x).anchor_set().contains(k) by {
        assert(before.anchors.lists(k, x));
        assert(before.is_part(x));
    }
    assert forall|i: int| 0 <= i < after.anchors.delete_queue@.len() implies !after.is_part(
        #[trigger] after.anchors.delete_queue@[i],
    ) by {
        assert(!before.is_part(before.anchors.delete_queue@[i]));
    }
}

/// The body `h` belongs to a part that has lost its anchor tag and stands
/// on its own.
pub open spec fn body_of_untagged(world: &World, h: BodyHandle) -> bool {
    exists|i: int|
        0 <= i < world.untagged@.len() && world.is_part(#[trigger] world.untagged@[i])
            && world.part(world.untagged@[i]).child_of is None && world.part(
            world.untagged@[i],
        ).body == Some(h)
}

/// What releasing the parts that have lost their anchor tag does: the
/// notes of lost tags are read and thrown away, and the body of each such
/// part that stands on its own is dynamic. Everything else stays.
pub open spec fn parts_loosened(before: &World, after: &World) -> bool {
    &&& after.untagged@.len() == 0
    &&& after.entities == before.entities
    &&& after.anchors == before.anchors
    &&& after.freed == before.freed
    &&& after.physics.colliders@ == before.physics.colliders@
    &&& after.physics.rigid_bodies@.len() == before.physics.rigid_bodies@.len()
    &&& forall|h: BodyHandle| #[trigger]
        after.physics.body(h) == loosened(before.physics.body(h), body_of_untagged(before, h))
}

/// Makes the body of every part that has lost its anchor tag and stands on
/// its own dynamic. Parts under a model are left alone. The pass cannot
/// fail: in a sound world the handle of a part leads to its body.
pub fn handle_part_unanchor(world: &mut World)
    requires
        old(world).wf(),
    ensures
        final(world).wf(),
        parts_loosened(old(world), final(world)),
{
    let n = world.untagged.len();
    let mut i: usize = 0;
    let ghost hit_below = |h: BodyHandle, upto: int|
        exists|j: int|
            0 <= j < upto && old(world).is_part(#[trigger] old(world).untagged@[j]) && old(
                world,
            ).part(old(world).untagged@[j]).child_of is None && old(world).part(
                old(world).untagged@[j],
            ).body == Some(h);
    proof {
        assert forall|h: BodyHandle| #[trigger]
            world.physics.body(h) == loosened(old(world).physics.body(h), hit_below(h, 0)) by {
            assert(!hit_below(h, 0));
        }
    }
    while i < n
        invariant
            n == old(world).untagged@.len(),
            i <= n,
            old(world).wf(),
            world.wf(),
            world.entities == old(world).entities,
            world.anchors == old(world).anchors,
            world.freed == old(world).freed,
            world.untagged == old(world).untagged,
            world.physics.colliders@ == old(world).physics.colliders@,
            world.physics.rigid_bodies@.len() == old(world).physics.rigid_bodies@.len(),
            hit_below == |h: BodyHandle, upto: int|
                exists|j: int|
                    0 <= j < upto && old(world).is_part(#[trigger] old(world).untagged@[j]) && old(
                        world,
                    ).part(old(world).untagged@[j]).child_of is None && old(world).part(
                        old(world).untagged@[j],
                    ).body == Some(h),
            forall|h: BodyHandle| #[trigger]
                world.physics.body(h)
                    == loosened(old(world).physics.body(h), hit_below(h, i as int)),
        decreases n - i,
    {
        let ghost mid = *world;
        let part_id = world.untagged[i];
        let body = if part_id < world.entities.len() as u64 {
            let at = world.slot(part_id);
            match &world.entities[at] {
                Entry::Part(p) => if p.child_of.is_none() {
                    p.body
                } else {
                    None
                },
                _ => None,
            }
        } else {
            None
        };
        match body {
            Some(h) => {
                world.physics.set_body_type(h, RigidBodyType::Dynamic);
            },
            None => {},
        }
        proof {
            let up = i as int + 1;
            assert forall|h: BodyHandle| #[trigger]
                world.physics.body(h) == loosened(old(world).physics.body(h), hit_below(h, up)) by {
                let hit = old(world).is_part(part_id) && old(world).part(part_id).child_of is None
                    && old(world).part(part_id).body == Some(h);
                assert(hit_below(h, up) <==> hit_below(h, i as int) || hit) by {
                    if hit_below(h, i as int) {
                        let j = choose|j: int|
                            0 <= j < i && old(world).is_part(#[trigger] old(world).untagged@[j])
                                && old(world).part(old(world).untagged@[j]).child_of is None && old(
                                world,
                            ).part(old(world).untagged@[j]).body == Some(h);
                        assert(0 <= j < up && old(world).is_part(old(world).untagged@[j]));
                    }
                    if hit_below(h, up) {
                        let j = choose|j: int|
                            0 <= j < up && old(world).is_part(#[trigger] old(world).untagged@[j])
                                && old(world).part(old(world).untagged@[j]).child_of is None && old(
                                world,
                            ).part(old(world).untagged@[j]).body == Some(h);
                        if j < i {
                            assert(hit_below(h, i as int));
                        }
                    }
                    if hit {
                        assert(0 <= i < up && old(world).is_part(old(world).untagged@[i as int]));
                    }
                }
                assert(mid.physics.body(h) == loosened(
                    old(world).physics.body(h),
                    hit_below(h, i as int),
                ));
                if body is Some {
                    let hp = body->0;
                    assert(old(world).is_part(part_id));
                    assert(old(world).part_wf(part_id));
                    assert(old(world).physics.body(hp) is Some);
                    assert(mid.physics.body(hp) == loosened(
                        old(world).physics.body(hp),
                        hit_below(hp, i as int),
                    ));
                }
            }
            lemma_bodies_loosened_wf(&mid, world);
        }
        i = i + 1;
    }
    let ghost last = *world;
    world.untagged.clear();
    proof {
        assert forall|h: BodyHandle| #[trigger]
            world.physics.body(h) == loosened(
                old(world).physics.body(h),
                body_of_untagged(old(world), h),
            ) by {
            assert(hit_below(h, n as int) <==> body_of_untagged(old(world), h));
        }
        crate::edits::lemma_wf_purged(&last, world);
    }
}

/// The part stands alone and can be given a body of its own: it has a
/// collider, belongs to no model, and is no anchor. An anchor never gets a
/// body, and in a sound world no child of a model is an anchor, so that no
/// part that has lost its model is one.
pub open spec fn is_orphan(world: &World, e: u64) -> bool {
    &&& world.is_part(e)
    &&& world.part(e).shape is Some
    &&& world.part(e).child_of is None
    &&& !world.part(e).anchor
}

/// The part is among the first `upto` that were noted as freed, and can be
/// given a body of its own.
pub open spec fn orphan_upto(world: &World, e: u64, upto: int) -> bool {
    is_orphan(world, e) && exists|i: int|
        0 <= i < upto && i < world.freed@.len() && (#[trigger] world.freed@[i]).part == e
}

/// How the body of a part that has lost its model moves: fixed if anchors
/// hold the part, dynamic otherwise.
pub open spec fn orphan_kind(part: PartEntry) -> RigidBodyType {
    if part.anchored is Some {
        RigidBodyType::Fixed
    } else {
        RigidBodyType::Dynamic
    }
}

/// The body that the part `e` gets when it has lost its model: it stands
/// where the collider of the part stands.
pub open spec fn orphan_body(world: &World, e: u64, velocity_of: Option<BodyHandle>) -> RigidBody {
    RigidBody {
        body_type: orphan_kind(world.part(e)),
        user_data: e,
        pose: BodyPose::AtCollider(world.part(e).shape->0),
        velocity_of,
    }
}

/// The bodies that the first `upto` notes of freed parts call for, in the
/// order of the notes: one for each note whose part can be given a body.
pub open spec fn orphan_bodies(world: &World, upto: int) -> Seq<Option<RigidBody>>
    decreases upto,
{
    if upto <= 0 {
        Seq::empty()
    } else {
        let note = world.freed@[upto - 1];
        if upto - 1 < world.freed@.len() && is_orphan(world, note.part) {
            orphan_bodies(world, upto - 1).push(
                Some(orphan_body(world, note.part, note.velocity_of)),
            )
        } else {
            orphan_bodies(world, upto - 1)
        }
    }
}

/// The part `e` has been given a body of its own where its collider
/// stands, with the collider exactly on it; the body takes over the
/// velocity that the last of the notes for the part names.
pub open spec fn reembodied(before: &World, after: &World, e: u64, upto: int) -> bool {
    &&& after.is_part(e)
    &&& same_but_handles(before.part(e), after.part(e))
    &&& after.part(e).shape == before.part(e).shape
    &&& exists|i: int|
        0 <= i < upto && i < before.freed@.len() && (#[trigger] before.freed@[i]).part == e
            && crate::setup::has_body(
            after,
            e,
            orphan_kind(before.part(e)),
            BodyPose::AtCollider(before.part(e).shape->0),
            before.freed@[i].velocity_of,
        ) && forall|j: int|
            i < j < upto && j < before.freed@.len() ==> (#[trigger] before.freed@[j]).part != e
}

/// What re-embodying has done once the first `upto` notes of freed parts
/// have been read. Each part that they name and that can be given a body
/// has a new one now, and no anchor lists it any more. The ledger keeps its
/// bodies and takes up, at its end, the bodies that the notes call for, and
/// nothing else; it has as many colliders as before. Everything else stays.
pub open spec fn orphans_embodied(before: &World, after: &World, upto: int) -> bool {
    &&& after.entities@.len() == before.entities@.len()
    &&& forall|e: u64|
        e < before.entities@.len() ==> if orphan_upto(before, e, upto) {
            reembodied(before, after, e, upto)
        } else {
            #[trigger] after.entities@[e as int] == before.entities@[e as int]
        }
    &&& forall|k: u64, x: u64| #[trigger]
        after.anchors.lists(k, x) <==> before.anchors.lists(k, x) && !orphan_upto(before, x, upto)
    &&& after.anchors.anchors@.dom() == before.anchors.anchors@.dom()
    &&& after.anchors.delete_queue == before.anchors.delete_queue
    &&& after.physics.rigid_bodies@ == before.physics.rigid_bodies@ + orphan_bodies(before, upto)
    &&& forall|h: BodyHandle| #[trigger]
        before.physics.body(h) is Some ==> after.physics.body(h) == before.physics.body(h)
    &&& after.physics.colliders@.len() == before.physics.colliders@.len()
    &&& forall|j: int|
        0 <= j < before.physics.colliders@.len() && before.physics.colliders@[j] is None
            ==> #[trigger] after.physics.colliders@[j] is None
    &&& forall|s: ShapeHandle| #[trigger]
        before.physics.collider(s) is Some ==> if orphan_upto(
            before,
            before.physics.collider(s)->0.owner,
            upto,
        ) && before.part(before.physics.collider(s)->0.owner).shape == Some(s) {
            after.physics.collider(s) == Some(
                Collider {
                    owner: before.physics.collider(s)->0.owner,
                    parent: after.part(before.physics.collider(s)->0.owner).body,
                    offset: ShapeOffset::Identity,
                },
            )
        } else {
            after.physics.collider(s) == before.physics.collider(s)
        }
    &&& after.untagged == before.untagged
}

/// What reading the note `i` has done to the world `mid`: nothing if the
/// part that it names cannot be given a body; otherwise the part has a new
/// body with its collider on it, and no anchor lists it any more.
spec fn note_read(before: &World, mid: &World, after: &World, i: int) -> bool {
    let e = before.freed@[i].part;
    if is_orphan(mid, e) {
        &&& after.is_part(e)
        &&& after.entities@.len() == mid.entities@.len()
        &&& forall|x: int|
            0 <= x < mid.entities@.len() && x != e ==> after.entities@[x] == mid.entities@[x]
        &&& same_but_handles(mid.part(e), after.part(e))
        &&& after.part(e).shape == mid.part(e).shape
        &&& after.part(e).body matches Some(h) && h.0 == mid.physics.rigid_bodies@.len()
        &&& after.physics.rigid_bodies@ == mid.physics.rigid_bodies@.push(
            Some(orphan_body(mid, e, before.freed@[i].velocity_of)),
        )
        &&& after.physics.colliders@ == mid.physics.colliders@.update(
            (mid.part(e).shape->0).0 as int,
            Some(Collider { owner: e, parent: after.part(e).body, offset: ShapeOffset::Identity }),
        )
        &&& forall|k: u64, y: u64| #[trigger]
            after.anchors.lists(k, y) <==> mid.anchors.lists(k, y) && y != e
        &&& after.anchors.anchors@.dom() == mid.anchors.anchors@.dom()
        &&& after.anchors.delete_queue == mid.anchors.delete_queue
        &&& after.untagged == mid.untagged
    } else {
        after.entities == mid.entities && after.anchors == mid.anchors && after.physics
            == mid.physics && after.untagged == mid.untagged
    }
}

/// The pass stands before the note `i`, and `after` is the world in which
/// it has been read.
spec fn orphan_here(before: &World, mid: &World, after: &World, i: int) -> bool {
    &&& before.wf()
    &&& mid.wf()
    &&& 0 <= i < before.freed@.len()
    &&& orphans_embodied(before, mid, i)
    &&& note_read(before, mid, after, i)
}

proof fn lemma_orphan_basics(before: &World, mid: &World, after: &World, i: int, up: int)
    requires
        orphan_here(before, mid, after, i),
        up == i + 1,
    ensures
        is_orphan(mid, before.freed@[i].part) == is_orphan(before, before.freed@[i].part),
        is_orphan(before, before.freed@[i].part) ==> {
            let e = before.freed@[i].part;
            &&& e < before.entities@.len()
            &&& orphan_upto(before, e, up)
            &&& mid.is_part(e)
            &&& same_but_handles(before.part(e), mid.part(e))
            &&& mid.part(e).shape == before.part(e).shape
            &&& orphan_body(mid, e, before.freed@[i].velocity_of) == orphan_body(
                before,
                e,
                before.freed@[i].velocity_of,
            )
            &&& mid.physics.collider(before.part(e).shape->0) is Some
            &&& mid.physics.collider(before.part(e).shape->0)->0.owner == e
            &&& before.physics.collider(before.part(e).shape->0) is Some
            &&& before.physics.collider(before.part(e).shape->0)->0.owner == e
        },
        forall|x: u64|
            orphan_upto(before, x, up) <==> orphan_upto(before, x, i) || (x == before.freed@[i].part
                && is_orphan(before, x)),
{
    let e = before.freed@[i].part;
    assert forall|x: u64| orphan_upto(before, x, up) <==> orphan_upto(before, x, i) || (x == e
        && is_orphan(before, x)) by {
        if orphan_upto(before, x, i) {
            let j = choose|j: int|
                0 <= j < i && j < before.freed@.len() && (#[trigger] before.freed@[j]).part == x;
            assert(0 <= j < up && j < before.freed@.len() && before.freed@[j].part == x);
        }
        if orphan_upto(before, x, up) {
            let j = choose|j: int|
                0 <= j < up && j < before.freed@.len() && (#[trigger] before.freed@[j]).part == x;
            if j < i {
                assert(orphan_upto(before, x, i));
            }
        }
        if x == e && is_orphan(before, x) {
            assert(0 <= i < up && i < before.freed@.len() && before.freed@[i].part == x);
        }
    }
    if e < before.entities@.len() {
        if orphan_upto(before, e, i) {
            assert(reembodied(before, mid, e, i));
        } else {
            assert(mid.entities@[e as int] == before.entities@[e as int]);
        }
    }
    if is_orphan(before, e) {
        assert(before.part_wf(e));
        assert(mid.part_wf(e));
    }
}

proof fn lemma_orphan_entity(before: &World, mid: &World, after: &World, i: int, up: int, x: u64)
    requires
        orphan_here(before, mid, after, i),
        up == i + 1,
        x < before.entities@.len(),
    ensures
        if orphan_upto(before, x, up) {
            reembodied(before, after, x, up)
        } else {
            after.entities@[x as int] == before.entities@[x as int]
        },
{
    lemma_orphan_basics(before, mid, after, i, up);
    let e = before.freed@[i].part;
    let done = is_orphan(before, e);
    if x == e && done {
        let s = mid.part(e).shape->0;
        assert(after.physics.colliders@[s.0 as int] == Some(
            Collider { owner: e, parent: after.part(e).body, offset: ShapeOffset::Identity },
        ));
        assert(0 <= i < up && i < before.freed@.len() && before.freed@[i].part == e
            && crate::setup::has_body(
            after,
            e,
            orphan_kind(before.part(e)),
            BodyPose::AtCollider(before.part(e).shape->0),
            before.freed@[i].velocity_of,
        ) && forall|j: int|
            i < j < up && j < before.freed@.len() ==> (#[trigger] before.freed@[j]).part != e);
    } else {
        assert(after.entities@[x as int] == mid.entities@[x as int]);
        if orphan_upto(before, x, i) {
            assert(reembodied(before, mid, x, i));
            let j = choose|j: int|
                0 <= j < i && j < before.freed@.len() && (#[trigger] before.freed@[j]).part == x
                    && crate::setup::has_body(
                    mid,
                    x,
                    orphan_kind(before.part(x)),
                    BodyPose::AtCollider(before.part(x).shape->0),
                    before.freed@[j].velocity_of,
                ) && forall|q: int|
                    j < q < i && q < before.freed@.len() ==> (#[trigger] before.freed@[q]).part
                        != x;
            assert(mid.part_wf(x));
            let hx = mid.part(x).body->0;
            let sx = mid.part(x).shape->0;
            assert(mid.physics.body(hx) is Some);
            assert(mid.physics.collider(sx) is Some);
            if done {
                let s = mid.part(e).shape->0;
                assert(sx != s);
                assert(after.physics.body(hx) == mid.physics.body(hx));
                assert(after.physics.collider(sx) == mid.physics.collider(sx));
            }
            assert(0 <= j < up && j < before.freed@.len() && before.freed@[j].part == x
                && crate::setup::has_body(
                after,
                x,
                orphan_kind(before.part(x)),
                BodyPose::AtCollider(before.part(x).shape->0),
                before.freed@[j].velocity_of,
            ) && forall|q: int|
                j < q < up && q < before.freed@.len() ==> (#[trigger] before.freed@[q]).part != x);
        }
    }
}

proof fn lemma_orphan_collider(
    before: &World,
    mid: &World,
    after: &World,
    i: int,
    up: int,
    s: ShapeHandle,
)
    requires
        orphan_here(before, mid, after, i),
        up == i + 1,
        before.physics.collider(s) is Some,
    ensures
        if orphan_upto(before, before.physics.collider(s)->0.owner, up) && before.part(
            before.physics.collider(s)->0.owner,
        ).shape == Some(s) {
            after.physics.collider(s) == Some(
                Collider {
                    owner: before.physics.collider(s)->0.owner,
                    parent: after.part(before.physics.collider(s)->0.owner).body,
                    offset: ShapeOffset::Identity,
                },
            )
        } else {
            after.physics.collider(s) == before.physics.collider(s)
        },
{
    lemma_orphan_basics(before, mid, after, i, up);
    let e = before.freed@[i].part;
    let done = is_orphan(before, e);
    let owner = before.physics.collider(s)->0.owner;
    if done {
        let se = before.part(e).shape->0;
        if s == se {
            assert(owner == e);
        } else {
            assert(after.physics.collider(s) == mid.physics.collider(s));
            if owner == e {
                assert(before.part(e).shape != Some(s));
            } else if orphan_upto(before, owner, i) {
                assert(after.entities@[owner as int] == mid.entities@[owner as int]);
            }
        }
    }
}

/// Reading one more note carries re-embodying on.
proof fn lemma_orphan_step(before: &World, mid: &World, after: &World, i: int, up: int)
    requires
        orphan_here(before, mid, after, i),
        up == i + 1,
    ensures
        orphans_embodied(before, after, up),
{
    lemma_orphan_basics(before, mid, after, i, up);
    let e = before.freed@[i].part;
    let done = is_orphan(before, e);
    assert forall|x: u64| x < before.entities@.len() implies if orphan_upto(before, x, up) {
        reembodied(before, after, x, up)
    } else {
        #[trigger] after.entities@[x as int] == before.entities@[x as int]
    } by {
        lemma_orphan_entity(before, mid, after, i, up, x);
    }
    assert forall|k: u64, x: u64| #[trigger]
        after.anchors.lists(k, x) <==> before.anchors.lists(k, x) && !orphan_upto(
            before,
            x,
            up,
        ) by {
        assert(mid.anchors.lists(k, x) <==> before.anchors.lists(k, x) && !orphan_upto(
            before,
            x,
            i,
        ));
        if before.anchors.lists(k, x) && x == e {
            assert(before.anchors_wf());
            assert(before.is_part(x));
        }
    }
    assert(after.physics.rigid_bodies@ =~= before.physics.rigid_bodies@ + orphan_bodies(
        before,
        up,
    )) by {
        if done {
            assert(orphan_bodies(before, up) == orphan_bodies(before, i).push(
                Some(orphan_body(before, e, before.freed@[i].velocity_of)),
            ));
        } else {
            assert(orphan_bodies(before, up) == orphan_bodies(before, i));
        }
    }
    assert forall|h: BodyHandle| #[trigger]
        before.physics.body(h) is Some implies after.physics.body(h) == before.physics.body(h) by {
        assert(mid.physics.body(h) == before.physics.body(h));
    }
    assert forall|j: int|
        0 <= j < before.physics.colliders@.len() && before.physics.colliders@[j] is None
            implies #[trigger] after.physics.colliders@[j] is None by {
        assert(mid.physics.colliders@[j] is None);
    }
    assert forall|s: ShapeHandle| #[trigger]
        before.physics.collider(s) is Some implies if orphan_upto(
        before,
        before.physics.collider(s)->0.owner,
        up,
    ) && before.part(before.physics.collider(s)->0.owner).shape == Some(s) {
        after.physics.collider(s) == Some(
            Collider {
                owner: before.physics.collider(s)->0.owner,
                parent: after.part(before.physics.collider(s)->0.owner).body,
                offset: ShapeOffset::Identity,
            },
        )
    } else {
        after.physics.collider(s) == before.physics.collider(s)
    } by {
        lemma_orphan_collider(before, mid, after, i, up, s);
    }
}

/// Gives every part that has lost its model, has not been taken in by
/// another and is still in the world a body of its own: fixed if anchors
/// hold the part, dynamic otherwise, placed where the collider of the part
/// stands in the world, with the collider put exactly on it. The part is
/// struck from the dependents of every anchor. A part that has no collider
/// is passed over, and so is an anchor, which never gets a body; in a sound
/// world no child of a model is an anchor. The pass cannot fail: in a sound
/// world the handle of a part leads to its collider.
pub fn handle_subpart(world: &mut World)
    requires
        old(world).wf(),
    ensures
        final(world).wf(),
        final(world).freed@.len() == 0,
        orphans_embodied(old(world), final(world), old(world).freed@.len() as int),
{
    let n = world.freed.len();
    let mut i: usize = 0;
    proof {
        assert forall|x: u64| !orphan_upto(old(world), x, 0) by {
        }
        assert(world.physics.rigid_bodies@ =~= world.physics.rigid_bodies@ + orphan_bodies(
            world,
            0,
        ));
    }
    while i < n
        invariant
            n == old(world).freed@.len(),
            i <= n,
            old(world).wf(),
            world.wf(),
            world.freed == old(world).freed,
            orphans_embodied(old(world), world, i as int),
        decreases n - i,
    {
        let ghost mid = *world;
        let note = world.freed[i];
        let part_id = note.part;
        let plan = if part_id < world.entities.len() as u64 {
            let at = world.slot(part_id);
            match &world.entities[at] {
                Entry::Part(p) => match p.shape {
                    Some(shape) => if p.child_of.is_none() && !p.anchor {
                        if p.anchored.is_some() {
                            Some((RigidBodyType::Fixed, shape))
                        } else {
                            Some((RigidBodyType::Dynamic, shape))
                        }
                    } else {
                        None
                    },
                    None => None,
                },
                _ => None,
            }
        } else {
            None
        };
        proof {
            assert(plan is Some <==> is_orphan(&mid, part_id));
        }
        match plan {
            Some((body_type, shape)) => {
                proof {
                    assert(mid.part_wf(part_id));
                }
                build_body(world,
                    part_id, body_type, BodyPose::AtCollider(shape), note.velocity_of);
                let ghost built = *world;
                proof {
                    assert forall|k: u64| #[trigger]
                        world.anchors.anchors@.dom().contains(k)
                            implies world.anchors.anchors@[k].finite() by {
                        assert(mid.anchors_wf());
                    }
                }
                purge_member(world, part_id);
                proof {
                    lemma_wf_purged(&built, world);
                }
            },
            None => {},
        }
        proof {
            assert(note_read(old(world), &mid, world, i as int));
            lemma_orphan_step(old(world), &mid, world, i as int, i + 1);
        }
        i = i + 1;
    }
    let ghost last = *world;
    world.freed.clear();
    proof {
        lemma_wf_purged(&last, world);
    }
}

} // verus!
