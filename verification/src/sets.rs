//! Sets of entity ids as vectors.

use vstd::prelude::*;

use crate::idset::IdSet;
use crate::idset::IdTable;

verus! {

/// The members of a set, each once, in no stated order.
pub fn set_members(set: &IdSet) -> (out: Vec<u64>)
    ensures
        out@.no_duplicates(),
        out@.to_set() == set@,
{
    set.members()
}

/// The keys of an anchor table, each once, in no stated order.
pub fn map_keys(map: &IdTable) -> (out: Vec<u64>)
    ensures
        out@.no_duplicates(),
        out@.to_set() == map@.dom(),
{
    map.keys()
}

/// Adds every id of the list to `dst`.
pub fn extend_from(dst: &mut IdSet, members: &Vec<u64>)
    ensures
        final(dst)@ == old(dst)@.union(members@.to_set()),
{
    let mut i: usize = 0;
    while i < members.len()
        invariant
            i <= members@.len(),
            forall|x: u64|
                dst@.contains(x) <==> old(dst)@.contains(x) || exists|j: int|
                    0 <= j < i && members@[j] == x,
        decreases members@.len() - i,
    {
        let x = members[i];
        let ghost before = dst@;
        dst.insert(x);
        proof {
            assert forall|y: u64|
                dst@.contains(y) <==> old(dst)@.contains(y) || exists|j: int|
                    0 <= j < i + 1 && members@[j] == y by {
                if before.contains(y) && !old(dst)@.contains(y) {
                    let j = choose|j: int| 0 <= j < i && members@[j] == y;
                    assert(0 <= j < i + 1 && members@[j] == y);
                }
                if y == x {
                    assert(members@[i as int] == y);
                }
                if exists|j: int| 0 <= j < i + 1 && members@[j] == y {
                    let j = choose|j: int| 0 <= j < i + 1 && members@[j] == y;
                    if j < i {
                    }
                }
            }
        }
        i = i + 1;
    }
    proof {
        assert forall|x: u64| dst@.contains(x)
            <==> old(dst)@.union(members@.to_set()).contains(x) by {
            if members@.to_set().contains(x) {
                assert(members@.to_set().contains(x));
                let j = choose|j: int| 0 <= j < members@.len() && members@[j] == x;
            }
            if dst@.contains(x) && !old(dst)@.contains(x) {
                let j = choose|j: int| 0 <= j < i && members@[j] == x;
                assert(members@.to_set().contains(members@[j]));
            }
        }
        assert(dst@ =~= old(dst)@.union(members@.to_set()));
    }
}

/// Adds every member of `src` to `dst`.
pub fn extend_set(dst: &mut IdSet, src: &IdSet)
    ensures
        final(dst)@ == old(dst)@.union(src@),
{
    let members = set_members(src);
    extend_from(dst, &members);
}

/// Takes every id of the list out of `dst`.
pub fn subtract_from(dst: &mut IdSet, members: &Vec<u64>)
    ensures
        final(dst)@ == old(dst)@.difference(members@.to_set()),
{
    let mut i: usize = 0;
    while i < members.len()
        invariant
            i <= members@.len(),
            forall|x: u64|
                dst@.contains(x) <==> old(dst)@.contains(x) && !(exists|j: int|
                    0 <= j < i && members@[j] == x),
        decreases members@.len() - i,
    {
        let x = members[i];
        let ghost before = dst@;
        dst.remove(x);
        proof {
            assert(dst@ == before.remove(x));
            assert forall|y: u64|
                dst@.contains(y) <==> old(dst)@.contains(y) && !(exists|j: int|
                    0 <= j < i + 1 && members@[j] == y) by {
                assert(before.contains(y) <==> old(dst)@.contains(y) && !(exists|j: int|
                    0 <= j < i && members@[j] == y));
                if y == x {
                    assert(members@[i as int] == y);
                }
                if exists|j: int| 0 <= j < i && members@[j] == y {
                    let j = choose|j: int| 0 <= j < i && members@[j] == y;
                    assert(0 <= j < i + 1 && members@[j] == y);
                }
                if exists|j: int| 0 <= j < i + 1 && members@[j] == y {
                    let j = choose|j: int| 0 <= j < i + 1 && members@[j] == y;
                    if j < i {
                    }
                }
            }
        }
        i = i + 1;
    }
    proof {
        assert forall|x: u64| dst@.contains(x)
            <==> old(dst)@.difference(members@.to_set()).contains(x) by {
            if members@.to_set().contains(x) {
                assert(members@.to_set().contains(x));
                let j = choose|j: int| 0 <= j < members@.len() && members@[j] == x;
                assert(0 <= j < i && members@[j] == x);
            }
            if exists|j: int| 0 <= j < i && members@[j] == x {
                let j = choose|j: int| 0 <= j < i && members@[j] == x;
                assert(members@.to_set().contains(members@[j]));
            }
        }
        assert(dst@ =~= old(dst)@.difference(members@.to_set()));
    }
}

/// Takes every member of `src` out of `dst`.
pub fn subtract_set(dst: &mut IdSet, src: &IdSet)
    ensures
        final(dst)@ == old(dst)@.difference(src@),
{
    let members = set_members(src);
    subtract_from(dst, &members);
}

/// The keys of an anchor table as a set.
pub fn key_set(map: &IdTable) -> (out: IdSet)
    ensures
        out@ == map@.dom(),
{
    let keys = map_keys(map);
    let mut out: IdSet = IdSet::new();
    let mut i: usize = 0;
    while i < keys.len()
        invariant
            i <= keys@.len(),
            forall|x: u64| out@.contains(x) <==> exists|j: int| 0 <= j < i && keys@[j] == x,
        decreases keys@.len() - i,
    {
        let k = keys[i];
        let ghost before = out@;
        out.insert(k);
        proof {
            assert forall|y: u64| out@.contains(y) <==> exists|j: int|
                0 <= j < i + 1 && keys@[j] == y by {
                if before.contains(y) {
                    let j = choose|j: int| 0 <= j < i && keys@[j] == y;
                    assert(0 <= j < i + 1 && keys@[j] == y);
                }
                if y == k {
                    assert(keys@[i as int] == y);
                }
                if exists|j: int| 0 <= j < i + 1 && keys@[j] == y {
                    let j = choose|j: int| 0 <= j < i + 1 && keys@[j] == y;
                    if j < i {
                    }
                }
            }
        }
        i = i + 1;
    }
    proof {
        assert forall|x: u64| out@.contains(x) <==> map@.dom().contains(x) by {
            if map@.dom().contains(x) {
                assert(keys@.to_set().contains(x));
                let j = choose|j: int| 0 <= j < keys@.len() && keys@[j] == x;
            }
            if out@.contains(x) {
                let j = choose|j: int| 0 <= j < i && keys@[j] == x;
                assert(keys@.to_set().contains(keys@[j]));
            }
        }
        assert(out@ =~= map@.dom());
    }
    out
}

/// The keys of an anchor table whose set holds `x`.
pub fn keys_listing(map: &IdTable, x: u64) -> (out: IdSet)
    ensures
        out@ == Set::new(|k: u64| map@.dom().contains(k) && map@[k].contains(x)),
        out@.finite(),
{
    let keys = map_keys(map);
    let mut out: IdSet = IdSet::new();
    let mut i: usize = 0;
    while i < keys.len()
        invariant
            i <= keys@.len(),
            keys@.to_set() == map@.dom(),
            out@.finite(),
            forall|k: u64|
                out@.contains(k) <==> map@.dom().contains(k) && map@[k].contains(x) && exists|
                    j: int,
                | 0 <= j < i && keys@[j] == k,
        decreases keys@.len() - i,
    {
        let k = keys[i];
        let ghost before = out@;
        proof {
            assert(keys@.to_set().contains(keys@[i as int]));
        }
        let listed = map.lists(k, x);
        if listed {
            out.insert(k);
        }
        proof {
            assert forall|y: u64|
                out@.contains(y) <==> map@.dom().contains(y) && map@[y].contains(x) && exists|
                    j: int,
                | 0 <= j < i + 1 && keys@[j] == y by {
                if before.contains(y) {
                    let j = choose|j: int| 0 <= j < i && keys@[j] == y;
                    assert(0 <= j < i + 1 && keys@[j] == y);
                }
                if y == k {
                    assert(keys@[i as int] == y);
                }
                if exists|j: int| 0 <= j < i + 1 && keys@[j] == y {
                    let j = choose|j: int| 0 <= j < i + 1 && keys@[j] == y;
                    if j < i {
                    }
                }
            }
        }
        i = i + 1;
    }
    proof {
        let want = Set::new(|k: u64| map@.dom().contains(k) && map@[k].contains(x));
        assert forall|k: u64| out@.contains(k) <==> want.contains(k) by {
            if want.contains(k) {
                assert(keys@.to_set().contains(k));
                let j = choose|j: int| 0 <= j < keys@.len() && keys@[j] == k;
            }
        }
        assert(out@ =~= want);
    }
    out
}

/// Takes `x` out of a list without repetitions; the others keep their
/// order.
pub fn remove_value(list: &mut Vec<u64>, x: u64)
    requires
        old(list)@.no_duplicates(),
    ensures
        final(list)@.no_duplicates(),
        final(list)@.to_set() == old(list)@.to_set().remove(x),
        final(list)@ == old(list)@.filter(|y: u64| y != x),
{
    let ghost keep = |y: u64| y != x;
    let mut i: usize = 0;
    while i < list.len()
        invariant
            list@ == old(list)@,
            old(list)@.no_duplicates(),
            i <= list@.len(),
            forall|j: int| 0 <= j < i ==> list@[j] != x,
        decreases list@.len() - i,
    {
        if list[i] == x {
            list.remove(i);
            proof {
                let before = old(list)@;
                let after = list@;
                assert(after =~= before.take(i as int) + before.skip(i as int + 1));
                assert forall|a: int, b: int|
                    0 <= a < after.len() && 0 <= b < after.len() && a != b implies after[a]
                    != after[b] by {
                    let aa = if a < i {
                        a
                    } else {
                        a + 1
                    };
                    let bb = if b < i {
                        b
                    } else {
                        b + 1
                    };
                    assert(after[a] == before[aa] && after[b] == before[bb]);
                }
                assert forall|y: u64| after.to_set().contains(y) <==> before.to_set().remove(
                    x,
                ).contains(y) by {
                    if after.to_set().contains(y) {
                        let a = choose|a: int| 0 <= a < after.len() && after[a] == y;
                        let aa = if a < i {
                            a
                        } else {
                            a + 1
                        };
                        assert(before[aa] == y);
                        assert(aa != i);
                    }
                    if before.to_set().contains(y) && y != x {
                        let b = choose|b: int| 0 <= b < before.len() && before[b] == y;
                        let a = if b < i {
                            b
                        } else {
                            b - 1
                        };
                        assert(after[a] == y);
                    }
                }
                assert(after.to_set() =~= before.to_set().remove(x));
                lemma_filter_out_one(before, i as int, x);
            }
            return ;
        }
        i = i + 1;
    }
    proof {
        assert(!list@.to_set().contains(x)) by {
            if list@.to_set().contains(x) {
                let j = choose|j: int| 0 <= j < list@.len() && list@[j] == x;
            }
        }
        assert(list@.to_set() =~= old(list)@.to_set().remove(x));
        lemma_filter_keeps_all(list@, x);
    }
}

/// Filtering out a value that does not occur changes nothing.
proof fn lemma_filter_keeps_all(s: Seq<u64>, x: u64)
    requires
        forall|j: int| 0 <= j < s.len() ==> s[j] != x,
    ensures
        s.filter(|y: u64| y != x) == s,
    decreases s.len(),
{
    reveal(Seq::filter);
    if s.len() > 0 {
        lemma_filter_keeps_all(s.drop_last(), x);
        assert(s.drop_last().push(s.last()) =~= s);
    }
}

/// Filtering out the value at `i`, which occurs nowhere else, removes that
/// position.
proof fn lemma_filter_out_one(s: Seq<u64>, i: int, x: u64)
    requires
        0 <= i < s.len(),
        s[i] == x,
        s.no_duplicates(),
    ensures
        s.filter(|y: u64| y != x) == s.take(i) + s.skip(i + 1),
    decreases s.len(),
{
    reveal(Seq::filter);
    let keep = |y: u64| y != x;
    if i == s.len() - 1 {
        assert(s.skip(i + 1) =~= Seq::<u64>::empty());
        assert(s.take(i) =~= s.drop_last());
        assert forall|j: int| 0 <= j < s.drop_last().len() implies s.drop_last()[j] != x by {
            assert(s[j] != s[i]);
        }
        lemma_filter_keeps_all(s.drop_last(), x);
        assert(s.take(i) + s.skip(i + 1) =~= s.drop_last());
    } else {
        let front = s.drop_last();
        lemma_filter_out_one(front, i, x);
        assert(s.last() != x) by {
            assert(s[s.len() - 1] != s[i]);
        }
        assert(front.take(i) =~= s.take(i));
        assert((front.take(i) + front.skip(i + 1)).push(s.last()) =~= s.take(i) + s.skip(i + 1));
    }
}

} // verus!
