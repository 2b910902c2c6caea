//! Sets of entity ids, and tables from entity ids to such sets.

use bevy_platform::collections::HashMap;
use bevy_platform::collections::HashSet;
use bevy_platform::hash::FixedHasher;
use vstd::prelude::*;

verus! {

/// `bevy_platform::hash::FixedHasher`, the hasher of the sets and tables
/// below. Nothing is claimed of it.
#[verifier::external_type_specification]
#[verifier::external_body]
pub struct ExFixedHasher(FixedHasher);

/// `bevy_platform::collections::HashSet`. Its contents are opaque here;
/// `set_contents` names them.
#[verifier::external_type_specification]
#[verifier::external_body]
#[verifier::reject_recursive_types(T)]
#[verifier::reject_recursive_types(S)]
pub struct ExHashSet<T, S>(HashSet<T, S>);

/// `bevy_platform::collections::HashMap`. Its contents are opaque here;
/// `table_contents` names them.
#[verifier::external_type_specification]
#[verifier::external_body]
#[verifier::reject_recursive_types(K)]
#[verifier::reject_recursive_types(V)]
#[verifier::reject_recursive_types(S)]
pub struct ExHashMap<K, V, S>(HashMap<K, V, S>);

/// The ids that a hash set holds. The wrappers below say, after the
/// documentation of the set, how each method that this library calls
/// changes or reads them.
pub uninterp spec fn set_contents(s: HashSet<u64, FixedHasher>) -> Set<u64>;

/// The keys of a hash map of sets, each with the ids that its set holds.
pub uninterp spec fn table_contents(
    m: HashMap<u64, HashSet<u64, FixedHasher>, FixedHasher>,
) -> Map<u64, Set<u64>>;

/// `HashSet::new`: the new set is empty.
#[verifier::external_body]
fn set_new() -> (s: HashSet<u64, FixedHasher>)
    ensures
        set_contents(s) == Set::<u64>::empty(),
{
    HashSet::new()
}

/// `HashSet::insert`: the id is in the set afterwards; returns whether it
/// was new.
#[verifier::external_body]
fn set_insert(s: &mut HashSet<u64, FixedHasher>, id: u64) -> (fresh: bool)
    ensures
        set_contents(*final(s)) == set_contents(*old(s)).insert(id),
        fresh == !set_contents(*old(s)).contains(id),
{
    s.insert(id)
}

/// `HashSet::remove`: the id is not in the set afterwards; returns whether
/// it was there.
#[verifier::external_body]
fn set_remove(s: &mut HashSet<u64, FixedHasher>, id: u64) -> (was: bool)
    ensures
        set_contents(*final(s)) == set_contents(*old(s)).remove(id),
        was == set_contents(*old(s)).contains(id),
{
    s.remove(&id)
}

/// `HashSet::contains`: whether the id is in the set.
#[verifier::external_body]
fn set_contains(s: &HashSet<u64, FixedHasher>, id: u64) -> (found: bool)
    ensures
        found == set_contents(*s).contains(id),
{
    s.contains(&id)
}

/// `HashSet::len`: the number of ids in the set.
#[verifier::external_body]
fn set_len(s: &HashSet<u64, FixedHasher>) -> (n: usize)
    ensures
        n == set_contents(*s).len(),
{
    s.len()
}

/// `HashSet::is_empty`: whether the set holds no id.
#[verifier::external_body]
fn set_is_empty(s: &HashSet<u64, FixedHasher>) -> (empty: bool)
    ensures
        empty == (set_contents(*s) == Set::<u64>::empty()),
{
    s.is_empty()
}

/// `HashSet::iter`: every id of the set once. Nothing is claimed of the
/// order.
#[verifier::external_body]
fn set_iter(s: &HashSet<u64, FixedHasher>) -> (out: Vec<u64>)
    ensures
        out@.no_duplicates(),
        out@.to_set() == set_contents(*s),
{
    s.iter().copied().collect()
}

/// `HashMap::new`: the new map has no key.
#[verifier::external_body]
fn table_new() -> (m: HashMap<u64, HashSet<u64, FixedHasher>, FixedHasher>)
    ensures
        table_contents(m) == no_rows(),
{
    HashMap::new()
}

/// `HashMap::insert`: the key maps to the given set afterwards; the other
/// keys stay.
#[verifier::external_body]
fn table_insert(
    m: &mut HashMap<u64, HashSet<u64, FixedHasher>, FixedHasher>,
    k: u64,
    set: HashSet<u64, FixedHasher>,
)
    ensures
        table_contents(*final(m)) == table_contents(*old(m)).insert(k, set_contents(set)),
{
    m.insert(k, set);
}

/// `HashMap::remove`: the key is gone afterwards; returns the set that it
/// mapped to, if it was there.
#[verifier::external_body]
fn table_remove(m: &mut HashMap<u64,
    HashSet<u64, FixedHasher>, FixedHasher>, k: u64) -> (out: Option<
    HashSet<u64, FixedHasher>,
>)
    ensures
        table_contents(*final(m)) == table_contents(*old(m)).remove(k),
        out is Some == table_contents(*old(m)).dom().contains(k),
        out is Some ==> set_contents(out->0) == table_contents(*old(m))[k],
{
    m.remove(&k)
}

/// `HashMap::contains_key`: whether the key is in the map.
#[verifier::external_body]
fn table_contains_key(m: &HashMap<u64, HashSet<u64, FixedHasher>, FixedHasher>, k: u64) -> (found:
    bool)
    ensures
        found == table_contents(*m).dom().contains(k),
{
    m.contains_key(&k)
}

/// `HashMap::get`: the set under the key, if the key is in the map.
#[verifier::external_body]
fn table_get<'a>(m: &'a HashMap<u64,
    HashSet<u64, FixedHasher>, FixedHasher>, k: u64) -> (out: Option<
    &'a HashSet<u64, FixedHasher>,
>)
    ensures
        out is Some == table_contents(*m).dom().contains(k),
        out is Some ==> set_contents(*out->0) == table_contents(*m)[k],
{
    m.get(&k)
}

/// `HashMap::keys`: every key of the map once. Nothing is claimed of the
/// order.
#[verifier::external_body]
fn table_keys(m: &HashMap<u64, HashSet<u64, FixedHasher>, FixedHasher>) -> (out: Vec<u64>)
    ensures
        out@.no_duplicates(),
        out@.to_set() == table_contents(*m).dom(),
{
    m.keys().copied().collect()
}

/// `HashMap::len`: the number of keys.
#[verifier::external_body]
fn table_len(m: &HashMap<u64, HashSet<u64, FixedHasher>, FixedHasher>) -> (n: usize)
    ensures
        n == table_contents(*m).dom().len(),
{
    m.len()
}

/// A table without rows.
pub open spec fn no_rows() -> Map<u64, Set<u64>> {
    Map::empty()
}

/// A set of entity ids.
pub struct IdSet {
    inner: HashSet<u64, FixedHasher>,
}

impl View for IdSet {
    type V = Set<u64>;

    closed spec fn view(&self) -> Set<u64> {
        set_contents(self.inner)
    }
}

impl IdSet {
    /// The empty set.
    pub fn new() -> (s: Self)
        ensures
            s@ == Set::<u64>::empty(),
    {
        IdSet { inner: set_new() }
    }

    /// Adds `id`. Returns whether it was new.
    pub fn insert(&mut self, id: u64) -> (fresh: bool)
        ensures
            final(self)@ == old(self)@.insert(id),
            fresh == !old(self)@.contains(id),
    {
        set_insert(&mut self.inner, id)
    }

    /// Takes `id` out. Returns whether it was there.
    pub fn remove(&mut self, id: u64) -> (was: bool)
        ensures
            final(self)@ == old(self)@.remove(id),
            was == old(self)@.contains(id),
    {
        set_remove(&mut self.inner, id)
    }

    /// Whether `id` is in the set.
    pub fn contains(&self, id: u64) -> (found: bool)
        ensures
            found == self@.contains(id),
    {
        set_contains(&self.inner, id)
    }

    /// The number of ids.
    pub fn len(&self) -> (n: usize)
        ensures
            n == self@.len(),
    {
        set_len(&self.inner)
    }

    /// Whether the set holds no id.
    pub fn is_empty(&self) -> (empty: bool)
        ensures
            empty == (self@ == Set::<u64>::empty()),
    {
        set_is_empty(&self.inner)
    }

    /// The ids of the set, each once, in no stated order.
    pub fn members(&self) -> (out: Vec<u64>)
        ensures
            out@.no_duplicates(),
            out@.to_set() == self@,
    {
        set_iter(&self.inner)
    }
}

/// A table that lists a set of entity ids under each of its keys.
pub struct IdTable {
    inner: HashMap<u64, HashSet<u64, FixedHasher>, FixedHasher>,
}

impl View for IdTable {
    type V = Map<u64, Set<u64>>;

    closed spec fn view(&self) -> Map<u64, Set<u64>> {
        table_contents(self.inner)
    }
}

impl IdTable {
    /// The table without rows.
    pub fn new() -> (t: Self)
        ensures
            t@ == Map::<u64, Set<u64>>::empty(),
    {
        IdTable { inner: table_new() }
    }

    /// Puts `set` under the key `k`, in place of what was there.
    pub fn insert(&mut self, k: u64, set: IdSet)
        ensures
            final(self)@ == old(self)@.insert(k, set@),
    {
        table_insert(&mut self.inner, k, set.inner);
    }

    /// Takes the key `k` out. Returns the set that was under it.
    pub fn remove(&mut self, k: u64) -> (out: Option<IdSet>)
        ensures
            final(self)@ == old(self)@.remove(k),
            out is Some == old(self)@.dom().contains(k),
            out is Some ==> out->0@ == old(self)@[k],
    {
        match table_remove(&mut self.inner, k) {
            Some(inner) => Some(IdSet { inner }),
            None => None,
        }
    }

    /// Whether `k` is a key of the table.
    pub fn contains_key(&self, k: u64) -> (found: bool)
        ensures
            found == self@.dom().contains(k),
    {
        table_contains_key(&self.inner, k)
    }

    /// Whether the table lists `x` under the key `k`.
    pub fn lists(&self, k: u64, x: u64) -> (found: bool)
        ensures
            found == (self@.dom().contains(k) && self@[k].contains(x)),
    {
        match table_get(&self.inner, k) {
            Some(set) => set_contains(set, x),
            None => false,
        }
    }

    /// What the table lists under the key `k`, each id once, in no stated
    /// order; nothing where `k` is no key.
    pub fn members(&self, k: u64) -> (out: Vec<u64>)
        ensures
            out@.no_duplicates(),
            out@.to_set() == if self@.dom().contains(k) {
                self@[k]
            } else {
                Set::<u64>::empty()
            },
    {
        match table_get(&self.inner, k) {
            Some(set) => set_iter(set),
            None => {
                let out: Vec<u64> = Vec::new();
                assert(out@.to_set() =~= Set::<u64>::empty());
                out
            },
        }
    }

    /// The keys of the table, each once, in no stated order.
    pub fn keys(&self) -> (out: Vec<u64>)
        ensures
            out@.no_duplicates(),
            out@.to_set() == self@.dom(),
    {
        table_keys(&self.inner)
    }

    /// The number of keys.
    pub fn len(&self) -> (n: usize)
        ensures
            n == self@.dom().len(),
    {
        table_len(&self.inner)
    }
}

} // verus!
