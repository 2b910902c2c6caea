use freebricks::idset::IdSet;
use freebricks::idset::IdTable;
use freebricks::sets::extend_from;
use freebricks::sets::extend_set;
use freebricks::sets::key_set;
use freebricks::sets::keys_listing;
use freebricks::sets::map_keys;
use freebricks::sets::remove_value;
use freebricks::sets::set_members;
use freebricks::sets::subtract_from;
use freebricks::sets::subtract_set;

fn set_of(items: &[u64]) -> IdSet {
    let mut set = IdSet::new();
    for id in items {
        set.insert(*id);
    }
    set
}

fn ids(set: &IdSet) -> Vec<u64> {
    let mut v = set.members();
    v.sort();
    v
}

#[test]
fn id_set_holds_each_id_once() {
    let mut set = IdSet::new();
    assert!(set.is_empty());
    assert_eq!(set.len(), 0);
    assert!(set.insert(3));
    assert!(!set.insert(3));
    assert!(set.insert(1));
    assert!(set.contains(3));
    assert!(!set.contains(2));
    assert_eq!(set.len(), 2);
    assert!(!set.is_empty());
    assert_eq!(ids(&set), vec![1, 3]);
    assert!(set.remove(3));
    assert!(!set.remove(3));
    assert!(!set.contains(3));
    assert_eq!(ids(&set), vec![1]);
}

#[test]
fn id_table_keeps_a_set_under_each_key() {
    let mut table = IdTable::new();
    assert_eq!(table.len(), 0);
    assert!(!table.contains_key(5));
    assert!(table.remove(5).is_none());
    assert!(table.members(5).is_empty());
    table.insert(5, set_of(&[1, 2]));
    table.insert(6, set_of(&[2]));
    assert_eq!(table.len(), 2);
    assert!(table.contains_key(5));
    assert!(table.lists(5, 1));
    assert!(!table.lists(6, 1));
    assert!(!table.lists(7, 1));
    let mut listed = table.members(5);
    listed.sort();
    assert_eq!(listed, vec![1, 2]);
    table.insert(5, set_of(&[9]));
    assert_eq!(table.members(5), vec![9]);
    let taken = table.remove(6).expect("6 is a key");
    assert_eq!(ids(&taken), vec![2]);
    assert!(!table.contains_key(6));
    let mut keys = table.keys();
    keys.sort();
    assert_eq!(keys, vec![5]);
}

#[test]
fn members_and_keys_come_out_once() {
    let mut members = set_members(&set_of(&[3, 1, 2, 3]));
    members.sort();
    assert_eq!(members, vec![1, 2, 3]);
    let mut table = IdTable::new();
    table.insert(5u64, set_of(&[1, 2]));
    table.insert(6u64, set_of(&[2]));
    let mut keys = map_keys(&table);
    keys.sort();
    assert_eq!(keys, vec![5, 6]);
    assert_eq!(ids(&key_set(&table)), vec![5, 6]);
    assert_eq!(ids(&keys_listing(&table, 2)), vec![5, 6]);
    assert_eq!(ids(&keys_listing(&table, 1)), vec![5]);
    assert_eq!(ids(&keys_listing(&table, 9)), Vec::<u64>::new());
}

#[test]
fn union_and_difference() {
    let mut a = set_of(&[1, 2]);
    extend_set(&mut a, &set_of(&[2, 3]));
    assert_eq!(ids(&a), vec![1, 2, 3]);
    subtract_set(&mut a, &set_of(&[1, 3, 7]));
    assert_eq!(ids(&a), vec![2]);
    extend_from(&mut a, &vec![8, 8, 2]);
    assert_eq!(ids(&a), vec![2, 8]);
    subtract_from(&mut a, &vec![2, 2, 5]);
    assert_eq!(ids(&a), vec![8]);
}

#[test]
fn remove_value_keeps_the_order() {
    let mut list = vec![4, 8, 6, 2];
    remove_value(&mut list, 6);
    assert_eq!(list, vec![4, 8, 2]);
    remove_value(&mut list, 6);
    assert_eq!(list, vec![4, 8, 2]);
    remove_value(&mut list, 4);
    assert_eq!(list, vec![8, 2]);
}
