use atri_elo_common::contest_group::ContestGroup;
use atri_elo_common::table::Table;
use std::collections::HashSet;

#[test]
fn table_finds_what_was_put_in() {
    let mut table: Table<u32> = Table::new();
    assert_eq!(table.len(), 0);
    assert_eq!(table.get(5), None);
    table.insert(5, 50);
    table.insert(-3, 30);
    table.insert(9, 90);
    assert_eq!(table.len(), 3);
    assert_eq!(table.get(5), Some(&50));
    assert_eq!(table.get(-3), Some(&30));
    assert_eq!(table.get(9), Some(&90));
    assert_eq!(table.get(4), None);
    assert_eq!(table.position(-3), Some(1));
    assert_eq!(table.position(4), None);
    assert_eq!((table.id_at(0), table.id_at(1), table.id_at(2)), (5, -3, 9));
    assert_eq!(*table.value_at(2), 90);
}

#[test]
fn table_replaces_in_place() {
    let mut table: Table<u32> = Table::new();
    table.insert(1, 10);
    table.insert(2, 20);
    table.insert(1, 11);
    assert_eq!(table.len(), 2);
    assert_eq!(table.get(1), Some(&11));
    assert_eq!(table.position(1), Some(0));
    *table.value_at_mut(1) = 21;
    assert_eq!(table.get(2), Some(&21));
    assert_eq!(table.get(1), Some(&11));
}

#[test]
fn contest_group_keeps_its_parts() {
    let contests: HashSet<u64> = [3, 5, 8].into_iter().collect();
    let group = ContestGroup::new(7, String::from("spring"), contests.clone());
    assert_eq!(group.id, 7);
    assert_eq!(group.name, "spring");
    assert_eq!(group.contests, contests);
}
