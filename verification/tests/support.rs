use rate_limiter::table::Table;
use rate_limiter::timeline::{add_entry, count_entries_from, keep_entries_from};

#[test]
fn table_keeps_one_value_per_key() {
    let mut table: Table<u32> = Table::new();
    assert_eq!(table.len(), 0);
    assert_eq!(table.get("a"), None);
    table.put("a", 1);
    table.put("b", 2);
    table.put("a", 3);
    assert_eq!(table.len(), 2);
    assert_eq!(table.get("a"), Some(&3));
    assert_eq!(table.get("b"), Some(&2));
    assert_eq!(table.get("c"), None);
}

#[test]
fn table_lists_keys_in_order_of_arrival() {
    let mut table: Table<u32> = Table::new();
    table.put("x", 1);
    table.put("y", 2);
    table.put("x", 3);
    table.put("z", 4);
    assert_eq!(table.key(0), "x");
    assert_eq!(table.key(1), "y");
    assert_eq!(table.key(2), "z");
}

#[test]
fn entry_goes_behind_its_equals() {
    assert_eq!(add_entry(&vec![], 5), vec![5]);
    assert_eq!(add_entry(&vec![1, 3, 5], 4), vec![1, 3, 4, 5]);
    assert_eq!(add_entry(&vec![1, 3, 5], 0), vec![0, 1, 3, 5]);
    assert_eq!(add_entry(&vec![1, 3, 5], 9), vec![1, 3, 5, 9]);
    assert_eq!(add_entry(&vec![1, 3, 3, 5], 3), vec![1, 3, 3, 3, 5]);
}

#[test]
fn entries_from_a_bound() {
    assert_eq!(keep_entries_from(&vec![1, 3, 3, 5], 3), vec![3, 3, 5]);
    assert_eq!(keep_entries_from(&vec![1, 3, 3, 5], 4), vec![5]);
    assert_eq!(keep_entries_from(&vec![1, 3, 3, 5], 6), Vec::<u64>::new());
    assert_eq!(keep_entries_from(&vec![1, 3, 3, 5], 0), vec![1, 3, 3, 5]);
}

#[test]
fn count_from_a_bound() {
    assert_eq!(count_entries_from(&vec![1, 3, 3, 5], 3), 3);
    assert_eq!(count_entries_from(&vec![1, 3, 3, 5], 4), 1);
    assert_eq!(count_entries_from(&vec![1, 3, 3, 5], 6), 0);
    assert_eq!(count_entries_from(&vec![], 0), 0);
}
