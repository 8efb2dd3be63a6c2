use assoc_table::table::AssociativeTable;
use assoc_table::table::TableError;

#[test]
fn zero_capacity_is_refused() {
    let t = AssociativeTable::<i32>::new(0);
    match t {
        Ok(_) => panic!("a zero-capacity table must not be constructed"),
        Err(e) => assert_eq!(e, TableError::InvalidCapacity),
    }
}

#[test]
fn new_table_is_empty() {
    let t = AssociativeTable::<i32>::new(16).unwrap();
    assert_eq!(t.len(), 0);
    assert_eq!(t.get("anything"), None);
}

#[test]
fn round_trip_insert_then_get() {
    let mut t = AssociativeTable::<i32>::new(16).unwrap();
    t.insert("a".to_string(), 1);
    assert_eq!(t.get("a"), Some(&1));
    assert_eq!(t.len(), 1);
}

#[test]
fn overwrite_keeps_size_and_newest_value() {
    let mut t = AssociativeTable::<i32>::new(16).unwrap();
    t.insert("k".to_string(), 1);
    let size_after_first = t.len();
    t.insert("k".to_string(), 2);
    assert_eq!(t.get("k"), Some(&2));
    assert_eq!(t.len(), size_after_first);
}

#[test]
fn remove_returns_value_and_shrinks() {
    let mut t = AssociativeTable::<i32>::new(16).unwrap();
    t.insert("k".to_string(), 41);
    let before = t.len();
    assert_eq!(t.remove("k"), Some(41));
    assert_eq!(t.get("k"), None);
    assert_eq!(t.len(), before - 1);
}

#[test]
fn absent_key_gives_absent_results() {
    let mut t = AssociativeTable::<i32>::new(16).unwrap();
    t.insert("present".to_string(), 5);
    let before = t.len();
    assert_eq!(t.get("missing"), None);
    assert_eq!(t.remove("missing"), None);
    assert_eq!(t.len(), before);
}

#[test]
fn colliding_keys_are_not_conflated() {
    // With a single bucket every key collides with every other.
    let mut t = AssociativeTable::<i32>::new(1).unwrap();
    t.insert("first".to_string(), 10);
    t.insert("second".to_string(), 20);
    t.insert("third".to_string(), 30);
    assert_eq!(t.get("first"), Some(&10));
    assert_eq!(t.get("second"), Some(&20));
    assert_eq!(t.get("third"), Some(&30));
    assert_eq!(t.len(), 3);
    assert_eq!(t.remove("second"), Some(20));
    assert_eq!(t.get("first"), Some(&10));
    assert_eq!(t.get("second"), None);
    assert_eq!(t.get("third"), Some(&30));
    assert_eq!(t.len(), 2);
}

#[test]
fn bucket_index_is_deterministic_and_in_range() {
    let t = AssociativeTable::<i32>::new(16).unwrap();
    assert_eq!(t.hash("stable"), t.hash("stable"));
    assert!(t.get_bucket_index("stable") < 16);
    assert_eq!(t.get_bucket_index("stable"), t.get_bucket_index("stable"));
}

#[test]
fn size_counts_distinct_keys_over_mixed_calls() {
    let mut t = AssociativeTable::<i32>::new(4).unwrap();
    t.insert("a".to_string(), 1);
    t.insert("b".to_string(), 2);
    t.insert("a".to_string(), 3);
    t.insert("c".to_string(), 4);
    t.remove("b");
    t.remove("b");
    t.insert("d".to_string(), 5);
    // distinct keys now present: a, c, d
    let mut count: usize = 0;
    for k in ["a", "b", "c", "d"] {
        if t.get(k).is_some() {
            count += 1;
        }
    }
    assert_eq!(t.len(), count);
    assert_eq!(t.len(), 3);
}

#[test]
fn scenario_three_keys() {
    let mut t = AssociativeTable::<i32>::new(16).unwrap();
    t.insert("one".to_string(), 1);
    t.insert("two".to_string(), 2);
    t.insert("three".to_string(), 3);
    assert_eq!(t.get("two"), Some(&2));
    assert_eq!(t.remove("one"), Some(1));
    assert_eq!(t.get("one"), None);
    assert_eq!(t.len(), 2);
}
