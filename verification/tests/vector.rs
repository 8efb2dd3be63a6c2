use assoc_table::vector::Vector;

#[test]
fn new_vector_is_empty() {
    let v: Vector<i32> = Vector::new();
    assert_eq!(v.len(), 0);
    assert_eq!(v.get(0), None);
}

#[test]
fn with_capacity_starts_empty() {
    let v: Vector<i32> = Vector::with_capacity(8);
    assert_eq!(v.len(), 0);
}

#[test]
fn push_then_pop_in_reverse_order() {
    let mut v: Vector<i32> = Vector::new();
    v.push(1);
    v.push(2);
    v.push(3);
    assert_eq!(v.pop(), Some(3));
    assert_eq!(v.pop(), Some(2));
    assert_eq!(v.pop(), Some(1));
    assert_eq!(v.pop(), None);
}

#[test]
fn get_reads_by_position() {
    let mut v: Vector<&str> = Vector::new();
    v.push("a");
    v.push("b");
    assert_eq!(v.get(0), Some(&"a"));
    assert_eq!(v.get(1), Some(&"b"));
    assert_eq!(v.get(2), None);
}

#[test]
fn remove_shifts_the_tail() {
    let mut v: Vector<i32> = Vector::new();
    v.push(10);
    v.push(20);
    v.push(30);
    assert_eq!(v.remove(1), Some(20));
    assert_eq!(v.len(), 2);
    assert_eq!(v.get(0), Some(&10));
    assert_eq!(v.get(1), Some(&30));
    assert_eq!(v.remove(5), None);
    assert_eq!(v.len(), 2);
}

#[test]
fn resize_grows_with_generated_elements() {
    let mut v: Vector<usize> = Vector::new();
    v.push(100);
    v.resize(4, |i| i * 10);
    assert_eq!(v.len(), 4);
    assert_eq!(v.get(0), Some(&100));
    assert_eq!(v.get(1), Some(&10));
    assert_eq!(v.get(2), Some(&20));
    assert_eq!(v.get(3), Some(&30));
}

#[test]
fn resize_shrinks_by_truncation() {
    let mut v: Vector<i32> = Vector::new();
    v.push(1);
    v.push(2);
    v.push(3);
    v.resize(1, |_| 0);
    assert_eq!(v.len(), 1);
    assert_eq!(v.get(0), Some(&1));
    assert_eq!(v.get(1), None);
}

#[test]
fn resize_to_same_length_changes_nothing() {
    let mut v: Vector<i32> = Vector::new();
    v.push(7);
    v.resize(1, |_| 9);
    assert_eq!(v.len(), 1);
    assert_eq!(v.get(0), Some(&7));
}
