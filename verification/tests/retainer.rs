use disk_usage_core::biggest::{Biggest, DocInfo};

fn doc(path: &str, size: usize) -> DocInfo {
    DocInfo { path: path.to_string(), size }
}

fn sizes(b: &Biggest) -> Vec<usize> {
    b.values().iter().map(|d| d.size).collect()
}

#[test]
fn admits_zero_rejected_right_after_construction() {
    let b = Biggest::new(3);
    assert!(!b.is_big_enough(0));
    assert!(b.is_big_enough(1));
}

#[test]
fn floor_stays_zero_through_the_fill_phase() {
    let mut b = Biggest::new(2);
    b.insert(doc("a", 9));
    assert!(!b.is_big_enough(0));
    assert!(b.is_big_enough(1));
    b.insert(doc("b", 4));
    // full now, but no resort has happened yet: the floor is still zero
    assert!(b.is_big_enough(1));
    assert_eq!(b.sort_count(), 0);
}

#[test]
fn displacing_insert_raises_minimum_and_counts_one_resort() {
    let mut b = Biggest::new(3);
    b.insert(doc("a", 10));
    b.insert(doc("b", 20));
    b.insert(doc("c", 30));
    assert_eq!(b.sort_count(), 0);
    b.insert(doc("d", 25));
    let mut got = sizes(&b);
    got.sort();
    assert_eq!(got, vec![20, 25, 30]);
    assert_eq!(b.sort_count(), 1);
    // the retained minimum dropped from 10 to 20, the new 3rd largest
    assert!(!b.is_big_enough(20));
    assert!(b.is_big_enough(21));
}

#[test]
fn retains_the_k_largest_of_a_mixed_stream() {
    let mut b = Biggest::new(2);
    b.insert(doc("a", 5));
    b.insert(doc("b", 1));
    b.insert(doc("c", 0));
    b.insert(doc("d", 7));
    b.insert(doc("e", 3));
    let mut got = sizes(&b);
    got.sort();
    assert_eq!(got, vec![5, 7]);
    let vals = b.values();
    let mut paths: Vec<String> = vals.iter().map(|d| d.path.clone()).collect();
    paths.sort();
    assert_eq!(paths, vec!["a".to_string(), "d".to_string()]);
}

#[test]
fn values_keep_insertion_order_while_filling() {
    let mut b = Biggest::new(4);
    b.insert(doc("x", 3));
    b.insert(doc("y", 8));
    b.insert(doc("z", 1));
    assert_eq!(sizes(&b), vec![3, 8, 1]);
    assert_eq!(b.sort_count(), 0);
}

#[test]
fn discards_entry_equal_to_the_floor() {
    let mut b = Biggest::new(2);
    b.insert(doc("a", 5));
    b.insert(doc("b", 3));
    b.insert(doc("c", 6));
    // the displacing insert dropped 3 and raised the floor to 5;
    // an entry of exactly 5 is discarded
    assert!(!b.is_big_enough(5));
    b.insert(doc("d", 5));
    let mut got = sizes(&b);
    got.sort();
    assert_eq!(got, vec![5, 6]);
    assert_eq!(b.sort_count(), 1);
}
