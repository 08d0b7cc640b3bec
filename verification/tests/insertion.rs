use hybrid_data_structure::{Hybrid, Traversal};

fn views(refs: Vec<&&str>) -> Vec<String> {
    refs.into_iter().map(|k| k.to_string()).collect()
}

#[test]
fn inserted_key_is_found_and_stays_found() {
    let mut set = Hybrid::new(4, 8).unwrap();
    set.insert("first");
    assert!(set.contains("first"));
    let later = ["b", "c", "d", "e", "f", "g", "h", "i", "j"];
    for key in later {
        set.insert(key);
        assert!(set.contains("first"));
    }
    let mut other = Hybrid::new(4, 8).unwrap();
    other.insert("k");
    set.union(&mut other);
    assert!(set.contains("first"));
    for key in later {
        assert!(set.contains(key));
    }
}

#[test]
fn inserting_twice_is_inserting_once() {
    let mut once = Hybrid::new(3, 8).unwrap();
    once.insert("a");
    once.insert("b");
    let mut twice = Hybrid::new(3, 8).unwrap();
    twice.insert("a");
    twice.insert("b");
    twice.insert("b");
    twice.insert("a");
    assert_eq!(once.len(), 2);
    assert_eq!(twice.len(), 2);
    assert_eq!(twice.segment_count(), once.segment_count());
    assert_eq!(views(twice.iter()), views(once.iter()));
    for key in ["a", "b", "c"] {
        assert_eq!(twice.contains(key), once.contains(key));
    }
}

#[test]
fn same_key_twice_at_capacity_one_keeps_one_segment() {
    let mut set = Hybrid::new(1, 8).unwrap();
    set.insert("only");
    set.insert("only");
    assert_eq!(set.segment_count(), 1);
    assert_eq!(set.len(), 1);
}

#[test]
fn full_last_segment_makes_a_new_one() {
    let mut set = Hybrid::new(2, 8).unwrap();
    set.insert("m");
    assert_eq!(set.segment_count(), 1);
    set.insert("a");
    assert_eq!(set.segment_count(), 1);
    set.insert("z");
    assert_eq!(set.segment_count(), 2);
    set.insert("b");
    assert_eq!(set.segment_count(), 2);
    set.insert("c");
    assert_eq!(set.segment_count(), 3);
    assert_eq!(set.len(), 5);
}

#[test]
fn keys_come_out_segment_by_segment_and_ascending_within_each() {
    let mut set = Hybrid::new(3, 8).unwrap();
    for key in ["pear", "apple", "fig", "kiwi", "date", "plum", "lime"] {
        set.insert(key);
    }
    assert_eq!(set.segment_count(), 3);
    assert_eq!(
        views(set.iter()),
        vec!["apple", "fig", "pear", "date", "kiwi", "plum", "lime"]
    );
    assert_eq!(
        set.get_iter(),
        vec!["apple", "fig", "pear", "date", "kiwi", "plum", "lime"]
    );
}

#[test]
fn get_item_returns_the_stored_key() {
    let stored = String::from("shared");
    let asked = String::from("shared");
    let mut set = Hybrid::new(4, 8).unwrap();
    set.insert(stored.as_str());
    let found = set.get_item(asked.as_str()).unwrap();
    assert_eq!(found, "shared");
    assert!(std::ptr::eq(found.as_ptr(), stored.as_ptr()));
}

#[test]
fn get_item_finds_keys_in_every_segment() {
    let mut set = Hybrid::new(1, 8).unwrap();
    for key in ["a", "b", "c"] {
        set.insert(key);
    }
    assert_eq!(set.segment_count(), 3);
    assert_eq!(set.get_item("a"), Some("a"));
    assert_eq!(set.get_item("b"), Some("b"));
    assert_eq!(set.get_item("c"), Some("c"));
    assert_eq!(set.get_item("d"), None);
}

#[test]
fn traversal_order_does_not_change_answers() {
    let keys: Vec<String> = (0..50).map(|i| format!("key-{}", i)).collect();
    let mut set = Hybrid::new(7, 16).unwrap();
    for key in keys.iter().step_by(2) {
        set.insert(key);
    }
    let oldest: Vec<bool> = keys.iter().map(|k| set.contains(k)).collect();
    set.set_traversal(Traversal::NewestFirst);
    assert_eq!(set.traversal(), Traversal::NewestFirst);
    let newest: Vec<bool> = keys.iter().map(|k| set.contains(k)).collect();
    assert_eq!(oldest, newest);
    for (i, key) in keys.iter().enumerate() {
        assert_eq!(set.contains(key), i % 2 == 0);
        assert_eq!(set.get_item(key).is_some(), i % 2 == 0);
    }
    assert_eq!(set.len(), 25);
}

#[test]
fn many_keys_through_a_tiny_filter_are_all_found() {
    let keys: Vec<String> = (0..300).map(|i| format!("k{}", i)).collect();
    let absent: Vec<String> = (0..300).map(|i| format!("absent{}", i)).collect();
    let mut set = Hybrid::new(100, 1).unwrap();
    for key in &keys {
        set.insert(key);
    }
    assert_eq!(set.len(), 300);
    assert_eq!(set.segment_count(), 3);
    for key in &keys {
        assert!(set.contains(key));
    }
    for key in &absent {
        assert!(!set.contains(key));
    }
}

#[test]
fn has_fewer_than_counts_exactly() {
    let mut set = Hybrid::new(2, 8).unwrap();
    assert!(!set.has_fewer_than(0));
    assert!(set.has_fewer_than(1));
    for key in ["a", "b", "c"] {
        set.insert(key);
    }
    assert!(!set.has_fewer_than(3));
    assert!(set.has_fewer_than(4));
    assert!(set.has_fewer_than(usize::MAX));
}
