use hybrid_data_structure::Hybrid;

fn names(prefix: &str, count: usize) -> Vec<String> {
    (0..count).map(|i| format!("{}{:05}", prefix, i)).collect()
}

fn set_of<'a>(capacity: usize, keys: &'a [String]) -> Hybrid<'a> {
    let mut set = Hybrid::new(capacity, 64).unwrap();
    for key in keys {
        set.insert(key);
    }
    set
}

#[test]
fn small_union_takes_every_key() {
    let mine = names("m", 40);
    let theirs = names("t", 25);
    let mut a = set_of(16, &mine);
    let mut b = set_of(16, &theirs);
    b.insert(&mine[3]);
    b.insert(&mine[7]);
    let len_a = a.len();
    let len_b = b.len();
    a.union(&mut b);
    for key in b.get_iter() {
        assert!(a.contains(key));
    }
    for key in &mine {
        assert!(a.contains(key));
    }
    assert!(a.len() >= len_a.max(len_b));
    assert_eq!(a.len(), 65);
    assert_eq!(b.len(), len_b);
    assert_eq!(b.segment_count(), 2);
}

#[test]
fn empty_set_takes_in_a_set() {
    let theirs = names("t", 5);
    let mut empty = Hybrid::new(3, 8).unwrap();
    let mut s = set_of(3, &theirs);
    empty.union(&mut s);
    assert_eq!(empty.len(), 5);
    for key in &theirs {
        assert!(empty.contains(key));
        assert!(s.contains(key));
    }
    assert_eq!(s.len(), 5);
}

#[test]
fn taking_in_an_empty_set_changes_nothing() {
    let mine = names("m", 5);
    let mut a = set_of(3, &mine);
    let before: Vec<&str> = a.get_iter();
    let segments = a.segment_count();
    let mut empty = Hybrid::new(3, 8).unwrap();
    a.union(&mut empty);
    assert_eq!(a.get_iter(), before);
    assert_eq!(a.segment_count(), segments);
    assert!(empty.is_empty());
    assert_eq!(empty.segment_count(), 1);

    let mut none = Hybrid::new(3, 8).unwrap();
    none.union(&mut empty);
    assert!(none.is_empty());
    assert_eq!(none.segment_count(), 1);
}

#[test]
fn taking_in_an_empty_set_changes_nothing_at_threshold_zero() {
    let mine = names("m", 5);
    let mut a = set_of(3, &mine);
    a.set_small_merge_threshold(0);
    let mut empty = Hybrid::new(3, 8).unwrap();
    a.union(&mut empty);
    assert_eq!(a.segment_count(), 2);
    assert_eq!(a.len(), 5);
    assert_eq!(empty.segment_count(), 1);
}

#[test]
fn one_key_short_of_the_threshold_is_inserted_key_by_key() {
    let mine = names("m", 10);
    let theirs = names("t", 999);
    let mut a = set_of(100, &mine);
    let mut b = set_of(100, &theirs);
    b.insert(&mine[0]);
    b.insert(&mine[0]);
    assert_eq!(b.len(), 1000);
    let mut c = set_of(100, &theirs);
    assert_eq!(c.len(), 999);
    a.union(&mut c);
    assert_eq!(c.len(), 999);
    assert_eq!(c.segment_count(), 10);
    assert_eq!(a.len(), 1009);
    assert_eq!(a.segment_count(), 11);
    assert!(a.is_superset(&c));
}

#[test]
fn at_the_threshold_whole_segments_move() {
    let mine = names("m", 10);
    let theirs = names("t", 1000);
    let mut a = set_of(100, &mine);
    let mut b = set_of(250, &theirs);
    assert_eq!(b.segment_count(), 4);
    let theirs_in_order: Vec<&str> = b.get_iter();
    a.union(&mut b);
    assert_eq!(a.segment_count(), 5);
    assert_eq!(a.len(), 1010);
    let merged: Vec<&str> = a.get_iter();
    assert_eq!(&merged[..10], &set_of(100, &mine).get_iter()[..]);
    assert_eq!(&merged[10..], &theirs_in_order[..]);
    for key in &theirs {
        assert!(a.contains(key));
    }
    assert!(b.is_empty());
    assert_eq!(b.len(), 0);
    assert_eq!(b.segment_count(), 1);
    assert!(!b.contains(&theirs[0]));
}

#[test]
fn emptied_set_can_be_filled_again_with_its_old_sizes() {
    let theirs = names("t", 1000);
    let more = names("n", 251);
    let mut a = Hybrid::new(100, 64).unwrap();
    let mut b = set_of(250, &theirs);
    a.union(&mut b);
    assert_eq!(a.len(), 1000);
    for key in &theirs {
        assert!(a.contains(key));
        assert!(!b.contains(key));
    }
    for key in &more {
        b.insert(key);
    }
    assert_eq!(b.len(), 251);
    assert_eq!(b.segment_count(), 2);
}

#[test]
fn small_union_counts_a_key_once_that_the_other_set_stores_twice() {
    let mut twice = Hybrid::new(4, 8).unwrap();
    twice.set_small_merge_threshold(1);
    twice.insert("x");
    let mut again = Hybrid::new(4, 8).unwrap();
    again.insert("x");
    twice.union(&mut again);
    assert_eq!(twice.len(), 2);
    assert_eq!(twice.get_iter(), vec!["x", "x"]);

    let mut fresh = Hybrid::new(4, 8).unwrap();
    fresh.union(&mut twice);
    assert_eq!(fresh.len(), 1);
    assert!(fresh.contains("x"));
    assert_eq!(twice.len(), 2);
}

#[test]
fn keys_after_moved_segments_go_to_the_moved_last_segment() {
    let theirs = names("t", 1000);
    let more = names("n", 3);
    let mut a = Hybrid::new(2, 64).unwrap();
    let mut b = set_of(600, &theirs);
    assert_eq!(b.segment_count(), 2);
    a.union(&mut b);
    assert_eq!(a.segment_count(), 3);
    for key in &more {
        a.insert(key);
    }
    assert_eq!(a.segment_count(), 3);
    assert_eq!(a.len(), 1003);
}

#[test]
fn moved_segments_store_a_shared_key_twice() {
    let theirs = names("t", 1000);
    let mut a = Hybrid::new(100, 64).unwrap();
    a.insert(&theirs[0]);
    a.insert(&theirs[1]);
    a.insert("mine");
    let mut b = set_of(500, &theirs);
    a.union(&mut b);
    assert_eq!(a.len(), 1003);
    let stored = a.get_iter();
    assert_eq!(stored.iter().filter(|k| **k == theirs[0]).count(), 2);
    assert_eq!(stored.iter().filter(|k| **k == theirs[1]).count(), 2);
    assert_eq!(stored.iter().filter(|k| **k == theirs[2]).count(), 1);
    assert!(a.contains(&theirs[0]));
    a.insert(&theirs[0]);
    assert_eq!(a.len(), 1003);

    let distinct = set_of(2000, &theirs);
    let mut with_mine = set_of(2000, &theirs);
    with_mine.insert("mine");
    assert!(a.is_subset(&with_mine) && with_mine.is_subset(&a));
    assert_eq!(with_mine.len(), 1001);
    assert!(distinct.is_subset(&a));
}

#[test]
fn the_threshold_can_be_tuned() {
    let mine = names("m", 3);
    let theirs = names("t", 5);
    let mut a = set_of(10, &mine);
    a.set_small_merge_threshold(5);
    assert_eq!(a.small_merge_threshold(), 5);
    let mut b = set_of(10, &theirs);
    a.union(&mut b);
    assert_eq!(a.segment_count(), 2);
    assert!(b.is_empty());

    let mut c = set_of(10, &mine);
    c.set_small_merge_threshold(6);
    let mut d = set_of(10, &theirs);
    c.union(&mut d);
    assert_eq!(c.segment_count(), 1);
    assert_eq!(d.len(), 5);
    assert_eq!(c.len(), 8);
}

#[test]
fn union_returns_the_set_that_took_the_keys() {
    let mine = names("m", 3);
    let theirs = names("t", 2);
    let more = names("n", 1);
    let mut a = set_of(10, &mine);
    let mut b = set_of(10, &theirs);
    let merged = a.union(&mut b);
    merged.insert(&more[0]);
    assert_eq!(merged.len(), 6);
    assert_eq!(a.len(), 6);
    assert!(a.contains(&more[0]));
}
