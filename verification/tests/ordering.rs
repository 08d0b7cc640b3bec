use hybrid_data_structure::{key_rank, KeySet, Rank, Segment};

#[test]
fn key_rank_on_plain_keys() {
    assert_eq!(key_rank("a", "b"), Rank::Before);
    assert_eq!(key_rank("b", "a"), Rank::After);
    assert_eq!(key_rank("a", "a"), Rank::Same);
    assert_eq!(key_rank("", ""), Rank::Same);
    assert_eq!(key_rank("", "a"), Rank::Before);
    assert_eq!(key_rank("a", ""), Rank::After);
    assert_eq!(key_rank("ab", "abc"), Rank::Before);
    assert_eq!(key_rank("abd", "abc"), Rank::After);
    assert_eq!(key_rank("Z", "a"), Rank::Before);
    assert_eq!(key_rank("test2", "test10"), Rank::After);
}

#[test]
fn key_rank_is_the_order_of_str() {
    let keys = ["", "a", "ab", "b", "z", "\u{e9}", "\u{e9}a", "\u{4e2d}", "\u{1f600}", "~", "A"];
    for a in keys {
        for b in keys {
            let expected = match a.cmp(b) {
                std::cmp::Ordering::Less => Rank::Before,
                std::cmp::Ordering::Equal => Rank::Same,
                std::cmp::Ordering::Greater => Rank::After,
            };
            assert_eq!(key_rank(a, b), expected);
        }
    }
    assert_eq!(key_rank("z", "\u{e9}"), Rank::Before);
}

#[test]
fn key_set_keeps_keys_ascending_and_single() {
    let mut keys = KeySet::new();
    assert!(keys.is_empty());
    assert!(keys.insert("m"));
    assert!(keys.insert("a"));
    assert!(keys.insert("z"));
    assert!(!keys.insert("m"));
    assert!(keys.insert("b"));
    assert_eq!(keys.len(), 4);
    assert!(!keys.is_empty());
    let stored: Vec<&str> = (0..keys.len()).map(|i| *keys.key_at(i)).collect();
    assert_eq!(stored, vec!["a", "b", "m", "z"]);
}

#[test]
fn key_set_search_gives_membership_and_rank() {
    let mut keys = KeySet::new();
    for key in ["d", "b", "f"] {
        keys.insert(key);
    }
    assert_eq!(keys.search("a"), (false, 0));
    assert_eq!(keys.search("b"), (true, 0));
    assert_eq!(keys.search("c"), (false, 1));
    assert_eq!(keys.search("d"), (true, 1));
    assert_eq!(keys.search("e"), (false, 2));
    assert_eq!(keys.search("f"), (true, 2));
    assert_eq!(keys.search("g"), (false, 3));
    assert!(keys.contains("d"));
    assert!(!keys.contains("e"));
    assert_eq!(keys.get("f"), Some("f"));
    assert_eq!(keys.get("e"), None);
}

#[test]
fn segment_registers_and_stores() {
    let mut segment = Segment::new(3, 16);
    assert_eq!(segment.capacity(), 3);
    assert_eq!(segment.bitmap_size(), 16);
    assert_eq!(segment.len(), 0);
    assert!(!segment.is_full());
    assert!(!segment.contains("a"));
    segment.insert("b");
    segment.insert("a");
    segment.insert("c");
    assert!(segment.is_full());
    assert_eq!(segment.len(), 3);
    assert!(segment.contains("a") && segment.contains("b") && segment.contains("c"));
    assert!(!segment.contains("d"));
    assert_eq!(segment.get("c"), Some("c"));
    assert_eq!(segment.get("d"), None);
    assert_eq!(*segment.key_at(0), "a");
    assert_eq!(*segment.key_at(2), "c");
}
