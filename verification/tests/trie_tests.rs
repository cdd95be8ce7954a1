use ac_benchmark::naive_trie::NaiveTrie;

#[test]
fn test_new_trie_holds_empty_string_only() {
    let trie = NaiveTrie::new();
    assert!(trie.contains(b""));
    assert!(!trie.contains(b"a"));
    assert!(!trie.contains(&[0]));
}

#[test]
fn test_default_is_new() {
    let trie = NaiveTrie::default();
    assert!(trie.contains(b""));
    assert!(!trie.contains(b"a"));
}

#[test]
fn test_insert_enters_prefixes() {
    let mut trie = NaiveTrie::new();
    trie.insert(b"abc");
    assert!(trie.contains(b""));
    assert!(trie.contains(b"a"));
    assert!(trie.contains(b"ab"));
    assert!(trie.contains(b"abc"));
    assert!(!trie.contains(b"abcd"));
    assert!(!trie.contains(b"b"));
    assert!(!trie.contains(b"ac"));
    trie.insert(b"abc");
    trie.insert(b"");
    assert!(trie.contains(b"abc"));
    assert!(!trie.contains(b"abcd"));
}

#[test]
fn test_remove_keeps_shared_prefix() {
    let mut trie = NaiveTrie::new();
    trie.insert(b"abc");
    trie.insert(b"abd");
    trie.remove(b"abc");
    assert!(!trie.contains(b"abc"));
    assert!(trie.contains(b"ab"));
    assert!(trie.contains(b"abd"));
    trie.remove(b"abd");
    assert!(!trie.contains(b"abd"));
    assert!(!trie.contains(b"ab"));
    assert!(!trie.contains(b"a"));
    assert!(trie.contains(b""));
}

#[test]
fn test_remove_of_prefix_changes_nothing() {
    let mut trie = NaiveTrie::new();
    trie.insert(b"abc");
    trie.remove(b"ab");
    assert!(trie.contains(b"abc"));
    assert!(trie.contains(b"ab"));
    assert!(trie.contains(b"a"));
}

#[test]
fn test_remove_of_longer_string_takes_its_prefixes() {
    let mut trie = NaiveTrie::new();
    trie.insert(b"ab");
    trie.insert(b"x");
    trie.remove(b"abc");
    assert!(!trie.contains(b"ab"));
    assert!(!trie.contains(b"a"));
    assert!(trie.contains(b"x"));
    assert!(trie.contains(b""));
}

#[test]
fn test_remove_of_absent_string() {
    let mut trie = NaiveTrie::new();
    trie.insert(b"ab");
    trie.remove(b"x");
    trie.remove(b"");
    trie.remove(b"b");
    assert!(trie.contains(b"ab"));
    assert!(trie.contains(b"a"));
    assert!(!trie.contains(b"x"));
}

#[test]
fn test_insert_after_remove() {
    let mut trie = NaiveTrie::new();
    trie.insert(b"abc");
    trie.remove(b"abc");
    assert!(!trie.contains(b"a"));
    trie.insert(b"ab");
    assert!(trie.contains(b"ab"));
    assert!(!trie.contains(b"abc"));
    trie.remove(b"ab");
    trie.remove(b"ab");
    assert!(!trie.contains(b"a"));
}

#[test]
fn test_all_byte_values() {
    let mut trie = NaiveTrie::new();
    for b in 0..=255u8 {
        trie.insert(&[b, b]);
    }
    for b in 0..=255u8 {
        assert!(trie.contains(&[b]));
        assert!(trie.contains(&[b, b]));
        assert!(!trie.contains(&[b, b.wrapping_add(1)]));
    }
    for b in 0..=255u8 {
        trie.remove(&[b, b]);
    }
    for b in 0..=255u8 {
        assert!(!trie.contains(&[b]));
    }
    assert!(trie.contains(b""));
}

#[test]
fn test_clone_is_independent() {
    let mut trie = NaiveTrie::new();
    trie.insert(b"abc");
    let mut copy = trie.clone();
    assert!(copy.contains(b"abc"));
    copy.insert(b"xyz");
    copy.remove(b"abc");
    assert!(copy.contains(b"xyz"));
    assert!(!copy.contains(b"a"));
    assert!(!trie.contains(b"xyz"));
    assert!(trie.contains(b"abc"));
}
