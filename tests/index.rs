use garage_k2v::index::{IndexQuery, PartitionIndex};

fn key(s: &str) -> Vec<u8> {
    s.as_bytes().to_vec()
}

fn index_of(keys: &[&str]) -> PartitionIndex {
    let mut idx = PartitionIndex::new();
    for k in keys {
        idx.adjust(&key(k), true);
    }
    idx
}

fn query(prefix: &str, start: Option<&str>, reverse: bool) -> IndexQuery {
    IndexQuery { prefix: key(prefix), start: start.map(key), end: None, reverse }
}

fn keys_of(entries: &[(Vec<u8>, u64)]) -> Vec<String> {
    entries.iter().map(|e| String::from_utf8(e.0.clone()).unwrap()).collect()
}

#[test]
fn adjust_keeps_keys_sorted_and_counts() {
    let mut idx = index_of(&["user-b", "admin", "user-a", "user-b"]);
    assert_eq!(keys_of(&idx.entries), vec!["admin", "user-a", "user-b"]);
    assert_eq!(idx.entries[2].1, 2);
    idx.adjust(&key("user-b"), false);
    assert_eq!(idx.entries[2].1, 1);
    idx.adjust(&key("zzz"), false);
    assert_eq!(idx.entries.len(), 3);
    idx.adjust(&key("admin"), false);
    idx.adjust(&key("admin"), false);
    assert_eq!(idx.entries[0].1, 0);
}

#[test]
fn prefix_and_limit_page_without_gap() {
    let idx = index_of(&["user-c", "admin", "user-a", "user-d", "user-b", "zeta"]);
    let first = idx.read_index(&query("user-", None, false), 2);
    assert_eq!(keys_of(&first.entries), vec!["user-a", "user-b"]);
    assert!(first.more);
    assert_eq!(first.next_start, Some(key("user-b")));
    let second = idx.read_index(&query("user-", Some("user-b"), false), 2);
    assert_eq!(keys_of(&second.entries), vec!["user-c", "user-d"]);
    assert!(!second.more);
    assert_eq!(second.next_start, None);
}

#[test]
fn reverse_enumerates_downwards() {
    let idx = index_of(&["a", "b", "c", "d"]);
    let p = idx.read_index(&query("", None, true), 3);
    assert_eq!(keys_of(&p.entries), vec!["d", "c", "b"]);
    assert_eq!(p.next_start, Some(key("b")));
    let second = idx.read_index(&query("", Some("b"), true), 3);
    assert_eq!(keys_of(&second.entries), vec!["a"]);
}

#[test]
fn end_bound_is_exclusive() {
    let idx = index_of(&["a", "b", "c", "d"]);
    let q = IndexQuery { prefix: key(""), start: Some(key("a")), end: Some(key("d")), reverse: false };
    let p = idx.read_index(&q, 10);
    assert_eq!(keys_of(&p.entries), vec!["b", "c"]);
    assert!(!p.more);
}

#[test]
fn empty_partitions_are_not_listed() {
    let mut idx = index_of(&["a", "b"]);
    idx.adjust(&key("a"), false);
    let p = idx.read_index(&query("", None, false), 10);
    assert_eq!(keys_of(&p.entries), vec!["b"]);
    assert_eq!(p.entries[0].1, 1);
}

#[test]
fn zero_limit_returns_nothing() {
    let idx = index_of(&["a"]);
    let p = idx.read_index(&query("", None, false), 0);
    assert!(p.entries.is_empty());
    assert!(p.more);
    assert_eq!(p.next_start, None);
}

#[test]
fn continuing_after_a_last_page_lists_nothing() {
    let idx = index_of(&["user-a", "user-b", "admin"]);
    let page = idx.read_index(&query("user-", None, false), 5);
    assert_eq!(keys_of(&page.entries), vec!["user-a", "user-b"]);
    assert!(!page.more);
    let after = idx.read_index(&query("user-", Some("user-b"), false), 5);
    assert!(after.entries.is_empty());
}

#[test]
fn get_reads_a_partition_counter() {
    let idx = index_of(&["b", "a", "b"]);
    assert_eq!(idx.get(&key("b")), 2);
    assert_eq!(idx.get(&key("a")), 1);
    assert_eq!(idx.get(&key("c")), 0);
}
