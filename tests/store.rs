use garage_k2v::causal::CausalContext;
use garage_k2v::index::IndexQuery;
use garage_k2v::poll::PollDecision;
use garage_k2v::store::{InsertOp, Store};
use garage_k2v::webhooks::{BucketHook, ObjectHook};

fn b(s: &str) -> Vec<u8> {
    s.as_bytes().to_vec()
}

fn read_values(store: &Store, pk: &str, sk: &str) -> Vec<Option<Vec<u8>>> {
    store.read_item(&b(pk), &b(sk)).0.into_iter().map(|v| v.value).collect()
}

#[test]
fn scenario_overwrite_then_conflict() {
    let mut store = Store::new(1);
    let t1 = store.insert_item(&b("p1"), &b("s1"), Some(b("v1")), &CausalContext::new()).unwrap();
    store.insert_item(&b("p1"), &b("s1"), Some(b("v2")), &t1).unwrap();
    assert_eq!(read_values(&store, "p1", "s1"), vec![Some(b("v2"))]);

    let mut fresh = Store::new(1);
    let empty = CausalContext::new();
    fresh.insert_item(&b("p1"), &b("s1"), Some(b("v1")), &empty).unwrap();
    fresh.insert_item(&b("p1"), &b("s1"), Some(b("v2")), &empty).unwrap();
    assert_eq!(read_values(&fresh, "p1", "s1"), vec![Some(b("v1")), Some(b("v2"))]);
}

#[test]
fn missing_item_reads_empty() {
    let store = Store::new(1);
    let (versions, token) = store.read_item(&b("p"), &b("s"));
    assert!(versions.is_empty());
    assert_eq!(token.get(1), 0);
}

#[test]
fn items_are_independent() {
    let mut store = Store::new(1);
    let e = CausalContext::new();
    store.insert_item(&b("p"), &b("a"), Some(b("x")), &e).unwrap();
    store.insert_item(&b("p"), &b("b"), Some(b("y")), &e).unwrap();
    store.insert_item(&b("q"), &b("a"), Some(b("z")), &e).unwrap();
    assert_eq!(read_values(&store, "p", "a"), vec![Some(b("x"))]);
    assert_eq!(read_values(&store, "p", "b"), vec![Some(b("y"))]);
    assert_eq!(read_values(&store, "q", "a"), vec![Some(b("z"))]);
}

#[test]
fn index_follows_live_items() {
    let mut store = Store::new(1);
    let e = CausalContext::new();
    let ta = store.insert_item(&b("p"), &b("a"), Some(b("x")), &e).unwrap();
    store.insert_item(&b("p"), &b("b"), Some(b("y")), &e).unwrap();
    let all = IndexQuery { prefix: vec![], start: None, end: None, reverse: false };
    assert_eq!(store.read_index(&all, 10).entries, vec![(b("p"), 2)]);
    let ta2 = store.insert_item(&b("p"), &b("a"), Some(b("x2")), &ta).unwrap();
    assert_eq!(store.read_index(&all, 10).entries, vec![(b("p"), 2)]);
    store.insert_item(&b("p"), &b("a"), None, &ta2).unwrap();
    assert_eq!(store.read_index(&all, 10).entries, vec![(b("p"), 1)]);
    assert!(read_values(&store, "p", "a").is_empty());
}

#[test]
fn poll_item_sees_a_later_write() {
    let mut store = Store::new(1);
    let t = store.insert_item(&b("p"), &b("s"), Some(b("x")), &CausalContext::new()).unwrap();
    let (d, _, _) = store.poll_item(&b("p"), &b("s"), &t, 0, 50);
    assert_eq!(d, PollDecision::Wait);
    store.insert_item(&b("p"), &b("s"), Some(b("y")), &t).unwrap();
    let (d, versions, token) = store.poll_item(&b("p"), &b("s"), &t, 10, 50);
    assert_eq!(d, PollDecision::Changed);
    assert_eq!(versions.len(), 1);
    assert!(token.dominates(&t));
}

#[test]
fn batch_applies_each_write_and_reports_each() {
    let mut store = Store::new(1);
    let ops = vec![
        InsertOp { partition_key: b("p"), sort_key: b("a"), value: Some(b("1")), token: CausalContext::new() },
        InsertOp {
            partition_key: b("p"),
            sort_key: b("b"),
            value: Some(b("2")),
            token: CausalContext { entries: vec![(1, u64::MAX)] },
        },
        InsertOp { partition_key: b("q"), sort_key: b("a"), value: Some(b("3")), token: CausalContext::new() },
    ];
    let res = store.batch_insert(ops);
    assert_eq!(res.len(), 3);
    assert!(res[0].is_ok());
    assert!(res[1].is_err());
    assert!(res[2].is_ok());
    let reads = store.batch_read(&vec![(b("p"), b("a")), (b("p"), b("b")), (b("q"), b("a"))]);
    assert_eq!(reads.len(), 3);
    assert_eq!(reads[0].0.len(), 1);
    assert!(reads[1].0.is_empty());
    assert_eq!(reads[2].0[0].value, Some(b("3")));
}

#[test]
fn hooks_keep_their_fields() {
    let id = [7u8; 32];
    let h = BucketHook::new("CreateBucket", "photos".to_string(), id, "s3".to_string());
    assert_eq!(h.hook_type, "CreateBucket");
    assert_eq!(h.bucket, "photos");
    assert_eq!(h.bucket_id, id);
    let o = ObjectHook::new("PutObject", "photos".to_string(), id, &"cat.png".to_string(), "k2v".to_string());
    assert_eq!(o.object, "cat.png");
    assert_eq!(o.via, "k2v");
}

#[test]
fn batch_writing_one_item_twice_applies_both_in_order() {
    let mut store = Store::new(1);
    let ops = vec![
        InsertOp { partition_key: b("p"), sort_key: b("a"), value: Some(b("1")), token: CausalContext::new() },
        InsertOp { partition_key: b("p"), sort_key: b("a"), value: Some(b("2")), token: CausalContext::new() },
    ];
    let res = store.batch_insert(ops);
    assert!(res[0].is_ok() && res[1].is_ok());
    assert_eq!(read_values(&store, "p", "a"), vec![Some(b("1")), Some(b("2"))]);
    let t1 = res[1].as_ref().unwrap();
    assert_eq!(t1.get(1), 2);
    assert_eq!(store.changes.get(&b("p")), 2);
}

#[test]
fn poll_range_sees_writes_to_the_partition() {
    let mut store = Store::new(1);
    let (d, seen) = store.poll_range(&b("p"), 0, 0, 50);
    assert_eq!((d, seen), (PollDecision::Wait, 0));
    assert_eq!(store.poll_range(&b("p"), 0, 50, 50).0, PollDecision::Unchanged);
    store.insert_item(&b("p"), &b("x"), Some(b("1")), &CausalContext::new()).unwrap();
    store.insert_item(&b("other"), &b("x"), Some(b("1")), &CausalContext::new()).unwrap();
    let (d, now_seen) = store.poll_range(&b("p"), seen, 10, 50);
    assert_eq!(d, PollDecision::Changed);
    assert_eq!(now_seen, 1);
    assert_eq!(store.poll_range(&b("p"), now_seen, 10, 50).0, PollDecision::Wait);
}

#[test]
fn failed_write_does_not_count_as_a_change() {
    let mut store = Store::new(1);
    let exhausted = CausalContext { entries: vec![(1, u64::MAX)] };
    assert!(store.insert_item(&b("p"), &b("x"), Some(b("1")), &exhausted).is_err());
    assert_eq!(store.changes.get(&b("p")), 0);
}
