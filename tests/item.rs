use garage_k2v::causal::CausalContext;
use garage_k2v::item::{Item, StoreError};

fn values(item: &Item) -> Vec<Option<Vec<u8>>> {
    item.read().0.into_iter().map(|v| v.value).collect()
}

#[test]
fn sequential_writes_leave_one_version() {
    let mut item = Item::new();
    let t1 = item.put(1, Some(b"v1".to_vec()), &CausalContext::new()).unwrap();
    let t2 = item.put(1, Some(b"v2".to_vec()), &t1).unwrap();
    assert_eq!(values(&item), vec![Some(b"v2".to_vec())]);
    assert!(t2.dominates(&t1));
}

#[test]
fn writes_from_the_same_token_conflict() {
    let mut item = Item::new();
    let t0 = CausalContext::new();
    item.put(1, Some(b"v1".to_vec()), &t0).unwrap();
    item.put(1, Some(b"v2".to_vec()), &t0).unwrap();
    let (versions, token) = item.read();
    assert_eq!(versions.len(), 2);
    assert_eq!(values(&item), vec![Some(b"v1".to_vec()), Some(b"v2".to_vec())]);
    assert_eq!(token.get(1), 2);
}

#[test]
fn writing_after_reading_a_conflict_resolves_it() {
    let mut item = Item::new();
    let t0 = CausalContext::new();
    item.put(1, Some(b"a".to_vec()), &t0).unwrap();
    item.put(2, Some(b"b".to_vec()), &t0).unwrap();
    assert_eq!(values(&item).len(), 2);
    let (_, seen) = item.read();
    item.put(3, Some(b"c".to_vec()), &seen).unwrap();
    assert_eq!(values(&item), vec![Some(b"c".to_vec())]);
}

#[test]
fn token_of_put_dominates_the_token_given() {
    let mut item = Item::new();
    let given = CausalContext { entries: vec![(5, 100), (1, 3)] };
    let t = item.put(1, Some(vec![1]), &given).unwrap();
    assert!(t.dominates(&given));
    assert_eq!(t.get(1), 4);
    assert_eq!(t.get(5), 100);
    let (_, read_token) = item.read();
    assert!(read_token.dominates(&given));
}

#[test]
fn versions_carry_writer_and_timestamp() {
    let mut item = Item::new();
    item.put(7, Some(vec![9]), &CausalContext::new()).unwrap();
    let (versions, _) = item.read();
    assert_eq!(versions[0].node, 7);
    assert_eq!(versions[0].timestamp, 1);
}

#[test]
fn delete_of_the_only_version_empties_the_item() {
    let mut item = Item::new();
    let t = item.put(1, Some(vec![1]), &CausalContext::new()).unwrap();
    let t2 = item.put(1, None, &t).unwrap();
    assert!(item.read().0.is_empty());
    assert_eq!(t2.get(1), 2);
    assert!(!item.is_live());
}

#[test]
fn delete_concurrent_with_a_value_keeps_a_tombstone() {
    let mut item = Item::new();
    let t0 = CausalContext::new();
    item.put(1, Some(vec![1]), &t0).unwrap();
    item.put(2, None, &t0).unwrap();
    assert_eq!(values(&item), vec![Some(vec![1]), None]);
    assert!(item.is_live());
}

#[test]
fn exhausted_clock_is_an_internal_error() {
    let mut item = Item::new();
    let token = CausalContext { entries: vec![(1, u64::MAX)] };
    assert!(matches!(item.put(1, Some(vec![1]), &token), Err(StoreError::Internal)));
    assert!(item.read().0.is_empty());
}
