use garage_k2v::causal::CausalContext;

fn ctx(entries: &[(u64, u64)]) -> CausalContext {
    CausalContext { entries: entries.to_vec() }
}

#[test]
fn empty_context_reads_zero() {
    let c = CausalContext::new();
    assert_eq!(c.get(0), 0);
    assert_eq!(c.get(42), 0);
}

#[test]
fn get_takes_the_highest_entry_of_a_writer() {
    let c = ctx(&[(1, 4), (2, 9), (1, 7), (1, 5)]);
    assert_eq!(c.get(1), 7);
    assert_eq!(c.get(2), 9);
    assert_eq!(c.get(3), 0);
}

#[test]
fn advance_only_raises() {
    let mut c = ctx(&[(1, 4)]);
    c.advance(1, 3);
    assert_eq!(c.get(1), 4);
    c.advance(1, 8);
    assert_eq!(c.get(1), 8);
    c.advance(2, 1);
    assert_eq!(c.get(2), 1);
    assert_eq!(c.entries.len(), 2);
}

#[test]
fn join_takes_pointwise_maximum() {
    let mut a = ctx(&[(1, 4), (2, 1)]);
    let b = ctx(&[(2, 6), (3, 2), (1, 1)]);
    a.join(&b);
    assert_eq!(a.get(1), 4);
    assert_eq!(a.get(2), 6);
    assert_eq!(a.get(3), 2);
}

#[test]
fn dominance_is_strict() {
    let a = ctx(&[(1, 4), (2, 2)]);
    let b = ctx(&[(1, 3)]);
    assert!(a.covers(&b));
    assert!(a.dominates(&b));
    assert!(!b.dominates(&a));
    assert!(a.covers(&a));
    assert!(!a.dominates(&a));
    assert!(!a.dominates(&ctx(&[(2, 2), (1, 4)])));
}

#[test]
fn concurrent_contexts_dominate_neither_way() {
    let a = ctx(&[(1, 2)]);
    let b = ctx(&[(2, 2)]);
    assert!(!a.dominates(&b));
    assert!(!b.dominates(&a));
}

#[test]
fn duplicate_keeps_entries() {
    let a = ctx(&[(1, 2), (3, 4)]);
    assert_eq!(a.duplicate().entries, a.entries);
}
