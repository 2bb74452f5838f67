use garage_k2v::crdt::Crdt;
use garage_k2v::permission::BucketKeyPerm;

fn perm(timestamp: u64, allow_read: bool, allow_write: bool, allow_owner: bool) -> BucketKeyPerm {
    BucketKeyPerm { timestamp, allow_read, allow_write, allow_owner }
}

fn merged(a: BucketKeyPerm, b: BucketKeyPerm) -> BucketKeyPerm {
    let mut x = a;
    x.merge(&b);
    x
}

#[test]
fn newer_permission_replaces_older() {
    let old = perm(1, true, true, true);
    let new = perm(2, false, true, false);
    assert_eq!(merged(old, new), new);
    assert_eq!(merged(new, old), new);
}

#[test]
fn older_permission_is_ignored() {
    let cur = perm(5, true, false, false);
    assert_eq!(merged(cur, perm(3, false, true, true)), cur);
}

#[test]
fn merge_commutes_on_distinct_timestamps() {
    let a = perm(10, true, false, true);
    let b = perm(11, false, true, false);
    assert_eq!(merged(a, b), merged(b, a));
}

#[test]
fn merge_commutes_on_equal_timestamps_with_same_owner() {
    let a = perm(7, true, false, true);
    let b = perm(7, false, true, true);
    assert_eq!(merged(a, b), merged(b, a));
    assert_eq!(merged(a, b), perm(7, false, false, true));
}

#[test]
fn merge_is_idempotent() {
    for p in [perm(0, false, false, false), perm(9, true, true, false), perm(u64::MAX, true, false, true)] {
        assert_eq!(merged(p, p), p);
    }
}

#[test]
fn merge_is_order_independent_over_three_updates() {
    let base = perm(1, true, true, true);
    let a = perm(4, true, true, false);
    let b = perm(4, true, false, false);
    let c = perm(3, false, false, true);
    let abc = merged(merged(merged(base, a), b), c);
    let cba = merged(merged(merged(base, c), b), a);
    let bca = merged(merged(merged(base, b), c), a);
    assert_eq!(abc, cba);
    assert_eq!(abc, bca);
    assert_eq!(abc, perm(4, true, false, false));
}

#[test]
fn merge_is_associative() {
    let a = perm(2, true, true, true);
    let b = perm(2, false, true, false);
    let c = perm(2, true, false, false);
    assert_eq!(merged(merged(a, b), c), merged(a, merged(b, c)));
}

#[test]
fn equal_timestamps_deny_what_either_side_denies() {
    let a = perm(5, true, false, true);
    let b = perm(5, false, true, true);
    let m = merged(a, b);
    assert!(!m.allow_read);
    assert!(!m.allow_write);
    assert_eq!(m.timestamp, 5);
}

#[test]
fn equal_timestamps_keep_the_stored_owner_flag() {
    let stored = perm(5, true, true, false);
    let incoming = perm(5, true, false, true);
    assert_eq!(merged(stored, incoming), perm(5, true, false, false));
    assert_eq!(merged(incoming, stored), perm(5, true, false, true));
}
