use garage_k2v::api::{check_access, Access, Authorization, Endpoint, Forbidden};
use garage_k2v::permission::BucketKeyPerm;

fn perm(r: bool, w: bool, o: bool) -> Option<BucketKeyPerm> {
    Some(BucketKeyPerm { timestamp: 1, allow_read: r, allow_write: w, allow_owner: o })
}

#[test]
fn options_is_answered_without_a_key() {
    assert_eq!(check_access(Endpoint::Options, false, None), Access::Preflight);
    assert_eq!(Endpoint::Options.authorization_type(), Authorization::Unauthenticated);
}

#[test]
fn anonymous_requests_are_refused() {
    assert_eq!(check_access(Endpoint::ReadItem, false, perm(true, true, true)), Access::Denied(Forbidden::Anonymous));
}

#[test]
fn reads_need_read_permission() {
    for e in [Endpoint::ReadItem, Endpoint::PollItem, Endpoint::PollRange, Endpoint::ReadIndex, Endpoint::ReadBatch] {
        assert_eq!(e.authorization_type(), Authorization::Read);
        assert_eq!(check_access(e, true, perm(true, false, false)), Access::Granted);
        assert_eq!(check_access(e, true, perm(false, true, true)), Access::Denied(Forbidden::NotAllowed));
    }
}

#[test]
fn writes_need_write_permission() {
    for e in [Endpoint::InsertItem, Endpoint::DeleteItem, Endpoint::InsertBatch, Endpoint::DeleteBatch] {
        assert_eq!(e.authorization_type(), Authorization::Write);
        assert_eq!(check_access(e, true, perm(false, true, false)), Access::Granted);
        assert_eq!(check_access(e, true, perm(true, false, true)), Access::Denied(Forbidden::NotAllowed));
    }
}

#[test]
fn a_key_without_permission_record_is_refused() {
    assert_eq!(check_access(Endpoint::ReadItem, true, None), Access::Denied(Forbidden::NotAllowed));
}
