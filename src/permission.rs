use vstd::prelude::*;

use crate::crdt::Crdt;

verus! {

/// Permission given to a key in a bucket.
#[derive(PartialOrd, Ord, PartialEq, Eq, Structural, Clone, Copy, Debug)]
pub struct BucketKeyPerm {
    /// Timestamp at which the permission was given
    pub timestamp: u64,
    /// The key can be used to read the bucket
    pub allow_read: bool,
    /// The key can be used to write objects to the bucket
    pub allow_write: bool,
    /// The key can be used to control other aspects of the bucket
    /// (website access, bucket deletion)
    pub allow_owner: bool,
}

/// Merge of two permission records: the newer one wins; on equal timestamps
/// read and write are granted only if both sides grant them, and the owner
/// flag of `a` is kept.
pub open spec fn merge_perm(a: BucketKeyPerm, b: BucketKeyPerm) -> BucketKeyPerm {
    if b.timestamp > a.timestamp {
        b
    } else if b.timestamp == a.timestamp {
        BucketKeyPerm {
            allow_read: a.allow_read && b.allow_read,
            allow_write: a.allow_write && b.allow_write,
            ..a
        }
    } else {
        a
    }
}

impl Crdt for BucketKeyPerm {
    open spec fn join(self, other: Self) -> Self {
        merge_perm(self, other)
    }

    fn merge(&mut self, other: &Self) {
        if other.timestamp > self.timestamp {
            *self = *other;
        } else if other.timestamp == self.timestamp && *other != *self {
            if !other.allow_read {
                self.allow_read = false;
            }
            if !other.allow_write {
                self.allow_write = false;
            }
        }
    }
}

/// Two records that agree on the owner flag whenever their timestamps are
/// equal merge to the same value in either order.
pub proof fn lemma_merge_commutative(a: BucketKeyPerm, b: BucketKeyPerm)
    requires
        a.timestamp == b.timestamp ==> a.allow_owner == b.allow_owner,
    ensures
        merge_perm(a, b) == merge_perm(b, a),
{
}

/// Merging a record with itself gives the record back.
pub proof fn lemma_merge_idempotent(a: BucketKeyPerm)
    ensures
        merge_perm(a, a) == a,
{
}

/// Merge is associative.
pub proof fn lemma_merge_associative(a: BucketKeyPerm, b: BucketKeyPerm, c: BucketKeyPerm)
    ensures
        merge_perm(merge_perm(a, b), c) == merge_perm(a, merge_perm(b, c)),
{
}

/// Applying the same three updates to a stored record in any order gives the
/// same state, as long as updates with equal timestamps agree on the owner flag.
pub proof fn lemma_merge_order_independent(
    s: BucketKeyPerm,
    a: BucketKeyPerm,
    b: BucketKeyPerm,
    c: BucketKeyPerm,
)
    requires
        a.timestamp == b.timestamp ==> a.allow_owner == b.allow_owner,
        b.timestamp == c.timestamp ==> b.allow_owner == c.allow_owner,
        a.timestamp == c.timestamp ==> a.allow_owner == c.allow_owner,
    ensures
        merge_perm(merge_perm(merge_perm(s, a), b), c) == merge_perm(merge_perm(merge_perm(s, a), c), b),
        merge_perm(merge_perm(merge_perm(s, a), b), c) == merge_perm(merge_perm(merge_perm(s, b), a), c),
        merge_perm(merge_perm(merge_perm(s, a), b), c) == merge_perm(merge_perm(merge_perm(s, b), c), a),
        merge_perm(merge_perm(merge_perm(s, a), b), c) == merge_perm(merge_perm(merge_perm(s, c), a), b),
        merge_perm(merge_perm(merge_perm(s, a), b), c) == merge_perm(merge_perm(merge_perm(s, c), b), a),
{
}

/// With equal timestamps, the merged record denies read or write whenever
/// either side denies it.
pub proof fn lemma_merge_equal_timestamps_restrict(a: BucketKeyPerm, b: BucketKeyPerm)
    requires
        a.timestamp == b.timestamp,
    ensures
        merge_perm(a, b).allow_read == (a.allow_read && b.allow_read),
        merge_perm(a, b).allow_write == (a.allow_write && b.allow_write),
        merge_perm(a, b).timestamp == a.timestamp,
{
}

} // verus!
