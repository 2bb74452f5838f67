use vstd::prelude::*;

use crate::permission::BucketKeyPerm;

verus! {

/// The operations of the K2V API.
#[derive(PartialEq, Eq, Structural, Clone, Copy, Debug)]
pub enum Endpoint {
    Options,
    InsertItem,
    ReadItem,
    DeleteItem,
    PollItem,
    PollRange,
    ReadIndex,
    InsertBatch,
    ReadBatch,
    DeleteBatch,
}

/// The permission an operation needs on its bucket.
#[derive(PartialEq, Eq, Structural, Clone, Copy, Debug)]
pub enum Authorization {
    /// Answered before any key is checked (CORS preflight).
    Unauthenticated,
    Read,
    Write,
    Owner,
}

/// Why a request is refused.
#[derive(PartialEq, Eq, Structural, Clone, Copy, Debug)]
pub enum Forbidden {
    /// The request carries no access key.
    Anonymous,
    /// The key lacks the permission the operation needs on the bucket.
    NotAllowed,
}

/// How a request proceeds once its endpoint and caller are known.
#[derive(PartialEq, Eq, Structural, Clone, Copy, Debug)]
pub enum Access {
    /// A CORS preflight, answered without authentication.
    Preflight,
    /// The operation may run.
    Granted,
    Denied(Forbidden),
}

pub open spec fn authorization_of(e: Endpoint) -> Authorization {
    match e {
        Endpoint::Options => Authorization::Unauthenticated,
        Endpoint::ReadItem | Endpoint::PollItem | Endpoint::PollRange | Endpoint::ReadIndex
        | Endpoint::ReadBatch => Authorization::Read,
        Endpoint::InsertItem | Endpoint::DeleteItem | Endpoint::InsertBatch
        | Endpoint::DeleteBatch => Authorization::Write,
    }
}

/// A key holding `perm` on a bucket (`None`: no permission record) may
/// perform operations needing `auth`.
pub open spec fn permits(perm: Option<BucketKeyPerm>, auth: Authorization) -> bool {
    match perm {
        None => false,
        Some(p) => match auth {
            Authorization::Read => p.allow_read,
            Authorization::Write => p.allow_write,
            Authorization::Owner => p.allow_owner,
            Authorization::Unauthenticated => false,
        },
    }
}

impl Endpoint {
    /// The permission this operation needs.
    pub fn authorization_type(&self) -> (r: Authorization)
        ensures
            r == authorization_of(*self),
    {
        match self {
            Endpoint::Options => Authorization::Unauthenticated,
            Endpoint::ReadItem | Endpoint::PollItem | Endpoint::PollRange | Endpoint::ReadIndex
            | Endpoint::ReadBatch => Authorization::Read,
            Endpoint::InsertItem | Endpoint::DeleteItem | Endpoint::InsertBatch
            | Endpoint::DeleteBatch => Authorization::Write,
        }
    }
}

/// Decides whether a request on `endpoint` goes ahead. `has_key` says
/// whether the request was signed with an access key, and `perm` is that
/// key's permission on the bucket. Preflights skip authentication;
/// otherwise an anonymous request is refused, then one whose key lacks the
/// needed permission.
pub fn check_access(endpoint: Endpoint, has_key: bool, perm: Option<BucketKeyPerm>) -> (r: Access)
    ensures
        r == if endpoint == Endpoint::Options {
            Access::Preflight
        } else if !has_key {
            Access::Denied(Forbidden::Anonymous)
        } else if !permits(perm, authorization_of(endpoint)) {
            Access::Denied(Forbidden::NotAllowed)
        } else {
            Access::Granted
        },
{
    if let Endpoint::Options = endpoint {
        return Access::Preflight;
    }
    if !has_key {
        return Access::Denied(Forbidden::Anonymous);
    }
    let allowed = match perm {
        None => false,
        Some(p) => match endpoint.authorization_type() {
            Authorization::Read => p.allow_read,
            Authorization::Write => p.allow_write,
            Authorization::Owner => p.allow_owner,
            Authorization::Unauthenticated => false,
        },
    };
    if !allowed {
        return Access::Denied(Forbidden::NotAllowed);
    }
    Access::Granted
}

} // verus!
