use vstd::prelude::*;

verus! {

/// Notification payload for an event on an object of a bucket.
#[derive(Debug, PartialEq, Eq)]
pub struct ObjectHook {
    pub hook_type: String,
    pub bucket: String,
    pub bucket_id: [u8; 32],
    pub object: String,
    pub via: String,
}

/// Notification payload for an event on a bucket.
#[derive(Debug, PartialEq, Eq)]
pub struct BucketHook {
    pub hook_type: String,
    pub bucket: String,
    pub bucket_id: [u8; 32],
    pub via: String,
}

impl BucketHook {
    pub fn new(title: &str, bucket: String, id: [u8; 32], via: String) -> (r: BucketHook)
        ensures
            r.hook_type@ == title@,
            r.bucket == bucket,
            r.bucket_id == id,
            r.via == via,
    {
        BucketHook { hook_type: title.to_owned(), bucket, bucket_id: id, via }
    }
}

impl ObjectHook {
    pub fn new(title: &str, bucket: String, id: [u8; 32], obj: &String, via: String) -> (r:
        ObjectHook)
        ensures
            r.hook_type@ == title@,
            r.bucket == bucket,
            r.bucket_id == id,
            r.object@ == obj@,
            r.via == via,
    {
        ObjectHook {
            hook_type: title.to_owned(),
            bucket,
            bucket_id: id,
            object: obj.as_str().to_owned(),
            via,
        }
    }
}

} // verus!
