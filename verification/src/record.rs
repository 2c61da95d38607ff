//! What the store remembers of an accepted image.

use vstd::prelude::*;

verus! {

/// A point in time: nanoseconds counted from the Unix epoch, negative before it.
#[derive(Clone, Copy, Debug, PartialEq, Eq, Structural)]
pub struct Timestamp {
    pub nanos: i128,
}

impl Timestamp {
    /// Whether `self` is strictly later than `other`.
    pub open spec fn later_than(self, other: Timestamp) -> bool {
        self.nanos > other.nanos
    }

    /// Whether `self` is strictly later than `other`.
    pub fn is_after(&self, other: &Timestamp) -> (r: bool)
        ensures
            r == self.later_than(*other),
    {
        self.nanos > other.nanos
    }
}

/// One image as the engine sees it: where it lives, its perceptual hash, its
/// size and its creation time. A record is never changed once built; the
/// store only replaces or removes it.
#[derive(Debug)]
pub struct HashRecord {
    pub path: String,
    pub hash: Vec<u8>,
    pub size_bytes: u64,
    pub created_at: Timestamp,
}

/// The mathematical value of a [`HashRecord`].
pub ghost struct RecordView {
    pub path: Seq<char>,
    pub hash: Seq<u8>,
    pub size_bytes: u64,
    pub created_at: Timestamp,
}

impl View for HashRecord {
    type V = RecordView;

    open spec fn view(&self) -> RecordView {
        RecordView {
            path: self.path@,
            hash: self.hash@,
            size_bytes: self.size_bytes,
            created_at: self.created_at,
        }
    }
}

impl Clone for HashRecord {
    fn clone(&self) -> (copy: Self)
        ensures
            copy@ == self@,
    {
        let hash = self.hash.clone();
        assert(hash@ =~= self.hash@);
        HashRecord {
            path: self.path.clone(),
            hash,
            size_bytes: self.size_bytes,
            created_at: self.created_at,
        }
    }
}

impl HashRecord {
    /// Builds a record from its four parts.
    pub fn new(path: String, hash: Vec<u8>, size_bytes: u64, created_at: Timestamp) -> (record:
        Self)
        ensures
            record.path == path,
            record.hash == hash,
            record.size_bytes == size_bytes,
            record.created_at == created_at,
    {
        HashRecord { path, hash, size_bytes, created_at }
    }
}

} // verus!
