//! The similarity matcher: classifies a new hash against the store.
//!
//! An exact match wins. Failing that, the store is walked in ascending hash
//! order and the first record within the threshold is taken: the first, not
//! the closest.

use crate::distance::{within, within_distance, SIMILARITY_THRESHOLD};
use crate::listing::{fits, holds, slot};
use crate::record::RecordView;
use crate::store::HashStore;
use vstd::prelude::*;

verus! {

/// What a new image is, relative to the images accepted before it.
#[derive(Clone, Copy, Debug, PartialEq, Eq, Structural)]
pub enum Classification {
    /// Its hash equals the hash of a stored record.
    Duplicate,
    /// No stored hash equals its hash, but one is within the threshold.
    Similar,
    /// Neither.
    Unique,
}

/// The outcome of matching: the classification, and the index in the
/// store's listing of the record that was matched, if one was.
#[derive(Clone, Copy, Debug, PartialEq, Eq, Structural)]
pub struct Match {
    pub classification: Classification,
    pub index: Option<usize>,
}

/// The index of the first record of the listing whose hash differs from `h`
/// in at most `limit` bits.
pub open spec fn first_within(s: Seq<RecordView>, h: Seq<u8>, limit: u32) -> Option<int>
    decreases s.len(),
{
    if s.len() == 0 {
        None
    } else if within(h, s[0].hash, limit) {
        Some(0)
    } else {
        match first_within(s.drop_first(), h, limit) {
            Some(i) => Some(i + 1),
            None => None,
        }
    }
}

/// The index of the record that `h` is matched with: the record under `h`
/// itself if there is one, else the first record within the threshold.
pub open spec fn matched_index(s: Seq<RecordView>, h: Seq<u8>) -> Option<int> {
    if holds(s, h) {
        Some(slot(s, h))
    } else {
        first_within(s, h, SIMILARITY_THRESHOLD)
    }
}

/// The classification of `h` against the listing.
pub open spec fn classification_of(s: Seq<RecordView>, h: Seq<u8>) -> Classification {
    if holds(s, h) {
        Classification::Duplicate
    } else if first_within(s, h, SIMILARITY_THRESHOLD) is Some {
        Classification::Similar
    } else {
        Classification::Unique
    }
}

/// What `first_within` finds is within the limit and has nothing within the
/// limit before it; it finds nothing only if no record is within the limit.
pub proof fn lemma_first_within(s: Seq<RecordView>, h: Seq<u8>, limit: u32)
    ensures
        match first_within(s, h, limit) {
            Some(i) => {
                &&& 0 <= i < s.len()
                &&& within(h, s[i].hash, limit)
                &&& forall|j: int| #![trigger s[j]] 0 <= j < i ==> !within(h, s[j].hash, limit)
            },
            None => forall|j: int| #![trigger s[j]] 0 <= j < s.len() ==> !within(h, s[j].hash, limit),
        },
    decreases s.len(),
{
    if s.len() != 0 && !within(h, s[0].hash, limit) {
        let t = s.drop_first();
        lemma_first_within(t, h, limit);
        match first_within(t, h, limit) {
            Some(i) => {
                assert(t[i] == s[i + 1]);
                assert forall|j: int| #![trigger s[j]] 0 <= j < i + 1 implies !within(
                    h,
                    s[j].hash,
                    limit,
                ) by {
                    if j > 0 {
                        assert(s[j] == t[j - 1]);
                    }
                }
            },
            None => {
                assert forall|j: int| #![trigger s[j]] 0 <= j < s.len() implies !within(
                    h,
                    s[j].hash,
                    limit,
                ) by {
                    if j > 0 {
                        assert(s[j] == t[j - 1]);
                    }
                }
            },
        }
    }
}

/// A record within the limit that has nothing within the limit before it is
/// what `first_within` finds.
pub proof fn lemma_first_within_at(s: Seq<RecordView>, h: Seq<u8>, limit: u32, i: int)
    requires
        0 <= i < s.len(),
        within(h, s[i].hash, limit),
        forall|j: int| #![trigger s[j]] 0 <= j < i ==> !within(h, s[j].hash, limit),
    ensures
        first_within(s, h, limit) == Some(i),
{
    lemma_first_within(s, h, limit);
}

/// Classifies `hash` against the store. The store is only read.
///
/// The result is `Duplicate` with the index of the record under `hash` if
/// there is one; else `Similar` with the index of the first record in
/// listing order within [`SIMILARITY_THRESHOLD`] bits; else `Unique` with no
/// index.
pub fn classify(store: &HashStore, hash: &Vec<u8>) -> (m: Match)
    requires
        store.wf(),
        fits(store@, hash@),
    ensures
        m.classification == classification_of(store@, hash@),
        match m.index {
            Some(i) => i < store@.len() && matched_index(store@, hash@) == Some(i as int),
            None => matched_index(store@, hash@) is None,
        },
{
    let (index, present) = store.locate(hash);
    if present {
        return Match { classification: Classification::Duplicate, index: Some(index) };
    }
    let mut i: usize = 0;
    while i < store.len()
        invariant
            0 <= i <= store@.len(),
            fits(store@, hash@),
            !holds(store@, hash@),
            forall|j: int|
                #![trigger store@[j]]
                0 <= j < i ==> !within(hash@, store@[j].hash, SIMILARITY_THRESHOLD),
        decreases store@.len() - i,
    {
        if within_distance(hash, &store.entry(i).hash, SIMILARITY_THRESHOLD) {
            proof {
                lemma_first_within_at(store@, hash@, SIMILARITY_THRESHOLD, i as int);
            }
            return Match { classification: Classification::Similar, index: Some(i) };
        }
        i = i + 1;
    }
    proof {
        lemma_first_within(store@, hash@, SIMILARITY_THRESHOLD);
    }
    Match { classification: Classification::Unique, index: None }
}

} // verus!
