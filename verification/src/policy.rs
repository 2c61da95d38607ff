//! The resolution policy: which of two matched images is kept.
//!
//! With deletion disabled nothing is discarded and the stored record stays.
//! With deletion enabled the larger file wins. Between files of equal size
//! the older one wins and the newer one is discarded; where even the
//! creation times are equal, the stored record wins over the candidate.

use crate::record::{HashRecord, RecordView};
use vstd::prelude::*;

verus! {

/// The decision taken for a candidate and the record it matched.
#[derive(Debug)]
pub struct Resolution {
    /// The path of the image that stays the representative of its hash.
    pub keep: String,
    /// The path of the file to delete, if one is to be deleted.
    pub discard: Option<String>,
    /// Whether the candidate takes the matched record's place in the store.
    pub replace_store_entry: bool,
}

/// The mathematical value of a [`Resolution`].
pub ghost struct ResolutionView {
    pub keep: Seq<char>,
    pub discard: Option<Seq<char>>,
    pub replace_store_entry: bool,
}

impl View for Resolution {
    type V = ResolutionView;

    open spec fn view(&self) -> ResolutionView {
        ResolutionView {
            keep: self.keep@,
            discard: match self.discard {
                Some(path) => Some(path@),
                None => None,
            },
            replace_store_entry: self.replace_store_entry,
        }
    }
}

/// Whether the candidate is the better copy: strictly larger, or of equal
/// size and strictly older than the matched record.
pub open spec fn candidate_wins(candidate: RecordView, matched: RecordView) -> bool {
    candidate.size_bytes > matched.size_bytes || (candidate.size_bytes == matched.size_bytes
        && matched.created_at.later_than(candidate.created_at))
}

/// The decision for `candidate` against the record it matched.
pub open spec fn resolution_of(
    candidate: RecordView,
    matched: RecordView,
    delete_enabled: bool,
) -> ResolutionView {
    if !delete_enabled {
        ResolutionView { keep: matched.path, discard: None, replace_store_entry: false }
    } else if candidate_wins(candidate, matched) {
        ResolutionView {
            keep: candidate.path,
            discard: Some(matched.path),
            replace_store_entry: true,
        }
    } else {
        ResolutionView {
            keep: matched.path,
            discard: Some(candidate.path),
            replace_store_entry: false,
        }
    }
}

/// Decides between a candidate and the stored record that it matched.
///
/// Nothing is deleted here: the caller deletes the file named by `discard`
/// before the store is changed.
pub fn resolve(candidate: &HashRecord, matched: &HashRecord, delete_enabled: bool) -> (decision:
    Resolution)
    ensures
        decision@ == resolution_of(candidate@, matched@, delete_enabled),
{
    if !delete_enabled {
        Resolution { keep: matched.path.clone(), discard: None, replace_store_entry: false }
    } else if candidate.size_bytes > matched.size_bytes || (candidate.size_bytes
        == matched.size_bytes && matched.created_at.is_after(&candidate.created_at)) {
        Resolution {
            keep: candidate.path.clone(),
            discard: Some(matched.path.clone()),
            replace_store_entry: true,
        }
    } else {
        Resolution {
            keep: matched.path.clone(),
            discard: Some(candidate.path.clone()),
            replace_store_entry: false,
        }
    }
}

} // verus!
