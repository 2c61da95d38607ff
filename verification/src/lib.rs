//! Incremental near-duplicate detection for images by perceptual hash.
//!
//! Every image is reduced to a fixed-length hash. A [`store::HashStore`] keeps
//! one record per accepted hash, ordered by byte comparison. A newly hashed
//! image is classified against the store as an exact duplicate, as similar
//! (within [`distance::SIMILARITY_THRESHOLD`] differing bits of the first such
//! entry in store order) or as unique, and a resolution policy decides which
//! of two matched files is kept.
//!
//! The library never touches the file system: it tells its caller which path
//! to discard, and the caller deletes it.

pub mod cli;
pub mod coordinator;
pub mod distance;
pub mod encoding;
pub mod fingerprint;
pub mod laws;
pub mod listing;
pub mod matcher;
pub mod order;
pub mod policy;
pub mod record;
pub mod store;
