//! What holds of the engine as a whole, proved from the definitions that
//! the functions' contracts are stated in.

use crate::coordinator::{
    advance, entries_after, initial, lemma_advance, one_length, outcome_of, state_after, valid,
    CoordinatorView, Summary,
};
use crate::distance::{
    lemma_bit_distance_self, lemma_bit_distance_symmetric, within, SIMILARITY_THRESHOLD,
};
use crate::listing::{
    ascending, fits, holds, lemma_found_at_slot, lemma_put_ascending, lemma_slot,
    lemma_without_well_ordered, put, slot, without,
};
use crate::matcher::{
    classification_of, first_within, lemma_first_within, matched_index, Classification,
};
use crate::order::precedes;
use crate::policy::{candidate_wins, resolution_of};
use crate::record::RecordView;
use vstd::prelude::*;

verus! {

/// Whether processing `r` in state `c` leaves `r` in the store: it does for
/// a unique image, and for a matched one that takes the matched record's
/// place.
pub open spec fn accepted(c: CoordinatorView, r: RecordView) -> bool {
    match matched_index(c.entries, r.hash) {
        None => true,
        Some(i) => resolution_of(r, c.entries[i], c.delete_enabled).replace_store_entry,
    }
}

/// No record of the listing is within the threshold of `h`.
pub open spec fn far_from_all(s: Seq<RecordView>, h: Seq<u8>) -> bool {
    forall|i: int| #![trigger s[i]] 0 <= i < s.len() ==> !within(h, s[i].hash, SIMILARITY_THRESHOLD)
}

/// Any two different images of the batch are beyond the threshold of each
/// other.
pub open spec fn pairwise_far(batch: Seq<RecordView>) -> bool {
    forall|i: int, j: int|
        #![trigger batch[i], batch[j]]
        0 <= i < batch.len() && 0 <= j < batch.len() && i != j ==> !within(
            batch[i].hash,
            batch[j].hash,
            SIMILARITY_THRESHOLD,
        )
}

/// Every record of `s` is one of the records of `batch`.
pub open spec fn drawn_from(s: Seq<RecordView>, batch: Seq<RecordView>) -> bool {
    forall|i: int|
        #![trigger s[i]]
        0 <= i < s.len() ==> exists|j: int| 0 <= j < batch.len() && batch[j] == s[i]
}

/// A hash within the threshold of nothing stored is classified unique and
/// matched with nothing.
pub proof fn lemma_far_is_unique(s: Seq<RecordView>, h: Seq<u8>)
    requires
        far_from_all(s, h),
    ensures
        classification_of(s, h) == Classification::Unique,
        matched_index(s, h) is None,
{
    lemma_slot(s, h);
    lemma_bit_distance_self(h);
    lemma_first_within(s, h, SIMILARITY_THRESHOLD);
    if holds(s, h) {
        assert(within(h, s[slot(s, h)].hash, SIMILARITY_THRESHOLD));
    }
}

/// A record accepted into a valid listing is then found under its hash.
pub proof fn lemma_put_holds(s: Seq<RecordView>, r: RecordView)
    requires
        ascending(s),
    ensures
        holds(put(s, r), r.hash),
        put(s, r)[slot(put(s, r), r.hash)] == r,
{
    lemma_put_ascending(s, r);
    lemma_slot(s, r.hash);
    if !holds(s, r.hash) {
        s.insert_ensures(slot(s, r.hash), r);
    }
    lemma_found_at_slot(put(s, r), r.hash, slot(s, r.hash));
}

/// Every record of the listing after a store or a removal was there before,
/// or is the record that was stored.
pub proof fn lemma_members(s: Seq<RecordView>, r: RecordView, h: Seq<u8>)
    ensures
        forall|k: int|
            #![trigger put(s, r)[k]]
            0 <= k < put(s, r).len() ==> put(s, r)[k] == r || exists|i: int|
                0 <= i < s.len() && s[i] == put(s, r)[k],
        forall|k: int|
            #![trigger without(s, h)[k]]
            0 <= k < without(s, h).len() ==> exists|i: int|
                0 <= i < s.len() && s[i] == without(s, h)[k],
{
    lemma_slot(s, r.hash);
    lemma_slot(s, h);
    let p = slot(s, r.hash);
    let t = put(s, r);
    if !holds(s, r.hash) {
        s.insert_ensures(p, r);
    }
    assert forall|k: int| #![trigger t[k]] 0 <= k < t.len() implies t[k] == r || exists|i: int|
        0 <= i < s.len() && s[i] == t[k] by {
        if k != p {
            let i = if holds(s, r.hash) || k < p { k } else { k - 1 };
            assert(s[i] == t[k]);
        }
    }
    let q = slot(s, h);
    let u = without(s, h);
    if holds(s, h) {
        s.remove_ensures(q);
    }
    assert forall|k: int| #![trigger u[k]] 0 <= k < u.len() implies exists|i: int|
        0 <= i < s.len() && s[i] == u[k] by {
        let i = if !holds(s, h) || k < q { k } else { k + 1 };
        assert(s[i] == u[k]);
    }
}

/// Every record in the store after an image was processed was there before,
/// or is that image.
pub proof fn lemma_entries_after_members(s: Seq<RecordView>, r: RecordView, delete_enabled: bool)
    ensures
        forall|k: int|
            #![trigger entries_after(s, r, delete_enabled)[k]]
            0 <= k < entries_after(s, r, delete_enabled).len() ==> entries_after(
                s,
                r,
                delete_enabled,
            )[k] == r || exists|i: int|
                0 <= i < s.len() && s[i] == entries_after(s, r, delete_enabled)[k],
{
    let t = entries_after(s, r, delete_enabled);
    match matched_index(s, r.hash) {
        None => {
            lemma_members(s, r, r.hash);
        },
        Some(m) => {
            let rest = without(s, s[m].hash);
            lemma_members(s, r, s[m].hash);
            lemma_members(rest, r, r.hash);
            assert forall|k: int| #![trigger t[k]] 0 <= k < t.len() implies t[k] == r || exists|
                i: int,
            |
                0 <= i < s.len() && s[i] == t[k] by {
                if resolution_of(r, s[m], delete_enabled).replace_store_entry {
                    assert(t[k] == put(rest, r)[k]);
                    if t[k] != r {
                        let i = choose|i: int| 0 <= i < rest.len() && rest[i] == put(rest, r)[k];
                        assert(rest[i] == without(s, s[m].hash)[i]);
                    }
                } else {
                    assert(s[k] == t[k]);
                }
            }
        },
    }
}

/// The record that a similar image is matched with, the first within the
/// threshold in store order, has the least hash of all stored records
/// within the threshold.
pub proof fn law_first_match_has_least_hash(s: Seq<RecordView>, h: Seq<u8>, j: int)
    requires
        ascending(s),
        0 <= j < s.len(),
        within(h, s[j].hash, SIMILARITY_THRESHOLD),
    ensures
        first_within(s, h, SIMILARITY_THRESHOLD) matches Some(i) && (i == j || precedes(
            s[i].hash,
            s[j].hash,
        )),
{
    lemma_first_within(s, h, SIMILARITY_THRESHOLD);
}

/// An accepted image is in the store right after it was processed.
pub proof fn lemma_accepted_is_stored(c: CoordinatorView, a: RecordView)
    requires
        valid(c),
        accepted(c, a),
    ensures
        holds(advance(c, a).entries, a.hash),
        advance(c, a).entries[slot(advance(c, a).entries, a.hash)] == a,
{
    match matched_index(c.entries, a.hash) {
        None => {
            lemma_put_holds(c.entries, a);
        },
        Some(i) => {
            lemma_without_well_ordered(c.entries, c.entries[i].hash);
            lemma_put_holds(without(c.entries, c.entries[i].hash), a);
        },
    }
}

/// An image with the hash of an image that was just accepted is classified
/// a duplicate, and the record it is matched with is that image.
pub proof fn law_equal_hash_is_duplicate(c: CoordinatorView, a: RecordView, b: RecordView)
    requires
        valid(c),
        accepted(c, a),
        a.hash == b.hash,
    ensures
        outcome_of(advance(c, a), b).event.classification == Classification::Duplicate,
        outcome_of(advance(c, a), b).event.matched_path == Some(a.path),
{
    lemma_accepted_is_stored(c, a);
}

/// An image whose hash is new to the store, but within the threshold of an
/// image that was just accepted, is classified similar: never a duplicate,
/// never unique.
pub proof fn law_near_hash_is_similar(c: CoordinatorView, a: RecordView, b: RecordView)
    requires
        valid(c),
        fits(c.entries, a.hash),
        c.summary.total() < u64::MAX,
        accepted(c, a),
        a.hash != b.hash,
        !holds(c.entries, b.hash),
        within(b.hash, a.hash, SIMILARITY_THRESHOLD),
    ensures
        outcome_of(advance(c, a), b).event.classification == Classification::Similar,
        outcome_of(advance(c, a), b).event.matched_path is Some,
{
    let after = advance(c, a).entries;
    lemma_accepted_is_stored(c, a);
    lemma_advance(c, a);
    lemma_entries_after_members(c.entries, a, c.delete_enabled);
    lemma_slot(after, b.hash);
    if holds(after, b.hash) {
        let k = slot(after, b.hash);
        assert(after[k] == entries_after(c.entries, a, c.delete_enabled)[k]);
        let i = choose|i: int| 0 <= i < c.entries.len() && c.entries[i] == after[k];
        lemma_found_at_slot(c.entries, b.hash, i);
    }
    lemma_first_within(after, b.hash, SIMILARITY_THRESHOLD);
    lemma_slot(after, a.hash);
    let p = slot(after, a.hash);
    assert(within(b.hash, after[p].hash, SIMILARITY_THRESHOLD));
}

/// An image beyond the threshold of everything stored, and of the image
/// processed just before it, is classified unique, whatever became of that
/// image.
pub proof fn law_far_hash_is_unique(c: CoordinatorView, a: RecordView, b: RecordView)
    requires
        far_from_all(c.entries, b.hash),
        !within(b.hash, a.hash, SIMILARITY_THRESHOLD),
    ensures
        outcome_of(advance(c, a), b).event.classification == Classification::Unique,
        outcome_of(advance(c, a), b).event.matched_path is None,
        outcome_of(advance(c, a), b).resolution is None,
{
    let after = advance(c, a).entries;
    lemma_entries_after_members(c.entries, a, c.delete_enabled);
    assert forall|k: int| #![trigger after[k]] 0 <= k < after.len() implies !within(
        b.hash,
        after[k].hash,
        SIMILARITY_THRESHOLD,
    ) by {
        assert(after[k] == entries_after(c.entries, a, c.delete_enabled)[k]);
        if after[k] != a {
            let i = choose|i: int| 0 <= i < c.entries.len() && c.entries[i] == after[k];
            assert(!within(b.hash, c.entries[i].hash, SIMILARITY_THRESHOLD));
        }
    }
    lemma_far_is_unique(after, b.hash);
}

/// Two images beyond the threshold of each other are both classified
/// unique when they are the first two of a run, in either order.
pub proof fn law_far_pair_is_unique_both_ways(a: RecordView, b: RecordView, delete_enabled: bool)
    requires
        a.hash.len() == b.hash.len(),
        !within(a.hash, b.hash, SIMILARITY_THRESHOLD),
    ensures
        outcome_of(initial(delete_enabled), a).event.classification == Classification::Unique,
        outcome_of(advance(initial(delete_enabled), a), b).event.classification
            == Classification::Unique,
        outcome_of(initial(delete_enabled), b).event.classification == Classification::Unique,
        outcome_of(advance(initial(delete_enabled), b), a).event.classification
            == Classification::Unique,
{
    let start = initial(delete_enabled);
    lemma_bit_distance_symmetric(a.hash, b.hash);
    lemma_far_is_unique(start.entries, a.hash);
    lemma_far_is_unique(start.entries, b.hash);
    law_far_hash_is_unique(start, a, b);
    law_far_hash_is_unique(start, b, a);
}

/// With deletion enabled, a matched image of another size than the record
/// it matched leaves only the larger of the two behind: the outcome
/// discards the smaller file, and the larger is what the store then holds
/// under the candidate's or the matched record's hash.
pub proof fn law_larger_file_survives(c: CoordinatorView, r: RecordView, i: int)
    requires
        valid(c),
        c.delete_enabled,
        matched_index(c.entries, r.hash) == Some(i),
        0 <= i < c.entries.len(),
        r.size_bytes != c.entries[i].size_bytes,
    ensures
        r.size_bytes > c.entries[i].size_bytes ==> {
            &&& outcome_of(c, r).discard() == Some(c.entries[i].path)
            &&& holds(advance(c, r).entries, r.hash)
            &&& advance(c, r).entries[slot(advance(c, r).entries, r.hash)] == r
        },
        r.size_bytes < c.entries[i].size_bytes ==> {
            &&& outcome_of(c, r).discard() == Some(r.path)
            &&& advance(c, r).entries == c.entries
        },
{
    if r.size_bytes > c.entries[i].size_bytes {
        lemma_accepted_is_stored(c, r);
    }
}

/// With deletion enabled, of a matched image and the record it matched, if
/// both have one size, exactly one is discarded: the newer of the two, and
/// the candidate where they are equally old. The other is what the store
/// then holds.
pub proof fn law_older_file_survives_a_tie(c: CoordinatorView, r: RecordView, i: int)
    requires
        valid(c),
        c.delete_enabled,
        matched_index(c.entries, r.hash) == Some(i),
        0 <= i < c.entries.len(),
        r.size_bytes == c.entries[i].size_bytes,
    ensures
        c.entries[i].created_at.later_than(r.created_at) ==> {
            &&& outcome_of(c, r).discard() == Some(c.entries[i].path)
            &&& holds(advance(c, r).entries, r.hash)
            &&& advance(c, r).entries[slot(advance(c, r).entries, r.hash)] == r
        },
        !c.entries[i].created_at.later_than(r.created_at) ==> {
            &&& outcome_of(c, r).discard() == Some(r.path)
            &&& advance(c, r).entries == c.entries
        },
{
    if candidate_wins(r, c.entries[i]) {
        lemma_accepted_is_stored(c, r);
    }
}

/// With deletion disabled nothing is ever discarded, and a matched image
/// leaves the store as it was.
pub proof fn law_nothing_discarded_without_delete(c: CoordinatorView, r: RecordView)
    requires
        !c.delete_enabled,
    ensures
        outcome_of(c, r).discard() is None,
        matched_index(c.entries, r.hash) is Some ==> advance(c, r).entries == c.entries,
{
}

/// A run over no image at all ends with all counts at zero and an empty
/// store.
pub proof fn law_empty_run(delete_enabled: bool)
    ensures
        state_after(Seq::<RecordView>::empty(), delete_enabled).summary == (Summary {
            duplicate: 0,
            similar: 0,
            unique: 0,
        }),
        state_after(Seq::<RecordView>::empty(), delete_enabled).entries.len() == 0,
{
}

/// During a run over images that are pairwise beyond the threshold, the
/// store holds only images of the batch processed so far, every image is
/// counted unique, and the state stays valid.
proof fn lemma_far_run(batch: Seq<RecordView>, delete_enabled: bool, k: int)
    requires
        one_length(batch),
        pairwise_far(batch),
        batch.len() <= u64::MAX,
        0 <= k <= batch.len(),
    ensures
        valid(state_after(batch.take(k), delete_enabled)),
        drawn_from(state_after(batch.take(k), delete_enabled).entries, batch.take(k)),
        state_after(batch.take(k), delete_enabled).summary == (Summary {
            duplicate: 0,
            similar: 0,
            unique: k as u64,
        }),
        k < batch.len() ==> far_from_all(
            state_after(batch.take(k), delete_enabled).entries,
            batch[k].hash,
        ),
        k < batch.len() ==> fits(state_after(batch.take(k), delete_enabled).entries, batch[k].hash),
    decreases k,
{
    let now = state_after(batch.take(k), delete_enabled);
    if k > 0 {
        let before = state_after(batch.take(k - 1), delete_enabled);
        lemma_far_run(batch, delete_enabled, k - 1);
        assert(batch.take(k).drop_last() =~= batch.take(k - 1));
        assert(batch.take(k).last() == batch[k - 1]);
        assert(now == advance(before, batch[k - 1]));
        lemma_far_is_unique(before.entries, batch[k - 1].hash);
        lemma_advance(before, batch[k - 1]);
        lemma_entries_after_members(before.entries, batch[k - 1], delete_enabled);
        assert forall|i: int| #![trigger now.entries[i]] 0 <= i < now.entries.len() implies exists|
            j: int,
        |
            0 <= j < batch.take(k).len() && batch.take(k)[j] == now.entries[i] by {
            assert(now.entries[i] == entries_after(before.entries, batch[k - 1], delete_enabled)[i]);
            if now.entries[i] == batch[k - 1] {
                assert(batch.take(k)[k - 1] == now.entries[i]);
            } else {
                let m = choose|m: int|
                    0 <= m < before.entries.len() && before.entries[m] == now.entries[i];
                let earlier = batch.take(k - 1);
                let j = choose|j: int| 0 <= j < earlier.len() && earlier[j] == before.entries[m];
                assert(batch.take(k)[j] == now.entries[i]);
            }
        }
    }
    if k < batch.len() {
        assert forall|i: int| #![trigger now.entries[i]] 0 <= i < now.entries.len() implies !within(
            batch[k].hash,
            now.entries[i].hash,
            SIMILARITY_THRESHOLD,
        ) && now.entries[i].hash.len() == batch[k].hash.len() by {
            let j = choose|j: int| 0 <= j < batch.take(k).len() && batch.take(k)[j] == now.entries[i];
            assert(batch.take(k)[j] == batch[j]);
            assert(!within(batch[k].hash, batch[j].hash, SIMILARITY_THRESHOLD));
            assert(batch[j].hash.len() == batch[k].hash.len());
        }
    }
}

/// A run over images that are already free of duplicates and near
/// duplicates, any two of them beyond the threshold of each other, changes
/// nothing: every image is classified unique, none is matched, no file is
/// discarded, and the counts end at zero duplicates, zero similar images
/// and one unique image per input.
pub proof fn law_rerun_changes_nothing(batch: Seq<RecordView>, delete_enabled: bool)
    requires
        one_length(batch),
        pairwise_far(batch),
        batch.len() <= u64::MAX,
    ensures
        forall|k: int|
            #![trigger batch[k]]
            0 <= k < batch.len() ==> {
                let outcome = outcome_of(state_after(batch.take(k), delete_enabled), batch[k]);
                &&& outcome.event.classification == Classification::Unique
                &&& outcome.event.matched_path is None
                &&& outcome.discard() is None
            },
        state_after(batch, delete_enabled).summary == (Summary {
            duplicate: 0,
            similar: 0,
            unique: batch.len() as u64,
        }),
{
    assert forall|k: int| #![trigger batch[k]] 0 <= k < batch.len() implies {
        let outcome = outcome_of(state_after(batch.take(k), delete_enabled), batch[k]);
        &&& outcome.event.classification == Classification::Unique
        &&& outcome.event.matched_path is None
        &&& outcome.discard() is None
    } by {
        lemma_far_run(batch, delete_enabled, k);
        lemma_far_is_unique(state_after(batch.take(k), delete_enabled).entries, batch[k].hash);
    }
    lemma_far_run(batch, delete_enabled, batch.len() as int);
    assert(batch.take(batch.len() as int) =~= batch);
}

} // verus!
