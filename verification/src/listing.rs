//! The mathematical model of the store: its records listed in ascending
//! byte order of their hashes, at most one record per hash.
//!
//! Everything the store does is stated over such a listing: where a hash
//! belongs ([`slot`]), whether it is present ([`holds`]), and what inserting
//! ([`put`]) or removing ([`without`]) a record gives. [`contents`] reads a
//! listing as the mapping from hash to record that it stands for.

use crate::order::{lemma_precedes_irreflexive, lemma_precedes_total, lemma_precedes_transitive, precedes};
use crate::record::RecordView;
use vstd::prelude::*;

verus! {

/// Every record's hash comes strictly before the hashes of all later records.
pub open spec fn ascending(s: Seq<RecordView>) -> bool {
    forall|i: int, j: int|
        #![trigger s[i], s[j]]
        0 <= i < j < s.len() ==> precedes(s[i].hash, s[j].hash)
}

/// Every hash in the listing is as long as `h`.
pub open spec fn fits(s: Seq<RecordView>, h: Seq<u8>) -> bool {
    forall|i: int| #![trigger s[i]] 0 <= i < s.len() ==> s[i].hash.len() == h.len()
}

/// All hashes in the listing have one length.
pub open spec fn uniform(s: Seq<RecordView>) -> bool {
    forall|i: int, j: int|
        #![trigger s[i], s[j]]
        0 <= i < s.len() && 0 <= j < s.len() ==> s[i].hash.len() == s[j].hash.len()
}

/// A valid store listing: ascending, so no hash occurs twice, and of one
/// hash length.
pub open spec fn well_ordered(s: Seq<RecordView>) -> bool {
    ascending(s) && uniform(s)
}

/// The number of leading records whose hash comes before `h`. In an
/// ascending listing this is the one index at which `h` is found or would
/// have to be inserted.
pub open spec fn slot(s: Seq<RecordView>, h: Seq<u8>) -> int
    decreases s.len(),
{
    if s.len() == 0 || !precedes(s[0].hash, h) {
        0
    } else {
        1 + slot(s.drop_first(), h)
    }
}

/// Whether the listing has a record under hash `h`.
pub open spec fn holds(s: Seq<RecordView>, h: Seq<u8>) -> bool {
    slot(s, h) < s.len() && s[slot(s, h)].hash == h
}

/// The listing after `r` was stored: in the place of the record with the
/// same hash if there is one, else inserted where its hash belongs.
pub open spec fn put(s: Seq<RecordView>, r: RecordView) -> Seq<RecordView> {
    if holds(s, r.hash) {
        s.update(slot(s, r.hash), r)
    } else {
        s.insert(slot(s, r.hash), r)
    }
}

/// The listing after the record under hash `h`, if any, was taken out.
pub open spec fn without(s: Seq<RecordView>, h: Seq<u8>) -> Seq<RecordView> {
    if holds(s, h) {
        s.remove(slot(s, h))
    } else {
        s
    }
}

/// The mapping from hash to record that a listing stands for.
pub open spec fn contents(s: Seq<RecordView>) -> Map<Seq<u8>, RecordView> {
    Map::new(|h: Seq<u8>| holds(s, h), |h: Seq<u8>| s[slot(s, h)])
}

/// `slot` lies within the listing, everything before it precedes `h`, and
/// the record at it does not.
pub proof fn lemma_slot(s: Seq<RecordView>, h: Seq<u8>)
    ensures
        0 <= slot(s, h) <= s.len(),
        forall|i: int| #![trigger s[i]] 0 <= i < slot(s, h) ==> precedes(s[i].hash, h),
        slot(s, h) < s.len() ==> !precedes(s[slot(s, h)].hash, h),
    decreases s.len(),
{
    if s.len() != 0 && precedes(s[0].hash, h) {
        let t = s.drop_first();
        lemma_slot(t, h);
        assert forall|i: int| #![trigger s[i]] 0 <= i < slot(s, h) implies precedes(
            s[i].hash,
            h,
        ) by {
            if i > 0 {
                assert(s[i] == t[i - 1]);
            }
        }
        if slot(s, h) < s.len() {
            assert(s[slot(s, h)] == t[slot(t, h)]);
        }
    }
}

/// An index with everything before it preceding `h`, and the record at it
/// not, is the slot of `h`.
pub proof fn lemma_slot_is(s: Seq<RecordView>, h: Seq<u8>, p: int)
    requires
        0 <= p <= s.len(),
        forall|i: int| #![trigger s[i]] 0 <= i < p ==> precedes(s[i].hash, h),
        p < s.len() ==> !precedes(s[p].hash, h),
    ensures
        slot(s, h) == p,
    decreases s.len(),
{
    if p > 0 {
        let t = s.drop_first();
        assert(precedes(s[0].hash, h));
        assert forall|i: int| #![trigger t[i]] 0 <= i < p - 1 implies precedes(t[i].hash, h) by {
            assert(t[i] == s[i + 1]);
        }
        if p - 1 < t.len() {
            assert(t[p - 1] == s[p]);
        }
        lemma_slot_is(t, h, p - 1);
    }
}

/// In an ascending listing no record from the slot of `h` on precedes `h`.
pub proof fn lemma_slot_tail(s: Seq<RecordView>, h: Seq<u8>)
    requires
        ascending(s),
    ensures
        forall|i: int| #![trigger s[i]] slot(s, h) <= i < s.len() ==> !precedes(s[i].hash, h),
{
    lemma_slot(s, h);
    let p = slot(s, h);
    assert forall|i: int| #![trigger s[i]] p <= i < s.len() implies !precedes(s[i].hash, h) by {
        if i > p && precedes(s[i].hash, h) {
            assert(precedes(s[p].hash, s[i].hash));
            lemma_precedes_transitive(s[p].hash, s[i].hash, h);
        }
    }
}

/// In an ascending listing a hash can only stand at its slot.
pub proof fn lemma_found_at_slot(s: Seq<RecordView>, h: Seq<u8>, i: int)
    requires
        ascending(s),
        0 <= i < s.len(),
        s[i].hash == h,
    ensures
        holds(s, h),
        slot(s, h) == i,
{
    lemma_slot(s, h);
    lemma_slot_tail(s, h);
    lemma_precedes_irreflexive(h);
    let p = slot(s, h);
    if i < p {
        assert(precedes(s[i].hash, h));
    } else if i > p {
        assert(precedes(s[p].hash, s[i].hash));
    }
}

/// In an ascending listing every record from the slot of an absent hash on
/// comes after that hash.
proof fn lemma_absent_tail(s: Seq<RecordView>, h: Seq<u8>)
    requires
        ascending(s),
        !holds(s, h),
    ensures
        forall|i: int| #![trigger s[i]] slot(s, h) <= i < s.len() ==> precedes(h, s[i].hash),
{
    lemma_slot_tail(s, h);
    assert forall|i: int| #![trigger s[i]] slot(s, h) <= i < s.len() implies precedes(
        h,
        s[i].hash,
    ) by {
        lemma_precedes_total(s[i].hash, h);
        if s[i].hash == h {
            lemma_found_at_slot(s, h, i);
        }
    }
}

/// Storing a record keeps the listing ascending.
pub proof fn lemma_put_ascending(s: Seq<RecordView>, r: RecordView)
    requires
        ascending(s),
    ensures
        ascending(put(s, r)),
{
    lemma_slot(s, r.hash);
    let p = slot(s, r.hash);
    let t = put(s, r);
    if holds(s, r.hash) {
        assert forall|i: int, j: int| #![trigger t[i], t[j]] 0 <= i < j < t.len() implies precedes(
            t[i].hash,
            t[j].hash,
        ) by {
            assert(t[i].hash == s[i].hash);
            assert(t[j].hash == s[j].hash);
        }
    } else {
        lemma_absent_tail(s, r.hash);
        s.insert_ensures(p, r);
        assert forall|i: int, j: int| #![trigger t[i], t[j]] 0 <= i < j < t.len() implies precedes(
            t[i].hash,
            t[j].hash,
        ) by {
            if j < p {
                assert(t[i] == s[i] && t[j] == s[j]);
            } else if j == p {
                assert(t[i] == s[i]);
            } else if i < p {
                assert(t[i] == s[i] && t[j] == s[j - 1]);
                lemma_precedes_transitive(s[i].hash, r.hash, s[j - 1].hash);
            } else if i == p {
                assert(t[j] == s[j - 1]);
            } else {
                assert(t[i] == s[i - 1] && t[j] == s[j - 1]);
            }
        }
    }
}

/// Storing a record whose hash has the listing's length keeps the listing
/// valid.
pub proof fn lemma_put_well_ordered(s: Seq<RecordView>, r: RecordView)
    requires
        well_ordered(s),
        fits(s, r.hash),
    ensures
        well_ordered(put(s, r)),
        fits(put(s, r), r.hash),
{
    lemma_put_ascending(s, r);
    lemma_slot(s, r.hash);
    let p = slot(s, r.hash);
    let t = put(s, r);
    if holds(s, r.hash) {
        assert forall|i: int| #![trigger t[i]] 0 <= i < t.len() implies t[i].hash.len()
            == r.hash.len() by {
            assert(t[i].hash == s[i].hash);
        }
    } else {
        s.insert_ensures(p, r);
        assert forall|i: int| #![trigger t[i]] 0 <= i < t.len() implies t[i].hash.len()
            == r.hash.len() by {
            if i < p {
                assert(t[i] == s[i]);
            } else if i > p {
                assert(t[i] == s[i - 1]);
            }
        }
    }
}

/// Taking a record out keeps the listing valid.
pub proof fn lemma_without_well_ordered(s: Seq<RecordView>, h: Seq<u8>)
    requires
        well_ordered(s),
    ensures
        well_ordered(without(s, h)),
        forall|g: Seq<u8>| fits(s, g) ==> fits(without(s, h), g),
{
    let t = without(s, h);
    lemma_slot(s, h);
    if holds(s, h) {
        let p = slot(s, h);
        s.remove_ensures(p);
        assert forall|i: int, j: int| #![trigger t[i], t[j]] 0 <= i < j < t.len() implies precedes(
            t[i].hash,
            t[j].hash,
        ) by {
            let si = if i < p { i } else { i + 1 };
            let sj = if j < p { j } else { j + 1 };
            assert(t[i] == s[si] && t[j] == s[sj]);
        }
        assert forall|i: int, j: int|
            #![trigger t[i], t[j]]
            0 <= i < t.len() && 0 <= j < t.len() implies t[i].hash.len() == t[j].hash.len() by {
            let si = if i < p { i } else { i + 1 };
            let sj = if j < p { j } else { j + 1 };
            assert(t[i] == s[si] && t[j] == s[sj]);
        }
        assert forall|g: Seq<u8>| fits(s, g) implies fits(t, g) by {
            assert forall|i: int| #![trigger t[i]] 0 <= i < t.len() implies t[i].hash.len()
                == g.len() by {
                let si = if i < p { i } else { i + 1 };
                assert(t[i] == s[si]);
            }
        }
    }
}

/// Read as a mapping, storing a record is a map insertion under its hash:
/// the record is then found under its hash, and every other hash maps to
/// what it mapped to before.
pub proof fn lemma_put_contents(s: Seq<RecordView>, r: RecordView)
    requires
        ascending(s),
    ensures
        contents(put(s, r)) == contents(s).insert(r.hash, r),
{
    lemma_put_ascending(s, r);
    lemma_slot(s, r.hash);
    let p = slot(s, r.hash);
    let t = put(s, r);
    if !holds(s, r.hash) {
        s.insert_ensures(p, r);
    }
    assert(t[p] == r);
    lemma_found_at_slot(t, r.hash, p);
    assert forall|h: Seq<u8>| h != r.hash implies (holds(t, h) <==> holds(s, h)) && (holds(s, h)
        ==> t[slot(t, h)] == s[slot(s, h)]) by {
        lemma_slot(s, h);
        lemma_slot(t, h);
        if holds(s, h) {
            let i = slot(s, h);
            let k = if holds(s, r.hash) || i < p { i } else { i + 1 };
            assert(t[k] == s[i]);
            lemma_found_at_slot(t, h, k);
        }
        if holds(t, h) {
            let k = slot(t, h);
            assert(k != p);
            let i = if holds(s, r.hash) || k < p { k } else { k - 1 };
            assert(s[i] == t[k]);
            lemma_found_at_slot(s, h, i);
        }
    }
    assert(contents(t) =~= contents(s).insert(r.hash, r));
}

/// Read as a mapping, taking a hash out is a map removal.
pub proof fn lemma_without_contents(s: Seq<RecordView>, h: Seq<u8>)
    requires
        ascending(s),
    ensures
        contents(without(s, h)) == contents(s).remove(h),
{
    let t = without(s, h);
    lemma_slot(s, h);
    if holds(s, h) {
        let p = slot(s, h);
        s.remove_ensures(p);
        assert forall|i: int, j: int| #![trigger t[i], t[j]] 0 <= i < j < t.len() implies precedes(
            t[i].hash,
            t[j].hash,
        ) by {
            let si = if i < p { i } else { i + 1 };
            let sj = if j < p { j } else { j + 1 };
            assert(t[i] == s[si] && t[j] == s[sj]);
        }
        assert forall|g: Seq<u8>| (holds(t, g) <==> g != h && holds(s, g)) && (holds(t, g) ==> t[slot(
            t,
            g,
        )] == s[slot(s, g)]) by {
            lemma_slot(s, g);
            lemma_slot(t, g);
            if g != h && holds(s, g) {
                let i = slot(s, g);
                let k = if i < p { i } else { i - 1 };
                assert(t[k] == s[i]);
                lemma_found_at_slot(t, g, k);
            }
            if holds(t, g) {
                let k = slot(t, g);
                let i = if k < p { k } else { k + 1 };
                assert(s[i] == t[k]);
                lemma_found_at_slot(s, g, i);
                if g == h {
                    lemma_found_at_slot(s, h, p);
                }
            }
        }
    }
    assert(contents(t) =~= contents(s).remove(h));
}

} // verus!
