//! The hash store: the single record of what has been seen so far.
//!
//! It holds at most one record per hash, kept in ascending byte order of the
//! hashes, and it grows without bound for as long as one run lasts.

use crate::listing::{
    contents, fits, holds, lemma_found_at_slot, lemma_put_contents, lemma_put_well_ordered,
    lemma_slot, lemma_slot_is, lemma_without_contents, lemma_without_well_ordered, put, slot,
    well_ordered, without,
};
use crate::order::{
    compare_hashes, lemma_precedes_asymmetric, lemma_precedes_irreflexive, lemma_precedes_total,
    lemma_precedes_transitive, precedes, Position,
};
use crate::record::{HashRecord, RecordView};
use vstd::prelude::*;

verus! {

/// Records of the accepted images, ordered by hash.
///
/// The view of a store is its listing: the records in the order in which
/// they are walked. Every store built through this interface is valid
/// ([`HashStore::wf`]); each operation asks for a valid store and leaves one.
#[derive(Debug)]
pub struct HashStore {
    entries: Vec<HashRecord>,
}

impl View for HashStore {
    type V = Seq<RecordView>;

    closed spec fn view(&self) -> Seq<RecordView> {
        self.entries@.map_values(|r: HashRecord| r@)
    }
}

impl HashStore {
    /// The listing is ascending by hash, and all hashes have one length.
    pub open spec fn wf(&self) -> bool {
        well_ordered(self@)
    }

    /// An empty store.
    pub fn new() -> (store: Self)
        ensures
            store.wf(),
            store@ == Seq::<RecordView>::empty(),
    {
        let store = HashStore { entries: Vec::new() };
        assert(store@ =~= Seq::<RecordView>::empty());
        store
    }

    /// The number of records.
    pub fn len(&self) -> (n: usize)
        ensures
            n == self@.len(),
    {
        self.entries.len()
    }

    /// Whether the store holds no record.
    pub fn is_empty(&self) -> (empty: bool)
        ensures
            empty == (self@.len() == 0),
    {
        self.entries.len() == 0
    }

    /// The record at `index` of the listing. Walking the indices from zero
    /// up visits the records in ascending order of their hashes.
    pub fn entry(&self, index: usize) -> (record: &HashRecord)
        requires
            index < self@.len(),
        ensures
            record@ == self@[index as int],
    {
        &self.entries[index]
    }

    /// Whether `hash` has the length of the hashes already stored, so that
    /// it can be measured against them. An empty store accepts any hash.
    pub fn accepts(&self, hash: &Vec<u8>) -> (ok: bool)
        requires
            self.wf(),
        ensures
            ok == fits(self@, hash@),
    {
        if self.entries.len() == 0 {
            true
        } else {
            let ok = self.entries[0].hash.len() == hash.len();
            proof {
                if ok {
                    assert forall|i: int| #![trigger self@[i]] 0 <= i < self@.len() implies self@[i].hash.len()
                        == hash@.len() by {
                        assert(self@[i].hash.len() == self@[0].hash.len());
                    }
                } else {
                    assert(self@[0].hash.len() != hash@.len());
                }
            }
            ok
        }
    }

    /// Finds by bisection where `hash` stands in the listing, and whether a
    /// record stands there under that very hash.
    pub fn locate(&self, hash: &Vec<u8>) -> (found: (usize, bool))
        requires
            self.wf(),
        ensures
            found.0 == slot(self@, hash@),
            found.1 == holds(self@, hash@),
    {
        let mut lo: usize = 0;
        let mut hi: usize = self.entries.len();
        while lo < hi
            invariant
                0 <= lo <= hi <= self@.len(),
                self.wf(),
                forall|i: int| #![trigger self@[i]] 0 <= i < lo ==> precedes(self@[i].hash, hash@),
                forall|i: int|
                    #![trigger self@[i]]
                    hi <= i < self@.len() ==> precedes(hash@, self@[i].hash),
            decreases hi - lo,
        {
            let mid: usize = lo + (hi - lo) / 2;
            let at_mid = compare_hashes(&self.entries[mid].hash, hash);
            let ghost m = self@[mid as int].hash;
            match at_mid {
                Position::Before => {
                    proof {
                        assert forall|i: int| #![trigger self@[i]] 0 <= i < mid + 1 implies precedes(
                            self@[i].hash,
                            hash@,
                        ) by {
                            if i < mid {
                                assert(precedes(self@[i].hash, self@[mid as int].hash));
                                lemma_precedes_transitive(self@[i].hash, m, hash@);
                            }
                        }
                    }
                    lo = mid + 1;
                },
                Position::Same => {
                    proof {
                        lemma_found_at_slot(self@, hash@, mid as int);
                    }
                    return (mid, true);
                },
                Position::After => {
                    proof {
                        lemma_precedes_total(m, hash@);
                        assert forall|i: int| #![trigger self@[i]] mid <= i < self@.len() implies precedes(
                            hash@,
                            self@[i].hash,
                        ) by {
                            if i > mid {
                                assert(precedes(self@[mid as int].hash, self@[i].hash));
                                lemma_precedes_transitive(hash@, m, self@[i].hash);
                            }
                        }
                    }
                    hi = mid;
                },
            }
        }
        proof {
            if lo < self@.len() {
                lemma_precedes_asymmetric(hash@, self@[lo as int].hash);
                lemma_precedes_irreflexive(hash@);
            }
            lemma_slot_is(self@, hash@, lo as int);
        }
        (lo, false)
    }

    /// The record stored under exactly this hash, if there is one.
    pub fn lookup_exact(&self, hash: &Vec<u8>) -> (found: Option<&HashRecord>)
        requires
            self.wf(),
        ensures
            match found {
                Some(record) => contents(self@).contains_key(hash@) && record@ == contents(
                    self@,
                )[hash@],
                None => !contents(self@).contains_key(hash@),
            },
    {
        let (index, present) = self.locate(hash);
        if present {
            Some(&self.entries[index])
        } else {
            None
        }
    }

    /// Stores `record` under its hash. A record already stored under that
    /// hash is replaced; all other records stay as they are.
    pub fn insert_or_replace(&mut self, record: HashRecord)
        requires
            old(self).wf(),
            fits(old(self)@, record.hash@),
        ensures
            final(self).wf(),
            final(self)@ == put(old(self)@, record@),
            contents(final(self)@) == contents(old(self)@).insert(record.hash@, record@),
    {
        let (index, present) = self.locate(&record.hash);
        proof {
            lemma_slot(self@, record.hash@);
            lemma_put_well_ordered(self@, record@);
            lemma_put_contents(self@, record@);
        }
        if present {
            self.entries.set(index, record);
        } else {
            self.entries.insert(index, record);
        }
        assert(self@ =~= put(old(self)@, record@));
    }

    /// Takes out the record stored under `hash` and returns it. Without
    /// such a record the store stays as it is.
    pub fn remove(&mut self, hash: &Vec<u8>) -> (removed: Option<HashRecord>)
        requires
            old(self).wf(),
        ensures
            final(self).wf(),
            final(self)@ == without(old(self)@, hash@),
            contents(final(self)@) == contents(old(self)@).remove(hash@),
            match removed {
                Some(record) => holds(old(self)@, hash@) && record@ == old(self)@[slot(
                    old(self)@,
                    hash@,
                )],
                None => !holds(old(self)@, hash@),
            },
    {
        let (index, present) = self.locate(hash);
        proof {
            lemma_slot(self@, hash@);
            lemma_without_well_ordered(self@, hash@);
            lemma_without_contents(self@, hash@);
        }
        if present {
            let record = self.entries.remove(index);
            assert(self@ =~= without(old(self)@, hash@));
            Some(record)
        } else {
            None
        }
    }
}

} // verus!
