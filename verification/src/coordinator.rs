//! The coordinator: takes each hashed image through matching, resolution and
//! the store update, and keeps the three running counts.
//!
//! One call of [`Coordinator::process`] is the whole critical section for one
//! image. The caller serialises these calls, deletes the file that an outcome
//! tells it to discard, and shows the event.

use crate::encoding::{hex_encode, hex_text};
use crate::listing::{
    fits, lemma_put_well_ordered, lemma_without_well_ordered, put, well_ordered, without,
};
use crate::matcher::{classification_of, classify, matched_index, Classification, Match};
use crate::policy::{resolution_of, resolve, Resolution, ResolutionView};
use crate::record::{HashRecord, RecordView};
use crate::store::HashStore;
use vstd::prelude::*;

verus! {

/// How many images were classified as what.
#[derive(Clone, Copy, Debug, PartialEq, Eq, Structural)]
pub struct Summary {
    pub duplicate: u64,
    pub similar: u64,
    pub unique: u64,
}

impl Summary {
    /// The number of images counted so far.
    pub open spec fn total(self) -> int {
        self.duplicate + self.similar + self.unique
    }

    /// The summary with one more image of classification `c`.
    pub open spec fn counting(self, c: Classification) -> Summary {
        match c {
            Classification::Duplicate => Summary {
                duplicate: (self.duplicate + 1) as u64,
                ..self
            },
            Classification::Similar => Summary { similar: (self.similar + 1) as u64, ..self },
            Classification::Unique => Summary { unique: (self.unique + 1) as u64, ..self },
        }
    }

    /// All counts at zero.
    pub fn new() -> (summary: Self)
        ensures
            summary == (Summary { duplicate: 0, similar: 0, unique: 0 }),
    {
        Summary { duplicate: 0, similar: 0, unique: 0 }
    }

    /// Counts one image: exactly the counter of its classification goes up
    /// by one.
    pub fn count(&mut self, c: Classification)
        requires
            old(self).total() < u64::MAX,
        ensures
            *final(self) == old(self).counting(c),
            final(self).total() == old(self).total() + 1,
    {
        match c {
            Classification::Duplicate => {
                self.duplicate = self.duplicate + 1;
            },
            Classification::Similar => {
                self.similar = self.similar + 1;
            },
            Classification::Unique => {
                self.unique = self.unique + 1;
            },
        }
    }
}

/// What is reported of one processed image.
#[derive(Debug)]
pub struct Event {
    /// How many images were processed before this one.
    pub index: u64,
    /// The image's hash in lowercase hexadecimal.
    pub hash_hex: String,
    /// The classification, as found before any resolution.
    pub classification: Classification,
    /// The path of the matched record, for a duplicate or similar image.
    pub matched_path: Option<String>,
}

/// The mathematical value of an [`Event`].
pub ghost struct EventView {
    pub index: u64,
    pub hash_hex: Seq<char>,
    pub classification: Classification,
    pub matched_path: Option<Seq<char>>,
}

impl View for Event {
    type V = EventView;

    open spec fn view(&self) -> EventView {
        EventView {
            index: self.index,
            hash_hex: self.hash_hex@,
            classification: self.classification,
            matched_path: match self.matched_path {
                Some(path) => Some(path@),
                None => None,
            },
        }
    }
}

/// The result of processing one image: the event to report, and for a
/// matched image the resolution, which names the file to discard.
#[derive(Debug)]
pub struct Outcome {
    pub event: Event,
    pub resolution: Option<Resolution>,
}

/// The mathematical value of an [`Outcome`].
pub ghost struct OutcomeView {
    pub event: EventView,
    pub resolution: Option<ResolutionView>,
}

impl View for Outcome {
    type V = OutcomeView;

    open spec fn view(&self) -> OutcomeView {
        OutcomeView {
            event: self.event@,
            resolution: match self.resolution {
                Some(r) => Some(r@),
                None => None,
            },
        }
    }
}

impl OutcomeView {
    /// The path of the file that this outcome asks to delete, if any.
    pub open spec fn discard(self) -> Option<Seq<char>> {
        match self.resolution {
            Some(r) => r.discard,
            None => None,
        }
    }
}

/// The mathematical value of a [`Coordinator`]: the store's listing, the
/// counts, and whether matched files are to be deleted.
pub ghost struct CoordinatorView {
    pub entries: Seq<RecordView>,
    pub summary: Summary,
    pub delete_enabled: bool,
}

/// The state in which every run starts: nothing stored, nothing counted.
pub open spec fn initial(delete_enabled: bool) -> CoordinatorView {
    CoordinatorView {
        entries: Seq::empty(),
        summary: Summary { duplicate: 0, similar: 0, unique: 0 },
        delete_enabled,
    }
}

/// A state is valid if its listing is and its counts add up within `u64`.
pub open spec fn valid(c: CoordinatorView) -> bool {
    well_ordered(c.entries) && c.summary.total() <= u64::MAX
}

/// What processing `r` in state `c` reports.
pub open spec fn outcome_of(c: CoordinatorView, r: RecordView) -> OutcomeView {
    OutcomeView {
        event: EventView {
            index: c.summary.total() as u64,
            hash_hex: hex_text(r.hash),
            classification: classification_of(c.entries, r.hash),
            matched_path: match matched_index(c.entries, r.hash) {
                Some(i) => Some(c.entries[i].path),
                None => None,
            },
        },
        resolution: match matched_index(c.entries, r.hash) {
            Some(i) => Some(resolution_of(r, c.entries[i], c.delete_enabled)),
            None => None,
        },
    }
}

/// The listing after `r` was processed against `s`: a unique image is
/// stored; a matched image is stored only where the resolution lets it take
/// the matched record's place.
pub open spec fn entries_after(s: Seq<RecordView>, r: RecordView, delete_enabled: bool) -> Seq<
    RecordView,
> {
    match matched_index(s, r.hash) {
        None => put(s, r),
        Some(i) => if resolution_of(r, s[i], delete_enabled).replace_store_entry {
            put(without(s, s[i].hash), r)
        } else {
            s
        },
    }
}

/// The state after `r` was processed in state `c`.
pub open spec fn advance(c: CoordinatorView, r: RecordView) -> CoordinatorView {
    CoordinatorView {
        entries: entries_after(c.entries, r, c.delete_enabled),
        summary: c.summary.counting(classification_of(c.entries, r.hash)),
        delete_enabled: c.delete_enabled,
    }
}

/// The state after a whole batch was processed in order, from the start.
pub open spec fn state_after(batch: Seq<RecordView>, delete_enabled: bool) -> CoordinatorView
    decreases batch.len(),
{
    if batch.len() == 0 {
        initial(delete_enabled)
    } else {
        advance(state_after(batch.drop_last(), delete_enabled), batch.last())
    }
}

/// All hashes of the batch have one length.
pub open spec fn one_length(batch: Seq<RecordView>) -> bool {
    forall|i: int, j: int|
        #![trigger batch[i], batch[j]]
        0 <= i < batch.len() && 0 <= j < batch.len() ==> batch[i].hash.len()
            == batch[j].hash.len()
}

/// Processing one image keeps the state valid, keeps the hash length, and
/// raises the total count by exactly one.
pub proof fn lemma_advance(c: CoordinatorView, r: RecordView)
    requires
        valid(c),
        c.summary.total() < u64::MAX,
        fits(c.entries, r.hash),
    ensures
        valid(advance(c, r)),
        fits(advance(c, r).entries, r.hash),
        advance(c, r).summary.total() == c.summary.total() + 1,
        advance(c, r).delete_enabled == c.delete_enabled,
{
    match matched_index(c.entries, r.hash) {
        None => {
            lemma_put_well_ordered(c.entries, r);
        },
        Some(i) => {
            let rest = without(c.entries, c.entries[i].hash);
            lemma_without_well_ordered(c.entries, c.entries[i].hash);
            lemma_put_well_ordered(rest, r);
        },
    }
}

/// The views of a batch of records.
pub open spec fn views(batch: Seq<HashRecord>) -> Seq<RecordView> {
    batch.map_values(|r: HashRecord| r@)
}

/// What a whole run gives back.
#[derive(Debug)]
pub struct Report {
    /// One outcome per image, in processing order.
    pub outcomes: Vec<Outcome>,
    /// The final counts.
    pub summary: Summary,
    /// The store as the run leaves it.
    pub store: HashStore,
}

/// The engine's state between images.
#[derive(Debug)]
pub struct Coordinator {
    store: HashStore,
    summary: Summary,
    delete_enabled: bool,
}

impl View for Coordinator {
    type V = CoordinatorView;

    closed spec fn view(&self) -> CoordinatorView {
        CoordinatorView {
            entries: self.store@,
            summary: self.summary,
            delete_enabled: self.delete_enabled,
        }
    }
}

impl Coordinator {
    /// Every coordinator built through this interface is valid.
    pub open spec fn wf(&self) -> bool {
        valid(self@)
    }

    /// A coordinator with an empty store and all counts at zero.
    pub fn new(delete_enabled: bool) -> (coordinator: Self)
        ensures
            coordinator.wf(),
            coordinator@ == initial(delete_enabled),
    {
        Coordinator { store: HashStore::new(), summary: Summary::new(), delete_enabled }
    }

    /// The counts so far.
    pub fn summary(&self) -> (summary: Summary)
        ensures
            summary == self@.summary,
    {
        self.summary
    }

    /// Whether matched files are to be deleted.
    pub fn delete_enabled(&self) -> (enabled: bool)
        ensures
            enabled == self@.delete_enabled,
    {
        self.delete_enabled
    }

    /// The store as it stands.
    pub fn store(&self) -> (store: &HashStore)
        ensures
            store@ == self@.entries,
    {
        &self.store
    }

    /// Whether an image with this hash can be processed now: its hash has
    /// the length of the stored hashes, and the counts have room for it.
    pub fn admits(&self, hash: &Vec<u8>) -> (ok: bool)
        requires
            self.wf(),
        ensures
            ok == (fits(self@.entries, hash@) && self@.summary.total() < u64::MAX),
    {
        let counted: u64 = self.summary.duplicate + self.summary.similar + self.summary.unique;
        self.store.accepts(hash) && counted < u64::MAX
    }

    /// Matches the candidate and builds its outcome, leaving everything as
    /// it is.
    fn examine(&self, candidate: &HashRecord) -> (found: (Outcome, Match))
        requires
            self.wf(),
            fits(self@.entries, candidate.hash@),
        ensures
            found.0@ == outcome_of(self@, candidate@),
            match found.1.index {
                Some(i) => i < self@.entries.len() && matched_index(
                    self@.entries,
                    candidate.hash@,
                ) == Some(i as int),
                None => matched_index(self@.entries, candidate.hash@) is None,
            },
    {
        let m = classify(&self.store, &candidate.hash);
        let index: u64 = self.summary.duplicate + self.summary.similar + self.summary.unique;
        let hash_hex = hex_encode(&candidate.hash);
        let outcome = match m.index {
            Some(i) => {
                let matched = self.store.entry(i);
                Outcome {
                    event: Event {
                        index,
                        hash_hex,
                        classification: m.classification,
                        matched_path: Some(matched.path.clone()),
                    },
                    resolution: Some(resolve(candidate, matched, self.delete_enabled)),
                }
            },
            None => Outcome {
                event: Event {
                    index,
                    hash_hex,
                    classification: m.classification,
                    matched_path: None,
                },
                resolution: None,
            },
        };
        (outcome, m)
    }

    /// Tells what processing `candidate` would report, without changing the
    /// store or the counts.
    pub fn assess(&self, candidate: &HashRecord) -> (outcome: Outcome)
        requires
            self.wf(),
            fits(self@.entries, candidate.hash@),
        ensures
            outcome@ == outcome_of(self@, candidate@),
    {
        let (outcome, _) = self.examine(candidate);
        outcome
    }

    /// Processes one image: classifies it against the store, counts it by
    /// that classification, resolves a match, and updates the store.
    ///
    /// The outcome names the file to discard, if any; deleting it is the
    /// caller's part.
    pub fn process(&mut self, candidate: HashRecord) -> (outcome: Outcome)
        requires
            old(self).wf(),
            fits(old(self)@.entries, candidate.hash@),
            old(self)@.summary.total() < u64::MAX,
        ensures
            final(self).wf(),
            final(self)@ == advance(old(self)@, candidate@),
            outcome@ == outcome_of(old(self)@, candidate@),
    {
        proof {
            lemma_advance(self@, candidate@);
        }
        let (outcome, m) = self.examine(&candidate);
        self.summary.count(outcome.event.classification);
        match m.index {
            None => {
                self.store.insert_or_replace(candidate);
            },
            Some(i) => {
                let replace = match &outcome.resolution {
                    Some(r) => r.replace_store_entry,
                    None => false,
                };
                if replace {
                    let superseded = self.store.entry(i).hash.clone();
                    assert(superseded@ =~= old(self)@.entries[i as int].hash);
                    proof {
                        lemma_without_well_ordered(self.store@, superseded@);
                    }
                    self.store.remove(&superseded);
                    self.store.insert_or_replace(candidate);
                }
            },
        }
        outcome
    }
}

/// Runs a whole batch, in order, through a fresh coordinator.
///
/// Every outcome is what processing that image reports in the state that
/// the images before it have left; the summary and the store are those of
/// the state after the last image.
pub fn run(batch: &Vec<HashRecord>, delete_enabled: bool) -> (report: Report)
    requires
        one_length(views(batch@)),
    ensures
        report.store.wf(),
        report.store@ == state_after(views(batch@), delete_enabled).entries,
        report.summary == state_after(views(batch@), delete_enabled).summary,
        report.summary.total() == batch@.len(),
        report.outcomes@.len() == batch@.len(),
        forall|k: int|
            #![trigger report.outcomes@[k]]
            0 <= k < batch@.len() ==> report.outcomes@[k]@ == outcome_of(
                state_after(views(batch@).take(k), delete_enabled),
                views(batch@)[k],
            ),
{
    let ghost all = views(batch@);
    let mut coordinator = Coordinator::new(delete_enabled);
    let mut outcomes: Vec<Outcome> = Vec::new();
    let mut k: usize = 0;
    assert(all.take(0) =~= Seq::<RecordView>::empty());
    while k < batch.len()
        invariant
            0 <= k <= batch@.len(),
            all == views(batch@),
            one_length(all),
            coordinator.wf(),
            coordinator@ == state_after(all.take(k as int), delete_enabled),
            coordinator@.summary.total() == k,
            forall|j: int| #![trigger all[j]] 0 <= j < all.len() ==> fits(coordinator@.entries, all[j].hash),
            outcomes@.len() == k,
            forall|j: int|
                #![trigger outcomes@[j]]
                0 <= j < k ==> outcomes@[j]@ == outcome_of(
                    state_after(all.take(j), delete_enabled),
                    all[j],
                ),
        decreases batch@.len() - k,
    {
        let candidate = batch[k].clone();
        proof {
            assert(candidate@ == all[k as int]);
            lemma_advance(coordinator@, candidate@);
            assert(all.take(k + 1).drop_last() =~= all.take(k as int));
            let next = advance(coordinator@, candidate@);
            assert forall|j: int| #![trigger all[j]] 0 <= j < all.len() implies fits(
                next.entries,
                all[j].hash,
            ) by {
                assert(all[j].hash.len() == all[k as int].hash.len());
            }
        }
        let outcome = coordinator.process(candidate);
        outcomes.push(outcome);
        k = k + 1;
    }
    assert(all.take(k as int) =~= all);
    let Coordinator { store, summary, delete_enabled: _ } = coordinator;
    Report { outcomes, summary, store }
}

} // verus!
