use image_dedup::coordinator::{run, Coordinator, Outcome, Summary};
use image_dedup::matcher::Classification;
use image_dedup::record::{HashRecord, Timestamp};

fn file(path: &str, hash: Vec<u8>, size_bytes: u64, nanos: i128) -> HashRecord {
    HashRecord::new(path.to_string(), hash, size_bytes, Timestamp { nanos })
}

fn discarded(outcomes: &[Outcome]) -> Vec<String> {
    let mut out = Vec::new();
    for o in outcomes {
        if let Some(r) = &o.resolution {
            if let Some(p) = &r.discard {
                out.push(p.clone());
            }
        }
    }
    out
}

fn survivors(batch: &[HashRecord], outcomes: &[Outcome]) -> Vec<String> {
    let gone = discarded(outcomes);
    batch.iter().map(|r| r.path.clone()).filter(|p| !gone.contains(p)).collect()
}

const H: [u8; 8] = [0x12, 0x34, 0x56, 0x78, 0x9a, 0xbc, 0xde, 0xf0];

fn h() -> Vec<u8> {
    H.to_vec()
}

fn h_with_bits_flipped(bits: u8) -> Vec<u8> {
    let mut v = H.to_vec();
    v[7] ^= bits;
    v
}

#[test]
fn new_coordinator_has_counted_nothing() {
    let c = Coordinator::new(true);
    assert_eq!(c.summary(), Summary { duplicate: 0, similar: 0, unique: 0 });
    assert!(c.delete_enabled());
    assert!(c.store().is_empty());
    assert!(!Coordinator::new(false).delete_enabled());
    assert_eq!(Summary::new(), Summary { duplicate: 0, similar: 0, unique: 0 });
}

#[test]
fn summary_counts_one_at_a_time() {
    let mut s = Summary::new();
    s.count(Classification::Unique);
    s.count(Classification::Similar);
    s.count(Classification::Similar);
    s.count(Classification::Duplicate);
    assert_eq!(s, Summary { duplicate: 1, similar: 2, unique: 1 });
}

#[test]
fn empty_run_reports_zero_counts() {
    for delete in [false, true] {
        let report = run(&Vec::new(), delete);
        assert_eq!(report.summary, Summary { duplicate: 0, similar: 0, unique: 0 });
        assert!(report.outcomes.is_empty());
        assert!(report.store.is_empty());
    }
}

#[test]
fn equal_hash_second_image_is_duplicate_of_the_first() {
    for delete in [false, true] {
        let batch = vec![file("A", h(), 10, 1), file("B", h(), 10, 2)];
        let report = run(&batch, delete);
        assert_eq!(report.outcomes[0].event.classification, Classification::Unique);
        assert_eq!(report.outcomes[0].event.matched_path, None);
        assert_eq!(report.outcomes[1].event.classification, Classification::Duplicate);
        assert_eq!(report.outcomes[1].event.matched_path, Some("A".to_string()));
        assert_eq!(report.summary, Summary { duplicate: 1, similar: 0, unique: 1 });
    }
}

#[test]
fn near_hash_second_image_is_similar_never_duplicate() {
    for delete in [false, true] {
        let batch = vec![file("A", h(), 10, 1), file("B", h_with_bits_flipped(0b0001_1111), 10, 2)];
        let report = run(&batch, delete);
        assert_eq!(report.outcomes[1].event.classification, Classification::Similar);
        assert_eq!(report.outcomes[1].event.matched_path, Some("A".to_string()));
        assert_eq!(report.summary, Summary { duplicate: 0, similar: 1, unique: 1 });
    }
}

#[test]
fn far_hashes_are_unique_in_either_order() {
    let a = file("A", h(), 10, 1);
    let b = file("B", h_with_bits_flipped(0b0011_1111), 10, 2);
    let forward = run(&vec![a.clone(), b.clone()], true);
    let backward = run(&vec![b, a], true);
    for report in [forward, backward] {
        assert_eq!(report.outcomes[0].event.classification, Classification::Unique);
        assert_eq!(report.outcomes[1].event.classification, Classification::Unique);
        assert!(report.outcomes[1].resolution.is_none());
        assert_eq!(report.summary, Summary { duplicate: 0, similar: 0, unique: 2 });
        assert_eq!(report.store.len(), 2);
    }
}

#[test]
fn delete_keeps_only_the_larger_of_a_duplicate_pair() {
    let small_first = vec![file("small", h(), 100, 1), file("large", h(), 200, 2)];
    let report = run(&small_first, true);
    assert_eq!(discarded(&report.outcomes), vec!["small"]);
    assert_eq!(survivors(&small_first, &report.outcomes), vec!["large"]);
    assert_eq!(report.store.len(), 1);
    assert_eq!(report.store.entry(0).path, "large");
    assert_eq!(report.store.entry(0).size_bytes, 200);

    let large_first = vec![file("large", h(), 200, 1), file("small", h(), 100, 2)];
    let report = run(&large_first, true);
    assert_eq!(discarded(&report.outcomes), vec!["small"]);
    assert_eq!(survivors(&large_first, &report.outcomes), vec!["large"]);
    assert_eq!(report.store.len(), 1);
    assert_eq!(report.store.entry(0).path, "large");
}

#[test]
fn delete_breaks_a_size_tie_by_keeping_the_older_file() {
    let older_first = vec![file("older", h(), 100, 10), file("newer", h(), 100, 20)];
    let report = run(&older_first, true);
    assert_eq!(discarded(&report.outcomes), vec!["newer"]);
    assert_eq!(survivors(&older_first, &report.outcomes), vec!["older"]);
    assert_eq!(report.store.entry(0).path, "older");

    let newer_first = vec![file("newer", h(), 100, 20), file("older", h(), 100, 10)];
    let report = run(&newer_first, true);
    assert_eq!(discarded(&report.outcomes), vec!["newer"]);
    assert_eq!(survivors(&newer_first, &report.outcomes), vec!["older"]);
    assert_eq!(report.store.len(), 1);
    assert_eq!(report.store.entry(0).path, "older");
}

#[test]
fn scenario_x_y_z_with_delete() {
    let batch = vec![
        file("X", h(), 1000, 1),
        file("Y", h(), 2000, 2),
        file("Z", h_with_bits_flipped(0b0000_0111), 500, 3),
    ];
    let report = run(&batch, true);

    let x = &report.outcomes[0];
    assert_eq!(x.event.index, 0);
    assert_eq!(x.event.classification, Classification::Unique);
    assert_eq!(x.event.matched_path, None);
    assert!(x.resolution.is_none());

    let y = &report.outcomes[1];
    assert_eq!(y.event.index, 1);
    assert_eq!(y.event.classification, Classification::Duplicate);
    assert_eq!(y.event.matched_path, Some("X".to_string()));
    let y_resolution = y.resolution.as_ref().unwrap();
    assert_eq!(y_resolution.keep, "Y");
    assert_eq!(y_resolution.discard, Some("X".to_string()));
    assert!(y_resolution.replace_store_entry);

    let z = &report.outcomes[2];
    assert_eq!(z.event.index, 2);
    assert_eq!(z.event.classification, Classification::Similar);
    assert_eq!(z.event.matched_path, Some("Y".to_string()));
    let z_resolution = z.resolution.as_ref().unwrap();
    assert_eq!(z_resolution.keep, "Y");
    assert_eq!(z_resolution.discard, Some("Z".to_string()));
    assert!(!z_resolution.replace_store_entry);

    assert_eq!(survivors(&batch, &report.outcomes), vec!["Y"]);
    assert_eq!(report.summary, Summary { duplicate: 1, similar: 1, unique: 1 });
    assert_eq!(report.store.len(), 1);
    assert_eq!(report.store.entry(0).path, "Y");
    assert_eq!(report.store.entry(0).hash, h());
}

#[test]
fn rerun_over_the_survivors_changes_nothing() {
    let batch = vec![
        file("a", h(), 1000, 1),
        file("b", h(), 2000, 2),
        file("c", h_with_bits_flipped(0b0000_0011), 500, 3),
        file("d", vec![0xff; 8], 10, 4),
        file("e", vec![0xff; 8], 10, 5),
        file("f", vec![0x00; 8], 10, 6),
    ];
    let first = run(&batch, true);
    let left: Vec<HashRecord> = batch
        .iter()
        .filter(|r| survivors(&batch, &first.outcomes).contains(&r.path))
        .cloned()
        .collect();
    assert_eq!(left.len(), 3);
    let second = run(&left, true);
    assert_eq!(second.summary, Summary { duplicate: 0, similar: 0, unique: 3 });
    assert!(discarded(&second.outcomes).is_empty());
    assert_eq!(survivors(&left, &second.outcomes).len(), 3);
    for o in &second.outcomes {
        assert_eq!(o.event.classification, Classification::Unique);
    }
}

#[test]
fn similar_candidate_that_wins_takes_the_place_of_its_match() {
    let batch = vec![
        file("small", h(), 100, 1),
        file("large", h_with_bits_flipped(0b0000_0001), 900, 2),
    ];
    let report = run(&batch, true);
    assert_eq!(report.outcomes[1].event.classification, Classification::Similar);
    assert_eq!(discarded(&report.outcomes), vec!["small"]);
    assert_eq!(report.store.len(), 1);
    assert_eq!(report.store.entry(0).path, "large");
    assert_eq!(report.store.entry(0).hash, h_with_bits_flipped(0b0000_0001));
    assert!(report.store.lookup_exact(&h()).is_none());
}

#[test]
fn without_delete_matched_images_are_not_stored() {
    let batch = vec![
        file("first", h(), 100, 1),
        file("near", h_with_bits_flipped(0b0000_0001), 900, 2),
        file("same-as-near", h_with_bits_flipped(0b0000_0001), 900, 3),
        file("twin", h(), 5000, 4),
    ];
    let report = run(&batch, false);
    assert_eq!(report.outcomes[1].event.classification, Classification::Similar);
    // "near" was not stored, so its twin matches "first" by similarity only
    assert_eq!(report.outcomes[2].event.classification, Classification::Similar);
    assert_eq!(report.outcomes[2].event.matched_path, Some("first".to_string()));
    assert_eq!(report.outcomes[3].event.classification, Classification::Duplicate);
    assert!(discarded(&report.outcomes).is_empty());
    assert_eq!(report.summary, Summary { duplicate: 1, similar: 2, unique: 1 });
    assert_eq!(report.store.len(), 1);
    assert_eq!(report.store.entry(0).path, "first");
    assert_eq!(report.store.entry(0).size_bytes, 100);
    let resolution = report.outcomes[3].resolution.as_ref().unwrap();
    assert_eq!(resolution.keep, "first");
    assert!(!resolution.replace_store_entry);
}

#[test]
fn event_carries_the_hash_in_lowercase_hex() {
    let mut c = Coordinator::new(false);
    let outcome = c.process(file("p", vec![1, 2, 3, 15, 16, 0xab, 0xff, 0x00], 1, 1));
    assert_eq!(outcome.event.hash_hex, "0102030f10abff00");
    let outcome = c.assess(&file("q", h(), 1, 1));
    assert_eq!(outcome.event.hash_hex, "123456789abcdef0");
}

#[test]
fn assess_reports_what_process_will_and_changes_nothing() {
    let mut c = Coordinator::new(true);
    c.process(file("X", h(), 1000, 1));
    let candidate = file("Y", h(), 2000, 2);
    let preview = c.assess(&candidate);
    assert_eq!(c.summary(), Summary { duplicate: 0, similar: 0, unique: 1 });
    assert_eq!(c.store().entry(0).path, "X");
    let done = c.process(candidate);
    assert_eq!(preview.event.index, done.event.index);
    assert_eq!(preview.event.hash_hex, done.event.hash_hex);
    assert_eq!(preview.event.classification, done.event.classification);
    assert_eq!(preview.event.matched_path, done.event.matched_path);
    let (p, d) = (preview.resolution.unwrap(), done.resolution.unwrap());
    assert_eq!(p.keep, d.keep);
    assert_eq!(p.discard, d.discard);
    assert_eq!(p.replace_store_entry, d.replace_store_entry);
    assert_eq!(c.summary(), Summary { duplicate: 1, similar: 0, unique: 1 });
    assert_eq!(c.store().entry(0).path, "Y");
}

#[test]
fn exactly_one_counter_goes_up_per_image() {
    let mut c = Coordinator::new(true);
    let images = vec![
        file("a", h(), 1, 1),
        file("b", h(), 2, 2),
        file("c", h_with_bits_flipped(1), 3, 3),
        file("d", vec![0; 8], 4, 4),
        file("e", vec![0; 8], 4, 4),
    ];
    let mut before = c.summary();
    for (i, img) in images.into_iter().enumerate() {
        let outcome = c.process(img);
        let after = c.summary();
        assert_eq!(outcome.event.index, i as u64);
        let total_before = before.duplicate + before.similar + before.unique;
        let total_after = after.duplicate + after.similar + after.unique;
        assert_eq!(total_after, total_before + 1);
        match outcome.event.classification {
            Classification::Duplicate => assert_eq!(after.duplicate, before.duplicate + 1),
            Classification::Similar => assert_eq!(after.similar, before.similar + 1),
            Classification::Unique => assert_eq!(after.unique, before.unique + 1),
        }
        before = after;
    }
    assert_eq!(before, Summary { duplicate: 2, similar: 1, unique: 2 });
}

#[test]
fn admits_checks_the_hash_length() {
    let mut c = Coordinator::new(false);
    assert!(c.admits(&vec![1, 2, 3]));
    c.process(file("a", vec![1, 2, 3], 1, 1));
    assert!(c.admits(&vec![9, 9, 9]));
    assert!(!c.admits(&vec![9, 9]));
    assert!(!c.admits(&vec![9, 9, 9, 9]));
}
