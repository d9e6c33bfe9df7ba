use nucleo_join::engine::{derive_text, scored_match, text_for_store};
use nucleo_join::{
    nucleo_dart_add, nucleo_dart_add_all, nucleo_dart_capture, nucleo_dart_destroy,
    nucleo_dart_get_snapshot, NucleoDartMatch, NucleoDartString,
    nucleo_dart_join_snapshot, nucleo_dart_new, nucleo_dart_reparse,
    nucleo_dart_snapshot_get_item, nucleo_dart_snapshot_get_item_count,
    nucleo_dart_snapshot_get_matched_item, nucleo_dart_snapshot_get_matched_item_count,
    nucleo_dart_snapshot_get_matched_items, nucleo_dart_tick, IsAppend, NucleoDartStringMut,
    NucleoHandle, SnapshotHandle,
};

fn candidate(index: u32, text: &str) -> NucleoDartStringMut {
    NucleoDartStringMut { index, bytes: text.as_bytes().to_vec() }
}

fn pool() -> Vec<NucleoDartStringMut> {
    vec![
        candidate(1, "abacus"),
        candidate(2, "abc"),
        candidate(3, "cabin"),
        candidate(4, "xyz"),
        candidate(5, "a big cat"),
    ]
}

fn drive(handle: &mut NucleoHandle) -> SnapshotHandle {
    let mut idle = 0;
    for _ in 0..200 {
        let status = nucleo_dart_tick(handle, 2000);
        if status.changed || status.running {
            idle = 0;
        } else {
            idle += 1;
        }
        if idle >= 2 {
            break;
        }
    }
    assert!(idle >= 2);
    nucleo_dart_get_snapshot(handle)
}

fn matched_identities(s: &SnapshotHandle) -> Vec<u32> {
    let count = nucleo_dart_snapshot_get_matched_item_count(s);
    let mut ids: Vec<u32> = nucleo_dart_snapshot_get_matched_items(s, 0, count)
        .unwrap()
        .iter()
        .map(|m| m.index)
        .collect();
    ids.sort();
    ids
}

#[test]
fn a_fresh_engine_has_an_empty_snapshot() {
    let handle = nucleo_dart_new(|| {});
    let s = nucleo_dart_get_snapshot(&handle);
    assert_eq!(nucleo_dart_snapshot_get_item_count(&s), 0);
    assert_eq!(nucleo_dart_snapshot_get_matched_item_count(&s), 0);
    nucleo_dart_destroy(handle);
}

#[test]
fn pushed_items_are_all_there_after_driving() {
    let mut handle = nucleo_dart_new(|| {});
    for item in pool() {
        assert!(nucleo_dart_add(&handle, item));
    }
    let s = drive(&mut handle);
    assert_eq!(nucleo_dart_snapshot_get_item_count(&s), 5);
    assert_eq!(nucleo_dart_snapshot_get_matched_item_count(&s), 5);
    let second = nucleo_dart_snapshot_get_item(&s, 1).unwrap();
    assert_eq!(second.index, 2);
    assert_eq!(second.bytes, b"abc".to_vec());
}

#[test]
fn an_item_with_invalid_text_is_stored_and_never_matches_a_pattern() {
    let mut handle = nucleo_dart_new(|| {});
    assert!(nucleo_dart_add(&handle, candidate(1, "abc")));
    assert!(!nucleo_dart_add(&handle, NucleoDartStringMut { index: 2, bytes: vec![0x61, 0xff, 0xfe] }));
    nucleo_dart_reparse(&mut handle, "a", IsAppend::IsAppendNo);
    let s = drive(&mut handle);
    assert_eq!(nucleo_dart_snapshot_get_item_count(&s), 2);
    assert_eq!(matched_identities(&s), vec![1]);
    let kept = nucleo_dart_snapshot_get_item(&s, 1).unwrap();
    assert_eq!(kept.index, 2);
    assert_eq!(kept.bytes, vec![0x61, 0xff, 0xfe]);
}

#[test]
fn add_all_counts_the_searchable_items() {
    let mut handle = nucleo_dart_new(|| {});
    let items = vec![
        candidate(1, "one"),
        NucleoDartStringMut { index: 2, bytes: vec![0xc0] },
        candidate(3, "three"),
    ];
    assert_eq!(nucleo_dart_add_all(&handle, &items), 2);
    let s = drive(&mut handle);
    assert_eq!(nucleo_dart_snapshot_get_item_count(&s), 3);
    assert_eq!(nucleo_dart_snapshot_get_item(&s, 0).unwrap().bytes, b"one".to_vec());
    assert_eq!(nucleo_dart_snapshot_get_item(&s, 2).unwrap().index, 3);
}

#[test]
fn a_pattern_selects_and_ranks_the_matching_items() {
    let mut handle = nucleo_dart_new(|| {});
    nucleo_dart_add_all(&handle, &pool());
    nucleo_dart_reparse(&mut handle, "ABC", IsAppend::IsAppendNo);
    let s = drive(&mut handle);
    assert_eq!(nucleo_dart_snapshot_get_item_count(&s), 5);
    assert_eq!(matched_identities(&s), vec![1, 2, 5]);
    let best = nucleo_dart_snapshot_get_matched_item(&s, 0).unwrap();
    assert_eq!(best.index, 2);
    assert_eq!(best.bytes, b"abc".to_vec());
    assert!(best.score > 0);
    let count = nucleo_dart_snapshot_get_matched_item_count(&s);
    let all = nucleo_dart_snapshot_get_matched_items(&s, 0, count).unwrap();
    for pair in all.windows(2) {
        assert!(pair[0].score >= pair[1].score);
    }
}

#[test]
fn appending_to_the_pattern_gives_the_same_matches_as_parsing_it_whole() {
    let mut stepwise = nucleo_dart_new(|| {});
    nucleo_dart_add_all(&stepwise, &pool());
    nucleo_dart_reparse(&mut stepwise, "ab", IsAppend::IsAppendNo);
    let wide = drive(&mut stepwise);
    assert_eq!(matched_identities(&wide), vec![1, 2, 3, 5]);
    nucleo_dart_reparse(&mut stepwise, "abc", IsAppend::IsAppendYes);
    let narrowed = drive(&mut stepwise);

    let mut direct = nucleo_dart_new(|| {});
    nucleo_dart_add_all(&direct, &pool());
    nucleo_dart_reparse(&mut direct, "abc", IsAppend::IsAppendNo);
    let whole = drive(&mut direct);

    assert_eq!(matched_identities(&narrowed), matched_identities(&whole));
    assert_eq!(matched_identities(&whole), vec![1, 2, 5]);
}

#[test]
fn driving_an_idle_engine_changes_nothing() {
    let mut handle = nucleo_dart_new(|| {});
    nucleo_dart_add_all(&handle, &pool());
    nucleo_dart_reparse(&mut handle, "ab", IsAppend::IsAppendNo);
    let before = drive(&mut handle);
    let after = drive(&mut handle);
    assert_eq!(nucleo_dart_snapshot_get_item_count(&before), nucleo_dart_snapshot_get_item_count(&after));
    let count = nucleo_dart_snapshot_get_matched_item_count(&before);
    assert_eq!(count, nucleo_dart_snapshot_get_matched_item_count(&after));
    assert_eq!(
        nucleo_dart_snapshot_get_matched_items(&before, 0, count),
        nucleo_dart_snapshot_get_matched_items(&after, 0, count)
    );
    assert_eq!(before, after);
}

#[test]
fn snapshots_of_two_engines_join_by_identity() {
    let mut left = nucleo_dart_new(|| {});
    nucleo_dart_add_all(&left, &vec![candidate(1, "abc"), candidate(2, "a b c d")]);
    nucleo_dart_reparse(&mut left, "abc", IsAppend::IsAppendNo);
    let a = drive(&mut left);
    let mut right = nucleo_dart_new(|| {});
    nucleo_dart_add_all(&right, &vec![candidate(2, "abc"), candidate(3, "zabc"), candidate(4, "q")]);
    nucleo_dart_reparse(&mut right, "abc", IsAppend::IsAppendNo);
    let b = drive(&mut right);
    assert_eq!(matched_identities(&a), vec![1, 2]);
    assert_eq!(matched_identities(&b), vec![2, 3]);
    let joined = nucleo_dart_join_snapshot(&a, &b).unwrap();
    assert_eq!(joined.matches.len(), 3);
}

#[test]
fn the_callback_is_called_when_items_arrive() {
    let hits = std::sync::Arc::new(std::sync::atomic::AtomicUsize::new(0));
    let counter = hits.clone();
    let handle = nucleo_dart_new(move || {
        counter.fetch_add(1, std::sync::atomic::Ordering::SeqCst);
    });
    nucleo_dart_add(&handle, candidate(1, "abc"));
    assert!(hits.load(std::sync::atomic::Ordering::SeqCst) >= 1);
}

#[test]
fn derive_text_decodes_valid_payloads_only() {
    assert_eq!(derive_text(&b"hello".to_vec()), Some(String::from("hello")));
    assert_eq!(derive_text(&vec![0xe2, 0x82, 0xac]), Some(String::from("\u{20ac}")));
    assert_eq!(derive_text(&vec![]), Some(String::new()));
    assert_eq!(derive_text(&vec![0xff]), None);
    assert_eq!(derive_text(&vec![0xe2, 0x82]), None);
}

#[test]
fn a_capture_of_a_settled_engine_passes_nothing_over() {
    let mut handle = nucleo_dart_new(|| {});
    nucleo_dart_add_all(&handle, &pool());
    nucleo_dart_reparse(&mut handle, "ab", IsAppend::IsAppendNo);
    let settled = drive(&mut handle);
    let taken = nucleo_dart_capture(&handle);
    assert_eq!(taken.items_passed_over, 0);
    assert_eq!(taken.matches_passed_over, 0);
    assert_eq!(nucleo_dart_snapshot_get_item_count(&taken.snapshot), 5);
    assert_eq!(nucleo_dart_snapshot_get_matched_item_count(&taken.snapshot), 4);
    assert_eq!(taken.snapshot, settled);
    for index in 0..5 {
        let item = nucleo_dart_snapshot_get_item(&taken.snapshot, index).unwrap();
        assert_eq!(item.index, index + 1);
    }
}

#[test]
fn reparse_alone_leaves_the_snapshot_as_it_is() {
    let mut handle = nucleo_dart_new(|| {});
    nucleo_dart_add_all(&handle, &pool());
    let before = drive(&mut handle);
    nucleo_dart_reparse(&mut handle, "xyz", IsAppend::IsAppendNo);
    let after = nucleo_dart_get_snapshot(&handle);
    assert_eq!(nucleo_dart_snapshot_get_item_count(&before), nucleo_dart_snapshot_get_item_count(&after));
    assert_eq!(
        nucleo_dart_snapshot_get_matched_item_count(&before),
        nucleo_dart_snapshot_get_matched_item_count(&after)
    );
}

#[test]
fn text_for_store_is_the_decoded_payload_or_empty() {
    assert_eq!(text_for_store(&b"abc".to_vec()), String::from("abc"));
    assert_eq!(text_for_store(&vec![0xff, 0x61]), String::new());
    assert_eq!(text_for_store(&vec![]), String::new());
}

#[test]
fn scored_match_needs_item_and_score() {
    let item = NucleoDartString { index: 3, bytes: b"abc".to_vec() };
    assert_eq!(
        scored_match(Some(item.clone()), Some(12)),
        Some(NucleoDartMatch { score: 12, index: 3, bytes: b"abc".to_vec() })
    );
    assert_eq!(scored_match(Some(item), None), None);
    assert_eq!(scored_match(None, Some(12)), None);
    assert_eq!(scored_match(None, None), None);
}

#[test]
fn a_drive_that_reports_no_change_leaves_the_counts() {
    let mut handle = nucleo_dart_new(|| {});
    nucleo_dart_add_all(&handle, &pool());
    nucleo_dart_reparse(&mut handle, "ab", IsAppend::IsAppendNo);
    let before = drive(&mut handle);
    for _ in 0..5 {
        let status = nucleo_dart_tick(&mut handle, 100);
        assert!(!status.changed);
        assert!(!status.running);
        let after = nucleo_dart_get_snapshot(&handle);
        assert_eq!(nucleo_dart_snapshot_get_item_count(&after), 5);
        assert_eq!(nucleo_dart_snapshot_get_matched_item_count(&after), 4);
        assert_eq!(after, before);
    }
}

#[test]
fn the_first_drive_after_a_push_reports_work() {
    let mut handle = nucleo_dart_new(|| {});
    nucleo_dart_add(&handle, candidate(1, "abc"));
    let status = nucleo_dart_tick(&mut handle, 2000);
    assert!(status.running || status.changed);
}

#[test]
fn an_invalid_item_matches_the_empty_pattern_only() {
    let mut handle = nucleo_dart_new(|| {});
    nucleo_dart_add(&handle, NucleoDartStringMut { index: 9, bytes: vec![0xff, 0xfe] });
    nucleo_dart_add(&handle, candidate(1, "abc"));
    let all = drive(&mut handle);
    assert_eq!(matched_identities(&all), vec![1, 9]);
    nucleo_dart_reparse(&mut handle, "b", IsAppend::IsAppendNo);
    let some = drive(&mut handle);
    assert_eq!(nucleo_dart_snapshot_get_item_count(&some), 2);
    assert_eq!(matched_identities(&some), vec![1]);
}
