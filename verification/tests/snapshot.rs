use nucleo_join::snapshot::{assemble, find_item, same_bytes};
use nucleo_join::types::copy_bytes;
use nucleo_join::{
    nucleo_dart_snapshot_get_item, nucleo_dart_snapshot_get_item_count,
    nucleo_dart_snapshot_get_matched_item, nucleo_dart_snapshot_get_matched_item_count,
    nucleo_dart_snapshot_get_matched_items, IndexOutOfRange, IsAppend, NucleoDartMMatch,
    NucleoDartMatch, NucleoDartString, SnapshotHandle,
};

fn stored(index: u32, text: &str) -> NucleoDartString {
    NucleoDartString { index, bytes: text.as_bytes().to_vec() }
}

fn found(score: u32, index: u32, text: &str) -> NucleoDartMatch {
    NucleoDartMatch { score, index, bytes: text.as_bytes().to_vec() }
}

fn sample() -> SnapshotHandle {
    SnapshotHandle::new(
        vec![stored(11, "alpha"), stored(12, "beta"), stored(13, "gamma")],
        vec![NucleoDartMMatch { score: 40, idx: 2 }, NucleoDartMMatch { score: 20, idx: 0 }],
    )
    .unwrap()
}

#[test]
fn counts_are_those_of_the_parts() {
    let s = sample();
    assert_eq!(nucleo_dart_snapshot_get_item_count(&s), 3);
    assert_eq!(nucleo_dart_snapshot_get_matched_item_count(&s), 2);
    assert!(nucleo_dart_snapshot_get_matched_item_count(&s) <= nucleo_dart_snapshot_get_item_count(&s));
}

#[test]
fn every_matched_item_is_a_stored_item() {
    let s = sample();
    let count = nucleo_dart_snapshot_get_matched_item_count(&s);
    for rank in 0..count {
        let m = nucleo_dart_snapshot_get_matched_item(&s, rank).unwrap();
        let mut seen = false;
        for index in 0..nucleo_dart_snapshot_get_item_count(&s) {
            let it = nucleo_dart_snapshot_get_item(&s, index).unwrap();
            if it.index == m.index && it.bytes == m.bytes {
                seen = true;
            }
        }
        assert!(seen);
    }
}

#[test]
fn get_item_reads_by_store_index() {
    let s = sample();
    assert_eq!(nucleo_dart_snapshot_get_item(&s, 0), Ok(stored(11, "alpha")));
    assert_eq!(nucleo_dart_snapshot_get_item(&s, 2), Ok(stored(13, "gamma")));
}

#[test]
fn get_item_past_the_end_is_a_range_error() {
    let s = sample();
    assert_eq!(nucleo_dart_snapshot_get_item(&s, 3), Err(IndexOutOfRange { index: 3, count: 3 }));
    assert_eq!(
        nucleo_dart_snapshot_get_item(&s, u32::MAX),
        Err(IndexOutOfRange { index: u32::MAX, count: 3 })
    );
}

#[test]
fn get_matched_item_reads_by_rank() {
    let s = sample();
    assert_eq!(nucleo_dart_snapshot_get_matched_item(&s, 0), Ok(found(40, 13, "gamma")));
    assert_eq!(nucleo_dart_snapshot_get_matched_item(&s, 1), Ok(found(20, 11, "alpha")));
}

#[test]
fn get_matched_item_past_the_end_is_a_range_error_and_harms_nothing() {
    let s = sample();
    assert_eq!(nucleo_dart_snapshot_get_matched_item(&s, 2), Err(IndexOutOfRange { index: 2, count: 2 }));
    assert_eq!(nucleo_dart_snapshot_get_matched_item(&s, 900), Err(IndexOutOfRange { index: 900, count: 2 }));
    assert_eq!(nucleo_dart_snapshot_get_matched_item(&s, 0), Ok(found(40, 13, "gamma")));
    assert_eq!(nucleo_dart_snapshot_get_matched_item_count(&s), 2);
    assert_eq!(nucleo_dart_snapshot_get_item_count(&s), 3);
}

#[test]
fn get_matched_items_gives_the_range_in_rank_order() {
    let s = sample();
    assert_eq!(
        nucleo_dart_snapshot_get_matched_items(&s, 0, 2),
        Ok(vec![found(40, 13, "gamma"), found(20, 11, "alpha")])
    );
    assert_eq!(nucleo_dart_snapshot_get_matched_items(&s, 1, 2), Ok(vec![found(20, 11, "alpha")]));
}

#[test]
fn get_matched_items_of_an_empty_range_is_empty() {
    let s = sample();
    assert_eq!(nucleo_dart_snapshot_get_matched_items(&s, 1, 1), Ok(vec![]));
    assert_eq!(nucleo_dart_snapshot_get_matched_items(&s, 5, 2), Ok(vec![]));
    assert_eq!(nucleo_dart_snapshot_get_matched_items(&s, 7, 7), Ok(vec![]));
}

#[test]
fn get_matched_items_past_the_end_is_a_range_error() {
    let s = sample();
    assert_eq!(
        nucleo_dart_snapshot_get_matched_items(&s, 0, 3),
        Err(IndexOutOfRange { index: 2, count: 2 })
    );
    assert_eq!(
        nucleo_dart_snapshot_get_matched_items(&s, 4, 6),
        Err(IndexOutOfRange { index: 4, count: 2 })
    );
}

#[test]
fn new_refuses_a_match_that_names_no_item() {
    assert_eq!(
        SnapshotHandle::new(vec![stored(1, "a"), stored(2, "b")], vec![NucleoDartMMatch { score: 1, idx: 2 }]),
        None
    );
}

#[test]
fn new_refuses_more_matches_than_items() {
    assert_eq!(
        SnapshotHandle::new(
            vec![stored(1, "a")],
            vec![NucleoDartMMatch { score: 1, idx: 0 }, NucleoDartMMatch { score: 1, idx: 0 }]
        ),
        None
    );
}

#[test]
fn push_item_appends_to_the_store() {
    let mut s = SnapshotHandle::empty();
    assert!(s.push_item(stored(5, "five")));
    assert!(s.push_item(stored(6, "six")));
    assert_eq!(nucleo_dart_snapshot_get_item_count(&s), 2);
    assert_eq!(nucleo_dart_snapshot_get_matched_item_count(&s), 0);
    assert_eq!(nucleo_dart_snapshot_get_item(&s, 1), Ok(stored(6, "six")));
}

#[test]
fn push_match_names_the_first_item_with_identity_and_payload() {
    let mut s = SnapshotHandle::empty();
    s.push_item(stored(5, "five"));
    s.push_item(stored(6, "six"));
    s.push_item(stored(6, "six"));
    assert!(s.push_match(30, 6, &b"six".to_vec()));
    assert!(!s.push_match(10, 6, &b"sixty".to_vec()));
    assert!(!s.push_match(10, 9, &b"six".to_vec()));
    assert!(s.push_match(20, 5, &b"five".to_vec()));
    assert_eq!(s.matched_len(), 2);
    assert_eq!(s.identity_at(0), 6);
    assert_eq!(s.score_at(0), 30);
    assert_eq!(s.identity_at(1), 5);
    assert_eq!(s.score_at(1), 20);
    assert_eq!(
        SnapshotHandle::new(
            vec![stored(5, "five"), stored(6, "six"), stored(6, "six")],
            vec![NucleoDartMMatch { score: 30, idx: 1 }, NucleoDartMMatch { score: 20, idx: 0 }]
        ),
        Some(s)
    );
}

#[test]
fn push_match_never_outnumbers_the_items() {
    let mut s = SnapshotHandle::empty();
    s.push_item(stored(1, "a"));
    assert!(s.push_match(3, 1, &b"a".to_vec()));
    assert!(!s.push_match(3, 1, &b"a".to_vec()));
    assert_eq!(nucleo_dart_snapshot_get_matched_item_count(&s), 1);
}

#[test]
fn find_item_gives_the_first_place() {
    let items = vec![stored(1, "a"), stored(2, "b"), stored(2, "b"), stored(2, "c")];
    assert_eq!(find_item(&items, 2, &b"b".to_vec()), Some(1));
    assert_eq!(find_item(&items, 2, &b"c".to_vec()), Some(3));
    assert_eq!(find_item(&items, 1, &b"b".to_vec()), None);
    assert_eq!(find_item(&vec![], 1, &b"a".to_vec()), None);
}

#[test]
fn same_bytes_compares_length_and_content() {
    assert!(same_bytes(&vec![], &vec![]));
    assert!(same_bytes(&vec![1, 2, 3], &vec![1, 2, 3]));
    assert!(!same_bytes(&vec![1, 2, 3], &vec![1, 2]));
    assert!(!same_bytes(&vec![1, 2, 3], &vec![1, 2, 4]));
}

#[test]
fn copy_bytes_copies() {
    assert_eq!(copy_bytes(&vec![9, 8, 7]), vec![9, 8, 7]);
    assert_eq!(copy_bytes(&vec![]), Vec::<u8>::new());
}

#[test]
fn append_hint_as_a_flag() {
    assert!(IsAppend::IsAppendYes.flag());
    assert!(!IsAppend::IsAppendNo.flag());
}

#[test]
fn assemble_keeps_the_items_up_to_the_first_missing_one() {
    let taken = assemble(
        &vec![Some(stored(1, "a")), Some(stored(2, "b")), None, Some(stored(3, "c"))],
        &vec![Some(found(9, 3, "c")), None, Some(found(4, 1, "a")), Some(found(2, 2, "b"))],
    );
    assert_eq!(taken.items_passed_over, 2);
    assert_eq!(taken.matches_passed_over, 2);
    assert_eq!(
        SnapshotHandle::new(
            vec![stored(1, "a"), stored(2, "b")],
            vec![NucleoDartMMatch { score: 4, idx: 0 }, NucleoDartMMatch { score: 2, idx: 1 }]
        ),
        Some(taken.snapshot)
    );
}

#[test]
fn assemble_keeps_every_place_where_nothing_is_missing() {
    let taken = assemble(
        &vec![Some(stored(1, "a")), Some(stored(2, "b"))],
        &vec![Some(found(9, 2, "b")), Some(found(4, 1, "a"))],
    );
    assert_eq!(taken.items_passed_over, 0);
    assert_eq!(taken.matches_passed_over, 0);
    assert_eq!(nucleo_dart_snapshot_get_item(&taken.snapshot, 0), Ok(stored(1, "a")));
    assert_eq!(nucleo_dart_snapshot_get_item(&taken.snapshot, 1), Ok(stored(2, "b")));
    assert_eq!(nucleo_dart_snapshot_get_matched_item(&taken.snapshot, 0), Ok(found(9, 2, "b")));
    assert_eq!(nucleo_dart_snapshot_get_matched_item(&taken.snapshot, 1), Ok(found(4, 1, "a")));
}

#[test]
fn assemble_drops_a_match_whose_item_is_not_stored_and_counts_it() {
    let taken = assemble(
        &vec![Some(stored(1, "a")), Some(stored(2, "b"))],
        &vec![Some(found(9, 2, "x")), Some(found(7, 5, "b")), Some(found(4, 2, "b"))],
    );
    assert_eq!(taken.items_passed_over, 0);
    assert_eq!(taken.matches_passed_over, 2);
    let s = taken.snapshot;
    assert_eq!(nucleo_dart_snapshot_get_item_count(&s), 2);
    assert_eq!(nucleo_dart_snapshot_get_matched_items(&s, 0, 1), Ok(vec![found(4, 2, "b")]));
    assert_eq!(nucleo_dart_snapshot_get_matched_item_count(&s), 1);
}

#[test]
fn assemble_of_nothing_is_the_empty_snapshot() {
    let none = assemble(&vec![], &vec![]);
    assert_eq!(none.snapshot, SnapshotHandle::empty());
    assert_eq!(none.items_passed_over, 0);
    assert_eq!(none.matches_passed_over, 0);
    let holes = assemble(&vec![None], &vec![Some(found(1, 1, "a"))]);
    assert_eq!(holes.snapshot, SnapshotHandle::empty());
    assert_eq!(holes.items_passed_over, 1);
    assert_eq!(holes.matches_passed_over, 1);
}

#[test]
fn item_at_lends_the_stored_item() {
    let s = sample();
    assert_eq!(s.item_at(1), Some(&stored(12, "beta")));
    assert_eq!(s.item_at(3), None);
}

#[test]
fn matched_at_lends_score_and_item() {
    let s = sample();
    assert_eq!(s.matched_at(0), Some((40, &stored(13, "gamma"))));
    assert_eq!(s.matched_at(1), Some((20, &stored(11, "alpha"))));
    assert_eq!(s.matched_at(2), None);
}

#[test]
fn matched_range_lends_the_range_in_rank_order() {
    let s = sample();
    assert_eq!(s.matched_range(0, 2), Ok(vec![(40, &stored(13, "gamma")), (20, &stored(11, "alpha"))]));
    assert_eq!(s.matched_range(1, 2), Ok(vec![(20, &stored(11, "alpha"))]));
    assert_eq!(s.matched_range(2, 2), Ok(vec![]));
    assert_eq!(s.matched_range(3, 1), Ok(vec![]));
    assert_eq!(s.matched_range(1, 3), Err(IndexOutOfRange { index: 2, count: 2 }));
    assert_eq!(s.matched_range(5, 9), Err(IndexOutOfRange { index: 5, count: 2 }));
}
