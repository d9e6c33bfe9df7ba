//! The engine handle: ingestion, pattern updates, driving the background
//! matcher, and capturing its current snapshot.

use std::sync::Arc;
use vstd::prelude::*;
use vstd::utf8::{decode_utf8, valid_utf8};
use nucleo::pattern::{CaseMatching, MultiPattern, Normalization};
use nucleo::{Config, Matcher, Nucleo, Utf32String};
use crate::snapshot::{assemble, came_from, Capture, SnapshotHandle};
use crate::types::{copy_bytes, IsAppend, NucleoDartMatch, NucleoDartString, NucleoDartStringMut};

verus! {

/// The background matcher of the `nucleo` crate. Its inside is not visible
/// to the proofs.
#[verifier::external_type_specification]
#[verifier::external_body]
#[verifier::reject_recursive_types(T)]
pub struct ExNucleo<T: Sync + Send + 'static>(nucleo::Nucleo<T>);

/// The matcher's own snapshot type. Its inside is not visible to the proofs.
#[verifier::external_type_specification]
#[verifier::external_body]
#[verifier::reject_recursive_types(T)]
pub struct ExEngineSnapshot<T: Sync + Send + 'static>(nucleo::Snapshot<T>);

/// The matcher's pattern over all columns. Its inside is not visible to the
/// proofs.
#[verifier::external_type_specification]
#[verifier::external_body]
pub struct ExMultiPattern(nucleo::pattern::MultiPattern);

/// The scoring machine of the `nucleo` crate. Its inside is not visible to
/// the proofs.
#[verifier::external_type_specification]
#[verifier::external_body]
pub struct ExMatcher(nucleo::Matcher);

/// How the matcher treats a case mismatch.
#[verifier::external_type_specification]
pub struct ExCaseMatching(nucleo::pattern::CaseMatching);

/// How the matcher treats unicode normalization.
#[verifier::external_type_specification]
pub struct ExNormalization(nucleo::pattern::Normalization);

/// The number of text columns that a matcher was made with.
pub uninterp spec fn engine_columns(engine: Nucleo<(u32, Vec<u8>)>) -> nat;

/// The matcher's last complete snapshot, which only a drive replaces.
pub uninterp spec fn engine_last_snapshot(engine: Nucleo<(u32, Vec<u8>)>) -> nucleo::Snapshot<(u32, Vec<u8>)>;

/// The number of items that a snapshot of the matcher counts.
pub uninterp spec fn snapshot_item_count(snapshot: nucleo::Snapshot<(u32, Vec<u8>)>) -> u32;

/// The number of matches that a snapshot of the matcher counts.
pub uninterp spec fn snapshot_matched_count(snapshot: nucleo::Snapshot<(u32, Vec<u8>)>) -> u32;

/// The pattern that a snapshot of the matcher was scored by.
pub uninterp spec fn snapshot_pattern(snapshot: nucleo::Snapshot<(u32, Vec<u8>)>) -> MultiPattern;

/// Whether a scoring machine has the default configuration, which is the
/// one that the engine's workers score by.
pub uninterp spec fn matcher_is_default(matcher: Matcher) -> bool;

/// The score that `MultiPattern::score` gives a text as the one column of
/// an item, on a scoring machine of the default configuration; none where
/// the text does not match.
pub uninterp spec fn default_score(pattern: MultiPattern, text: Seq<char>) -> Option<u32>;

/// The pattern that a matcher holds in a column, as the list of its atoms:
/// of each the needle, and a code of its kind and flags, which is below
/// zero where the atom is negative.
pub uninterp spec fn engine_pattern(engine: Nucleo<(u32, Vec<u8>)>, column: int) -> Seq<(Seq<char>, int)>;

/// The pattern that `Pattern::reparse` makes of a text under a case policy
/// and a normalization policy, as the list of its atoms in the same form.
pub uninterp spec fn parsed_pattern(
    text: Seq<char>,
    case_matching: CaseMatching,
    normalization: Normalization,
) -> Seq<(Seq<char>, int)>;

/// How the matcher's pattern has changed since a drive last handed it to
/// the workers: `UNCHANGED`, `EXTENDED` or `REPLACED`.
pub uninterp spec fn engine_pattern_change(engine: Nucleo<(u32, Vec<u8>)>) -> int;

/// Whether a pattern ends in a negative atom.
pub open spec fn ends_negative(pattern: Seq<(Seq<char>, int)>) -> bool {
    pattern.len() > 0 && pattern.last().1 < 0
}

/// Whether a change of pattern can go on from the scores there are: the
/// caller says that the text was extended, no replacement is waiting, and
/// the pattern before does not end in a negative atom.
pub open spec fn extends(append: bool, change_before: int, pattern_before: Seq<(Seq<char>, int)>) -> bool {
    append && change_before != REPLACED && !ends_negative(pattern_before)
}

/// What a drive reports.
#[derive(Debug, Clone, Copy, PartialEq, Eq, Structural)]
pub struct DriveStatus {
    /// Whether the workers had finished a pass since the last drive.
    pub changed: bool,
    /// Whether the workers are at work after the drive.
    pub running: bool,
}

/// No pattern change is waiting for a drive.
pub const UNCHANGED: u8 = 0;

/// A change is waiting, and the scores of the items that matched so far are
/// enough to go on from.
pub const EXTENDED: u8 = 1;

/// A change is waiting, and every item is to be scored anew.
pub const REPLACED: u8 = 2;

/// The number of worker threads of an engine.
pub const WORKER_THREADS: usize = 1;

/// The number of text columns of an engine: matching is single-column.
pub const TEXT_COLUMNS: u32 = 1;

/// The one pattern column in use.
pub const PATTERN_COLUMN: usize = 0;

/// `Nucleo::new` with the default matcher configuration. There must be a
/// worker and a text column: the matcher refuses to be made without.
/// Assumed: the matcher has as many text columns as were asked for, no
/// pattern change is waiting, and its snapshot counts no item and no match.
#[verifier::external_body]
fn engine_create<F: Fn() + Sync + Send + 'static>(notify: F, threads: usize, columns: u32) -> (r: Nucleo<(u32, Vec<u8>)>)
    requires
        threads >= 1,
        columns >= 1,
    ensures
        engine_columns(r) == columns,
        engine_pattern_change(r) == UNCHANGED,
        snapshot_item_count(engine_last_snapshot(r)) == 0,
        snapshot_matched_count(engine_last_snapshot(r)) == 0,
{
    Nucleo::new(Config::DEFAULT, Arc::new(notify), Some(threads), columns)
}

/// `Nucleo::tick`. Assumed: the number of columns and the pattern of every
/// column stay; a pattern change that was waiting is handed to the workers,
/// so that none waits afterwards; and the last snapshot is replaced only
/// where the drive reports a change. Nothing is assumed of the matcher's
/// progress, which depends on time and on the workers.
#[verifier::external_body]
fn engine_tick(engine: &mut Nucleo<(u32, Vec<u8>)>, timeout_ms: u64) -> (r: DriveStatus)
    ensures
        engine_columns(*final(engine)) == engine_columns(*old(engine)),
        forall|c: int| engine_pattern(*final(engine), c) == engine_pattern(*old(engine), c),
        engine_pattern_change(*final(engine)) == UNCHANGED,
        !r.changed ==> engine_last_snapshot(*final(engine)) == engine_last_snapshot(*old(engine)),
{
    let status = engine.tick(timeout_ms);
    DriveStatus { changed: status.changed, running: status.running }
}

/// `Injector::push` on a fresh injector of the matcher, with `text` as the
/// item's text in one column. The column must be one of the matcher's.
/// Nothing is assumed of the store index that the item gets.
#[verifier::external_body]
fn engine_push(engine: &Nucleo<(u32, Vec<u8>)>, identity: u32, bytes: Vec<u8>, column: usize, text: &str)
    requires
        column < engine_columns(*engine),
{
    engine.injector().push((identity, bytes), |_, columns| columns[column] = text.into());
}

/// `MultiPattern::reparse` on the matcher's pattern. The column must be one
/// of the matcher's. Assumed: the number of columns stays; the column holds
/// what `Pattern::reparse` makes of the text, and the other columns keep
/// their patterns; a change is waiting afterwards, which without `append`
/// is a replacement, and which for a matcher of one column is an extension
/// exactly where `extends` says so; the last snapshot stays.
#[verifier::external_body]
fn engine_reparse(
    engine: &mut Nucleo<(u32, Vec<u8>)>,
    column: usize,
    text: &str,
    case_matching: CaseMatching,
    normalization: Normalization,
    append: bool,
)
    requires
        column < engine_columns(*old(engine)),
    ensures
        engine_columns(*final(engine)) == engine_columns(*old(engine)),
        engine_pattern(*final(engine), column as int) == parsed_pattern(text@, case_matching, normalization),
        forall|c: int| c != column ==> engine_pattern(*final(engine), c) == engine_pattern(*old(engine), c),
        engine_pattern_change(*final(engine)) == EXTENDED || engine_pattern_change(*final(engine)) == REPLACED,
        !append ==> engine_pattern_change(*final(engine)) == REPLACED,
        engine_columns(*old(engine)) == 1 ==> (engine_pattern_change(*final(engine)) == EXTENDED <==> extends(
            append,
            engine_pattern_change(*old(engine)),
            engine_pattern(*old(engine), column as int),
        )),
        engine_last_snapshot(*final(engine)) == engine_last_snapshot(*old(engine)),
{
    engine.pattern.reparse(column, text, case_matching, normalization, append);
}

/// `Nucleo::snapshot`: the matcher's last complete snapshot.
#[verifier::external_body]
fn engine_snapshot(engine: &Nucleo<(u32, Vec<u8>)>) -> (r: &nucleo::Snapshot<(u32, Vec<u8>)>)
    ensures
        *r == engine_last_snapshot(*engine),
{
    engine.snapshot()
}

/// `Snapshot::item_count`: the count that the snapshot holds.
#[verifier::external_body]
fn engine_item_count(snapshot: &nucleo::Snapshot<(u32, Vec<u8>)>) -> (r: u32)
    ensures
        r == snapshot_item_count(*snapshot),
{
    snapshot.item_count()
}

/// `Snapshot::matched_item_count`: the count that the snapshot gives.
#[verifier::external_body]
fn engine_matched_count(snapshot: &nucleo::Snapshot<(u32, Vec<u8>)>) -> (r: u32)
    ensures
        r == snapshot_matched_count(*snapshot),
{
    snapshot.matched_item_count()
}

/// The highest store index that the matcher's store can be asked for.
pub const LAST_STORE_INDEX: u32 = 0xffff_ffdf;

/// `Snapshot::get_item`, with the item copied out. The index must be one
/// that the store can be asked for. Nothing is assumed of the result: an
/// item that is still being written is not there yet.
#[verifier::external_body]
fn engine_item(snapshot: &nucleo::Snapshot<(u32, Vec<u8>)>, index: u32) -> (r: Option<NucleoDartString>)
    requires
        index <= LAST_STORE_INDEX,
{
    snapshot.get_item(index).map(|item| NucleoDartString { index: item.data.0, bytes: item.data.1.clone() })
}

/// `Snapshot::get_matched_item`, with the item copied out. Assumed: there
/// is nothing at a rank that is not below the snapshot's match count.
#[verifier::external_body]
fn engine_matched_item(snapshot: &nucleo::Snapshot<(u32, Vec<u8>)>, rank: u32) -> (r: Option<NucleoDartString>)
    ensures
        rank >= snapshot_matched_count(*snapshot) ==> r is None,
{
    snapshot.get_matched_item(rank).map(|item| NucleoDartString { index: item.data.0, bytes: item.data.1.clone() })
}

/// `Snapshot::pattern`: the pattern that the snapshot's matches were scored
/// by.
#[verifier::external_body]
fn engine_snapshot_pattern(snapshot: &nucleo::Snapshot<(u32, Vec<u8>)>) -> (r: &MultiPattern)
    ensures
        *r == snapshot_pattern(*snapshot),
{
    snapshot.pattern()
}

/// `Matcher::new` with the default configuration, which is the one that the
/// engine's workers score by.
#[verifier::external_body]
fn matcher_create() -> (r: Matcher)
    ensures
        matcher_is_default(r),
{
    Matcher::new(Config::DEFAULT)
}

/// `MultiPattern::score` of a text as the one column of an item, on a
/// scoring machine of the default configuration. The text must not be
/// longer than the matcher takes. Assumed: the score depends on the pattern
/// and the text alone, and the machine keeps its configuration.
#[verifier::external_body]
fn pattern_score(pattern: &MultiPattern, text: &str, matcher: &mut Matcher) -> (r: Option<u32>)
    requires
        text@.len() <= u32::MAX,
        matcher_is_default(*old(matcher)),
    ensures
        r == default_score(*pattern, text@),
        matcher_is_default(*final(matcher)),
{
    pattern.score(&[Utf32String::from(text)], matcher)
}

/// `String::from_utf8`. Assumed, as std documents: the conversion succeeds
/// exactly on valid UTF-8, and the string is what the bytes decode to.
#[verifier::external_body]
fn utf8_string(bytes: Vec<u8>) -> (r: Option<String>)
    ensures
        r is Some <==> valid_utf8(bytes@),
        r matches Some(s) ==> s@ == decode_utf8(bytes@),
{
    match String::from_utf8(bytes) {
        Ok(s) => Some(s),
        Err(_) => None,
    }
}

/// An engine: the background matcher over items of identity and payload.
pub struct NucleoHandle {
    internal: Nucleo<(u32, Vec<u8>)>,
}

/// The text that an item is searched by: what its payload decodes to, or
/// nothing where the payload is not valid UTF-8.
pub fn derive_text(bytes: &Vec<u8>) -> (r: Option<String>)
    ensures
        r is Some <==> valid_utf8(bytes@),
        r matches Some(s) ==> s@ == decode_utf8(bytes@),
{
    utf8_string(copy_bytes(bytes))
}

/// How many of the items have a payload that is valid UTF-8.
pub open spec fn searchable_count(items: Seq<NucleoDartStringMut>) -> nat
    decreases items.len(),
{
    if items.len() == 0 {
        0
    } else {
        searchable_count(items.drop_last()) + if valid_utf8(items.last().bytes@) { 1nat } else { 0nat }
    }
}

/// The pattern that a text stands for: parsed ignoring case, with smart
/// normalization.
pub open spec fn pattern_of(text: Seq<char>) -> Seq<(Seq<char>, int)> {
    parsed_pattern(text, CaseMatching::Ignore, Normalization::Smart)
}

impl NucleoHandle {
    /// An engine is well formed when its matcher has the one text column.
    pub closed spec fn wf(&self) -> bool {
        engine_columns(self.internal) == TEXT_COLUMNS
    }

    /// The number of items that the engine's last complete snapshot counts.
    pub closed spec fn item_count(&self) -> u32 {
        snapshot_item_count(engine_last_snapshot(self.internal))
    }

    /// The number of matches that the engine's last complete snapshot
    /// counts.
    pub closed spec fn matched_count(&self) -> u32 {
        snapshot_matched_count(engine_last_snapshot(self.internal))
    }

    /// The score that the pattern of the engine's last complete snapshot
    /// gives an item of this payload; none where the item does not match.
    pub closed spec fn score_of(&self, bytes: Seq<u8>) -> Option<u32> {
        default_score(snapshot_pattern(engine_last_snapshot(self.internal)), stored_text(bytes))
    }

    /// The engine's pattern.
    pub closed spec fn pattern(&self) -> Seq<(Seq<char>, int)> {
        engine_pattern(self.internal, PATTERN_COLUMN as int)
    }

    /// How the pattern has changed since a drive last took it up:
    /// `UNCHANGED`, `EXTENDED` or `REPLACED`.
    pub closed spec fn pattern_change(&self) -> int {
        engine_pattern_change(self.internal)
    }
}

/// Creates an engine with one worker and one text column, with no pattern
/// change waiting and a snapshot that counts no item and no match. `notify`
/// is called whenever the matcher has new results.
pub fn nucleo_dart_new<F: Fn() + Sync + Send + 'static>(notify: F) -> (r: NucleoHandle)
    ensures
        r.wf(),
        r.pattern_change() == UNCHANGED,
        r.item_count() == 0,
        r.matched_count() == 0,
{
    NucleoHandle { internal: engine_create(notify, WORKER_THREADS, TEXT_COLUMNS) }
}

/// Releases an engine and all that it owns.
pub fn nucleo_dart_destroy(handle: NucleoHandle) {
}

/// Drives the matcher for up to `ms` milliseconds and gives its report. The
/// pattern stays as it is; a change of it that was waiting is taken up, so
/// that none waits afterwards. A drive that reports no change leaves the
/// snapshot's counts, and the score that its pattern gives any item, as they
/// were.
pub fn nucleo_dart_tick(handle: &mut NucleoHandle, ms: u32) -> (r: DriveStatus)
    requires
        old(handle).wf(),
    ensures
        final(handle).wf(),
        final(handle).pattern() == old(handle).pattern(),
        final(handle).pattern_change() == UNCHANGED,
        !r.changed ==> final(handle).item_count() == old(handle).item_count()
            && final(handle).matched_count() == old(handle).matched_count(),
        !r.changed ==> forall|bytes: Seq<u8>| #[trigger] final(handle).score_of(bytes) == old(handle).score_of(bytes),
{
    engine_tick(&mut handle.internal, ms as u64)
}

/// The text that an item is stored with: what its payload decodes to or,
/// where it is not valid UTF-8, the empty text.
pub open spec fn stored_text(bytes: Seq<u8>) -> Seq<char> {
    if valid_utf8(bytes) {
        decode_utf8(bytes)
    } else {
        Seq::empty()
    }
}

/// The text that an item is stored with.
pub fn text_for_store(bytes: &Vec<u8>) -> (r: String)
    ensures
        r@ == stored_text(bytes@),
{
    match derive_text(bytes) {
        Some(text) => text,
        None => {
            let empty = String::new();
            assert(empty@ =~= Seq::<char>::empty());
            empty
        },
    }
}

/// Stores one item, with the text that its payload decodes to or, where it
/// is not valid UTF-8, with empty text.
fn ingest(handle: &NucleoHandle, identity: u32, bytes: Vec<u8>) -> (searchable: bool)
    requires
        handle.wf(),
    ensures
        searchable == valid_utf8(bytes@),
{
    match derive_text(&bytes) {
        Some(text) => {
            engine_push(&handle.internal, identity, bytes, PATTERN_COLUMN, text.as_str());
            true
        },
        None => {
            engine_push(&handle.internal, identity, bytes, PATTERN_COLUMN, "");
            false
        },
    }
}

/// The match that an item and its score make: none where either is missing.
pub fn scored_match(item: Option<NucleoDartString>, score: Option<u32>) -> (r: Option<NucleoDartMatch>)
    ensures
        r is Some <==> item is Some && score is Some,
        r matches Some(m) ==> m.score == score->0 && m.index == item->0.index && m.bytes == item->0.bytes,
{
    match item {
        Some(found) => match score {
            Some(points) => Some(NucleoDartMatch { score: points, index: found.index, bytes: found.bytes }),
            None => None,
        },
        None => None,
    }
}

/// The match at a rank of the matcher's snapshot: the item there with the
/// score that the snapshot's pattern gives the text it was stored with. A
/// text longer than the matcher takes has no score.
fn matched_at(snapshot: &nucleo::Snapshot<(u32, Vec<u8>)>, matcher: &mut Matcher, rank: u32) -> (r: Option<NucleoDartMatch>)
    requires
        matcher_is_default(*old(matcher)),
    ensures
        matcher_is_default(*final(matcher)),
        r matches Some(m) ==> rank < snapshot_matched_count(*snapshot) && default_score(
            snapshot_pattern(*snapshot),
            stored_text(m.bytes@),
        ) == Some(m.score),
{
    let item = engine_matched_item(snapshot, rank);
    let score = match &item {
        Some(found) => {
            let text = text_for_store(&found.bytes);
            if text.as_str().unicode_len() <= u32::MAX as usize {
                pattern_score(engine_snapshot_pattern(snapshot), text.as_str(), matcher)
            } else {
                None
            }
        },
        None => None,
    };
    scored_match(item, score)
}

/// Hands an item to the engine, which stores it in any case. The result says
/// whether the item is searchable: an item whose payload is not valid UTF-8
/// is stored with empty text.
pub fn nucleo_dart_add(handle: &NucleoHandle, item: NucleoDartStringMut) -> (searchable: bool)
    requires
        handle.wf(),
    ensures
        searchable == valid_utf8(item.bytes@),
{
    ingest(handle, item.index, item.bytes)
}

/// Hands each item to the engine in turn, first to last; the result is the
/// number of searchable ones.
pub fn nucleo_dart_add_all(handle: &NucleoHandle, items: &Vec<NucleoDartStringMut>) -> (searchable: usize)
    requires
        handle.wf(),
    ensures
        searchable == searchable_count(items@),
{
    let mut count: usize = 0;
    let mut i: usize = 0;
    while i < items.len()
        invariant
            handle.wf(),
            i <= items.len(),
            count <= i,
            count == searchable_count(items@.take(i as int)),
        decreases items.len() - i,
    {
        proof {
            assert(items@.take(i + 1).drop_last() =~= items@.take(i as int));
        }
        if ingest(handle, items[i].index, copy_bytes(&items[i].bytes)) {
            count += 1;
        }
        i += 1;
    }
    proof {
        assert(items@.take(i as int) =~= items@);
    }
    count
}

/// Replaces the pattern text of the one pattern column, ignoring case and
/// with smart normalization. With `IsAppendYes` the caller promises that the
/// previous text is a prefix of the new one: the change that then waits for
/// a drive is an extension, unless a replacement was waiting already or the
/// pattern before ended in a negative atom. The snapshot's counts and
/// scores stay until a drive.
pub fn nucleo_dart_reparse(handle: &mut NucleoHandle, new_text: &str, append: IsAppend)
    requires
        old(handle).wf(),
    ensures
        final(handle).wf(),
        final(handle).pattern() == pattern_of(new_text@),
        final(handle).pattern_change() == EXTENDED || final(handle).pattern_change() == REPLACED,
        final(handle).pattern_change() == EXTENDED <==> extends(
            append.spec_flag(),
            old(handle).pattern_change(),
            old(handle).pattern(),
        ),
        final(handle).item_count() == old(handle).item_count(),
        final(handle).matched_count() == old(handle).matched_count(),
        forall|bytes: Seq<u8>| #[trigger] final(handle).score_of(bytes) == old(handle).score_of(bytes),
{
    engine_reparse(
        &mut handle.internal,
        PATTERN_COLUMN,
        new_text,
        CaseMatching::Ignore,
        Normalization::Smart,
        append.flag(),
    );
}

/// Captures the matcher's last complete snapshot: per store index below its
/// item count the item that is there, per rank below its match count the
/// match that is there, put together by `assemble`. Every store index and
/// every rank is either taken into the snapshot or counted as passed over,
/// and every match taken has the score that the snapshot's pattern gives
/// its item.
pub fn nucleo_dart_capture(handle: &NucleoHandle) -> (r: Capture)
    ensures
        r.snapshot.wf(),
        r.snapshot.items().len() + r.items_passed_over == handle.item_count(),
        r.snapshot.matches().len() + r.matches_passed_over == handle.matched_count(),
        forall|rank: int| 0 <= rank < r.snapshot.matches().len() ==> handle.score_of(
            r.snapshot.matched_item(rank).bytes@,
        ) == Some((#[trigger] r.snapshot.matches()[rank]).score),
{
    let source = engine_snapshot(&handle.internal);
    let mut items: Vec<Option<NucleoDartString>> = Vec::new();
    let item_count: u32 = engine_item_count(source);
    let mut index: u32 = 0;
    while index < item_count
        invariant
            index <= item_count,
            items@.len() == index,
        decreases item_count - index,
    {
        if index <= LAST_STORE_INDEX {
            items.push(engine_item(source, index));
        } else {
            items.push(None);
        }
        index += 1;
    }
    let mut found: Vec<Option<NucleoDartMatch>> = Vec::new();
    let mut matcher = matcher_create();
    let matched_count: u32 = engine_matched_count(source);
    let mut rank: u32 = 0;
    while rank < matched_count
        invariant
            rank <= matched_count,
            found@.len() == rank,
            matcher_is_default(matcher),
            *source == engine_last_snapshot(handle.internal),
            forall|k: int| 0 <= k < found@.len() ==> (#[trigger] found@[k] matches Some(m) ==> handle.score_of(m.bytes@)
                == Some(m.score)),
        decreases matched_count - rank,
    {
        found.push(matched_at(source, &mut matcher, rank));
        rank += 1;
    }
    let taken = assemble(&items, &found);
    proof {
        assert forall|rank: int| 0 <= rank < taken.snapshot.matches().len() implies handle.score_of(
            taken.snapshot.matched_item(rank).bytes@,
        ) == Some((#[trigger] taken.snapshot.matches()[rank]).score) by {
            let k = choose|k: int| came_from(taken.snapshot.items(), taken.snapshot.matches()[rank], found@, k);
            assert(found@[k] is Some);
        }
    }
    taken
}

/// The matcher's last complete snapshot, as `nucleo_dart_capture` takes it,
/// without the counts of what was passed over: it holds no more items and
/// no more matches than the matcher's snapshot counts, and every match has
/// the score that the snapshot's pattern gives its item.
pub fn nucleo_dart_get_snapshot(handle: &NucleoHandle) -> (r: SnapshotHandle)
    ensures
        r.wf(),
        r.items().len() <= handle.item_count(),
        r.matches().len() <= handle.matched_count(),
        forall|rank: int| 0 <= rank < r.matches().len() ==> handle.score_of(r.matched_item(rank).bytes@) == Some(
            (#[trigger] r.matches()[rank]).score,
        ),
{
    nucleo_dart_capture(handle).snapshot
}

} // verus!
