//! A point-in-time view of the item store and its ranked matches.

use vstd::prelude::*;
use crate::types::{copy_bytes, NucleoDartMMatch, NucleoDartMatch, NucleoDartString};

verus! {

/// The error of a read past the end of a snapshot's items or matches.
#[derive(Debug, Clone, Copy, PartialEq, Eq, Structural)]
pub struct IndexOutOfRange {
    /// The index or rank that was asked for.
    pub index: u32,
    /// How many entries there are.
    pub count: u32,
}

/// All items of the store at one moment, and the matches among them in rank
/// order, best first. Each match names its item by store index.
#[derive(Debug, Clone, PartialEq, Eq)]
pub struct SnapshotHandle {
    items: Vec<NucleoDartString>,
    matches: Vec<NucleoDartMMatch>,
}

/// What makes a list of items and a list of matches a snapshot: the counts
/// fit in 32 bits, there are no more matches than items, and every match
/// names a stored item.
pub open spec fn consistent(items: Seq<NucleoDartString>, matches: Seq<NucleoDartMMatch>) -> bool {
    &&& items.len() <= u32::MAX
    &&& matches.len() <= items.len()
    &&& forall|r: int| 0 <= r < matches.len() ==> (#[trigger] matches[r]).idx < items.len()
}

/// Whether the item at store index `i` has this identity and this payload.
pub open spec fn is_item(items: Seq<NucleoDartString>, i: int, identity: u32, bytes: Seq<u8>) -> bool {
    0 <= i < items.len() && items[i].index == identity && items[i].bytes@ == bytes
}

/// Whether `i` is the first store index whose item has this identity and
/// this payload.
pub open spec fn is_first_item(items: Seq<NucleoDartString>, i: int, identity: u32, bytes: Seq<u8>) -> bool {
    is_item(items, i, identity, bytes) && forall|k: int| 0 <= k < i ==> !is_item(items, k, identity, bytes)
}

/// Whether two byte buffers hold the same bytes.
pub fn same_bytes(a: &Vec<u8>, b: &Vec<u8>) -> (r: bool)
    ensures
        r == (a@ == b@),
{
    if a.len() != b.len() {
        return false;
    }
    let mut i: usize = 0;
    while i < a.len()
        invariant
            a.len() == b.len(),
            i <= a.len(),
            a@.take(i as int) == b@.take(i as int),
        decreases a.len() - i,
    {
        if a[i] != b[i] {
            return false;
        }
        assert(a@.take(i + 1) =~= a@.take(i as int).push(a@[i as int]));
        assert(b@.take(i + 1) =~= b@.take(i as int).push(b@[i as int]));
        i += 1;
    }
    assert(a@ =~= a@.take(i as int));
    assert(b@ =~= b@.take(i as int));
    true
}

/// The first store index of an item with this identity and payload, if any.
pub fn find_item(items: &Vec<NucleoDartString>, identity: u32, bytes: &Vec<u8>) -> (r: Option<usize>)
    ensures
        r matches Some(i) ==> is_first_item(items@, i as int, identity, bytes@),
        r is None ==> forall|k: int| 0 <= k < items.len() ==> !is_item(items@, k, identity, bytes@),
{
    let mut i: usize = 0;
    while i < items.len()
        invariant
            i <= items.len(),
            forall|k: int| 0 <= k < i ==> !is_item(items@, k, identity, bytes@),
        decreases items.len() - i,
    {
        if items[i].index == identity && same_bytes(&items[i].bytes, bytes) {
            return Some(i);
        }
        i += 1;
    }
    None
}

impl SnapshotHandle {
    /// The stored items, by store index.
    pub closed spec fn items(&self) -> Seq<NucleoDartString> {
        self.items@
    }

    /// The matches, by rank.
    pub closed spec fn matches(&self) -> Seq<NucleoDartMMatch> {
        self.matches@
    }

    pub open spec fn wf(&self) -> bool {
        consistent(self.items(), self.matches())
    }

    /// The item that the match at `rank` names.
    pub open spec fn matched_item(&self, rank: int) -> NucleoDartString {
        self.items()[self.matches()[rank].idx as int]
    }

    /// The identities of the matched items, in rank order.
    pub open spec fn identities(&self) -> Seq<u32> {
        Seq::new(self.matches().len(), |r: int| self.matched_item(r).index)
    }

    /// Builds a snapshot from its parts, or nothing where they are not
    /// consistent with one another.
    pub fn new(items: Vec<NucleoDartString>, matches: Vec<NucleoDartMMatch>) -> (r: Option<SnapshotHandle>)
        ensures
            r is Some <==> consistent(items@, matches@),
            r matches Some(s) ==> s.wf() && s.items() == items@ && s.matches() == matches@,
    {
        if items.len() > u32::MAX as usize || matches.len() > items.len() {
            return None;
        }
        let mut r: usize = 0;
        while r < matches.len()
            invariant
                r <= matches.len(),
                forall|k: int| 0 <= k < r ==> (#[trigger] matches@[k]).idx < items.len(),
            decreases matches.len() - r,
        {
            if matches[r].idx as usize >= items.len() {
                return None;
            }
            r += 1;
        }
        Some(SnapshotHandle { items, matches })
    }

    /// The empty snapshot.
    pub fn empty() -> (r: SnapshotHandle)
        ensures
            r.wf(),
            r.items().len() == 0,
            r.matches().len() == 0,
    {
        SnapshotHandle { items: Vec::new(), matches: Vec::new() }
    }

    /// Appends an item to the store, unless the store is full. The matches
    /// stay as they are.
    pub fn push_item(&mut self, item: NucleoDartString) -> (stored: bool)
        requires
            old(self).wf(),
        ensures
            final(self).wf(),
            stored == (old(self).items().len() < u32::MAX),
            final(self).matches() == old(self).matches(),
            final(self).items() == if stored { old(self).items().push(item) } else { old(self).items() },
    {
        if self.items.len() >= u32::MAX as usize {
            return false;
        }
        self.items.push(item);
        true
    }

    /// Appends a match as the new last rank. The matched item is given by
    /// identity and payload, and the match names the first stored item that
    /// has both. Where no stored item has them, or there are already as many
    /// matches as items, nothing changes.
    pub fn push_match(&mut self, score: u32, identity: u32, bytes: &Vec<u8>) -> (ranked: bool)
        requires
            old(self).wf(),
        ensures
            final(self).wf(),
            final(self).items() == old(self).items(),
            ranked == (old(self).matches().len() < old(self).items().len()
                && exists|i: int| is_item(old(self).items(), i, identity, bytes@)),
            ranked ==> final(self).matches().len() == old(self).matches().len() + 1
                && final(self).matches().drop_last() == old(self).matches()
                && final(self).matches().last().score == score
                && is_first_item(old(self).items(), final(self).matches().last().idx as int, identity, bytes@),
            !ranked ==> final(self).matches() == old(self).matches(),
    {
        if self.matches.len() >= self.items.len() {
            return false;
        }
        match find_item(&self.items, identity, bytes) {
            Some(i) => {
                let ghost before = self.matches@;
                self.matches.push(NucleoDartMMatch { score, idx: i as u32 });
                proof {
                    assert(self.matches@.drop_last() =~= before);
                    assert(is_item(self.items@, i as int, identity, bytes@));
                }
                true
            },
            None => false,
        }
    }

    /// The identity of the item matched at `rank`.
    pub fn identity_at(&self, rank: usize) -> (r: u32)
        requires
            self.wf(),
            rank < self.matches().len(),
        ensures
            r == self.identities()[rank as int],
    {
        self.items[self.matches[rank].idx as usize].index
    }

    /// The score of the match at `rank`.
    pub fn score_at(&self, rank: usize) -> (r: u32)
        requires
            self.wf(),
            rank < self.matches().len(),
        ensures
            r == self.matches()[rank as int].score,
    {
        self.matches[rank].score
    }

    /// The number of matches, as a machine index.
    pub fn matched_len(&self) -> (r: usize)
        requires
            self.wf(),
        ensures
            r == self.matches().len(),
            r <= u32::MAX,
    {
        self.matches.len()
    }
}

/// The place of the first stored item with this identity and payload.
pub open spec fn first_item(items: Seq<NucleoDartString>, identity: u32, bytes: Seq<u8>) -> int {
    choose|i: int| is_first_item(items, i, identity, bytes)
}

/// The items that a store keeps of what it was handed, in order: those up
/// to the first place where nothing was handed or the store is full. So
/// every item kept stands at the store index it was handed at.
pub open spec fn kept_items(got: Seq<Option<NucleoDartString>>) -> Seq<NucleoDartString>
    decreases got.len(),
{
    if got.len() == 0 {
        Seq::empty()
    } else {
        let before = kept_items(got.drop_last());
        match got.last() {
            Some(item) => if before.len() == got.len() - 1 && before.len() < u32::MAX {
                before.push(item)
            } else {
                before
            },
            None => before,
        }
    }
}

/// The matches that a snapshot over `items` keeps of what it was handed, in
/// order: each names the first stored item with its identity and payload;
/// what is missing is passed over, and so is a match whose item is not
/// stored or that comes when there are as many matches as items.
pub open spec fn kept_matches(items: Seq<NucleoDartString>, got: Seq<Option<NucleoDartMatch>>) -> Seq<NucleoDartMMatch>
    decreases got.len(),
{
    if got.len() == 0 {
        Seq::empty()
    } else {
        let before = kept_matches(items, got.drop_last());
        match got.last() {
            Some(m) => if before.len() < items.len() && exists|i: int| is_item(items, i, m.index, m.bytes@) {
                before.push(NucleoDartMMatch { score: m.score, idx: first_item(items, m.index, m.bytes@) as u32 })
            } else {
                before
            },
            None => before,
        }
    }
}

/// Only one place is the first of an identity and payload.
pub proof fn lemma_first_item_is_one(items: Seq<NucleoDartString>, i: int, j: int, identity: u32, bytes: Seq<u8>)
    requires
        is_first_item(items, i, identity, bytes),
        is_first_item(items, j, identity, bytes),
    ensures
        i == j,
{
}

/// A snapshot built from what an engine handed out, with the count of what
/// could not be taken into it.
#[derive(Debug, Clone, PartialEq, Eq)]
pub struct Capture {
    /// The snapshot.
    pub snapshot: SnapshotHandle,
    /// How many store indices gave no item to the snapshot: those from the
    /// first at which nothing was there. The items of the snapshot stand at
    /// their store indices.
    pub items_passed_over: usize,
    /// How many ranks gave no match to the snapshot. Where this is zero,
    /// every match stands at its rank.
    pub matches_passed_over: usize,
}

/// Every item kept is the item handed out at its store index.
pub proof fn lemma_kept_items_keep_place(got: Seq<Option<NucleoDartString>>)
    ensures
        kept_items(got).len() <= got.len(),
        forall|i: int| 0 <= i < kept_items(got).len() ==> #[trigger] got[i] == Some(kept_items(got)[i]),
    decreases got.len(),
{
    if got.len() > 0 {
        lemma_kept_items_keep_place(got.drop_last());
        assert forall|i: int| 0 <= i < kept_items(got).len() implies #[trigger] got[i] == Some(kept_items(got)[i]) by {
            if i < kept_items(got.drop_last()).len() {
                assert(got.drop_last()[i] == got[i]);
            }
        }
    }
}

/// No more items are kept than were handed out.
pub proof fn lemma_kept_items_grow(got: Seq<Option<NucleoDartString>>)
    ensures
        kept_items(got).len() <= got.len(),
    decreases got.len(),
{
    if got.len() > 0 {
        lemma_kept_items_grow(got.drop_last());
    }
}

/// Whether a match of a snapshot over `items` is what was handed out at
/// place `k`: it has that score, and names the first stored item with that
/// identity and payload.
pub open spec fn came_from(
    items: Seq<NucleoDartString>,
    kept: NucleoDartMMatch,
    got: Seq<Option<NucleoDartMatch>>,
    k: int,
) -> bool {
    &&& 0 <= k < got.len()
    &&& got[k] is Some
    &&& kept.score == got[k]->0.score
    &&& is_first_item(items, kept.idx as int, got[k]->0.index, got[k]->0.bytes@)
}

/// Whether a match of a snapshot over `items` is one of those handed out.
pub open spec fn handed_out(items: Seq<NucleoDartString>, kept: NucleoDartMMatch, got: Seq<Option<NucleoDartMatch>>) -> bool {
    exists|k: int| came_from(items, kept, got, k)
}

/// Every match kept is one that was handed out.
pub proof fn lemma_kept_matches_come_from(items: Seq<NucleoDartString>, got: Seq<Option<NucleoDartMatch>>)
    requires
        items.len() <= u32::MAX,
    ensures
        forall|r: int| 0 <= r < kept_matches(items, got).len() ==> handed_out(
            items,
            #[trigger] kept_matches(items, got)[r],
            got,
        ),
    decreases got.len(),
{
    if got.len() > 0 {
        let head = got.drop_last();
        let before = kept_matches(items, head);
        let out = kept_matches(items, got);
        lemma_kept_matches_come_from(items, head);
        assert forall|r: int| 0 <= r < out.len() implies handed_out(items, #[trigger] out[r], got) by {
            if r < before.len() {
                assert(out[r] == before[r]);
                let k = choose|k: int| came_from(items, before[r], head, k);
                assert(head[k] == got[k]);
                assert(came_from(items, out[r], got, k));
            } else {
                let m = got.last()->0;
                let w = choose|i: int| is_item(items, i, m.index, m.bytes@);
                lemma_first_item_exists(items, w, m.index, m.bytes@);
                assert(came_from(items, out[r], got, got.len() - 1));
            }
        }
    }
}

/// Where an item with an identity and payload is stored, one place is the
/// first of them.
pub proof fn lemma_first_item_exists(items: Seq<NucleoDartString>, i: int, identity: u32, bytes: Seq<u8>)
    requires
        is_item(items, i, identity, bytes),
    ensures
        is_first_item(items, first_item(items, identity, bytes), identity, bytes),
        0 <= first_item(items, identity, bytes) <= i,
    decreases i,
{
    if exists|k: int| 0 <= k < i && is_item(items, k, identity, bytes) {
        let k = choose|k: int| 0 <= k < i && is_item(items, k, identity, bytes);
        lemma_first_item_exists(items, k, identity, bytes);
    } else {
        assert(is_first_item(items, i, identity, bytes));
        lemma_first_item_is_one(items, i, first_item(items, identity, bytes), identity, bytes);
    }
}

/// No more matches are kept than were handed out.
pub proof fn lemma_kept_matches_grow(items: Seq<NucleoDartString>, got: Seq<Option<NucleoDartMatch>>)
    ensures
        kept_matches(items, got).len() <= got.len(),
    decreases got.len(),
{
    if got.len() > 0 {
        lemma_kept_matches_grow(items, got.drop_last());
    }
}

/// Builds a snapshot from what an engine handed out: per store index an
/// item or nothing, and per rank a match with its item or nothing. The
/// result counts what was passed over.
pub fn assemble(items: &Vec<Option<NucleoDartString>>, found: &Vec<Option<NucleoDartMatch>>) -> (r: Capture)
    ensures
        r.snapshot.wf(),
        r.snapshot.items().len() == kept_items(items@).len(),
        forall|i: int| 0 <= i < r.snapshot.items().len() ==> (#[trigger] r.snapshot.items()[i]).index == kept_items(
            items@,
        )[i].index && r.snapshot.items()[i].bytes@ == kept_items(items@)[i].bytes@,
        r.snapshot.matches() == kept_matches(r.snapshot.items(), found@),
        r.snapshot.items().len() + r.items_passed_over == items@.len(),
        r.snapshot.matches().len() + r.matches_passed_over == found@.len(),
        forall|i: int| 0 <= i < r.snapshot.items().len() ==> (#[trigger] items@[i]) is Some
            && r.snapshot.items()[i].index == items@[i]->0.index
            && r.snapshot.items()[i].bytes@ == items@[i]->0.bytes@,
        forall|rank: int| 0 <= rank < r.snapshot.matches().len() ==> handed_out(
            r.snapshot.items(),
            #[trigger] r.snapshot.matches()[rank],
            found@,
        ),
{
    let mut out = SnapshotHandle::empty();
    let mut k: usize = 0;
    while k < items.len()
        invariant
            out.wf(),
            k <= items.len(),
            out.matches().len() == 0,
            out.items().len() == kept_items(items@.take(k as int)).len(),
            forall|i: int| 0 <= i < out.items().len() ==> (#[trigger] out.items()[i]).index == kept_items(
                items@.take(k as int),
            )[i].index && out.items()[i].bytes@ == kept_items(items@.take(k as int))[i].bytes@,
        decreases items.len() - k,
    {
        proof {
            assert(items@.take(k + 1).drop_last() =~= items@.take(k as int));
        }
        proof {
            lemma_kept_items_grow(items@.take(k as int));
        }
        if out.items.len() == k {
            match &items[k] {
                Some(item) => {
                    out.push_item(NucleoDartString { index: item.index, bytes: copy_bytes(&item.bytes) });
                },
                None => {},
            }
        }
        k += 1;
    }
    proof {
        assert(items@.take(k as int) =~= items@);
        lemma_kept_items_keep_place(items@);
    }
    let ghost stored = out.items();
    let mut n: usize = 0;
    while n < found.len()
        invariant
            out.wf(),
            n <= found.len(),
            out.items() == stored,
            out.matches() == kept_matches(stored, found@.take(n as int)),
        decreases found.len() - n,
    {
        let ghost before = out.matches();
        proof {
            assert(found@.take(n + 1).drop_last() =~= found@.take(n as int));
        }
        match &found[n] {
            Some(m) => {
                let ranked = out.push_match(m.score, m.index, &m.bytes);
                proof {
                    if ranked {
                        let last = out.matches().last();
                        let first = first_item(stored, m.index, m.bytes@);
                        lemma_first_item_is_one(stored, last.idx as int, first, m.index, m.bytes@);
                        assert(out.matches() =~= before.push(NucleoDartMMatch { score: m.score, idx: first as u32 }));
                    }
                }
            },
            None => {},
        }
        n += 1;
    }
    proof {
        assert(found@.take(n as int) =~= found@);
        lemma_kept_matches_grow(stored, found@);
        lemma_kept_matches_come_from(stored, found@);
    }
    let items_passed_over: usize = items.len() - out.items.len();
    let matches_passed_over: usize = found.len() - out.matches.len();
    Capture { snapshot: out, items_passed_over, matches_passed_over }
}

/// A snapshot never holds more matches than items, and the item behind every
/// match is one of the stored items.
pub proof fn lemma_matches_within_items(s: SnapshotHandle, rank: int)
    requires
        s.wf(),
        0 <= rank < s.matches().len(),
    ensures
        s.matches().len() <= s.items().len(),
        exists|i: int| 0 <= i < s.items().len() && #[trigger] s.items()[i] == s.matched_item(rank),
{
    let i = s.matches()[rank].idx as int;
    assert(s.items()[i] == s.matched_item(rank));
}

impl SnapshotHandle {
    /// The stored item at a store index, lent from the snapshot; nothing
    /// past the end.
    pub fn item_at(&self, index: u32) -> (r: Option<&NucleoDartString>)
        requires
            self.wf(),
        ensures
            r is Some <==> index < self.items().len(),
            r matches Some(item) ==> *item == self.items()[index as int],
    {
        if (index as usize) < self.items.len() {
            Some(&self.items[index as usize])
        } else {
            None
        }
    }

    /// The scores and items of the half-open rank range from `start` to
    /// `end`, in rank order, lent from the snapshot. An empty range gives an
    /// empty list; a range that reaches past the last match gives the range
    /// error for the first rank that is not there.
    pub fn matched_range(&self, start: u32, end: u32) -> (r: Result<Vec<(u32, &NucleoDartString)>, IndexOutOfRange>)
        requires
            self.wf(),
        ensures
            r is Ok <==> (start >= end || end <= self.matches().len()),
            r matches Ok(v) ==> {
                &&& v@.len() == if start < end { end - start } else { 0 }
                &&& forall|k: int| 0 <= k < v@.len() ==> (#[trigger] v@[k]).0 == self.matches()[start + k].score
                        && *v@[k].1 == self.matched_item(start + k)
            },
            r matches Err(e) ==> e.count == self.matches().len()
                && e.index == if start >= e.count { start } else { e.count },
    {
        let count: u32 = self.matches.len() as u32;
        let mut out: Vec<(u32, &NucleoDartString)> = Vec::new();
        if start >= end {
            return Ok(out);
        }
        if end > count {
            let first: u32 = if start >= count { start } else { count };
            return Err(IndexOutOfRange { index: first, count });
        }
        let mut rank: u32 = start;
        while rank < end
            invariant
                self.wf(),
                start <= rank <= end,
                end <= self.matches().len(),
                out@.len() == rank - start,
                forall|k: int| 0 <= k < out@.len() ==> (#[trigger] out@[k]).0 == self.matches()[start + k].score
                    && *out@[k].1 == self.matched_item(start + k),
            decreases end - rank,
        {
            let m = &self.matches[rank as usize];
            out.push((m.score, &self.items[m.idx as usize]));
            rank += 1;
        }
        Ok(out)
    }

    /// The score at a rank and the item that the match there names, lent
    /// from the snapshot; nothing past the last match.
    pub fn matched_at(&self, rank: u32) -> (r: Option<(u32, &NucleoDartString)>)
        requires
            self.wf(),
        ensures
            r is Some <==> rank < self.matches().len(),
            r matches Some(found) ==> found.0 == self.matches()[rank as int].score
                && *found.1 == self.matched_item(rank as int),
    {
        if (rank as usize) < self.matches.len() {
            let m = &self.matches[rank as usize];
            Some((m.score, &self.items[m.idx as usize]))
        } else {
            None
        }
    }
}

/// The number of items in the snapshot.
pub fn nucleo_dart_snapshot_get_item_count(s: &SnapshotHandle) -> (r: u32)
    requires
        s.wf(),
    ensures
        r == s.items().len(),
{
    s.items.len() as u32
}

/// The number of matches in the snapshot; never more than the items.
pub fn nucleo_dart_snapshot_get_matched_item_count(s: &SnapshotHandle) -> (r: u32)
    requires
        s.wf(),
    ensures
        r == s.matches().len(),
        r <= s.items().len(),
{
    s.matches.len() as u32
}

/// The stored item at a store index, or the range error past the end.
pub fn nucleo_dart_snapshot_get_item(s: &SnapshotHandle, index: u32) -> (r: Result<NucleoDartString, IndexOutOfRange>)
    requires
        s.wf(),
    ensures
        r is Ok <==> index < s.items().len(),
        r matches Ok(item) ==> item.index == s.items()[index as int].index
            && item.bytes@ == s.items()[index as int].bytes@,
        r matches Err(e) ==> e.index == index && e.count == s.items().len(),
{
    if (index as usize) < s.items.len() {
        let item = &s.items[index as usize];
        Ok(NucleoDartString { index: item.index, bytes: copy_bytes(&item.bytes) })
    } else {
        Err(IndexOutOfRange { index, count: s.items.len() as u32 })
    }
}

/// The match at a rank, best first, with the item it names; or the range
/// error past the last match.
pub fn nucleo_dart_snapshot_get_matched_item(s: &SnapshotHandle, rank: u32) -> (r: Result<NucleoDartMatch, IndexOutOfRange>)
    requires
        s.wf(),
    ensures
        r is Ok <==> rank < s.matches().len(),
        r matches Ok(m) ==> m.score == s.matches()[rank as int].score
            && m.index == s.matched_item(rank as int).index
            && m.bytes@ == s.matched_item(rank as int).bytes@,
        r matches Err(e) ==> e.index == rank && e.count == s.matches().len(),
{
    if (rank as usize) < s.matches.len() {
        let m = &s.matches[rank as usize];
        let item = &s.items[m.idx as usize];
        Ok(NucleoDartMatch { score: m.score, index: item.index, bytes: copy_bytes(&item.bytes) })
    } else {
        Err(IndexOutOfRange { index: rank, count: s.matches.len() as u32 })
    }
}

/// The matches of the half-open rank range from `start` to `end`, in rank
/// order. An empty range gives an empty list; a range that reaches past the
/// last match gives the range error for the first rank that is not there.
pub fn nucleo_dart_snapshot_get_matched_items(s: &SnapshotHandle, start: u32, end: u32) -> (r: Result<Vec<NucleoDartMatch>, IndexOutOfRange>)
    requires
        s.wf(),
    ensures
        r is Ok <==> (start >= end || end <= s.matches().len()),
        r matches Ok(v) ==> {
            &&& v@.len() == if start < end { end - start } else { 0 }
            &&& forall|k: int| 0 <= k < v@.len() ==> {
                &&& (#[trigger] v@[k]).score == s.matches()[start + k].score
                &&& v@[k].index == s.matched_item(start + k).index
                &&& v@[k].bytes@ == s.matched_item(start + k).bytes@
            }
        },
        r matches Err(e) ==> e.count == s.matches().len()
            && e.index == if start >= e.count { start } else { e.count },
{
    let count: u32 = s.matches.len() as u32;
    let mut out: Vec<NucleoDartMatch> = Vec::new();
    if start >= end {
        return Ok(out);
    }
    if end > count {
        let first: u32 = if start >= count { start } else { count };
        return Err(IndexOutOfRange { index: first, count });
    }
    let mut rank: u32 = start;
    while rank < end
        invariant
            s.wf(),
            start <= rank <= end,
            end <= s.matches().len(),
            out@.len() == rank - start,
            forall|k: int| 0 <= k < out@.len() ==> {
                &&& (#[trigger] out@[k]).score == s.matches()[start + k].score
                &&& out@[k].index == s.matched_item(start + k).index
                &&& out@[k].bytes@ == s.matched_item(start + k).bytes@
            },
        decreases end - rank,
    {
        let m = &s.matches[rank as usize];
        let item = &s.items[m.idx as usize];
        out.push(NucleoDartMatch { score: m.score, index: item.index, bytes: copy_bytes(&item.bytes) });
        rank += 1;
    }
    Ok(out)
}

} // verus!
