//! Merging the ranked matches of two snapshots by item identity.

use std::collections::HashMap;
use vstd::prelude::*;
use crate::snapshot::SnapshotHandle;
use crate::types::{JoinSide, NucleoDartMMatch, NucleoDartSnapshot2, NucleoDartSnapshot2Match};

verus! {

broadcast use vstd::std_specs::hash::group_hash_axioms;

/// Why two snapshots could not be joined.
#[derive(Debug, Clone, Copy, PartialEq, Eq, Structural)]
pub enum JoinError {
    /// One of the snapshots holds two matches for one identity: `side` says
    /// which, and `rank` is its first rank whose identity was already seen
    /// at a better rank.
    DuplicateIdentity { side: JoinSide, identity: u32, rank: u32 },
}

/// A match seen during a join: whose it is, how good, and where it stands.
pub struct Ranked {
    pub identity: u32,
    pub score: u32,
    pub rank: u32,
    pub side: JoinSide,
}

/// The matches of a snapshot in rank order, labelled with the side they are on.
pub open spec fn ranked(s: SnapshotHandle, side: JoinSide) -> Seq<Ranked> {
    Seq::new(
        s.matches().len(),
        |r: int| Ranked { identity: s.identities()[r], score: s.matches()[r].score, rank: r as u32, side },
    )
}

/// Whether no identity occurs twice.
pub open spec fn distinct(acc: Seq<Ranked>) -> bool {
    forall|p: int, q: int| 0 <= p < q < acc.len() ==> (#[trigger] acc[p]).identity != (#[trigger] acc[q]).identity
}

/// Whether some entry carries the identity.
pub open spec fn holds(acc: Seq<Ranked>, identity: u32) -> bool {
    exists|p: int| 0 <= p < acc.len() && (#[trigger] acc[p]).identity == identity
}

/// A place where the identity stands.
pub open spec fn place_of(acc: Seq<Ranked>, identity: u32) -> int {
    choose|p: int| 0 <= p < acc.len() && (#[trigger] acc[p]).identity == identity
}

/// Merges one match into a list: a new identity is appended; a known one keeps
/// its place, and its entry is replaced only by a strictly higher score.
pub open spec fn merge_one(acc: Seq<Ranked>, m: Ranked) -> Seq<Ranked> {
    if holds(acc, m.identity) {
        let p = place_of(acc, m.identity);
        if m.score > acc[p].score {
            acc.update(p, m)
        } else {
            acc
        }
    } else {
        acc.push(m)
    }
}

/// Merges a list of matches, in order, into a list.
pub open spec fn merge_all(acc: Seq<Ranked>, ms: Seq<Ranked>) -> Seq<Ranked>
    decreases ms.len(),
{
    if ms.len() == 0 {
        acc
    } else {
        merge_one(merge_all(acc, ms.drop_last()), ms.last())
    }
}

/// The join of two snapshots: the matches of the first, with those of the
/// second merged in.
pub open spec fn spec_join(a: SnapshotHandle, b: SnapshotHandle) -> Seq<Ranked> {
    merge_all(ranked(a, JoinSide::First), ranked(b, JoinSide::Second))
}

/// Whether a list holds the identity with a score at least the given one.
pub open spec fn covered(out: Seq<Ranked>, identity: u32, score: u32) -> bool {
    exists|p: int| 0 <= p < out.len() && (#[trigger] out[p]).identity == identity && out[p].score >= score
}

/// What merging `ms` into `start` does: the entries of `start` keep their
/// places and identities, and one is replaced only by a strictly higher
/// score; every entry is one of `start` or one of `ms`; and every match of
/// `ms` finds its identity in the result with a score at least its own.
pub open spec fn merged_from(start: Seq<Ranked>, ms: Seq<Ranked>, out: Seq<Ranked>) -> bool {
    &&& distinct(out)
    &&& start.len() <= out.len() <= start.len() + ms.len()
    &&& forall|p: int| 0 <= p < start.len() ==> (#[trigger] out[p]).identity == start[p].identity
            && (out[p] == start[p] || out[p].score > start[p].score)
    &&& forall|p: int| 0 <= p < out.len() ==> (p < start.len() && #[trigger] out[p] == start[p]) || ms.contains(out[p])
    &&& forall|k: int| 0 <= k < ms.len() ==> covered(out, (#[trigger] ms[k]).identity, ms[k].score)
}

/// Merging one match keeps the identities distinct and the places of the
/// entries; the match's identity then stands in the list with a score at
/// least its own; every entry is an old one or the match.
pub proof fn lemma_merge_one(acc: Seq<Ranked>, m: Ranked)
    requires
        distinct(acc),
    ensures
        merged_from(acc, seq![m], merge_one(acc, m)),
{
    let out = merge_one(acc, m);
    let one = seq![m];
    assert(one[0] == m);
    if holds(acc, m.identity) {
        let p = place_of(acc, m.identity);
        assert(out[p].identity == one[0].identity && out[p].score >= one[0].score);
        assert forall|x: int, y: int| 0 <= x < y < out.len() implies (#[trigger] out[x]).identity != (#[trigger] out[y]).identity by {
            assert(acc[x].identity != acc[y].identity);
        }
        assert forall|q: int| 0 <= q < out.len() implies (q < acc.len() && #[trigger] out[q] == acc[q]) || one.contains(out[q]) by {
            if out[q] != acc[q] {
                assert(one[0] == out[q]);
            }
        }
    } else {
        let p = acc.len() as int;
        assert(out[p].identity == one[0].identity && out[p].score >= one[0].score);
        assert forall|x: int, y: int| 0 <= x < y < out.len() implies (#[trigger] out[x]).identity != (#[trigger] out[y]).identity by {
            if y < acc.len() {
                assert(acc[x].identity != acc[y].identity);
            } else {
                assert(acc[x].identity == out[x].identity);
            }
        }
        assert forall|q: int| 0 <= q < out.len() implies (q < acc.len() && #[trigger] out[q] == acc[q]) || one.contains(out[q]) by {
            if q >= acc.len() {
                assert(one[0] == out[q]);
            }
        }
    }
}

/// Merging one match adds its identity to those that the list holds, and
/// no other.
pub proof fn lemma_merge_one_holds(acc: Seq<Ranked>, m: Ranked)
    requires
        distinct(acc),
    ensures
        forall|k: u32| holds(merge_one(acc, m), k) <==> (holds(acc, k) || k == m.identity),
{
    let out = merge_one(acc, m);
    assert forall|k: u32| holds(out, k) <==> (holds(acc, k) || k == m.identity) by {
        if holds(out, k) {
            let w = choose|w: int| 0 <= w < out.len() && (#[trigger] out[w]).identity == k;
            if w < acc.len() && k != m.identity {
                assert(acc[w].identity == k);
            }
        }
        if holds(acc, k) {
            let w = choose|w: int| 0 <= w < acc.len() && (#[trigger] acc[w]).identity == k;
            if holds(acc, m.identity) && w == place_of(acc, m.identity) {
                assert(out[w].identity == k);
            } else {
                assert(out[w].identity == k);
            }
        }
        if k == m.identity {
            if holds(acc, m.identity) {
                let p = place_of(acc, m.identity);
                assert(out[p].identity == k);
            } else {
                assert(out[acc.len() as int].identity == k);
            }
        }
    }
}

/// Among distinct identities, the place of an identity is the one place
/// where it stands.
pub proof fn lemma_place_is_one(acc: Seq<Ranked>, p: int, identity: u32)
    requires
        distinct(acc),
        0 <= p < acc.len(),
        acc[p].identity == identity,
    ensures
        holds(acc, identity),
        place_of(acc, identity) == p,
{
    let q = place_of(acc, identity);
    if q < p {
        assert(acc[q].identity != acc[p].identity);
    } else if p < q {
        assert(acc[p].identity != acc[q].identity);
    }
}

/// The matches of a snapshot without a repeated identity are distinct, and
/// hold just the snapshot's matched identities.
pub proof fn lemma_ranked_distinct(s: SnapshotHandle, side: JoinSide)
    requires
        s.identities().no_duplicates(),
    ensures
        distinct(ranked(s, side)),
        forall|k: u32| holds(ranked(s, side), k) <==> s.identities().contains(k),
{
    let ids = s.identities();
    let acc = ranked(s, side);
    assert forall|x: int, y: int| 0 <= x < y < acc.len() implies (#[trigger] acc[x]).identity != (#[trigger] acc[y]).identity by {
        assert(ids[x] != ids[y]);
    }
    assert forall|k: u32| holds(acc, k) <==> ids.contains(k) by {
        if ids.contains(k) {
            let w = choose|w: int| 0 <= w < ids.len() && #[trigger] ids[w] == k;
            assert(acc[w].identity == k);
        }
        if holds(acc, k) {
            let w = choose|w: int| 0 <= w < acc.len() && (#[trigger] acc[w]).identity == k;
            assert(ids[w] == k);
        }
    }
}

/// Merging a list of matches into a list of distinct identities gives what
/// `merged_from` says.
pub proof fn lemma_merge_all(start: Seq<Ranked>, ms: Seq<Ranked>)
    requires
        distinct(start),
    ensures
        merged_from(start, ms, merge_all(start, ms)),
    decreases ms.len(),
{
    let out = merge_all(start, ms);
    if ms.len() == 0 {
        assert forall|p: int| 0 <= p < out.len() implies (p < start.len() && #[trigger] out[p] == start[p]) || ms.contains(out[p]) by {}
    } else {
        let head = ms.drop_last();
        let m = ms.last();
        let mid = merge_all(start, head);
        lemma_merge_all(start, head);
        lemma_merge_one(mid, m);
        let one = seq![m];
        assert(one[0] == m);
        assert forall|p: int| 0 <= p < start.len() implies (#[trigger] out[p]).identity == start[p].identity
            && (out[p] == start[p] || out[p].score > start[p].score) by {
            assert(out[p].identity == mid[p].identity && (out[p] == mid[p] || out[p].score > mid[p].score));
            assert(mid[p].identity == start[p].identity && (mid[p] == start[p] || mid[p].score > start[p].score));
        }
        assert forall|p: int| 0 <= p < out.len() implies (p < start.len() && #[trigger] out[p] == start[p]) || ms.contains(out[p]) by {
            if p < mid.len() && out[p] == mid[p] {
                if !(p < start.len() && mid[p] == start[p]) {
                    assert(head.contains(mid[p]));
                    let w = choose|w: int| 0 <= w < head.len() && head[w] == mid[p];
                    assert(ms[w] == out[p]);
                }
            } else {
                assert(one.contains(out[p]));
                assert(out[p] == m);
                assert(ms[ms.len() - 1] == out[p]);
            }
        }
        assert forall|k: int| 0 <= k < ms.len() implies covered(out, (#[trigger] ms[k]).identity, ms[k].score) by {
            if k < head.len() {
                assert(head[k] == ms[k]);
                assert(covered(mid, head[k].identity, head[k].score));
                let p = choose|p: int| 0 <= p < mid.len() && (#[trigger] mid[p]).identity == head[k].identity
                    && mid[p].score >= head[k].score;
                assert(out[p].identity == mid[p].identity && (out[p] == mid[p] || out[p].score > mid[p].score));
            } else {
                assert(covered(out, one[0].identity, one[0].score));
            }
        }
    }
}

/// The join of two snapshots, the first without a repeated identity, holds
/// exactly one entry per identity; each entry is a match of one of the two
/// snapshots; every match of either finds its identity in the join with a
/// score at least its own, so each entry holds the best score of its
/// identity; and the matches of the first snapshot keep their places, each
/// giving way only to a match of the second with a strictly higher score.
pub proof fn lemma_join_one_best_entry_per_identity(a: SnapshotHandle, b: SnapshotHandle)
    requires
        a.wf(),
        b.wf(),
        a.identities().no_duplicates(),
    ensures
        distinct(spec_join(a, b)),
        a.matches().len() <= spec_join(a, b).len() <= a.matches().len() + b.matches().len(),
        forall|p: int| 0 <= p < a.matches().len() ==> (#[trigger] spec_join(a, b)[p]).identity == a.identities()[p]
            && (spec_join(a, b)[p] == ranked(a, JoinSide::First)[p]
                || (spec_join(a, b)[p].side == JoinSide::Second && spec_join(a, b)[p].score > a.matches()[p].score)),
        forall|p: int| 0 <= p < spec_join(a, b).len() ==> ranked(a, JoinSide::First).contains(#[trigger] spec_join(a, b)[p])
            || ranked(b, JoinSide::Second).contains(spec_join(a, b)[p]),
        forall|k: int| 0 <= k < a.matches().len() ==> covered(
            spec_join(a, b),
            #[trigger] a.identities()[k],
            a.matches()[k].score,
        ),
        forall|k: int| 0 <= k < b.matches().len() ==> covered(
            spec_join(a, b),
            #[trigger] b.identities()[k],
            b.matches()[k].score,
        ),
{
    let first = ranked(a, JoinSide::First);
    let second = ranked(b, JoinSide::Second);
    let out = spec_join(a, b);
    let ids = a.identities();
    lemma_ranked_distinct(a, JoinSide::First);
    lemma_merge_all(first, second);
    assert forall|p: int| 0 <= p < a.matches().len() implies (#[trigger] out[p]).identity == ids[p] && (out[p]
        == first[p] || (out[p].side == JoinSide::Second && out[p].score > a.matches()[p].score)) by {
        assert(out[p].identity == first[p].identity && (out[p] == first[p] || out[p].score > first[p].score));
        if out[p] != first[p] {
            assert(second.contains(out[p]));
            let w = choose|w: int| 0 <= w < second.len() && second[w] == out[p];
            assert(second[w].side == JoinSide::Second);
        }
    }
    assert forall|p: int| 0 <= p < out.len() implies first.contains(#[trigger] out[p]) || second.contains(out[p]) by {
        if p < first.len() && out[p] == first[p] {
            assert(first.contains(out[p]));
        }
    }
    assert forall|k: int| 0 <= k < a.matches().len() implies covered(out, #[trigger] ids[k], a.matches()[k].score) by {
        assert(out[k].identity == first[k].identity && (out[k] == first[k] || out[k].score > first[k].score));
        assert(first[k].identity == ids[k] && first[k].score == a.matches()[k].score);
    }
    assert forall|k: int| 0 <= k < b.matches().len() implies covered(
        out,
        #[trigger] b.identities()[k],
        b.matches()[k].score,
    ) by {
        assert(covered(out, second[k].identity, second[k].score));
    }
}

/// The entry of a merged list that stands for a match.
pub open spec fn entry_of(m: Ranked) -> NucleoDartSnapshot2Match {
    NucleoDartSnapshot2Match { mtch: NucleoDartMMatch { score: m.score, idx: m.rank }, handle: m.side }
}

/// The merged list that stands for a list of matches.
pub open spec fn entries_of(acc: Seq<Ranked>) -> Seq<NucleoDartSnapshot2Match> {
    Seq::new(acc.len(), |p: int| entry_of(acc[p]))
}

/// The first rank of `ids` whose identity already stands at a better rank.
pub open spec fn first_repeat(ids: Seq<u32>, rank: int) -> bool {
    &&& 0 <= rank < ids.len()
    &&& ids.take(rank).no_duplicates()
    &&& ids.take(rank).contains(ids[rank])
}

/// Taking one more identity that was not among those taken so far keeps
/// them free of repeats, and adds just that identity.
pub proof fn lemma_take_one_more(ids: Seq<u32>, i: int)
    requires
        0 <= i < ids.len(),
        ids.take(i).no_duplicates(),
        !ids.take(i).contains(ids[i]),
    ensures
        ids.take(i + 1).no_duplicates(),
        forall|k: u32| ids.take(i + 1).contains(k) <==> (ids.take(i).contains(k) || k == ids[i]),
{
    let prev = ids.take(i);
    let next = ids.take(i + 1);
    assert(next =~= prev.push(ids[i]));
    assert forall|k: u32| next.contains(k) <==> (prev.contains(k) || k == ids[i]) by {
        if next.contains(k) {
            let w = choose|w: int| 0 <= w < next.len() && #[trigger] next[w] == k;
            if w < i {
                assert(prev[w] == k);
            }
        }
        if prev.contains(k) {
            let w = choose|w: int| 0 <= w < prev.len() && #[trigger] prev[w] == k;
            assert(next[w] == k);
        }
        if k == ids[i] {
            assert(next[i] == k);
        }
    }
    assert forall|p: int, q: int| 0 <= p < next.len() && 0 <= q < next.len() && p != q implies #[trigger] next[p]
        != #[trigger] next[q] by {
        if p < i && q < i {
            assert(prev[p] != prev[q]);
        } else if p < i {
            assert(prev[p] == next[p]);
            assert(prev.contains(next[p]));
        } else if q < i {
            assert(prev[q] == next[q]);
            assert(prev.contains(next[q]));
        }
    }
}

/// A list with a first repeat is not free of repeats.
pub proof fn lemma_first_repeat_is_a_repeat(ids: Seq<u32>, rank: int)
    requires
        first_repeat(ids, rank),
    ensures
        !ids.no_duplicates(),
{
    let head = ids.take(rank);
    let w = choose|w: int| 0 <= w < head.len() && #[trigger] head[w] == ids[rank];
    assert(ids[w] == ids[rank] && w != rank);
}

/// Joins two snapshots into one list with one entry per identity, holding
/// the best score seen for it; on equal scores the match of the first
/// snapshot stays. The matches of the first snapshot keep their order, and
/// the identities that only the second has follow in its order. Two matches
/// for one identity in one snapshot are an error, which names the first
/// snapshot where both have such a pair.
pub fn nucleo_dart_join_snapshot(a: &SnapshotHandle, b: &SnapshotHandle) -> (r: Result<NucleoDartSnapshot2, JoinError>)
    requires
        a.wf(),
        b.wf(),
    ensures
        r is Ok <==> a.identities().no_duplicates() && b.identities().no_duplicates(),
        r matches Ok(joined) ==> joined.matches@ == entries_of(spec_join(*a, *b)),
        r matches Err(JoinError::DuplicateIdentity { side, identity, rank }) ==> match side {
            JoinSide::First => first_repeat(a.identities(), rank as int) && identity == a.identities()[rank as int],
            JoinSide::Second => a.identities().no_duplicates() && first_repeat(b.identities(), rank as int)
                && identity == b.identities()[rank as int],
        },
{
    let mut result: Vec<NucleoDartSnapshot2Match> = Vec::new();
    let mut seen: HashMap<u32, usize> = HashMap::new();
    let ghost mut acc: Seq<Ranked> = Seq::empty();
    let count_a: usize = a.matched_len();
    let count_b: usize = b.matched_len();

    let mut i: usize = 0;
    while i < count_a
        invariant
            a.wf(),
            count_a == a.matches().len(),
            i <= count_a,
            acc == ranked(*a, JoinSide::First).take(i as int),
            result@ == entries_of(acc),
            a.identities().take(i as int).no_duplicates(),
            forall|k: u32| seen@.contains_key(k) <==> a.identities().take(i as int).contains(k),
            forall|k: u32| #[trigger] seen@.contains_key(k) ==> seen@[k] < i && a.identities()[seen@[k] as int] == k,
        decreases count_a - i,
    {
        let identity: u32 = a.identity_at(i);
        let score: u32 = a.score_at(i);
        if seen.contains_key(&identity) {
            proof {
                lemma_first_repeat_is_a_repeat(a.identities(), i as int);
            }
            return Err(JoinError::DuplicateIdentity { side: JoinSide::First, identity, rank: i as u32 });
        }
        let ghost m = ranked(*a, JoinSide::First)[i as int];
        result.push(NucleoDartSnapshot2Match { mtch: NucleoDartMMatch { score, idx: i as u32 }, handle: JoinSide::First });
        seen.insert(identity, result.len() - 1);
        proof {
            lemma_take_one_more(a.identities(), i as int);
            assert(ranked(*a, JoinSide::First).take(i + 1) =~= acc.push(m));
            acc = acc.push(m);
            assert(result@ =~= entries_of(acc));
        }
        i += 1;
    }
    proof {
        assert(a.identities().take(i as int) =~= a.identities());
        assert(ranked(*a, JoinSide::First).take(i as int) =~= ranked(*a, JoinSide::First));
        lemma_ranked_distinct(*a, JoinSide::First);
    }

    let ghost second = ranked(*b, JoinSide::Second);
    let mut met: HashMap<u32, usize> = HashMap::new();
    let mut j: usize = 0;
    while j < count_b
        invariant
            a.wf(),
            b.wf(),
            b.identities().take(j as int).no_duplicates(),
            forall|k: u32| met@.contains_key(k) <==> b.identities().take(j as int).contains(k),
            a.identities().no_duplicates(),
            count_a == a.matches().len(),
            count_b == b.matches().len(),
            second == ranked(*b, JoinSide::Second),
            j <= count_b,
            acc == merge_all(ranked(*a, JoinSide::First), second.take(j as int)),
            result@ == entries_of(acc),
            distinct(acc),
            forall|k: u32| seen@.contains_key(k) <==> holds(acc, k),
            forall|k: u32| #[trigger] seen@.contains_key(k) ==> seen@[k] < acc.len() && acc[seen@[k] as int].identity == k,
        decreases count_b - j,
    {
        let identity: u32 = b.identity_at(j);
        let score: u32 = b.score_at(j);
        if met.contains_key(&identity) {
            proof {
                lemma_first_repeat_is_a_repeat(b.identities(), j as int);
            }
            return Err(JoinError::DuplicateIdentity { side: JoinSide::Second, identity, rank: j as u32 });
        }
        met.insert(identity, j);
        proof {
            lemma_take_one_more(b.identities(), j as int);
        }
        let ghost m = second[j as int];
        let ghost before = acc;
        let entry = NucleoDartSnapshot2Match { mtch: NucleoDartMMatch { score, idx: j as u32 }, handle: JoinSide::Second };
        proof {
            assert(second.take(j + 1).drop_last() =~= second.take(j as int));
            assert(second.take(j + 1).last() == m);
            assert(merge_all(ranked(*a, JoinSide::First), second.take(j + 1)) == merge_one(before, m));
            assert(entry == entry_of(m));
        }
        let place: Option<usize> = match seen.get(&identity) {
            Some(p) => Some(*p),
            None => None,
        };
        let ghost seen_before = seen@;
        proof {
            lemma_merge_one(before, m);
            lemma_merge_one_holds(before, m);
        }
        match place {
            Some(p) => {
                proof {
                    lemma_place_is_one(before, p as int, identity);
                }
                if score > result[p].mtch.score {
                    result.set(p, entry);
                    proof {
                        acc = before.update(p as int, m);
                        assert(result@ =~= entries_of(acc));
                    }
                }
                assert(acc == merge_one(before, m));
            },
            None => {
                result.push(entry);
                seen.insert(identity, result.len() - 1);
                proof {
                    assert(!holds(before, identity));
                    acc = before.push(m);
                    assert(result@ =~= entries_of(acc));
                    assert(acc == merge_one(before, m));
                }
            },
        }
        proof {
            assert forall|k: u32| seen@.contains_key(k) <==> holds(acc, k) by {
                assert(holds(merge_one(before, m), k) <==> (holds(before, k) || k == m.identity));
                assert(seen_before.contains_key(k) <==> holds(before, k));
            }
        }
        j += 1;
    }
    proof {
        assert(second.take(j as int) =~= second);
        assert(b.identities().take(j as int) =~= b.identities());
    }
    Ok(NucleoDartSnapshot2 { matches: result })
}

/// Releases a merged list.
pub fn nucleo_dart_destroy_join(joined: NucleoDartSnapshot2) {
}

} // verus!
