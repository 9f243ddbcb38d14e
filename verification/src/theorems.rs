//! What holds of every classification.
//!
//! The statements speak of walks as sequences of entries, one per visited
//! commit, newest first, and of the classification of the history sets that
//! the walks fill. A commit identifier names one commit, so a pair of walks
//! never lists an identifier twice: that is `distinct_commits` of the two walks
//! laid end to end.

use vstd::prelude::*;
use crate::object_id::{CommitId, PatchId};
use crate::history::{Entry, has_patch, put, position, lemma_put, distinct_patches, as_map};
use crate::compare::{WhichBranch, classification, recorded, report_first, report_second};

verus! {

/// No commit occurs in two entries.
pub open spec fn distinct_commits(pairs: Seq<Entry>) -> bool {
    forall|i: int, j: int|
        0 <= i < j < pairs.len() ==> (#[trigger] pairs[i]).1 != (#[trigger] pairs[j]).1
}

/// The visit at `i` is the last of the walk with its fingerprint: the one whose
/// commit the history set keeps.
pub open spec fn retained(walk: Seq<Entry>, i: int) -> bool {
    0 <= i < walk.len() && forall|j: int| i < j < walk.len() ==> (#[trigger] walk[j]).0 != walk[i].0
}

/// Exactly one entry of `result` speaks of `commit`, and it carries `tag`.
pub open spec fn classified_once(
    result: Seq<(WhichBranch, CommitId)>,
    tag: WhichBranch,
    commit: CommitId,
) -> bool {
    exists|k: int|
        0 <= k < result.len() && #[trigger] result[k] == (tag, commit) && forall|m: int|
            0 <= m < result.len() && (#[trigger] result[m]).1 == commit ==> m == k
}

/// No entry of `result` speaks of `commit`.
pub open spec fn unclassified(result: Seq<(WhichBranch, CommitId)>, commit: CommitId) -> bool {
    forall|k: int| 0 <= k < result.len() ==> (#[trigger] result[k]).1 != commit
}

/// The tag under which the first branch's entry with fingerprint `patch` is
/// reported.
pub open spec fn first_tag(second: Seq<Entry>, patch: PatchId) -> WhichBranch {
    if has_patch(second, patch) {
        WhichBranch::Both
    } else {
        WhichBranch::Branch1Only
    }
}

/// Whether some entry of `pairs` carries `commit`.
pub open spec fn has_commit(pairs: Seq<Entry>, commit: CommitId) -> bool {
    exists|i: int| 0 <= i < pairs.len() && (#[trigger] pairs[i]).1 == commit
}

/// `e` is the entry of a visit that the walk's history set keeps.
pub open spec fn kept(walk: Seq<Entry>, e: Entry) -> bool {
    exists|i: int| #[trigger] retained(walk, i) && walk[i] == e
}

spec fn reported_from(
    first: Seq<Entry>,
    second: Seq<Entry>,
    e: (WhichBranch, CommitId),
    j: int,
) -> bool {
    0 <= j < second.len() && !has_patch(first, second[j].0) && e == (
        WhichBranch::Branch2Only,
        second[j].1,
    )
}

spec fn reported(first: Seq<Entry>, second: Seq<Entry>, e: (WhichBranch, CommitId)) -> bool {
    exists|j: int| #[trigger] reported_from(first, second, e, j)
}

proof fn lemma_recorded_patches(walk: Seq<Entry>)
    ensures
        distinct_patches(recorded(walk)),
        forall|p: PatchId| has_patch(recorded(walk), p) <==> has_patch(walk, p),
    decreases walk.len(),
{
    let rec = recorded(walk);
    if walk.len() == 0 {
        assert forall|p: PatchId| has_patch(rec, p) <==> has_patch(walk, p) by {
            if has_patch(rec, p) {
                let i = position(rec, p);
            }
            if has_patch(walk, p) {
                let i = position(walk, p);
            }
        }
    } else {
        let rest = walk.drop_last();
        let last = walk.last();
        let n = rest.len() as int;
        let before = recorded(rest);
        lemma_recorded_patches(rest);
        lemma_put(before, last.0, last.1);
        assert(rec == put(before, last.0, last.1));
        assert forall|p: PatchId| has_patch(rec, p) <==> has_patch(walk, p) by {
            if has_patch(walk, p) {
                let i = position(walk, p);
                if i < n {
                    assert(rest[i].0 == p);
                }
            }
            if has_patch(rest, p) {
                let i = position(rest, p);
                assert(walk[i].0 == p);
            }
            if p == last.0 {
                assert(walk[n].0 == p);
            }
        }
    }
}

proof fn lemma_retained_prefix(walk: Seq<Entry>, i: int)
    requires
        walk.len() > 0,
        0 <= i < walk.len() - 1,
    ensures
        retained(walk, i) <==> retained(walk.drop_last(), i) && walk[i].0 != walk.last().0,
{
    let rest = walk.drop_last();
    let n = rest.len() as int;
    if retained(walk, i) {
        assert(walk[n].0 != walk[i].0);
        assert forall|j: int| i < j < rest.len() implies (#[trigger] rest[j]).0 != rest[i].0 by {
            assert(walk[j].0 != walk[i].0);
        }
    }
    if retained(rest, i) && walk[i].0 != walk.last().0 {
        assert forall|j: int| i < j < walk.len() implies (#[trigger] walk[j]).0 != walk[i].0 by {
            if j < n {
                assert(rest[j].0 != rest[i].0);
            }
        }
    }
}

proof fn lemma_recorded_keeps(walk: Seq<Entry>, i: int)
    requires
        retained(walk, i),
    ensures
        recorded(walk).contains(walk[i]),
    decreases walk.len(),
{
    let rec = recorded(walk);
    let rest = walk.drop_last();
    let last = walk.last();
    let n = rest.len() as int;
    let before = recorded(rest);
    lemma_recorded_patches(rest);
    lemma_put(before, last.0, last.1);
    if i == n {
        if has_patch(before, last.0) {
            assert(rec[position(before, last.0)] == last);
        } else {
            assert(rec[before.len() as int] == last);
        }
    } else {
        lemma_retained_prefix(walk, i);
        lemma_recorded_keeps(rest, i);
        let k = choose|k: int| 0 <= k < before.len() && before[k] == rest[i];
        if has_patch(before, last.0) {
            assert(before[position(before, last.0)].0 == last.0);
            assert(k != position(before, last.0));
        }
        assert(rec[k] == walk[i]);
    }
}

proof fn lemma_recorded_kept(walk: Seq<Entry>, k: int)
    requires
        0 <= k < recorded(walk).len(),
    ensures
        kept(walk, recorded(walk)[k]),
    decreases walk.len(),
{
    let rec = recorded(walk);
    if walk.len() > 0 {
        let rest = walk.drop_last();
        let last = walk.last();
        let n = rest.len() as int;
        let before = recorded(rest);
        lemma_recorded_patches(rest);
        lemma_put(before, last.0, last.1);
        if rec[k] == last {
            assert(retained(walk, n) && walk[n] == rec[k]);
        } else {
            assert(k < before.len() && before[k] == rec[k]);
            lemma_recorded_kept(rest, k);
            let i = choose|i: int| #[trigger] retained(rest, i) && rest[i] == before[k];
            assert(walk[i] == rec[k]);
            assert(rec[k].0 != last.0) by {
                if has_patch(before, last.0) {
                    let at = position(before, last.0);
                    assert(before[at].0 == last.0);
                    if k != at {
                        assert(before[k].0 != before[at].0);
                    }
                } else {
                    assert(before[k].0 != last.0);
                }
            }
            lemma_retained_prefix(walk, i);
            assert(retained(walk, i) && walk[i] == rec[k]);
        }
    }
}

/// A history set holds one entry for each fingerprint of its walk, and that
/// entry is the walk's last visit with the fingerprint.
pub proof fn lemma_recorded(walk: Seq<Entry>)
    ensures
        distinct_patches(recorded(walk)),
        forall|p: PatchId| has_patch(recorded(walk), p) <==> has_patch(walk, p),
        forall|i: int| retained(walk, i) ==> recorded(walk).contains(#[trigger] walk[i]),
        forall|k: int| 0 <= k < recorded(walk).len() ==> kept(walk, #[trigger] recorded(walk)[k]),
{
    lemma_recorded_patches(walk);
    assert forall|i: int| retained(walk, i) implies recorded(walk).contains(#[trigger] walk[i]) by {
        lemma_recorded_keeps(walk, i);
    }
    assert forall|k: int| 0 <= k < recorded(walk).len() implies kept(
        walk,
        #[trigger] recorded(walk)[k],
    ) by {
        lemma_recorded_kept(walk, k);
    }
}

/// A walk on which no fingerprint repeats is its own history set.
pub proof fn lemma_recorded_distinct(walk: Seq<Entry>)
    requires
        distinct_patches(walk),
    ensures
        recorded(walk) == walk,
    decreases walk.len(),
{
    if walk.len() == 0 {
        assert(recorded(walk) =~= walk);
    } else {
        let rest = walk.drop_last();
        let last = walk.last();
        lemma_recorded_distinct(rest);
        if has_patch(rest, last.0) {
            let i = position(rest, last.0);
            assert(walk[i].0 == rest[i].0);
            assert(walk[i].0 != walk[walk.len() - 1].0);
        }
        assert(recorded(walk) =~= walk);
    }
}

proof fn lemma_second_part(first: Seq<Entry>, second: Seq<Entry>)
    ensures
        forall|k: int|
            0 <= k < second.filter_map(report_second(first)).len() ==> reported(
                first,
                second,
                #[trigger] second.filter_map(report_second(first))[k],
            ),
        forall|j: int|
            0 <= j < second.len() && !has_patch(first, (#[trigger] second[j]).0)
                ==> second.filter_map(report_second(first)).contains(
                (WhichBranch::Branch2Only, second[j].1),
            ),
        distinct_commits(second) ==> forall|k: int, m: int|
            0 <= k < m < second.filter_map(report_second(first)).len() ==> (
            #[trigger] second.filter_map(report_second(first))[k]).1 != (
            #[trigger] second.filter_map(report_second(first))[m]).1,
    decreases second.len(),
{
    let f = report_second(first);
    let b = second.filter_map(f);
    if second.len() == 0 {
        assert(b.len() == 0);
    } else {
        let rest = second.drop_last();
        let last = second.last();
        let n = rest.len() as int;
        let rb = rest.filter_map(f);
        lemma_second_part(first, rest);
        assert(b == if has_patch(first, last.0) {
            rb
        } else {
            rb + seq![(WhichBranch::Branch2Only, last.1)]
        });
        assert forall|k: int| 0 <= k < b.len() implies reported(first, second, #[trigger] b[k]) by {
            if k < rb.len() {
                assert(reported(first, rest, rb[k]));
                let j = choose|j: int| #[trigger] reported_from(first, rest, rb[k], j);
                assert(second[j] == rest[j]);
                assert(reported_from(first, second, b[k], j));
            } else {
                assert(reported_from(first, second, b[k], n));
            }
        }
        assert forall|j: int|
            0 <= j < second.len() && !has_patch(first, (#[trigger] second[j]).0) implies b.contains(
            (WhichBranch::Branch2Only, second[j].1),
        ) by {
            let e = (WhichBranch::Branch2Only, second[j].1);
            if j < n {
                assert(rest[j] == second[j]);
                assert(rb.contains(e));
                let k = choose|k: int| 0 <= k < rb.len() && rb[k] == e;
                assert(b[k] == e);
            } else {
                assert(b[rb.len() as int] == e);
            }
        }
        if distinct_commits(second) {
            assert(distinct_commits(rest)) by {
                assert forall|i: int, j: int| 0 <= i < j < rest.len() implies (#[trigger] rest[i]).1
                    != (#[trigger] rest[j]).1 by {
                    assert(second[i].1 != second[j].1);
                }
            }
            assert forall|k: int, m: int| 0 <= k < m < b.len() implies (#[trigger] b[k]).1 != (
            #[trigger] b[m]).1 by {
                if m < rb.len() {
                    assert(rb[k].1 != rb[m].1);
                } else {
                    assert(reported(first, rest, rb[k]));
                    let j = choose|j: int| #[trigger] reported_from(first, rest, rb[k], j);
                    assert(second[j].1 != second[n].1);
                }
            }
        }
    }
}

/// Every commit of two history sets falls under the reporting rule exactly:
/// each entry of the first is reported once, tagged by whether the second
/// holds its fingerprint; an entry of the second is reported once, as the
/// second's own, where the first lacks its fingerprint, and not at all where
/// the first holds it; and nothing else is reported.
pub proof fn lemma_classification(first: Seq<Entry>, second: Seq<Entry>)
    requires
        distinct_commits(first + second),
    ensures
        forall|i: int|
            0 <= i < first.len() ==> classified_once(
                classification(first, second),
                first_tag(second, (#[trigger] first[i]).0),
                first[i].1,
            ),
        forall|j: int|
            0 <= j < second.len() && !has_patch(first, (#[trigger] second[j]).0)
                ==> classified_once(
                classification(first, second),
                WhichBranch::Branch2Only,
                second[j].1,
            ),
        forall|j: int|
            0 <= j < second.len() && has_patch(first, (#[trigger] second[j]).0) ==> unclassified(
                classification(first, second),
                second[j].1,
            ),
        forall|k: int|
            0 <= k < classification(first, second).len() ==> has_commit(
                first + second,
                (#[trigger] classification(first, second)[k]).1,
            ),
{
    let all = first + second;
    let a = first.map_values(report_first(second));
    let b = second.filter_map(report_second(first));
    let result = classification(first, second);
    let n = first.len() as int;
    assert(result == a + b);
    lemma_second_part(first, second);
    assert(distinct_commits(second)) by {
        assert forall|i: int, j: int| 0 <= i < j < second.len() implies (#[trigger] second[i]).1
            != (#[trigger] second[j]).1 by {
            assert(all[n + i] == second[i]);
            assert(all[n + j] == second[j]);
        }
    }
    assert forall|i: int| 0 <= i < first.len() implies classified_once(
        result,
        first_tag(second, (#[trigger] first[i]).0),
        first[i].1,
    ) by {
        assert(result[i] == a[i]);
        assert(result[i] == (first_tag(second, first[i].0), first[i].1));
        assert forall|m: int| 0 <= m < result.len() && (#[trigger] result[m]).1
            == first[i].1 implies m == i by {
            if m < n {
                assert(result[m] == a[m]);
                assert(all[m] == first[m]);
                assert(all[i] == first[i]);
            } else {
                assert(result[m] == b[m - n]);
                assert(reported(first, second, b[m - n]));
                let j = choose|j: int| #[trigger] reported_from(first, second, b[m - n], j);
                assert(all[n + j] == second[j]);
                assert(all[i] == first[i]);
            }
        }
    }
    assert forall|j: int|
        0 <= j < second.len() && !has_patch(first, (#[trigger] second[j]).0) implies classified_once(
        result,
        WhichBranch::Branch2Only,
        second[j].1,
    ) by {
        let e = (WhichBranch::Branch2Only, second[j].1);
        assert(b.contains(e));
        let k = choose|k: int| 0 <= k < b.len() && b[k] == e;
        assert(result[n + k] == b[k]);
        assert forall|m: int| 0 <= m < result.len() && (#[trigger] result[m]).1
            == second[j].1 implies m == n + k by {
            if m < n {
                assert(result[m] == a[m]);
                assert(all[m] == first[m]);
                assert(all[n + j] == second[j]);
            } else {
                assert(result[m] == b[m - n]);
                if m - n < k {
                    assert(b[m - n].1 != b[k].1);
                }
                if k < m - n {
                    assert(b[k].1 != b[m - n].1);
                }
            }
        }
    }
    assert forall|j: int|
        0 <= j < second.len() && has_patch(first, (#[trigger] second[j]).0) implies unclassified(
        result,
        second[j].1,
    ) by {
        assert forall|m: int| 0 <= m < result.len() implies (#[trigger] result[m]).1
            != second[j].1 by {
            if m < n {
                assert(result[m] == a[m]);
                assert(all[m] == first[m]);
                assert(all[n + j] == second[j]);
            } else {
                assert(result[m] == b[m - n]);
                assert(reported(first, second, b[m - n]));
                let s = choose|s: int| #[trigger] reported_from(first, second, b[m - n], s);
                if s < j {
                    assert(second[s].1 != second[j].1);
                }
                if j < s {
                    assert(second[j].1 != second[s].1);
                }
            }
        }
    }
    assert forall|k: int| 0 <= k < result.len() implies has_commit(
        all,
        (#[trigger] result[k]).1,
    ) by {
        if k < n {
            assert(result[k] == a[k]);
            assert(all[k].1 == result[k].1);
        } else {
            assert(result[k] == b[k - n]);
            assert(reported(first, second, b[k - n]));
            let s = choose|s: int| #[trigger] reported_from(first, second, b[k - n], s);
            assert(all[n + s].1 == result[k].1);
        }
    }
}

spec fn visited_at(walk1: Seq<Entry>, walk2: Seq<Entry>, in_first: bool, e: Entry, s: int) -> bool {
    0 <= s < (walk1 + walk2).len() && (walk1 + walk2)[s] == e && (if in_first {
        retained(walk1, s)
    } else {
        retained(walk2, s - walk1.len())
    })
}

spec fn visited(walk1: Seq<Entry>, walk2: Seq<Entry>, in_first: bool, e: Entry) -> bool {
    exists|s: int| #[trigger] visited_at(walk1, walk2, in_first, e, s)
}

proof fn lemma_recorded_commits(walk1: Seq<Entry>, walk2: Seq<Entry>)
    requires
        distinct_commits(walk1 + walk2),
    ensures
        distinct_commits(recorded(walk1) + recorded(walk2)),
        forall|i: int|
            0 <= i < walk1.len() && !retained(walk1, i) ==> !has_commit(
                recorded(walk1) + recorded(walk2),
                (#[trigger] walk1[i]).1,
            ),
        forall|j: int|
            0 <= j < walk2.len() && !retained(walk2, j) ==> !has_commit(
                recorded(walk1) + recorded(walk2),
                (#[trigger] walk2[j]).1,
            ),
{
    let all = walk1 + walk2;
    let r1 = recorded(walk1);
    let r2 = recorded(walk2);
    let both = r1 + r2;
    let n = walk1.len() as int;
    lemma_recorded(walk1);
    lemma_recorded(walk2);
    assert forall|a: int| 0 <= a < both.len() implies visited(
        walk1,
        walk2,
        a < r1.len(),
        #[trigger] both[a],
    ) by {
        if a < r1.len() {
            assert(both[a] == r1[a]);
            assert(kept(walk1, r1[a]));
            let i = choose|i: int| #[trigger] retained(walk1, i) && walk1[i] == r1[a];
            assert(all[i] == both[a]);
            assert(visited_at(walk1, walk2, true, both[a], i));
        } else {
            assert(both[a] == r2[a - r1.len()]);
            assert(kept(walk2, r2[a - r1.len()]));
            let j = choose|j: int| #[trigger] retained(walk2, j) && walk2[j] == r2[a - r1.len()];
            assert(all[n + j] == both[a]);
            assert(visited_at(walk1, walk2, false, both[a], n + j));
        }
    }
    assert forall|a: int, b: int| 0 <= a < b < both.len() implies (#[trigger] both[a]).1 != (
    #[trigger] both[b]).1 by {
        let a_first = a < r1.len();
        let b_first = b < r1.len();
        assert(visited(walk1, walk2, a_first, both[a]));
        assert(visited(walk1, walk2, b_first, both[b]));
        let s = choose|s: int| #[trigger] visited_at(walk1, walk2, a_first, both[a], s);
        let t = choose|t: int| #[trigger] visited_at(walk1, walk2, b_first, both[b], t);
        if b < r1.len() {
            assert(r1[a].0 != r1[b].0);
        } else if a >= r1.len() {
            assert(r2[a - r1.len()].0 != r2[b - r1.len()].0);
        }
        assert(s != t);
        if s < t {
            assert(all[s].1 != all[t].1);
        } else {
            assert(all[t].1 != all[s].1);
        }
    }
    assert forall|i: int| 0 <= i < walk1.len() && !retained(walk1, i) implies !has_commit(
        both,
        (#[trigger] walk1[i]).1,
    ) by {
        if has_commit(both, walk1[i].1) {
            let a = choose|a: int| 0 <= a < both.len() && (#[trigger] both[a]).1 == walk1[i].1;
            let a_first = a < r1.len();
            assert(visited(walk1, walk2, a_first, both[a]));
            let s = choose|s: int| #[trigger] visited_at(walk1, walk2, a_first, both[a], s);
            assert(all[i] == walk1[i]);
            assert(s != i);
            if s < i {
                assert(all[s].1 != all[i].1);
            } else {
                assert(all[i].1 != all[s].1);
            }
        }
    }
    assert forall|j: int| 0 <= j < walk2.len() && !retained(walk2, j) implies !has_commit(
        both,
        (#[trigger] walk2[j]).1,
    ) by {
        if has_commit(both, walk2[j].1) {
            let a = choose|a: int| 0 <= a < both.len() && (#[trigger] both[a]).1 == walk2[j].1;
            let a_first = a < r1.len();
            assert(visited(walk1, walk2, a_first, both[a]));
            let s = choose|s: int| #[trigger] visited_at(walk1, walk2, a_first, both[a], s);
            assert(all[n + j] == walk2[j]);
            assert(s != n + j);
            if s < n + j {
                assert(all[s].1 != all[n + j].1);
            } else {
                assert(all[n + j].1 != all[s].1);
            }
        }
    }
}

/// Every commit is accounted for. Of the commits that two walks visit, the
/// classification of their history sets reports exactly these, each once: a
/// commit that the first walk's set keeps, as `Both` where the second walk
/// holds its fingerprint and as `Branch1Only` where it does not; and a commit
/// that the second walk's set keeps and whose fingerprint the first walk
/// lacks, as `Branch2Only`. Every other visited commit is not reported, and no
/// commit is reported that was not visited.
pub proof fn lemma_completeness(walk1: Seq<Entry>, walk2: Seq<Entry>)
    requires
        distinct_commits(walk1 + walk2),
    ensures
        forall|i: int|
            0 <= i < walk1.len() ==> if retained(walk1, i) {
                classified_once(
                    classification(recorded(walk1), recorded(walk2)),
                    first_tag(walk2, (#[trigger] walk1[i]).0),
                    walk1[i].1,
                )
            } else {
                unclassified(classification(recorded(walk1), recorded(walk2)), walk1[i].1)
            },
        forall|j: int|
            0 <= j < walk2.len() ==> if retained(walk2, j) && !has_patch(
                walk1,
                (#[trigger] walk2[j]).0,
            ) {
                classified_once(
                    classification(recorded(walk1), recorded(walk2)),
                    WhichBranch::Branch2Only,
                    walk2[j].1,
                )
            } else {
                unclassified(classification(recorded(walk1), recorded(walk2)), walk2[j].1)
            },
        forall|k: int|
            0 <= k < classification(recorded(walk1), recorded(walk2)).len() ==> has_commit(
                walk1 + walk2,
                (#[trigger] classification(recorded(walk1), recorded(walk2))[k]).1,
            ),
{
    let all = walk1 + walk2;
    let r1 = recorded(walk1);
    let r2 = recorded(walk2);
    let both = r1 + r2;
    let n = walk1.len() as int;
    let result = classification(r1, r2);
    lemma_recorded(walk1);
    lemma_recorded(walk2);
    lemma_recorded_commits(walk1, walk2);
    lemma_classification(r1, r2);
    assert forall|c: CommitId| !has_commit(both, c) implies unclassified(result, c) by {
        assert forall|k: int| 0 <= k < result.len() implies (#[trigger] result[k]).1 != c by {
            assert(has_commit(both, result[k].1));
        }
    }
    assert forall|i: int| 0 <= i < walk1.len() implies if retained(walk1, i) {
        classified_once(result, first_tag(walk2, (#[trigger] walk1[i]).0), walk1[i].1)
    } else {
        unclassified(result, walk1[i].1)
    } by {
        if retained(walk1, i) {
            assert(r1.contains(walk1[i]));
            let k = choose|k: int| 0 <= k < r1.len() && r1[k] == walk1[i];
            assert(first_tag(r2, r1[k].0) == first_tag(walk2, walk1[i].0));
        }
    }
    assert forall|j: int| 0 <= j < walk2.len() implies if retained(walk2, j) && !has_patch(
        walk1,
        (#[trigger] walk2[j]).0,
    ) {
        classified_once(result, WhichBranch::Branch2Only, walk2[j].1)
    } else {
        unclassified(result, walk2[j].1)
    } by {
        if retained(walk2, j) {
            assert(r2.contains(walk2[j]));
            let k = choose|k: int| 0 <= k < r2.len() && r2[k] == walk2[j];
            assert(has_patch(r1, r2[k].0) == has_patch(walk1, walk2[j].0));
        }
    }
    assert forall|k: int| 0 <= k < result.len() implies has_commit(
        all,
        (#[trigger] result[k]).1,
    ) by {
        assert(has_commit(both, result[k].1));
        let a = choose|a: int| 0 <= a < both.len() && (#[trigger] both[a]).1 == result[k].1;
        if a < r1.len() {
            assert(both[a] == r1[a]);
            assert(kept(walk1, r1[a]));
            let i = choose|i: int| #[trigger] retained(walk1, i) && walk1[i] == r1[a];
            assert(all[i].1 == result[k].1);
        } else {
            assert(both[a] == r2[a - r1.len()]);
            assert(kept(walk2, r2[a - r1.len()]));
            let j = choose|j: int| #[trigger] retained(walk2, j) && walk2[j] == r2[a - r1.len()];
            assert(all[n + j].1 == result[k].1);
        }
    }
}

/// One report for a shared change. Where a commit of each branch carries the
/// same fingerprint, the first branch's commit is reported once, as `Both`,
/// and the second branch's commit is not reported at all, neither as `Both`
/// nor as `Branch2Only`.
///
/// The first branch's commit is the one its history set keeps for the
/// fingerprint.
pub proof fn lemma_shared_change_reported_once(
    walk1: Seq<Entry>,
    walk2: Seq<Entry>,
    i: int,
    j: int,
)
    requires
        distinct_commits(walk1 + walk2),
        retained(walk1, i),
        0 <= j < walk2.len(),
        walk1[i].0 == walk2[j].0,
    ensures
        classified_once(
            classification(recorded(walk1), recorded(walk2)),
            WhichBranch::Both,
            walk1[i].1,
        ),
        unclassified(classification(recorded(walk1), recorded(walk2)), walk2[j].1),
{
    lemma_completeness(walk1, walk2);
    assert(has_patch(walk2, walk1[i].0));
    assert(has_patch(walk1, walk2[j].0));
}

/// Changes that the other branch lacks are exclusive. A commit whose
/// fingerprint the other branch's walk does not hold is reported once as its
/// own branch's: `Branch1Only` on the first, `Branch2Only` on the second.
///
/// Either commit is the one its branch's history set keeps for the
/// fingerprint.
pub proof fn lemma_unshared_changes_are_exclusive(
    walk1: Seq<Entry>,
    walk2: Seq<Entry>,
    i: int,
    j: int,
)
    requires
        distinct_commits(walk1 + walk2),
        retained(walk1, i),
        retained(walk2, j),
        !has_patch(walk2, walk1[i].0),
        !has_patch(walk1, walk2[j].0),
    ensures
        classified_once(
            classification(recorded(walk1), recorded(walk2)),
            WhichBranch::Branch1Only,
            walk1[i].1,
        ),
        classified_once(
            classification(recorded(walk1), recorded(walk2)),
            WhichBranch::Branch2Only,
            walk2[j].1,
        ),
{
    lemma_completeness(walk1, walk2);
}

/// Branches without a common fingerprint share nothing: no entry is `Both`.
pub proof fn lemma_disjoint_branches(walk1: Seq<Entry>, walk2: Seq<Entry>)
    requires
        forall|p: PatchId| !(has_patch(walk1, p) && has_patch(walk2, p)),
    ensures
        forall|k: int|
            0 <= k < classification(recorded(walk1), recorded(walk2)).len() ==> (
            #[trigger] classification(recorded(walk1), recorded(walk2))[k]).0 != WhichBranch::Both,
{
    let r1 = recorded(walk1);
    let r2 = recorded(walk2);
    let a = r1.map_values(report_first(r2));
    let b = r2.filter_map(report_second(r1));
    let result = classification(r1, r2);
    lemma_recorded(walk1);
    lemma_recorded(walk2);
    lemma_second_part(r1, r2);
    assert forall|k: int| 0 <= k < result.len() implies (#[trigger] result[k]).0
        != WhichBranch::Both by {
        if k < r1.len() {
            assert(result[k] == a[k]);
            assert(has_patch(r1, r1[k].0));
            assert(has_patch(walk1, r1[k].0));
            assert(!has_patch(walk2, r1[k].0));
            assert(!has_patch(r2, r1[k].0));
        } else {
            assert(result[k] == b[k - r1.len()]);
            assert(reported(r1, r2, b[k - r1.len()]));
            let j = choose|j: int| #[trigger] reported_from(r1, r2, b[k - r1.len()], j);
            assert(result[k].0 == WhichBranch::Branch2Only);
        }
    }
}

/// With nothing ahead on the first branch, the result is the second branch's
/// history set, entry by entry, each as `Branch2Only`.
pub proof fn lemma_first_branch_at_base(walk2: Seq<Entry>)
    ensures
        recorded(Seq::<Entry>::empty()) == Seq::<Entry>::empty(),
        classification(Seq::<Entry>::empty(), recorded(walk2)).len() == recorded(walk2).len(),
        forall|k: int|
            0 <= k < recorded(walk2).len() ==> #[trigger] classification(
                Seq::<Entry>::empty(),
                recorded(walk2),
            )[k] == (WhichBranch::Branch2Only, recorded(walk2)[k].1),
{
    lemma_all_of_second(recorded(walk2));
}

proof fn lemma_all_of_second(second: Seq<Entry>)
    ensures
        classification(Seq::<Entry>::empty(), second).len() == second.len(),
        forall|k: int|
            0 <= k < second.len() ==> #[trigger] classification(Seq::<Entry>::empty(), second)[k]
                == (WhichBranch::Branch2Only, second[k].1),
    decreases second.len(),
{
    let none = Seq::<Entry>::empty();
    let f = report_second(none);
    let b = second.filter_map(f);
    assert(classification(none, second) =~= b);
    if second.len() == 0 {
        assert(b.len() == 0);
    } else {
        let rest = second.drop_last();
        lemma_all_of_second(rest);
        assert(classification(none, rest) =~= rest.filter_map(f));
        assert(!has_patch(none, second.last().0));
        assert(b == rest.filter_map(f) + seq![(WhichBranch::Branch2Only, second.last().1)]);
    }
}

/// The report that fingerprint `patch` gives rise to, read off the two
/// mappings: the first branch's commit where the first branch holds the
/// fingerprint, tagged by whether the second holds it too; else the second
/// branch's commit, where that branch holds it.
pub open spec fn report_of(
    first: Map<PatchId, CommitId>,
    second: Map<PatchId, CommitId>,
    patch: PatchId,
    e: (WhichBranch, CommitId),
) -> bool {
    if first.contains_key(patch) {
        e == (
            if second.contains_key(patch) {
                WhichBranch::Both
            } else {
                WhichBranch::Branch1Only
            },
            first[patch],
        )
    } else {
        second.contains_key(patch) && e == (WhichBranch::Branch2Only, second[patch])
    }
}

/// The reports of two mappings, one for each fingerprint that either holds.
pub open spec fn reports(first: Map<PatchId, CommitId>, second: Map<PatchId, CommitId>) -> Set<
    (WhichBranch, CommitId),
> {
    Set::new(
        |e: (WhichBranch, CommitId)| exists|patch: PatchId| #[trigger] report_of(first, second, patch, e),
    )
}

/// The result depends on the two mappings alone. Taken as a set, a
/// classification is the set of reports of the mappings that the two history
/// sets stand for, in whatever order their entries are held: comparing the
/// same histories again gives the same set.
pub proof fn lemma_result_set(first: Seq<Entry>, second: Seq<Entry>)
    requires
        distinct_patches(first),
        distinct_patches(second),
    ensures
        classification(first, second).to_set() == reports(as_map(first), as_map(second)),
{
    let a = first.map_values(report_first(second));
    let b = second.filter_map(report_second(first));
    let result = classification(first, second);
    let n = first.len() as int;
    let m1 = as_map(first);
    let m2 = as_map(second);
    lemma_second_part(first, second);
    assert forall|i: int| 0 <= i < first.len() implies position(first, (#[trigger] first[i]).0)
        == i by {
        let at = position(first, first[i].0);
        if at < i {
            assert(first[at].0 != first[i].0);
        }
        if i < at {
            assert(first[i].0 != first[at].0);
        }
    }
    assert forall|j: int| 0 <= j < second.len() implies position(second, (#[trigger] second[j]).0)
        == j by {
        let at = position(second, second[j].0);
        if at < j {
            assert(second[at].0 != second[j].0);
        }
        if j < at {
            assert(second[j].0 != second[at].0);
        }
    }
    assert forall|e: (WhichBranch, CommitId)| result.to_set().contains(e) implies reports(
        m1,
        m2,
    ).contains(e) by {
        let k = choose|k: int| 0 <= k < result.len() && result[k] == e;
        if k < n {
            assert(result[k] == a[k]);
            assert(has_patch(first, first[k].0));
            assert(report_of(m1, m2, first[k].0, e));
        } else {
            assert(result[k] == b[k - n]);
            assert(reported(first, second, b[k - n]));
            let j = choose|j: int| #[trigger] reported_from(first, second, b[k - n], j);
            assert(has_patch(second, second[j].0));
            assert(report_of(m1, m2, second[j].0, e));
        }
    }
    assert forall|e: (WhichBranch, CommitId)| reports(m1, m2).contains(e) implies result.to_set().contains(
        e,
    ) by {
        let p = choose|p: PatchId| #[trigger] report_of(m1, m2, p, e);
        if m1.contains_key(p) {
            let i = position(first, p);
            assert(first[i].0 == p);
            assert(result[i] == a[i]);
            assert(result[i] == e);
        } else {
            let j = position(second, p);
            assert(second[j].0 == p);
            assert(b.contains(e));
            let k = choose|k: int| 0 <= k < b.len() && b[k] == e;
            assert(result[n + k] == e);
        }
    }
    assert(result.to_set() =~= reports(m1, m2));
}

} // verus!
