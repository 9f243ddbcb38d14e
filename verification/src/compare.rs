//! Classification of the commits of two branches by patch identity.
//!
//! A run reads, for each branch, the commits that lie ahead of the merge base
//! on the first-parent line, newest first, each with the fingerprint of its
//! diff. Reading the repository is the caller's part; what is decided from
//! what was read is decided here.

use vstd::prelude::*;
use crate::object_id::{CommitId, PatchId};
use crate::history::{Entry, HistorySet, has_patch, put, distinct_patches};

verus! {

/// What to compare: a repository and two targets, each a hash, a short hash or
/// a reference name.
#[derive(Debug)]
pub struct Args {
    pub repo: String,
    pub target1: String,
    pub target2: String,
}

/// Where a change is found.
#[derive(Clone, Copy, Debug, PartialEq, Eq, Structural)]
pub enum WhichBranch {
    Branch1Only,
    Both,
    Branch2Only,
}

/// Why a comparison produced no result.
#[derive(Clone, Copy, Debug, PartialEq, Eq, Structural)]
pub enum CompareError {
    /// A target names no commit.
    UnresolvableReference,
    /// The two targets share no history.
    NoCommonAncestor,
    /// A patch identity was asked of a commit without a parent.
    NoParent,
    /// The store could not produce the diff of a commit, or its fingerprint.
    DiffComputation,
}

impl CompareError {
    /// What went wrong, in words.
    pub open spec fn words(self) -> Seq<char> {
        match self {
            CompareError::UnresolvableReference => "a target names no commit"@,
            CompareError::NoCommonAncestor => "the targets share no history"@,
            CompareError::NoParent => "a commit without a parent has no patch identity"@,
            CompareError::DiffComputation => "the diff of a commit could not be computed"@,
        }
    }

    /// What went wrong, in words.
    pub fn message(&self) -> (text: String)
        ensures
            text@ == self.words(),
    {
        match self {
            CompareError::UnresolvableReference => "a target names no commit".to_owned(),
            CompareError::NoCommonAncestor => "the targets share no history".to_owned(),
            CompareError::NoParent => "a commit without a parent has no patch identity".to_owned(),
            CompareError::DiffComputation => "the diff of a commit could not be computed".to_owned(),
        }
    }
}

/// What the store reported of one commit of a walk.
#[derive(Clone, Copy, Debug)]
pub struct Visit {
    /// The commit visited.
    pub commit: CommitId,
    /// Its first parent; `None` for a root commit.
    pub parent: Option<CommitId>,
    /// The fingerprint of its diff against the first parent; `None` where the
    /// store could not compute it.
    pub patch: Option<PatchId>,
}

/// Everything a comparison reads from the repository.
#[derive(Debug)]
pub struct Reading {
    /// The commit that the first target names, if any.
    pub target1: Option<CommitId>,
    /// The commit that the second target names, if any.
    pub target2: Option<CommitId>,
    /// The merge base of the two, if they have one.
    pub base: Option<CommitId>,
    /// The first-parent walk from the first target down to the merge base,
    /// newest first, the base and its ancestors left out.
    pub walk1: Vec<Visit>,
    /// The same for the second target.
    pub walk2: Vec<Visit>,
}

/// Why a visited commit has no patch identity, if it has none: it is a root,
/// or the store failed on its diff.
pub open spec fn failure(visit: Visit) -> Option<CompareError> {
    if visit.parent is None {
        Some(CompareError::NoParent)
    } else if visit.patch is None {
        Some(CompareError::DiffComputation)
    } else {
        None
    }
}

/// The patch identity of a visited commit: its fingerprint, unless the commit
/// is a root or the store failed on its diff.
pub open spec fn patch_identity(visit: Visit) -> Result<PatchId, CompareError> {
    match failure(visit) {
        Some(error) => Err(error),
        None => Ok(visit.patch.unwrap()),
    }
}

/// The visit at `i` has no patch identity.
pub open spec fn fails_at(walk: Seq<Visit>, i: int) -> bool {
    0 <= i < walk.len() && failure(walk[i]) is Some
}

/// The first visit of the walk without a patch identity; meaningful where one
/// exists.
pub open spec fn first_failure(walk: Seq<Visit>) -> int {
    choose|i: int| fails_at(walk, i) && forall|j: int| 0 <= j < i ==> !fails_at(walk, j)
}

/// The fingerprint and commit of a visit that has a patch identity.
pub open spec fn entry_of(visit: Visit) -> Entry {
    (visit.patch.unwrap(), visit.commit)
}

/// The fingerprint and commit of each visit, in walk order.
pub open spec fn entries_of(walk: Seq<Visit>) -> Seq<Entry> {
    walk.map_values(|visit: Visit| entry_of(visit))
}

/// The entries of the history set that a walk fills: each visit is recorded in
/// walk order, so of two visits with one fingerprint the later, older commit
/// stays.
pub open spec fn recorded(walk: Seq<Entry>) -> Seq<Entry>
    decreases walk.len(),
{
    if walk.len() == 0 {
        Seq::empty()
    } else {
        put(recorded(walk.drop_last()), walk.last().0, walk.last().1)
    }
}

/// What enumerating a walk gives: the error of the first visit without a patch
/// identity, or else the history set of all visits.
pub open spec fn enumerated(walk: Seq<Visit>) -> Result<Seq<Entry>, CompareError> {
    if exists|i: int| fails_at(walk, i) {
        Err(failure(walk[first_failure(walk)]).unwrap())
    } else {
        Ok(recorded(entries_of(walk)))
    }
}

/// How an entry of the first branch is reported: as shared where the second
/// branch holds its fingerprint too, else as the first branch's own.
pub open spec fn report_first(second: Seq<Entry>) -> spec_fn(Entry) -> (WhichBranch, CommitId) {
    |e: Entry|
        (
            if has_patch(second, e.0) {
                WhichBranch::Both
            } else {
                WhichBranch::Branch1Only
            },
            e.1,
        )
}

/// How an entry of the second branch is reported: not at all where the first
/// branch holds its fingerprint, else as the second branch's own.
pub open spec fn report_second(first: Seq<Entry>) -> spec_fn(Entry) -> Option<
    (WhichBranch, CommitId),
> {
    |e: Entry|
        if has_patch(first, e.0) {
            None
        } else {
            Some((WhichBranch::Branch2Only, e.1))
        }
}

/// The classification of two history sets: every entry of the first, then the
/// entries of the second whose fingerprint the first lacks.
pub open spec fn classification(first: Seq<Entry>, second: Seq<Entry>) -> Seq<
    (WhichBranch, CommitId),
> {
    first.map_values(report_first(second)) + second.filter_map(report_second(first))
}

/// The result of a whole comparison, from what was read.
pub open spec fn outcome(reading: Reading) -> Result<Seq<(WhichBranch, CommitId)>, CompareError> {
    if reading.target1 is None || reading.target2 is None {
        Err(CompareError::UnresolvableReference)
    } else if reading.base is None {
        Err(CompareError::NoCommonAncestor)
    } else {
        match enumerated(reading.walk1@) {
            Err(error) => Err(error),
            Ok(first) => match enumerated(reading.walk2@) {
                Err(error) => Err(error),
                Ok(second) => Ok(classification(first, second)),
            },
        }
    }
}

/// The patch identity of a visited commit.
pub fn get_patchid_from_commit(visit: &Visit) -> (id: Result<PatchId, CompareError>)
    ensures
        id == patch_identity(*visit),
{
    if visit.parent.is_none() {
        return Err(CompareError::NoParent);
    }
    match visit.patch {
        Some(patch) => Ok(patch),
        None => Err(CompareError::DiffComputation),
    }
}

proof fn lemma_first_failure(walk: Seq<Visit>, i: int)
    requires
        fails_at(walk, i),
        forall|j: int| 0 <= j < i ==> !fails_at(walk, j),
    ensures
        first_failure(walk) == i,
{
    let f = first_failure(walk);
    assert(fails_at(walk, f) && forall|j: int| 0 <= j < f ==> !fails_at(walk, j));
    if f < i {
        assert(!fails_at(walk, f));
    }
    if i < f {
        assert(!fails_at(walk, i));
    }
}

proof fn lemma_least_failure(walk: Seq<Visit>, i: int)
    requires
        fails_at(walk, i),
    ensures
        fails_at(walk, first_failure(walk)),
        forall|j: int| 0 <= j < first_failure(walk) ==> !fails_at(walk, j),
        first_failure(walk) <= i,
    decreases i,
{
    if exists|j: int| 0 <= j < i && fails_at(walk, j) {
        let j = choose|j: int| 0 <= j < i && fails_at(walk, j);
        lemma_least_failure(walk, j);
    } else {
        lemma_first_failure(walk, i);
    }
}

/// Enumerating a walk fails exactly where some visit has no patch identity,
/// and then with the error of the first such visit.
pub proof fn lemma_enumerated(walk: Seq<Visit>)
    ensures
        enumerated(walk) is Err <==> exists|i: int| fails_at(walk, i),
        enumerated(walk) matches Err(error) ==> fails_at(walk, first_failure(walk)) && failure(
            walk[first_failure(walk)],
        ) == Some(error) && (forall|j: int| 0 <= j < first_failure(walk) ==> !fails_at(walk, j)),
        enumerated(walk) matches Err(error) ==> error == CompareError::NoParent || error
            == CompareError::DiffComputation,
{
    if exists|i: int| fails_at(walk, i) {
        let i = choose|i: int| fails_at(walk, i);
        lemma_least_failure(walk, i);
    }
}

/// When a comparison gives which outcome. It fails with
/// `UnresolvableReference` exactly where a target names no commit; with
/// `NoCommonAncestor` exactly where both do and there is no merge base; on a
/// visit without a patch identity exactly where neither is so and a walk has
/// one; and it succeeds on every other reading, with the classification of
/// the two walks' history sets.
pub proof fn lemma_outcome(reading: Reading)
    ensures
        outcome(reading) == Err::<Seq<(WhichBranch, CommitId)>, CompareError>(
            CompareError::UnresolvableReference,
        ) <==> reading.target1 is None || reading.target2 is None,
        outcome(reading) == Err::<Seq<(WhichBranch, CommitId)>, CompareError>(
            CompareError::NoCommonAncestor,
        ) <==> reading.target1 is Some && reading.target2 is Some && reading.base is None,
        outcome(reading) is Ok <==> reading.target1 is Some && reading.target2 is Some
            && reading.base is Some && !(exists|i: int| fails_at(reading.walk1@, i)) && !(exists|
            i: int,
        | fails_at(reading.walk2@, i)),
        outcome(reading) is Ok ==> outcome(reading) == Ok::<
            Seq<(WhichBranch, CommitId)>,
            CompareError,
        >(
            classification(
                recorded(entries_of(reading.walk1@)),
                recorded(entries_of(reading.walk2@)),
            ),
        ),
{
    lemma_enumerated(reading.walk1@);
    lemma_enumerated(reading.walk2@);
}

/// Builds the history set of a walk, visit by visit, and stops at the first
/// visit without a patch identity.
pub fn list_commits(walk: &Vec<Visit>) -> (set: Result<HistorySet, CompareError>)
    ensures
        match set {
            Ok(history) => enumerated(walk@) == Ok::<Seq<Entry>, CompareError>(history.pairs())
                && distinct_patches(history.pairs()),
            Err(error) => enumerated(walk@) == Err::<Seq<Entry>, CompareError>(error),
        },
{
    let mut res = HistorySet::new();
    let mut i: usize = 0;
    assert(entries_of(walk@).take(0) =~= Seq::<Entry>::empty());
    while i < walk.len()
        invariant
            i <= walk.len(),
            forall|j: int| 0 <= j < i ==> !fails_at(walk@, j),
            res.pairs() == recorded(entries_of(walk@).take(i as int)),
            distinct_patches(res.pairs()),
        decreases walk.len() - i,
    {
        let visit = &walk[i];
        match get_patchid_from_commit(visit) {
            Err(error) => {
                proof {
                    assert(failure(walk@[i as int]) == Some(error));
                    lemma_first_failure(walk@, i as int);
                    assert(enumerated(walk@) == Err::<Seq<Entry>, CompareError>(error));
                }
                return Err(error);
            },
            Ok(patch) => {
                proof {
                    let all = entries_of(walk@);
                    assert(all.take(i + 1).drop_last() =~= all.take(i as int));
                    assert(all.take(i + 1).last() == (patch, visit.commit));
                }
                res.insert(patch, visit.commit);
            },
        }
        i += 1;
    }
    proof {
        assert(entries_of(walk@).take(i as int) =~= entries_of(walk@));
        assert(!(exists|k: int| fails_at(walk@, k)));
    }
    Ok(res)
}

/// Classifies the commits of two history sets.
///
/// Every entry of `first` is reported under its own commit, as `Both` where
/// `second` holds the same fingerprint and as `Branch1Only` where it does not.
/// An entry of `second` is reported, as `Branch2Only`, only where `first` lacks
/// its fingerprint: of a shared change the second branch's commit is not
/// reported.
pub fn set_compare(first: HistorySet, second: HistorySet) -> (result: Vec<(WhichBranch, CommitId)>)
    ensures
        result@ == classification(first.pairs(), second.pairs()),
{
    let mut result: Vec<(WhichBranch, CommitId)> = Vec::new();
    let ghost of_first = report_first(second.pairs());
    let ghost of_second = report_second(first.pairs());
    let n = first.len();
    let mut i: usize = 0;
    assert(first.pairs().take(0).map_values(of_first) =~= Seq::<(WhichBranch, CommitId)>::empty());
    while i < n
        invariant
            i <= n,
            n == first.pairs().len(),
            of_first == report_first(second.pairs()),
            result@ == first.pairs().take(i as int).map_values(of_first),
        decreases n - i,
    {
        let (patch, commit) = first.entry(i);
        proof {
            first.pairs().lemma_map_take_succ(of_first, i as int);
        }
        if second.contains_key(&patch) {
            result.push((WhichBranch::Both, commit));
        } else {
            result.push((WhichBranch::Branch1Only, commit));
        }
        i += 1;
    }
    assert(first.pairs().take(n as int) =~= first.pairs());
    let ghost head = result@;
    let m = second.len();
    let mut j: usize = 0;
    assert(second.pairs().take(0).filter_map(of_second) =~= Seq::<(WhichBranch, CommitId)>::empty());
    while j < m
        invariant
            j <= m,
            m == second.pairs().len(),
            of_second == report_second(first.pairs()),
            result@ == head + second.pairs().take(j as int).filter_map(of_second),
        decreases m - j,
    {
        let (patch, commit) = second.entry(j);
        proof {
            second.pairs().lemma_filter_map_take_succ(of_second, j as int);
        }
        if !first.contains_key(&patch) {
            result.push((WhichBranch::Branch2Only, commit));
        }
        j += 1;
    }
    assert(second.pairs().take(m as int) =~= second.pairs());
    result
}

impl Args {
    /// Decides the comparison from what was read of the repository.
    ///
    /// Fails with `UnresolvableReference` where a target names no commit, else
    /// with `NoCommonAncestor` where there is no merge base, else with the
    /// error of the first visit without a patch identity, the first walk before
    /// the second. Otherwise the result is the classification of the two
    /// walks' history sets.
    pub fn execute(self, reading: &Reading) -> (result: Result<
        Vec<(WhichBranch, CommitId)>,
        CompareError,
    >)
        ensures
            match result {
                Ok(list) => outcome(*reading) == Ok::<Seq<(WhichBranch, CommitId)>, CompareError>(
                    list@,
                ),
                Err(error) => outcome(*reading) == Err::<
                    Seq<(WhichBranch, CommitId)>,
                    CompareError,
                >(error),
            },
    {
        if reading.target1.is_none() || reading.target2.is_none() {
            return Err(CompareError::UnresolvableReference);
        }
        if reading.base.is_none() {
            return Err(CompareError::NoCommonAncestor);
        }
        let set1 = match list_commits(&reading.walk1) {
            Ok(set) => set,
            Err(error) => {
                return Err(error);
            },
        };
        let set2 = match list_commits(&reading.walk2) {
            Ok(set) => set,
            Err(error) => {
                return Err(error);
            },
        };
        Ok(set_compare(set1, set2))
    }
}

} // verus!
