//! The per-branch mapping from patch fingerprint to commit.

use vstd::prelude::*;
use crate::object_id::{CommitId, PatchId};

verus! {

/// One association of a history set: a fingerprint and the commit recorded for it.
pub type Entry = (PatchId, CommitId);

/// Whether some entry of `pairs` carries the fingerprint `patch`.
pub open spec fn has_patch(pairs: Seq<Entry>, patch: PatchId) -> bool {
    exists|i: int| 0 <= i < pairs.len() && (#[trigger] pairs[i]).0 == patch
}

/// No fingerprint occurs in two entries.
pub open spec fn distinct_patches(pairs: Seq<Entry>) -> bool {
    forall|i: int, j: int|
        0 <= i < j < pairs.len() ==> (#[trigger] pairs[i]).0 != (#[trigger] pairs[j]).0
}

/// The position of an entry that carries `patch`; meaningful where one exists.
pub open spec fn position(pairs: Seq<Entry>, patch: PatchId) -> int {
    choose|i: int| 0 <= i < pairs.len() && (#[trigger] pairs[i]).0 == patch
}

/// The commit recorded for `patch`, if any.
pub open spec fn lookup(pairs: Seq<Entry>, patch: PatchId) -> Option<CommitId> {
    if has_patch(pairs, patch) {
        Some(pairs[position(pairs, patch)].1)
    } else {
        None
    }
}

/// `pairs` after recording `commit` under `patch`: a fingerprint seen before
/// keeps its place and takes the new commit, a new one goes to the end.
pub open spec fn put(pairs: Seq<Entry>, patch: PatchId, commit: CommitId) -> Seq<Entry> {
    if has_patch(pairs, patch) {
        pairs.update(position(pairs, patch), (patch, commit))
    } else {
        pairs.push((patch, commit))
    }
}

/// The finite map that a sequence of entries stands for.
pub open spec fn as_map(pairs: Seq<Entry>) -> Map<PatchId, CommitId> {
    Map::new(|p: PatchId| has_patch(pairs, p), |p: PatchId| pairs[position(pairs, p)].1)
}

/// Recording into a sequence without repeated fingerprints leaves none repeated,
/// and is `insert` on the map it stands for.
pub proof fn lemma_put(pairs: Seq<Entry>, patch: PatchId, commit: CommitId)
    requires
        distinct_patches(pairs),
    ensures
        distinct_patches(put(pairs, patch, commit)),
        as_map(put(pairs, patch, commit)) == as_map(pairs).insert(patch, commit),
        forall|p: PatchId|
            has_patch(put(pairs, patch, commit), p) <==> p == patch || has_patch(pairs, p),
        lookup(put(pairs, patch, commit), patch) == Some(commit),
        forall|p: PatchId| p != patch ==> lookup(put(pairs, patch, commit), p) == lookup(pairs, p),
{
    let after = put(pairs, patch, commit);
    if has_patch(pairs, patch) {
        let at = position(pairs, patch);
        assert forall|p: PatchId| has_patch(after, p) <==> p == patch || has_patch(pairs, p) by {
            if has_patch(after, p) {
                let i = position(after, p);
                assert(pairs[i].0 == p || i == at);
            }
            if has_patch(pairs, p) {
                let i = position(pairs, p);
                assert(after[i].0 == p);
            }
            if p == patch {
                assert(after[at].0 == p);
            }
        }
    } else {
        assert forall|p: PatchId| has_patch(after, p) <==> p == patch || has_patch(pairs, p) by {
            if has_patch(after, p) {
                let i = position(after, p);
                if i < pairs.len() {
                    assert(pairs[i].0 == p);
                }
            }
            if has_patch(pairs, p) {
                let i = position(pairs, p);
                assert(after[i].0 == p);
            }
            if p == patch {
                assert(after[pairs.len() as int].0 == p);
            }
        }
    }
    assert forall|p: PatchId| has_patch(after, p) implies lookup(after, p) == (if p == patch {
        Some(commit)
    } else {
        lookup(pairs, p)
    }) by {
        let i = position(after, p);
        if p != patch {
            let j = position(pairs, p);
            assert(after[j].0 == p);
        }
    }
    assert(after[position(after, patch)].0 == patch);
    assert(as_map(after) =~= as_map(pairs).insert(patch, commit));
}

/// A mapping from patch fingerprint to commit, one entry per fingerprint.
///
/// Entries keep the order in which their fingerprints were first recorded.
/// Recording a fingerprint again replaces its commit: the last writer wins.
pub struct HistorySet {
    entries: Vec<Entry>,
}

impl View for HistorySet {
    type V = Map<PatchId, CommitId>;

    closed spec fn view(&self) -> Map<PatchId, CommitId> {
        as_map(self.entries@)
    }
}

impl HistorySet {
    #[verifier::type_invariant]
    spec fn well_formed(self) -> bool {
        distinct_patches(self.entries@)
    }

    /// The entries in the order in which their fingerprints were first recorded.
    pub closed spec fn pairs(&self) -> Seq<Entry> {
        self.entries@
    }

    /// The map is the one that the entries stand for.
    pub proof fn lemma_view(&self)
        ensures
            self@ == as_map(self.pairs()),
    {
    }

    /// The empty mapping.
    pub fn new() -> (set: HistorySet)
        ensures
            set.pairs() == Seq::<Entry>::empty(),
            set@ == Map::<PatchId, CommitId>::empty(),
    {
        let set = HistorySet { entries: Vec::new() };
        assert(set@ =~= Map::<PatchId, CommitId>::empty());
        set
    }

    /// The number of fingerprints recorded.
    pub fn len(&self) -> (n: usize)
        ensures
            n == self.pairs().len(),
            distinct_patches(self.pairs()),
    {
        proof {
            use_type_invariant(self);
        }
        self.entries.len()
    }

    /// Whether nothing is recorded.
    pub fn is_empty(&self) -> (empty: bool)
        ensures
            empty == (self.pairs().len() == 0),
    {
        self.entries.len() == 0
    }

    /// The entry at position `i` of `pairs()`.
    pub fn entry(&self, i: usize) -> (e: Entry)
        requires
            i < self.pairs().len(),
        ensures
            e == self.pairs()[i as int],
    {
        self.entries[i]
    }

    fn find(&self, patch: &PatchId) -> (at: Option<usize>)
        ensures
            at is Some <==> has_patch(self.pairs(), *patch),
            at matches Some(i) ==> i < self.pairs().len() && self.pairs()[i as int].0 == *patch
                && i == position(self.pairs(), *patch),
    {
        proof {
            use_type_invariant(self);
        }
        let mut i: usize = 0;
        while i < self.entries.len()
            invariant
                i <= self.entries.len(),
                forall|k: int| 0 <= k < i ==> (#[trigger] self.entries[k]).0 != *patch,
                distinct_patches(self.entries@),
            decreases self.entries.len() - i,
        {
            if self.entries[i].0 == *patch {
                return Some(i);
            }
            i += 1;
        }
        None
    }

    /// Whether a commit is recorded for `patch`.
    pub fn contains_key(&self, patch: &PatchId) -> (found: bool)
        ensures
            found == has_patch(self.pairs(), *patch),
            found == self@.contains_key(*patch),
    {
        self.find(patch).is_some()
    }

    /// The commit recorded for `patch`.
    pub fn get(&self, patch: &PatchId) -> (commit: Option<CommitId>)
        ensures
            commit == lookup(self.pairs(), *patch),
            commit == (if self@.contains_key(*patch) {
                Some(self@[*patch])
            } else {
                None
            }),
    {
        match self.find(patch) {
            Some(i) => Some(self.entries[i].1),
            None => None,
        }
    }

    /// Records `commit` under `patch`, replacing the commit recorded for that
    /// fingerprint before.
    pub fn insert(&mut self, patch: PatchId, commit: CommitId)
        ensures
            final(self).pairs() == put(old(self).pairs(), patch, commit),
            final(self)@ == old(self)@.insert(patch, commit),
            distinct_patches(final(self).pairs()),
    {
        proof {
            use_type_invariant(&*self);
            lemma_put(self.entries@, patch, commit);
        }
        let at = self.find(&patch);
        let mut entries: Vec<Entry> = Vec::new();
        std::mem::swap(&mut entries, &mut self.entries);
        match at {
            Some(i) => {
                entries.set(i, (patch, commit));
            },
            None => {
                entries.push((patch, commit));
            },
        }
        self.entries = entries;
    }
}

} // verus!
