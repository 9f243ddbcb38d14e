//! Identifiers of the object store.

use vstd::prelude::*;

verus! {

/// The raw bytes of an identifier handed out by the object store: a commit's
/// hash, or the fingerprint of a diff.
///
/// Two identifiers are equal exactly when their bytes are.
#[derive(Clone, Copy, Debug, Hash)]
pub struct ObjectId {
    pub bytes: [u8; 20],
}

/// Identifies a commit.
pub type CommitId = ObjectId;

/// Fingerprint of the diff between a commit and its first parent.
pub type PatchId = ObjectId;

impl ObjectId {
    /// The identifier with the given bytes.
    pub fn from_bytes(bytes: [u8; 20]) -> (id: ObjectId)
        ensures
            id.bytes == bytes,
    {
        ObjectId { bytes }
    }

    /// The identifier's bytes.
    pub fn as_bytes(&self) -> (bytes: &[u8; 20])
        ensures
            *bytes == self.bytes,
    {
        &self.bytes
    }
}

impl PartialEq for ObjectId {
    fn eq(&self, other: &ObjectId) -> (same: bool) {
        let mut i: usize = 0;
        while i < 20
            invariant
                i <= 20,
                forall|k: int| 0 <= k < i ==> self.bytes[k] == other.bytes[k],
            decreases 20 - i,
        {
            if self.bytes[i] != other.bytes[i] {
                return false;
            }
            i += 1;
        }
        assert(self.bytes =~= other.bytes);
        true
    }
}

impl vstd::std_specs::cmp::PartialEqSpecImpl for ObjectId {
    open spec fn obeys_eq_spec() -> bool {
        true
    }

    open spec fn eq_spec(&self, other: &ObjectId) -> bool {
        *self == *other
    }
}

impl Eq for ObjectId {

}

} // verus!
