//! One tracked file: its stored record, its current metadata, and the
//! staleness rule that decides whether the stored digest can be trusted.
use vstd::prelude::*;
use crate::hex::{hex_of, hex_upper};

verus! {

/// What a record stores about its path: digest, created token, modified token.
pub type Stored = (Seq<char>, Seq<char>, Seq<char>);

/// The stored record of one path.
pub struct FileRecord {
    pub path: String,
    /// Upper-case hex of the content hash.
    pub digest: String,
    /// Upper-case hex of the creation time, in seconds since the epoch.
    pub created_at: String,
    /// Upper-case hex of the modification time, in seconds since the epoch.
    pub modified_at: String,
}

impl View for FileRecord {
    type V = (Seq<char>, Stored);

    open spec fn view(&self) -> (Seq<char>, Stored) {
        (self.path@, (self.digest@, self.created_at@, self.modified_at@))
    }
}

/// What the filesystem reports of a file now.
#[derive(Clone, Copy, Debug, PartialEq, Eq)]
pub struct FileMeta {
    pub readonly: bool,
    /// Creation time, seconds since the epoch.
    pub created: u64,
    /// Modification time, seconds since the epoch.
    pub modified: u64,
}

/// The stored digest is trusted: the file is read-only, or both timestamp
/// tokens still match.
pub open spec fn still_valid(stored: Stored, meta: FileMeta) -> bool {
    meta.readonly || (stored.1 == hex_of(meta.created as nat) && stored.2 == hex_of(
        meta.modified as nat,
    ))
}

/// Decides whether `record` is still valid for a file whose metadata is `meta`.
pub fn is_valid(record: &FileRecord, meta: &FileMeta) -> (r: bool)
    ensures
        r == still_valid(record@.1, *meta),
{
    if meta.readonly {
        return true;
    }
    let created = hex_upper(meta.created as u128);
    let modified = hex_upper(meta.modified as u128);
    record.created_at == created && record.modified_at == modified
}

} // verus!
