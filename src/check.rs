//! Checking stored digests against the files' present contents.
use vstd::prelude::*;
use crate::digest::{content_digest, digest_spec};
use crate::record::{FileRecord, Stored};
use crate::snapshot::Snapshot;

verus! {

/// The result of checking one record.
#[derive(Clone, Copy, Debug, PartialEq, Eq, Structural)]
pub enum Outcome {
    /// The contents hash to the stored digest.
    Pass,
    /// The contents hash to another digest.
    Fail,
    /// The file could not be read.
    ReadError,
}

/// The outcome for a record, given the digest of the file's contents now.
pub open spec fn outcome_spec(stored: Stored, computed: Seq<char>) -> Outcome {
    if stored.0 == computed {
        Outcome::Pass
    } else {
        Outcome::Fail
    }
}

/// The outcome for a record, given what reading its file gave.
pub open spec fn verify_spec(stored: Stored, contents: Option<Seq<u8>>) -> Outcome {
    match contents {
        None => Outcome::ReadError,
        Some(b) => outcome_spec(stored, digest_spec(b)),
    }
}

/// Compares the stored digest of `record` with `computed`.
pub fn outcome_of_digest(record: &FileRecord, computed: &String) -> (r: Outcome)
    ensures
        r == outcome_spec(record@.1, computed@),
{
    if record.digest == *computed {
        Outcome::Pass
    } else {
        Outcome::Fail
    }
}

/// Checks `record` against the contents read from its file, or `None` when
/// the read failed.
pub fn verify_entry(record: &FileRecord, contents: Option<&[u8]>) -> (r: Outcome)
    ensures
        r == verify_spec(
            record@.1,
            match contents {
                Some(b) => Some(b@),
                None => None,
            },
        ),
{
    match contents {
        None => Outcome::ReadError,
        Some(b) => {
            let computed = content_digest(b);
            outcome_of_digest(record, &computed)
        },
    }
}

/// Checks every record of `snapshot`, in its stored order, against what
/// reading its file gave (`reads[i]` for the record at position `i`). A failed
/// read gives `ReadError` for that record and checking goes on with the next.
pub fn verify_all(snapshot: &Snapshot, reads: &Vec<Option<Vec<u8>>>) -> (r: Vec<(String, Outcome)>)
    requires
        snapshot.wf(),
        reads.len() == snapshot@.len(),
    ensures
        r.len() == reads.len(),
        forall|i: int|
            0 <= i < r.len() ==> {
                &&& (#[trigger] r@[i]).0@ == snapshot.entries()[i].0
                &&& r@[i].1 == verify_spec(
                    snapshot.entries()[i].1,
                    match reads@[i] {
                        Some(b) => Some(b@),
                        None => None,
                    },
                )
            },
{
    let mut out: Vec<(String, Outcome)> = Vec::new();
    let n = snapshot.len();
    for i in 0..n
        invariant
            n == reads.len(),
            n == snapshot@.len(),
            snapshot.wf(),
            out.len() == i,
            forall|j: int|
                0 <= j < i ==> {
                    &&& (#[trigger] out@[j]).0@ == snapshot.entries()[j].0
                    &&& out@[j].1 == verify_spec(
                        snapshot.entries()[j].1,
                        match reads@[j] {
                            Some(b) => Some(b@),
                            None => None,
                        },
                    )
                },
    {
        let record = snapshot.entry(i);
        let outcome = match &reads[i] {
            Some(b) => verify_entry(record, Some(b.as_slice())),
            None => verify_entry(record, None),
        };
        out.push((record.path.clone(), outcome));
    }
    out
}

} // verus!
