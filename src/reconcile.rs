//! Bringing a snapshot up to date with the files found under a root: each
//! file is inserted, re-hashed, or skipped when its stored record is still valid.
use vstd::prelude::*;
use crate::digest::{content_digest, digest_spec};
use crate::hex::{hex_of, hex_upper};
use crate::record::{is_valid, still_valid, FileMeta, FileRecord, Stored};
use crate::snapshot::Snapshot;

verus! {

/// What reconciliation does with one file.
#[derive(Clone, Copy, Debug, PartialEq, Eq, Structural)]
pub enum Action {
    /// The path had no record: a fresh one is added.
    Insert,
    /// The record is stale: a fresh one replaces it.
    Update,
    /// The record is still valid: it is kept and the file is not read.
    Skip,
}

/// Counters of one reconciliation run.
#[derive(Clone, Copy, Debug, PartialEq, Eq, Structural)]
pub struct Stats {
    pub inserted: u64,
    pub updated: u64,
    pub skipped: u64,
}

/// Inserted, updated and skipped counts, as numbers.
pub type Counts = (nat, nat, nat);

pub open spec fn counts_of(s: Stats) -> Counts {
    (s.inserted as nat, s.updated as nat, s.skipped as nat)
}

/// One file found under the root, with its contents.
pub struct ScannedFile {
    pub path: String,
    pub meta: FileMeta,
    pub contents: Vec<u8>,
}

/// A scanned file as plain values: path, metadata, contents.
pub type Scan = (Seq<char>, FileMeta, Seq<u8>);

impl View for ScannedFile {
    type V = Scan;

    open spec fn view(&self) -> Scan {
        (self.path@, self.meta, self.contents@)
    }
}

/// What to do with the file at `path`, given what the snapshot holds.
pub open spec fn action_spec(m: Map<Seq<char>, Stored>, path: Seq<char>, meta: FileMeta) -> Action {
    if !m.contains_key(path) {
        Action::Insert
    } else if still_valid(m[path], meta) {
        Action::Skip
    } else {
        Action::Update
    }
}

/// The record freshly computed for a file.
pub open spec fn fresh_spec(meta: FileMeta, contents: Seq<u8>) -> Stored {
    (digest_spec(contents), hex_of(meta.created as nat), hex_of(meta.modified as nat))
}

/// The snapshot and counters after handling one file.
pub open spec fn step_spec(m: Map<Seq<char>, Stored>, c: Counts, f: Scan) -> (
    Map<Seq<char>, Stored>,
    Counts,
) {
    match action_spec(m, f.0, f.1) {
        Action::Insert => (m.insert(f.0, fresh_spec(f.1, f.2)), (c.0 + 1, c.1, c.2)),
        Action::Update => (m.insert(f.0, fresh_spec(f.1, f.2)), (c.0, c.1 + 1, c.2)),
        Action::Skip => (m, (c.0, c.1, c.2 + 1)),
    }
}

/// The snapshot and counters after handling `files` in order, from zero counters.
pub open spec fn run_spec(m: Map<Seq<char>, Stored>, files: Seq<Scan>) -> (
    Map<Seq<char>, Stored>,
    Counts,
)
    decreases files.len(),
{
    if files.len() == 0 {
        (m, (0, 0, 0))
    } else {
        let (m1, c1) = run_spec(m, files.drop_last());
        step_spec(m1, c1, files.last())
    }
}

/// Decides what reconciliation does with the file at `path`.
pub fn classify(snapshot: &Snapshot, path: &String, meta: &FileMeta) -> (r: Action)
    requires
        snapshot.wf(),
    ensures
        r == action_spec(snapshot@, path@, *meta),
{
    match snapshot.get(path) {
        None => Action::Insert,
        Some(rec) => if is_valid(rec, meta) {
            Action::Skip
        } else {
            Action::Update
        },
    }
}

/// A fresh record for a file: the digest of its contents and its current
/// timestamp tokens.
pub fn fresh_record(path: String, meta: &FileMeta, contents: &[u8]) -> (r: FileRecord)
    ensures
        r@ == (path@, fresh_spec(*meta, contents@)),
{
    FileRecord {
        path,
        digest: content_digest(contents),
        created_at: hex_upper(meta.created as u128),
        modified_at: hex_upper(meta.modified as u128),
    }
}

/// Handles one file: inserts or replaces its record, or skips it, and counts
/// which. On a skip `contents` is not looked at, so a caller may pass empty
/// contents for a file that `classify` says is skipped.
pub fn reconcile_step(
    snapshot: &mut Snapshot,
    stats: &mut Stats,
    path: String,
    meta: &FileMeta,
    contents: &[u8],
) -> (r: Action)
    requires
        old(snapshot).wf(),
        old(stats).inserted + old(stats).updated + old(stats).skipped < u64::MAX,
    ensures
        final(snapshot).wf(),
        r == action_spec(old(snapshot)@, path@, *meta),
        (final(snapshot)@, counts_of(*final(stats))) == step_spec(
            old(snapshot)@,
            counts_of(*old(stats)),
            (path@, *meta, contents@),
        ),
        final(stats).inserted + final(stats).updated + final(stats).skipped == old(stats).inserted
            + old(stats).updated + old(stats).skipped + 1,
{
    let action = classify(snapshot, &path, meta);
    match action {
        Action::Skip => {
            stats.skipped = stats.skipped + 1;
        },
        Action::Insert => {
            snapshot.insert(fresh_record(path, meta, contents));
            stats.inserted = stats.inserted + 1;
        },
        Action::Update => {
            snapshot.insert(fresh_record(path, meta, contents));
            stats.updated = stats.updated + 1;
        },
    }
    action
}

/// Handles every file of `files` in order, from zero counters.
pub fn reconcile(snapshot: &mut Snapshot, files: &Vec<ScannedFile>) -> (r: Stats)
    requires
        old(snapshot).wf(),
        files.len() < u64::MAX,
    ensures
        final(snapshot).wf(),
        (final(snapshot)@, counts_of(r)) == run_spec(
            old(snapshot)@,
            files@.map_values(|f: ScannedFile| f@),
        ),
{
    let ghost start = snapshot@;
    let ghost fs = files@.map_values(|f: ScannedFile| f@);
    let mut stats = Stats { inserted: 0, updated: 0, skipped: 0 };
    let mut i: usize = 0;
    assert(fs.take(0) =~= seq![]);
    while i < files.len()
        invariant
            i <= files.len(),
            files.len() < u64::MAX,
            fs == files@.map_values(|f: ScannedFile| f@),
            snapshot.wf(),
            stats.inserted + stats.updated + stats.skipped == i,
            (snapshot@, counts_of(stats)) == run_spec(start, fs.take(i as int)),
        decreases files.len() - i,
    {
        let f = &files[i];
        assert(fs.take(i + 1).drop_last() =~= fs.take(i as int));
        assert(fs.take(i + 1).last() == f@);
        reconcile_step(snapshot, &mut stats, f.path.clone(), &f.meta, f.contents.as_slice());
        i = i + 1;
    }
    assert(fs.take(i as int) =~= fs);
    stats
}

} // verus!
