//! What holds of whole reconciliation runs.
use vstd::prelude::*;
use crate::hex::{hex_digit, hex_of};
use crate::reconcile::{action_spec, fresh_spec, run_spec, step_spec, Action, Counts, Scan};
use crate::record::{still_valid, Stored};

verus! {

/// No two scanned files share a path, as a directory walk gives them.
pub open spec fn distinct_paths(fs: Seq<Scan>) -> bool {
    forall|i: int, j: int| 0 <= i < j < fs.len() ==> fs[i].0 != fs[j].0
}

/// The snapshot after `fs` when every action is decided against `m` itself.
spec fn apply_all(m: Map<Seq<char>, Stored>, fs: Seq<Scan>) -> Map<Seq<char>, Stored>
    decreases fs.len(),
{
    if fs.len() == 0 {
        m
    } else {
        let m1 = apply_all(m, fs.drop_last());
        let f = fs.last();
        if action_spec(m, f.0, f.1) == Action::Skip {
            m1
        } else {
            m1.insert(f.0, fresh_spec(f.1, f.2))
        }
    }
}

/// The counters after `fs` when every action is decided against `m` itself.
spec fn tally(m: Map<Seq<char>, Stored>, fs: Seq<Scan>) -> Counts
    decreases fs.len(),
{
    if fs.len() == 0 {
        (0, 0, 0)
    } else {
        let c = tally(m, fs.drop_last());
        let f = fs.last();
        match action_spec(m, f.0, f.1) {
            Action::Insert => (c.0 + 1, c.1, c.2),
            Action::Update => (c.0, c.1 + 1, c.2),
            Action::Skip => (c.0, c.1, c.2 + 1),
        }
    }
}

proof fn lemma_untouched(m: Map<Seq<char>, Stored>, fs: Seq<Scan>, k: Seq<char>)
    requires
        forall|i: int| 0 <= i < fs.len() ==> (#[trigger] fs[i]).0 != k,
    ensures
        apply_all(m, fs).contains_key(k) == m.contains_key(k),
        m.contains_key(k) ==> apply_all(m, fs)[k] == m[k],
    decreases fs.len(),
{
    if fs.len() > 0 {
        let d = fs.drop_last();
        assert forall|i: int| 0 <= i < d.len() implies (#[trigger] d[i]).0 != k by {
            assert(d[i] == fs[i]);
        }
        lemma_untouched(m, d, k);
        assert(fs[fs.len() - 1].0 != k);
    }
}

proof fn lemma_distinct_prefix(fs: Seq<Scan>)
    requires
        distinct_paths(fs),
        fs.len() > 0,
    ensures
        distinct_paths(fs.drop_last()),
        forall|i: int| 0 <= i < fs.len() - 1 ==> (#[trigger] fs.drop_last()[i]).0 != fs.last().0,
{
    assert forall|i: int| 0 <= i < fs.len() - 1 implies (#[trigger] fs.drop_last()[i]).0
        != fs.last().0 by {
        assert(fs.drop_last()[i] == fs[i]);
    }
}

/// With distinct paths, each file's action depends on the starting snapshot only.
proof fn lemma_run_decided_upfront(m: Map<Seq<char>, Stored>, fs: Seq<Scan>)
    requires
        distinct_paths(fs),
    ensures
        run_spec(m, fs) == (apply_all(m, fs), tally(m, fs)),
    decreases fs.len(),
{
    if fs.len() > 0 {
        let d = fs.drop_last();
        lemma_distinct_prefix(fs);
        lemma_run_decided_upfront(m, d);
        lemma_untouched(m, d, fs.last().0);
    }
}

/// After a run, every scanned file has a record that is valid for its metadata.
proof fn lemma_valid_after(m: Map<Seq<char>, Stored>, fs: Seq<Scan>, i: int)
    requires
        distinct_paths(fs),
        0 <= i < fs.len(),
    ensures
        apply_all(m, fs).contains_key(fs[i].0),
        still_valid(apply_all(m, fs)[fs[i].0], fs[i].1),
    decreases fs.len(),
{
    let d = fs.drop_last();
    lemma_distinct_prefix(fs);
    if i == fs.len() - 1 {
        lemma_untouched(m, d, fs.last().0);
    } else {
        lemma_valid_after(m, d, i);
        assert(d[i] == fs[i]);
    }
}

/// When every file is skipped, nothing changes and all are counted as skipped.
proof fn lemma_all_skip(m: Map<Seq<char>, Stored>, fs: Seq<Scan>)
    requires
        forall|i: int| 0 <= i < fs.len() ==> action_spec(m, (#[trigger] fs[i]).0, fs[i].1)
            == Action::Skip,
    ensures
        apply_all(m, fs) == m,
        tally(m, fs) == (0nat, 0nat, fs.len()),
    decreases fs.len(),
{
    if fs.len() > 0 {
        let d = fs.drop_last();
        assert forall|i: int| 0 <= i < d.len() implies action_spec(m, (#[trigger] d[i]).0, d[i].1)
            == Action::Skip by {
            assert(d[i] == fs[i]);
        }
        lemma_all_skip(m, d);
        assert(action_spec(m, fs[fs.len() - 1].0, fs[fs.len() - 1].1) == Action::Skip);
    }
}

/// When one file is updated and all others skipped, only its record changes.
proof fn lemma_one_update(m: Map<Seq<char>, Stored>, fs: Seq<Scan>, k: int)
    requires
        0 <= k < fs.len(),
        action_spec(m, fs[k].0, fs[k].1) == Action::Update,
        forall|i: int| 0 <= i < fs.len() && i != k ==> action_spec(m, (#[trigger] fs[i]).0, fs[i].1)
            == Action::Skip,
    ensures
        apply_all(m, fs) == m.insert(fs[k].0, fresh_spec(fs[k].1, fs[k].2)),
        tally(m, fs) == (0nat, 1nat, (fs.len() - 1) as nat),
    decreases fs.len(),
{
    let d = fs.drop_last();
    if k == fs.len() - 1 {
        assert forall|i: int| 0 <= i < d.len() implies action_spec(m, (#[trigger] d[i]).0, d[i].1)
            == Action::Skip by {
            assert(d[i] == fs[i]);
        }
        lemma_all_skip(m, d);
    } else {
        assert forall|i: int| 0 <= i < d.len() && i != k implies action_spec(
            m,
            (#[trigger] d[i]).0,
            d[i].1,
        ) == Action::Skip by {
            assert(d[i] == fs[i]);
        }
        assert(d[k] == fs[k]);
        lemma_one_update(m, d, k);
        assert(action_spec(m, fs[fs.len() - 1].0, fs[fs.len() - 1].1) == Action::Skip);
    }
}

proof fn lemma_hex_nonempty(n: nat)
    ensures
        hex_of(n).len() >= 1,
        n >= 16 ==> hex_of(n).len() >= 2,
    decreases n,
{
    if n >= 16 {
        lemma_hex_nonempty(n / 16);
    }
}

proof fn lemma_digit_injective(x: nat, y: nat)
    requires
        x < 16,
        y < 16,
        hex_digit(x) == hex_digit(y),
    ensures
        x == y,
{
    let cx = if x < 10 { 48 + x } else { 55 + x };
    let cy = if y < 10 { 48 + y } else { 55 + y };
    assert(hex_digit(x) as nat == cx);
    assert(hex_digit(y) as nat == cy);
}

/// Distinct numbers have distinct hex texts.
proof fn lemma_hex_injective(a: nat, b: nat)
    requires
        hex_of(a) == hex_of(b),
    ensures
        a == b,
    decreases a,
{
    lemma_hex_nonempty(a);
    lemma_hex_nonempty(b);
    if a < 16 && b < 16 {
        assert(hex_of(a) == seq![hex_digit(a)]);
        assert(hex_of(b) == seq![hex_digit(b)]);
        assert(hex_of(a)[0] == hex_digit(a));
        assert(hex_of(b)[0] == hex_digit(b));
        lemma_digit_injective(a, b);
    } else if a >= 16 && b >= 16 {
        assert(hex_of(a) == hex_of(a / 16).push(hex_digit(a % 16)));
        assert(hex_of(b) == hex_of(b / 16).push(hex_digit(b % 16)));
        assert(hex_of(a).last() == hex_digit(a % 16));
        assert(hex_of(b).last() == hex_digit(b % 16));
        lemma_digit_injective(a % 16, b % 16);
        assert(hex_of(a / 16) =~= hex_of(a).drop_last());
        assert(hex_of(b / 16) =~= hex_of(b).drop_last());
        lemma_hex_injective(a / 16, b / 16);
        assert(a == 16 * (a / 16) + a % 16) by (nonlinear_arith);
        assert(b == 16 * (b / 16) + b % 16) by (nonlinear_arith);
    } else {
        assert(hex_of(a).len() == hex_of(b).len());
    }
}

/// Running reconciliation a second time over the same files finds nothing to
/// do: no record changes and every file is counted as skipped.
pub proof fn lemma_idempotent(m: Map<Seq<char>, Stored>, fs: Seq<Scan>)
    requires
        distinct_paths(fs),
    ensures
        run_spec(run_spec(m, fs).0, fs) == (run_spec(m, fs).0, (0nat, 0nat, fs.len())),
{
    lemma_run_decided_upfront(m, fs);
    let m1 = apply_all(m, fs);
    assert forall|i: int| 0 <= i < fs.len() implies action_spec(m1, (#[trigger] fs[i]).0, fs[i].1)
        == Action::Skip by {
        lemma_valid_after(m, fs, i);
    }
    lemma_all_skip(m1, fs);
    lemma_run_decided_upfront(m1, fs);
}

/// After a run, a second run that also finds a file never seen before counts
/// exactly one insertion, skips the rest, and stores that file's digest.
pub proof fn lemma_new_file(m: Map<Seq<char>, Stored>, fs: Seq<Scan>, f: Scan)
    requires
        distinct_paths(fs.push(f)),
        !m.contains_key(f.0),
    ensures
        run_spec(run_spec(m, fs).0, fs.push(f)) == (
            run_spec(m, fs).0.insert(f.0, fresh_spec(f.1, f.2)),
            (1nat, 0nat, fs.len()),
        ),
        run_spec(run_spec(m, fs).0, fs.push(f)).0[f.0].0 == fresh_spec(f.1, f.2).0,
{
    let g = fs.push(f);
    assert(g.drop_last() =~= fs);
    lemma_distinct_prefix(g);
    lemma_idempotent(m, fs);
    lemma_run_decided_upfront(m, fs);
    lemma_untouched(m, fs, f.0);
}

/// After a run, a second run in which one writable file has a new
/// modification time updates exactly that file, to the digest of its new
/// contents, and skips the rest.
pub proof fn lemma_changed_file(m: Map<Seq<char>, Stored>, fs: Seq<Scan>, k: int, f: Scan)
    requires
        distinct_paths(fs),
        0 <= k < fs.len(),
        f.0 == fs[k].0,
        !fs[k].1.readonly,
        !f.1.readonly,
        f.1.modified != fs[k].1.modified,
    ensures
        run_spec(run_spec(m, fs).0, fs.update(k, f)) == (
            run_spec(m, fs).0.insert(f.0, fresh_spec(f.1, f.2)),
            (0nat, 1nat, (fs.len() - 1) as nat),
        ),
{
    let g = fs.update(k, f);
    lemma_run_decided_upfront(m, fs);
    let m1 = apply_all(m, fs);
    assert(distinct_paths(g)) by {
        assert forall|i: int, j: int| 0 <= i < j < g.len() implies g[i].0 != g[j].0 by {
            assert(g[i].0 == fs[i].0 && g[j].0 == fs[j].0);
        }
    }
    assert forall|i: int| 0 <= i < g.len() && i != k implies action_spec(
        m1,
        (#[trigger] g[i]).0,
        g[i].1,
    ) == Action::Skip by {
        lemma_valid_after(m, fs, i);
    }
    lemma_valid_after(m, fs, k);
    if still_valid(m1[f.0], f.1) {
        lemma_hex_injective(f.1.modified as nat, fs[k].1.modified as nat);
    }
    lemma_one_update(m1, g, k);
    lemma_run_decided_upfront(m1, g);
}

/// After a run, a second run in which a file's contents changed but its
/// metadata did not keeps its old record and skips every file: the staleness
/// rule looks at metadata only.
pub proof fn lemma_content_only_change(m: Map<Seq<char>, Stored>, fs: Seq<Scan>, k: int, f: Scan)
    requires
        distinct_paths(fs),
        0 <= k < fs.len(),
        f.0 == fs[k].0,
        f.1 == fs[k].1,
    ensures
        run_spec(run_spec(m, fs).0, fs.update(k, f)) == (run_spec(m, fs).0, (0nat, 0nat, fs.len())),
{
    let g = fs.update(k, f);
    lemma_run_decided_upfront(m, fs);
    let m1 = apply_all(m, fs);
    assert(distinct_paths(g)) by {
        assert forall|i: int, j: int| 0 <= i < j < g.len() implies g[i].0 != g[j].0 by {
            assert(g[i].0 == fs[i].0 && g[j].0 == fs[j].0);
        }
    }
    assert forall|i: int| 0 <= i < g.len() implies action_spec(m1, (#[trigger] g[i]).0, g[i].1)
        == Action::Skip by {
        lemma_valid_after(m, fs, i);
    }
    lemma_all_skip(m1, g);
    lemma_run_decided_upfront(m1, g);
}

/// A read-only file with a record is skipped whatever its timestamps and
/// contents: its record stays as it was.
pub proof fn lemma_readonly_skipped(m: Map<Seq<char>, Stored>, c: Counts, f: Scan)
    requires
        m.contains_key(f.0),
        f.1.readonly,
    ensures
        step_spec(m, c, f) == (m, (c.0, c.1, c.2 + 1)),
{
}

} // verus!
