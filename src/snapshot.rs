//! The snapshot: every tracked path with its stored record, and its text form,
//! one `path>digest>created>modified` line per record.
use vstd::prelude::*;
use vstd::string::StringExecFns;
use crate::record::{FileRecord, Stored};
use crate::split::{free_of, lemma_split_close, lemma_split_extend, lines_of, split_fields, split_on, split_state};

verus! {

/// A record in its stored text form, without the line end.
pub open spec fn line_of(e: (Seq<char>, Stored)) -> Seq<char> {
    e.0 + seq!['>'] + e.1.0 + seq!['>'] + e.1.1 + seq!['>'] + e.1.2
}

/// A line read back: it must hold exactly four fields.
pub open spec fn parse_spec(line: Seq<char>) -> Option<(Seq<char>, Stored)> {
    let f = split_on(line, '>');
    if f.len() == 4 {
        Some((f[0], (f[1], f[2], f[3])))
    } else {
        None
    }
}

/// The mapping that records give when inserted in order; a later record for a
/// path replaces an earlier one.
pub open spec fn map_of(es: Seq<(Seq<char>, Stored)>) -> Map<Seq<char>, Stored>
    decreases es.len(),
{
    if es.len() == 0 {
        Map::empty()
    } else {
        map_of(es.drop_last()).insert(es.last().0, es.last().1)
    }
}

/// The mapping that lines give, or `None` when any line is malformed.
pub open spec fn load_spec(lines: Seq<Seq<char>>) -> Option<Map<Seq<char>, Stored>>
    decreases lines.len(),
{
    if lines.len() == 0 {
        Some(Map::empty())
    } else {
        match (load_spec(lines.drop_last()), parse_spec(lines.last())) {
            (Some(m), Some(e)) => Some(m.insert(e.0, e.1)),
            _ => None,
        }
    }
}

/// The saved text of records, one line each, in order.
pub open spec fn save_spec(es: Seq<(Seq<char>, Stored)>) -> Seq<char>
    decreases es.len(),
{
    if es.len() == 0 {
        seq![]
    } else {
        save_spec(es.drop_last()) + line_of(es.last()).push('\n')
    }
}

pub open spec fn unique_paths(es: Seq<(Seq<char>, Stored)>) -> bool {
    forall|i: int, j: int| 0 <= i < j < es.len() ==> es[i].0 != es[j].0
}

/// No field of the entry holds the field separator or a line end.
pub open spec fn plain_entry(k: Seq<char>, v: Stored) -> bool {
    &&& free_of(k, '>') && free_of(k, '\n')
    &&& free_of(v.0, '>') && free_of(v.0, '\n')
    &&& free_of(v.1, '>') && free_of(v.1, '\n')
    &&& free_of(v.2, '>') && free_of(v.2, '\n')
}

/// Why a snapshot text could not be loaded: the line at index `line`
/// (counting from zero) does not hold exactly four fields.
#[derive(Clone, Copy, Debug, PartialEq, Eq)]
pub struct LoadError {
    pub line: usize,
}

/// All tracked paths with their records; at most one record per path.
pub struct Snapshot {
    records: Vec<FileRecord>,
}

impl View for Snapshot {
    type V = Map<Seq<char>, Stored>;

    open spec fn view(&self) -> Map<Seq<char>, Stored> {
        map_of(self.entries())
    }
}

proof fn lemma_map_of_key(es: Seq<(Seq<char>, Stored)>, k: Seq<char>)
    ensures
        map_of(es).contains_key(k) <==> exists|i: int| 0 <= i < es.len() && es[i].0 == k,
    decreases es.len(),
{
    if es.len() > 0 {
        let d = es.drop_last();
        lemma_map_of_key(d, k);
        if exists|i: int| 0 <= i < d.len() && d[i].0 == k {
            let i = choose|i: int| 0 <= i < d.len() && d[i].0 == k;
            assert(es[i].0 == k);
        }
        if exists|i: int| 0 <= i < es.len() && es[i].0 == k {
            let i = choose|i: int| 0 <= i < es.len() && es[i].0 == k;
            if i < d.len() {
                assert(d[i].0 == k);
            }
        }
    }
}

pub proof fn lemma_map_of_dom(es: Seq<(Seq<char>, Stored)>)
    ensures
        forall|k: Seq<char>| #[trigger]
            map_of(es).contains_key(k) <==> exists|i: int| 0 <= i < es.len() && es[i].0 == k,
{
    assert forall|k: Seq<char>| #[trigger]
        map_of(es).contains_key(k) <==> exists|i: int| 0 <= i < es.len() && es[i].0 == k by {
        lemma_map_of_key(es, k);
    }
}

pub proof fn lemma_map_of_value(es: Seq<(Seq<char>, Stored)>, i: int)
    requires
        unique_paths(es),
        0 <= i < es.len(),
    ensures
        map_of(es).contains_key(es[i].0),
        map_of(es)[es[i].0] == es[i].1,
    decreases es.len(),
{
    if i < es.len() - 1 {
        lemma_map_of_value(es.drop_last(), i);
        assert(es.drop_last()[i] == es[i]);
    }
}

proof fn lemma_map_of_update(es: Seq<(Seq<char>, Stored)>, i: int, e: (Seq<char>, Stored))
    requires
        unique_paths(es),
        0 <= i < es.len(),
        e.0 == es[i].0,
    ensures
        map_of(es.update(i, e)) =~= map_of(es).insert(e.0, e.1),
    decreases es.len(),
{
    let u = es.update(i, e);
    if i == es.len() - 1 {
        assert(u.drop_last() =~= es.drop_last());
    } else {
        assert(u.drop_last() =~= es.drop_last().update(i, e));
        lemma_map_of_update(es.drop_last(), i, e);
        assert(es.last().0 != e.0);
    }
}

impl Snapshot {
    /// The records in their stored order.
    pub closed spec fn entries(&self) -> Seq<(Seq<char>, Stored)> {
        self.records@.map_values(|r: FileRecord| r@)
    }

    pub open spec fn wf(&self) -> bool {
        unique_paths(self.entries())
    }

    /// An empty snapshot.
    pub fn new() -> (r: Snapshot)
        ensures
            r.wf(),
            r@ == Map::<Seq<char>, Stored>::empty(),
    {
        let r = Snapshot { records: Vec::new() };
        assert(r.entries() =~= seq![]);
        r
    }

    /// Number of records.
    pub fn len(&self) -> (n: usize)
        requires
            self.wf(),
        ensures
            n == self@.len(),
    {
        proof {
            self.lemma_len();
        }
        self.records.len()
    }

    proof fn lemma_len(&self)
        requires
            self.wf(),
        ensures
            self@.len() == self.entries().len(),
        decreases self.records.len(),
    {
        let es = self.entries();
        lemma_map_of_dom(es);
        lemma_unique_len(es);
    }

    /// The record at position `i` of the stored order.
    pub fn entry(&self, i: usize) -> (r: &FileRecord)
        requires
            self.wf(),
            i < self@.len(),
        ensures
            r@ == self.entries()[i as int],
            self@.contains_key(r@.0),
            self@[r@.0] == r@.1,
    {
        proof {
            self.lemma_len();
            lemma_map_of_value(self.entries(), i as int);
        }
        &self.records[i]
    }

    /// Position of the record for `path`.
    fn position(&self, path: &String) -> (r: Option<usize>)
        ensures
            match r {
                Some(i) => i < self.records.len() && self.entries()[i as int].0 == path@,
                None => forall|i: int| 0 <= i < self.records.len() ==> self.entries()[i].0 != path@,
            },
    {
        let mut i: usize = 0;
        while i < self.records.len()
            invariant
                i <= self.records.len(),
                forall|j: int| 0 <= j < i ==> self.entries()[j].0 != path@,
            decreases self.records.len() - i,
        {
            if self.records[i].path == *path {
                return Some(i);
            }
            i = i + 1;
        }
        None
    }

    /// The record stored for `path`, if any.
    pub fn get(&self, path: &String) -> (r: Option<&FileRecord>)
        requires
            self.wf(),
        ensures
            match r {
                Some(rec) => self@.contains_key(path@) && rec@.0 == path@ && self@[path@] == rec@.1,
                None => !self@.contains_key(path@),
            },
    {
        proof {
            lemma_map_of_dom(self.entries());
        }
        match self.position(path) {
            Some(i) => {
                proof {
                    lemma_map_of_value(self.entries(), i as int);
                }
                Some(&self.records[i])
            },
            None => None,
        }
    }

    /// Stores `rec`, replacing any record of the same path.
    pub fn insert(&mut self, rec: FileRecord)
        requires
            old(self).wf(),
        ensures
            final(self).wf(),
            final(self)@ == old(self)@.insert(rec@.0, rec@.1),
    {
        let ghost es = self.entries();
        let ghost e = rec@;
        match self.position(&rec.path) {
            Some(i) => {
                self.records.set(i, rec);
                proof {
                    assert(self.entries() =~= es.update(i as int, e));
                    lemma_map_of_update(es, i as int, e);
                }
            },
            None => {
                self.records.push(rec);
                proof {
                    assert(self.entries() =~= es.push(e));
                    assert(self.entries().drop_last() =~= es);
                }
            },
        }
    }
}

proof fn lemma_unique_len(es: Seq<(Seq<char>, Stored)>)
    requires
        unique_paths(es),
    ensures
        map_of(es).len() == es.len(),
        map_of(es).dom().finite(),
    decreases es.len(),
{
    if es.len() > 0 {
        let d = es.drop_last();
        lemma_unique_len(d);
        lemma_map_of_dom(d);
        assert(!map_of(d).contains_key(es.last().0)) by {
            if map_of(d).contains_key(es.last().0) {
                let i = choose|i: int| 0 <= i < d.len() && d[i].0 == es.last().0;
                assert(es[i].0 == es[es.len() - 1].0);
            }
        }
    }
}

/// Reads one stored line back into a record.
pub fn parse_line(line: &str) -> (r: Option<FileRecord>)
    ensures
        match r {
            Some(rec) => parse_spec(line@) == Some(rec@),
            None => parse_spec(line@) is None,
        },
{
    let mut f = split_fields(line, '>');
    if f.len() != 4 {
        return None;
    }
    let ghost v = f@;
    assert(v.map_values(|s: String| s@)[3] == v[3]@);
    assert(v.map_values(|s: String| s@)[2] == v[2]@);
    assert(v.map_values(|s: String| s@)[1] == v[1]@);
    assert(v.map_values(|s: String| s@)[0] == v[0]@);
    let modified_at = f.pop().unwrap();
    let created_at = f.pop().unwrap();
    let digest = f.pop().unwrap();
    let path = f.pop().unwrap();
    Some(FileRecord { path, digest, created_at, modified_at })
}

/// The view of each line.
pub open spec fn views_of(lines: Seq<String>) -> Seq<Seq<char>> {
    lines.map_values(|s: String| s@)
}

proof fn lemma_load_none_ext(ls: Seq<Seq<char>>, j: int)
    requires
        0 <= j <= ls.len(),
        load_spec(ls.take(j)) is None,
    ensures
        load_spec(ls) is None,
    decreases ls.len() - j,
{
    if j == ls.len() {
        assert(ls.take(j) =~= ls);
    } else {
        assert(ls.take(j + 1).drop_last() =~= ls.take(j));
        lemma_load_none_ext(ls, j + 1);
    }
}

/// Builds a snapshot from its stored lines, in order; a later line for a path
/// replaces an earlier one. Fails on the first line without exactly four fields.
pub fn load_lines(lines: &Vec<String>) -> (r: Result<Snapshot, LoadError>)
    ensures
        match r {
            Ok(s) => s.wf() && load_spec(views_of(lines@)) == Some(s@),
            Err(e) => {
                &&& load_spec(views_of(lines@)) is None
                &&& e.line < lines.len()
                &&& parse_spec(lines@[e.line as int]@) is None
                &&& forall|j: int| 0 <= j < e.line ==> parse_spec(#[trigger] lines@[j]@) is Some
            },
        },
{
    let ghost ls = views_of(lines@);
    let mut snap = Snapshot::new();
    let mut i: usize = 0;
    assert(ls.take(0) =~= seq![]);
    while i < lines.len()
        invariant
            i <= lines.len(),
            ls == views_of(lines@),
            snap.wf(),
            load_spec(ls.take(i as int)) == Some(snap@),
            forall|j: int| 0 <= j < i ==> parse_spec(#[trigger] lines@[j]@) is Some,
        decreases lines.len() - i,
    {
        assert(ls.take(i + 1).drop_last() =~= ls.take(i as int));
        assert(ls.take(i + 1).last() == lines@[i as int]@);
        match parse_line(lines[i].as_str()) {
            Some(rec) => {
                snap.insert(rec);
            },
            None => {
                proof {
                    lemma_load_none_ext(ls, i + 1);
                }
                return Err(LoadError { line: i });
            },
        }
        i = i + 1;
    }
    assert(ls.take(i as int) =~= ls);
    Ok(snap)
}

/// The text that stores `snapshot`: one `path>digest>created>modified` line
/// per record, each ended by a newline.
pub fn hashmap_to_string(snapshot: &Snapshot) -> (r: String)
    ensures
        r@ == save_spec(snapshot.entries()),
{
    let ghost es = snapshot.entries();
    let sep = ">";
    let nl = "\n";
    proof {
        reveal_strlit(">");
        reveal_strlit("\n");
    }
    assert(sep@ =~= seq!['>']);
    assert(nl@ =~= seq!['\n']);
    let mut out = String::new();
    let n = snapshot.records.len();
    assert(es.take(0) =~= seq![]);
    for i in 0..n
        invariant
            n == snapshot.records.len(),
            es == snapshot.entries(),
            sep@ == seq!['>'],
            nl@ == seq!['\n'],
            out@ == save_spec(es.take(i as int)),
    {
        let rec = &snapshot.records[i];
        let ghost before = out@;
        out.append(rec.path.as_str());
        out.append(sep);
        out.append(rec.digest.as_str());
        out.append(sep);
        out.append(rec.created_at.as_str());
        out.append(sep);
        out.append(rec.modified_at.as_str());
        out.append(nl);
        assert(es.take(i + 1).drop_last() =~= es.take(i as int));
        assert(es.take(i + 1).last() == rec@);
        let ghost gt = seq!['>'];
        assert(out@ =~= before + rec.path@ + gt + rec.digest@ + gt + rec.created_at@ + gt
            + rec.modified_at@ + seq!['\n']);
        assert(line_of(rec@).push('\n') =~= rec.path@ + gt + rec.digest@ + gt + rec.created_at@
            + gt + rec.modified_at@ + seq!['\n']);
        assert(out@ =~= before + line_of(rec@).push('\n'));
    }
    assert(es.take(n as int) =~= es);
    out
}

proof fn lemma_free_concat(a: Seq<char>, b: Seq<char>, c: char)
    requires
        free_of(a, c),
        free_of(b, c),
    ensures
        free_of(a + b, c),
{
    assert forall|i: int| 0 <= i < (a + b).len() implies (a + b)[i] != c by {
        if i >= a.len() {
            assert((a + b)[i] == b[i - a.len()]);
        }
    }
}

proof fn lemma_line_free(e: (Seq<char>, Stored))
    requires
        plain_entry(e.0, e.1),
    ensures
        free_of(line_of(e), '\n'),
{
    let gt = seq!['>'];
    assert(free_of(gt, '\n'));
    lemma_free_concat(e.0, gt, '\n');
    lemma_free_concat(e.0 + gt, e.1.0, '\n');
    lemma_free_concat(e.0 + gt + e.1.0, gt, '\n');
    lemma_free_concat(e.0 + gt + e.1.0 + gt, e.1.1, '\n');
    lemma_free_concat(e.0 + gt + e.1.0 + gt + e.1.1, gt, '\n');
    lemma_free_concat(e.0 + gt + e.1.0 + gt + e.1.1 + gt, e.1.2, '\n');
}

proof fn lemma_parse_line_of(e: (Seq<char>, Stored))
    requires
        plain_entry(e.0, e.1),
    ensures
        parse_spec(line_of(e)) == Some(e),
{
    let empty = Seq::<char>::empty();
    let l1 = e.0.push('>');
    let l2 = l1 + e.1.0;
    let l3 = l2.push('>');
    let l4 = l3 + e.1.1;
    let l5 = l4.push('>');
    let l6 = l5 + e.1.2;
    assert(line_of(e) =~= l6);
    lemma_split_extend(empty, e.0, '>');
    assert(empty + e.0 =~= e.0);
    assert(empty + e.0 =~= e.0);
    lemma_split_close(e.0, '>');
    lemma_split_extend(l1, e.1.0, '>');
    lemma_split_close(l2, '>');
    lemma_split_extend(l3, e.1.1, '>');
    lemma_split_close(l4, '>');
    lemma_split_extend(l5, e.1.2, '>');
    assert(empty + e.1.0 =~= e.1.0);
    assert(empty + e.1.1 =~= e.1.1);
    assert(empty + e.1.2 =~= e.1.2);
    assert(split_on(l6, '>') =~= seq![e.0, e.1.0, e.1.1, e.1.2]);
}

proof fn lemma_split_save(es: Seq<(Seq<char>, Stored)>)
    requires
        forall|i: int| 0 <= i < es.len() ==> plain_entry(#[trigger] es[i].0, es[i].1),
    ensures
        split_state(save_spec(es), '\n') == (
            es.map_values(|e: (Seq<char>, Stored)| line_of(e)),
            Seq::<char>::empty(),
        ),
    decreases es.len(),
{
    if es.len() > 0 {
        let d = es.drop_last();
        assert forall|i: int| 0 <= i < d.len() implies plain_entry(#[trigger] d[i].0, d[i].1) by {
            assert(d[i] == es[i]);
        }
        lemma_split_save(d);
        let l = line_of(es.last());
        assert(plain_entry(es[es.len() - 1].0, es[es.len() - 1].1));
        lemma_line_free(es.last());
        lemma_split_extend(save_spec(d), l, '\n');
        lemma_split_close(save_spec(d) + l, '\n');
        assert(save_spec(d) + l.push('\n') =~= (save_spec(d) + l).push('\n'));
        assert(Seq::<char>::empty() + l =~= l);
        assert(es.map_values(|e: (Seq<char>, Stored)| line_of(e)) =~= d.map_values(
            |e: (Seq<char>, Stored)| line_of(e),
        ).push(l));
    }
}

proof fn lemma_load_saved_lines(es: Seq<(Seq<char>, Stored)>)
    requires
        forall|i: int| 0 <= i < es.len() ==> plain_entry(#[trigger] es[i].0, es[i].1),
    ensures
        load_spec(es.map_values(|e: (Seq<char>, Stored)| line_of(e))) == Some(map_of(es)),
    decreases es.len(),
{
    if es.len() > 0 {
        let d = es.drop_last();
        assert forall|i: int| 0 <= i < d.len() implies plain_entry(#[trigger] d[i].0, d[i].1) by {
            assert(d[i] == es[i]);
        }
        lemma_load_saved_lines(d);
        assert(plain_entry(es[es.len() - 1].0, es[es.len() - 1].1));
        lemma_parse_line_of(es.last());
        let ls = es.map_values(|e: (Seq<char>, Stored)| line_of(e));
        assert(ls.drop_last() =~= d.map_values(|e: (Seq<char>, Stored)| line_of(e)));
    }
}

/// Saving a snapshot and reading its text back line by line gives the same
/// mapping of paths to records, provided no path or field holds `>` or a
/// line end.
pub proof fn lemma_round_trip(s: Snapshot)
    requires
        s.wf(),
        forall|k: Seq<char>| s@.contains_key(k) ==> plain_entry(k, #[trigger] s@[k]),
    ensures
        load_spec(lines_of(save_spec(s.entries()))) == Some(s@),
{
    let es = s.entries();
    assert forall|i: int| 0 <= i < es.len() implies plain_entry(#[trigger] es[i].0, es[i].1) by {
        lemma_map_of_value(es, i);
        assert(s@.contains_key(es[i].0));
        assert(plain_entry(es[i].0, s@[es[i].0]));
    }
    lemma_split_save(es);
    lemma_load_saved_lines(es);
}

} // verus!
