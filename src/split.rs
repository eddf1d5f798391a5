//! Cutting text at a separator character, the way `str::split` and
//! line-by-line reading do.
use vstd::prelude::*;
use vstd::string::StrSliceExecFns;

verus! {

/// Pieces finished so far, and the piece still open, after reading `t`.
pub open spec fn split_state(t: Seq<char>, sep: char) -> (Seq<Seq<char>>, Seq<char>)
    decreases t.len(),
{
    if t.len() == 0 {
        (seq![], seq![])
    } else {
        let (done, open) = split_state(t.drop_last(), sep);
        if t.last() == sep {
            (done.push(open), seq![])
        } else {
            (done, open.push(t.last()))
        }
    }
}

/// The pieces of `t` between separators; `n` separators give `n + 1` pieces.
pub open spec fn split_on(t: Seq<char>, sep: char) -> Seq<Seq<char>> {
    split_state(t, sep).0.push(split_state(t, sep).1)
}

/// The lines of `t`: each ends at a newline, and a last line without one
/// counts only when it is not empty.
pub open spec fn lines_of(t: Seq<char>) -> Seq<Seq<char>> {
    let (done, open) = split_state(t, '\n');
    if open.len() == 0 {
        done
    } else {
        done.push(open)
    }
}

pub open spec fn free_of(t: Seq<char>, c: char) -> bool {
    forall|i: int| 0 <= i < t.len() ==> t[i] != c
}

/// Text without the separator only extends the open piece.
pub proof fn lemma_split_extend(a: Seq<char>, w: Seq<char>, sep: char)
    requires
        free_of(w, sep),
    ensures
        split_state(a + w, sep) == (split_state(a, sep).0, split_state(a, sep).1 + w),
    decreases w.len(),
{
    if w.len() == 0 {
        assert(a + w =~= a);
        assert(split_state(a, sep).1 + w =~= split_state(a, sep).1);
    } else {
        let w0 = w.drop_last();
        assert((a + w).drop_last() =~= a + w0);
        assert((a + w).last() == w.last());
        lemma_split_extend(a, w0, sep);
        assert(split_state(a, sep).1 + w0.push(w.last()) =~= (split_state(a, sep).1 + w0).push(
            w.last(),
        ));
        assert(w0.push(w.last()) =~= w);
    }
}

/// A separator closes the open piece.
pub proof fn lemma_split_close(a: Seq<char>, sep: char)
    ensures
        split_state(a.push(sep), sep) == (
            split_state(a, sep).0.push(split_state(a, sep).1),
            Seq::<char>::empty(),
        ),
{
    assert(a.push(sep).drop_last() =~= a);
}

/// The pieces of `line` cut at `sep`.
pub fn split_fields(line: &str, sep: char) -> (r: Vec<String>)
    ensures
        r@.map_values(|s: String| s@) == split_on(line@, sep),
{
    let n = line.unicode_len();
    let mut pieces: Vec<String> = Vec::new();
    let mut start: usize = 0;
    let mut i: usize = 0;
    for c in it: line.chars()
        invariant
            n == line@.len(),
            it.seq() == line@,
            i == it.index(),
            start <= i <= n,
            pieces@.map_values(|s: String| s@) == split_state(line@.take(i as int), sep).0,
            line@.subrange(start as int, i as int) == split_state(line@.take(i as int), sep).1,
    {
        let ghost t = line@.take(i as int);
        assert(c == line@[i as int]);
        assert(line@.take(i + 1).drop_last() =~= t);
        if c == sep {
            let piece = String::from_str(line.substring_char(start, i));
            pieces.push(piece);
            assert(pieces@.map_values(|s: String| s@) =~= split_state(t, sep).0.push(
                split_state(t, sep).1,
            ));
            start = i + 1;
        } else {
            assert(line@.subrange(start as int, i + 1) =~= line@.subrange(start as int, i as int).push(c));
        }
        i = i + 1;
    }
    assert(line@.take(i as int) =~= line@);
    let last = String::from_str(line.substring_char(start, n));
    pieces.push(last);
    assert(pieces@.map_values(|s: String| s@) =~= split_on(line@, sep));
    pieces
}

} // verus!
