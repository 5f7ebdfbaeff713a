//! The layout of a tab-separated matrix: lines, fields, the header row and
//! the row and column names.
//!
//! Text is handled as bytes. Lines end at `\n` (a `\r` before it is
//! dropped) and blank lines are skipped; fields are separated by `\t`. A
//! first line whose first field is empty is a header: its other fields name
//! the columns, and every later line starts with its row's name. Without a
//! header every field is a value, and rows and columns are numbered from 1.
//! Turning a value field into a number is left to the caller.

use vstd::prelude::*;
use crate::names::{decimal, push_decimal};

verus! {

/// Line feed.
pub const NEWLINE: u8 = 10;

/// Carriage return.
pub const CARRIAGE_RETURN: u8 = 13;

/// Horizontal tab.
pub const TAB: u8 = 9;

/// The pieces of `s` between occurrences of `sep`: one more piece than
/// there are separators.
pub open spec fn split_on(s: Seq<u8>, sep: u8) -> Seq<Seq<u8>>
    decreases s.len(),
{
    if s.len() == 0 {
        seq![Seq::<u8>::empty()]
    } else {
        let p = split_on(s.drop_last(), sep);
        if s.last() == sep {
            p.push(Seq::<u8>::empty())
        } else {
            p.update(p.len() - 1, p.last().push(s.last()))
        }
    }
}

/// A line without its trailing carriage return, if it has one.
pub open spec fn strip_cr(line: Seq<u8>) -> Seq<u8> {
    if line.len() > 0 && line.last() == CARRIAGE_RETURN {
        line.drop_last()
    } else {
        line
    }
}

/// The records of the first `k` lines: each non-blank line (after dropping
/// a trailing carriage return) split into its fields.
pub open spec fn records_of(lines: Seq<Seq<u8>>, k: int) -> Seq<Seq<Seq<u8>>>
    decreases k,
{
    if k <= 0 {
        Seq::empty()
    } else {
        let line = strip_cr(lines[k - 1]);
        if line.len() == 0 {
            records_of(lines, k - 1)
        } else {
            records_of(lines, k - 1).push(split_on(line, TAB))
        }
    }
}

/// The records of a text.
pub open spec fn spec_records(text: Seq<u8>) -> Seq<Seq<Seq<u8>>> {
    let lines = split_on(text, NEWLINE);
    records_of(lines, lines.len() as int)
}

/// The byte views of a sequence of byte vectors.
pub open spec fn byte_views(v: Seq<Vec<u8>>) -> Seq<Seq<u8>> {
    v.map_values(|x: Vec<u8>| x@)
}

proof fn lemma_split_on_nonempty(s: Seq<u8>, sep: u8)
    ensures
        split_on(s, sep).len() >= 1,
    decreases s.len(),
{
    if s.len() > 0 {
        lemma_split_on_nonempty(s.drop_last(), sep);
    }
}

/// Splits `s[from..to]` at every `sep`.
pub fn split_range(s: &Vec<u8>, from: usize, to: usize, sep: u8) -> (pieces: Vec<Vec<u8>>)
    requires
        from <= to <= s.len(),
    ensures
        byte_views(pieces@) == split_on(s@.subrange(from as int, to as int), sep),
{
    let mut pieces: Vec<Vec<u8>> = Vec::new();
    let mut cur: Vec<u8> = Vec::new();
    let mut i = from;
    assert(s@.subrange(from as int, from as int) =~= Seq::<u8>::empty());
    while i < to
        invariant
            from <= i <= to <= s.len(),
            byte_views(pieces@).push(cur@) =~= split_on(s@.subrange(from as int, i as int), sep),
        decreases to - i,
    {
        let b = s[i];
        let ghost prefix = s@.subrange(from as int, i as int);
        let ghost before = byte_views(pieces@).push(cur@);
        assert(s@.subrange(from as int, i + 1).drop_last() =~= prefix);
        if b == sep {
            let done = cur;
            let ghost old_pieces = pieces@;
            pieces.push(done);
            cur = Vec::new();
            proof {
                assert(pieces@ == old_pieces.push(done));
                assert(byte_views(pieces@) =~= byte_views(old_pieces).push(done@));
            }
        } else {
            let ghost old_cur = cur@;
            cur.push(b);
            proof {
                lemma_split_on_nonempty(prefix, sep);
                assert(byte_views(pieces@).push(cur@) =~= before.update(
                    before.len() - 1,
                    before.last().push(b),
                ));
            }
        }
        i = i + 1;
    }
    let ghost old_pieces = pieces@;
    let last = cur;
    pieces.push(last);
    proof {
        assert(pieces@ == old_pieces.push(last));
        assert(byte_views(pieces@) =~= byte_views(old_pieces).push(last@));
    }
    pieces
}

/// Splits a whole byte vector at every `sep`.
pub fn split(s: &Vec<u8>, sep: u8) -> (pieces: Vec<Vec<u8>>)
    ensures
        byte_views(pieces@) == split_on(s@, sep),
{
    let p = split_range(s, 0, s.len(), sep);
    assert(s@.subrange(0, s.len() as int) =~= s@);
    p
}

fn strip_cr_exec(line: &Vec<u8>) -> (out: Vec<u8>)
    ensures
        out@ == strip_cr(line@),
{
    let n = line.len();
    let end = if n > 0 && line[n - 1] == CARRIAGE_RETURN { n - 1 } else { n };
    let mut out: Vec<u8> = Vec::new();
    let mut i: usize = 0;
    while i < end
        invariant
            i <= end <= n,
            n == line.len(),
            out@ =~= line@.subrange(0, i as int),
        decreases end - i,
    {
        out.push(line[i]);
        i = i + 1;
    }
    assert(line@.drop_last() =~= line@.subrange(0, n - 1));
    assert(line@ =~= line@.subrange(0, n as int));
    out
}

/// The records of a text: its non-blank lines, each split into fields.
pub fn records(text: &Vec<u8>) -> (recs: Vec<Vec<Vec<u8>>>)
    ensures
        recs@.map_values(|r: Vec<Vec<u8>>| byte_views(r@)) == spec_records(text@),
        forall|k: int| 0 <= k < recs.len() ==> #[trigger] recs@[k].len() >= 1,
{
    let lines = split(text, NEWLINE);
    let ghost ls = split_on(text@, NEWLINE);
    let mut recs: Vec<Vec<Vec<u8>>> = Vec::new();
    let mut k: usize = 0;
    while k < lines.len()
        invariant
            k <= lines.len(),
            byte_views(lines@) == ls,
            recs@.map_values(|r: Vec<Vec<u8>>| byte_views(r@)) =~= records_of(ls, k as int),
            forall|m: int| 0 <= m < recs.len() ==> #[trigger] recs@[m].len() >= 1,
        decreases lines.len() - k,
    {
        let line = strip_cr_exec(&lines[k]);
        assert(ls[k as int] == lines@[k as int]@);
        if line.len() > 0 {
            let fields = split(&line, TAB);
            let ghost old_recs = recs@;
            recs.push(fields);
            proof {
                lemma_split_on_nonempty(line@, TAB);
                assert(fields@.len() == byte_views(fields@).len());
                assert(recs@ == old_recs.push(fields));
                assert(recs@.map_values(|r: Vec<Vec<u8>>| byte_views(r@)) =~= old_recs.map_values(
                    |r: Vec<Vec<u8>>| byte_views(r@),
                ).push(byte_views(fields@)));
            }
        }
        k = k + 1;
    }
    recs
}

/// Why a text is not a matrix.
#[derive(Clone, Copy, Debug, PartialEq, Eq, Structural)]
pub enum TableError {
    /// No non-blank line.
    Empty,
    /// A data line (numbered from 0 among the data lines) has the wrong
    /// number of fields.
    RaggedRow(usize),
}

/// The shape of a matrix: whether it has a header, and its rows and
/// columns of values.
#[derive(Clone, Copy, Debug, PartialEq, Eq, Structural)]
pub struct Shape {
    /// The first record names the columns and every data line starts with
    /// a row name.
    pub has_header: bool,
    /// Number of data lines.
    pub n_rows: usize,
    /// Number of values per data line.
    pub n_cols: usize,
}

/// A first record whose first field is empty is a header.
pub open spec fn spec_has_header(recs: Seq<Seq<Seq<u8>>>) -> bool {
    recs.len() > 0 && recs[0].len() > 0 && recs[0][0].len() == 0
}

/// Number of fields every data line must have.
pub open spec fn spec_width(recs: Seq<Seq<Seq<u8>>>) -> int {
    recs[0].len() as int
}

/// The data records: all records after the header, if there is one.
pub open spec fn data_start(recs: Seq<Seq<Seq<u8>>>) -> int {
    if spec_has_header(recs) { 1 } else { 0 }
}

/// The shape a text's records describe, or why they describe none.
pub open spec fn spec_shape(recs: Seq<Seq<Seq<u8>>>) -> Result<Shape, TableError> {
    if recs.len() == 0 {
        Err(TableError::Empty)
    } else if exists|i: int|
        data_start(recs) <= i < recs.len() && #[trigger] recs[i].len() != spec_width(recs) {
        let i = choose|i: int|
            data_start(recs) <= i < recs.len() && #[trigger] recs[i].len() != spec_width(recs)
                && forall|k: int| data_start(recs) <= k < i ==> recs[k].len() == spec_width(recs);
        Err(TableError::RaggedRow((i - data_start(recs)) as usize))
    } else {
        Ok(
            Shape {
                has_header: spec_has_header(recs),
                n_rows: (recs.len() - data_start(recs)) as usize,
                n_cols: if spec_has_header(recs) {
                    (spec_width(recs) - 1) as usize
                } else {
                    spec_width(recs) as usize
                },
            },
        )
    }
}

/// The shape of a matrix given as records: with a header every line must
/// have as many fields as the header; without one, as many as the first
/// line. The first line that does not is reported.
pub fn shape(recs: &Vec<Vec<Vec<u8>>>) -> (r: Result<Shape, TableError>)
    ensures
        r == spec_shape(recs@.map_values(|x: Vec<Vec<u8>>| byte_views(x@))),
{
    let ghost rs = recs@.map_values(|x: Vec<Vec<u8>>| byte_views(x@));
    if recs.len() == 0 {
        return Err(TableError::Empty);
    }
    let first = &recs[0];
    assert(rs[0] == byte_views(first@));
    let has_header = first.len() > 0 && first[0].len() == 0;
    proof {
        if first.len() > 0 {
            assert(rs[0][0] == first@[0]@);
        }
    }
    let width = first.len();
    let start: usize = if has_header { 1 } else { 0 };
    let mut i = start;
    while i < recs.len()
        invariant
            start <= i <= recs.len(),
            rs == recs@.map_values(|x: Vec<Vec<u8>>| byte_views(x@)),
            start == data_start(rs),
            width == spec_width(rs),
            forall|k: int| start <= k < i ==> #[trigger] rs[k].len() == width,
        decreases recs.len() - i,
    {
        assert(rs[i as int].len() == recs@[i as int].len());
        if recs[i].len() != width {
            proof {
                let j = choose|j: int|
                    data_start(rs) <= j < rs.len() && #[trigger] rs[j].len() != spec_width(rs)
                        && forall|k: int| data_start(rs) <= k < j ==> rs[k].len() == spec_width(rs);
                assert(data_start(rs) <= i < rs.len() && rs[i as int].len() != spec_width(rs)
                    && forall|k: int| data_start(rs) <= k < i ==> rs[k].len() == spec_width(rs));
                if j < i {
                    assert(rs[j].len() == width);
                } else if j > i {
                    assert(rs[i as int].len() == spec_width(rs));
                }
            }
            return Err(TableError::RaggedRow(i - start));
        }
        i = i + 1;
    }
    let n_cols = if has_header { width - 1 } else { width };
    Ok(Shape { has_header, n_rows: recs.len() - start, n_cols })
}

/// The names `1`, `2`, ..., `n`.
pub fn numbered_names(n: usize) -> (names: Vec<String>)
    ensures
        names.len() == n,
        forall|i: int| 0 <= i < n ==> (#[trigger] names@[i])@ == decimal((i + 1) as nat),
{
    let mut names: Vec<String> = Vec::new();
    let mut i: usize = 0;
    while i < n
        invariant
            i <= n,
            names.len() == i,
            forall|k: int| 0 <= k < i ==> (#[trigger] names@[k])@ == decimal((k + 1) as nat),
        decreases n - i,
    {
        let mut s = String::new();
        push_decimal(&mut s, i + 1);
        assert(s@ =~= decimal((i + 1) as nat));
        names.push(s);
        i = i + 1;
    }
    names
}

/// The field views of a vector of records.
pub open spec fn rec_views(recs: Seq<Vec<Vec<u8>>>) -> Seq<Seq<Seq<u8>>> {
    recs.map_values(|x: Vec<Vec<u8>>| byte_views(x@))
}

/// Where the values of a record start: after the row name when there is a
/// header.
pub open spec fn value_start(rec: Seq<Seq<u8>>, has_header: bool) -> int {
    if has_header && rec.len() > 0 { 1 } else { 0 }
}

/// The value fields of records `start..k`, row after row.
pub open spec fn value_fields_of(recs: Seq<Seq<Seq<u8>>>, has_header: bool, start: int, k: int) -> Seq<Seq<u8>>
    decreases k - start,
{
    if k <= start {
        Seq::empty()
    } else {
        value_fields_of(recs, has_header, start, k - 1) + recs[k - 1].subrange(
            value_start(recs[k - 1], has_header),
            recs[k - 1].len() as int,
        )
    }
}

/// The value fields of a matrix's records in row-major order: every field
/// of every data line, without the row names when there is a header.
pub fn value_fields(recs: &Vec<Vec<Vec<u8>>>) -> (out: Vec<Vec<u8>>)
    ensures
        byte_views(out@) == value_fields_of(
            rec_views(recs@),
            spec_has_header(rec_views(recs@)),
            data_start(rec_views(recs@)),
            recs.len() as int,
        ),
{
    let ghost rs = rec_views(recs@);
    let has_header = recs.len() > 0 && recs[0].len() > 0 && recs[0][0].len() == 0;
    proof {
        if recs.len() > 0 {
            assert(rs[0] == byte_views(recs@[0]@));
            if recs[0].len() > 0 {
                assert(rs[0][0] == recs@[0]@[0]@);
            }
        }
    }
    let start: usize = if has_header { 1 } else { 0 };
    let mut out: Vec<Vec<u8>> = Vec::new();
    let mut k = start;
    while k < recs.len()
        invariant
            start <= k <= recs.len(),
            rs == rec_views(recs@),
            has_header == spec_has_header(rs),
            start == data_start(rs),
            byte_views(out@) =~= value_fields_of(rs, has_header, start as int, k as int),
        decreases recs.len() - k,
    {
        let rec = &recs[k];
        assert(rs[k as int] == byte_views(rec@));
        let mut i: usize = if has_header && rec.len() > 0 { 1 } else { 0 };
        let ghost before = byte_views(out@);
        let ghost first = i;
        while i < rec.len()
            invariant
                first <= i <= rec.len(),
                first == value_start(rs[k as int], has_header),
                rs[k as int] == byte_views(rec@),
                byte_views(out@) =~= before + rs[k as int].subrange(first as int, i as int),
            decreases rec.len() - i,
        {
            let f = copy_bytes(&rec[i]);
            let ghost prev = out@;
            out.push(f);
            proof {
                assert(out@ == prev.push(f));
                assert(byte_views(out@) =~= byte_views(prev).push(f@));
                assert(rs[k as int][i as int] == rec@[i as int]@);
            }
            i = i + 1;
        }
        k = k + 1;
    }
    out
}

fn copy_bytes(v: &Vec<u8>) -> (r: Vec<u8>)
    ensures
        r@ == v@,
{
    let mut r: Vec<u8> = Vec::new();
    let mut i: usize = 0;
    while i < v.len()
        invariant
            i <= v.len(),
            r@ =~= v@.subrange(0, i as int),
        decreases v.len() - i,
    {
        r.push(v[i]);
        i = i + 1;
    }
    assert(v@.subrange(0, v.len() as int) =~= v@);
    r
}

/// The column names of a matrix with a header: the header's fields after
/// the first (empty) one.
pub fn header_names(recs: &Vec<Vec<Vec<u8>>>) -> (out: Vec<Vec<u8>>)
    requires
        recs.len() > 0,
        recs@[0].len() > 0,
    ensures
        byte_views(out@) == rec_views(recs@)[0].subrange(1, recs@[0].len() as int),
{
    let first = &recs[0];
    let ghost r0 = rec_views(recs@)[0];
    assert(r0 == byte_views(first@));
    let mut out: Vec<Vec<u8>> = Vec::new();
    let mut i: usize = 1;
    while i < first.len()
        invariant
            1 <= i <= first.len(),
            r0 == byte_views(first@),
            byte_views(out@) =~= r0.subrange(1, i as int),
        decreases first.len() - i,
    {
        let f = copy_bytes(&first[i]);
        let ghost prev = out@;
        out.push(f);
        proof {
            assert(out@ == prev.push(f));
            assert(byte_views(out@) =~= byte_views(prev).push(f@));
        }
        i = i + 1;
    }
    out
}

/// The row names of a matrix with a header: the first field of every line
/// after the header.
pub fn row_names(recs: &Vec<Vec<Vec<u8>>>) -> (out: Vec<Vec<u8>>)
    requires
        forall|k: int| 1 <= k < recs.len() ==> #[trigger] recs@[k].len() > 0,
    ensures
        out.len() == if recs.len() > 0 { recs.len() - 1 } else { 0 },
        forall|k: int| 0 <= k < out.len() ==> (#[trigger] out@[k])@ == rec_views(recs@)[k + 1][0],
{
    let ghost rs = rec_views(recs@);
    let mut out: Vec<Vec<u8>> = Vec::new();
    let mut k: usize = 1;
    while k < recs.len()
        invariant
            1 <= k,
            recs.len() > 0 ==> k <= recs.len(),
            recs.len() == 0 ==> k == 1,
            rs == rec_views(recs@),
            forall|m: int| 1 <= m < recs.len() ==> #[trigger] recs@[m].len() > 0,
            out.len() == k - 1,
            forall|m: int| 0 <= m < out.len() ==> (#[trigger] out@[m])@ == rs[m + 1][0],
        decreases recs.len() - k,
    {
        assert(rs[k as int] == byte_views(recs@[k as int]@));
        assert(recs@[k as int].len() > 0);
        let f = copy_bytes(&recs[k][0]);
        assert(rs[k as int][0] == recs@[k as int]@[0]@);
        let ghost prev = out@;
        out.push(f);
        assert forall|m: int| 0 <= m < out.len() implies (#[trigger] out@[m])@ == rs[m + 1][0] by {
            if m < prev.len() {
                assert(out@[m] == prev[m]);
            }
        }
        k = k + 1;
    }
    out
}

} // verus!
