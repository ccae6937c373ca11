//! Rows of plain fields: input written without quotes reads back as written.
//!
//! A plain field holds no delimiter, quote, carriage return or line feed.
//! Rows of such fields, each joined by the delimiter and ended by a line feed,
//! come back from the reader one by one, each with its fields, in order.

use vstd::prelude::*;
use crate::columns::{field, field_end, field_start, fields, raw_field, unquote};
use crate::source::chunk_of;
use crate::tokenizer::{read_from, scan_from, LineRead, Mode, CR, LF, QUOTE};
use crate::{strip_cr, Csv, Step};

verus! {

/// A delimiter that is none of the bytes with a meaning of their own.
pub open spec fn plain_delimiter(d: u8) -> bool {
    d != QUOTE && d != CR && d != LF
}

/// A field that needs no quoting with delimiter `d`.
pub open spec fn plain_field(f: Seq<u8>, d: u8) -> bool {
    forall|i: int| 0 <= i < f.len() ==> {
        let b = #[trigger] f[i];
        b != d && b != QUOTE && b != CR && b != LF
    }
}

/// The fields joined by the delimiter `d`.
pub open spec fn join(fs: Seq<Seq<u8>>, d: u8) -> Seq<u8>
    decreases fs.len(),
{
    if fs.len() == 0 {
        seq![]
    } else if fs.len() == 1 {
        fs[0]
    } else {
        join(fs.drop_last(), d).push(d) + fs.last()
    }
}

/// The offsets, within `join(fs, d)`, of the delimiters between the fields.
pub open spec fn join_ends(fs: Seq<Seq<u8>>, d: u8) -> Seq<usize>
    decreases fs.len(),
{
    if fs.len() <= 1 {
        seq![]
    } else {
        join_ends(fs.drop_last(), d).push(join(fs.drop_last(), d).len() as usize)
    }
}

/// Rows written out: each row's fields joined by `d`, each row ended by a line feed.
pub open spec fn rows_text(rows: Seq<Seq<Seq<u8>>>, d: u8) -> Seq<u8>
    decreases rows.len(),
{
    if rows.len() == 0 {
        seq![]
    } else {
        join(rows[0], d).push(LF) + rows_text(rows.drop_first(), d)
    }
}

/// Rows written out as by `rows_text`, without the last line feed where
/// `open_end` holds.
pub open spec fn rows_text_end(rows: Seq<Seq<Seq<u8>>>, d: u8, open_end: bool) -> Seq<u8> {
    if open_end && rows.len() > 0 {
        rows_text(rows, d).drop_last()
    } else {
        rows_text(rows, d)
    }
}

/// The offsets, counted from `base`, of the bytes `d` in `s`.
pub open spec fn delim_offsets(s: Seq<u8>, d: u8, base: int) -> Seq<usize>
    decreases s.len(),
{
    if s.len() == 0 {
        seq![]
    } else {
        let rest = delim_offsets(s.drop_first(), d, base + 1);
        if s[0] == d {
            seq![base as usize] + rest
        } else {
            rest
        }
    }
}

pub proof fn lemma_delim_offsets_concat(a: Seq<u8>, b: Seq<u8>, d: u8, base: int)
    ensures
        delim_offsets(a + b, d, base) == delim_offsets(a, d, base) + delim_offsets(b, d, base + a.len()),
    decreases a.len(),
{
    if a.len() == 0 {
        assert(a + b =~= b);
    } else {
        assert((a + b).drop_first() =~= a.drop_first() + b);
        lemma_delim_offsets_concat(a.drop_first(), b, d, base + 1);
    }
}

pub proof fn lemma_delim_offsets_none(s: Seq<u8>, d: u8, base: int)
    requires
        forall|i: int| 0 <= i < s.len() ==> s[i] != d,
    ensures
        delim_offsets(s, d, base) == Seq::<usize>::empty(),
    decreases s.len(),
{
    if s.len() > 0 {
        lemma_delim_offsets_none(s.drop_first(), d, base + 1);
    }
}

/// Scanning bytes without quotes or line feeds, outside quotes, copies them to
/// the row and records the delimiters among them.
pub proof fn lemma_scan_plain(
    chunk: Seq<u8>,
    d: u8,
    i: int,
    j: int,
    buf: Seq<u8>,
    cols: Seq<usize>,
)
    requires
        0 <= i <= j <= chunk.len(),
        forall|k: int| i <= k < j ==> chunk[k] != QUOTE && chunk[k] != LF,
    ensures
        scan_from(chunk, d, i, Mode::Plain, buf, cols) == scan_from(
            chunk,
            d,
            j,
            Mode::Plain,
            buf + chunk.subrange(i, j),
            cols + delim_offsets(chunk.subrange(i, j), d, buf.len() as int),
        ),
    decreases j - i,
{
    let s = chunk.subrange(i, j);
    if i == j {
        assert(buf + s =~= buf);
        assert(cols + delim_offsets(s, d, buf.len() as int) =~= cols);
    } else {
        let c = chunk[i];
        lemma_scan_plain(chunk, d, i + 1, j, buf.push(c), if c == d {
            cols.push(buf.len() as usize)
        } else {
            cols
        });
        assert(s.drop_first() =~= chunk.subrange(i + 1, j));
        assert(buf.push(c) + chunk.subrange(i + 1, j) =~= buf + s);
        if c == d {
            assert(cols.push(buf.len() as usize) + delim_offsets(chunk.subrange(i + 1, j), d, buf.len() + 1int)
                =~= cols + delim_offsets(s, d, buf.len() as int));
        }
    }
}

pub proof fn lemma_plain_join(fs: Seq<Seq<u8>>, d: u8)
    requires
        fs.len() >= 1,
        plain_delimiter(d),
        forall|i: int| 0 <= i < fs.len() ==> plain_field(#[trigger] fs[i], d),
        join(fs, d).len() <= usize::MAX,
    ensures
        delim_offsets(join(fs, d), d, 0) == join_ends(fs, d),
        join_ends(fs, d).len() == fs.len() - 1,
        forall|i: int| 0 <= i < join(fs, d).len() ==> {
            let b = #[trigger] join(fs, d)[i];
            b != QUOTE && b != CR && b != LF
        },
        forall|i: int| 0 <= i < join_ends(fs, d).len() ==> #[trigger] join_ends(fs, d)[i] < join(fs, d).len(),
        fields(join(fs, d), join_ends(fs, d).push(join(fs, d).len() as usize)) == fs,
        join(fs, d).len() + 1 >= fs.len(),
    decreases fs.len(),
{
    let j = join(fs, d);
    let e = join_ends(fs, d).push(j.len() as usize);
    if fs.len() == 1 {
        assert(plain_field(fs[0], d));
        lemma_delim_offsets_none(fs[0], d, 0);
        assert(raw_field(j, e, 0) =~= fs[0]);
        assert(fields(j, e) =~= fs);
    } else {
        let front = fs.drop_last();
        let last = fs.last();
        assert(plain_field(last, d));
        assert forall|i: int| 0 <= i < front.len() implies plain_field(#[trigger] front[i], d) by {
            assert(front[i] == fs[i]);
        }
        lemma_plain_join(front, d);
        let jf = join(front, d);
        let ef = join_ends(front, d).push(jf.len() as usize);
        lemma_delim_offsets_concat(jf.push(d), last, d, 0);
        lemma_delim_offsets_concat(jf, seq![d], d, 0);
        lemma_delim_offsets_none(last, d, jf.len() + 1int);
        assert(seq![d].drop_first() =~= Seq::<u8>::empty());
        assert(delim_offsets(Seq::<u8>::empty(), d, jf.len() + 1int) =~= Seq::<usize>::empty());
        assert(delim_offsets(seq![d], d, jf.len() as int) =~= seq![jf.len() as usize]);
        assert(jf + seq![d] =~= jf.push(d));
        assert(delim_offsets(j, d, 0) =~= join_ends(fs, d));
        assert(e =~= ef.push(j.len() as usize));
        assert forall|i: int| 0 <= i < fs.len() implies #[trigger] field(j, e, i) == fs[i] by {
            if i < front.len() {
                assert(field(jf, ef, i) == front[i]);
                assert(field_end(j, e, i) == field_end(jf, ef, i));
                assert(field_start(j, e, i) == field_start(jf, ef, i));
                assert(raw_field(j, e, i) =~= raw_field(jf, ef, i));
            } else {
                assert(raw_field(j, e, i) =~= last);
                if last.len() > 0 {
                    assert(last[0] != QUOTE);
                }
                assert(unquote(last) == last);
            }
        }
        assert(fields(j, e) =~= fs);
    }
}

/// Reading a row without quotes or line feeds, whatever the refill size:
/// after `p` of its bytes were taken, the rest come in the following refills
/// up to the line feed.
pub proof fn lemma_read_plain_row(j: Seq<u8>, tail: Seq<u8>, capacity: nat, d: u8, p: nat)
    requires
        capacity >= 1,
        p <= j.len(),
        forall|i: int| 0 <= i < j.len() ==> j[i] != QUOTE && j[i] != LF,
        j.len() + 1 + tail.len() <= usize::MAX,
    ensures
        read_from(
            (j.push(LF) + tail).skip(p as int),
            capacity,
            d,
            Mode::Plain,
            p,
            j.take(p as int),
            delim_offsets(j.take(p as int), d, 0),
        ) == (LineRead {
            result: Ok((j.len() + 1) as usize),
            buf: j,
            cols: delim_offsets(j, d, 0),
            consumed: (j.len() + 1) as nat,
        }),
    decreases j.len() - p,
{
    let all = j.push(LF) + tail;
    let rest = all.skip(p as int);
    let chunk = chunk_of(rest, capacity);
    let m = j.len() - p;
    let buf = j.take(p as int);
    let cols = delim_offsets(buf, d, 0);
    assert(rest[m] == LF);
    assert(chunk.len() >= 1);
    if chunk.len() > m {
        assert forall|k: int| 0 <= k < m implies chunk[k] != QUOTE && chunk[k] != LF by {
            assert(chunk[k] == j[p + k]);
        }
        lemma_scan_plain(chunk, d, 0, m, buf, cols);
        assert(chunk.subrange(0, m) =~= j.subrange(p as int, j.len() as int));
        assert(buf + j.subrange(p as int, j.len() as int) =~= j);
        lemma_delim_offsets_concat(buf, j.subrange(p as int, j.len() as int), d, 0);
        assert(chunk[m] == LF);
    } else {
        let c = chunk.len();
        assert forall|k: int| 0 <= k < c implies chunk[k] != QUOTE && chunk[k] != LF by {
            assert(chunk[k] == j[p + k]);
        }
        lemma_scan_plain(chunk, d, 0, c as int, buf, cols);
        assert(chunk.subrange(0, c as int) =~= chunk);
        assert(chunk =~= j.subrange(p as int, p + c as int));
        assert(buf + chunk =~= j.take(p + c as int));
        lemma_delim_offsets_concat(buf, chunk, d, 0);
        assert(rest.skip(c as int) =~= all.skip(p + c as int));
        lemma_read_plain_row(j, tail, capacity, d, (p + c) as nat);
    }
}

/// Reading a last row without quotes or line feeds, whatever the refill size:
/// after `p` of its bytes were taken, the rest come in the following refills
/// up to the end of the input.
pub proof fn lemma_read_plain_end(j: Seq<u8>, capacity: nat, d: u8, p: nat)
    requires
        capacity >= 1,
        p <= j.len(),
        forall|i: int| 0 <= i < j.len() ==> j[i] != QUOTE && j[i] != LF,
        j.len() <= usize::MAX,
    ensures
        read_from(
            j.skip(p as int),
            capacity,
            d,
            Mode::Plain,
            p,
            j.take(p as int),
            delim_offsets(j.take(p as int), d, 0),
        ) == (LineRead {
            result: Ok(j.len() as usize),
            buf: j,
            cols: delim_offsets(j, d, 0),
            consumed: j.len(),
        }),
    decreases j.len() - p,
{
    let rest = j.skip(p as int);
    let chunk = chunk_of(rest, capacity);
    let buf = j.take(p as int);
    let cols = delim_offsets(buf, d, 0);
    if p == j.len() {
        assert(rest.len() == 0);
        assert(chunk.len() == 0);
        assert(buf =~= j);
    } else {
        let c = chunk.len();
        assert(c >= 1);
        assert forall|k: int| 0 <= k < c implies chunk[k] != QUOTE && chunk[k] != LF by {
            assert(chunk[k] == j[p + k]);
        }
        lemma_scan_plain(chunk, d, 0, c as int, buf, cols);
        assert(chunk.subrange(0, c as int) =~= chunk);
        assert(chunk =~= j.subrange(p as int, p + c as int));
        assert(buf + chunk =~= j.take(p + c as int));
        lemma_delim_offsets_concat(buf, chunk, d, 0);
        assert(rest.skip(c as int) =~= j.skip(p + c as int));
        lemma_read_plain_end(j, capacity, d, (p + c) as nat);
    }
}

/// A reader whose input is a last row of plain fields, without a line feed,
/// yields that row and takes all of the input.
pub proof fn lemma_step_plain_end(c: Csv, fs: Seq<Seq<u8>>)
    requires
        c.capacity() >= 1,
        !c.finished(),
        plain_delimiter(c.spec_delimiter()),
        fs.len() >= 1,
        forall|i: int| 0 <= i < fs.len() ==> plain_field(#[trigger] fs[i], c.spec_delimiter()),
        c.rest() == join(fs, c.spec_delimiter()),
        c.rest().len() > 0,
        c.rest().len() <= usize::MAX,
        c.expected_count() is None || c.expected_count() == Some(fs.len() as usize),
        c.expected_count() is Some ==> fs.len() <= usize::MAX,
    ensures
        ({
            let line = join(fs, c.spec_delimiter());
            &&& c.step() == Step::Row(line, join_ends(fs, c.spec_delimiter()).push(line.len() as usize))
            &&& c.scanned().consumed == line.len()
            &&& fields(line, join_ends(fs, c.spec_delimiter()).push(line.len() as usize)) == fs
        }),
{
    let d = c.spec_delimiter();
    let j = join(fs, d);
    lemma_plain_join(fs, d);
    lemma_read_plain_end(j, c.capacity(), d, 0);
    assert(j.take(0) =~= Seq::<u8>::empty());
    assert(j.skip(0) =~= j);
    assert(delim_offsets(Seq::<u8>::empty(), d, 0) =~= Seq::<usize>::empty());
    assert(j.last() == j[j.len() - 1]);
    assert(strip_cr(j) == j);
}

/// A reader whose input starts with a row of plain fields yields that row
/// and takes it, line feed included, from the input.
pub proof fn lemma_step_plain(c: Csv, fs: Seq<Seq<u8>>, tail: Seq<u8>)
    requires
        c.capacity() >= 1,
        !c.finished(),
        plain_delimiter(c.spec_delimiter()),
        fs.len() >= 1,
        forall|i: int| 0 <= i < fs.len() ==> plain_field(#[trigger] fs[i], c.spec_delimiter()),
        c.rest() == join(fs, c.spec_delimiter()).push(LF) + tail,
        c.rest().len() <= usize::MAX,
        c.expected_count() is None || c.expected_count() == Some(fs.len() as usize),
    ensures
        ({
            let line = join(fs, c.spec_delimiter());
            &&& c.step() == Step::Row(line, join_ends(fs, c.spec_delimiter()).push(line.len() as usize))
            &&& c.scanned().consumed == line.len() + 1
            &&& fields(line, join_ends(fs, c.spec_delimiter()).push(line.len() as usize)) == fs
            &&& fs.len() <= usize::MAX
        }),
{
    let d = c.spec_delimiter();
    let j = join(fs, d);
    lemma_plain_join(fs, d);
    lemma_read_plain_row(j, tail, c.capacity(), d, 0);
    assert(j.take(0) =~= Seq::<u8>::empty());
    assert((j.push(LF) + tail).skip(0) =~= j.push(LF) + tail);
    assert(delim_offsets(Seq::<u8>::empty(), d, 0) =~= Seq::<usize>::empty());
    if j.len() > 0 {
        assert(j.last() == j[j.len() - 1]);
    }
    assert(strip_cr(j) == j);
}

/// Rows of plain fields, every row with `k` fields, written out one after the
/// other, are read back row by row: the reader yields each row with its `k`
/// fields as written, in order, and then no more. The last row may go
/// without its line feed (`open_end`) where it is not empty.
///
/// `states` are the reader before each call of `next` and after the last:
/// each follows from the one before as `next` leaves it.
pub proof fn lemma_plain_rows(states: Seq<Csv>, rows: Seq<Seq<Seq<u8>>>, k: nat, open_end: bool)
    requires
        states.len() == rows.len() + 1,
        forall|i: int|
            0 <= i < rows.len() ==> (#[trigger] states[i]).advanced_to(&states[i + 1])
                && states[i + 1].same_settings(&states[i]),
        states[0].wf(),
        !states[0].finished(),
        states[0].expected_count() is None,
        plain_delimiter(states[0].spec_delimiter()),
        k >= 1,
        forall|i: int| 0 <= i < rows.len() ==> (#[trigger] rows[i]).len() == k,
        forall|i: int, j: int|
            0 <= i < rows.len() && 0 <= j < k ==> plain_field(#[trigger] rows[i][j], states[0].spec_delimiter()),
        open_end && rows.len() > 0 ==> join(rows.last(), states[0].spec_delimiter()).len() > 0,
        states[0].rest() == rows_text_end(rows, states[0].spec_delimiter(), open_end),
    ensures
        forall|i: int|
            0 <= i < rows.len() ==> ((#[trigger] states[i]).step() matches Step::Row(line, ends)
                && ends.len() == k && fields(line, ends) == rows[i]),
        states[rows.len() as int].step() is End,
{
    states[0].lemma_wf();
    assert(rows.skip(0) =~= rows);
    lemma_plain_rows_from(states, rows, k, open_end, 0);
}

/// One row of the iteration: the reader at row `n` yields it and moves to
/// the text of the rows after it.
proof fn lemma_plain_row_at(c: Csv, rows: Seq<Seq<Seq<u8>>>, k: nat, open_end: bool, n: nat)
    requires
        n < rows.len(),
        c.capacity() >= 1,
        !c.finished(),
        c.expected_count() == if n == 0 { None } else { Some(k as usize) },
        c.rest().len() <= usize::MAX,
        plain_delimiter(c.spec_delimiter()),
        k >= 1,
        0 < n ==> k <= usize::MAX,
        forall|i: int| 0 <= i < rows.len() ==> (#[trigger] rows[i]).len() == k,
        forall|i: int, j: int|
            0 <= i < rows.len() && 0 <= j < k ==> plain_field(#[trigger] rows[i][j], c.spec_delimiter()),
        open_end && rows.len() > 0 ==> join(rows.last(), c.spec_delimiter()).len() > 0,
        c.rest() == rows_text_end(rows.skip(n as int), c.spec_delimiter(), open_end),
    ensures
        c.step() matches Step::Row(line, ends) && ends.len() == k && fields(line, ends) == rows[n as int],
        c.scanned().result is Ok,
        c.rest().skip(c.scanned().consumed as int) == rows_text_end(rows.skip(n + 1int), c.spec_delimiter(), open_end),
        rows_text_end(rows.skip(n + 1int), c.spec_delimiter(), open_end).len() <= c.rest().len(),
        n + 1 < rows.len() ==> k <= usize::MAX,
{
    let d = c.spec_delimiter();
    let fs = rows[n as int];
    let more = rows.skip(n + 1int);
    let tail = rows_text_end(more, d, open_end);
    let line = join(fs, d);
    assert(rows.skip(n as int)[0] == fs);
    assert(rows.skip(n as int).drop_first() =~= more);
    assert forall|i: int| 0 <= i < fs.len() implies plain_field(#[trigger] fs[i], d) by {
        assert(plain_field(rows[n as int][i], d));
    }
    let whole = rows_text(rows.skip(n as int), d);
    assert(whole == line.push(LF) + rows_text(more, d));
    lemma_plain_join(fs, d);
    if open_end && more.len() == 0 {
        assert(rows.last() == fs);
        assert(rows_text(more, d).len() == 0);
        assert(c.rest() =~= line);
        lemma_step_plain_end(c, fs);
        assert(c.rest().skip(line.len() as int) =~= tail);
    } else {
        if open_end {
            let t = rows_text(more, d);
            assert(more[0] == rows[n + 1int]);
            assert(t.len() > 0);
            assert(whole.drop_last() =~= line.push(LF) + t.drop_last());
        }
        assert(c.rest() =~= line.push(LF) + tail);
        lemma_step_plain(c, fs, tail);
        assert(c.rest().skip(line.len() + 1int) =~= tail);
    }
}

proof fn lemma_plain_rows_from(states: Seq<Csv>, rows: Seq<Seq<Seq<u8>>>, k: nat, open_end: bool, n: nat)
    requires
        states.len() == rows.len() + 1,
        forall|i: int|
            0 <= i < rows.len() ==> (#[trigger] states[i]).advanced_to(&states[i + 1])
                && states[i + 1].same_settings(&states[i]),
        n <= rows.len(),
        states[n as int].capacity() >= 1,
        !states[n as int].finished(),
        states[n as int].expected_count() == if n == 0 { None } else { Some(k as usize) },
        states[n as int].spec_delimiter() == states[0].spec_delimiter(),
        states[n as int].rest().len() <= usize::MAX,
        plain_delimiter(states[0].spec_delimiter()),
        k >= 1,
        0 < n < rows.len() ==> k <= usize::MAX,
        forall|i: int| 0 <= i < rows.len() ==> (#[trigger] rows[i]).len() == k,
        forall|i: int, j: int|
            0 <= i < rows.len() && 0 <= j < k ==> plain_field(#[trigger] rows[i][j], states[0].spec_delimiter()),
        open_end && rows.len() > 0 ==> join(rows.last(), states[0].spec_delimiter()).len() > 0,
        states[n as int].rest() == rows_text_end(rows.skip(n as int), states[0].spec_delimiter(), open_end),
    ensures
        forall|i: int|
            n <= i < rows.len() ==> ((#[trigger] states[i]).step() matches Step::Row(line, ends)
                && ends.len() == k && fields(line, ends) == rows[i]),
        states[rows.len() as int].step() is End,
    decreases rows.len() - n,
{
    let d = states[0].spec_delimiter();
    let c = states[n as int];
    if n == rows.len() {
        assert(rows.skip(n as int).len() == 0);
        assert(c.rest().len() == 0);
        assert(chunk_of(c.rest(), c.capacity()).len() == 0);
    } else {
        lemma_plain_row_at(c, rows, k, open_end, n);
        let next = states[n + 1int];
        assert(c.advanced_to(&next));
        lemma_plain_rows_from(states, rows, k, open_end, n + 1);
    }
}

} // verus!
