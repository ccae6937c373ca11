//! The row scanner: splits a byte stream into rows and field-end offsets.
//!
//! A row is scanned one refill chunk at a time. Quote state survives a chunk
//! boundary; an escaped quote (`""`) is written once to the row buffer, and
//! field ends are recorded as offsets into that buffer.

use vstd::prelude::*;
use crate::error::Error;
use crate::source::{chunk_of, ByteSource};

verus! {

pub const QUOTE: u8 = 34;

pub const LF: u8 = 10;

pub const CR: u8 = 13;

/// The default delimiter.
pub const COMMA: u8 = 44;

/// Where the scan of a row stands with respect to quotes; it carries over
/// from one refill chunk to the next.
#[derive(Clone, Copy)]
pub enum Mode {
    /// Outside any quoted field.
    Plain,
    /// Inside a quoted field.
    Quoted,
    /// Inside a quoted field, right after a quote: the next byte decides
    /// whether the quote closes the field or is escaped.
    QuoteSeen,
}

/// How the scan of one chunk ended, with the row buffer and offsets it left.
pub struct Scanned {
    /// `Ok(Some(used))`: the row ended with a line feed after `used` bytes of
    /// the chunk; `Ok(None)`: the chunk was used up; `Err(e)`: malformed quoting.
    pub ended: Result<Option<usize>, Error>,
    pub buf: Seq<u8>,
    pub cols: Seq<usize>,
    /// The quote state at the end of the chunk.
    pub mode: Mode,
}

pub open spec fn failed(e: Error, buf: Seq<u8>, cols: Seq<usize>) -> Scanned {
    Scanned { ended: Err(e), buf, cols, mode: Mode::Plain }
}

/// Scans `chunk` from index `i` in quote state `mode`, with the row so far in
/// `buf` and the field ends recorded so far in `cols`.
///
/// A quote opens a field only at the start of the row or right after a
/// delimiter. Inside quotes a doubled quote stands for one quote; a quote
/// followed by a line terminator or the delimiter closes the field, and a
/// quote at the end of the chunk waits for the next chunk to decide. A delimiter outside quotes records the current length of
/// the row buffer as a field end. A line feed ends the row and is not kept.
pub open spec fn scan_from(
    chunk: Seq<u8>,
    delimiter: u8,
    i: int,
    mode: Mode,
    buf: Seq<u8>,
    cols: Seq<usize>,
) -> Scanned
    decreases chunk.len() - i, if mode is QuoteSeen { 1int } else { 0int },
{
    if i < 0 || i >= chunk.len() {
        Scanned { ended: Ok(None), buf, cols, mode }
    } else {
        let c = chunk[i];
        match mode {
            Mode::Quoted => {
                let next = if c == QUOTE { Mode::QuoteSeen } else { Mode::Quoted };
                scan_from(chunk, delimiter, i + 1, next, buf.push(c), cols)
            },
            Mode::QuoteSeen => {
                if c == QUOTE {
                    scan_from(chunk, delimiter, i + 1, Mode::Quoted, buf, cols)
                } else if c == CR || c == LF || c == delimiter {
                    scan_from(chunk, delimiter, i, Mode::Plain, buf, cols)
                } else {
                    failed(Error::UnescapedQuote, buf, cols)
                }
            },
            Mode::Plain => {
                if c == QUOTE {
                    if at_field_start(buf, delimiter) {
                        scan_from(chunk, delimiter, i + 1, Mode::Quoted, buf.push(c), cols)
                    } else {
                        failed(Error::UnexpectedQuote, buf, cols)
                    }
                } else if c == LF {
                    Scanned { ended: Ok(Some((i + 1) as usize)), buf, cols, mode: Mode::Plain }
                } else if c == delimiter {
                    scan_from(
                        chunk,
                        delimiter,
                        i + 1,
                        Mode::Plain,
                        buf.push(c),
                        cols.push(buf.len() as usize),
                    )
                } else {
                    scan_from(chunk, delimiter, i + 1, Mode::Plain, buf.push(c), cols)
                }
            },
        }
    }
}

/// The row so far ends where a field starts: it is empty, or its last byte
/// is the delimiter.
pub open spec fn at_field_start(buf: Seq<u8>, delimiter: u8) -> bool {
    buf.len() == 0 || buf.last() == delimiter
}

/// The outcome of reading one row from a source.
pub struct LineRead {
    /// `Ok(n)`: `n` bytes were consumed (0 only at the end of the stream).
    pub result: Result<usize, Error>,
    pub buf: Seq<u8>,
    pub cols: Seq<usize>,
    /// The bytes taken from the source.
    pub consumed: nat,
}

/// Reads one row from a source whose unread bytes are `rest` and whose refills
/// hold at most `capacity` bytes, `read` bytes having been consumed already.
pub open spec fn read_from(
    rest: Seq<u8>,
    capacity: nat,
    delimiter: u8,
    mode: Mode,
    read: nat,
    buf: Seq<u8>,
    cols: Seq<usize>,
) -> LineRead
    decreases rest.len(),
{
    let chunk = chunk_of(rest, capacity);
    if chunk.len() == 0 {
        LineRead { result: Ok(read as usize), buf, cols, consumed: read }
    } else {
        let s = scan_from(chunk, delimiter, 0, mode, buf, cols);
        match s.ended {
            Err(e) => LineRead { result: Err(e), buf: s.buf, cols: s.cols, consumed: read },
            Ok(Some(used)) => LineRead {
                result: Ok((read + used) as usize),
                buf: s.buf,
                cols: s.cols,
                consumed: (read + used) as nat,
            },
            Ok(None) => read_from(
                rest.skip(chunk.len() as int),
                capacity,
                delimiter,
                s.mode,
                read + chunk.len(),
                s.buf,
                s.cols,
            ),
        }
    }
}

/// The row read from a fresh start: no bytes consumed, empty buffer, no offsets.
pub open spec fn read_row(rest: Seq<u8>, capacity: nat, delimiter: u8) -> LineRead {
    read_from(rest, capacity, delimiter, Mode::Plain, 0, seq![], seq![])
}

/// Malformed quoting fails the row: a quote that does not start a field is
/// unexpected, and a quote inside a quoted field that is followed by a byte
/// other than a quote, a line end or the delimiter is unescaped.
pub proof fn lemma_malformed_quotes(chunk: Seq<u8>, delimiter: u8, i: int, buf: Seq<u8>, cols: Seq<usize>)
    requires
        0 <= i < chunk.len(),
    ensures
        chunk[i] == QUOTE && !at_field_start(buf, delimiter) ==> scan_from(
            chunk,
            delimiter,
            i,
            Mode::Plain,
            buf,
            cols,
        ).ended == Err::<Option<usize>, Error>(Error::UnexpectedQuote),
        chunk[i] != QUOTE && chunk[i] != CR && chunk[i] != LF && chunk[i] != delimiter ==> scan_from(
            chunk,
            delimiter,
            i,
            Mode::QuoteSeen,
            buf,
            cols,
        ).ended == Err::<Option<usize>, Error>(Error::UnescapedQuote),
{
}

/// The scan `s` of a chunk that stands `k` bytes into a longer one: a line
/// end is found `k` bytes later.
pub open spec fn shifted(s: Scanned, k: int) -> Scanned {
    Scanned {
        ended: match s.ended {
            Ok(Some(used)) => Ok(Some((used + k) as usize)),
            other => other,
        },
        ..s
    }
}

/// Scanning `b` behind `p` is scanning `b` alone, with positions moved by
/// the length of `p`.
pub proof fn lemma_scan_behind(
    p: Seq<u8>,
    b: Seq<u8>,
    delimiter: u8,
    j: int,
    mode: Mode,
    buf: Seq<u8>,
    cols: Seq<usize>,
)
    requires
        0 <= j <= b.len(),
        p.len() + b.len() <= usize::MAX,
    ensures
        scan_from(p + b, delimiter, p.len() + j, mode, buf, cols) == shifted(
            scan_from(b, delimiter, j, mode, buf, cols),
            p.len() as int,
        ),
    decreases b.len() - j, if mode is QuoteSeen { 1int } else { 0int },
{
    let c = p + b;
    if j < b.len() {
        assert(c[p.len() + j] == b[j]);
        let x = b[j];
        match mode {
            Mode::Quoted => {
                let next = if x == QUOTE { Mode::QuoteSeen } else { Mode::Quoted };
                lemma_scan_behind(p, b, delimiter, j + 1, next, buf.push(x), cols);
            },
            Mode::QuoteSeen => {
                if x == QUOTE {
                    lemma_scan_behind(p, b, delimiter, j + 1, Mode::Quoted, buf, cols);
                } else if x == CR || x == LF || x == delimiter {
                    lemma_scan_behind(p, b, delimiter, j, Mode::Plain, buf, cols);
                }
            },
            Mode::Plain => {
                if x == QUOTE {
                    if at_field_start(buf, delimiter) {
                        lemma_scan_behind(p, b, delimiter, j + 1, Mode::Quoted, buf.push(x), cols);
                    }
                } else if x == LF {
                } else if x == delimiter {
                    lemma_scan_behind(
                        p,
                        b,
                        delimiter,
                        j + 1,
                        Mode::Plain,
                        buf.push(x),
                        cols.push(buf.len() as usize),
                    );
                } else {
                    lemma_scan_behind(p, b, delimiter, j + 1, Mode::Plain, buf.push(x), cols);
                }
            },
        }
    }
}

/// Scanning `a + b` goes as scanning `a`, and where `a` is used up, on as
/// scanning `b` from the state that `a` left.
pub proof fn lemma_scan_split(
    a: Seq<u8>,
    b: Seq<u8>,
    delimiter: u8,
    i: int,
    mode: Mode,
    buf: Seq<u8>,
    cols: Seq<usize>,
)
    requires
        0 <= i <= a.len(),
        a.len() + b.len() <= usize::MAX,
    ensures
        ({
            let sa = scan_from(a, delimiter, i, mode, buf, cols);
            let whole = scan_from(a + b, delimiter, i, mode, buf, cols);
            &&& sa.ended == Ok::<Option<usize>, Error>(None) ==> whole == shifted(
                scan_from(b, delimiter, 0, sa.mode, sa.buf, sa.cols),
                a.len() as int,
            )
            &&& sa.ended != Ok::<Option<usize>, Error>(None) ==> whole == sa
        }),
    decreases a.len() - i, if mode is QuoteSeen { 1int } else { 0int },
{
    let c = a + b;
    if i < a.len() {
        assert(c[i] == a[i]);
        let x = a[i];
        match mode {
            Mode::Quoted => {
                let next = if x == QUOTE { Mode::QuoteSeen } else { Mode::Quoted };
                lemma_scan_split(a, b, delimiter, i + 1, next, buf.push(x), cols);
            },
            Mode::QuoteSeen => {
                if x == QUOTE {
                    lemma_scan_split(a, b, delimiter, i + 1, Mode::Quoted, buf, cols);
                } else if x == CR || x == LF || x == delimiter {
                    lemma_scan_split(a, b, delimiter, i, Mode::Plain, buf, cols);
                }
            },
            Mode::Plain => {
                if x == QUOTE {
                    if at_field_start(buf, delimiter) {
                        lemma_scan_split(a, b, delimiter, i + 1, Mode::Quoted, buf.push(x), cols);
                    }
                } else if x == LF {
                } else if x == delimiter {
                    lemma_scan_split(
                        a,
                        b,
                        delimiter,
                        i + 1,
                        Mode::Plain,
                        buf.push(x),
                        cols.push(buf.len() as usize),
                    );
                } else {
                    lemma_scan_split(a, b, delimiter, i + 1, Mode::Plain, buf.push(x), cols);
                }
            },
        }
    } else {
        lemma_scan_behind(a, b, delimiter, 0, mode, buf, cols);
    }
}

/// A line end found in a chunk lies within it.
pub proof fn lemma_scan_used(chunk: Seq<u8>, delimiter: u8, i: int, mode: Mode, buf: Seq<u8>, cols: Seq<usize>)
    requires
        0 <= i,
        chunk.len() <= usize::MAX,
    ensures
        scan_from(chunk, delimiter, i, mode, buf, cols).ended matches Ok(Some(u)) ==> u <= chunk.len(),
    decreases chunk.len() - i, if mode is QuoteSeen { 1int } else { 0int },
{
    if i < chunk.len() {
        let x = chunk[i];
        match mode {
            Mode::Quoted => {
                let next = if x == QUOTE { Mode::QuoteSeen } else { Mode::Quoted };
                lemma_scan_used(chunk, delimiter, i + 1, next, buf.push(x), cols);
            },
            Mode::QuoteSeen => {
                if x == QUOTE {
                    lemma_scan_used(chunk, delimiter, i + 1, Mode::Quoted, buf, cols);
                } else if x == CR || x == LF || x == delimiter {
                    lemma_scan_used(chunk, delimiter, i, Mode::Plain, buf, cols);
                }
            },
            Mode::Plain => {
                if x == QUOTE {
                    if at_field_start(buf, delimiter) {
                        lemma_scan_used(chunk, delimiter, i + 1, Mode::Quoted, buf.push(x), cols);
                    }
                } else if x == LF {
                } else if x == delimiter {
                    lemma_scan_used(chunk, delimiter, i + 1, Mode::Plain, buf.push(x), cols.push(buf.len() as usize));
                } else {
                    lemma_scan_used(chunk, delimiter, i + 1, Mode::Plain, buf.push(x), cols);
                }
            },
        }
    }
}

/// A refill size under which the whole of `rest` comes in one refill.
pub open spec fn whole_capacity(rest: Seq<u8>) -> nat {
    if rest.len() == 0 {
        1
    } else {
        rest.len()
    }
}

/// How a row reads does not depend on how the source cuts its bytes into
/// refills: any refill size gives the outcome, row and field ends that one
/// refill of all the bytes gives (and, where the row is read, takes as many
/// bytes).
pub proof fn lemma_refill_independent(
    rest: Seq<u8>,
    capacity: nat,
    delimiter: u8,
    mode: Mode,
    read: nat,
    buf: Seq<u8>,
    cols: Seq<usize>,
)
    requires
        capacity >= 1,
        rest.len() <= usize::MAX,
    ensures
        ({
            let x = read_from(rest, capacity, delimiter, mode, read, buf, cols);
            let y = read_from(rest, whole_capacity(rest), delimiter, mode, read, buf, cols);
            &&& x.result == y.result
            &&& x.result is Ok ==> x.buf == y.buf && x.cols == y.cols && x.consumed == y.consumed
        }),
    decreases rest.len(),
{
    let w = whole_capacity(rest);
    if rest.len() > capacity {
        let a = rest.take(capacity as int);
        let b = rest.skip(capacity as int);
        assert(a + b =~= rest);
        assert(chunk_of(rest, capacity) == a);
        assert(chunk_of(rest, w) == rest);
        assert(rest.skip(a.len() as int) =~= b);
        lemma_scan_split(a, b, delimiter, 0, mode, buf, cols);
        let sa = scan_from(a, delimiter, 0, mode, buf, cols);
        if sa.ended == Ok::<Option<usize>, Error>(None) {
            lemma_refill_independent(b, capacity, delimiter, sa.mode, read + a.len(), sa.buf, sa.cols);
            let sb = scan_from(b, delimiter, 0, sa.mode, sa.buf, sa.cols);
            let wb = whole_capacity(b);
            assert(chunk_of(b, wb) == b);
            let eb = b.skip(b.len() as int);
            let er = rest.skip(rest.len() as int);
            assert(eb.len() == 0);
            assert(er.len() == 0);
            assert(chunk_of(eb, wb).len() == 0);
            assert(chunk_of(er, w).len() == 0);
            let whole = scan_from(rest, delimiter, 0, mode, buf, cols);
            assert(whole == shifted(sb, a.len() as int));
            let x = read_from(rest, capacity, delimiter, mode, read, buf, cols);
            let y = read_from(rest, w, delimiter, mode, read, buf, cols);
            let xb = read_from(b, capacity, delimiter, sa.mode, read + a.len(), sa.buf, sa.cols);
            let yb = read_from(b, wb, delimiter, sa.mode, read + a.len(), sa.buf, sa.cols);
            assert(x == xb);
            match sb.ended {
                Ok(Some(u)) => {
                    lemma_scan_used(b, delimiter, 0, sa.mode, sa.buf, sa.cols);
                    assert(whole.ended == Ok::<Option<usize>, Error>(Some((u + a.len()) as usize)));
                    assert(y.result == yb.result);
                    assert(y.consumed == yb.consumed);
                    assert(y.buf == yb.buf);
                },
                Ok(None) => {
                    let ey = read_from(er, w, delimiter, whole.mode, read + rest.len(), whole.buf, whole.cols);
                    let eyb = read_from(eb, wb, delimiter, sb.mode, read + a.len() + b.len(), sb.buf, sb.cols);
                    assert(ey.result == Ok::<usize, Error>((read + rest.len()) as usize));
                    assert(eyb.result == Ok::<usize, Error>((read + a.len() + b.len()) as usize));
                    assert(y == ey);
                    assert(yb == eyb);
                },
                Err(e) => {
                    assert(y.result == yb.result);
                },
            }
        } else {
            assert(scan_from(rest, delimiter, 0, mode, buf, cols) == sa);
        }
    } else if rest.len() > 0 {
        assert(chunk_of(rest, capacity) == rest);
        assert(chunk_of(rest, w) == rest);
        let whole = scan_from(rest, delimiter, 0, mode, buf, cols);
        if whole.ended == Ok::<Option<usize>, Error>(None) {
            let er = rest.skip(rest.len() as int);
            assert(er.len() == 0);
            assert(chunk_of(er, capacity).len() == 0);
            assert(chunk_of(er, w).len() == 0);
            let x = read_from(er, capacity, delimiter, whole.mode, read + rest.len(), whole.buf, whole.cols);
            let y = read_from(er, w, delimiter, whole.mode, read + rest.len(), whole.buf, whole.cols);
            assert(x == y);
        }
    }
}

/// The field ends recorded for the row `buf`: increasing, inside the row,
/// each at a delimiter.
pub open spec fn ends_in_row(buf: Seq<u8>, cols: Seq<usize>, delimiter: u8) -> bool {
    &&& forall|i: int, j: int| 0 <= i < j < cols.len() ==> cols[i] < cols[j]
    &&& forall|i: int| 0 <= i < cols.len() ==> (#[trigger] cols[i]) < buf.len()
    &&& forall|i: int| 0 <= i < cols.len() ==> buf[#[trigger] cols[i] as int] == delimiter
}

/// Scanning a chunk keeps the recorded field ends in order, inside the row,
/// each at a delimiter.
pub proof fn lemma_scan_ends(
    chunk: Seq<u8>,
    delimiter: u8,
    i: int,
    mode: Mode,
    buf: Seq<u8>,
    cols: Seq<usize>,
)
    requires
        0 <= i <= chunk.len(),
        ends_in_row(buf, cols, delimiter),
        buf.len() + chunk.len() - i <= usize::MAX,
    ensures
        ({
            let s = scan_from(chunk, delimiter, i, mode, buf, cols);
            s.ended is Ok ==> ends_in_row(s.buf, s.cols, delimiter) && s.buf.len() + i <= buf.len() + chunk.len()
        }),
    decreases chunk.len() - i, if mode is QuoteSeen { 1int } else { 0int },
{
    if i < chunk.len() {
        let c = chunk[i];
        assert forall|k: int| 0 <= k < cols.len() implies buf.push(c)[cols[k] as int] == delimiter by {
            assert(buf.push(c)[cols[k] as int] == buf[cols[k] as int]);
        }
        match mode {
            Mode::Quoted => {
                let next = if c == QUOTE { Mode::QuoteSeen } else { Mode::Quoted };
                lemma_scan_ends(chunk, delimiter, i + 1, next, buf.push(c), cols);
            },
            Mode::QuoteSeen => {
                if c == QUOTE {
                    lemma_scan_ends(chunk, delimiter, i + 1, Mode::Quoted, buf, cols);
                } else if c == CR || c == LF || c == delimiter {
                    lemma_scan_ends(chunk, delimiter, i, Mode::Plain, buf, cols);
                }
            },
            Mode::Plain => {
                if c == QUOTE {
                    if at_field_start(buf, delimiter) {
                        lemma_scan_ends(chunk, delimiter, i + 1, Mode::Quoted, buf.push(c), cols);
                    }
                } else if c == LF {
                } else if c == delimiter {
                    let cols2 = cols.push(buf.len() as usize);
                    assert(ends_in_row(buf.push(c), cols2, delimiter));
                    lemma_scan_ends(chunk, delimiter, i + 1, Mode::Plain, buf.push(c), cols2);
                } else {
                    lemma_scan_ends(chunk, delimiter, i + 1, Mode::Plain, buf.push(c), cols);
                }
            },
        }
    }
}

/// Reading a row keeps the recorded field ends in order, inside the row,
/// each at a delimiter.
pub proof fn lemma_read_ends(
    rest: Seq<u8>,
    capacity: nat,
    delimiter: u8,
    mode: Mode,
    read: nat,
    buf: Seq<u8>,
    cols: Seq<usize>,
)
    requires
        ends_in_row(buf, cols, delimiter),
        buf.len() + rest.len() <= usize::MAX,
    ensures
        ({
            let out = read_from(rest, capacity, delimiter, mode, read, buf, cols);
            out.result is Ok ==> ends_in_row(out.buf, out.cols, delimiter) && out.buf.len() <= buf.len() + rest.len()
        }),
    decreases rest.len(),
{
    let chunk = chunk_of(rest, capacity);
    if chunk.len() > 0 {
        assert(chunk.len() <= rest.len());
        lemma_scan_ends(chunk, delimiter, 0, mode, buf, cols);
        let s = scan_from(chunk, delimiter, 0, mode, buf, cols);
        if s.ended == Ok::<Option<usize>, Error>(None) {
            lemma_read_ends(
                rest.skip(chunk.len() as int),
                capacity,
                delimiter,
                s.mode,
                read + chunk.len(),
                s.buf,
                s.cols,
            );
        }
    }
}

/// Scans one refill chunk of a row, appending its bytes to `buf` and its
/// field ends to `cols`; `read` bytes of the row were consumed before.
pub fn scan_chunk(
    available: &[u8],
    delimiter: u8,
    mode: &mut Mode,
    quote_count: &mut usize,
    read: usize,
    buf: &mut Vec<u8>,
    cols: &mut Vec<usize>,
) -> (r: Result<Option<usize>, Error>)
    requires
        old(buf)@.len() + *old(quote_count) == read,
        read + available@.len() <= usize::MAX,
    ensures
        ({
            let s = scan_from(available@, delimiter, 0, *old(mode), old(buf)@, old(cols)@);
            &&& r == s.ended
            &&& r matches Ok(Some(used)) ==> 0 < used <= available@.len()
            &&& r is Ok ==> {
                &&& final(buf)@ == s.buf
                &&& final(cols)@ == s.cols
                &&& *final(mode) == s.mode
                &&& final(buf)@.len() + *final(quote_count) == read + match r {
                    Ok(Some(used)) => used as int - 1,
                    _ => available@.len() as int,
                }
            }
        }),
{
    let ghost target = scan_from(available@, delimiter, 0, *mode, buf@, cols@);
    let len = available.len();
    let mut state = *mode;
    let mut start: usize = 0;
    let mut i: usize = 0;
    while i < len
        invariant
            len == available@.len(),
            start <= i <= len,
            buf@.len() + *quote_count + (i - start) == read + i,
            read + len <= usize::MAX,
            target == scan_from(available@, delimiter, 0, *old(mode), old(buf)@, old(cols)@),
            scan_from(available@, delimiter, i as int, state, buf@ + available@.subrange(start as int, i as int), cols@) == target,
        decreases len - i, if state is QuoteSeen { 1int } else { 0int },
    {
        let c = available[i];
        let ghost pending = buf@ + available@.subrange(start as int, i as int);
        assert(pending.push(c) =~= buf@ + available@.subrange(start as int, i + 1));
        match state {
            Mode::Quoted => {
                if c == QUOTE {
                    state = Mode::QuoteSeen;
                }
                i = i + 1;
            },
            Mode::QuoteSeen => {
                if c == QUOTE {
                    // an escaped quote: keep the first, skip this one
                    buf.extend_from_slice(&available[start..i]);
                    assert(buf@ =~= pending);
                    start = i + 1;
                    *quote_count = *quote_count + 1;
                    state = Mode::Quoted;
                    i = i + 1;
                    assert(buf@ + available@.subrange(start as int, i as int) =~= buf@);
                } else if c == CR || c == LF || c == delimiter {
                    state = Mode::Plain;
                } else {
                    assert(scan_from(available@, delimiter, i as int, state, pending, cols@).ended
                        == Err::<Option<usize>, Error>(Error::UnescapedQuote));
                    return Err(Error::UnescapedQuote);
                }
            },
            Mode::Plain => {
                if c == QUOTE {
                    let at_start = if i > start {
                        available[i - 1] == delimiter
                    } else if buf.len() > 0 {
                        buf[buf.len() - 1] == delimiter
                    } else {
                        true
                    };
                    assert(at_start == at_field_start(pending, delimiter));
                    if at_start {
                        state = Mode::Quoted;
                        i = i + 1;
                    } else {
                        assert(scan_from(available@, delimiter, i as int, state, pending, cols@).ended
                            == Err::<Option<usize>, Error>(Error::UnexpectedQuote));
                        return Err(Error::UnexpectedQuote);
                    }
                } else if c == LF {
                    buf.extend_from_slice(&available[start..i]);
                    assert(buf@ =~= pending);
                    *mode = Mode::Plain;
                    return Ok(Some(i + 1));
                } else {
                    if c == delimiter {
                        cols.push(read + i - *quote_count);
                    }
                    i = i + 1;
                }
            },
        }
    }
    let ghost pending = buf@ + available@.subrange(start as int, len as int);
    buf.extend_from_slice(&available[start..len]);
    assert(buf@ =~= pending);
    *mode = state;
    Ok(None)
}

/// Reads one row from `r` into `buf`, recording in `cols` the offset in `buf`
/// of each delimiter that ends a field. Returns the number of bytes consumed,
/// 0 only when the source is exhausted.
pub fn read_line(
    r: &mut ByteSource,
    buf: &mut Vec<u8>,
    delimiter: u8,
    cols: &mut Vec<usize>,
) -> (res: Result<usize, Error>)
    requires
        old(r).wf(),
        old(buf)@.len() == 0,
    ensures
        ({
            let out = read_from(old(r).rest(), old(r).capacity(), delimiter, Mode::Plain, 0, seq![], old(cols)@);
            &&& res == out.result
            &&& res matches Ok(n) ==> n == out.consumed
            &&& res is Ok ==> final(buf)@ == out.buf && final(cols)@ == out.cols
            &&& final(r).wf()
            &&& final(r).rest() == old(r).rest().skip(out.consumed as int)
            &&& final(r).capacity() == old(r).capacity()
            &&& final(r).consumed() == old(r).consumed() + out.consumed
        }),
{
    proof {
        r.lemma_rest_fits();
    }
    let ghost target = read_from(r.rest(), r.capacity(), delimiter, Mode::Plain, 0, seq![], cols@);
    assert(buf@ =~= seq![]);
    let mut read: usize = 0;
    let mut mode = Mode::Plain;
    let mut quote_count: usize = 0;
    loop
        invariant
            r.wf(),
            r.capacity() == old(r).capacity(),
            r.consumed() == old(r).consumed() + read,
            read + r.rest().len() == old(r).rest().len(),
            old(r).rest().len() <= usize::MAX,
            r.rest() == old(r).rest().skip(read as int),
            buf@.len() + quote_count == read,
            target == read_from(old(r).rest(), old(r).capacity(), delimiter, Mode::Plain, 0, seq![], old(cols)@),
            read_from(r.rest(), r.capacity(), delimiter, mode, read as nat, buf@, cols@) == target,
        decreases r.rest().len(),
    {
        let available = r.fill_buf();
        let n = available.len();
        if n == 0 {
            return Ok(read);
        }
        match scan_chunk(available, delimiter, &mut mode, &mut quote_count, read, buf, cols) {
            Err(e) => {
                return Err(e);
            },
            Ok(Some(used)) => {
                r.consume(used);
                assert(old(r).rest().skip(read as int).skip(used as int) =~= old(r).rest().skip(read + used));
                return Ok(read + used);
            },
            Ok(None) => {
                r.consume(n);
                assert(old(r).rest().skip(read as int).skip(n as int) =~= old(r).rest().skip(read + n));
                read = read + n;
            },
        }
    }
}

} // verus!
