//! A fast, zero-copy CSV reader.
//!
//! Rows are scanned from a refillable byte source into a line buffer and the
//! offsets of its field ends; columns are then read back as byte slices, as
//! text, or decoded field by field into typed values.

pub mod columns;
pub mod decode;
pub mod error;
pub mod message;
pub mod plain;
pub mod quoted;
pub mod source;
pub mod tokenizer;

pub use columns::{BytesColumns, Columns};
pub use decode::{IntKind, Shape, Value, Variant};
pub use error::{Error, Result};
pub use source::ByteSource;

use vstd::prelude::*;
use vstd::string::StringSliceAdditionalSpecFns;
use vstd::utf8::*;
use columns::{field, fields, fields_are_text, utf8_text, field_at};
use decode::{decode_from, reports, view_of, Failure, Val};
use tokenizer::{Mode, lemma_read_ends, lemma_refill_independent, read_line, read_row, LineRead, COMMA, CR};

verus! {

broadcast use vstd::utf8::group_utf8_lib;

/// A row's bytes without one trailing carriage return.
pub open spec fn strip_cr(buf: Seq<u8>) -> Seq<u8> {
    if buf.len() > 0 && buf.last() == CR {
        buf.drop_last()
    } else {
        buf
    }
}

/// A row with `found` fields breaks the field-count policy.
pub open spec fn mismatch(expected: Option<usize>, found: nat, flexible: bool) -> bool {
    expected matches Some(k) && k != found && !flexible
}

/// The row's bytes are UTF-8 text, and so is each of its fields.
pub open spec fn row_is_text(line: Seq<u8>, ends: Seq<usize>) -> bool {
    valid_utf8(line) && fields_are_text(line, ends)
}

/// The fields of a row as text, or no names at all where the row is not text.
pub open spec fn header_text(line: Seq<u8>, ends: Seq<usize>) -> Seq<Seq<char>> {
    if row_is_text(line, ends) {
        fields(line, ends).map_values(|f: Seq<u8>| decode_utf8(f))
    } else {
        seq![]
    }
}

/// The field ends of a row: at least one, strictly increasing, the last at
/// the end of the row, each other one at a delimiter.
pub open spec fn ends_ordered(line: Seq<u8>, ends: Seq<usize>, delimiter: u8) -> bool {
    &&& ends.len() >= 1
    &&& ends.last() == line.len()
    &&& forall|i: int, j: int| 0 <= i < j < ends.len() ==> ends[i] < ends[j]
    &&& forall|i: int| 0 <= i < ends.len() - 1 ==> line[#[trigger] ends[i] as int] == delimiter
}

/// The field ends of the row `strip_cr(buf)`: those recorded while scanning,
/// less one at a carriage return that the line end took away, and the end of
/// the row.
pub open spec fn row_ends(buf: Seq<u8>, cols: Seq<usize>) -> Seq<usize> {
    let line = strip_cr(buf);
    let kept = if cols.len() > 0 && cols.last() == line.len() {
        cols.drop_last()
    } else {
        cols
    };
    kept.push(line.len() as usize)
}

/// What one call of `Csv::next` yields.
pub enum Step {
    /// No row: the stream is exhausted, or an earlier error ended it.
    End,
    /// A row: its bytes and the end of each of its fields.
    Row(Seq<u8>, Seq<usize>),
    /// An error: a malformed row, after which no further rows are read, or a
    /// row with the wrong field count, after which reading goes on.
    Fail(Error),
}

/// One logical row: its bytes (line terminator removed) and the end of each
/// of its fields within them.
pub struct Row {
    line: Vec<u8>,
    cols: Vec<usize>,
}

impl Row {
    /// The row's bytes.
    pub closed spec fn line(&self) -> Seq<u8> {
        self.line@
    }

    /// The end offset of each field.
    pub closed spec fn ends(&self) -> Seq<usize> {
        self.cols@
    }

    /// Gets an iterator over the columns as text; fails with
    /// `InvalidEncoding` where the row is not UTF-8.
    pub fn columns(&self) -> (r: Result<Columns<'_>>)
        ensures
            r is Ok <==> row_is_text(self.line(), self.ends()),
            r is Err ==> r == Err::<Columns<'_>, Error>(Error::InvalidEncoding),
            r matches Ok(c) ==> c.wf() && c.line() == self.line() && c.ends() == self.ends() && c.index() == 0,
    {
        let line = self.line.as_slice();
        let s = match utf8_text(line) {
            Some(s) => s,
            None => {
                return Err(Error::InvalidEncoding);
            },
        };
        let cols = self.cols.as_slice();
        let mut i: usize = 0;
        while i < cols.len()
            invariant
                i <= cols@.len(),
                line@ == self.line(),
                cols@ == self.ends(),
                forall|j: int| 0 <= j < i ==> valid_utf8(#[trigger] field(line@, cols@, j)),
            decreases cols@.len() - i,
        {
            if utf8_text(field_at(line, cols, i)).is_none() {
                return Err(Error::InvalidEncoding);
            }
            i = i + 1;
        }
        assert(s.spec_bytes() == line@);
        Ok(Columns::new(s, cols))
    }

    /// Creates an iterator over the columns as byte slices.
    pub fn bytes_columns(&self) -> (r: BytesColumns<'_>)
        ensures
            r.wf(),
            r.line() == self.line(),
            r.ends() == self.ends(),
            r.index() == 0,
    {
        BytesColumns::new(self.line.as_slice(), self.cols.as_slice())
    }

    /// The row's fields as strings: all of them where the row is text, none
    /// where it is not.
    pub fn names(&self) -> (r: Vec<String>)
        ensures
            r@.map_values(|s: String| s@) == header_text(self.line(), self.ends()),
    {
        let mut names: Vec<String> = Vec::new();
        let mut cols = match self.columns() {
            Ok(c) => c,
            Err(_) => {
                assert(names@.map_values(|s: String| s@) =~= header_text(self.line(), self.ends()));
                return names;
            },
        };
        let ghost all = fields(self.line(), self.ends());
        while cols.len() > 0
            invariant
                cols.wf(),
                cols.line() == self.line(),
                cols.ends() == self.ends(),
                cols.index() <= self.ends().len(),
                all == fields(self.line(), self.ends()),
                names@.len() == cols.index(),
                forall|j: int| 0 <= j < cols.index() ==> (#[trigger] names@[j])@ == decode_utf8(all[j]),
            decreases self.ends().len() - cols.index(),
        {
            let ghost k = cols.index();
            match cols.next() {
                Some(s) => {
                    proof {
                        assert(s@ == decode_utf8(s.spec_bytes()));
                        assert(all[k as int] == field(self.line(), self.ends(), k as int));
                    }
                    names.push(s.to_owned());
                },
                None => {},
            }
            assert(cols.index() == k + 1);
        }
        assert(names@.map_values(|s: String| s@) =~= header_text(self.line(), self.ends()));
        names
    }

    /// Decodes the row into a value of shape `shape`, its fields taken in
    /// order from the first.
    pub fn decode_shape(&self, shape: &Shape) -> (r: Result<Value>)
        ensures
            !row_is_text(self.line(), self.ends()) ==> r == Err::<Value, Error>(Error::InvalidEncoding),
            row_is_text(self.line(), self.ends()) ==> {
                let d = decode_from(*shape, fields(self.line(), self.ends()), 0).0;
                &&& r matches Ok(v) ==> d == Ok::<Val, Failure>(view_of(v))
                &&& r matches Err(e) ==> (d matches Err(f) && reports(e, f))
            },
    {
        let mut cols = match self.columns() {
            Ok(c) => c,
            Err(e) => {
                return Err(e);
            },
        };
        cols.decode_shape(shape)
    }

    /// Gets the column count.
    pub fn len(&self) -> (r: usize)
        ensures
            r == self.ends().len(),
    {
        self.cols.len()
    }

    /// A row is empty if it has no columns.
    pub fn is_empty(&self) -> (r: bool)
        ensures
            r == (self.ends().len() == 0),
    {
        self.cols.len() == 0
    }
}

/// CSV reader: iterates over the rows of a byte source.
pub struct Csv {
    delimiter: u8,
    reader: ByteSource,
    has_header: bool,
    headers: Option<Vec<String>>,
    flexible: bool,
    len: Option<usize>,
    exit: bool,
    current_line: usize,
}

impl Csv {
    /// The field delimiter.
    pub closed spec fn spec_delimiter(&self) -> u8 {
        self.delimiter
    }

    /// Rows may have differing field counts.
    pub closed spec fn is_flexible(&self) -> bool {
        self.flexible
    }

    /// The first row holds the names of the columns.
    pub closed spec fn expects_header(&self) -> bool {
        self.has_header
    }

    /// The header names read so far, if any.
    pub closed spec fn cached_headers(&self) -> Option<Seq<Seq<char>>> {
        match self.headers {
            Some(h) => Some(h@.map_values(|s: String| s@)),
            None => None,
        }
    }

    /// The field count of the first row, once one was read.
    pub closed spec fn expected_count(&self) -> Option<usize> {
        self.len
    }

    /// A malformed row ended the iteration.
    pub closed spec fn finished(&self) -> bool {
        self.exit
    }

    /// The number of rows produced so far.
    pub closed spec fn line_number(&self) -> nat {
        self.current_line as nat
    }

    /// The bytes of the source not yet consumed.
    pub closed spec fn rest(&self) -> Seq<u8> {
        self.reader.rest()
    }

    /// The largest refill of the source.
    pub closed spec fn capacity(&self) -> nat {
        self.reader.capacity()
    }

    pub closed spec fn wf(&self) -> bool {
        &&& self.reader.wf()
        &&& self.current_line <= self.reader.consumed()
    }

    /// A well-formed reader refills at least one byte at a time, and its
    /// input fits in memory.
    pub proof fn lemma_wf(&self)
        requires
            self.wf(),
        ensures
            self.capacity() >= 1,
            self.rest().len() <= usize::MAX,
    {
        self.reader.lemma_rest_fits();
    }

    /// Every row the reader yields has its field ends in order.
    pub proof fn lemma_row_ends(&self)
        requires
            self.wf(),
        ensures
            self.step() matches Step::Row(line, ends) ==> ends_ordered(line, ends, self.spec_delimiter()),
    {
        self.lemma_wf();
        let d = self.spec_delimiter();
        lemma_read_ends(self.rest(), self.capacity(), d, Mode::Plain, 0, seq![], seq![]);
        let out = self.scanned();
        if let Step::Row(line, ends) = self.step() {
            let cols = out.cols;
            let buf = out.buf;
            let kept = if cols.len() > 0 && cols.last() == line.len() {
                cols.drop_last()
            } else {
                cols
            };
            assert(ends == kept.push(line.len() as usize));
            assert forall|i: int| 0 <= i < kept.len() implies (#[trigger] kept[i]) < line.len() by {
                assert(kept[i] == cols[i]);
                if kept.len() < cols.len() {
                    assert(cols[i] < cols[cols.len() - 1]);
                } else if i < cols.len() - 1 {
                    assert(cols[i] < cols[cols.len() - 1]);
                }
            }
            assert forall|i: int| 0 <= i < ends.len() - 1 implies line[#[trigger] ends[i] as int] == d by {
                assert(ends[i] == cols[i]);
                assert(buf[cols[i] as int] == d);
            }
        }
    }

    /// What a reader yields does not depend on how its source cuts the bytes
    /// into refills: two readers that differ only in refill size yield the
    /// same.
    pub proof fn lemma_step_refill_independent(&self, other: &Csv)
        requires
            self.wf(),
            other.wf(),
            self.rest() == other.rest(),
            self.spec_delimiter() == other.spec_delimiter(),
            self.is_flexible() == other.is_flexible(),
            self.expected_count() == other.expected_count(),
            self.finished() == other.finished(),
        ensures
            self.step() == other.step(),
    {
        self.lemma_wf();
        other.lemma_wf();
        let d = self.spec_delimiter();
        lemma_refill_independent(self.rest(), self.capacity(), d, Mode::Plain, 0, seq![], seq![]);
        lemma_refill_independent(other.rest(), other.capacity(), d, Mode::Plain, 0, seq![], seq![]);
    }

    /// The scan of the next row.
    pub open spec fn scanned(&self) -> LineRead {
        read_row(self.rest(), self.capacity(), self.spec_delimiter())
    }

    /// What the next call of `next` yields.
    pub open spec fn step(&self) -> Step {
        if self.finished() {
            Step::End
        } else {
            let out = self.scanned();
            match out.result {
                Err(e) => Step::Fail(e),
                Ok(n) => {
                    if n == 0 {
                        Step::End
                    } else {
                        let line = strip_cr(out.buf);
                        let ends = row_ends(out.buf, out.cols);
                        if mismatch(self.expected_count(), ends.len(), self.is_flexible()) {
                            Step::Fail(
                                Error::ColumnMismatch(self.expected_count()->0, ends.len() as usize),
                            )
                        } else {
                            Step::Row(line, ends)
                        }
                    }
                },
            }
        }
    }

    /// The settings of `self` and `other` agree.
    pub open spec fn same_settings(&self, other: &Csv) -> bool {
        &&& self.spec_delimiter() == other.spec_delimiter()
        &&& self.is_flexible() == other.is_flexible()
        &&& self.expects_header() == other.expects_header()
        &&& self.capacity() == other.capacity()
    }

    /// `self` and `other` stand at the same place of the same stream.
    pub open spec fn same_position(&self, other: &Csv) -> bool {
        &&& self.rest() == other.rest()
        &&& self.finished() == other.finished()
        &&& self.expected_count() == other.expected_count()
        &&& self.line_number() == other.line_number()
    }

    /// `after` is `self` after one call of `next`.
    pub open spec fn advanced_to(&self, after: &Csv) -> bool {
        &&& after.rest() == if self.finished() {
            self.rest()
        } else {
            self.rest().skip(self.scanned().consumed as int)
        }
        &&& after.finished() == (self.finished() || self.scanned().result is Err)
        &&& after.expected_count() == match self.step() {
            Step::Row(_, ends) => {
                if self.expected_count() is None {
                    Some(ends.len() as usize)
                } else {
                    self.expected_count()
                }
            },
            _ => self.expected_count(),
        }
        &&& after.line_number() == self.line_number() + if self.step() is Row {
            1nat
        } else {
            0nat
        }
    }

    /// Creates a reader over `reader`, with `,` as delimiter, no header row
    /// and a fixed field count.
    pub fn from_reader(reader: ByteSource) -> (r: Csv)
        requires
            reader.wf(),
        ensures
            r.wf(),
            r.rest() == reader.rest(),
            r.capacity() == reader.capacity(),
            r.spec_delimiter() == COMMA,
            !r.is_flexible(),
            !r.expects_header(),
            r.cached_headers() is None,
            r.expected_count() is None,
            !r.finished(),
            r.line_number() == 0,
    {
        Csv {
            reader: reader,
            delimiter: COMMA,
            has_header: false,
            headers: None,
            flexible: false,
            len: None,
            exit: false,
            current_line: 0,
        }
    }

    /// Creates a reader over the bytes of `s`.
    pub fn from_string(s: &str) -> (r: Csv)
        ensures
            r.wf(),
            r.rest() == s.spec_bytes(),
            r.capacity() >= s.spec_bytes().len(),
            r.spec_delimiter() == COMMA,
            !r.is_flexible(),
            !r.expects_header(),
            r.cached_headers() is None,
            r.expected_count() is None,
            !r.finished(),
            r.line_number() == 0,
    {
        Csv::from_reader(ByteSource::new(s.as_bytes()))
    }

    /// Sets a new delimiter.
    pub fn delimiter(self, delimiter: u8) -> (r: Csv)
        requires
            self.wf(),
        ensures
            r.wf(),
            r.spec_delimiter() == delimiter,
            r.is_flexible() == self.is_flexible(),
            r.expects_header() == self.expects_header(),
            r.capacity() == self.capacity(),
            r.same_position(&self),
            r.cached_headers() == self.cached_headers(),
    {
        let mut r = self;
        r.delimiter = delimiter;
        r
    }

    /// Sets whether rows may have differing field counts.
    pub fn flexible(self, flexible: bool) -> (r: Csv)
        requires
            self.wf(),
        ensures
            r.wf(),
            r.is_flexible() == flexible,
            r.spec_delimiter() == self.spec_delimiter(),
            r.expects_header() == self.expects_header(),
            r.capacity() == self.capacity(),
            r.same_position(&self),
            r.cached_headers() == self.cached_headers(),
    {
        let mut r = self;
        r.flexible = flexible;
        r
    }

    /// Gets the field count of the first row, once one was read.
    pub fn column_count(&self) -> (r: Option<usize>)
        ensures
            r == self.expected_count(),
    {
        self.len
    }

    /// Gets the number of rows produced so far.
    ///
    /// Useful to locate an error in the source.
    pub fn current_line(&self) -> (r: usize)
        ensures
            r == self.line_number(),
    {
        self.current_line
    }

    /// Gets the header names: those read before, else, in header mode, the
    /// fields of the first row (which is then not a data row), else none.
    pub fn headers(&mut self) -> (r: Vec<String>)
        requires
            old(self).wf(),
        ensures
            final(self).wf(),
            final(self).same_settings(old(self)),
            old(self).cached_headers() matches Some(h) ==> {
                &&& r@.map_values(|s: String| s@) == h
                &&& final(self).same_position(old(self))
                &&& final(self).cached_headers() == old(self).cached_headers()
            },
            old(self).cached_headers() is None && !old(self).expects_header() ==> {
                &&& r@.len() == 0
                &&& final(self).same_position(old(self))
                &&& final(self).cached_headers() is None
            },
            old(self).cached_headers() is None && old(self).expects_header() ==> {
                &&& old(self).advanced_to(final(self))
                &&& match old(self).step() {
                    Step::Row(line, ends) => {
                        &&& r@.map_values(|s: String| s@) == header_text(line, ends)
                        &&& final(self).cached_headers() == Some(header_text(line, ends))
                    },
                    _ => r@.len() == 0 && final(self).cached_headers() is None,
                }
            },
    {
        if let Some(h) = &self.headers {
            let r = h.clone();
            assert(r@.map_values(|s: String| s@) =~= h@.map_values(|s: String| s@));
            return r;
        }
        if self.has_header {
            if let Some(r) = self.next() {
                if let Ok(r) = r {
                    let h = r.names();
                    let c = h.clone();
                    assert(c@.map_values(|s: String| s@) =~= h@.map_values(|s: String| s@));
                    self.headers = Some(c);
                    return h;
                }
            }
        }
        Vec::new()
    }

    /// Sets whether the first row holds the names of the columns; if so, and
    /// no names were read yet, reads them (see `headers`).
    pub fn has_header(self, has_header: bool) -> (r: Csv)
        requires
            self.wf(),
        ensures
            r.wf(),
            r.expects_header() == has_header,
            r.spec_delimiter() == self.spec_delimiter(),
            r.is_flexible() == self.is_flexible(),
            r.capacity() == self.capacity(),
            self.cached_headers() is Some || !has_header ==> {
                &&& r.same_position(&self)
                &&& r.cached_headers() == self.cached_headers()
            },
            self.cached_headers() is None && has_header ==> {
                &&& self.advanced_to(&r)
                &&& r.cached_headers() == match self.step() {
                    Step::Row(line, ends) => Some(header_text(line, ends)),
                    _ => None,
                }
            },
    {
        let mut r = self;
        r.has_header = has_header;
        let _ = r.headers();
        r
    }

    /// Reads the next row: `None` at the end of the stream or after an error.
    pub fn next(&mut self) -> (r: Option<Result<Row>>)
        requires
            old(self).wf(),
        ensures
            final(self).wf(),
            final(self).same_settings(old(self)),
            final(self).cached_headers() == old(self).cached_headers(),
            old(self).advanced_to(final(self)),
            old(self).step() is End ==> r is None,
            old(self).step() matches Step::Fail(e) ==> r == Some(Err::<Row, Error>(e)),
            old(self).step() matches Step::Row(line, ends) ==> (r matches Some(Ok(row))
                && row.line() == line && row.ends() == ends),
            r matches Some(Ok(row)) ==> ends_ordered(row.line(), row.ends(), old(self).spec_delimiter()),
    {
        proof {
            self.reader.lemma_rest_fits();
            self.lemma_row_ends();
        }
        if self.exit {
            return None;
        }
        let mut buf: Vec<u8> = Vec::new();
        let mut cols: Vec<usize> = match self.len {
            Some(n) => Vec::with_capacity(n),
            None => Vec::new(),
        };
        assert(cols@ =~= seq![]);
        match read_line(&mut self.reader, &mut buf, self.delimiter, &mut cols) {
            Ok(0) => None,
            Ok(_n) => {
                if buf.len() > 0 && buf[buf.len() - 1] == CR {
                    buf.pop();
                }
                assert(buf@ =~= strip_cr(old(self).scanned().buf));
                if cols.len() > 0 && cols[cols.len() - 1] == buf.len() {
                    // the delimiter was the carriage return of the line end
                    cols.pop();
                }
                cols.push(buf.len());
                assert(cols@ =~= row_ends(old(self).scanned().buf, old(self).scanned().cols));
                let c = cols.len();
                match self.len {
                    Some(n) => {
                        if n != c && !self.flexible {
                            return Some(Err(Error::ColumnMismatch(n, c)));
                        }
                    },
                    None => {
                        self.len = Some(c);
                    },
                }
                proof {
                    self.reader.lemma_rest_fits();
                }
                self.current_line = self.current_line + 1;
                Some(Ok(Row { line: buf, cols }))
            },
            Err(e) => {
                self.exit = true;
                Some(Err(e))
            },
        }
    }
}

} // verus!
