//! Column views over a scanned row: its fields as byte slices or as text.
//!
//! A row is its bytes and the offset of each field's end. Field `i` runs from
//! just after the end of field `i - 1` (from 0 for the first) to its own end;
//! a field that starts with a quote loses its first and last byte.

use vstd::prelude::*;
use vstd::string::StringSliceAdditionalSpecFns;
use vstd::utf8::*;
use crate::decode::{decode_from, first_match, parse_int, reports, Failure, IntKind, Shape, Val};
use crate::error::{Error, Result};
use crate::message::{conversion_error, conversion_message, variant_error, variant_message};
use crate::tokenizer::QUOTE;

verus! {

broadcast use vstd::utf8::group_utf8_lib;

/// The end of field `i`, within the row.
pub open spec fn field_end(line: Seq<u8>, cols: Seq<usize>, i: int) -> int {
    if cols[i] <= line.len() {
        cols[i] as int
    } else {
        line.len() as int
    }
}

/// The start of field `i`: just after the end of the previous field, and
/// never past the field's own end.
pub open spec fn field_start(line: Seq<u8>, cols: Seq<usize>, i: int) -> int {
    let end = field_end(line, cols, i);
    if i == 0 {
        0
    } else if cols[i - 1] >= end {
        end
    } else {
        cols[i - 1] + 1
    }
}

/// Field `i` as it stands in the row, quotes included.
pub open spec fn raw_field(line: Seq<u8>, cols: Seq<usize>, i: int) -> Seq<u8> {
    line.subrange(field_start(line, cols, i), field_end(line, cols, i))
}

/// A field without its surrounding quotes: one that starts with a quote loses
/// it, and loses its last byte too where that is a closing quote.
pub open spec fn unquote(s: Seq<u8>) -> Seq<u8> {
    if s.len() > 0 && s[0] == QUOTE {
        if s.len() >= 2 && s.last() == QUOTE {
            s.subrange(1, s.len() - 1)
        } else {
            s.subrange(1, s.len() as int)
        }
    } else {
        s
    }
}

/// Field `i` of a row, as the column views hand it out.
pub open spec fn field(line: Seq<u8>, cols: Seq<usize>, i: int) -> Seq<u8> {
    unquote(raw_field(line, cols, i))
}

/// All fields of a row.
pub open spec fn fields(line: Seq<u8>, cols: Seq<usize>) -> Seq<Seq<u8>> {
    Seq::new(cols.len(), |i: int| field(line, cols, i))
}

/// Every field of the row is UTF-8 text.
pub open spec fn fields_are_text(line: Seq<u8>, cols: Seq<usize>) -> bool {
    forall|i: int| 0 <= i < cols.len() ==> valid_utf8(#[trigger] field(line, cols, i))
}

/// The bytes of `s` without its surrounding quotes (see `unquote`).
pub fn unquote_slice(s: &[u8]) -> (r: &[u8])
    ensures
        r@ == unquote(s@),
{
    let n = s.len();
    if n > 0 && s[0] == QUOTE {
        let end = if n >= 2 && s[n - 1] == QUOTE { n - 1 } else { n };
        let r = &s[1..end];
        assert(r@ =~= unquote(s@));
        r
    } else {
        s
    }
}

/// Field `i` of the row `line` whose field ends are `cols`.
pub fn field_at<'a>(line: &'a [u8], cols: &[usize], i: usize) -> (r: &'a [u8])
    requires
        i < cols@.len(),
    ensures
        r@ == field(line@, cols@, i as int),
{
    let p = cols[i];
    let end = if p <= line.len() { p } else { line.len() };
    let start = if i == 0 {
        0
    } else if cols[i - 1] >= end {
        end
    } else {
        cols[i - 1] + 1
    };
    unquote_slice(&line[start..end])
}

/// Relies on `std::str::from_utf8`: it accepts exactly the valid UTF-8 byte
/// sequences, and the text it returns is the one they encode.
#[verifier::external_body]
pub(crate) fn utf8_text(b: &[u8]) -> (r: Option<&str>)
    ensures
        r is Some <==> valid_utf8(b@),
        r matches Some(s) ==> s@ == decode_utf8(b@),
{
    std::str::from_utf8(b).ok()
}

/// Whether the byte slices `a` and `b` are equal.
pub fn bytes_eq(a: &[u8], b: &[u8]) -> (r: bool)
    ensures
        r == (a@ == b@),
{
    if a.len() != b.len() {
        return false;
    }
    let mut i: usize = 0;
    while i < a.len()
        invariant
            a@.len() == b@.len(),
            i <= a@.len(),
            forall|j: int| 0 <= j < i ==> a@[j] == b@[j],
        decreases a@.len() - i,
    {
        if a[i] != b[i] {
            return false;
        }
        i = i + 1;
    }
    assert(a@ =~= b@);
    true
}

/// Iterator over the fields of a row as byte slices.
pub struct BytesColumns<'a> {
    line: &'a [u8],
    cols: &'a [usize],
    idx: usize,
}

impl<'a> BytesColumns<'a> {
    /// The row's bytes.
    pub closed spec fn line(&self) -> Seq<u8> {
        self.line@
    }

    /// The row's field ends.
    pub closed spec fn ends(&self) -> Seq<usize> {
        self.cols@
    }

    /// The number of fields handed out so far.
    pub closed spec fn index(&self) -> nat {
        self.idx as nat
    }

    pub closed spec fn wf(&self) -> bool {
        self.idx <= self.cols@.len()
    }

    /// The fields not yet handed out.
    pub open spec fn remaining(&self) -> Seq<Seq<u8>> {
        fields(self.line(), self.ends()).skip(self.index() as int)
    }

    /// Creates an iterator over the fields of the row `line` whose field ends
    /// are `cols`.
    pub fn new(line: &'a [u8], cols: &'a [usize]) -> (r: BytesColumns<'a>)
        ensures
            r.wf(),
            r.line() == line@,
            r.ends() == cols@,
            r.index() == 0,
    {
        BytesColumns { line, cols, idx: 0 }
    }

    /// The next field, or `None` after the last one.
    pub fn next(&mut self) -> (r: Option<&'a [u8]>)
        requires
            old(self).wf(),
        ensures
            final(self).wf(),
            final(self).line() == old(self).line(),
            final(self).ends() == old(self).ends(),
            old(self).index() < old(self).ends().len() ==> {
                &&& r matches Some(s) && s@ == field(old(self).line(), old(self).ends(), old(self).index() as int)
                &&& final(self).index() == old(self).index() + 1
            },
            old(self).index() >= old(self).ends().len() ==> r is None && final(self).index() == old(self).index(),
    {
        if self.idx >= self.cols.len() {
            return None;
        }
        let s = field_at(self.line, self.cols, self.idx);
        self.idx = self.idx + 1;
        Some(s)
    }

    /// The number of fields not yet handed out.
    pub fn len(&self) -> (r: usize)
        requires
            self.wf(),
        ensures
            r == self.ends().len() - self.index(),
    {
        self.cols.len() - self.idx
    }
}

/// Iterator over the fields of a row as text.
pub struct Columns<'a> {
    line: &'a [u8],
    cols: &'a [usize],
    idx: usize,
}

impl<'a> Columns<'a> {
    /// The row's bytes.
    pub closed spec fn line(&self) -> Seq<u8> {
        self.line@
    }

    /// The row's field ends.
    pub closed spec fn ends(&self) -> Seq<usize> {
        self.cols@
    }

    /// The number of fields handed out so far.
    pub closed spec fn index(&self) -> nat {
        self.idx as nat
    }

    pub closed spec fn wf(&self) -> bool {
        &&& self.idx <= self.cols@.len()
        &&& fields_are_text(self.line@, self.cols@)
    }

    /// The fields not yet handed out.
    pub open spec fn remaining(&self) -> Seq<Seq<u8>> {
        fields(self.line(), self.ends()).skip(self.index() as int)
    }

    /// Creates an iterator over the fields of the row `line` whose field ends
    /// are `cols`.
    ///
    /// The iterator hands out each field as `&str`, so each field, unquoted,
    /// must be UTF-8 text on its own: that holds where the ends fall on
    /// character boundaries and each field after the first starts right after
    /// a one-byte delimiter. Ends that split a character inside a field are
    /// not accepted here, even where the fields before it are text; use
    /// `Row::columns`, which checks this, or `BytesColumns` for bytes.
    pub fn new(line: &'a str, cols: &'a [usize]) -> (r: Columns<'a>)
        requires
            fields_are_text(line.spec_bytes(), cols@),
        ensures
            r.wf(),
            r.line() == line.spec_bytes(),
            r.ends() == cols@,
            r.index() == 0,
    {
        Columns { line: line.as_bytes(), cols, idx: 0 }
    }

    /// The text of field `i`.
    fn text_at(&self, i: usize) -> (r: &'a str)
        requires
            self.wf(),
            i < self.cols@.len(),
        ensures
            r@ == decode_utf8(field(self.line(), self.ends(), i as int)),
            r.spec_bytes() == field(self.line(), self.ends(), i as int),
    {
        let b = field_at(self.line, self.cols, i);
        assert(valid_utf8(field(self.line(), self.ends(), i as int)));
        match utf8_text(b) {
            Some(s) => s,
            None => {
                // every field of the row is text, so this cannot happen
                assert(false);
                ""
            },
        }
    }

    /// The next field, or `None` after the last one.
    pub fn next(&mut self) -> (r: Option<&'a str>)
        requires
            old(self).wf(),
        ensures
            final(self).wf(),
            final(self).line() == old(self).line(),
            final(self).ends() == old(self).ends(),
            old(self).index() < old(self).ends().len() ==> {
                &&& r matches Some(s) && s.spec_bytes() == field(old(self).line(), old(self).ends(), old(self).index() as int)
                &&& final(self).index() == old(self).index() + 1
            },
            old(self).index() >= old(self).ends().len() ==> r is None && final(self).index() == old(self).index(),
    {
        if self.idx >= self.cols.len() {
            return None;
        }
        let s = self.text_at(self.idx);
        self.idx = self.idx + 1;
        Some(s)
    }

    /// The next field, without moving past it.
    pub fn peek(&self) -> (r: Option<&'a str>)
        requires
            self.wf(),
        ensures
            self.index() < self.ends().len() ==> (r matches Some(s) && s.spec_bytes() == field(
                self.line(),
                self.ends(),
                self.index() as int,
            )),
            self.index() >= self.ends().len() ==> r is None,
    {
        if self.idx >= self.cols.len() {
            return None;
        }
        Some(self.text_at(self.idx))
    }

    /// Where decoding a value of shape `shape` from the next field on ends:
    /// the outcome, and the index of the first field not taken.
    pub open spec fn decoded(&self, shape: Shape) -> (core::result::Result<Val, Failure>, int) {
        decode_from(shape, fields(self.line(), self.ends()), self.index() as int)
    }

    /// An error for the next field names its 1-based position and its text.
    pub open spec fn reports_field(&self, e: Error) -> bool {
        e matches Error::Decode(m) ==> m@ == decode_utf8(
            conversion_message(self.index() + 1, field(self.line(), self.ends(), self.index() as int)),
        )
    }

    /// Decodes the next field as an integer of kind `kind`.
    pub fn read_int(&mut self, kind: IntKind) -> (r: Result<i128>)
        requires
            old(self).wf(),
        ensures
            final(self).wf(),
            final(self).line() == old(self).line(),
            final(self).ends() == old(self).ends(),
            final(self).index() == old(self).decoded(Shape::Int(kind)).1,
            r matches Ok(v) ==> old(self).decoded(Shape::Int(kind)).0 == Ok::<Val, Failure>(Val::Int(v as int)),
            r matches Err(e) ==> (old(self).decoded(Shape::Int(kind)).0 matches Err(f) && reports(e, f)),
            r matches Err(e) ==> old(self).reports_field(e),
    {
        match self.next() {
            None => Err(Error::UnexpectedEndOfRow),
            Some(s) => match parse_int(s.as_bytes(), kind) {
                Some(v) => Ok(v),
                None => Err(conversion_error(self.idx, s)),
            },
        }
    }

    /// Decodes the next field as a `usize`.
    pub fn read_usize(&mut self) -> (r: Result<usize>)
        requires
            old(self).wf(),
        ensures
            final(self).wf(),
            final(self).line() == old(self).line(),
            final(self).ends() == old(self).ends(),
            final(self).index() == old(self).decoded(Shape::Int(IntKind::Usize)).1,
            r matches Ok(v) ==> old(self).decoded(Shape::Int(IntKind::Usize)).0 == Ok::<Val, Failure>(
                Val::Int(v as int),
            ),
            r matches Err(e) ==> (old(self).decoded(Shape::Int(IntKind::Usize)).0 matches Err(f) && reports(e, f)),
            r matches Err(e) ==> old(self).reports_field(e),
            r matches Err(e) ==> old(self).reports_field(e),
    {
        match self.read_int(IntKind::Usize) {
            Ok(v) => Ok(v as usize),
            Err(e) => Err(e),
        }
    }

    /// Decodes the next field as a `u64`.
    pub fn read_u64(&mut self) -> (r: Result<u64>)
        requires
            old(self).wf(),
        ensures
            final(self).wf(),
            final(self).line() == old(self).line(),
            final(self).ends() == old(self).ends(),
            final(self).index() == old(self).decoded(Shape::Int(IntKind::U64)).1,
            r matches Ok(v) ==> old(self).decoded(Shape::Int(IntKind::U64)).0 == Ok::<Val, Failure>(
                Val::Int(v as int),
            ),
            r matches Err(e) ==> (old(self).decoded(Shape::Int(IntKind::U64)).0 matches Err(f) && reports(e, f)),
            r matches Err(e) ==> old(self).reports_field(e),
    {
        match self.read_int(IntKind::U64) {
            Ok(v) => Ok(v as u64),
            Err(e) => Err(e),
        }
    }

    /// Decodes the next field as a `u32`.
    pub fn read_u32(&mut self) -> (r: Result<u32>)
        requires
            old(self).wf(),
        ensures
            final(self).wf(),
            final(self).line() == old(self).line(),
            final(self).ends() == old(self).ends(),
            final(self).index() == old(self).decoded(Shape::Int(IntKind::U32)).1,
            r matches Ok(v) ==> old(self).decoded(Shape::Int(IntKind::U32)).0 == Ok::<Val, Failure>(
                Val::Int(v as int),
            ),
            r matches Err(e) ==> (old(self).decoded(Shape::Int(IntKind::U32)).0 matches Err(f) && reports(e, f)),
            r matches Err(e) ==> old(self).reports_field(e),
    {
        match self.read_int(IntKind::U32) {
            Ok(v) => Ok(v as u32),
            Err(e) => Err(e),
        }
    }

    /// Decodes the next field as a `u16`.
    pub fn read_u16(&mut self) -> (r: Result<u16>)
        requires
            old(self).wf(),
        ensures
            final(self).wf(),
            final(self).line() == old(self).line(),
            final(self).ends() == old(self).ends(),
            final(self).index() == old(self).decoded(Shape::Int(IntKind::U16)).1,
            r matches Ok(v) ==> old(self).decoded(Shape::Int(IntKind::U16)).0 == Ok::<Val, Failure>(
                Val::Int(v as int),
            ),
            r matches Err(e) ==> (old(self).decoded(Shape::Int(IntKind::U16)).0 matches Err(f) && reports(e, f)),
            r matches Err(e) ==> old(self).reports_field(e),
    {
        match self.read_int(IntKind::U16) {
            Ok(v) => Ok(v as u16),
            Err(e) => Err(e),
        }
    }

    /// Decodes the next field as a `u8`.
    pub fn read_u8(&mut self) -> (r: Result<u8>)
        requires
            old(self).wf(),
        ensures
            final(self).wf(),
            final(self).line() == old(self).line(),
            final(self).ends() == old(self).ends(),
            final(self).index() == old(self).decoded(Shape::Int(IntKind::U8)).1,
            r matches Ok(v) ==> old(self).decoded(Shape::Int(IntKind::U8)).0 == Ok::<Val, Failure>(
                Val::Int(v as int),
            ),
            r matches Err(e) ==> (old(self).decoded(Shape::Int(IntKind::U8)).0 matches Err(f) && reports(e, f)),
            r matches Err(e) ==> old(self).reports_field(e),
    {
        match self.read_int(IntKind::U8) {
            Ok(v) => Ok(v as u8),
            Err(e) => Err(e),
        }
    }

    /// Decodes the next field as a `isize`.
    pub fn read_isize(&mut self) -> (r: Result<isize>)
        requires
            old(self).wf(),
        ensures
            final(self).wf(),
            final(self).line() == old(self).line(),
            final(self).ends() == old(self).ends(),
            final(self).index() == old(self).decoded(Shape::Int(IntKind::Isize)).1,
            r matches Ok(v) ==> old(self).decoded(Shape::Int(IntKind::Isize)).0 == Ok::<Val, Failure>(
                Val::Int(v as int),
            ),
            r matches Err(e) ==> (old(self).decoded(Shape::Int(IntKind::Isize)).0 matches Err(f) && reports(e, f)),
            r matches Err(e) ==> old(self).reports_field(e),
            r matches Err(e) ==> old(self).reports_field(e),
    {
        match self.read_int(IntKind::Isize) {
            Ok(v) => Ok(v as isize),
            Err(e) => Err(e),
        }
    }

    /// Decodes the next field as a `i64`.
    pub fn read_i64(&mut self) -> (r: Result<i64>)
        requires
            old(self).wf(),
        ensures
            final(self).wf(),
            final(self).line() == old(self).line(),
            final(self).ends() == old(self).ends(),
            final(self).index() == old(self).decoded(Shape::Int(IntKind::I64)).1,
            r matches Ok(v) ==> old(self).decoded(Shape::Int(IntKind::I64)).0 == Ok::<Val, Failure>(
                Val::Int(v as int),
            ),
            r matches Err(e) ==> (old(self).decoded(Shape::Int(IntKind::I64)).0 matches Err(f) && reports(e, f)),
            r matches Err(e) ==> old(self).reports_field(e),
    {
        match self.read_int(IntKind::I64) {
            Ok(v) => Ok(v as i64),
            Err(e) => Err(e),
        }
    }

    /// Decodes the next field as a `i32`.
    pub fn read_i32(&mut self) -> (r: Result<i32>)
        requires
            old(self).wf(),
        ensures
            final(self).wf(),
            final(self).line() == old(self).line(),
            final(self).ends() == old(self).ends(),
            final(self).index() == old(self).decoded(Shape::Int(IntKind::I32)).1,
            r matches Ok(v) ==> old(self).decoded(Shape::Int(IntKind::I32)).0 == Ok::<Val, Failure>(
                Val::Int(v as int),
            ),
            r matches Err(e) ==> (old(self).decoded(Shape::Int(IntKind::I32)).0 matches Err(f) && reports(e, f)),
            r matches Err(e) ==> old(self).reports_field(e),
    {
        match self.read_int(IntKind::I32) {
            Ok(v) => Ok(v as i32),
            Err(e) => Err(e),
        }
    }

    /// Decodes the next field as a `i16`.
    pub fn read_i16(&mut self) -> (r: Result<i16>)
        requires
            old(self).wf(),
        ensures
            final(self).wf(),
            final(self).line() == old(self).line(),
            final(self).ends() == old(self).ends(),
            final(self).index() == old(self).decoded(Shape::Int(IntKind::I16)).1,
            r matches Ok(v) ==> old(self).decoded(Shape::Int(IntKind::I16)).0 == Ok::<Val, Failure>(
                Val::Int(v as int),
            ),
            r matches Err(e) ==> (old(self).decoded(Shape::Int(IntKind::I16)).0 matches Err(f) && reports(e, f)),
            r matches Err(e) ==> old(self).reports_field(e),
    {
        match self.read_int(IntKind::I16) {
            Ok(v) => Ok(v as i16),
            Err(e) => Err(e),
        }
    }

    /// Decodes the next field as a `i8`.
    pub fn read_i8(&mut self) -> (r: Result<i8>)
        requires
            old(self).wf(),
        ensures
            final(self).wf(),
            final(self).line() == old(self).line(),
            final(self).ends() == old(self).ends(),
            final(self).index() == old(self).decoded(Shape::Int(IntKind::I8)).1,
            r matches Ok(v) ==> old(self).decoded(Shape::Int(IntKind::I8)).0 == Ok::<Val, Failure>(
                Val::Int(v as int),
            ),
            r matches Err(e) ==> (old(self).decoded(Shape::Int(IntKind::I8)).0 matches Err(f) && reports(e, f)),
            r matches Err(e) ==> old(self).reports_field(e),
    {
        match self.read_int(IntKind::I8) {
            Ok(v) => Ok(v as i8),
            Err(e) => Err(e),
        }
    }

    /// Decodes the next field as `true` or `false`.
    pub fn read_bool(&mut self) -> (r: Result<bool>)
        requires
            old(self).wf(),
        ensures
            final(self).wf(),
            final(self).line() == old(self).line(),
            final(self).ends() == old(self).ends(),
            final(self).index() == old(self).decoded(Shape::Bool).1,
            r matches Ok(v) ==> old(self).decoded(Shape::Bool).0 == Ok::<Val, Failure>(Val::Bool(v)),
            r matches Err(e) ==> (old(self).decoded(Shape::Bool).0 matches Err(f) && reports(e, f)),
            r matches Err(e) ==> old(self).reports_field(e),
    {
        match self.next() {
            None => Err(Error::UnexpectedEndOfRow),
            Some(s) => {
                let b = s.as_bytes();
                if bytes_eq(b, &[116u8, 114u8, 117u8, 101u8]) {
                    Ok(true)
                } else if bytes_eq(b, &[102u8, 97u8, 108u8, 115u8, 101u8]) {
                    Ok(false)
                } else {
                    Err(conversion_error(self.idx, s))
                }
            },
        }
    }

    /// Decodes the next field, which must be one byte long, as a character.
    pub fn read_char(&mut self) -> (r: Result<char>)
        requires
            old(self).wf(),
        ensures
            final(self).wf(),
            final(self).line() == old(self).line(),
            final(self).ends() == old(self).ends(),
            final(self).index() == old(self).decoded(Shape::Char).1,
            r matches Ok(v) ==> old(self).decoded(Shape::Char).0 == Ok::<Val, Failure>(Val::Char(v)),
            r matches Err(e) ==> (old(self).decoded(Shape::Char).0 matches Err(f) && reports(e, f)),
            r matches Err(e) ==> old(self).reports_field(e),
    {
        let text = match self.next() {
            None => {
                return Err(Error::UnexpectedEndOfRow);
            },
            Some(s) => s,
        };
        let col = text.as_bytes();
        if col.len() != 1 {
            return Err(conversion_error(self.idx, text));
        }
        Ok(col[0] as char)
    }

    /// Decodes the next field as a string.
    pub fn read_str(&mut self) -> (r: Result<String>)
        requires
            old(self).wf(),
        ensures
            final(self).wf(),
            final(self).line() == old(self).line(),
            final(self).ends() == old(self).ends(),
            final(self).index() == old(self).decoded(Shape::Str).1,
            r matches Ok(v) ==> old(self).decoded(Shape::Str).0 == Ok::<Val, Failure>(Val::Str(v@)),
            r matches Err(e) ==> (old(self).decoded(Shape::Str).0 matches Err(f) && reports(e, f)),
            r matches Err(e) ==> old(self).reports_field(e),
    {
        match self.next() {
            None => Err(Error::UnexpectedEndOfRow),
            Some(s) => Ok(s.to_owned()),
        }
    }

    /// Starts an optional value: `Ok(false)` (the field taken) where the next
    /// field is empty, `Ok(true)` (nothing taken) where it holds a value to
    /// decode.
    pub fn read_option(&mut self) -> (r: Result<bool>)
        requires
            old(self).wf(),
        ensures
            final(self).wf(),
            final(self).line() == old(self).line(),
            final(self).ends() == old(self).ends(),
            old(self).index() >= old(self).ends().len() ==> {
                &&& r == Err::<bool, Error>(Error::UnexpectedEndOfRow)
                &&& final(self).index() == old(self).index()
            },
            old(self).index() < old(self).ends().len() ==> {
                let empty = field(old(self).line(), old(self).ends(), old(self).index() as int).len() == 0;
                &&& r == Ok::<bool, Error>(!empty)
                &&& final(self).index() == old(self).index() + if empty { 1nat } else { 0nat }
            },
    {
        let col = match self.peek() {
            None => {
                return Err(Error::UnexpectedEndOfRow);
            },
            Some(s) => s,
        };
        if col.len() == 0 {
            let _ = self.next();
            Ok(false)
        } else {
            Ok(true)
        }
    }

    /// Takes the next field as the name of a variant: its index in `names`
    /// (the first that matches), or an error (nothing taken) where it names none.
    pub fn read_enum_variant(&mut self, names: &[&str]) -> (r: Result<usize>)
        requires
            old(self).wf(),
        ensures
            final(self).wf(),
            final(self).line() == old(self).line(),
            final(self).ends() == old(self).ends(),
            ({
                let m = first_match(
                    names@.map_values(|n: &str| n@),
                    field(old(self).line(), old(self).ends(), old(self).index() as int),
                    0,
                );
                &&& old(self).index() >= old(self).ends().len() ==> {
                    &&& r == Err::<usize, Error>(Error::UnexpectedEndOfRow)
                    &&& final(self).index() == old(self).index()
                }
                &&& old(self).index() < old(self).ends().len() && m is None ==> {
                    &&& r matches Err(Error::Decode(msg))
                    &&& msg@ == decode_utf8(variant_message(names@.map_values(|n: &str| n@)))
                    &&& final(self).index() == old(self).index()
                }
                &&& old(self).index() < old(self).ends().len() ==> (m matches Some(k) ==> (r matches Ok(j)
                    && j == k && final(self).index() == old(self).index() + 1))
            }),
    {
        let col = match self.peek() {
            None => {
                return Err(Error::UnexpectedEndOfRow);
            },
            Some(s) => s.as_bytes(),
        };
        let ghost all = names@.map_values(|n: &str| n@);
        let mut k: usize = 0;
        while k < names.len()
            invariant
                k <= names@.len(),
                self.wf(),
                self.line() == old(self).line(),
                self.ends() == old(self).ends(),
                self.index() == old(self).index(),
                self.index() < self.ends().len(),
                col@ == field(self.line(), self.ends(), self.index() as int),
                all == names@.map_values(|n: &str| n@),
                first_match(all, col@, 0) == first_match(all, col@, k as int),
            decreases names@.len() - k,
        {
            if bytes_eq(names[k].as_bytes(), col) {
                let _ = self.next();
                return Ok(k);
            }
            k = k + 1;
        }
        Err(variant_error(names))
    }

    /// The number of fields handed out so far.
    pub fn position(&self) -> (r: usize)
        ensures
            r == self.index(),
    {
        self.idx
    }

    /// The number of fields not yet handed out.
    pub fn len(&self) -> (r: usize)
        requires
            self.wf(),
        ensures
            r == self.ends().len() - self.index(),
    {
        self.cols.len() - self.idx
    }
}

} // verus!
