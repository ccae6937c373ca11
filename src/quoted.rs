//! Quoted fields: any bytes, written between quotes with each quote doubled,
//! read back as written.

use vstd::prelude::*;
use crate::columns::{field, fields, raw_field, unquote};
use crate::source::chunk_of;
use crate::tokenizer::{lemma_refill_independent, scan_from, whole_capacity, Mode, CR, LF, QUOTE};
use crate::{strip_cr, Csv, Step};

verus! {

/// The bytes `s` with each quote doubled.
pub open spec fn escape(s: Seq<u8>) -> Seq<u8>
    decreases s.len(),
{
    if s.len() == 0 {
        seq![]
    } else {
        (if s[0] == QUOTE {
            seq![QUOTE, QUOTE]
        } else {
            seq![s[0]]
        }) + escape(s.drop_first())
    }
}

/// The field `s` written between quotes.
pub open spec fn quoted(s: Seq<u8>) -> Seq<u8> {
    seq![QUOTE] + escape(s) + seq![QUOTE]
}

pub proof fn lemma_escape_len(s: Seq<u8>)
    ensures
        escape(s).len() >= s.len(),
    decreases s.len(),
{
    if s.len() > 0 {
        lemma_escape_len(s.drop_first());
    }
}

/// Inside quotes, an escaped text adds the bytes it stands for to the row and
/// leaves the field open.
pub proof fn lemma_scan_escaped(
    chunk: Seq<u8>,
    d: u8,
    i: int,
    s: Seq<u8>,
    buf: Seq<u8>,
    cols: Seq<usize>,
)
    requires
        0 <= i,
        i + escape(s).len() <= chunk.len(),
        chunk.subrange(i, i + escape(s).len()) == escape(s),
    ensures
        scan_from(chunk, d, i, Mode::Quoted, buf, cols) == scan_from(
            chunk,
            d,
            i + escape(s).len(),
            Mode::Quoted,
            buf + s,
            cols,
        ),
    decreases s.len(),
{
    if s.len() == 0 {
        assert(buf + s =~= buf);
    } else {
        let e = escape(s);
        let rest = escape(s.drop_first());
        let head: Seq<u8> = if s[0] == QUOTE { seq![QUOTE, QUOTE] } else { seq![s[0]] };
        assert(e == head + rest);
        assert(chunk[i] == e[0]);
        let n = head.len() as int;
        assert(chunk.subrange(i + n, i + e.len()) =~= rest) by {
            assert forall|k: int| 0 <= k < rest.len() implies chunk.subrange(i + n, i + e.len())[k] == rest[k] by {
                assert(chunk[i + n + k] == e[n + k]);
            }
        }
        if s[0] == QUOTE {
            assert(chunk[i + 1] == e[1]);
            assert(scan_from(chunk, d, i + 1, Mode::QuoteSeen, buf.push(QUOTE), cols) == scan_from(
                chunk,
                d,
                i + 2,
                Mode::Quoted,
                buf.push(QUOTE),
                cols,
            ));
        }
        lemma_scan_escaped(chunk, d, i + n, s.drop_first(), buf.push(s[0]), cols);
        assert(buf.push(s[0]) + s.drop_first() =~= buf + s);
    }
}

/// A row that is one quoted field reads back as that field, whatever bytes it
/// holds (delimiters, quotes, line ends) and however the source cuts it into
/// refills.
pub proof fn lemma_quoted_round_trip(c: Csv, s: Seq<u8>, tail: Seq<u8>)
    requires
        c.wf(),
        !c.finished(),
        c.expected_count() is None || c.expected_count() == Some(1usize),
        c.rest() == quoted(s).push(LF) + tail,
    ensures
        c.step() matches Step::Row(line, ends) && fields(line, ends) == seq![s],
{
    c.lemma_wf();
    let d = c.spec_delimiter();
    let rest = c.rest();
    let e = escape(s);
    let k = 1 + e.len() as int;
    lemma_refill_independent(rest, c.capacity(), d, Mode::Plain, 0, seq![], seq![]);
    assert(chunk_of(rest, whole_capacity(rest)) == rest);
    assert(rest[0] == QUOTE);
    assert(rest.subrange(1, k) =~= e);
    lemma_scan_escaped(rest, d, 1, s, seq![QUOTE], seq![]);
    assert(rest[k] == QUOTE);
    assert(rest[k + 1] == LF);
    lemma_escape_len(s);
    let open = seq![QUOTE] + s;
    let line = open.push(QUOTE);
    assert(seq![QUOTE] =~= Seq::<u8>::empty().push(QUOTE));
    assert(scan_from(rest, d, 0, Mode::Plain, seq![], seq![]) == scan_from(
        rest,
        d,
        1,
        Mode::Quoted,
        seq![QUOTE],
        seq![],
    ));
    assert(scan_from(rest, d, k, Mode::Quoted, open, seq![]) == scan_from(
        rest,
        d,
        k + 1,
        Mode::QuoteSeen,
        line,
        seq![],
    ));
    assert(scan_from(rest, d, k + 1, Mode::QuoteSeen, line, seq![]) == scan_from(
        rest,
        d,
        k + 1,
        Mode::Plain,
        line,
        seq![],
    ));
    assert(scan_from(rest, d, 0, Mode::Plain, seq![], seq![]).buf == line);
    assert(line.last() == QUOTE);
    assert(strip_cr(line) == line);
    assert(unquote(line) =~= s);
    let ends = seq![line.len() as usize];
    assert(raw_field(line, ends, 0) =~= line);
    assert(field(line, ends, 0) == s);
    assert(fields(line, ends) =~= seq![s]);
}

} // verus!
