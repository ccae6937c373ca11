//! The messages of decode errors.
//!
//! A field that does not convert is reported with its 1-based position and
//! its text; a field that names no variant, with the names it could have had.

use vstd::prelude::*;
use vstd::string::StringSliceAdditionalSpecFns;
use vstd::utf8::*;
use crate::columns::utf8_text;
use crate::decode::ZERO;
use crate::error::Error;

verus! {

broadcast use vstd::utf8::group_utf8_lib;

/// The decimal digits of `n`.
pub open spec fn decimal_text(n: nat) -> Seq<u8>
    decreases n,
{
    if n < 10 {
        seq![(ZERO + n) as u8]
    } else {
        decimal_text(n / 10).push((ZERO + n % 10) as u8)
    }
}

/// `column `
pub open spec fn column_text() -> Seq<u8> {
    seq![99u8, 111u8, 108u8, 117u8, 109u8, 110u8, 32u8]
}

/// ` does not convert: '`
pub open spec fn not_converted_text() -> Seq<u8> {
    seq![32u8, 100u8, 111u8, 101u8, 115u8, 32u8, 110u8, 111u8, 116u8, 32u8, 99u8, 111u8, 110u8,
        118u8, 101u8, 114u8, 116u8, 58u8, 32u8, 39u8]
}

/// `'`
pub open spec fn quote_mark_text() -> Seq<u8> {
    seq![39u8]
}

/// `no variant among: `
pub open spec fn no_variant_text() -> Seq<u8> {
    seq![110u8, 111u8, 32u8, 118u8, 97u8, 114u8, 105u8, 97u8, 110u8, 116u8, 32u8, 97u8, 109u8,
        111u8, 110u8, 103u8, 58u8, 32u8]
}

/// `, `
pub open spec fn separator_text() -> Seq<u8> {
    seq![44u8, 32u8]
}

/// The message for the field at 1-based `position` whose text `text` does
/// not convert: ``column <position> does not convert: '<text>'``.
pub open spec fn conversion_message(position: nat, text: Seq<u8>) -> Seq<u8> {
    column_text() + decimal_text(position) + not_converted_text() + text + quote_mark_text()
}

/// The names, encoded and separated by `, `.
pub open spec fn name_list(names: Seq<Seq<char>>) -> Seq<u8>
    decreases names.len(),
{
    if names.len() == 0 {
        seq![]
    } else if names.len() == 1 {
        encode_utf8(names[0])
    } else {
        name_list(names.drop_last()) + separator_text() + encode_utf8(names.last())
    }
}

/// The message for a field that names none of `names`:
/// ``no variant among: <name>, <name>, ...``.
pub open spec fn variant_message(names: Seq<Seq<char>>) -> Seq<u8> {
    no_variant_text() + name_list(names)
}

/// Bytes below 0x80 are UTF-8 text.
pub proof fn lemma_ascii_valid(s: Seq<u8>)
    requires
        forall|i: int| 0 <= i < s.len() ==> #[trigger] s[i] < 128,
    ensures
        valid_utf8(s),
{
    assert(s.subrange(0, 0) =~= Seq::<u8>::empty());
    assert(partial_valid_utf8(s, 0));
    assert(forall|i: int| 0 <= i < s.len() ==> #[trigger] is_leading_byte_width_1(s[i]));
    partial_valid_utf8_extend_ascii_block(s, 0, s.len() as int);
    assert(s.subrange(0, s.len() as int) =~= s);
}

/// Appends the decimal digits of `n` to `v`.
fn push_decimal(v: &mut Vec<u8>, n: usize)
    ensures
        final(v)@ == old(v)@ + decimal_text(n as nat),
        forall|i: int| 0 <= i < decimal_text(n as nat).len() ==> #[trigger] decimal_text(n as nat)[i] < 128,
    decreases n,
{
    if n >= 10 {
        push_decimal(v, n / 10);
    }
    v.push(ZERO + (n % 10) as u8);
    assert(v@ =~= old(v)@ + decimal_text(n as nat));
}

/// Turns the UTF-8 bytes of a message into a decode error.
fn decode_error(message: &Vec<u8>) -> (r: Error)
    requires
        valid_utf8(message@),
    ensures
        r matches Error::Decode(m) && m@ == decode_utf8(message@),
{
    match utf8_text(message.as_slice()) {
        Some(s) => Error::Decode(s.to_owned()),
        None => {
            // the message is text, so this cannot happen
            assert(false);
            Error::Decode(String::new())
        },
    }
}

/// The error for the field at 1-based `position` whose text `text` does not
/// convert.
pub fn conversion_error(position: usize, text: &str) -> (r: Error)
    ensures
        r matches Error::Decode(m) && m@ == decode_utf8(conversion_message(position as nat, text.spec_bytes())),
{
    let mut v: Vec<u8> = Vec::new();
    v.extend_from_slice(&[99u8, 111u8, 108u8, 117u8, 109u8, 110u8, 32u8]);
    assert(v@ =~= column_text());
    push_decimal(&mut v, position);
    let ghost head = v@;
    v.extend_from_slice(
        &[32u8, 100u8, 111u8, 101u8, 115u8, 32u8, 110u8, 111u8, 116u8, 32u8, 99u8, 111u8, 110u8,
        118u8, 101u8, 114u8, 116u8, 58u8, 32u8, 39u8],
    );
    assert(v@ =~= head + not_converted_text());
    let ghost mid = v@;
    v.extend_from_slice(text.as_bytes());
    assert(v@ =~= mid + text.spec_bytes());
    let ghost body = v@;
    v.push(39u8);
    assert(v@ =~= body + quote_mark_text());
    proof {
        lemma_ascii_valid(column_text());
        lemma_ascii_valid(decimal_text(position as nat));
        lemma_ascii_valid(not_converted_text());
        lemma_ascii_valid(quote_mark_text());
        let a = column_text();
        let b = decimal_text(position as nat);
        let c = not_converted_text();
        let t = text.spec_bytes();
        valid_utf8_concat(a, b);
        valid_utf8_concat(a + b, c);
        valid_utf8_concat(a + b + c, t);
        valid_utf8_concat(a + b + c + t, quote_mark_text());
    }
    assert(v@ =~= conversion_message(position as nat, text.spec_bytes()));
    decode_error(&v)
}

/// The error for a field that names none of `names`.
pub fn variant_error(names: &[&str]) -> (r: Error)
    ensures
        r matches Error::Decode(m) && m@ == decode_utf8(variant_message(names@.map_values(|n: &str| n@))),
{
    let ghost all = names@.map_values(|n: &str| n@);
    let mut v: Vec<u8> = Vec::new();
    v.extend_from_slice(
        &[110u8, 111u8, 32u8, 118u8, 97u8, 114u8, 105u8, 97u8, 110u8, 116u8, 32u8, 97u8, 109u8,
        111u8, 110u8, 103u8, 58u8, 32u8],
    );
    assert(v@ =~= no_variant_text());
    proof {
        lemma_ascii_valid(no_variant_text());
        lemma_ascii_valid(separator_text());
    }
    let mut k: usize = 0;
    while k < names.len()
        invariant
            k <= names@.len(),
            all == names@.map_values(|n: &str| n@),
            v@ == no_variant_text() + name_list(all.take(k as int)),
            valid_utf8(v@),
            valid_utf8(separator_text()),
        decreases names@.len() - k,
    {
        let ghost before = v@;
        if k > 0 {
            v.extend_from_slice(&[44u8, 32u8]);
            assert(v@ =~= before + separator_text());
            proof {
                valid_utf8_concat(before, separator_text());
            }
        }
        let ghost sep = v@;
        v.extend_from_slice(names[k].as_bytes());
        assert(v@ =~= sep + encode_utf8(all[k as int]));
        proof {
            encode_utf8_valid_utf8(all[k as int]);
            valid_utf8_concat(sep, encode_utf8(all[k as int]));
        }
        assert(all.take(k + 1).drop_last() =~= all.take(k as int));
        assert(v@ =~= no_variant_text() + name_list(all.take(k + 1)));
        k = k + 1;
    }
    assert(all.take(k as int) =~= all);
    decode_error(&v)
}

} // verus!
