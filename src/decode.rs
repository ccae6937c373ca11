//! Decoding a row's fields into typed values, field by field.
//!
//! A `Shape` describes the value wanted: scalars (integers, booleans,
//! characters, strings), optional values, tuples, enums whose variant is named
//! by a field, and a tail that takes every field left. Fields are taken from
//! the row in the order in which the shape lists them.

use vstd::prelude::*;
use vstd::utf8::*;
use crate::columns::{fields, Columns};
use crate::error::Error;

verus! {

pub const PLUS: u8 = 43;

pub const MINUS: u8 = 45;

pub const ZERO: u8 = 48;

/// The integer types a field can be decoded into.
#[derive(Clone, Copy)]
pub enum IntKind {
    U8,
    U16,
    U32,
    U64,
    Usize,
    I8,
    I16,
    I32,
    I64,
    Isize,
}

impl IntKind {
    pub open spec fn signed(self) -> bool {
        match self {
            IntKind::I8 | IntKind::I16 | IntKind::I32 | IntKind::I64 | IntKind::Isize => true,
            _ => false,
        }
    }

    /// The smallest value of the type.
    pub open spec fn min(self) -> int {
        match self {
            IntKind::I8 => i8::MIN as int,
            IntKind::I16 => i16::MIN as int,
            IntKind::I32 => i32::MIN as int,
            IntKind::I64 => i64::MIN as int,
            IntKind::Isize => isize::MIN as int,
            _ => 0,
        }
    }

    /// The largest value of the type.
    pub open spec fn max(self) -> int {
        match self {
            IntKind::U8 => u8::MAX as int,
            IntKind::U16 => u16::MAX as int,
            IntKind::U32 => u32::MAX as int,
            IntKind::U64 => u64::MAX as int,
            IntKind::Usize => usize::MAX as int,
            IntKind::I8 => i8::MAX as int,
            IntKind::I16 => i16::MAX as int,
            IntKind::I32 => i32::MAX as int,
            IntKind::I64 => i64::MAX as int,
            IntKind::Isize => isize::MAX as int,
        }
    }

    /// Whether the type has negative values.
    pub fn is_signed(&self) -> (r: bool)
        ensures
            r == self.signed(),
    {
        match self {
            IntKind::I8 | IntKind::I16 | IntKind::I32 | IntKind::I64 | IntKind::Isize => true,
            _ => false,
        }
    }

    /// The magnitudes of the smallest and of the largest value.
    pub fn limits(&self) -> (r: (u128, u128))
        ensures
            r.0 == -self.min(),
            r.1 == self.max(),
            r.0 <= 0x1_0000_0000_0000_0000,
            r.1 <= 0x1_0000_0000_0000_0000,
    {
        match self {
            IntKind::U8 => (0, u8::MAX as u128),
            IntKind::U16 => (0, u16::MAX as u128),
            IntKind::U32 => (0, u32::MAX as u128),
            IntKind::U64 => (0, u64::MAX as u128),
            IntKind::Usize => (0, usize::MAX as u128),
            IntKind::I8 => (i8::MAX as u128 + 1, i8::MAX as u128),
            IntKind::I16 => (i16::MAX as u128 + 1, i16::MAX as u128),
            IntKind::I32 => (i32::MAX as u128 + 1, i32::MAX as u128),
            IntKind::I64 => (i64::MAX as u128 + 1, i64::MAX as u128),
            IntKind::Isize => (isize::MAX as u128 + 1, isize::MAX as u128),
        }
    }
}

pub open spec fn is_digit(b: u8) -> bool {
    ZERO <= b && b <= ZERO + 9
}

/// One or more decimal digits.
pub open spec fn all_digits(s: Seq<u8>) -> bool {
    s.len() > 0 && forall|i: int| 0 <= i < s.len() ==> is_digit(#[trigger] s[i])
}

/// The number that the decimal digits `s` spell.
pub open spec fn digits_value(s: Seq<u8>) -> nat
    decreases s.len(),
{
    if s.len() == 0 {
        0
    } else {
        digits_value(s.drop_last()) * 10 + (s.last() - ZERO) as nat
    }
}

/// The integer that `s` spells: an optional `+` (or `-` where negative
/// values are allowed) followed by one or more decimal digits, nothing else.
pub open spec fn decimal(s: Seq<u8>, signed: bool) -> Option<int> {
    if s.len() > 0 && s[0] == PLUS {
        if all_digits(s.skip(1)) {
            Some(digits_value(s.skip(1)) as int)
        } else {
            None
        }
    } else if s.len() > 0 && s[0] == MINUS && signed {
        if all_digits(s.skip(1)) {
            Some(-(digits_value(s.skip(1)) as int))
        } else {
            None
        }
    } else if all_digits(s) {
        Some(digits_value(s) as int)
    } else {
        None
    }
}

/// The value of the text `s` as an integer of kind `kind`, if it spells one
/// in the type's range.
pub open spec fn int_value(s: Seq<u8>, kind: IntKind) -> Option<int> {
    match decimal(s, kind.signed()) {
        Some(v) => if kind.min() <= v && v <= kind.max() {
            Some(v)
        } else {
            None
        },
        None => None,
    }
}

/// Appending digits never makes the value smaller.
pub proof fn lemma_digits_grow(s: Seq<u8>, m: int)
    requires
        0 <= m <= s.len(),
    ensures
        digits_value(s.take(m)) <= digits_value(s),
    decreases s.len() - m,
{
    if m < s.len() {
        lemma_digits_grow(s, m + 1);
        assert(s.take(m + 1).drop_last() =~= s.take(m));
    } else {
        assert(s.take(m) =~= s);
    }
}

/// Parses the text `b` as an integer of kind `kind`.
pub fn parse_int(b: &[u8], kind: IntKind) -> (r: Option<i128>)
    ensures
        r is Some <==> int_value(b@, kind) is Some,
        r matches Some(v) ==> int_value(b@, kind) == Some(v as int),
{
    let n = b.len();
    if n == 0 {
        return None;
    }
    let negative = b[0] == MINUS && kind.is_signed();
    let start: usize = if b[0] == PLUS || negative { 1 } else { 0 };
    if start == n {
        assert(b@.skip(1).len() == 0);
        return None;
    }
    let (neg_limit, pos_limit) = kind.limits();
    let limit = if negative { neg_limit } else { pos_limit };
    let ghost digits = b@.skip(start as int);
    let mut acc: u128 = 0;
    let mut i: usize = start;
    while i < n
        invariant
            start <= i <= n,
            n == b@.len(),
            n > 0,
            negative == (b@[0] == MINUS && kind.signed()),
            start == if b@[0] == PLUS || negative { 1usize } else { 0usize },
            limit == if negative { -kind.min() } else { kind.max() },
            digits == b@.skip(start as int),
            limit <= 0x1_0000_0000_0000_0000,
            acc <= limit,
            acc == digits_value(digits.take(i - start)),
            forall|j: int| 0 <= j < i - start ==> is_digit(#[trigger] digits[j]),
        decreases n - i,
    {
        let c = b[i];
        assert(digits[i - start] == c);
        if c < ZERO || c > ZERO + 9 {
            assert(!all_digits(digits));
            assert(!all_digits(b@)) by {
                assert(!is_digit(b@[i as int]));
            }
            assert(decimal(b@, kind.signed()) is None) by {
                if b@[0] == PLUS || negative {
                    assert(b@.skip(1) == digits);
                } else {
                    assert(digits =~= b@);
                }
            }
            return None;
        }
        assert(acc * 10 <= 0x1_0000_0000_0000_0000 * 10) by (nonlinear_arith)
            requires
                acc <= 0x1_0000_0000_0000_0000,
        ;
        let next = acc * 10 + (c - ZERO) as u128;
        assert(digits.take(i - start + 1).drop_last() =~= digits.take(i - start));
        if next > limit {
            proof {
                if start == 0 {
                    assert(digits =~= b@);
                }
                if all_digits(digits) {
                    lemma_digits_grow(digits, i - start + 1);
                    assert(digits.take(digits.len() as int) =~= digits);
                    assert(digits_value(digits) > limit);
                    if b@[0] == PLUS || negative {
                        assert(b@.skip(1) == digits);
                    } else {
                        assert(digits =~= b@);
                    }
                    assert(int_value(b@, kind) is None);
                } else {
                    assert(!all_digits(b@)) by {
                        if start == 1 {
                            assert(!is_digit(b@[0]));
                        }
                    }
                    assert(decimal(b@, kind.signed()) is None);
                }
            }
            return None;
        }
        acc = next;
        i = i + 1;
    }
    assert(digits.take(i - start) =~= digits);
    if start == 0 {
        assert(digits =~= b@);
    }
    if negative {
        Some(-(acc as i128))
    } else {
        Some(acc as i128)
    }
}

/// A decoded value, as a mathematical object.
pub enum Val {
    Int(int),
    Bool(bool),
    Char(char),
    Str(Seq<char>),
    Opt(Option<Box<Val>>),
    Tuple(Seq<Val>),
    Variant(nat, Seq<Val>),
    List(Seq<Val>),
}

/// A decoded value.
#[derive(Debug, PartialEq)]
pub enum Value {
    /// An integer of any of the `IntKind` types.
    Int(i128),
    Bool(bool),
    Char(char),
    Str(String),
    /// An optional value: `None` for an empty field or one that did not decode.
    Opt(Option<Box<Value>>),
    /// The values of a tuple or struct, in order.
    Tuple(Vec<Value>),
    /// The index of an enum's variant, and the values of its arguments.
    Variant(usize, Vec<Value>),
    /// The values of a tail of the row.
    List(Vec<Value>),
}

pub open spec fn view_all(vs: Seq<Value>) -> Seq<Val>
    decreases vs,
{
    if vs.len() == 0 {
        seq![]
    } else {
        view_all(vs.drop_last()).push(view_of(vs.last()))
    }
}

/// The mathematical object that a value stands for.
pub open spec fn view_of(v: Value) -> Val
    decreases v,
{
    match v {
        Value::Int(i) => Val::Int(i as int),
        Value::Bool(b) => Val::Bool(b),
        Value::Char(c) => Val::Char(c),
        Value::Str(s) => Val::Str(s@),
        Value::Opt(o) => match o {
            Some(b) => Val::Opt(Some(Box::new(view_of(*b)))),
            None => Val::Opt(None),
        },
        Value::Tuple(vs) => Val::Tuple(view_all(vs@)),
        Value::Variant(k, vs) => Val::Variant(k as nat, view_all(vs@)),
        Value::List(vs) => Val::List(view_all(vs@)),
    }
}

pub proof fn lemma_view_all_push(vs: Seq<Value>, v: Value)
    ensures
        view_all(vs.push(v)) == view_all(vs).push(view_of(v)),
{
    assert(vs.push(v).drop_last() =~= vs);
}

/// A variant of an enum shape: its name and the shapes of its arguments.
pub struct Variant {
    pub name: String,
    pub args: Vec<Shape>,
}

/// The shape of a value to decode from a row's fields.
pub enum Shape {
    /// An integer of the given type, from one field.
    Int(IntKind),
    /// `true` or `false`, from one field.
    Bool,
    /// A single character, from a field of one byte.
    Char,
    /// A string, from one field.
    Str,
    /// An optional value: absent where the field is empty, or where the value
    /// does not decode.
    Opt(Box<Shape>),
    /// The values of the shapes in order.
    Tuple(Vec<Shape>),
    /// One of the variants, named by a field, followed by its arguments.
    Enum(Vec<Variant>),
    /// As many values of the shape as the row has fields left.
    Tail(Box<Shape>),
}

/// Why a decode failed.
pub enum Failure {
    /// A field was needed after the last one.
    EndOfRow,
    /// A field's text does not fit the shape.
    Invalid,
}

/// The error `e` reports a failure of kind `f`.
pub open spec fn reports(e: Error, f: Failure) -> bool {
    match f {
        Failure::EndOfRow => e == Error::UnexpectedEndOfRow,
        Failure::Invalid => e is Decode,
    }
}

pub open spec fn true_text() -> Seq<u8> {
    seq![116u8, 114u8, 117u8, 101u8]
}

pub open spec fn false_text() -> Seq<u8> {
    seq![102u8, 97u8, 108u8, 115u8, 101u8]
}

/// The value of the field text `f` for a scalar shape.
pub open spec fn scalar_value(shape: Shape, f: Seq<u8>) -> Option<Val> {
    match shape {
        Shape::Int(k) => match int_value(f, k) {
            Some(v) => Some(Val::Int(v)),
            None => None,
        },
        Shape::Bool => if f == true_text() {
            Some(Val::Bool(true))
        } else if f == false_text() {
            Some(Val::Bool(false))
        } else {
            None
        },
        Shape::Char => if f.len() == 1 {
            Some(Val::Char(f[0] as char))
        } else {
            None
        },
        Shape::Str => Some(Val::Str(decode_utf8(f))),
        _ => None,
    }
}

/// The first of `names` (from index `k` on) whose text is `text`.
pub open spec fn first_match(names: Seq<Seq<char>>, text: Seq<u8>, k: int) -> Option<nat>
    decreases names.len() - k,
{
    if k < 0 || k >= names.len() {
        None
    } else if encode_utf8(names[k]) == text {
        Some(k as nat)
    } else {
        first_match(names, text, k + 1)
    }
}

/// `(r, j)` with the value list of `r` preceded by `pre`.
pub open spec fn preceded(pre: Seq<Val>, d: (Result<Seq<Val>, Failure>, int)) -> (
    Result<Seq<Val>, Failure>,
    int,
) {
    (
        match d.0 {
            Ok(vs) => Ok(pre + vs),
            Err(f) => Err(f),
        },
        d.1,
    )
}

/// Decodes a value of shape `shape` from `fields`, starting at field `idx`:
/// the outcome, and the index of the first field not taken.
pub open spec fn decode_from(shape: Shape, fields: Seq<Seq<u8>>, idx: int) -> (
    Result<Val, Failure>,
    int,
)
    decreases shape, 0int,
{
    match shape {
        Shape::Opt(inner) => {
            if idx < 0 || idx >= fields.len() {
                (Err(Failure::EndOfRow), idx)
            } else if fields[idx].len() == 0 {
                (Ok(Val::Opt(None)), idx + 1)
            } else {
                let d = decode_from(*inner, fields, idx);
                match d.0 {
                    Ok(v) => (Ok(Val::Opt(Some(Box::new(v)))), d.1),
                    Err(_) => (Ok(Val::Opt(None)), if d.1 == idx {
                        idx + 1
                    } else {
                        d.1
                    }),
                }
            }
        },
        Shape::Tuple(shapes) => {
            let d = decode_seq(shapes@, 0, fields, idx);
            match d.0 {
                Ok(vs) => (Ok(Val::Tuple(vs)), d.1),
                Err(f) => (Err(f), d.1),
            }
        },
        Shape::Enum(variants) => {
            if idx < 0 || idx >= fields.len() {
                (Err(Failure::EndOfRow), idx)
            } else {
                decode_variant(variants@, 0, fields, idx)
            }
        },
        Shape::Tail(elem) => {
            let n = if 0 <= idx < fields.len() { (fields.len() - idx) as nat } else { 0 };
            let d = decode_repeat(*elem, n, fields, idx);
            match d.0 {
                Ok(vs) => (Ok(Val::List(vs)), d.1),
                Err(f) => (Err(f), d.1),
            }
        },
        _ => {
            if idx < 0 || idx >= fields.len() {
                (Err(Failure::EndOfRow), idx)
            } else {
                match scalar_value(shape, fields[idx]) {
                    Some(v) => (Ok(v), idx + 1),
                    None => (Err(Failure::Invalid), idx + 1),
                }
            }
        },
    }
}

/// Decodes the shapes `shapes[k..]` one after the other.
pub open spec fn decode_seq(shapes: Seq<Shape>, k: int, fields: Seq<Seq<u8>>, idx: int) -> (
    Result<Seq<Val>, Failure>,
    int,
)
    decreases shapes, shapes.len() - k,
{
    if k < 0 || k >= shapes.len() {
        (Ok(seq![]), idx)
    } else {
        let d = decode_from(shapes[k], fields, idx);
        match d.0 {
            Ok(v) => preceded(seq![v], decode_seq(shapes, k + 1, fields, d.1)),
            Err(f) => (Err(f), d.1),
        }
    }
}

/// Decodes `count` values of shape `elem` one after the other.
pub open spec fn decode_repeat(elem: Shape, count: nat, fields: Seq<Seq<u8>>, idx: int) -> (
    Result<Seq<Val>, Failure>,
    int,
)
    decreases elem, count,
{
    if count == 0 {
        (Ok(seq![]), idx)
    } else {
        let d = decode_from(elem, fields, idx);
        match d.0 {
            Ok(v) => preceded(seq![v], decode_repeat(elem, (count - 1) as nat, fields, d.1)),
            Err(f) => (Err(f), d.1),
        }
    }
}

/// Decodes an enum value whose variant is the first of `variants[k..]` named
/// by field `idx`.
pub open spec fn decode_variant(variants: Seq<Variant>, k: int, fields: Seq<Seq<u8>>, idx: int) -> (
    Result<Val, Failure>,
    int,
)
    decreases variants, variants.len() - k,
{
    if k < 0 || k >= variants.len() {
        (Err(Failure::Invalid), idx)
    } else if 0 <= idx < fields.len() && encode_utf8(variants[k].name@) == fields[idx] {
        let d = decode_seq(variants[k].args@, 0, fields, idx + 1);
        match d.0 {
            Ok(vs) => (Ok(Val::Variant(k as nat, vs)), d.1),
            Err(f) => (Err(f), d.1),
        }
    } else {
        decode_variant(variants, k + 1, fields, idx)
    }
}

/// An optional integer whose field holds text that is not an integer of the
/// type is absent, not an error; the field is taken.
pub proof fn lemma_optional_leniency(kind: IntKind, fields: Seq<Seq<u8>>, idx: int)
    requires
        0 <= idx < fields.len(),
        fields[idx].len() > 0,
        int_value(fields[idx], kind) is None,
    ensures
        decode_from(Shape::Opt(Box::new(Shape::Int(kind))), fields, idx) == (
            Ok::<Val, Failure>(Val::Opt(None)),
            idx + 1,
        ),
{
    assert(decode_from(Shape::Int(kind), fields, idx) == (Err::<Val, Failure>(Failure::Invalid), idx + 1));
}

pub proof fn lemma_preceded_push(
    pre: Seq<Val>,
    v: Val,
    d: (core::result::Result<Seq<Val>, Failure>, int),
)
    ensures
        preceded(pre, preceded(seq![v], d)) == preceded(pre.push(v), d),
{
    if let Ok(vs) = d.0 {
        assert(pre + (seq![v] + vs) =~= pre.push(v) + vs);
    }
}

pub proof fn lemma_first_match_bound(names: Seq<Seq<char>>, text: Seq<u8>, k: int)
    ensures
        first_match(names, text, k) matches Some(m) ==> k <= m < names.len(),
    decreases names.len() - k,
{
    if 0 <= k < names.len() {
        lemma_first_match_bound(names, text, k + 1);
    }
}

/// The names of the variants.
pub open spec fn variant_names(variants: Seq<Variant>) -> Seq<Seq<char>> {
    variants.map_values(|v: Variant| v.name@)
}

/// An enum value takes the first variant whose name is the field's text.
pub proof fn lemma_decode_variant(variants: Seq<Variant>, k: int, fields: Seq<Seq<u8>>, idx: int)
    requires
        0 <= k <= variants.len(),
        0 <= idx < fields.len(),
    ensures
        decode_variant(variants, k, fields, idx) == match first_match(
            variant_names(variants),
            fields[idx],
            k,
        ) {
            None => (Err(Failure::Invalid), idx),
            Some(m) => {
                let d = decode_seq(variants[m as int].args@, 0, fields, idx + 1);
                (
                    match d.0 {
                        Ok(vs) => Ok(Val::Variant(m, vs)),
                        Err(f) => Err(f),
                    },
                    d.1,
                )
            },
        },
    decreases variants.len() - k,
{
    if k < variants.len() {
        lemma_decode_variant(variants, k + 1, fields, idx);
    }
}

impl<'a> Columns<'a> {
    /// Decodes a value of shape `shape` from the next fields.
    pub fn decode_shape(&mut self, shape: &Shape) -> (r: Result<Value, Error>)
        requires
            old(self).wf(),
        ensures
            final(self).wf(),
            final(self).line() == old(self).line(),
            final(self).ends() == old(self).ends(),
            final(self).index() == old(self).decoded(*shape).1,
            r matches Ok(v) ==> old(self).decoded(*shape).0 == Ok::<Val, Failure>(view_of(v)),
            r matches Err(e) ==> (old(self).decoded(*shape).0 matches Err(f) && reports(e, f)),
        decreases shape,
    {
        match shape {
            Shape::Int(kind) => match self.read_int(*kind) {
                Ok(v) => Ok(Value::Int(v)),
                Err(e) => Err(e),
            },
            Shape::Bool => match self.read_bool() {
                Ok(v) => Ok(Value::Bool(v)),
                Err(e) => Err(e),
            },
            Shape::Char => match self.read_char() {
                Ok(v) => Ok(Value::Char(v)),
                Err(e) => Err(e),
            },
            Shape::Str => match self.read_str() {
                Ok(v) => Ok(Value::Str(v)),
                Err(e) => Err(e),
            },
            Shape::Opt(inner) => match self.read_option() {
                Err(e) => Err(e),
                Ok(false) => Ok(Value::Opt(None)),
                Ok(true) => {
                    let before = self.position();
                    match self.decode_shape(inner) {
                        Ok(v) => Ok(Value::Opt(Some(Box::new(v)))),
                        Err(_) => {
                            // the field counts as taken even where the
                            // failed decode left it
                            if self.position() == before {
                                let _ = self.next();
                            }
                            Ok(Value::Opt(None))
                        },
                    }
                },
            },
            Shape::Tuple(shapes) => match self.decode_all(shapes) {
                Ok(vs) => Ok(Value::Tuple(vs)),
                Err(e) => Err(e),
            },
            Shape::Enum(variants) => {
                let ghost all = fields(self.line(), self.ends());
                let mut names: Vec<&str> = Vec::new();
                let mut k: usize = 0;
                while k < variants.len()
                    invariant
                        *shape == Shape::Enum(*variants),
                        k <= variants@.len(),
                        names@.len() == k,
                        forall|i: int| 0 <= i < k ==> (#[trigger] names@[i])@ == variants@[i].name@,
                    decreases variants@.len() - k,
                {
                    names.push(variants[k].name.as_str());
                    k = k + 1;
                }
                assert(names@.map_values(|n: &str| n@) =~= variant_names(variants@));
                proof {
                    if self.index() < self.ends().len() {
                        lemma_decode_variant(variants@, 0, all, self.index() as int);
                        lemma_first_match_bound(variant_names(variants@), all[self.index() as int], 0);
                    }
                }
                let m = match self.read_enum_variant(names.as_slice()) {
                    Ok(m) => m,
                    Err(e) => {
                        return Err(e);
                    },
                };
                match self.decode_all(&variants[m].args) {
                    Ok(vs) => Ok(Value::Variant(m, vs)),
                    Err(e) => Err(e),
                }
            },
            Shape::Tail(elem) => {
                let ghost all = fields(self.line(), self.ends());
                let ghost start = self.index();
                let n = self.len();
                let mut vals: Vec<Value> = Vec::new();
                let mut done: usize = 0;
                while done < n
                    invariant
                        *shape == Shape::Tail(*elem),
                        self.wf(),
                        self.line() == old(self).line(),
                        self.ends() == old(self).ends(),
                        all == fields(self.line(), self.ends()),
                        start == old(self).index(),
                        n == self.ends().len() - start,
                        done <= n,
                        preceded(view_all(vals@), decode_repeat(**elem, (n - done) as nat, all, self.index() as int))
                            == decode_repeat(**elem, n as nat, all, start as int),
                    decreases n - done,
                {
                    let ghost before = self.index() as int;
                    let ghost d = decode_from(**elem, all, before);
                    match self.decode_shape(elem) {
                        Ok(v) => {
                            proof {
                                lemma_preceded_push(
                                    view_all(vals@),
                                    view_of(v),
                                    decode_repeat(**elem, (n - done - 1) as nat, all, d.1),
                                );
                                lemma_view_all_push(vals@, v);
                            }
                            vals.push(v);
                        },
                        Err(e) => {
                            return Err(e);
                        },
                    }
                    done = done + 1;
                }
                assert(view_all(vals@) + seq![] =~= view_all(vals@));
                Ok(Value::List(vals))
            },
        }
    }

    /// Decodes values of the shapes `shapes`, one after the other.
    pub fn decode_all(&mut self, shapes: &Vec<Shape>) -> (r: Result<Vec<Value>, Error>)
        requires
            old(self).wf(),
        ensures
            final(self).wf(),
            final(self).line() == old(self).line(),
            final(self).ends() == old(self).ends(),
            ({
                let d = decode_seq(shapes@, 0, fields(old(self).line(), old(self).ends()), old(self).index() as int);
                &&& final(self).index() == d.1
                &&& r matches Ok(vs) ==> d.0 == Ok::<Seq<Val>, Failure>(view_all(vs@))
                &&& r matches Err(e) ==> (d.0 matches Err(f) && reports(e, f))
            }),
        decreases shapes,
    {
        let ghost all = fields(self.line(), self.ends());
        let ghost start = self.index();
        let mut vals: Vec<Value> = Vec::new();
        let mut k: usize = 0;
        while k < shapes.len()
            invariant
                self.wf(),
                self.line() == old(self).line(),
                self.ends() == old(self).ends(),
                all == fields(self.line(), self.ends()),
                start == old(self).index(),
                k <= shapes@.len(),
                preceded(view_all(vals@), decode_seq(shapes@, k as int, all, self.index() as int))
                    == decode_seq(shapes@, 0, all, start as int),
            decreases shapes@.len() - k,
        {
            let ghost before = self.index() as int;
            let ghost d = decode_from(shapes@[k as int], all, before);
            match self.decode_shape(&shapes[k]) {
                Ok(v) => {
                    proof {
                        lemma_preceded_push(
                            view_all(vals@),
                            view_of(v),
                            decode_seq(shapes@, k + 1, all, d.1),
                        );
                        lemma_view_all_push(vals@, v);
                    }
                    vals.push(v);
                },
                Err(e) => {
                    return Err(e);
                },
            }
            k = k + 1;
        }
        assert(view_all(vals@) + seq![] =~= view_all(vals@));
        Ok(vals)
    }
}

} // verus!
