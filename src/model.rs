//! What the canonical encoding of a value is, stated over bytes.
use vstd::prelude::*;
use vstd::utf8::encode_utf8;

use crate::error::Error;
use crate::value::Value;

verus! {

/// The longest canonical encoding that is accepted, in bytes.
pub const MAX_LEN: usize = 65535;

pub const QUOTE: u8 = 0x22;
pub const BACKSLASH: u8 = 0x5c;
pub const COLON: u8 = 0x3a;
pub const COMMA: u8 = 0x2c;
pub const MINUS: u8 = 0x2d;
pub const DIGIT_ZERO: u8 = 0x30;
pub const OPEN_BRACKET: u8 = 0x5b;
pub const CLOSE_BRACKET: u8 = 0x5d;
pub const OPEN_BRACE: u8 = 0x7b;
pub const CLOSE_BRACE: u8 = 0x7d;
/// The letter of a `\u00XX` escape.
pub const UNICODE_ESCAPE: u8 = 0x75;

/// `null`
pub open spec fn null_text() -> Seq<u8> {
    seq![0x6e, 0x75, 0x6c, 0x6c]
}

/// `true` or `false`
pub open spec fn bool_text(b: bool) -> Seq<u8> {
    if b {
        seq![0x74, 0x72, 0x75, 0x65]
    } else {
        seq![0x66, 0x61, 0x6c, 0x73, 0x65]
    }
}

/// The decimal digits of `n`, with no leading zero.
pub open spec fn dec_nat(n: nat) -> Seq<u8>
    decreases n,
{
    if n < 10 {
        seq![(DIGIT_ZERO as nat + n) as u8]
    } else {
        dec_nat(n / 10).push((DIGIT_ZERO as nat + n % 10) as u8)
    }
}

/// The decimal form of `i`: a minus sign only when negative.
pub open spec fn dec_int(i: int) -> Seq<u8> {
    if i < 0 {
        seq![MINUS] + dec_nat((-i) as nat)
    } else {
        dec_nat(i as nat)
    }
}

/// A lower-case hexadecimal digit.
pub open spec fn hex_digit(n: int) -> u8 {
    if n < 10 {
        (DIGIT_ZERO as int + n) as u8
    } else {
        (0x61 + n - 10) as u8
    }
}

/// How a byte of string content is escaped: the letter after the backslash,
/// or 0 when the byte stands for itself.
pub open spec fn escape_class(b: u8) -> u8 {
    if b == 0x08 {
        0x62
    } else if b == 0x09 {
        0x74
    } else if b == 0x0a {
        0x6e
    } else if b == 0x0c {
        0x66
    } else if b == 0x0d {
        0x72
    } else if b < 0x20 {
        UNICODE_ESCAPE
    } else if b == QUOTE {
        QUOTE
    } else if b == BACKSLASH {
        BACKSLASH
    } else {
        0
    }
}

/// The bytes that one byte of string content becomes.
pub open spec fn escaped_byte(b: u8) -> Seq<u8> {
    let e = escape_class(b);
    if e == 0 {
        seq![b]
    } else if e == UNICODE_ESCAPE {
        seq![BACKSLASH, UNICODE_ESCAPE, DIGIT_ZERO, DIGIT_ZERO, hex_digit(b as int / 16), hex_digit(b as int % 16)]
    } else {
        seq![BACKSLASH, e]
    }
}

pub open spec fn escape_bytes(s: Seq<u8>) -> Seq<u8>
    decreases s.len(),
{
    if s.len() == 0 {
        seq![]
    } else {
        escape_bytes(s.drop_last()) + escaped_byte(s.last())
    }
}

/// A string as a JSON string: its UTF-8 bytes, escaped, between quotes.
pub open spec fn quoted(s: Seq<char>) -> Seq<u8> {
    seq![QUOTE] + escape_bytes(encode_utf8(s)) + seq![QUOTE]
}

/// The parts separated by commas.
pub open spec fn join(parts: Seq<Seq<u8>>) -> Seq<u8>
    decreases parts.len(),
{
    if parts.len() == 0 {
        seq![]
    } else if parts.len() == 1 {
        parts[0]
    } else {
        join(parts.drop_last()) + seq![COMMA] + parts.last()
    }
}

pub open spec fn array_text(parts: Seq<Seq<u8>>) -> Seq<u8> {
    seq![OPEN_BRACKET] + join(parts) + seq![CLOSE_BRACKET]
}

/// Byte-wise lexicographic order, a prefix first.
pub open spec fn byte_le(a: Seq<u8>, b: Seq<u8>) -> bool
    decreases a.len(),
{
    if a.len() == 0 {
        true
    } else if b.len() == 0 {
        false
    } else if a[0] != b[0] {
        a[0] < b[0]
    } else {
        byte_le(a.drop_first(), b.drop_first())
    }
}

pub open spec fn byte_order() -> spec_fn(Seq<u8>, Seq<u8>) -> bool {
    |a: Seq<u8>, b: Seq<u8>| byte_le(a, b)
}

/// The members of a keyed group in canonical order: ascending by bytes.
pub open spec fn canonical_order(members: Seq<Seq<u8>>) -> Seq<Seq<u8>> {
    members.sort_by(byte_order())
}

pub open spec fn object_text(members: Seq<Seq<u8>>) -> Seq<u8> {
    seq![OPEN_BRACE] + join(canonical_order(members)) + seq![CLOSE_BRACE]
}

/// A group of one member, whose key is a variant's name.
pub open spec fn tagged_text(name: Seq<char>, payload: Seq<u8>) -> Seq<u8> {
    seq![OPEN_BRACE] + quoted(name) + seq![COLON] + payload + seq![CLOSE_BRACE]
}

/// The quoted text of a key, for the shapes that may stand as a key.
pub open spec fn key_text(k: Value) -> Option<Seq<u8>> {
    match k {
        Value::Str(s) => Some(quoted(s@)),
        Value::Int(i) => Some(seq![QUOTE] + dec_int(i as int) + seq![QUOTE]),
        Value::UInt(u) => Some(seq![QUOTE] + dec_nat(u as nat) + seq![QUOTE]),
        Value::UnitVariant(name) => Some(quoted(name@)),
        _ => None,
    }
}

pub open spec fn key_message() -> Seq<char> {
    "key must be a string"@
}

pub open spec fn f32_message(text: Seq<char>) -> Seq<char> {
    "f32 is not valid in canonical JSON found "@ + text
}

pub open spec fn f64_message(text: Seq<char>) -> Seq<char> {
    "f64 is not valid in canonical JSON found "@ + text
}

/// One member of a keyed group: key, colon, value; the key's failure first.
pub open spec fn member_text(key: Option<Seq<u8>>, value: Result<Seq<u8>, Seq<char>>) -> Result<
    Seq<u8>,
    Seq<char>,
> {
    match key {
        None => Err(key_message()),
        Some(k) => match value {
            Ok(b) => Ok(k + seq![COLON] + b),
            Err(e) => Err(e),
        },
    }
}

/// A sequence's encoding from its elements' encodings.
pub open spec fn array_of(parts: Result<Seq<Seq<u8>>, Seq<char>>) -> Result<Seq<u8>, Seq<char>> {
    match parts {
        Ok(ps) => Ok(array_text(ps)),
        Err(e) => Err(e),
    }
}

/// A keyed group's encoding from its member texts.
pub open spec fn object_of(members: Result<Seq<Seq<u8>>, Seq<char>>) -> Result<Seq<u8>, Seq<char>> {
    match members {
        Ok(ms) => Ok(object_text(ms)),
        Err(e) => Err(e),
    }
}

/// A variant with a payload, as a group of one member.
pub open spec fn tagged(name: Seq<char>, payload: Result<Seq<u8>, Seq<char>>) -> Result<
    Seq<u8>,
    Seq<char>,
> {
    match payload {
        Ok(p) => Ok(tagged_text(name, p)),
        Err(e) => Err(e),
    }
}

/// The canonical encoding of `v`, or the message of the first input error
/// met in a left-to-right walk.
pub open spec fn encode(v: Value) -> Result<Seq<u8>, Seq<char>>
    decreases v,
{
    match v {
        Value::Null => Ok(null_text()),
        Value::Bool(b) => Ok(bool_text(b)),
        Value::Int(i) => Ok(dec_int(i as int)),
        Value::UInt(u) => Ok(dec_nat(u as nat)),
        Value::F32(t) => Err(f32_message(t@)),
        Value::F64(t) => Err(f64_message(t@)),
        Value::Str(s) => Ok(quoted(s@)),
        Value::Bytes(b) => Ok(array_text(b@.map_values(|x: u8| dec_nat(x as nat)))),
        Value::Present(x) => encode(*x),
        Value::List(xs) => array_of(encode_items(xs@)),
        Value::Object(es) => object_of(encode_members(es@)),
        Value::UnitVariant(name) => Ok(quoted(name@)),
        Value::NewtypeVariant(_, x) => encode(*x),
        Value::TupleVariant(name, xs) => tagged(name@, array_of(encode_items(xs@))),
        Value::StructVariant(name, es) => tagged(name@, object_of(encode_members(es@))),
    }
}

/// The encodings of a sequence's elements, in order.
pub open spec fn encode_items(xs: Seq<Value>) -> Result<Seq<Seq<u8>>, Seq<char>>
    decreases xs,
{
    if xs.len() == 0 {
        Ok(seq![])
    } else {
        match encode_items(xs.drop_last()) {
            Err(e) => Err(e),
            Ok(parts) => match encode(xs.last()) {
                Err(e) => Err(e),
                Ok(p) => Ok(parts.push(p)),
            },
        }
    }
}

/// The member texts of a keyed group, in the order given.
pub open spec fn encode_members(es: Seq<(Value, Value)>) -> Result<Seq<Seq<u8>>, Seq<char>>
    decreases es,
{
    if es.len() == 0 {
        Ok(seq![])
    } else {
        match encode_members(es.drop_last()) {
            Err(e) => Err(e),
            Ok(ms) => match member_text(key_text(es.last().0), encode(es.last().1)) {
                Err(e) => Err(e),
                Ok(m) => Ok(ms.push(m)),
            },
        }
    }
}

/// What a call that appends the encoding `e` leaves: the encoding after
/// `before`, or the input error.
pub open spec fn wrote(
    before: Seq<u8>,
    after: Seq<u8>,
    e: Result<Seq<u8>, Seq<char>>,
    r: Result<(), Error>,
) -> bool {
    match e {
        Ok(b) => r is Ok && after == before + b,
        Err(m) => r matches Err(x) && x.is_invalid_input(m),
    }
}

/// What encoding `v` to a byte vector returns.
pub open spec fn canonical_result(v: Value, r: Result<Vec<u8>, Error>) -> bool {
    match encode(v) {
        Ok(b) => if b.len() <= MAX_LEN {
            r matches Ok(out) && out@ == b
        } else {
            r matches Err(Error::SizeLimit)
        },
        Err(m) => r matches Err(e) && e.is_invalid_input(m),
    }
}

/// What encoding `v` to a string returns: the string's UTF-8 bytes are the
/// encoding.
pub open spec fn canonical_string_result(v: Value, r: Result<String, Error>) -> bool {
    match encode(v) {
        Ok(b) => if b.len() <= MAX_LEN {
            r matches Ok(s) && encode_utf8(s@) == b
        } else {
            r matches Err(Error::SizeLimit)
        },
        Err(m) => r matches Err(e) && e.is_invalid_input(m),
    }
}

} // verus!

verus! {

/// Appending a part to a comma-separated list.
pub proof fn lemma_join_push(parts: Seq<Seq<u8>>, p: Seq<u8>)
    ensures
        join(parts.push(p)) == if parts.len() == 0 {
            p
        } else {
            join(parts) + seq![COMMA] + p
        },
{
    assert(parts.push(p).drop_last() =~= parts);
}

/// Escaping one more byte of string content.
pub proof fn lemma_escape_push(s: Seq<u8>, b: u8)
    ensures
        escape_bytes(s.push(b)) == escape_bytes(s) + escaped_byte(b),
{
    assert(s.push(b).drop_last() =~= s);
}

} // verus!

verus! {

/// One more element of a sequence.
pub proof fn lemma_items_step(xs: Seq<Value>, i: int)
    requires
        0 <= i < xs.len(),
    ensures
        encode_items(xs.subrange(0, i + 1)) == match encode_items(xs.subrange(0, i)) {
            Err(e) => Err(e),
            Ok(ps) => match encode(xs[i]) {
                Err(e) => Err(e),
                Ok(p) => Ok(ps.push(p)),
            },
        },
{
    assert(xs.subrange(0, i + 1).drop_last() =~= xs.subrange(0, i));
}

/// An error among the first elements is the error of the whole sequence.
pub proof fn lemma_items_prefix_err(xs: Seq<Value>, i: int)
    requires
        0 <= i <= xs.len(),
        encode_items(xs.subrange(0, i)) is Err,
    ensures
        encode_items(xs) == encode_items(xs.subrange(0, i)),
    decreases xs.len(),
{
    if i == xs.len() {
        assert(xs.subrange(0, i) =~= xs);
    } else {
        assert(xs.drop_last().subrange(0, i) =~= xs.subrange(0, i));
        lemma_items_prefix_err(xs.drop_last(), i);
    }
}

/// One more member of a keyed group.
pub proof fn lemma_members_step(es: Seq<(Value, Value)>, i: int)
    requires
        0 <= i < es.len(),
    ensures
        encode_members(es.subrange(0, i + 1)) == match encode_members(es.subrange(0, i)) {
            Err(e) => Err(e),
            Ok(ms) => match member_text(key_text(es[i].0), encode(es[i].1)) {
                Err(e) => Err(e),
                Ok(m) => Ok(ms.push(m)),
            },
        },
{
    assert(es.subrange(0, i + 1).drop_last() =~= es.subrange(0, i));
}

/// An error among the first members is the error of the whole group.
pub proof fn lemma_members_prefix_err(es: Seq<(Value, Value)>, i: int)
    requires
        0 <= i <= es.len(),
        encode_members(es.subrange(0, i)) is Err,
    ensures
        encode_members(es) == encode_members(es.subrange(0, i)),
    decreases es.len(),
{
    if i == es.len() {
        assert(es.subrange(0, i) =~= es);
    } else {
        assert(es.drop_last().subrange(0, i) =~= es.subrange(0, i));
        lemma_members_prefix_err(es.drop_last(), i);
    }
}

} // verus!
