//! Every canonical encoding is valid UTF-8.
use vstd::prelude::*;
use vstd::utf8::{
    encode_scalar, encode_utf8, encode_utf8_valid_utf8, pop_first_scalar, valid_utf8,
    valid_utf8_concat,
};

use crate::model::{
    array_text, bool_text, byte_order, canonical_order, dec_int, dec_nat, encode, encode_items,
    encode_members, escape_bytes, escape_class, escaped_byte, join, key_text, member_text,
    null_text, object_text, quoted, tagged_text, COLON, COMMA, MINUS, QUOTE, CLOSE_BRACE,
    CLOSE_BRACKET, OPEN_BRACE, OPEN_BRACKET,
};
use crate::sort::lemma_byte_order_total;
use crate::value::Value;

verus! {

pub open spec fn all_ascii(s: Seq<u8>) -> bool {
    forall|i: int| 0 <= i < s.len() ==> #[trigger] s[i] < 0x80
}

pub open spec fn all_valid(parts: Seq<Seq<u8>>) -> bool {
    forall|i: int| 0 <= i < parts.len() ==> valid_utf8(#[trigger] parts[i])
}

proof fn lemma_ascii_valid(s: Seq<u8>)
    requires
        all_ascii(s),
    ensures
        valid_utf8(s),
    decreases s.len(),
{
    if s.len() > 0 {
        let b = s[0];
        assert(b & 0x7f == b && b & 0x7f <= 0x7f) by (bit_vector)
            requires
                b < 0x80,
        ;
        assert(pop_first_scalar(s) =~= s.subrange(1, s.len() as int));
        lemma_ascii_valid(s.subrange(1, s.len() as int));
    }
}

proof fn lemma_valid3(a: Seq<u8>, b: Seq<u8>, c: Seq<u8>)
    requires
        valid_utf8(a),
        valid_utf8(b),
        valid_utf8(c),
    ensures
        valid_utf8(a + b + c),
{
    valid_utf8_concat(a, b);
    valid_utf8_concat(a + b, c);
}

proof fn lemma_byte_valid(b: u8)
    requires
        b < 0x80,
    ensures
        valid_utf8(seq![b]),
{
    lemma_ascii_valid(seq![b]);
}

proof fn lemma_escape_concat(x: Seq<u8>, y: Seq<u8>)
    ensures
        escape_bytes(x + y) == escape_bytes(x) + escape_bytes(y),
    decreases y.len(),
{
    if y.len() == 0 {
        assert(x + y =~= x);
        assert(escape_bytes(x) + escape_bytes(y) =~= escape_bytes(x));
    } else {
        assert((x + y).drop_last() =~= x + y.drop_last());
        lemma_escape_concat(x, y.drop_last());
        assert(escape_bytes(x + y) =~= escape_bytes(x) + escape_bytes(y));
    }
}

/// Content in which no byte needs an escape is written as it is.
pub proof fn lemma_escape_identity(x: Seq<u8>)
    requires
        forall|i: int| 0 <= i < x.len() ==> escape_class(#[trigger] x[i]) == 0,
    ensures
        escape_bytes(x) == x,
    decreases x.len(),
{
    if x.len() > 0 {
        lemma_escape_identity(x.drop_last());
        assert(escape_bytes(x) =~= x);
    }
}

proof fn lemma_escaped_byte_valid(b: u8)
    requires
        b < 0x80,
    ensures
        valid_utf8(escaped_byte(b)),
{
    let n = b as int;
    assert(n / 16 < 8 && n % 16 < 16);
    lemma_ascii_valid(escaped_byte(b));
}

proof fn lemma_high_bytes(y: u8)
    ensures
        (0xc0u8 | y) >= 0x80,
        (0xe0u8 | y) >= 0x80,
        (0xf0u8 | y) >= 0x80,
        (0x80u8 | y) >= 0x80,
{
    assert((0xc0u8 | y) >= 0x80) by (bit_vector);
    assert((0xe0u8 | y) >= 0x80) by (bit_vector);
    assert((0xf0u8 | y) >= 0x80) by (bit_vector);
    assert((0x80u8 | y) >= 0x80) by (bit_vector);
}

/// The escaped UTF-8 bytes of any string are valid UTF-8.
proof fn lemma_escape_encode_valid(cs: Seq<char>)
    ensures
        valid_utf8(escape_bytes(encode_utf8(cs))),
    decreases cs.len(),
{
    if cs.len() > 0 {
        let c = cs[0] as u32;
        let e = encode_scalar(c);
        let rest = encode_utf8(cs.drop_first());
        lemma_escape_encode_valid(cs.drop_first());
        lemma_escape_concat(e, rest);
        if c <= 0x7f {
            let b = (c & 0x7f) as u8;
            assert(b < 0x80) by (bit_vector)
                requires
                    b == (c & 0x7f) as u8,
            ;
            assert(e == seq![b]);
            assert(e.drop_last() =~= Seq::<u8>::empty());
            assert(escape_bytes(e.drop_last()) == Seq::<u8>::empty());
            assert(escape_bytes(e) =~= escaped_byte(b));
            lemma_escaped_byte_valid(b);
        } else {
            lemma_high_bytes(((c >> 6) & 0x1f) as u8);
            lemma_high_bytes(((c >> 12) & 0x0f) as u8);
            lemma_high_bytes(((c >> 18) & 0x7) as u8);
            lemma_high_bytes((c & 0x3f) as u8);
            lemma_high_bytes(((c >> 6) & 0x3f) as u8);
            lemma_high_bytes(((c >> 12) & 0x3f) as u8);
            lemma_escape_identity(e);
            encode_utf8_valid_utf8(seq![cs[0]]);
            assert(seq![cs[0]].drop_first() =~= Seq::<char>::empty());
            assert(encode_utf8(seq![cs[0]].drop_first()) =~= Seq::<u8>::empty());
            assert(encode_utf8(seq![cs[0]]) =~= e);
        }
        valid_utf8_concat(escape_bytes(e), escape_bytes(rest));
    }
}

pub proof fn lemma_quoted_valid(s: Seq<char>)
    ensures
        valid_utf8(quoted(s)),
{
    lemma_byte_valid(QUOTE);
    lemma_escape_encode_valid(s);
    lemma_valid3(seq![QUOTE], escape_bytes(encode_utf8(s)), seq![QUOTE]);
}

proof fn lemma_dec_nat_ascii(n: nat)
    ensures
        all_ascii(dec_nat(n)),
    decreases n,
{
    if n >= 10 {
        lemma_dec_nat_ascii(n / 10);
    }
}

proof fn lemma_dec_int_valid(i: int)
    ensures
        valid_utf8(dec_int(i)),
{
    if i < 0 {
        lemma_dec_nat_ascii((-i) as nat);
        lemma_ascii_valid(seq![MINUS] + dec_nat((-i) as nat));
    } else {
        lemma_dec_nat_ascii(i as nat);
        lemma_ascii_valid(dec_nat(i as nat));
    }
}

proof fn lemma_join_valid(parts: Seq<Seq<u8>>)
    requires
        all_valid(parts),
    ensures
        valid_utf8(join(parts)),
    decreases parts.len(),
{
    if parts.len() == 0 {
        lemma_ascii_valid(join(parts));
    } else if parts.len() > 1 {
        assert(all_valid(parts.drop_last()));
        lemma_join_valid(parts.drop_last());
        lemma_byte_valid(COMMA);
        lemma_valid3(join(parts.drop_last()), seq![COMMA], parts.last());
    }
}

proof fn lemma_array_valid(parts: Seq<Seq<u8>>)
    requires
        all_valid(parts),
    ensures
        valid_utf8(array_text(parts)),
{
    lemma_join_valid(parts);
    lemma_byte_valid(OPEN_BRACKET);
    lemma_byte_valid(CLOSE_BRACKET);
    lemma_valid3(seq![OPEN_BRACKET], join(parts), seq![CLOSE_BRACKET]);
}

proof fn lemma_object_valid(members: Seq<Seq<u8>>)
    requires
        all_valid(members),
    ensures
        valid_utf8(object_text(members)),
{
    let sorted = canonical_order(members);
    lemma_byte_order_total();
    members.lemma_sort_by_ensures(byte_order());
    assert forall|i: int| 0 <= i < sorted.len() implies valid_utf8(#[trigger] sorted[i]) by {
        assert(sorted.contains(sorted[i]));
        assert(members.contains(sorted[i]));
    }
    lemma_join_valid(sorted);
    lemma_byte_valid(OPEN_BRACE);
    lemma_byte_valid(CLOSE_BRACE);
    lemma_valid3(seq![OPEN_BRACE], join(sorted), seq![CLOSE_BRACE]);
}

proof fn lemma_tagged_valid(name: Seq<char>, payload: Seq<u8>)
    requires
        valid_utf8(payload),
    ensures
        valid_utf8(tagged_text(name, payload)),
{
    lemma_quoted_valid(name);
    lemma_byte_valid(OPEN_BRACE);
    lemma_byte_valid(COLON);
    lemma_byte_valid(CLOSE_BRACE);
    lemma_valid3(seq![OPEN_BRACE], quoted(name), seq![COLON]);
    lemma_valid3(seq![OPEN_BRACE] + quoted(name) + seq![COLON], payload, seq![CLOSE_BRACE]);
}

proof fn lemma_key_valid(k: Value)
    ensures
        key_text(k) is Some ==> valid_utf8(key_text(k)->0),
{
    lemma_byte_valid(QUOTE);
    match k {
        Value::Str(s) => lemma_quoted_valid(s@),
        Value::UnitVariant(s) => lemma_quoted_valid(s@),
        Value::Int(i) => {
            lemma_dec_int_valid(i as int);
            lemma_valid3(seq![QUOTE], dec_int(i as int), seq![QUOTE]);
        },
        Value::UInt(u) => {
            lemma_dec_int_valid(u as int);
            lemma_valid3(seq![QUOTE], dec_nat(u as nat), seq![QUOTE]);
        },
        _ => {},
    }
}

/// The canonical encoding of any value is valid UTF-8.
pub proof fn lemma_encode_valid(v: Value)
    ensures
        encode(v) is Ok ==> valid_utf8(encode(v)->Ok_0),
    decreases v,
{
    match v {
        Value::Null => lemma_ascii_valid(null_text()),
        Value::Bool(b) => lemma_ascii_valid(bool_text(b)),
        Value::Int(i) => lemma_dec_int_valid(i as int),
        Value::UInt(u) => lemma_dec_int_valid(u as int),
        Value::Str(s) => lemma_quoted_valid(s@),
        Value::Bytes(b) => {
            let parts = b@.map_values(|x: u8| dec_nat(x as nat));
            assert forall|i: int| 0 <= i < parts.len() implies valid_utf8(#[trigger] parts[i]) by {
                lemma_dec_int_valid(b@[i] as int);
            }
            lemma_array_valid(parts);
        },
        Value::Present(x) => lemma_encode_valid(*x),
        Value::List(xs) => {
            lemma_items_valid(xs@);
            if encode_items(xs@) is Ok {
                lemma_array_valid(encode_items(xs@)->Ok_0);
            }
        },
        Value::Object(es) => {
            lemma_members_valid(es@);
            if encode_members(es@) is Ok {
                lemma_object_valid(encode_members(es@)->Ok_0);
            }
        },
        Value::UnitVariant(name) => lemma_quoted_valid(name@),
        Value::NewtypeVariant(_, x) => lemma_encode_valid(*x),
        Value::TupleVariant(name, xs) => {
            lemma_items_valid(xs@);
            if encode_items(xs@) is Ok {
                lemma_array_valid(encode_items(xs@)->Ok_0);
                lemma_tagged_valid(name@, array_text(encode_items(xs@)->Ok_0));
            }
        },
        Value::StructVariant(name, es) => {
            lemma_members_valid(es@);
            if encode_members(es@) is Ok {
                lemma_object_valid(encode_members(es@)->Ok_0);
                lemma_tagged_valid(name@, object_text(encode_members(es@)->Ok_0));
            }
        },
        _ => {},
    }
}

proof fn lemma_items_valid(xs: Seq<Value>)
    ensures
        encode_items(xs) is Ok ==> all_valid(encode_items(xs)->Ok_0),
    decreases xs,
{
    if xs.len() > 0 {
        lemma_items_valid(xs.drop_last());
        lemma_encode_valid(xs.last());
    }
}

proof fn lemma_members_valid(es: Seq<(Value, Value)>)
    ensures
        encode_members(es) is Ok ==> all_valid(encode_members(es)->Ok_0),
    decreases es,
{
    if es.len() > 0 {
        lemma_members_valid(es.drop_last());
        let (k, v) = es.last();
        lemma_key_valid(k);
        lemma_encode_valid(v);
        if member_text(key_text(k), encode(v)) is Ok {
            lemma_byte_valid(COLON);
            lemma_valid3(key_text(k)->0, seq![COLON], encode(v)->Ok_0);
        }
    }
}

} // verus!
