//! Writes the canonical form of each primitive shape.
use vstd::prelude::*;

use crate::formatter::CanonicalJsonFmt;
use crate::model::{
    array_text, bool_text, dec_int, dec_nat, escape_bytes, escape_class, join, lemma_escape_push,
    lemma_join_push, null_text, quoted, BACKSLASH, CLOSE_BRACKET, COMMA, OPEN_BRACKET, QUOTE,
    UNICODE_ESCAPE,
};

verus! {

/// Where a sequence or a group stands: nothing written, first item next,
/// or later items next.
pub enum State {
    Empty,
    First,
    Rest,
}

/// A byte buffer that canonical JSON tokens are appended to.
pub struct Serializer {
    writer: Vec<u8>,
    formatter: CanonicalJsonFmt,
}

impl View for Serializer {
    type V = Seq<u8>;

    closed spec fn view(&self) -> Seq<u8> {
        self.writer@
    }
}

/// The escape letter of a byte of string content, or 0 when the byte is
/// written as it is.
fn escape_of(byte: u8) -> (r: u8)
    ensures
        r == escape_class(byte),
{
    if byte == 0x08 {
        0x62
    } else if byte == 0x09 {
        0x74
    } else if byte == 0x0a {
        0x6e
    } else if byte == 0x0c {
        0x66
    } else if byte == 0x0d {
        0x72
    } else if byte < 0x20 {
        UNICODE_ESCAPE
    } else if byte == QUOTE {
        QUOTE
    } else if byte == BACKSLASH {
        BACKSLASH
    } else {
        0
    }
}

/// The content of a string, escaped, without the quotes.
fn format_escaped_str_contents(w: &mut Vec<u8>, formatter: &CanonicalJsonFmt, value: &str)
    ensures
        final(w)@ == old(w)@ + escape_bytes(vstd::utf8::encode_utf8(value@)),
{
    let bytes = value.as_bytes();
    let mut i: usize = 0;
    while i < bytes.len()
        invariant
            bytes@ == vstd::utf8::encode_utf8(value@),
            0 <= i <= bytes@.len(),
            w@ == old(w)@ + escape_bytes(bytes@.subrange(0, i as int)),
        decreases bytes@.len() - i,
    {
        let byte = bytes[i];
        let escape = escape_of(byte);
        if escape == 0 {
            w.push(byte);
        } else {
            formatter.write_char_escape(w, escape, byte);
        }
        proof {
            assert(bytes@.subrange(0, i + 1) =~= bytes@.subrange(0, i as int).push(byte));
            lemma_escape_push(bytes@.subrange(0, i as int), byte);
        }
        i += 1;
    }
    assert(bytes@.subrange(0, bytes@.len() as int) =~= bytes@);
}

/// A string, quoted and escaped.
fn format_escaped_str(w: &mut Vec<u8>, formatter: &CanonicalJsonFmt, value: &str)
    ensures
        final(w)@ == old(w)@ + quoted(value@),
{
    w.push(QUOTE);
    format_escaped_str_contents(w, formatter, value);
    w.push(QUOTE);
    assert(w@ =~= old(w)@ + quoted(value@));
}

impl Serializer {
    /// A serializer that appends to `writer`.
    pub fn new(writer: Vec<u8>) -> (r: Self)
        ensures
            r@ == writer@,
    {
        Serializer { writer, formatter: CanonicalJsonFmt }
    }

    /// The buffer with everything written so far.
    pub fn into_inner(self) -> (r: Vec<u8>)
        ensures
            r@ == self@,
    {
        self.writer
    }

    pub fn write_byte(&mut self, b: u8)
        ensures
            final(self)@ == old(self)@.push(b),
    {
        self.writer.push(b);
    }

    /// Appends bytes that are already canonical JSON text.
    pub fn write_fragment(&mut self, fragment: &Vec<u8>)
        ensures
            final(self)@ == old(self)@ + fragment@,
    {
        let mut i: usize = 0;
        while i < fragment.len()
            invariant
                0 <= i <= fragment@.len(),
                self@ == old(self)@ + fragment@.subrange(0, i as int),
            decreases fragment@.len() - i,
        {
            self.writer.push(fragment[i]);
            i += 1;
            assert(self@ =~= old(self)@ + fragment@.subrange(0, i as int));
        }
        assert(fragment@.subrange(0, fragment@.len() as int) =~= fragment@);
    }

    pub fn serialize_bool(&mut self, value: bool)
        ensures
            final(self)@ == old(self)@ + bool_text(value),
    {
        self.formatter.write_bool(&mut self.writer, value);
    }

    pub fn serialize_i128(&mut self, value: i128)
        ensures
            final(self)@ == old(self)@ + dec_int(value as int),
    {
        self.formatter.write_i128(&mut self.writer, value);
    }

    pub fn serialize_u128(&mut self, value: u128)
        ensures
            final(self)@ == old(self)@ + dec_nat(value as nat),
    {
        self.formatter.write_u128(&mut self.writer, value);
    }

    /// `null`, for a unit or an absent optional.
    pub fn serialize_unit(&mut self)
        ensures
            final(self)@ == old(self)@ + null_text(),
    {
        self.formatter.write_null(&mut self.writer);
    }

    pub fn serialize_str(&mut self, value: &str)
        ensures
            final(self)@ == old(self)@ + quoted(value@),
    {
        format_escaped_str(&mut self.writer, &self.formatter, value);
    }

    /// A byte sequence, as an array of its bytes' decimal values.
    pub fn serialize_bytes(&mut self, value: &[u8])
        ensures
            final(self)@ == old(self)@ + array_text(value@.map_values(|x: u8| dec_nat(x as nat))),
    {
        let ghost parts = value@.map_values(|x: u8| dec_nat(x as nat));
        self.writer.push(OPEN_BRACKET);
        let mut state = if value.len() == 0 {
            State::Empty
        } else {
            State::First
        };
        let mut i: usize = 0;
        while i < value.len()
            invariant
                parts == value@.map_values(|x: u8| dec_nat(x as nat)),
                0 <= i <= value@.len(),
                self@ == old(self)@ + seq![OPEN_BRACKET] + join(parts.subrange(0, i as int)),
                i == 0 <==> !(state matches State::Rest),
            decreases value@.len() - i,
        {
            if let State::Rest = state {
                self.writer.push(COMMA);
            }
            state = State::Rest;
            self.formatter.write_u128(&mut self.writer, value[i] as u128);
            proof {
                assert(parts.subrange(0, i + 1) =~= parts.subrange(0, i as int).push(parts[i as int]));
                lemma_join_push(parts.subrange(0, i as int), parts[i as int]);
            }
            i += 1;
        }
        self.writer.push(CLOSE_BRACKET);
        assert(parts.subrange(0, value@.len() as int) =~= parts);
        assert(self@ =~= old(self)@ + array_text(parts));
    }
}

} // verus!
