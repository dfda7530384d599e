//! The tokens of canonical JSON, appended to a byte buffer.
use vstd::prelude::*;

use crate::model::{BACKSLASH, DIGIT_ZERO, MINUS, UNICODE_ESCAPE, bool_text, dec_int, dec_nat, escape_class, escaped_byte, hex_digit, null_text};

verus! {

/// Writes literal tokens: `null`, booleans, integers and escapes.
pub struct CanonicalJsonFmt;

fn to_hex_digit(n: u8) -> (r: u8)
    requires
        n < 16,
    ensures
        r == hex_digit(n as int),
{
    if n < 10 {
        DIGIT_ZERO + n
    } else {
        0x61 + (n - 10)  // a
    }
}

impl CanonicalJsonFmt {
    pub fn write_null(&self, w: &mut Vec<u8>)
        ensures
            final(w)@ == old(w)@ + null_text(),
    {
        w.push(0x6e);
        w.push(0x75);
        w.push(0x6c);
        w.push(0x6c);
    }

    pub fn write_bool(&self, w: &mut Vec<u8>, value: bool)
        ensures
            final(w)@ == old(w)@ + bool_text(value),
    {
        if value {
            w.push(0x74);
            w.push(0x72);
            w.push(0x75);
            w.push(0x65);
        } else {
            w.push(0x66);
            w.push(0x61);
            w.push(0x6c);
            w.push(0x73);
            w.push(0x65);
        }
    }

    pub fn write_u128(&self, w: &mut Vec<u8>, value: u128)
        ensures
            final(w)@ == old(w)@ + dec_nat(value as nat),
    {
        let mut digits: Vec<u8> = Vec::new();
        digits.push(DIGIT_ZERO + (value % 10) as u8);
        let mut n: u128 = value / 10;
        while n > 0
            invariant
                n > 0 ==> dec_nat(value as nat) == dec_nat(n as nat) + digits@,
                n == 0 ==> dec_nat(value as nat) == digits@,
            decreases n,
        {
            digits.insert(0, DIGIT_ZERO + (n % 10) as u8);
            n = n / 10;
        }
        w.append(&mut digits);
    }

    pub fn write_i128(&self, w: &mut Vec<u8>, value: i128)
        ensures
            final(w)@ == old(w)@ + dec_int(value as int),
    {
        if value < 0 {
            w.push(MINUS);
            let magnitude: u128 = ((-(value + 1)) as u128) + 1;
            self.write_u128(w, magnitude);
        } else {
            self.write_u128(w, value as u128);
        }
    }

    /// The escape sequence of one byte of string content.
    pub fn write_char_escape(&self, w: &mut Vec<u8>, escape: u8, byte: u8)
        requires
            escape == escape_class(byte),
            escape != 0,
        ensures
            final(w)@ == old(w)@ + escaped_byte(byte),
    {
        w.push(BACKSLASH);
        w.push(escape);
        if escape == UNICODE_ESCAPE {
            w.push(DIGIT_ZERO);
            w.push(DIGIT_ZERO);
            w.push(to_hex_digit(byte / 16));
            w.push(to_hex_digit(byte % 16));
        }
    }
}

} // verus!
