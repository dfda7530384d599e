//! Keys of keyed groups: only shapes that read as a string are accepted.
use vstd::prelude::*;

use crate::error::Error;
use crate::model::{key_message, key_text, QUOTE};
use crate::serializer::Serializer;
use crate::value::Value;

verus! {

/// Writes one key of a keyed group, quoted.
pub struct MapKeySerializer {
    pub ser: Serializer,
}

/// The error for a key that is not a string, a character, a unit variant
/// or an integer.
pub fn key_must_be_a_string() -> (r: Error)
    ensures
        r.is_invalid_input(key_message()),
{
    Error::InvalidInput("key must be a string".to_owned())
}

impl MapKeySerializer {
    pub fn new(ser: Serializer) -> (r: Self)
        ensures
            r.ser@ == ser@,
    {
        MapKeySerializer { ser }
    }

    /// Appends the quoted key; an integer key is written as its decimal
    /// digits between quotes.
    pub fn serialize_key(&mut self, key: &Value) -> (r: Result<(), Error>)
        ensures
            match key_text(*key) {
                Some(t) => r is Ok && final(self).ser@ == old(self).ser@ + t,
                None => r matches Err(e) && e.is_invalid_input(key_message()),
            },
    {
        match key {
            Value::Str(s) => {
                self.ser.serialize_str(s.as_str());
                Ok(())
            },
            Value::UnitVariant(name) => {
                self.ser.serialize_str(name.as_str());
                Ok(())
            },
            Value::Int(i) => {
                self.ser.write_byte(QUOTE);
                self.ser.serialize_i128(*i);
                self.ser.write_byte(QUOTE);
                assert(self.ser@ =~= old(self).ser@ + key_text(*key)->0);
                Ok(())
            },
            Value::UInt(u) => {
                self.ser.write_byte(QUOTE);
                self.ser.serialize_u128(*u);
                self.ser.write_byte(QUOTE);
                assert(self.ser@ =~= old(self).ser@ + key_text(*key)->0);
                Ok(())
            },
            _ => Err(key_must_be_a_string()),
        }
    }
}

} // verus!
