//! Canonical JSON: one byte-exact encoding for each value, with the members
//! of every keyed group sorted by their bytes, no whitespace, no floats, and
//! at most 65,535 bytes.
use vstd::prelude::*;
use vstd::string::StringExecFns;
use vstd::utf8::{encode_utf8, valid_utf8};

pub mod error;
pub mod formatter;
pub mod laws;
pub mod map_key;
pub mod model;
pub mod serializer;
pub mod sort;
pub mod validity;
pub mod value;

pub use error::Error;
pub use formatter::CanonicalJsonFmt;
pub use map_key::MapKeySerializer;
pub use serializer::{Serializer, State};
pub use value::Value;

use crate::model::{
    array_of, canonical_result, canonical_string_result, encode, encode_items, encode_members,
    join, key_text, lemma_items_prefix_err, lemma_items_step, lemma_join_push,
    lemma_members_prefix_err, lemma_members_step, member_text, object_of, object_text, quoted,
    wrote, CLOSE_BRACE, CLOSE_BRACKET, COLON, COMMA, MAX_LEN, OPEN_BRACE, OPEN_BRACKET,
};
use crate::sort::{sort_pairs, views};
use crate::validity::lemma_encode_valid;

verus! {

/// Encodes values in canonical form at the end of a byte buffer.
pub struct CanonicalJson {
    ser: Serializer,
}

impl View for CanonicalJson {
    type V = Seq<u8>;

    closed spec fn view(&self) -> Seq<u8> {
        self.ser@
    }
}

/// The error for a floating-point value: `prefix` names its width, `text`
/// is its decimal form.
fn invalid_float(prefix: &str, text: &String) -> (r: Error)
    ensures
        r.is_invalid_input(prefix@ + text@),
{
    Error::InvalidInput(prefix.to_owned().concat(text.as_str()))
}

impl CanonicalJson {
    pub fn new(writer: Vec<u8>) -> (r: Self)
        ensures
            r@ == writer@,
    {
        CanonicalJson { ser: Serializer::new(writer) }
    }

    pub fn into_inner(self) -> (r: Vec<u8>)
        ensures
            r@ == self@,
    {
        self.ser.into_inner()
    }

    /// Appends the canonical encoding of `value`, or stops at the first
    /// input error.
    pub fn serialize(&mut self, value: &Value) -> (r: Result<(), Error>)
        ensures
            wrote(old(self)@, final(self)@, encode(*value), r),
        decreases value, 0nat,
    {
        match value {
            Value::Null => {
                self.ser.serialize_unit();
                Ok(())
            },
            Value::Bool(b) => {
                self.ser.serialize_bool(*b);
                Ok(())
            },
            Value::Int(i) => {
                self.ser.serialize_i128(*i);
                Ok(())
            },
            Value::UInt(u) => {
                self.ser.serialize_u128(*u);
                Ok(())
            },
            Value::F32(text) => Err(invalid_float("f32 is not valid in canonical JSON found ", text)),
            Value::F64(text) => Err(invalid_float("f64 is not valid in canonical JSON found ", text)),
            Value::Str(s) => {
                self.ser.serialize_str(s.as_str());
                Ok(())
            },
            Value::Bytes(b) => {
                self.ser.serialize_bytes(b.as_slice());
                Ok(())
            },
            Value::Present(x) => self.serialize(&**x),
            Value::List(xs) => self.serialize_seq(xs),
            Value::Object(es) => self.serialize_map(es),
            Value::UnitVariant(name) => {
                self.ser.serialize_str(name.as_str());
                Ok(())
            },
            Value::NewtypeVariant(_, x) => self.serialize(&**x),
            Value::TupleVariant(name, xs) => {
                self.begin_tagged(name);
                let r = self.serialize_seq(xs);
                if r.is_ok() {
                    self.ser.write_byte(CLOSE_BRACE);
                    assert(self@ =~= old(self)@ + encode(*value)->Ok_0);
                }
                r
            },
            Value::StructVariant(name, es) => {
                self.begin_tagged(name);
                let r = self.serialize_map(es);
                if r.is_ok() {
                    self.ser.write_byte(CLOSE_BRACE);
                    assert(self@ =~= old(self)@ + encode(*value)->Ok_0);
                }
                r
            },
        }
    }

    /// Opens the group of one member that carries a variant's payload.
    fn begin_tagged(&mut self, name: &String)
        ensures
            final(self)@ == old(self)@ + seq![OPEN_BRACE] + quoted(name@) + seq![COLON],
    {
        self.ser.write_byte(OPEN_BRACE);
        self.ser.serialize_str(name.as_str());
        self.ser.write_byte(COLON);
    }

    /// A sequence: its elements in the order given, between brackets.
    fn serialize_seq(&mut self, items: &Vec<Value>) -> (r: Result<(), Error>)
        ensures
            wrote(old(self)@, final(self)@, array_of(encode_items(items@)), r),
        decreases items, 0nat,
    {
        self.ser.write_byte(OPEN_BRACKET);
        let mut state = if items.len() == 0 {
            State::Empty
        } else {
            State::First
        };
        let mut i: usize = 0;
        assert(items@.subrange(0, 0) =~= Seq::<Value>::empty());
        while i < items.len()
            invariant
                0 <= i <= items@.len(),
                encode_items(items@.subrange(0, i as int)) is Ok,
                self@ == old(self)@ + seq![OPEN_BRACKET] + join(
                    encode_items(items@.subrange(0, i as int))->Ok_0,
                ),
                i == 0 <==> !(state matches State::Rest),
            decreases items@.len() - i,
        {
            let ghost parts = encode_items(items@.subrange(0, i as int))->Ok_0;
            if let State::Rest = state {
                self.ser.write_byte(COMMA);
            }
            state = State::Rest;
            proof {
                assert(decreases_to!(items => items[i as int]));
                lemma_items_step(items@, i as int);
            }
            match self.serialize(&items[i]) {
                Err(e) => {
                    proof {
                        lemma_items_prefix_err(items@, i + 1);
                    }
                    return Err(e);
                },
                Ok(()) => {},
            }
            proof {
                lemma_join_push(parts, encode(items@[i as int])->Ok_0);
            }
            i += 1;
        }
        self.ser.write_byte(CLOSE_BRACKET);
        assert(items@.subrange(0, items@.len() as int) =~= items@);
        assert(self@ =~= old(self)@ + array_of(encode_items(items@))->Ok_0);
        Ok(())
    }

    /// A keyed group: each member rendered on its own, then written in
    /// canonical order.
    fn serialize_map(&mut self, entries: &Vec<(Value, Value)>) -> (r: Result<(), Error>)
        ensures
            wrote(old(self)@, final(self)@, object_of(encode_members(entries@)), r),
        decreases entries, 0nat,
    {
        let mut group = MapKeySorted::new();
        let mut i: usize = 0;
        assert(entries@.subrange(0, 0) =~= Seq::<(Value, Value)>::empty());
        while i < entries.len()
            invariant
                0 <= i <= entries@.len(),
                self@ == old(self)@,
                encode_members(entries@.subrange(0, i as int)) == Ok::<Seq<Seq<u8>>, Seq<char>>(
                    group@,
                ),
            decreases entries@.len() - i,
        {
            proof {
                assert(decreases_to!(entries => entries[i as int]));
                lemma_members_step(entries@, i as int);
            }
            let entry = &entries[i];
            match group.serialize_entry(&entry.0, &entry.1) {
                Err(e) => {
                    proof {
                        lemma_members_prefix_err(entries@, i + 1);
                    }
                    return Err(e);
                },
                Ok(()) => {},
            }
            i += 1;
        }
        assert(entries@.subrange(0, entries@.len() as int) =~= entries@);
        group.end(self);
        Ok(())
    }
}

/// The members of one keyed group, each rendered as `"key":value`, kept
/// until the group is complete.
pub struct MapKeySorted {
    pairs: Vec<Vec<u8>>,
}

impl View for MapKeySorted {
    type V = Seq<Seq<u8>>;

    closed spec fn view(&self) -> Seq<Seq<u8>> {
        views(self.pairs@)
    }
}

impl MapKeySorted {
    pub fn new() -> (r: Self)
        ensures
            r@ == Seq::<Seq<u8>>::empty(),
    {
        let r = MapKeySorted { pairs: Vec::new() };
        assert(r@ =~= Seq::<Seq<u8>>::empty());
        r
    }

    /// Renders one member and keeps it; a key that is not a string fails
    /// before its value is looked at.
    pub fn serialize_entry(&mut self, key: &Value, value: &Value) -> (r: Result<(), Error>)
        ensures
            match member_text(key_text(*key), encode(*value)) {
                Ok(m) => r is Ok && final(self)@ == old(self)@.push(m),
                Err(e) => r matches Err(x) && x.is_invalid_input(e),
            },
        decreases value, 1nat,
    {
        let mut keys = MapKeySerializer::new(Serializer::new(Vec::new()));
        match keys.serialize_key(key) {
            Err(e) => {
                return Err(e);
            },
            Ok(()) => {},
        }
        let mut buf = keys.ser.into_inner();
        buf.push(COLON);
        let mut inner = CanonicalJson::new(buf);
        match inner.serialize(value) {
            Err(e) => {
                return Err(e);
            },
            Ok(()) => {},
        }
        let pair = inner.into_inner();
        assert(pair@ =~= member_text(key_text(*key), encode(*value))->Ok_0);
        let ghost before = self.pairs@;
        self.pairs.push(pair);
        proof {
            assert(views(self.pairs@) =~= views(before).push(pair@));
        }
        Ok(())
    }

    /// Writes the group: `{`, the members in canonical order separated by
    /// commas, `}`. Members that share a key are all written, ordered by
    /// the bytes of their values.
    pub fn end(self, ser: &mut CanonicalJson)
        ensures
            final(ser)@ == old(ser)@ + object_text(self@),
    {
        let sorted = sort_pairs(self.pairs);
        let ghost members = views(sorted@);
        ser.ser.write_byte(OPEN_BRACE);
        let mut i: usize = 0;
        assert(members.subrange(0, 0) =~= Seq::<Seq<u8>>::empty());
        while i < sorted.len()
            invariant
                members == views(sorted@),
                0 <= i <= sorted@.len(),
                ser@ == old(ser)@ + seq![OPEN_BRACE] + join(members.subrange(0, i as int)),
            decreases sorted@.len() - i,
        {
            if i > 0 {
                ser.ser.write_byte(COMMA);
            }
            ser.ser.write_fragment(&sorted[i]);
            proof {
                assert(members.subrange(0, i + 1) =~= members.subrange(0, i as int).push(
                    members[i as int],
                ));
                lemma_join_push(members.subrange(0, i as int), members[i as int]);
            }
            i += 1;
        }
        ser.ser.write_byte(CLOSE_BRACE);
        assert(members.subrange(0, members.len() as int) =~= members);
    }
}

/// The canonical encoding of `value` as bytes.
pub fn to_canonical_vec(value: &Value) -> (r: Result<Vec<u8>, Error>)
    ensures
        canonical_result(*value, r),
{
    let mut ser = CanonicalJson::new(Vec::with_capacity(128));
    match ser.serialize(value) {
        Err(e) => {
            return Err(e);
        },
        Ok(()) => {},
    }
    let writer = ser.into_inner();
    if writer.len() > MAX_LEN {
        return Err(Error::SizeLimit);
    }
    Ok(writer)
}

/// Relies on `String::from_utf8`: it accepts exactly the byte vectors that
/// are valid UTF-8, and the string it returns holds those bytes.
#[verifier::external_body]
fn string_from_utf8(bytes: Vec<u8>) -> (r: Option<String>)
    ensures
        r is Some <==> valid_utf8(bytes@),
        r matches Some(s) ==> encode_utf8(s@) == bytes@,
{
    String::from_utf8(bytes).ok()
}

/// The canonical encoding of `value` as a string.
pub fn to_canonical_string(value: &Value) -> (r: Result<String, Error>)
    ensures
        canonical_string_result(*value, r),
{
    match to_canonical_vec(value) {
        Err(e) => Err(e),
        Ok(bytes) => {
            proof {
                lemma_encode_valid(*value);
            }
            Ok(string_from_utf8(bytes).unwrap())
        },
    }
}

} // verus!
