use vstd::prelude::*;

verus! {

/// A structured value, described by its shape alone.
///
/// Every integer width is carried as `Int` (signed) or `UInt` (unsigned);
/// a character is a one-character `Str`; a unit and an absent optional are
/// both `Null`; a newtype struct is its payload; a plain struct is an
/// `Object` whose keys are `Str`. A floating-point number is carried as
/// its decimal text only, since it is never encoded.
#[derive(Debug)]
pub enum Value {
    Null,
    Bool(bool),
    Int(i128),
    UInt(u128),
    F32(String),
    F64(String),
    Str(String),
    Bytes(Vec<u8>),
    Present(Box<Value>),
    List(Vec<Value>),
    Object(Vec<(Value, Value)>),
    UnitVariant(String),
    NewtypeVariant(String, Box<Value>),
    TupleVariant(String, Vec<Value>),
    StructVariant(String, Vec<(Value, Value)>),
}

} // verus!
