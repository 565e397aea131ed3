//! The tagged value the codec decodes into and encodes from.

use vstd::prelude::*;

verus! {

/// A generic tagged value: the interchange point between one LTSV line and a
/// typed record.
///
/// Floating-point payloads are carried as their decimal text instead of a
/// machine float: the codec only ever reads and writes their textual form,
/// and the text pins the number exactly.
#[derive(Debug, PartialEq)]
pub enum Value {
    Bool(bool),
    U8(u8),
    U16(u16),
    U32(u32),
    U64(u64),
    I8(i8),
    I16(i16),
    I32(i32),
    I64(i64),
    /// A 32-bit float, held as the text that denotes it.
    F32(String),
    /// A 64-bit float, held as the text that denotes it.
    F64(String),
    Char(char),
    Str(String),
    Unit,
    Optional(Option<Box<Value>>),
    Newtype(Box<Value>),
    Sequence(Vec<Value>),
    Mapping(Vec<(Value, Value)>),
    Bytes(Vec<u8>),
}

} // verus!
