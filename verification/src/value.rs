//! The typed value exchanged with callers, and the error taxonomy.

use vstd::prelude::*;

verus! {

/// Why an operation on the save buffer failed.
#[derive(Copy, Clone, Debug, PartialEq, Eq, Structural)]
pub enum Error {
    /// The checksum never occurs in the record stream.
    NotFound,
    /// The value's shape does not fit the field's kind.
    TypeMismatch,
    /// The value's element count differs from the run's inferred length.
    LengthMismatch,
    /// Writing a string kind is not supported.
    UnsupportedOperation,
    /// The stored bytes cannot be read or decoded: a string run that is
    /// not UTF-8, or a record whose payload runs past the buffer's end.
    Malformed,
    /// The buffer is too short to hold the 12-byte header.
    Truncated,
}

/// The mathematical shape of a decoded or to-be-encoded field value.
/// 32-bit floats appear as their IEEE-754 bit patterns, so that the codec
/// stays byte-exact and free of floating-point arithmetic.
pub enum Val {
    Bool(bool),
    F32(u32),
    S32(i32),
    Str(Seq<char>),
    BoolArray(Seq<bool>),
    S32Array(Seq<i32>),
    F32Array(Seq<u32>),
    Vec2fArray(Seq<(u32, u32)>),
    Vec3fArray(Seq<(u32, u32, u32)>),
    StrArray(Seq<Seq<char>>),
    /// A field whose kind the catalog does not know: present in the
    /// buffer, but with no typed payload.
    Absent,
}

/// A decoded field value, or a value to write back.  Float fields carry
/// their 32-bit IEEE-754 bit patterns (`f32::to_bits`/`f32::from_bits` at
/// the caller's edge), so the codec itself never touches a float.
#[derive(Clone, Debug, PartialEq)]
pub enum FieldValue {
    Bool(bool),
    F32(u32),
    S32(i32),
    Str(String),
    BoolArray(Vec<bool>),
    S32Array(Vec<i32>),
    F32Array(Vec<u32>),
    Vec2fArray(Vec<(u32, u32)>),
    Vec3fArray(Vec<(u32, u32, u32)>),
    StrArray(Vec<String>),
    Absent,
}

impl View for FieldValue {
    type V = Val;

    open spec fn view(&self) -> Val {
        match self {
            FieldValue::Bool(b) => Val::Bool(*b),
            FieldValue::F32(x) => Val::F32(*x),
            FieldValue::S32(x) => Val::S32(*x),
            FieldValue::Str(s) => Val::Str(s@),
            FieldValue::BoolArray(v) => Val::BoolArray(v@),
            FieldValue::S32Array(v) => Val::S32Array(v@),
            FieldValue::F32Array(v) => Val::F32Array(v@),
            FieldValue::Vec2fArray(v) => Val::Vec2fArray(v@),
            FieldValue::Vec3fArray(v) => Val::Vec3fArray(v@),
            FieldValue::StrArray(v) => Val::StrArray(v@.map_values(|s: String| s@)),
            FieldValue::Absent => Val::Absent,
        }
    }
}

} // verus!
