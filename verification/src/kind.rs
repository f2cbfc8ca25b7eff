//! The type tag attached to each catalogued field checksum.

use vstd::prelude::*;

verus! {

/// The externally supplied type tag of a field.  A checksum that the
/// catalog does not mention is treated as `Bool`.
#[derive(Copy, Clone, Debug, PartialEq, Eq, Structural)]
pub enum Kind {
    Bool,
    BoolArray,
    F32,
    F32Array,
    S32,
    S32Array,
    Str,
    Str256,
    Str256Array,
    Str64,
    Str64Array,
    Vec2f,
    Vec2fArray,
    Vec3f,
    Vec3fArray,
    Vec4f,
    Unknown,
}

/// True of the kinds whose decoded value is a fixed-size string or an
/// array of fixed-size strings; writing those is not supported.
pub open spec fn is_string_kind(kind: Kind) -> bool {
    match kind {
        Kind::Str | Kind::Str256 | Kind::Str256Array | Kind::Str64 | Kind::Str64Array => true,
        _ => false,
    }
}

/// The nominal byte capacity of one fixed-size string of a string kind.
pub open spec fn string_cap(kind: Kind) -> int {
    match kind {
        Kind::Str => 32,
        Kind::Str64 | Kind::Str64Array => 64,
        Kind::Str256 | Kind::Str256Array => 256,
        _ => 32,
    }
}

/// The kind named by a catalog type string; names outside the catalog's
/// vocabulary map to `Unknown`.
pub open spec fn kind_of_name(name: Seq<char>) -> Kind {
    if name == "bool"@ {
        Kind::Bool
    } else if name == "bool_array"@ {
        Kind::BoolArray
    } else if name == "f32"@ {
        Kind::F32
    } else if name == "f32_array"@ {
        Kind::F32Array
    } else if name == "s32"@ {
        Kind::S32
    } else if name == "s32_array"@ {
        Kind::S32Array
    } else if name == "string"@ {
        Kind::Str
    } else if name == "string256"@ {
        Kind::Str256
    } else if name == "string256_array"@ {
        Kind::Str256Array
    } else if name == "string64"@ {
        Kind::Str64
    } else if name == "string64_array"@ {
        Kind::Str64Array
    } else if name == "vector2f"@ {
        Kind::Vec2f
    } else if name == "vector2f_array"@ {
        Kind::Vec2fArray
    } else if name == "vector3f"@ {
        Kind::Vec3f
    } else if name == "vector3f_array"@ {
        Kind::Vec3fArray
    } else if name == "vector4f"@ {
        Kind::Vec4f
    } else {
        Kind::Unknown
    }
}

/// Compares two string slices by their UTF-8 bytes; equal bytes mean
/// equal character sequences because UTF-8 encoding is injective.
fn str_eq(a: &str, b: &str) -> (r: bool)
    ensures
        r == (a@ == b@),
{
    let ab = a.as_bytes();
    let bb = b.as_bytes();
    if ab.len() != bb.len() {
        return false;
    }
    let n = ab.len();
    let mut i: usize = 0;
    while i < n
        invariant
            n == ab@.len() == bb@.len(),
            i <= n,
            ab@ == vstd::utf8::encode_utf8(a@),
            bb@ == vstd::utf8::encode_utf8(b@),
            forall|j: int| 0 <= j < i ==> ab@[j] == bb@[j],
        decreases n - i,
    {
        if ab[i] != bb[i] {
            return false;
        }
        i += 1;
    }
    proof {
        assert(ab@ =~= bb@);
        vstd::utf8::encode_utf8_decode_utf8(a@);
        vstd::utf8::encode_utf8_decode_utf8(b@);
    }
    true
}

impl Kind {
    /// Parses a catalog type string into its kind.
    pub fn from_name(s: &str) -> (r: Kind)
        ensures
            r == kind_of_name(s@),
    {
        if str_eq(s, "bool") {
            Kind::Bool
        } else if str_eq(s, "bool_array") {
            Kind::BoolArray
        } else if str_eq(s, "f32") {
            Kind::F32
        } else if str_eq(s, "f32_array") {
            Kind::F32Array
        } else if str_eq(s, "s32") {
            Kind::S32
        } else if str_eq(s, "s32_array") {
            Kind::S32Array
        } else if str_eq(s, "string") {
            Kind::Str
        } else if str_eq(s, "string256") {
            Kind::Str256
        } else if str_eq(s, "string256_array") {
            Kind::Str256Array
        } else if str_eq(s, "string64") {
            Kind::Str64
        } else if str_eq(s, "string64_array") {
            Kind::Str64Array
        } else if str_eq(s, "vector2f") {
            Kind::Vec2f
        } else if str_eq(s, "vector2f_array") {
            Kind::Vec2fArray
        } else if str_eq(s, "vector3f") {
            Kind::Vec3f
        } else if str_eq(s, "vector3f_array") {
            Kind::Vec3fArray
        } else if str_eq(s, "vector4f") {
            Kind::Vec4f
        } else {
            Kind::Unknown
        }
    }
}

} // verus!
