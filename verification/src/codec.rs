//! Decoding runs of records into typed values, and the specification of
//! both decode and encode directions.

use vstd::prelude::*;
use crate::bytes::as_signed;
use crate::bytes::as_unsigned;
use crate::bytes::byte_of;
use crate::bytes::read_u32;
use crate::kind::Kind;
use crate::kind::is_string_kind;
use crate::kind::string_cap;
use crate::runs::find_from;
use crate::runs::has_key;
use crate::runs::is_rec;
use crate::runs::key_matches;
use crate::runs::rec_key;
use crate::runs::rec_matches;
use crate::runs::rec_payload;
use crate::runs::run_blocked;
use crate::runs::run_len;
use crate::runs::run_payloads;
use crate::runs::lemma_mod8_add;
use crate::runs::lemma_mod8_sub;
use crate::runs::lemma_run_payloads;
use crate::value::Error;
use crate::value::Val;
use vstd::utf8::decode_utf8;
use vstd::utf8::valid_utf8;

verus! {

broadcast use vstd::seq_lib::group_seq_lib_default;

/// Payload words reinterpreted as booleans: a word is true when nonzero.
pub open spec fn bools_of(w: Seq<u32>) -> Seq<bool> {
    w.map_values(|p: u32| p != 0)
}

/// Payload words reinterpreted as two's-complement signed integers.
pub open spec fn s32s_of(w: Seq<u32>) -> Seq<i32> {
    w.map_values(|p: u32| as_signed(p) as i32)
}

/// Consecutive pairs of a flat word sequence, in order; a trailing
/// element short of a full pair drops.
pub open spec fn group2(w: Seq<u32>) -> Seq<(u32, u32)> {
    Seq::new(w.len() / 2, |i: int| (w[2 * i], w[2 * i + 1]))
}

/// Consecutive triples of a flat word sequence, in order; a trailing
/// remainder short of a full triple drops.
pub open spec fn group3(w: Seq<u32>) -> Seq<(u32, u32, u32)> {
    Seq::new(w.len() / 3, |i: int| (w[3 * i], w[3 * i + 1], w[3 * i + 2]))
}

/// The packed bytes of one fixed-size string: payload bytes of
/// consecutive matching records, at most `left` of them.
pub open spec fn string_run_bytes(b: Seq<u8>, h: u32, off: int, left: int) -> Seq<u8>
    decreases b.len() - off,
{
    if !(rec_matches(b, h, off) && left > 0) {
        Seq::empty()
    } else {
        b.subrange(off + 4, off + 8) + string_run_bytes(b, h, off + 8, left - 4)
    }
}

/// How many records one fixed-size string consumes.
pub open spec fn string_run_recs(b: Seq<u8>, h: u32, off: int, left: int) -> nat
    decreases b.len() - off,
{
    if !(rec_matches(b, h, off) && left > 0) {
        0
    } else {
        1 + string_run_recs(b, h, off + 8, left - 4)
    }
}

/// Every NUL byte stripped, wherever it stands: embedded NULs are
/// removed, not treated as terminators.
pub open spec fn strip_nuls(bytes: Seq<u8>) -> Seq<u8> {
    bytes.filter(|x: u8| x != 0)
}

/// True when a string scan stops against a matching trailing fragment
/// while capacity remains: the next checksum word still reads `h`, but
/// its payload runs past the buffer.
pub open spec fn string_blocked(b: Seq<u8>, h: u32, off: int, cap: int) -> bool {
    let k = string_run_recs(b, h, off, cap);
    let e = off + 8 * k;
    cap - 4 * k > 0 && key_matches(b, h, e) && e + 8 > b.len()
}

/// One fixed-size string decoded from the run at `off`: packed bytes
/// accumulated, NULs stripped, the rest read as UTF-8.  A matching
/// record whose payload runs past the buffer cannot be read and makes
/// the string malformed.
pub open spec fn decode_string(b: Seq<u8>, h: u32, off: int, cap: int) -> Result<Seq<char>, Error> {
    if string_blocked(b, h, off, cap) {
        Err(Error::Malformed)
    } else {
        let stripped = strip_nuls(string_run_bytes(b, h, off, cap));
        if valid_utf8(stripped) {
            Ok(decode_utf8(stripped))
        } else {
            Err(Error::Malformed)
        }
    }
}

/// A whole run decoded as consecutive fixed-size strings, each
/// advancing past the records it consumed.
pub open spec fn decode_string_array(b: Seq<u8>, h: u32, off: int, cap: int) -> Result<
    Seq<Seq<char>>,
    Error,
>
    decreases b.len() - off + 8,
    via decode_string_array_decreases
{
    if !(key_matches(b, h, off) && cap > 0) {
        Ok(Seq::empty())
    } else {
        match decode_string(b, h, off, cap) {
            Err(_) => Err(Error::Malformed),
            Ok(first) => {
                let rest = decode_string_array(
                    b,
                    h,
                    off + 8 * string_run_recs(b, h, off, cap),
                    cap,
                );
                if rest is Err {
                    Err(Error::Malformed)
                } else {
                    Ok(seq![first] + rest->Ok_0)
                }
            },
        }
    }
}

/// A string consumes at least one record when one matches, and never
/// reads past the buffer.
pub proof fn lemma_string_run_recs_bound(b: Seq<u8>, h: u32, off: int, cap: int)
    requires
        rec_matches(b, h, off),
        cap > 0,
    ensures
        1 <= string_run_recs(b, h, off, cap),
        off + 8 * string_run_recs(b, h, off, cap) <= b.len(),
    decreases b.len() - off,
{
    assert(string_run_recs(b, h, off, cap) == 1 + string_run_recs(b, h, off + 8, cap - 4));
    if rec_matches(b, h, off + 8) && cap - 4 > 0 {
        lemma_string_run_recs_bound(b, h, off + 8, cap - 4);
    } else {
        assert(string_run_recs(b, h, off + 8, cap - 4) == 0);
    }
}

#[via_fn]
proof fn decode_string_array_decreases(b: Seq<u8>, h: u32, off: int, cap: int) {
    if key_matches(b, h, off) && cap > 0 && !(decode_string(b, h, off, cap) is Err) {
        if off + 8 <= b.len() {
            lemma_string_run_recs_bound(b, h, off, cap);
        } else {
            assert(string_run_recs(b, h, off, cap) == 0);
            assert(string_blocked(b, h, off, cap));
            assert(false);
        }
    }
}

/// What the field with checksum `h`, first record at `off`, decodes to
/// under `kind`.
pub open spec fn decode_at(b: Seq<u8>, h: u32, off: int, kind: Kind) -> Result<Val, Error> {
    match kind {
        Kind::Bool => if off + 8 > b.len() {
            Err(Error::Malformed)
        } else {
            Ok(Val::Bool(rec_payload(b, off) != 0))
        },
        Kind::F32 => if off + 8 > b.len() {
            Err(Error::Malformed)
        } else {
            Ok(Val::F32(rec_payload(b, off)))
        },
        Kind::S32 => if off + 8 > b.len() {
            Err(Error::Malformed)
        } else {
            Ok(Val::S32(as_signed(rec_payload(b, off)) as i32))
        },
        Kind::BoolArray => if run_blocked(b, h, off) {
            Err(Error::Malformed)
        } else {
            Ok(Val::BoolArray(bools_of(run_payloads(b, h, off))))
        },
        Kind::S32Array => if run_blocked(b, h, off) {
            Err(Error::Malformed)
        } else {
            Ok(Val::S32Array(s32s_of(run_payloads(b, h, off))))
        },
        Kind::F32Array | Kind::Vec2f | Kind::Vec3f | Kind::Vec4f => if run_blocked(b, h, off) {
            Err(Error::Malformed)
        } else {
            Ok(Val::F32Array(run_payloads(b, h, off)))
        },
        Kind::Vec2fArray => if run_blocked(b, h, off) {
            Err(Error::Malformed)
        } else {
            Ok(Val::Vec2fArray(group2(run_payloads(b, h, off))))
        },
        Kind::Vec3fArray => if run_blocked(b, h, off) {
            Err(Error::Malformed)
        } else {
            Ok(Val::Vec3fArray(group3(run_payloads(b, h, off))))
        },
        Kind::Str | Kind::Str64 | Kind::Str256 => match decode_string(
            b,
            h,
            off,
            string_cap(kind),
        ) {
            Ok(s) => Ok(Val::Str(s)),
            Err(e) => Err(e),
        },
        Kind::Str64Array | Kind::Str256Array => match decode_string_array(
            b,
            h,
            off,
            string_cap(kind),
        ) {
            Ok(s) => Ok(Val::StrArray(s)),
            Err(e) => Err(e),
        },
        Kind::Unknown => Ok(Val::Absent),
    }
}

/// The flat word sequence of a sequence of pairs.
pub open spec fn flatten2(ps: Seq<(u32, u32)>) -> Seq<u32> {
    Seq::new(
        2 * ps.len(),
        |i: int|
            if i % 2 == 0 {
                ps[i / 2].0
            } else {
                ps[i / 2].1
            },
    )
}

/// The flat word sequence of a sequence of triples.
pub open spec fn flatten3(ps: Seq<(u32, u32, u32)>) -> Seq<u32> {
    Seq::new(
        3 * ps.len(),
        |i: int|
            if i % 3 == 0 {
                ps[i / 3].0
            } else if i % 3 == 1 {
                ps[i / 3].1
            } else {
                ps[i / 3].2
            },
    )
}

/// The kinds whose field is a single record.
pub open spec fn is_scalar_kind(kind: Kind) -> bool {
    match kind {
        Kind::Bool | Kind::S32 | Kind::F32 => true,
        _ => false,
    }
}

/// The exact component count a fixed-size vector kind demands of a
/// value, if the kind demands one.
pub open spec fn vec_components(kind: Kind) -> Option<int> {
    match kind {
        Kind::Vec2f => Some(2),
        Kind::Vec3f => Some(3),
        Kind::Vec4f => Some(4),
        _ => None,
    }
}

/// Boolean elements as payload words: one for true, zero for false.
pub open spec fn words_of_bools(s: Seq<bool>) -> Seq<u32> {
    s.map_values(
        |x: bool|
            if x {
                1u32
            } else {
                0u32
            },
    )
}

/// Signed elements as payload words: their two's-complement patterns.
pub open spec fn words_of_s32s(s: Seq<i32>) -> Seq<u32> {
    s.map_values(|x: i32| as_unsigned(x))
}

/// The payload words a value encodes to under a kind, or `None` when
/// the value's shape does not fit the kind.
pub open spec fn encode_words(kind: Kind, v: Val) -> Option<Seq<u32>> {
    match (kind, v) {
        (Kind::Bool, Val::Bool(x)) => Some(
            seq![
                if x {
                    1u32
                } else {
                    0u32
                },
            ],
        ),
        (Kind::S32, Val::S32(x)) => Some(seq![as_unsigned(x)]),
        (Kind::F32, Val::F32(w)) => Some(seq![w]),
        (Kind::BoolArray, Val::BoolArray(s)) => Some(words_of_bools(s)),
        (Kind::S32Array, Val::S32Array(s)) => Some(words_of_s32s(s)),
        (Kind::F32Array, Val::F32Array(s)) => Some(s),
        (Kind::Vec2f, Val::F32Array(s)) => Some(s),
        (Kind::Vec3f, Val::F32Array(s)) => Some(s),
        (Kind::Vec4f, Val::F32Array(s)) => Some(s),
        (Kind::Vec2fArray, Val::Vec2fArray(ps)) => Some(flatten2(ps)),
        (Kind::Vec3fArray, Val::Vec3fArray(ps)) => Some(flatten3(ps)),
        _ => None,
    }
}

/// `b` with the payload slots of the first `words.len()` records at
/// `off` overwritten by `words`, in order; every other byte, every
/// checksum slot included, keeps its value.
pub open spec fn splice_run(b: Seq<u8>, off: int, words: Seq<u32>) -> Seq<u8> {
    Seq::new(
        b.len(),
        |i: int|
            if off <= i && i < off + 8 * words.len() && (i - off) % 8 >= 4 {
                byte_of(words[(i - off) / 8], (i - off) % 8 - 4)
            } else {
                b[i]
            },
    )
}

/// What a validated in-place write does: the buffer it produces, or the
/// error on which the buffer is left untouched.
pub open spec fn set_spec(b: Seq<u8>, h: u32, off: int, kind: Kind, v: Val) -> Result<
    Seq<u8>,
    Error,
> {
    if is_string_kind(kind) {
        Err(Error::UnsupportedOperation)
    } else if kind == Kind::Unknown {
        Err(Error::TypeMismatch)
    } else {
        match encode_words(kind, v) {
            Option::None => Err(Error::TypeMismatch),
            Option::Some(ws) => {
                if vec_components(kind) is Some && ws.len() != vec_components(kind)->Some_0 {
                    Err(Error::LengthMismatch)
                } else if is_scalar_kind(kind) {
                    if off + 8 > b.len() {
                        Err(Error::Malformed)
                    } else {
                        Ok(splice_run(b, off, ws))
                    }
                } else if run_blocked(b, h, off) {
                    Err(Error::Malformed)
                } else if ws.len() != run_len(b, h, off) {
                    Err(Error::LengthMismatch)
                } else {
                    Ok(splice_run(b, off, ws))
                }
            },
        }
    }
}

/// Writing one word into an already partly spliced buffer extends the
/// splice by one record.
proof fn lemma_splice_step(b: Seq<u8>, off: int, ws: Seq<u32>, i: int)
    requires
        0 <= off,
        0 <= i < ws.len(),
        off + 8 * ws.len() <= b.len(),
    ensures
        crate::bytes::put_le32(splice_run(b, off, ws.take(i)), off + 4 + 8 * i, ws[i])
            == splice_run(b, off, ws.take(i + 1)),
{
    let lhs = crate::bytes::put_le32(splice_run(b, off, ws.take(i)), off + 4 + 8 * i, ws[i]);
    let rhs = splice_run(b, off, ws.take(i + 1));
    assert forall|j: int| 0 <= j < b.len() implies lhs[j] == rhs[j] by {
        if off <= j && j < off + 8 * ws.len() {
            vstd::arithmetic::div_mod::lemma_fundamental_div_mod(j - off, 8);
        }
    }
    assert(lhs =~= rhs);
}


/// One checksum slot is unchanged by a splice.
pub proof fn lemma_splice_key_at(b: Seq<u8>, off: int, ws: Seq<u32>, o: int)
    requires
        0 <= o,
        o + 4 <= b.len(),
        (o - off) % 8 == 0,
    ensures
        rec_key(splice_run(b, off, ws), o) == rec_key(b, o),
{
    let s = splice_run(b, off, ws);
    assert forall|j: int| o <= j < o + 4 implies s[j] == b[j] by {
        vstd::arithmetic::div_mod::lemma_add_mod_noop(o - off, j - o, 8);
        vstd::arithmetic::div_mod::lemma_small_mod((j - o) as nat, 8);
    }
}

/// Whether a checksum is readable, and what it reads, is unchanged by
/// a splice.
pub proof fn lemma_splice_key_matches(b: Seq<u8>, off: int, ws: Seq<u32>, h2: u32, o: int)
    requires
        12 <= off,
        (off - 12) % 8 == 0,
        off + 8 * ws.len() <= b.len(),
        12 <= o,
        (o - 12) % 8 == 0,
    ensures
        key_matches(splice_run(b, off, ws), h2, o) == key_matches(b, h2, o),
{
    let s = splice_run(b, off, ws);
    if o + 4 <= b.len() {
        lemma_mod8_sub(o - 12, off - 12);
        lemma_splice_key_at(b, off, ws, o);
    } else {
        assert(!has_key(s, o));
    }
}

/// One payload slot outside the written records is unchanged.
pub proof fn lemma_splice_payload_outside(b: Seq<u8>, off: int, ws: Seq<u32>, o: int)
    requires
        0 <= o,
        o + 8 <= b.len(),
        (o - off) % 8 == 0,
        o < off || o >= off + 8 * ws.len(),
    ensures
        rec_payload(splice_run(b, off, ws), o) == rec_payload(b, o),
{
    let s = splice_run(b, off, ws);
    assert forall|j: int| o + 4 <= j < o + 8 implies s[j] == b[j] by {
        if off <= j && j < off + 8 * ws.len() {
            vstd::arithmetic::div_mod::lemma_fundamental_div_mod(o - off, 8);
        }
    }
}

/// The written payload slots hold the written words.
pub proof fn lemma_splice_payload_at(b: Seq<u8>, off: int, ws: Seq<u32>, k: int)
    requires
        0 <= off,
        0 <= k < ws.len(),
        off + 8 * ws.len() <= b.len(),
    ensures
        rec_payload(splice_run(b, off, ws), off + 8 * k) == ws[k],
{
    let s = splice_run(b, off, ws);
    assert forall|j: int| off + 8 * k + 4 <= j < off + 8 * k + 8 implies s[j] == byte_of(
        ws[k],
        j - (off + 8 * k + 4),
    ) by {
        vstd::arithmetic::div_mod::lemma_fundamental_div_mod_converse(
            j - off,
            8,
            k,
            j - off - 8 * k,
        );
    }
    crate::bytes::lemma_le32_of_bytes(s, off + 8 * k + 4, ws[k]);
}

/// A record-aligned offset inside the written region belongs to the
/// target run, so its checksum is the written field's.
pub proof fn lemma_written_region_key(b: Seq<u8>, h: u32, off: int, n: int, o: int)
    requires
        0 <= off,
        n <= run_len(b, h, off),
        off <= o < off + 8 * n,
        (o - off) % 8 == 0,
    ensures
        rec_matches(b, h, o),
{
    let k = (o - off) / 8;
    vstd::arithmetic::div_mod::lemma_fundamental_div_mod(o - off, 8);
    lemma_run_payloads(b, h, off);
    assert(run_payloads(b, h, off)[k] == rec_payload(b, off + 8 * k));
}

/// Splicing payload words never changes which records exist nor what
/// checksums they carry, so every run keeps its length.
#[verifier::rlimit(50)]
pub proof fn lemma_splice_runs_preserved(b: Seq<u8>, off: int, ws: Seq<u32>, h2: u32, o: int)
    requires
        12 <= off,
        (off - 12) % 8 == 0,
        off + 8 * ws.len() <= b.len(),
        12 <= o,
        (o - 12) % 8 == 0,
    ensures
        run_len(splice_run(b, off, ws), h2, o) == run_len(b, h2, o),
        rec_matches(splice_run(b, off, ws), h2, o) == rec_matches(b, h2, o),
    decreases b.len() - o,
{
    let s = splice_run(b, off, ws);
    if is_rec(b, o) {
        lemma_mod8_sub(o - 12, off - 12);
        lemma_splice_key_at(b, off, ws, o);
        lemma_mod8_add(o - 12, 8);
        lemma_splice_runs_preserved(b, off, ws, h2, o + 8);
    } else {
        assert(!is_rec(s, o));
    }
}

/// `find_from` sees only record checksums, which a splice preserves.
#[verifier::rlimit(50)]
pub proof fn lemma_splice_find_preserved(b: Seq<u8>, off: int, ws: Seq<u32>, h2: u32, o: int)
    requires
        12 <= off,
        (off - 12) % 8 == 0,
        off + 8 * ws.len() <= b.len(),
        12 <= o,
        (o - 12) % 8 == 0,
    ensures
        find_from(splice_run(b, off, ws), h2, o) == find_from(b, h2, o),
    decreases b.len() - o + 8,
{
    let s = splice_run(b, off, ws);
    if has_key(b, o) {
        lemma_mod8_sub(o - 12, off - 12);
        lemma_splice_key_at(b, off, ws, o);
        lemma_mod8_add(o - 12, 8);
        if rec_key(b, o) != h2 {
            lemma_splice_find_preserved(b, off, ws, h2, o + 8);
        }
    } else {
        assert(!has_key(s, o));
    }
}

/// The run of any other checksum decodes from untouched bytes: a splice
/// into the run of `h` leaves the payloads of `h2`'s run as they were.
#[verifier::rlimit(50)]
pub proof fn lemma_splice_other_payloads(
    b: Seq<u8>,
    h: u32,
    off: int,
    ws: Seq<u32>,
    h2: u32,
    o: int,
)
    requires
        12 <= off,
        (off - 12) % 8 == 0,
        off + 8 * ws.len() <= b.len(),
        ws.len() <= run_len(b, h, off),
        h2 != h,
        12 <= o,
        (o - 12) % 8 == 0,
    ensures
        run_payloads(splice_run(b, off, ws), h2, o) == run_payloads(b, h2, o),
    decreases b.len() - o,
{
    let s = splice_run(b, off, ws);
    lemma_splice_runs_preserved(b, off, ws, h2, o);
    if rec_matches(b, h2, o) {
        lemma_mod8_sub(o - 12, off - 12);
        if off <= o < off + 8 * ws.len() {
            lemma_written_region_key(b, h, off, ws.len() as int, o);
            assert(false);
        }
        lemma_splice_payload_outside(b, off, ws, o);
        lemma_mod8_add(o - 12, 8);
        lemma_splice_other_payloads(b, h, off, ws, h2, o + 8);
    }
}

/// The packed bytes of another checksum's string run are untouched.
#[verifier::rlimit(50)]
pub proof fn lemma_splice_other_string(
    b: Seq<u8>,
    h: u32,
    off: int,
    ws: Seq<u32>,
    h2: u32,
    o: int,
    left: int,
)
    requires
        12 <= off,
        (off - 12) % 8 == 0,
        off + 8 * ws.len() <= b.len(),
        ws.len() <= run_len(b, h, off),
        h2 != h,
        12 <= o,
        (o - 12) % 8 == 0,
    ensures
        string_run_bytes(splice_run(b, off, ws), h2, o, left) == string_run_bytes(b, h2, o, left),
        string_run_recs(splice_run(b, off, ws), h2, o, left) == string_run_recs(b, h2, o, left),
    decreases b.len() - o,
{
    let s = splice_run(b, off, ws);
    lemma_splice_runs_preserved(b, off, ws, h2, o);
    if rec_matches(b, h2, o) && left > 0 {
        lemma_mod8_sub(o - 12, off - 12);
        if off <= o < off + 8 * ws.len() {
            lemma_written_region_key(b, h, off, ws.len() as int, o);
            assert(false);
        }
        assert forall|j: int| o + 4 <= j < o + 8 implies s[j] == b[j] by {
            if off <= j && j < off + 8 * ws.len() {
                vstd::arithmetic::div_mod::lemma_fundamental_div_mod(o - off, 8);
            }
        }
        assert(s.subrange(o + 4, o + 8) =~= b.subrange(o + 4, o + 8));
        lemma_mod8_add(o - 12, 8);
        lemma_splice_other_string(b, h, off, ws, h2, o + 8, left - 4);
    }
}

/// A whole string-array decode of another checksum is untouched.
#[verifier::rlimit(50)]
pub proof fn lemma_splice_other_string_array(
    b: Seq<u8>,
    h: u32,
    off: int,
    ws: Seq<u32>,
    h2: u32,
    o: int,
    cap: int,
)
    requires
        12 <= off,
        (off - 12) % 8 == 0,
        off + 8 * ws.len() <= b.len(),
        ws.len() <= run_len(b, h, off),
        h2 != h,
        12 <= o,
        (o - 12) % 8 == 0,
        cap > 0,
    ensures
        decode_string_array(splice_run(b, off, ws), h2, o, cap) == decode_string_array(
            b,
            h2,
            o,
            cap,
        ),
    decreases b.len() - o,
{
    let s = splice_run(b, off, ws);
    lemma_splice_key_matches(b, off, ws, h2, o);
    if key_matches(b, h2, o) {
        lemma_splice_other_decode_string(b, h, off, ws, h2, o, cap);
        if !(decode_string(b, h2, o, cap) is Err) {
            if o + 8 > b.len() {
                assert(string_run_recs(b, h2, o, cap) == 0);
                assert(string_blocked(b, h2, o, cap));
                assert(false);
            }
            lemma_string_run_recs_bound(b, h2, o, cap);
            let k = string_run_recs(b, h2, o, cap);
            lemma_mod8_add(o - 12, 8 * (k as int));
            assert((8 * k) % 8 == 0) by {
                vstd::arithmetic::div_mod::lemma_mod_multiples_basic(k as int, 8);
            }
            lemma_splice_other_string_array(b, h, off, ws, h2, o + 8 * k, cap);
        }
    }
}

/// One fixed-size string of another checksum decodes unchanged.
#[verifier::rlimit(50)]
pub proof fn lemma_splice_other_decode_string(
    b: Seq<u8>,
    h: u32,
    off: int,
    ws: Seq<u32>,
    h2: u32,
    o: int,
    cap: int,
)
    requires
        12 <= off,
        (off - 12) % 8 == 0,
        off + 8 * ws.len() <= b.len(),
        ws.len() <= run_len(b, h, off),
        h2 != h,
        12 <= o,
        (o - 12) % 8 == 0,
    ensures
        decode_string(splice_run(b, off, ws), h2, o, cap) == decode_string(b, h2, o, cap),
        string_run_recs(splice_run(b, off, ws), h2, o, cap) == string_run_recs(b, h2, o, cap),
{
    let s = splice_run(b, off, ws);
    lemma_splice_other_string(b, h, off, ws, h2, o, cap);
    let k = string_run_recs(b, h2, o, cap);
    lemma_mod8_add(o - 12, 8 * (k as int));
    assert((8 * k) % 8 == 0) by {
        vstd::arithmetic::div_mod::lemma_mod_multiples_basic(k as int, 8);
    }
    lemma_splice_key_matches(b, off, ws, h2, o + 8 * (k as int));
    assert(string_blocked(s, h2, o, cap) == string_blocked(b, h2, o, cap));
}

/// Decoding any other field gives the same value after the splice.
#[verifier::rlimit(50)]
pub proof fn lemma_splice_other_decode(
    b: Seq<u8>,
    h: u32,
    off: int,
    ws: Seq<u32>,
    h2: u32,
    o: int,
    kind: Kind,
)
    requires
        12 <= off,
        (off - 12) % 8 == 0,
        off + 8 * ws.len() <= b.len(),
        ws.len() <= run_len(b, h, off),
        h2 != h,
        12 <= o,
        (o - 12) % 8 == 0,
        key_matches(b, h2, o),
    ensures
        decode_at(splice_run(b, off, ws), h2, o, kind) == decode_at(b, h2, o, kind),
{
    let s = splice_run(b, off, ws);
    lemma_splice_other_payloads(b, h, off, ws, h2, o);
    lemma_splice_runs_preserved(b, off, ws, h2, o);
    lemma_mod8_sub(o - 12, off - 12);
    if off <= o < off + 8 * ws.len() {
        lemma_written_region_key(b, h, off, ws.len() as int, o);
        assert(false);
    }
    if o + 8 <= b.len() {
        lemma_splice_payload_outside(b, off, ws, o);
    }
    let n = run_len(b, h2, o);
    lemma_mod8_add(o - 12, 8 * (n as int));
    assert((8 * n) % 8 == 0) by {
        vstd::arithmetic::div_mod::lemma_mod_multiples_basic(n as int, 8);
    }
    lemma_splice_key_matches(b, off, ws, h2, o + 8 * (n as int));
    assert(run_blocked(s, h2, o) == run_blocked(b, h2, o));
    lemma_splice_other_decode_string(b, h, off, ws, h2, o, string_cap(kind));
    lemma_splice_other_string_array(b, h, off, ws, h2, o, string_cap(kind));
}

/// Writes `words` into the payload slots of the records at `off`, in
/// order, leaving every other byte as it was.
pub fn write_words(data: &mut Vec<u8>, off: usize, words: &Vec<u32>)
    requires
        0 <= off,
        off + 8 * words@.len() <= old(data)@.len(),
    ensures
        final(data)@ == splice_run(old(data)@, off as int, words@),
        final(data)@.len() == old(data)@.len(),
{
    let dlen = data.len();
    let n = words.len();
    let mut i: usize = 0;
    proof {
        assert(splice_run(old(data)@, off as int, words@.take(0)) =~= old(data)@);
    }
    while i < n
        invariant
            i <= n,
            n == words@.len(),
            dlen == old(data)@.len(),
            off + 8 * n <= dlen,
            data@ == splice_run(old(data)@, off as int, words@.take(i as int)),
            data@.len() == dlen,
        decreases n - i,
    {
        crate::bytes::write_u32(data, off + 4 + 8 * i, words[i]);
        proof {
            assert(words@.take(i + 1)[i as int] == words@[i as int]);
            lemma_splice_step(old(data)@, off as int, words@, i as int);
            assert(words@.take(i + 1).take(i as int) =~= words@.take(i as int));
            assert(data@ == splice_run(old(data)@, off as int, words@.take(i + 1))) by {
                assert(splice_run(old(data)@, off as int, words@.take(i + 1))
                    == crate::bytes::put_le32(
                    splice_run(old(data)@, off as int, words@.take(i as int)),
                    off + 4 + 8 * i,
                    words@[i as int],
                ));
            }
        }
        i += 1;
    }
    proof {
        assert(words@.take(n as int) =~= words@);
    }
}

/// Scans the run at `off` and collects each payload as a boolean.
pub fn read_run_bools(data: &Vec<u8>, h: u32, off: usize) -> (v: Vec<bool>)
    requires
        12 <= off <= data@.len(),
        (off - 12) % 8 == 0,
    ensures
        v@ == bools_of(run_payloads(data@, h, off as int)),
{
    let len = data.len();
    let mut vals: Vec<bool> = Vec::new();
    let mut cur = off;
    let ghost mut pre: Seq<u32> = Seq::empty();
    proof {
        assert(pre + run_payloads(data@, h, off as int) =~= run_payloads(data@, h, off as int));
        assert(vals@ =~= bools_of(pre));
    }
    while cur <= len - 8 && read_u32(data, cur) == h
        invariant
            off <= cur <= len,
            len == data@.len(),
            12 <= off,
            (cur - 12) % 8 == 0,
            run_payloads(data@, h, off as int) == pre + run_payloads(data@, h, cur as int),
            vals@ == bools_of(pre),
        decreases len - cur,
    {
        proof {
            assert(rec_matches(data@, h, cur as int));
        }
        let p = read_u32(data, cur + 4);
        vals.push(p != 0);
        proof {
            assert(p == rec_payload(data@, cur as int));
            assert(run_payloads(data@, h, cur as int) == seq![p] + run_payloads(
                data@,
                h,
                cur + 8,
            ));
            assert(run_payloads(data@, h, off as int) =~= pre.push(p) + run_payloads(
                data@,
                h,
                cur + 8,
            ));
            assert(vals@ =~= bools_of(pre.push(p)));
            pre = pre.push(p);
            lemma_mod8_add(cur - 12, 8);
        }
        cur = cur + 8;
    }
    proof {
        assert(!rec_matches(data@, h, cur as int));
        assert(run_payloads(data@, h, cur as int) =~= Seq::<u32>::empty());
        assert(run_payloads(data@, h, off as int) =~= pre);
    }
    vals
}

/// Scans the run at `off` and collects each payload as a signed integer.
pub fn read_run_s32s(data: &Vec<u8>, h: u32, off: usize) -> (v: Vec<i32>)
    requires
        12 <= off <= data@.len(),
        (off - 12) % 8 == 0,
    ensures
        v@ == s32s_of(run_payloads(data@, h, off as int)),
{
    let len = data.len();
    let mut vals: Vec<i32> = Vec::new();
    let mut cur = off;
    let ghost mut pre: Seq<u32> = Seq::empty();
    proof {
        assert(pre + run_payloads(data@, h, off as int) =~= run_payloads(data@, h, off as int));
        assert(vals@ =~= s32s_of(pre));
    }
    while cur <= len - 8 && read_u32(data, cur) == h
        invariant
            off <= cur <= len,
            len == data@.len(),
            12 <= off,
            (cur - 12) % 8 == 0,
            run_payloads(data@, h, off as int) == pre + run_payloads(data@, h, cur as int),
            vals@ == s32s_of(pre),
        decreases len - cur,
    {
        proof {
            assert(rec_matches(data@, h, cur as int));
        }
        let p = read_u32(data, cur + 4);
        let x = crate::bytes::read_i32(data, cur + 4);
        vals.push(x);
        proof {
            assert(p == rec_payload(data@, cur as int));
            assert(run_payloads(data@, h, cur as int) == seq![p] + run_payloads(
                data@,
                h,
                cur + 8,
            ));
            assert(run_payloads(data@, h, off as int) =~= pre.push(p) + run_payloads(
                data@,
                h,
                cur + 8,
            ));
            assert(vals@ =~= s32s_of(pre.push(p)));
            pre = pre.push(p);
            lemma_mod8_add(cur - 12, 8);
        }
        cur = cur + 8;
    }
    proof {
        assert(!rec_matches(data@, h, cur as int));
        assert(run_payloads(data@, h, cur as int) =~= Seq::<u32>::empty());
        assert(run_payloads(data@, h, off as int) =~= pre);
    }
    vals
}

/// Scans the run at `off` and collects each payload word (the bit
/// patterns of 32-bit floats).
pub fn read_run_words(data: &Vec<u8>, h: u32, off: usize) -> (v: Vec<u32>)
    requires
        12 <= off <= data@.len(),
        (off - 12) % 8 == 0,
    ensures
        v@ == run_payloads(data@, h, off as int),
{
    let len = data.len();
    let mut vals: Vec<u32> = Vec::new();
    let mut cur = off;
    while cur <= len - 8 && read_u32(data, cur) == h
        invariant
            off <= cur <= len,
            len == data@.len(),
            12 <= off,
            (cur - 12) % 8 == 0,
            run_payloads(data@, h, off as int) == vals@ + run_payloads(data@, h, cur as int),
        decreases len - cur,
    {
        proof {
            assert(rec_matches(data@, h, cur as int));
        }
        let p = read_u32(data, cur + 4);
        vals.push(p);
        proof {
            assert(p == rec_payload(data@, cur as int));
            assert(run_payloads(data@, h, cur as int) == seq![p] + run_payloads(
                data@,
                h,
                cur + 8,
            ));
            assert(run_payloads(data@, h, off as int) =~= vals@ + run_payloads(
                data@,
                h,
                cur + 8,
            ));
            lemma_mod8_add(cur - 12, 8);
        }
        cur = cur + 8;
    }
    proof {
        assert(!rec_matches(data@, h, cur as int));
        assert(run_payloads(data@, h, cur as int) =~= Seq::<u32>::empty());
        assert(run_payloads(data@, h, off as int) =~= vals@);
    }
    vals
}

/// Filtering an empty sequence keeps nothing.
proof fn lemma_strip_empty()
    ensures
        strip_nuls(Seq::<u8>::empty()) == Seq::<u8>::empty(),
{
    reveal_with_fuel(Seq::filter, 1);
}

/// Filtering a single byte keeps it exactly when it is not NUL.
proof fn lemma_strip_single(x: u8)
    ensures
        strip_nuls(seq![x]) == if x != 0 {
            seq![x]
        } else {
            Seq::<u8>::empty()
        },
{
    reveal_with_fuel(Seq::filter, 2);
    assert(seq![x].drop_last() =~= Seq::<u8>::empty());
    assert(seq![x].last() == x);
}

/// Copies `v` without its NUL bytes.
fn strip_zeros(v: &Vec<u8>) -> (r: Vec<u8>)
    ensures
        r@ == strip_nuls(v@),
{
    let n = v.len();
    let mut out: Vec<u8> = Vec::new();
    let mut i: usize = 0;
    proof {
        lemma_strip_empty();
        assert(v@.subrange(0, 0) =~= Seq::<u8>::empty());
    }
    while i < n
        invariant
            i <= n,
            n == v@.len(),
            out@ == strip_nuls(v@.subrange(0, i as int)),
        decreases n - i,
    {
        let x = v[i];
        if x != 0 {
            out.push(x);
        }
        proof {
            assert(v@.subrange(0, i + 1) =~= v@.subrange(0, i as int) + seq![x]);
            lemma_strip_single(x);
            assert(strip_nuls(v@.subrange(0, i as int) + seq![x]) == strip_nuls(
                v@.subrange(0, i as int),
            ) + strip_nuls(seq![x]));
            assert(out@ =~= strip_nuls(v@.subrange(0, i + 1)));
        }
        i += 1;
    }
    proof {
        assert(v@.subrange(0, n as int) =~= v@);
    }
    out
}

/// Turns packed string bytes into a string.
///
/// Relies on `String::from_utf8`: it succeeds exactly when the bytes
/// are valid UTF-8, and then returns the string those bytes encode.
#[verifier::external_body]
fn bytes_to_string(v: Vec<u8>) -> (r: Option<String>)
    ensures
        r is Some <==> valid_utf8(v@),
        r is Some ==> r->Some_0@ == decode_utf8(v@),
{
    match String::from_utf8(v) {
        Ok(s) => Some(s),
        Err(_) => None,
    }
}

/// Reads one fixed-size string from the run at `*off`, advancing `*off`
/// past the records it consumed.  Returns `None`, with `*off` untouched,
/// when no record carrying `hash` stands at `*off`.
#[verifier::rlimit(50)]
pub fn read_string(data: &Vec<u8>, off: &mut usize, hash: u32, size: usize) -> (r: Result<
    Option<String>,
    Error,
>)
    requires
        12 <= *old(off) <= data@.len(),
        (*old(off) - 12) % 8 == 0,
        4 <= size,
        size % 4 == 0,
    ensures
        12 <= *final(off) <= data@.len(),
        (*final(off) - 12) % 8 == 0,
        !key_matches(data@, hash, *old(off) as int) ==> r == Ok::<Option<String>, Error>(None)
            && *final(off) == *old(off),
        key_matches(data@, hash, *old(off) as int) ==> {
            &&& *final(off) == *old(off) + 8 * string_run_recs(
                data@,
                hash,
                *old(off) as int,
                size as int,
            )
            &&& match r {
                Ok(opt) => opt is Some && decode_string(
                    data@,
                    hash,
                    *old(off) as int,
                    size as int,
                ) == Ok::<Seq<char>, Error>(opt->Some_0@),
                Err(e) => decode_string(data@, hash, *old(off) as int, size as int) == Err::<
                    Seq<char>,
                    Error,
                >(e),
            }
        },
{
    let len = data.len();
    let start = *off;
    if !(start <= len - 4 && read_u32(data, start) == hash) {
        proof {
            assert(!key_matches(data@, hash, start as int));
        }
        return Ok(None);
    }
    if start > len - 8 {
        proof {
            assert(string_run_recs(data@, hash, start as int, size as int) == 0);
            assert(string_blocked(data@, hash, start as int, size as int));
        }
        return Err(Error::Malformed);
    }
    let mut out: Vec<u8> = Vec::new();
    let mut toff = start;
    let mut nread: usize = 0;
    proof {
        assert(out@ + string_run_bytes(data@, hash, start as int, size as int)
            =~= string_run_bytes(data@, hash, start as int, size as int));
    }
    while toff <= len - 8 && nread < size && read_u32(data, toff) == hash
        invariant
            start <= toff <= len,
            len == data@.len(),
            12 <= start,
            (start - 12) % 8 == 0,
            (toff - 12) % 8 == 0,
            nread <= size,
            size % 4 == 0,
            nread % 4 == 0,
            8 * nread == 4 * (toff - start),
            out@.len() == nread,
            string_run_bytes(data@, hash, start as int, size as int) == out@ + string_run_bytes(
                data@,
                hash,
                toff as int,
                size - nread,
            ),
            8 * string_run_recs(data@, hash, start as int, size as int) == (toff - start) + 8
                * string_run_recs(data@, hash, toff as int, size - nread),
        decreases len - toff,
    {
        proof {
            assert(rec_matches(data@, hash, toff as int));
            assert(string_run_bytes(data@, hash, toff as int, size - nread) == data@.subrange(
                toff + 4,
                toff + 8,
            ) + string_run_bytes(data@, hash, toff + 8, size - nread - 4));
            assert(string_run_recs(data@, hash, toff as int, size - nread) == 1
                + string_run_recs(data@, hash, toff + 8, size - nread - 4));
        }
        let ghost outpre = out@;
        out.push(data[toff + 4]);
        out.push(data[toff + 5]);
        out.push(data[toff + 6]);
        out.push(data[toff + 7]);
        proof {
            assert(out@ =~= outpre + data@.subrange(toff + 4, toff + 8));
            assert(outpre + data@.subrange(toff + 4, toff + 8) + string_run_bytes(
                data@,
                hash,
                toff + 8,
                size - nread - 4,
            ) =~= outpre + (data@.subrange(toff + 4, toff + 8) + string_run_bytes(
                data@,
                hash,
                toff + 8,
                size - nread - 4,
            )));
            lemma_mod8_add(toff - 12, 8);
        }
        toff = toff + 8;
        nread = nread + 4;
    }
    proof {
        assert(!(rec_matches(data@, hash, toff as int) && size - nread > 0));
        assert(string_run_bytes(data@, hash, toff as int, size - nread)
            =~= Seq::<u8>::empty());
        assert(string_run_recs(data@, hash, toff as int, size - nread) == 0);
        assert(string_run_bytes(data@, hash, start as int, size as int) =~= out@);
    }
    *off = toff;
    if nread < size && toff <= len - 4 && toff > len - 8 && read_u32(data, toff) == hash {
        proof {
            assert(string_blocked(data@, hash, start as int, size as int));
        }
        return Err(Error::Malformed);
    }
    proof {
        assert(!string_blocked(data@, hash, start as int, size as int));
    }
    let stripped = strip_zeros(&out);
    match bytes_to_string(stripped) {
        Some(s) => Ok(Some(s)),
        None => Err(Error::Malformed),
    }
}

/// Groups a flat word vector into consecutive pairs, dropping a
/// trailing odd element.
pub fn group2_exec(w: &Vec<u32>) -> (v: Vec<(u32, u32)>)
    ensures
        v@ == group2(w@),
{
    let n = w.len();
    let mut out: Vec<(u32, u32)> = Vec::new();
    let mut i: usize = 0;
    while i < n / 2
        invariant
            n == w@.len(),
            i <= n as int / 2,
            out@.len() == i,
            forall|j: int| 0 <= j < i ==> out@[j] == (w@[2 * j], w@[2 * j + 1]),
        decreases n / 2 - i,
    {
        proof {
            vstd::arithmetic::div_mod::lemma_fundamental_div_mod(n as int, 2);
        }
        let pair = (w[2 * i], w[2 * i + 1]);
        out.push(pair);
        i += 1;
    }
    proof {
        assert(out@ =~= group2(w@));
    }
    out
}

/// Groups a flat word vector into consecutive triples, dropping a
/// trailing remainder.
pub fn group3_exec(w: &Vec<u32>) -> (v: Vec<(u32, u32, u32)>)
    ensures
        v@ == group3(w@),
{
    let n = w.len();
    let mut out: Vec<(u32, u32, u32)> = Vec::new();
    let mut i: usize = 0;
    while i < n / 3
        invariant
            n == w@.len(),
            i <= n as int / 3,
            out@.len() == i,
            forall|j: int| 0 <= j < i ==> out@[j] == (w@[3 * j], w@[3 * j + 1], w@[3 * j + 2]),
        decreases n / 3 - i,
    {
        proof {
            vstd::arithmetic::div_mod::lemma_fundamental_div_mod(n as int, 3);
        }
        let triple = (w[3 * i], w[3 * i + 1], w[3 * i + 2]);
        out.push(triple);
        i += 1;
    }
    proof {
        assert(out@ =~= group3(w@));
    }
    out
}

/// Reads a whole run as consecutive fixed-size strings.
pub fn read_string_array(data: &Vec<u8>, hash: u32, off: usize, size: usize) -> (r: Result<
    Vec<String>,
    Error,
>)
    requires
        12 <= off <= data@.len(),
        (off - 12) % 8 == 0,
        4 <= size,
        size % 4 == 0,
    ensures
        ({
            let d = decode_string_array(data@, hash, off as int, size as int);
            match r {
                Ok(v) => d is Ok && v@.map_values(|s: String| s@) == d->Ok_0,
                Err(e) => d == Err::<Seq<Seq<char>>, Error>(e),
            }
        }),
{
    let mut soff = off;
    let mut out: Vec<String> = Vec::new();
    proof {
        assert(out@.map_values(|s: String| s@) =~= Seq::<Seq<char>>::empty());
    }
    loop
        invariant
            12 <= soff <= data@.len(),
            (soff - 12) % 8 == 0,
            4 <= size,
            size % 4 == 0,
            match decode_string_array(data@, hash, soff as int, size as int) {
                Ok(rest) => decode_string_array(data@, hash, off as int, size as int)
                    == Ok::<Seq<Seq<char>>, Error>(out@.map_values(|s: String| s@) + rest),
                Err(e) => decode_string_array(data@, hash, off as int, size as int)
                    == Err::<Seq<Seq<char>>, Error>(e),
            },
        decreases data@.len() - soff,
    {
        let ghost pre_off = soff as int;
        let ghost outpre = out@;
        match read_string(data, &mut soff, hash, size) {
            Ok(None) => {
                proof {
                    assert(decode_string_array(data@, hash, pre_off, size as int)
                        == Ok::<Seq<Seq<char>>, Error>(Seq::empty()));
                    assert(out@.map_values(|s: String| s@) + Seq::<Seq<char>>::empty()
                        =~= out@.map_values(|s: String| s@));
                }
                return Ok(out);
            },
            Ok(Some(s)) => {
                proof {
                    assert(decode_string(data@, hash, pre_off, size as int) == Ok::<
                        Seq<char>,
                        Error,
                    >(s@));
                    if pre_off + 8 > data@.len() {
                        assert(string_run_recs(data@, hash, pre_off, size as int) == 0);
                        assert(string_blocked(data@, hash, pre_off, size as int));
                        assert(false);
                    }
                    lemma_string_run_recs_bound(data@, hash, pre_off, size as int);
                }
                out.push(s);
                proof {
                    assert(out@.map_values(|s2: String| s2@) =~= outpre.map_values(
                        |s2: String| s2@,
                    ).push(s@));
                    let rest_off = soff as int;
                    assert(decode_string_array(data@, hash, pre_off, size as int) == (
                    match decode_string_array(data@, hash, rest_off, size as int) {
                        Ok(rest) => Ok::<Seq<Seq<char>>, Error>(seq![s@] + rest),
                        Err(e) => Err::<Seq<Seq<char>>, Error>(Error::Malformed),
                    }));
                    match decode_string_array(data@, hash, rest_off, size as int) {
                        Ok(rest) => {
                            assert(outpre.map_values(|s2: String| s2@) + (seq![s@] + rest)
                                =~= out@.map_values(|s2: String| s2@) + rest);
                        },
                        Err(e) => {},
                    }
                }
            },
            Err(e) => {
                proof {
                    assert(decode_string_array(data@, hash, pre_off, size as int) == Err::<
                        Seq<Seq<char>>,
                        Error,
                    >(Error::Malformed));
                }
                return Err(e);
            },
        }
    }
}


/// The payload words of a boolean array value.
pub fn bool_words(v: &Vec<bool>) -> (w: Vec<u32>)
    ensures
        w@ == words_of_bools(v@),
{
    let n = v.len();
    let mut w: Vec<u32> = Vec::new();
    let mut i: usize = 0;
    while i < n
        invariant
            i <= n,
            n == v@.len(),
            w@.len() == i,
            forall|j: int|
                0 <= j < i ==> w@[j] == (if v@[j] {
                    1u32
                } else {
                    0u32
                }),
        decreases n - i,
    {
        let x = v[i];
        w.push(if x { 1 } else { 0 });
        i += 1;
    }
    proof {
        assert(w@ =~= words_of_bools(v@));
    }
    w
}

/// The payload words of a signed-integer array value.
pub fn s32_words(v: &Vec<i32>) -> (w: Vec<u32>)
    ensures
        w@ == words_of_s32s(v@),
{
    let n = v.len();
    let mut w: Vec<u32> = Vec::new();
    let mut i: usize = 0;
    while i < n
        invariant
            i <= n,
            n == v@.len(),
            w@.len() == i,
            forall|j: int| 0 <= j < i ==> w@[j] == as_unsigned(v@[j]),
        decreases n - i,
    {
        let x = v[i];
        w.push(crate::bytes::to_bits(x));
        i += 1;
    }
    proof {
        assert(w@ =~= words_of_s32s(v@));
    }
    w
}

/// The flat payload words of a pair-array value.
pub fn flatten2_exec(ps: &Vec<(u32, u32)>) -> (w: Vec<u32>)
    ensures
        w@ == flatten2(ps@),
{
    let n = ps.len();
    let mut w: Vec<u32> = Vec::new();
    let mut i: usize = 0;
    while i < n
        invariant
            i <= n,
            n == ps@.len(),
            w@.len() == 2 * i,
            forall|j: int| 0 <= j < i ==> w@[2 * j] == ps@[j].0 && w@[2 * j + 1] == ps@[j].1,
        decreases n - i,
    {
        let pair = ps[i];
        w.push(pair.0);
        w.push(pair.1);
        i += 1;
    }
    proof {
        assert forall|m: int| 0 <= m < 2 * n implies w@[m] == flatten2(ps@)[m] by {
            vstd::arithmetic::div_mod::lemma_fundamental_div_mod(m, 2);
        }
        assert(w@ =~= flatten2(ps@));
    }
    w
}

/// The flat payload words of a triple-array value.
pub fn flatten3_exec(ps: &Vec<(u32, u32, u32)>) -> (w: Vec<u32>)
    ensures
        w@ == flatten3(ps@),
{
    let n = ps.len();
    let mut w: Vec<u32> = Vec::new();
    let mut i: usize = 0;
    while i < n
        invariant
            i <= n,
            n == ps@.len(),
            w@.len() == 3 * i,
            forall|j: int|
                0 <= j < i ==> w@[3 * j] == ps@[j].0 && w@[3 * j + 1] == ps@[j].1 && w@[3 * j
                    + 2] == ps@[j].2,
        decreases n - i,
    {
        let triple = ps[i];
        w.push(triple.0);
        w.push(triple.1);
        w.push(triple.2);
        i += 1;
    }
    proof {
        assert forall|m: int| 0 <= m < 3 * n implies w@[m] == flatten3(ps@)[m] by {
            vstd::arithmetic::div_mod::lemma_fundamental_div_mod(m, 3);
        }
        assert(w@ =~= flatten3(ps@));
    }
    w
}

} // verus!
