//! The codec's governing properties, stated and proved once over the
//! specification functions that the public contracts use.

use vstd::prelude::*;
use crate::codec::bools_of;
use crate::codec::decode_at;
use crate::codec::encode_words;
use crate::codec::flatten2;
use crate::codec::flatten3;
use crate::codec::group2;
use crate::codec::group3;
use crate::codec::is_scalar_kind;
use crate::codec::lemma_splice_find_preserved;
use crate::codec::lemma_splice_other_decode;
use crate::codec::lemma_splice_payload_at;
use crate::codec::lemma_splice_runs_preserved;
use crate::codec::s32s_of;
use crate::codec::set_spec;
use crate::codec::splice_run;
use crate::codec::vec_components;
use crate::codec::words_of_bools;
use crate::codec::words_of_s32s;
use crate::kind::Kind;
use crate::kind::is_string_kind;
use crate::runs::first_off;
use crate::runs::key_matches;
use crate::runs::lemma_run_payloads;
use crate::runs::rec_matches;
use crate::runs::rec_payload;
use crate::runs::run_blocked;
use crate::runs::run_len;
use crate::runs::run_payloads;
use crate::value::Error;
use crate::value::Val;

verus! {

/// A successful write encodes to exactly as many payload words as the
/// run holds records, and they all lie inside the buffer.
proof fn lemma_set_ok_bounds(b: Seq<u8>, h: u32, off: int, kind: Kind, v: Val)
    requires
        rec_matches(b, h, off),
        set_spec(b, h, off, kind, v) is Ok,
    ensures
        encode_words(kind, v) is Some,
        encode_words(kind, v)->Some_0.len() <= run_len(b, h, off),
        off + 8 * encode_words(kind, v)->Some_0.len() <= b.len(),
        set_spec(b, h, off, kind, v)->Ok_0 == splice_run(b, off, encode_words(kind, v)->Some_0),
{
    let ws = encode_words(kind, v)->Some_0;
    let n = run_len(b, h, off);
    lemma_run_payloads(b, h, off);
    assert(n >= 1);
    assert(off + 8 * n <= b.len()) by {
        assert(run_payloads(b, h, off)[n - 1] == rec_payload(b, off + 8 * (n - 1)));
        assert(rec_matches(b, h, off + 8 * (n - 1)));
    }
    if is_scalar_kind(kind) {
        assert(ws.len() == 1);
    }
}

/// Write-then-read: a value accepted by a write is read back exactly,
/// under the same kind, from the buffer the write produced.
pub proof fn lemma_write_then_read(b: Seq<u8>, h: u32, off: int, kind: Kind, v: Val)
    requires
        12 <= off,
        (off - 12) % 8 == 0,
        rec_matches(b, h, off),
        set_spec(b, h, off, kind, v) is Ok,
    ensures
        decode_at(set_spec(b, h, off, kind, v)->Ok_0, h, off, kind) == Ok::<Val, Error>(v),
{
    let ws = encode_words(kind, v)->Some_0;
    lemma_set_ok_bounds(b, h, off, kind, v);
    let s = splice_run(b, off, ws);
    lemma_splice_runs_preserved(b, off, ws, h, off);
    lemma_run_payloads(b, h, off);
    lemma_run_payloads(s, h, off);
    if is_scalar_kind(kind) {
        lemma_splice_payload_at(b, off, ws, 0);
        assert(rec_payload(s, off) == ws[0]);
    } else {
        let n = ws.len() as int;
        assert(run_len(s, h, off) == n);
        assert forall|k: int| 0 <= k < n implies run_payloads(s, h, off)[k] == ws[k] by {
            lemma_splice_payload_at(b, off, ws, k);
        }
        assert(run_payloads(s, h, off) =~= ws);
        match (kind, v) {
            (Kind::BoolArray, Val::BoolArray(bs)) => {
                assert(ws == words_of_bools(bs));
                assert(bools_of(ws) =~= bs);
            },
            (Kind::S32Array, Val::S32Array(xs)) => {
                assert(ws == words_of_s32s(xs));
                assert(s32s_of(ws) =~= xs);
            },
            (Kind::Vec2fArray, Val::Vec2fArray(ps)) => {
                assert(ws == flatten2(ps));
                assert(group2(ws) =~= ps) by {
                    vstd::arithmetic::div_mod::lemma_fundamental_div_mod_converse(
                        2 * (ps.len() as int),
                        2,
                        ps.len() as int,
                        0,
                    );
                    assert forall|i: int| 0 <= i < ps.len() implies group2(ws)[i] == ps[i] by {
                        vstd::arithmetic::div_mod::lemma_fundamental_div_mod_converse(
                            2 * i,
                            2,
                            i,
                            0,
                        );
                        vstd::arithmetic::div_mod::lemma_fundamental_div_mod_converse(
                            2 * i + 1,
                            2,
                            i,
                            1,
                        );
                    }
                }
            },
            (Kind::Vec3fArray, Val::Vec3fArray(ps)) => {
                assert(ws == flatten3(ps));
                assert(group3(ws) =~= ps) by {
                    vstd::arithmetic::div_mod::lemma_fundamental_div_mod_converse(
                        3 * (ps.len() as int),
                        3,
                        ps.len() as int,
                        0,
                    );
                    assert forall|i: int| 0 <= i < ps.len() implies group3(ws)[i] == ps[i] by {
                        vstd::arithmetic::div_mod::lemma_fundamental_div_mod_converse(
                            3 * i,
                            3,
                            i,
                            0,
                        );
                        vstd::arithmetic::div_mod::lemma_fundamental_div_mod_converse(
                            3 * i + 1,
                            3,
                            i,
                            1,
                        );
                        vstd::arithmetic::div_mod::lemma_fundamental_div_mod_converse(
                            3 * i + 2,
                            3,
                            i,
                            2,
                        );
                    }
                }
            },
            _ => {},
        }
    }
}

/// Frame rule: a successful write to one field leaves every other
/// field's decoded value, and every field's indexed offset, unchanged.
pub proof fn lemma_set_frames_others(
    b: Seq<u8>,
    h: u32,
    off: int,
    kind: Kind,
    v: Val,
    h2: u32,
    off2: int,
    kind2: Kind,
)
    requires
        12 <= off,
        (off - 12) % 8 == 0,
        rec_matches(b, h, off),
        set_spec(b, h, off, kind, v) is Ok,
        h2 != h,
        12 <= off2,
        (off2 - 12) % 8 == 0,
        key_matches(b, h2, off2),
    ensures
        decode_at(set_spec(b, h, off, kind, v)->Ok_0, h2, off2, kind2) == decode_at(
            b,
            h2,
            off2,
            kind2,
        ),
        first_off(set_spec(b, h, off, kind, v)->Ok_0, h2) == first_off(b, h2),
{
    let ws = encode_words(kind, v)->Some_0;
    lemma_set_ok_bounds(b, h, off, kind, v);
    lemma_splice_other_decode(b, h, off, ws, h2, off2, kind2);
    lemma_splice_find_preserved(b, off, ws, h2, 12);
}

/// Writing any string or string-array kind is rejected as unsupported,
/// whatever the value; the buffer is untouched.
pub proof fn lemma_string_write_rejected(b: Seq<u8>, h: u32, off: int, kind: Kind, v: Val)
    requires
        is_string_kind(kind),
    ensures
        set_spec(b, h, off, kind, v) == Err::<Seq<u8>, Error>(Error::UnsupportedOperation),
{
}

/// Writing an array or vector field with the wrong element count is
/// rejected as a length mismatch; the buffer is untouched.
pub proof fn lemma_length_enforced(b: Seq<u8>, h: u32, off: int, kind: Kind, v: Val)
    requires
        !is_string_kind(kind),
        kind != Kind::Unknown,
        !is_scalar_kind(kind),
        !run_blocked(b, h, off),
        encode_words(kind, v) is Some,
        vec_components(kind) is Some ==> encode_words(kind, v)->Some_0.len() == vec_components(
            kind,
        )->Some_0,
        encode_words(kind, v)->Some_0.len() != run_len(b, h, off),
    ensures
        set_spec(b, h, off, kind, v) == Err::<Seq<u8>, Error>(Error::LengthMismatch),
{
}

/// Vector grouping: a flat float run decoded under the two-component
/// vector-array kind yields the consecutive pairs of the flat sequence,
/// in order, a remainder short of a pair dropping.
pub proof fn lemma_vector_grouping(b: Seq<u8>, h: u32, off: int)
    requires
        !run_blocked(b, h, off),
    ensures
        ({
            let flat = run_payloads(b, h, off);
            let d = decode_at(b, h, off, Kind::Vec2fArray);
            &&& d is Ok
            &&& d->Ok_0 matches Val::Vec2fArray(ps) && ps.len() == flat.len() / 2 && (forall|
                i: int,
            |
                0 <= i < flat.len() / 2 ==> #[trigger] ps[i] == (flat[2 * i], flat[2 * i + 1]))
        }),
{
}

} // verus!
