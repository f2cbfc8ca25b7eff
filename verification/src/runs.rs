//! The record stream of the save buffer and its run structure.
//!
//! After the 12-byte header the buffer is a stream of 8-byte records,
//! each a checksum word followed by a payload word.  A run is a maximal
//! sequence of consecutive records sharing one checksum; its length is
//! never stored and is always inferred by scanning forward.

use vstd::prelude::*;
use crate::bytes::le32_at;
use crate::bytes::read_u32;

verus! {

/// True when a checksum word can be read at byte offset `off`: past
/// the header, record-aligned, with at least the 4 checksum bytes
/// present.  The record's payload may still run past the buffer.
pub open spec fn has_key(b: Seq<u8>, off: int) -> bool {
    &&& 12 <= off
    &&& (off - 12) % 8 == 0
    &&& off + 4 <= b.len()
}

/// True when a complete 8-byte record starts at byte offset `off`:
/// past the header, record-aligned, with all 8 bytes present.
pub open spec fn is_rec(b: Seq<u8>, off: int) -> bool {
    &&& 12 <= off
    &&& (off - 12) % 8 == 0
    &&& off + 8 <= b.len()
}

/// The checksum word of the record at `off`.
pub open spec fn rec_key(b: Seq<u8>, off: int) -> u32 {
    le32_at(b, off)
}

/// The payload word of the record at `off`.
pub open spec fn rec_payload(b: Seq<u8>, off: int) -> u32 {
    le32_at(b, off + 4)
}

/// Whether checksum `h` can be read at `off`; the payload may be cut
/// short by the end of the buffer.
pub open spec fn key_matches(b: Seq<u8>, h: u32, off: int) -> bool {
    has_key(b, off) && rec_key(b, off) == h
}

/// Whether a complete record carrying checksum `h` stands at `off`.
pub open spec fn rec_matches(b: Seq<u8>, h: u32, off: int) -> bool {
    is_rec(b, off) && rec_key(b, off) == h
}

/// The offset of the first readable checksum equal to `h` at or after
/// `off`, scanning record by record.  A trailing fragment whose
/// checksum word is present counts, even when its payload is cut off.
pub open spec fn find_from(b: Seq<u8>, h: u32, off: int) -> Option<int>
    decreases b.len() - off + 8,
{
    if !has_key(b, off) {
        None
    } else if rec_key(b, off) == h {
        Some(off)
    } else {
        find_from(b, h, off + 8)
    }
}

/// The offset of the earliest occurrence of checksum `h` in the record
/// stream, if it occurs at all.
pub open spec fn first_off(b: Seq<u8>, h: u32) -> Option<int> {
    find_from(b, h, 12)
}

/// Length, in records, of the run of checksum `h` starting at `off`.
pub open spec fn run_len(b: Seq<u8>, h: u32, off: int) -> nat
    decreases b.len() - off,
{
    if !rec_matches(b, h, off) {
        0
    } else {
        1 + run_len(b, h, off + 8)
    }
}

/// The payload words of the run of checksum `h` at `off`, in order.
pub open spec fn run_payloads(b: Seq<u8>, h: u32, off: int) -> Seq<u32>
    decreases b.len() - off,
{
    if !rec_matches(b, h, off) {
        Seq::empty()
    } else {
        seq![rec_payload(b, off)] + run_payloads(b, h, off + 8)
    }
}

/// Sums of multiples of 8 are multiples of 8.
pub proof fn lemma_mod8_add(a: int, b: int)
    requires
        a % 8 == 0,
        b % 8 == 0,
    ensures
        (a + b) % 8 == 0,
{
    vstd::arithmetic::div_mod::lemma_add_mod_noop(a, b, 8);
}

/// Differences of multiples of 8 are multiples of 8.
pub proof fn lemma_mod8_sub(a: int, b: int)
    requires
        a % 8 == 0,
        b % 8 == 0,
    ensures
        (a - b) % 8 == 0,
{
    vstd::arithmetic::div_mod::lemma_sub_mod_noop(a, b, 8);
}

/// What `find_from` returns: the first aligned readable match, or
/// proof that no aligned readable checksum at or after `off` matches.
pub proof fn lemma_find_from(b: Seq<u8>, h: u32, off: int)
    requires
        12 <= off,
        (off - 12) % 8 == 0,
    ensures
        match find_from(b, h, off) {
            Some(o) => {
                &&& off <= o
                &&& key_matches(b, h, o)
                &&& (o - 12) % 8 == 0
                &&& forall|o2: int|
                    off <= o2 < o && (o2 - 12) % 8 == 0 ==> !key_matches(b, h, o2)
            },
            None => forall|o2: int| off <= o2 && (o2 - 12) % 8 == 0 ==> !key_matches(b, h, o2),
        },
    decreases b.len() - off + 8,
{
    if !has_key(b, off) {
        // No checksum is readable at `off`, so none is readable at any
        // later aligned offset either: the buffer ends first.
        assert forall|o2: int| off <= o2 && (o2 - 12) % 8 == 0 implies !key_matches(
            b,
            h,
            o2,
        ) by {
            if o2 + 4 <= b.len() {
                assert(off + 4 <= b.len());
            }
        }
    } else if rec_key(b, off) == h {
    } else {
        lemma_mod8_add(off - 12, 8);
        lemma_find_from(b, h, off + 8);
        match find_from(b, h, off + 8) {
            Some(o) => {
                assert forall|o2: int| off <= o2 < o && (o2 - 12) % 8 == 0 implies !key_matches(
                    b,
                    h,
                    o2,
                ) by {
                    if o2 < off + 8 {
                        lemma_mod8_sub(o2 - 12, off - 12);
                        assert(o2 == off);
                    }
                }
            },
            None => {
                assert forall|o2: int| off <= o2 && (o2 - 12) % 8 == 0 implies !key_matches(
                    b,
                    h,
                    o2,
                ) by {
                    if o2 < off + 8 {
                        lemma_mod8_sub(o2 - 12, off - 12);
                        assert(o2 == off);
                    }
                }
            },
        }
    }
}

/// Element-wise description of a run's payload words, and of where the
/// run ends.
pub proof fn lemma_run_payloads(b: Seq<u8>, h: u32, off: int)
    ensures
        run_payloads(b, h, off).len() == run_len(b, h, off),
        forall|i: int|
            0 <= i < run_len(b, h, off) ==> (#[trigger] run_payloads(b, h, off)[i] == rec_payload(
                b,
                off + 8 * i,
            ) && rec_matches(b, h, off + 8 * i)),
        !rec_matches(b, h, off + 8 * run_len(b, h, off)),
    decreases b.len() - off,
{
    if rec_matches(b, h, off) {
        lemma_run_payloads(b, h, off + 8);
        let n = run_len(b, h, off);
        assert forall|i: int| 0 <= i < n implies (#[trigger] run_payloads(b, h, off)[i]
            == rec_payload(b, off + 8 * i) && rec_matches(b, h, off + 8 * i)) by {
            if i > 0 {
                assert(run_payloads(b, h, off + 8)[i - 1] == rec_payload(b, off + 8 + 8 * (i - 1)));
                assert(rec_matches(b, h, off + 8 + 8 * (i - 1)));
                assert(off + 8 + 8 * (i - 1) == off + 8 * i);
            }
        }
        assert(off + 8 + 8 * (run_len(b, h, off + 8)) == off + 8 * n);
    }
}

/// True when the run of `h` at `off` ends against a matching trailing
/// fragment: the next checksum word still reads `h`, but its payload
/// runs past the buffer, so the run's contents cannot be decoded.
pub open spec fn run_blocked(b: Seq<u8>, h: u32, off: int) -> bool {
    let e = off + 8 * run_len(b, h, off);
    key_matches(b, h, e) && e + 8 > b.len()
}

/// Tests whether the run of `h` at `off` ends against a matching
/// trailing fragment.
pub fn run_blocked_at(data: &Vec<u8>, h: u32, off: usize) -> (r: bool)
    requires
        12 <= off <= data@.len(),
        (off - 12) % 8 == 0,
    ensures
        r == run_blocked(data@, h, off as int),
{
    let len = data.len();
    let n = run_len_at(data, h, off);
    proof {
        lemma_run_payloads(data@, h, off as int);
        if n > 0 {
            assert(run_payloads(data@, h, off as int)[n - 1] == rec_payload(
                data@,
                off + 8 * (n - 1),
            ));
            assert(rec_matches(data@, h, off + 8 * (n - 1)));
        }
        vstd::arithmetic::div_mod::lemma_mod_multiples_basic(n as int, 8);
        lemma_mod8_add(off - 12, 8 * (n as int));
    }
    let e = off + 8 * n;
    if e <= len - 4 && e > len - 8 {
        read_u32(data, e) == h
    } else {
        proof {
            assert(!(key_matches(data@, h, e as int) && e + 8 > data@.len()));
        }
        false
    }
}

/// Counts the records of the run of checksum `h` that starts at `off`.
pub fn run_len_at(data: &Vec<u8>, h: u32, off: usize) -> (n: usize)
    requires
        12 <= off <= data@.len(),
        (off - 12) % 8 == 0,
    ensures
        n == run_len(data@, h, off as int),
{
    let len = data.len();
    let mut cur = off;
    while cur <= len - 8 && read_u32(data, cur) == h
        invariant
            off <= cur <= len,
            len == data@.len(),
            12 <= off,
            (cur - 12) % 8 == 0,
            (cur - off) % 8 == 0,
            run_len(data@, h, off as int) == (cur - off) / 8 + run_len(data@, h, cur as int),
        decreases len - cur,
    {
        proof {
            assert(rec_matches(data@, h, cur as int));
            lemma_mod8_add(cur - 12, 8);
            lemma_mod8_add(cur - off, 8);
            let d = cur - off;
            vstd::arithmetic::div_mod::lemma_fundamental_div_mod(d, 8);
            vstd::arithmetic::div_mod::lemma_fundamental_div_mod_converse(d + 8, 8, d / 8 + 1, 0);
        }
        cur = cur + 8;
    }
    proof {
        assert(!rec_matches(data@, h, cur as int));
        assert(run_len(data@, h, cur as int) == 0);
    }
    (cur - off) / 8
}

} // verus!
