//! The save-data facade: owns the raw buffer and its offset index.

use vstd::prelude::*;
use std::collections::HashMap;
use crate::bytes::le32_at;
use crate::bytes::read_i32;
use crate::bytes::read_u32;
use crate::checksum::crc32_of;
use crate::checksum::get_hash;
use crate::codec::bool_words;
use crate::codec::decode_at;
use crate::codec::encode_words;
use crate::codec::flatten2_exec;
use crate::codec::flatten3_exec;
use crate::codec::group2_exec;
use crate::codec::lemma_splice_find_preserved;
use crate::codec::s32_words;
use crate::codec::set_spec;
use crate::codec::write_words;
use crate::codec::group3_exec;
use crate::codec::read_run_bools;
use crate::codec::read_run_s32s;
use crate::codec::read_run_words;
use crate::codec::read_string;
use crate::codec::read_string_array;
use crate::kind::Kind;
use crate::runs::find_from;
use crate::runs::first_off;
use crate::runs::has_key;
use crate::runs::key_matches;
use crate::runs::lemma_find_from;
use crate::runs::lemma_mod8_add;
use crate::runs::lemma_run_payloads;
use crate::runs::rec_matches;
use crate::runs::run_blocked_at;
use crate::runs::run_len;
use crate::runs::run_len_at;
use crate::runs::run_payloads;
use crate::schema::Schema;
use crate::schema::spec_kind_of;
use crate::value::Error;
use crate::value::FieldValue;

verus! {

broadcast use vstd::std_specs::hash::group_hash_axioms;

/// A loaded save buffer: the 12-byte header, the raw bytes, and the
/// offset index built once at load time.
#[derive(Debug)]
pub struct SaveData {
    version: u32,
    marker: u32,
    unknown: u32,
    off: HashMap<u32, usize>,
    keys: Vec<u32>,
    data: Vec<u8>,
}

impl SaveData {
    /// The raw bytes of the buffer, header included.
    pub closed spec fn bytes(&self) -> Seq<u8> {
        self.data@
    }

    /// The offset index: every checksum that occurs in the record
    /// stream, mapped to its earliest offset.
    pub closed spec fn index(&self) -> Map<u32, usize> {
        self.off@
    }

    /// The header's version word.
    pub closed spec fn spec_version(&self) -> u32 {
        self.version
    }

    /// The checksums that occur in the stream, in first-occurrence order.
    pub closed spec fn key_list(&self) -> Seq<u32> {
        self.keys@
    }

    /// Well-formedness: the header is present and the index is exactly
    /// the earliest-occurrence map of the record stream.
    pub open spec fn wf(&self) -> bool {
        &&& self.bytes().len() >= 12
        &&& forall|h: u32| #[trigger]
            self.index().contains_key(h) ==> first_off(self.bytes(), h) == Some(
                self.index()[h] as int,
            )
        &&& forall|h: u32| (#[trigger] first_off(self.bytes(), h)) is Some
            ==> self.index().contains_key(h)
        &&& self.key_list().no_duplicates()
        &&& forall|h: u32| #[trigger] self.key_list().contains(h) <==> self.index().contains_key(h)
    }

    /// Parses the header and builds the offset index.  Fails exactly
    /// when the buffer cannot hold the 12-byte header; everything after
    /// the header is indexed record by record, earliest occurrence
    /// winning.  A checksum readable in a trailing fragment is indexed
    /// too; only trailing bytes short of a checksum word are ignored.
    pub fn new(data: &[u8]) -> (r: Result<SaveData, Error>)
        ensures
            match r {
                Ok(s) => {
                    &&& data@.len() >= 12
                    &&& s.wf()
                    &&& s.bytes() == data@
                    &&& s.spec_version() == le32_at(data@, 0)
                },
                Err(e) => data@.len() < 12 && e == Error::Truncated,
            },
    {
        let buf: Vec<u8> = vstd::slice::slice_to_vec(data);
        let len = buf.len();
        if len < 12 {
            return Err(Error::Truncated);
        }
        let version = read_u32(&buf, 0);
        let marker = read_u32(&buf, 4);
        let unknown = read_u32(&buf, 8);
        let mut index: HashMap<u32, usize> = HashMap::new();
        let mut keys: Vec<u32> = Vec::new();
        let mut off: usize = 12;
        while off <= len - 4
            invariant
                12 <= off <= len + 4,
                len == buf@.len(),
                (off - 12) % 8 == 0,
                forall|h: u32| #[trigger]
                    index@.contains_key(h) ==> find_from(buf@, h, 12) == Some(index@[h] as int),
                forall|h: u32|
                    !index@.contains_key(h) ==> find_from(buf@, h, 12) == #[trigger] find_from(
                        buf@,
                        h,
                        off as int,
                    ),
                keys@.no_duplicates(),
                forall|h: u32| #[trigger] keys@.contains(h) <==> index@.contains_key(h),
            decreases len + 4 - off,
        {
            let id = read_u32(&buf, off);
            proof {
                assert(key_matches(buf@, id, off as int));
            }
            let ghost pre = index@;
            let ghost prekeys = keys@;
            if !index.contains_key(&id) {
                index.insert(id, off);
                keys.push(id);
                proof {
                    assert(find_from(buf@, id, off as int) == Some(off as int));
                    assert(!prekeys.contains(id));
                    assert forall|h: u32| #[trigger] keys@.contains(h) <==> index@.contains_key(
                        h,
                    ) by {
                        assert(keys@ == prekeys.push(id));
                        if h == id {
                            assert(keys@[keys@.len() - 1] == id);
                        } else {
                            assert(keys@.contains(h) ==> prekeys.contains(h)) by {
                                if keys@.contains(h) {
                                    let j = choose|j: int|
                                        0 <= j < keys@.len() && keys@[j] == h;
                                    assert(prekeys[j] == h);
                                }
                            }
                            assert(prekeys.contains(h) ==> keys@.contains(h)) by {
                                if prekeys.contains(h) {
                                    let j = choose|j: int|
                                        0 <= j < prekeys.len() && prekeys[j] == h;
                                    assert(keys@[j] == h);
                                }
                            }
                        }
                    }
                }
            }
            proof {
                lemma_mod8_add(off - 12, 8);
                assert forall|h: u32| #[trigger] index@.contains_key(h) implies find_from(
                    buf@,
                    h,
                    12,
                ) == Some(index@[h] as int) by {
                    if !pre.contains_key(h) {
                        assert(h == id);
                    }
                }
                assert forall|h: u32| !index@.contains_key(h) implies find_from(buf@, h, 12)
                    == #[trigger] find_from(buf@, h, off + 8) by {
                    assert(!pre.contains_key(h));
                    assert(h != id);
                    assert(find_from(buf@, h, off as int) == find_from(buf@, h, off + 8));
                }
            }
            off = off + 8;
        }
        proof {
            assert forall|h: u32| !index@.contains_key(h) implies (#[trigger] first_off(
                buf@,
                h,
            )) is None by {
                assert(!has_key(buf@, off as int));
                assert(find_from(buf@, h, off as int) is None);
            }
        }
        Ok(SaveData { version, marker, unknown, off: index, keys, data: buf })
    }

    /// The buffer's total length in bytes; never changed by a write.
    pub fn size(&self) -> (n: usize)
        ensures
            n == self.bytes().len(),
    {
        self.data.len()
    }

    /// The buffer serialized verbatim: byte-identical to what was
    /// loaded, except for fields deliberately overwritten in place.
    pub fn data(&self) -> (r: &Vec<u8>)
        ensures
            r@ == self.bytes(),
    {
        &self.data
    }

    /// Looks a field up by name: the name's checksum is resolved, the
    /// catalog supplies the kind, and the field's run is decoded.
    pub fn get(&self, schema: &Schema, key: &str) -> (r: Result<FieldValue, Error>)
        requires
            self.wf(),
        ensures
            !self.index().contains_key(crc32_of(key@)) ==> r == Err::<FieldValue, Error>(
                Error::NotFound,
            ),
            self.index().contains_key(crc32_of(key@)) ==> {
                let d = decode_at(
                    self.bytes(),
                    crc32_of(key@),
                    self.index()[crc32_of(key@)] as int,
                    spec_kind_of(schema@, crc32_of(key@)),
                );
                match r {
                    Ok(v) => d is Ok && v@ == d->Ok_0,
                    Err(e) => d is Err && e == d->Err_0,
                }
            },
    {
        let hash = get_hash(key);
        self.get_by_hash(schema, hash)
    }

    /// Looks a field up by its checksum, resolves its kind through the
    /// catalog, and decodes its run into a typed value.
    pub fn get_by_hash(&self, schema: &Schema, hash: u32) -> (r: Result<FieldValue, Error>)
        requires
            self.wf(),
        ensures
            !self.index().contains_key(hash) ==> r == Err::<FieldValue, Error>(Error::NotFound),
            self.index().contains_key(hash) ==> {
                let d = decode_at(
                    self.bytes(),
                    hash,
                    self.index()[hash] as int,
                    spec_kind_of(schema@, hash),
                );
                match r {
                    Ok(v) => d is Ok && v@ == d->Ok_0,
                    Err(e) => d is Err && e == d->Err_0,
                }
            },
    {
        let off = match self.off.get(&hash) {
            Some(o) => *o,
            None => {
                return Err(Error::NotFound);
            },
        };
        proof {
            lemma_find_from(self.bytes(), hash, 12);
            assert(key_matches(self.bytes(), hash, off as int));
        }
        let len = self.data.len();
        assert(off + 4 <= len);
        assert(len >= 12);
        let kind = schema.kind_of(hash);
        match kind {
            Kind::Bool => {
                if off > len - 8 {
                    return Err(Error::Malformed);
                }
                let p = read_u32(&self.data, off + 4);
                Ok(FieldValue::Bool(p != 0))
            },
            Kind::F32 => {
                if off > len - 8 {
                    return Err(Error::Malformed);
                }
                Ok(FieldValue::F32(read_u32(&self.data, off + 4)))
            },
            Kind::S32 => {
                if off > len - 8 {
                    return Err(Error::Malformed);
                }
                Ok(FieldValue::S32(read_i32(&self.data, off + 4)))
            },
            Kind::BoolArray => {
                if run_blocked_at(&self.data, hash, off) {
                    return Err(Error::Malformed);
                }
                Ok(FieldValue::BoolArray(read_run_bools(&self.data, hash, off)))
            },
            Kind::S32Array => {
                if run_blocked_at(&self.data, hash, off) {
                    return Err(Error::Malformed);
                }
                Ok(FieldValue::S32Array(read_run_s32s(&self.data, hash, off)))
            },
            Kind::F32Array | Kind::Vec2f | Kind::Vec3f | Kind::Vec4f => {
                if run_blocked_at(&self.data, hash, off) {
                    return Err(Error::Malformed);
                }
                Ok(FieldValue::F32Array(read_run_words(&self.data, hash, off)))
            },
            Kind::Vec2fArray => {
                if run_blocked_at(&self.data, hash, off) {
                    return Err(Error::Malformed);
                }
                let w = read_run_words(&self.data, hash, off);
                Ok(FieldValue::Vec2fArray(group2_exec(&w)))
            },
            Kind::Vec3fArray => {
                if run_blocked_at(&self.data, hash, off) {
                    return Err(Error::Malformed);
                }
                let w = read_run_words(&self.data, hash, off);
                Ok(FieldValue::Vec3fArray(group3_exec(&w)))
            },
            Kind::Str | Kind::Str64 | Kind::Str256 => {
                let size: usize = match kind {
                    Kind::Str => 32,
                    Kind::Str64 => 64,
                    _ => 256,
                };
                let mut soff = off;
                match read_string(&self.data, &mut soff, hash, size) {
                    Ok(Some(s)) => Ok(FieldValue::Str(s)),
                    Ok(None) => {
                        proof {
                            assert(false);
                        }
                        Err(Error::Malformed)
                    },
                    Err(e) => Err(e),
                }
            },
            Kind::Str64Array | Kind::Str256Array => {
                let size: usize = match kind {
                    Kind::Str64Array => 64,
                    _ => 256,
                };
                match read_string_array(&self.data, hash, off, size) {
                    Ok(v) => Ok(FieldValue::StrArray(v)),
                    Err(e) => Err(e),
                }
            },
            Kind::Unknown => Ok(FieldValue::Absent),
        }
    }

    /// Writes a field by name: the name's checksum is resolved, the
    /// value is validated against the catalog's kind and the run's
    /// inferred length, and on success exactly the run's payload slots
    /// are overwritten in place.  On any error the buffer is untouched.
    pub fn set(&mut self, schema: &Schema, key: &str, value: &FieldValue) -> (r: Result<(), Error>)
        requires
            old(self).wf(),
        ensures
            final(self).wf(),
            final(self).index() == old(self).index(),
            final(self).key_list() == old(self).key_list(),
            final(self).spec_version() == old(self).spec_version(),
            !old(self).index().contains_key(crc32_of(key@)) ==> r == Err::<(), Error>(
                Error::NotFound,
            ) && final(self).bytes() == old(self).bytes(),
            old(self).index().contains_key(crc32_of(key@)) ==> {
                let d = set_spec(
                    old(self).bytes(),
                    crc32_of(key@),
                    old(self).index()[crc32_of(key@)] as int,
                    spec_kind_of(schema@, crc32_of(key@)),
                    value@,
                );
                match r {
                    Ok(_) => d is Ok && final(self).bytes() == d->Ok_0,
                    Err(e) => d == Err::<Seq<u8>, Error>(e) && final(self).bytes() == old(
                        self,
                    ).bytes(),
                }
            },
    {
        let hash = get_hash(key);
        self.set_by_hash(schema, hash, value)
    }

    /// Writes a field by its checksum: all-or-nothing validation, then
    /// an in-place overwrite of the run's payload slots alone.
    pub fn set_by_hash(&mut self, schema: &Schema, hash: u32, value: &FieldValue) -> (r: Result<
        (),
        Error,
    >)
        requires
            old(self).wf(),
        ensures
            final(self).wf(),
            final(self).index() == old(self).index(),
            final(self).key_list() == old(self).key_list(),
            final(self).spec_version() == old(self).spec_version(),
            !old(self).index().contains_key(hash) ==> r == Err::<(), Error>(Error::NotFound)
                && final(self).bytes() == old(self).bytes(),
            old(self).index().contains_key(hash) ==> {
                let d = set_spec(
                    old(self).bytes(),
                    hash,
                    old(self).index()[hash] as int,
                    spec_kind_of(schema@, hash),
                    value@,
                );
                match r {
                    Ok(_) => d is Ok && final(self).bytes() == d->Ok_0,
                    Err(e) => d == Err::<Seq<u8>, Error>(e) && final(self).bytes() == old(
                        self,
                    ).bytes(),
                }
            },
    {
        let off = match self.off.get(&hash) {
            Some(o) => *o,
            None => {
                return Err(Error::NotFound);
            },
        };
        proof {
            lemma_find_from(self.bytes(), hash, 12);
            assert(key_matches(self.bytes(), hash, off as int));
        }
        let len = self.data.len();
        assert(off + 4 <= len);
        assert(len >= 12);
        let kind = schema.kind_of(hash);
        if matches!(
            kind,
            Kind::Str | Kind::Str256 | Kind::Str256Array | Kind::Str64 | Kind::Str64Array
        ) {
            return Err(Error::UnsupportedOperation);
        }
        if matches!(kind, Kind::Unknown) {
            return Err(Error::TypeMismatch);
        }
        let words: Vec<u32> = match (kind, value) {
            (Kind::Bool, FieldValue::Bool(x)) => {
                let mut w: Vec<u32> = Vec::new();
                w.push(if *x { 1 } else { 0 });
                w
            },
            (Kind::S32, FieldValue::S32(x)) => {
                let mut w: Vec<u32> = Vec::new();
                w.push(crate::bytes::to_bits(*x));
                w
            },
            (Kind::F32, FieldValue::F32(x)) => {
                let mut w: Vec<u32> = Vec::new();
                w.push(*x);
                w
            },
            (Kind::BoolArray, FieldValue::BoolArray(v)) => bool_words(v),
            (Kind::S32Array, FieldValue::S32Array(v)) => s32_words(v),
            (Kind::F32Array, FieldValue::F32Array(v)) => {
                let mut w: Vec<u32> = Vec::new();
                let mut i: usize = 0;
                let n = v.len();
                while i < n
                    invariant
                        i <= n,
                        n == v@.len(),
                        w@ == v@.subrange(0, i as int),
                    decreases n - i,
                {
                    w.push(v[i]);
                    proof {
                        assert(w@ =~= v@.subrange(0, i + 1));
                    }
                    i += 1;
                }
                proof {
                    assert(w@ =~= v@);
                }
                w
            },
            (Kind::Vec2f, FieldValue::F32Array(v))
            | (Kind::Vec3f, FieldValue::F32Array(v))
            | (Kind::Vec4f, FieldValue::F32Array(v)) => {
                let mut w: Vec<u32> = Vec::new();
                let mut i: usize = 0;
                let n = v.len();
                while i < n
                    invariant
                        i <= n,
                        n == v@.len(),
                        w@ == v@.subrange(0, i as int),
                    decreases n - i,
                {
                    w.push(v[i]);
                    proof {
                        assert(w@ =~= v@.subrange(0, i + 1));
                    }
                    i += 1;
                }
                proof {
                    assert(w@ =~= v@);
                }
                w
            },
            (Kind::Vec2fArray, FieldValue::Vec2fArray(ps)) => flatten2_exec(ps),
            (Kind::Vec3fArray, FieldValue::Vec3fArray(ps)) => flatten3_exec(ps),
            _ => {
                return Err(Error::TypeMismatch);
            },
        };
        proof {
            assert(encode_words(spec_kind_of(schema@, hash), value@) == Some(words@));
        }
        if matches!(kind, Kind::Vec2f) && words.len() != 2 {
            return Err(Error::LengthMismatch);
        }
        if matches!(kind, Kind::Vec3f) && words.len() != 3 {
            return Err(Error::LengthMismatch);
        }
        if matches!(kind, Kind::Vec4f) && words.len() != 4 {
            return Err(Error::LengthMismatch);
        }
        let scalar = matches!(kind, Kind::Bool | Kind::S32 | Kind::F32);
        if scalar {
            if off > len - 8 {
                return Err(Error::Malformed);
            }
        } else {
            if run_blocked_at(&self.data, hash, off) {
                return Err(Error::Malformed);
            }
            let n = run_len_at(&self.data, hash, off);
            if words.len() != n {
                return Err(Error::LengthMismatch);
            }
        }
        proof {
            let b = self.bytes();
            let n = run_len(b, hash, off as int);
            lemma_run_payloads(b, hash, off as int);
            if n > 0 {
                assert(run_payloads(b, hash, off as int)[n - 1] == crate::runs::rec_payload(
                    b,
                    off + 8 * (n - 1),
                ));
                assert(rec_matches(b, hash, off + 8 * (n - 1)));
                assert(off + 8 * n <= b.len());
            }
            assert(off + 8 * words@.len() <= b.len());
        }
        write_words(&mut self.data, off, &words);
        proof {
            let b0 = old(self).bytes();
            let ws = words@;
            assert forall|h2: u32| #[trigger]
                first_off(self.bytes(), h2) == first_off(b0, h2) by {
                lemma_splice_find_preserved(b0, off as int, ws, h2, 12);
            }
        }
        Ok(())
    }

    /// Every checksum that occurs in the record stream, in order of
    /// first occurrence.
    pub fn hashes(&self) -> (r: Vec<u32>)
        requires
            self.wf(),
        ensures
            r@ == self.key_list(),
            r@.no_duplicates(),
            forall|h: u32| #[trigger] r@.contains(h) <==> self.index().contains_key(h),
    {
        let n = self.keys.len();
        let mut v: Vec<u32> = Vec::new();
        let mut i: usize = 0;
        while i < n
            invariant
                i <= n,
                n == self.keys@.len(),
                v@ == self.keys@.subrange(0, i as int),
            decreases n - i,
        {
            v.push(self.keys[i]);
            proof {
                assert(v@ =~= self.keys@.subrange(0, i + 1));
            }
            i += 1;
        }
        proof {
            assert(v@ =~= self.keys@);
        }
        v
    }
}

} // verus!
