//! The injected catalog that maps each field checksum to its kind.

use vstd::prelude::*;
use std::collections::HashMap;
use crate::checksum::crc32_of;
use crate::checksum::get_hash;
use crate::kind::Kind;

verus! {

broadcast use vstd::std_specs::hash::group_hash_axioms;

/// The kind the catalog assigns to checksum `h`; a checksum the
/// catalog does not mention defaults to `Bool`.
pub open spec fn spec_kind_of(m: Map<u32, Kind>, h: u32) -> Kind {
    if m.contains_key(h) {
        m[h]
    } else {
        Kind::Bool
    }
}

/// An immutable, externally generated catalog of field kinds, keyed by
/// name checksum.  The catalog's contents are schema data: they are
/// injected by the caller and never derived from the buffer.
pub struct Schema {
    kinds: HashMap<u32, Kind>,
}

impl View for Schema {
    type V = Map<u32, Kind>;

    closed spec fn view(&self) -> Map<u32, Kind> {
        self.kinds@
    }
}

impl Schema {
    /// An empty catalog: every checksum decodes under the default kind.
    pub fn new() -> (r: Schema)
        ensures
            r@ == Map::<u32, Kind>::empty(),
    {
        Schema { kinds: HashMap::new() }
    }

    /// Records the kind of the field with checksum `hash`.
    pub fn insert(&mut self, hash: u32, kind: Kind)
        ensures
            final(self)@ == old(self)@.insert(hash, kind),
    {
        self.kinds.insert(hash, kind);
    }

    /// Records the kind of the named field, keyed by its checksum.
    pub fn insert_name(&mut self, name: &str, kind: Kind)
        ensures
            final(self)@ == old(self)@.insert(crc32_of(name@), kind),
    {
        let hash = get_hash(name);
        self.kinds.insert(hash, kind);
    }

    /// Looks a checksum up in the catalog.
    pub fn kind_of(&self, hash: u32) -> (r: Kind)
        ensures
            r == spec_kind_of(self@, hash),
    {
        match self.kinds.get(&hash) {
            Some(k) => *k,
            None => Kind::Bool,
        }
    }
}

} // verus!
