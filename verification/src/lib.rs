//! Codec for a flat save-file byte buffer made of named, typed fields.
//!
//! The buffer starts with a 12-byte header and continues as a stream of
//! 8-byte records, each a 4-byte key checksum followed by a 4-byte payload
//! word, both little-endian.  Fields are addressed by the checksum of their
//! name; array and string fields span a maximal run of consecutive records
//! sharing one checksum, whose length is never stored and is inferred by
//! scanning.  The library decodes runs into typed values, validates and
//! writes typed values back in place without moving a byte, and keeps the
//! buffer byte-identical everywhere it did not deliberately write.

pub mod bytes;
pub mod checksum;
pub mod codec;
pub mod kind;
pub mod laws;
pub mod schema;
pub mod runs;
pub mod save;
pub mod value;
pub mod weather;

pub use checksum::get_hash;
pub use save::SaveData;
