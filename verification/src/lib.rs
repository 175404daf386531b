//! Verified byte-level core of the font discovery adapter: reading big-endian
//! integers, the sfnt whole-font checksum, extracting a standalone face from a
//! TrueType collection, and the decisions taken while resolving a family.

pub mod bytes;
pub mod checksum;
pub mod sfnt;
pub mod collection;
pub mod family;
pub mod resolve;
pub mod face;
pub mod layout;
