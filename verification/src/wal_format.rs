//! On-disk layout constants for the write-ahead log: 32 KiB blocks, 7-byte
//! physical-record headers, and the record-type tags.
use vstd::prelude::*;

verus! {

/// The log's fixed alignment unit.
pub const BLOCK_SIZE: usize = 32 * 1024;

/// checksum (4 bytes) + length (2 bytes) + type (1 byte).
pub const HEADER_SIZE: usize = 4 + 2 + 1;

/// Largest value a record-type byte may take.
pub const MAX_RECORD_TYPE: usize = 4;

/// Tag of a physical record. `Zero` is reserved for zero-filled trailer
/// regions; a logical record is either one `Full` record or a `First`,
/// zero or more `Middle`, and one `Last` record.
#[derive(Copy, Clone, PartialEq, Eq, Structural)]
pub enum RecordType {
    Zero,
    Full,
    First,
    Middle,
    Last,
}

pub open spec fn spec_type_tag(t: RecordType) -> u8 {
    match t {
        RecordType::Zero => 0,
        RecordType::Full => 1,
        RecordType::First => 2,
        RecordType::Middle => 3,
        RecordType::Last => 4,
    }
}

impl RecordType {
    /// The tag byte stored in a record header.
    pub fn as_u8(self) -> (r: u8)
        ensures
            r == spec_type_tag(self),
    {
        match self {
            RecordType::Zero => 0,
            RecordType::Full => 1,
            RecordType::First => 2,
            RecordType::Middle => 3,
            RecordType::Last => 4,
        }
    }
}

} // verus!
