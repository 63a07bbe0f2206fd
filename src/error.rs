use vstd::prelude::*;

verus! {

/// Why a value could not be decoded or encoded.
#[derive(Clone, Copy, Debug, PartialEq, Eq, Structural)]
pub enum CodecError {
    /// Fewer bytes are left than a field needs.
    TruncatedInput,
    /// A run of bytes is not text in the table's encoding.
    InvalidText,
    /// A control sequence's main type is not one of 0, 1, 2, 3, 4, 5 and 201.
    UnknownMainType { marker: u16 },
    /// A subtype marker is outside its main type's set.
    UnknownSubtype { main: u16, marker: u16 },
    /// A record's declared length disagrees with the bytes it holds.
    InconsistentLength,
    /// A field is too long for its 16-bit length prefix.
    FieldTooLong,
}

/// The extent of a record read after a 16-bit marker, counting the marker.
pub open spec fn after_u16(r: Result<nat, CodecError>) -> Result<nat, CodecError> {
    match r {
        Ok(n) => Ok(n + 2),
        Err(e) => Err(e),
    }
}

} // verus!
