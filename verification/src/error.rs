use vstd::prelude::*;

verus! {

/// Everything that can go wrong while reading record bytes or decoding a
/// tile. Each failure is scoped to the single record being decoded.
#[derive(Clone, Copy, Debug, PartialEq, Eq, Structural)]
pub enum ArtError {
    /// A read or seek past the end of a record's byte sequence.
    OutOfBounds,
    /// A map-tile record whose payload is not the fixed expected size.
    WrongRecordSize,
    /// A static tile declaring a zero or out-of-range width or height.
    InvalidDimensions,
    /// A static tile whose run data would overflow its declared row width.
    CorruptRunTable,
}

} // verus!
