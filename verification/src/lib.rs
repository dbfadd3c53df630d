//! Decoder for a legacy indexed sprite archive and encoder for its bitmap
//! output: byte-level reading utilities, the two tile pixel formats, and the
//! raster serializer.

pub mod art;
pub mod byte_helpers;
pub mod error;

pub use error::ArtError;
