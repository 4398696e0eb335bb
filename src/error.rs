//! Why a palette could not be produced.
use vstd::prelude::*;

verus! {

/// The reasons for which no palette is produced.
#[derive(Debug, Clone, Copy, PartialEq, Eq, Structural)]
pub enum ColorError {
    /// The requested palette size is zero or negative.
    InvalidParameter,
    /// The image's geometry cannot be read, or does not fit its byte region.
    UnreadablePixelSource,
    /// The pixels are not 8-bit RGBA.
    UnsupportedFormat,
    /// The pixels could not be acquired for reading.
    LockFailure,
    /// A result entry could not be built for the caller.
    ResultConstructionFailure,
}

} // verus!
