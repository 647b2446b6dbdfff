//! Error values a decode can end with.
//!
//! Every failure is fatal to the decode in progress: QOI streams have no
//! resynchronization points, so nothing is retried and no partial pixel
//! buffer is handed out.

use vstd::prelude::*;

verus! {

/// The header field that failed validation.
#[derive(Clone, Copy, Debug, PartialEq, Eq, Structural)]
pub enum HeaderField {
    /// The 4-byte magic tag, which must spell `qoif`.
    Magic,
    /// The channel count, which must be 3 or 4.
    Channels,
    /// The colorspace flag, which must be 0 or 1.
    Colorspace,
}

/// Why a decode failed.
#[derive(Clone, Copy, Debug, PartialEq, Eq, Structural)]
pub enum DecodeError {
    /// Fewer than the 14 bytes a header needs were supplied.
    MalformedHeader,
    /// A header field holds a value outside its allowed set.
    InvalidHeaderField(HeaderField),
    /// A chunk declares more bytes than remain in the stream.
    TruncatedStream,
    /// The stream ended before the declared pixel count was reached.
    ///
    /// The opposite excess cannot arise: a run that would overshoot the
    /// declared count is truncated to the needed prefix, so a decode never
    /// produces more than `width * height` pixels.
    PixelCountShort,
}

} // verus!
