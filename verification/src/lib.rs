//! Decoder for the QOI ("Quite OK Image") binary image format.
//!
//! The decoder turns a QOI byte stream into a flat sequence of RGBA pixels:
//! a 14-byte header is parsed and validated first, and the remaining bytes
//! are consumed one chunk at a time while a previous-pixel register and a
//! 64-slot seen-pixel cache are threaded through the whole decode.

pub mod data;
pub mod error;
pub mod header;
