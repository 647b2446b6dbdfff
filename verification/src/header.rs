//! Parsing and validation of the fixed 14-byte QOI header.
//!
//! The header precedes the chunk stream: a 4-byte magic tag, width and
//! height as big-endian `u32`s, a channel count and a colorspace flag.
//! Parsing only reads the bytes apart; validation then checks each field
//! against its allowed set, and decoding must not proceed past a header
//! that fails either step.

use vstd::prelude::*;

use crate::error::{DecodeError, HeaderField};

verus! {

/// The fixed 14-byte header that precedes every QOI chunk stream.
#[derive(Clone, Copy, Debug, PartialEq)]
pub struct Header {
    /// Magic tag; a valid header spells `qoif` in ASCII.
    pub magic: [u8; 4],
    /// Width in pixels, stored big-endian.
    pub width: u32,
    /// Height in pixels, stored big-endian.
    pub height: u32,
    /// Channel count: 3 = RGB, 4 = RGBA.
    pub channels: u8,
    /// Colorspace flag: 0 = sRGB with linear alpha, 1 = all channels linear.
    pub colorspace: u8,
}

/// The big-endian 32-bit value stored at offsets `i..i + 4` of `s`.
pub open spec fn be_u32_at(s: Seq<u8>, i: int) -> int {
    s[i] * 0x1000000 + s[i + 1] * 0x10000 + s[i + 2] * 0x100 + s[i + 3]
}

/// `m` spells the magic tag `qoif` in ASCII.
pub open spec fn magic_spells_qoif(m: Seq<u8>) -> bool {
    m.len() == 4 && m[0] == 0x71u8 && m[1] == 0x6fu8 && m[2] == 0x69u8 && m[3] == 0x66u8
}

/// `h` holds exactly the fields stored in the first 14 bytes of `s`.
pub open spec fn header_matches_bytes(h: Header, s: Seq<u8>) -> bool {
    &&& s.len() >= 14
    &&& h.magic@ == s.subrange(0, 4)
    &&& h.width == be_u32_at(s, 4)
    &&& h.height == be_u32_at(s, 8)
    &&& h.channels == s[12]
    &&& h.colorspace == s[13]
}

/// Every field of `h` lies in its allowed set.
pub open spec fn header_fields_valid(h: Header) -> bool {
    &&& magic_spells_qoif(h.magic@)
    &&& (h.channels == 3 || h.channels == 4)
    &&& (h.colorspace == 0 || h.colorspace == 1)
}

/// Reads the fields of a `Header` out of the first 14 bytes of `bytes`.
///
/// No field is checked here beyond the byte count; `validate_header` does
/// that separately.
pub fn parse_header(header: Vec<u8>) -> (result: Result<Header, DecodeError>)
    ensures
        header@.len() >= 14 ==> (result matches Ok(h) && header_matches_bytes(h, header@)),
        header@.len() < 14 ==> result == Err::<Header, DecodeError>(DecodeError::MalformedHeader),
{
    if header.len() < 14 {
        return Err(DecodeError::MalformedHeader);
    }
    let magic: [u8; 4] = [header[0], header[1], header[2], header[3]];
    let width: u32 = (header[4] as u32) * 0x1000000 + (header[5] as u32) * 0x10000
        + (header[6] as u32) * 0x100 + (header[7] as u32);
    let height: u32 = (header[8] as u32) * 0x1000000 + (header[9] as u32) * 0x10000
        + (header[10] as u32) * 0x100 + (header[11] as u32);
    let channels = header[12];
    let colorspace = header[13];
    let parsed = Header { magic, width, height, channels, colorspace };
    proof {
        assert(parsed.magic@ =~= header@.subrange(0, 4));
    }
    Ok(parsed)
}

/// Checks each header field against its allowed set: the magic tag must
/// spell `qoif`, the channel count must be 3 or 4, and the colorspace flag
/// must be 0 or 1. The first field found invalid, in that order, is the one
/// reported.
pub fn validate_header(header: Header) -> (result: Result<Header, DecodeError>)
    ensures
        header_fields_valid(header) ==> result == Ok::<Header, DecodeError>(header),
        !magic_spells_qoif(header.magic@) ==> result == Err::<Header, DecodeError>(
            DecodeError::InvalidHeaderField(HeaderField::Magic),
        ),
        magic_spells_qoif(header.magic@) && !(header.channels == 3 || header.channels == 4)
            ==> result == Err::<Header, DecodeError>(
            DecodeError::InvalidHeaderField(HeaderField::Channels),
        ),
        magic_spells_qoif(header.magic@) && (header.channels == 3 || header.channels == 4)
            && !(header.colorspace == 0 || header.colorspace == 1) ==> result == Err::<
            Header,
            DecodeError,
        >(DecodeError::InvalidHeaderField(HeaderField::Colorspace)),
{
    // "qoif" in ASCII
    if !(header.magic[0] == 0x71 && header.magic[1] == 0x6f && header.magic[2] == 0x69
        && header.magic[3] == 0x66) {
        return Err(DecodeError::InvalidHeaderField(HeaderField::Magic));
    }
    if !(header.channels == 3 || header.channels == 4) {
        return Err(DecodeError::InvalidHeaderField(HeaderField::Channels));
    }
    if !(header.colorspace == 0 || header.colorspace == 1) {
        return Err(DecodeError::InvalidHeaderField(HeaderField::Colorspace));
    }
    Ok(header)
}

} // verus!
