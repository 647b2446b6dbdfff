//! The QOI chunk-stream decoder.
//!
//! After the header, a QOI stream is a sequence of chunks, each encoding
//! one pixel or a run of repeated pixels. Decoding is a single pass that
//! threads two pieces of state through the stream: the previously emitted
//! pixel and a 64-slot cache of recently seen pixels, indexed by a fixed
//! hash of a pixel's four channels. `decode_chunks` is the mathematical
//! description of that pass; `parse_data` is the executable decoder proved
//! against it.

use vstd::prelude::*;

use crate::error::DecodeError;
use crate::header::Header;

verus! {

/// One image pixel: four 8-bit channels. All per-channel arithmetic in the
/// format wraps modulo 256.
#[derive(Clone, Copy, Debug, PartialEq, Eq, Structural)]
pub struct Pixel {
    /// Red channel.
    pub r: u8,
    /// Green channel.
    pub g: u8,
    /// Blue channel.
    pub b: u8,
    /// Alpha channel.
    pub a: u8,
}

/// The six chunk encodings, told apart by the lead byte: the two full-byte
/// tags first, then the top two bits.
#[derive(Clone, Copy, Debug, PartialEq, Eq, Structural)]
pub enum ChunkTypes {
    /// Lead byte `0xFE`: red, green and blue follow in three bytes.
    QoiOpRgb,
    /// Lead byte `0xFF`: all four channels follow in four bytes.
    QoiOpRgba,
    /// Top bits `00`: the low six bits index the seen-pixel cache.
    QoiOpIndex,
    /// Top bits `01`: per-channel two-bit deltas against the previous pixel.
    QoiOpDiff,
    /// Top bits `10`: a six-bit green delta, with red and blue deltas
    /// relative to it in a second byte.
    QoiOpLuma,
    /// Top bits `11` (and neither full-byte tag): the low six bits give a
    /// repeat count for the previous pixel.
    QoiOpRun,
}

/// The pixel state every decode starts from: opaque black.
pub open spec fn qoi_initial_pixel() -> Pixel {
    Pixel { r: 0, g: 0, b: 0, a: 255 }
}

/// The seen-pixel cache every decode starts from: all 64 slots hold the
/// initial pixel.
pub open spec fn initial_cache() -> Seq<Pixel> {
    Seq::new(64, |i: int| qoi_initial_pixel())
}

/// The cache slot a pixel belongs in: a fixed hash of its four channels.
pub open spec fn pixel_hash(p: Pixel) -> int {
    (p.r * 3 + p.g * 5 + p.b * 7 + p.a * 11) % 64
}

/// The cache after a pixel is recorded: its hash slot is overwritten with
/// it. This happens after every chunk, whatever kind produced the pixel.
pub open spec fn cache_insert(seen: Seq<Pixel>, p: Pixel) -> Seq<Pixel> {
    seen.update(pixel_hash(p), p)
}

/// Eight-bit wraparound, for deltas whose sum leaves 0..=255 by less than
/// one full turn (arguments in -256..=511).
pub open spec fn wrap8(x: int) -> int {
    if x < 0 {
        x + 256
    } else if x > 255 {
        x - 256
    } else {
        x
    }
}

/// The pixel an RGB chunk produces: three explicit channels, alpha copied
/// from the previous pixel.
pub open spec fn rgb_pixel(r: u8, g: u8, b: u8, prev: Pixel) -> Pixel {
    Pixel { r, g, b, a: prev.a }
}

/// The pixel a DIFF chunk with lead byte `byte` produces: each channel
/// moves by its two-bit field biased by -2, wrapping, and alpha is kept.
pub open spec fn diff_pixel(byte: u8, prev: Pixel) -> Pixel {
    Pixel {
        r: wrap8(prev.r + ((byte >> 4) & 3) - 2) as u8,
        g: wrap8(prev.g + ((byte >> 2) & 3) - 2) as u8,
        b: wrap8(prev.b + (byte & 3) - 2) as u8,
        a: prev.a,
    }
}

/// The pixel a LUMA chunk with bytes `b0, b1` produces: a six-bit green
/// delta biased by -32, red and blue deltas offset from it by a nibble
/// biased by -8, all wrapping, and alpha kept.
pub open spec fn luma_pixel(b0: u8, b1: u8, prev: Pixel) -> Pixel {
    let dg = (b0 & 0x3f) - 32;
    Pixel {
        r: wrap8(prev.r + dg - 8 + ((b1 >> 4) & 0x0f)) as u8,
        g: wrap8(prev.g + dg) as u8,
        b: wrap8(prev.b + dg - 8 + (b1 & 0x0f)) as u8,
        a: prev.a,
    }
}

/// How many pixels a RUN chunk with lead byte `byte` stands for: the low
/// six bits plus one.
pub open spec fn run_len(byte: u8) -> int {
    (byte & 0x3f) + 1
}

/// The step shared by the five single-pixel chunk kinds once their pixel
/// `px` is known: `px` is appended to the output, becomes the previous
/// pixel, and is recorded in the cache; decoding then continues on `rest`.
#[verifier::opaque]
pub open spec fn decode_after_pixel(
    rest: Seq<u8>,
    px: Pixel,
    seen: Seq<Pixel>,
    need: nat,
) -> Result<Seq<Pixel>, DecodeError>
    decreases need, 0nat,
{
    if need == 0 {
        Ok(Seq::empty())
    } else {
        match decode_chunks(rest, px, cache_insert(seen, px), (need - 1) as nat) {
            Ok(tail) => Ok(seq![px] + tail),
            Err(e) => Err(e),
        }
    }
}

/// What decoding the chunk stream `data` yields, starting from previous
/// pixel `prev` and cache `seen`, until `need` more pixels are produced.
///
/// Dispatch follows the lead byte: the two full-byte tags first, then the
/// top two bits. A run longer than the pixels still needed is truncated to
/// the needed prefix, so success always yields exactly `need` pixels; a
/// stream that ends first yields `PixelCountShort`, and a chunk whose
/// trailing bytes are missing yields `TruncatedStream`. Bytes after the
/// final pixel (such as the format's end marker) are not read.
#[verifier::opaque]
pub open spec fn decode_chunks(
    data: Seq<u8>,
    prev: Pixel,
    seen: Seq<Pixel>,
    need: nat,
) -> Result<Seq<Pixel>, DecodeError>
    decreases need, 1nat,
{
    if need == 0 {
        Ok(Seq::empty())
    } else if data.len() == 0 {
        Err(DecodeError::PixelCountShort)
    } else {
        let byte = data[0];
        if byte == 0xfe {
            if data.len() < 4 {
                Err(DecodeError::TruncatedStream)
            } else {
                decode_after_pixel(data.skip(4), rgb_pixel(data[1], data[2], data[3], prev), seen, need)
            }
        } else if byte == 0xff {
            if data.len() < 5 {
                Err(DecodeError::TruncatedStream)
            } else {
                decode_after_pixel(
                    data.skip(5),
                    Pixel { r: data[1], g: data[2], b: data[3], a: data[4] },
                    seen,
                    need,
                )
            }
        } else if byte >> 6 == 0 {
            decode_after_pixel(data.skip(1), seen[byte as int], seen, need)
        } else if byte >> 6 == 1 {
            decode_after_pixel(data.skip(1), diff_pixel(byte, prev), seen, need)
        } else if byte >> 6 == 2 {
            if data.len() < 2 {
                Err(DecodeError::TruncatedStream)
            } else {
                decode_after_pixel(data.skip(2), luma_pixel(byte, data[1], prev), seen, need)
            }
        } else {
            let cnt = if run_len(byte) <= need {
                run_len(byte)
            } else {
                need as int
            };
            match decode_chunks(data.skip(1), prev, cache_insert(seen, prev), (need - cnt) as nat) {
                Ok(tail) => Ok(Seq::new(cnt as nat, |j: int| prev) + tail),
                Err(e) => Err(e),
            }
        }
    }
}

/// Tells the six chunk kinds apart by the lead byte: the two full-byte
/// tags are checked first, then the top two bits decide.
pub fn get_chunk_type(byte: u8) -> (result: ChunkTypes)
    ensures
        result == ChunkTypes::QoiOpRgb <==> byte == 0xfe,
        result == ChunkTypes::QoiOpRgba <==> byte == 0xff,
        result == ChunkTypes::QoiOpIndex <==> byte >> 6 == 0,
        result == ChunkTypes::QoiOpDiff <==> byte >> 6 == 1,
        result == ChunkTypes::QoiOpLuma <==> byte >> 6 == 2,
        result == ChunkTypes::QoiOpRun <==> (byte >> 6 == 3 && byte != 0xfe && byte != 0xff),
{
    proof {
        assert(byte == 0xfe ==> byte >> 6 == 3) by (bit_vector);
        assert(byte == 0xff ==> byte >> 6 == 3) by (bit_vector);
        assert(byte >> 6 == 0 || byte >> 6 == 1 || byte >> 6 == 2 || byte >> 6 == 3) by (bit_vector);
    }
    if byte == 0xfe {
        ChunkTypes::QoiOpRgb
    } else if byte == 0xff {
        ChunkTypes::QoiOpRgba
    } else {
        let top = byte >> 6;
        if top == 0 {
            ChunkTypes::QoiOpIndex
        } else if top == 1 {
            ChunkTypes::QoiOpDiff
        } else if top == 2 {
            ChunkTypes::QoiOpLuma
        } else {
            ChunkTypes::QoiOpRun
        }
    }
}

/// Decodes an RGB chunk: `data` is the whole four-byte chunk, lead byte
/// included. The three channels follow the tag; alpha is copied from the
/// previous pixel.
pub fn parse_qoi_op_rgb(data: Vec<u8>, previous: Pixel) -> (result: Pixel)
    requires
        data@.len() >= 4,
    ensures
        result == rgb_pixel(data@[1], data@[2], data@[3], previous),
{
    let r = data[1];
    let g = data[2];
    let b = data[3];
    Pixel { r, g, b, a: previous.a }
}

/// Decodes an RGBA chunk: `data` is the whole five-byte chunk, lead byte
/// included. All four channels follow the tag.
pub fn parse_qoi_op_rgba(data: Vec<u8>) -> (result: Pixel)
    requires
        data@.len() >= 5,
    ensures
        result == (Pixel { r: data@[1], g: data@[2], b: data@[3], a: data@[4] }),
{
    let r = data[1];
    let g = data[2];
    let b = data[3];
    let a = data[4];
    Pixel { r, g, b, a }
}

/// Decodes an INDEX chunk: the lead byte (top bits `00`, so below 64)
/// indexes the seen-pixel cache directly.
pub fn parse_qoi_op_index(data: u8, seen: Vec<Pixel>) -> (result: Pixel)
    requires
        data < 64,
        seen@.len() == 64,
    ensures
        result == seen@[data as int],
{
    seen[data as usize]
}

/// Decodes a DIFF chunk: bit fields [5:4], [3:2] and [1:0] of the lead
/// byte are per-channel deltas biased by -2, added to the previous pixel
/// with eight-bit wraparound. Alpha is unchanged.
pub fn parse_qoi_op_diff(data: u8, previous: Pixel) -> (result: Pixel)
    ensures
        result == diff_pixel(data, previous),
{
    let fr = (data >> 4) & 3;
    let fg = (data >> 2) & 3;
    let fb = data & 3;
    proof {
        assert(fr <= 3 && fg <= 3 && fb <= 3) by (bit_vector)
            requires
                fr == (data >> 4) & 3 && fg == (data >> 2) & 3 && fb == data & 3,
        ;
    }
    let r = previous.r.wrapping_add(fr).wrapping_sub(2);
    let g = previous.g.wrapping_add(fg).wrapping_sub(2);
    let b = previous.b.wrapping_add(fb).wrapping_sub(2);
    Pixel { r, g, b, a: previous.a }
}

/// Decodes a LUMA chunk: `data` is the whole two-byte chunk. The low six
/// bits of the first byte are a green delta biased by -32; the nibbles of
/// the second byte offset the red and blue deltas from it, biased by -8.
/// All three additions wrap; alpha is unchanged.
pub fn parse_qoi_op_luma(data: Vec<u8>, previous: Pixel) -> (result: Pixel)
    requires
        data@.len() >= 2,
    ensures
        result == luma_pixel(data@[0], data@[1], previous),
{
    let b0 = data[0];
    let b1 = data[1];
    let g6 = b0 & 0x3f;
    let hi = (b1 >> 4) & 0x0f;
    let lo = b1 & 0x0f;
    proof {
        assert(g6 <= 63 && hi <= 15 && lo <= 15) by (bit_vector)
            requires
                g6 == b0 & 0x3f && hi == (b1 >> 4) & 0x0f && lo == b1 & 0x0f,
        ;
    }
    let g = previous.g.wrapping_add(g6).wrapping_sub(32);
    let r = previous.r.wrapping_add(g6).wrapping_sub(40).wrapping_add(hi);
    let b = previous.b.wrapping_add(g6).wrapping_sub(40).wrapping_add(lo);
    Pixel { r, g, b, a: previous.a }
}

/// Decodes a RUN chunk: the low six bits of the lead byte, plus one, give
/// how many copies of the previous pixel the chunk stands for.
pub fn parse_qoi_op_run(byte: u8, previous: Pixel) -> (result: Vec<Pixel>)
    ensures
        result@.len() == run_len(byte),
        forall|j: int| 0 <= j < result@.len() ==> result@[j] == previous,
{
    proof {
        assert(byte & 0x3f < 64) by (bit_vector);
    }
    let count = (byte & 0x3f) + 1;
    let mut out: Vec<Pixel> = Vec::new();
    let mut j: u8 = 0;
    while j < count
        invariant
            j <= count,
            count == run_len(byte),
            out@.len() == j,
            forall|k: int| 0 <= k < out@.len() ==> out@[k] == previous,
        decreases count - j,
    {
        out.push(previous);
        j = j + 1;
    }
    out
}

proof fn lemma_after_pixel_step(rest: Seq<u8>, px: Pixel, seen: Seq<Pixel>, need: nat)
    requires
        need >= 1,
    ensures
        decode_after_pixel(rest, px, seen, need) == (match decode_chunks(
            rest,
            px,
            cache_insert(seen, px),
            (need - 1) as nat,
        ) {
            Ok(tail) => Ok::<Seq<Pixel>, DecodeError>(seq![px] + tail),
            Err(e) => Err::<Seq<Pixel>, DecodeError>(e),
        }),
{
    reveal_with_fuel(decode_after_pixel, 2);
    reveal_with_fuel(decode_chunks, 2);
}

proof fn lemma_chunk_short(data: Seq<u8>, prev: Pixel, seen: Seq<Pixel>, need: nat)
    requires
        need >= 1,
        data.len() == 0,
    ensures
        decode_chunks(data, prev, seen, need) == Err::<Seq<Pixel>, DecodeError>(
            DecodeError::PixelCountShort,
        ),
{
    reveal_with_fuel(decode_chunks, 2);
    reveal_with_fuel(decode_after_pixel, 2);
}

proof fn lemma_chunk_done(data: Seq<u8>, prev: Pixel, seen: Seq<Pixel>)
    ensures
        decode_chunks(data, prev, seen, 0) == Ok::<Seq<Pixel>, DecodeError>(Seq::empty()),
{
    reveal_with_fuel(decode_chunks, 2);
    reveal_with_fuel(decode_after_pixel, 2);
}

proof fn lemma_chunk_rgb(data: Seq<u8>, prev: Pixel, seen: Seq<Pixel>, need: nat)
    requires
        need >= 1,
        data.len() >= 1,
        data[0] == 0xfe,
    ensures
        data.len() < 4 ==> decode_chunks(data, prev, seen, need) == Err::<
            Seq<Pixel>,
            DecodeError,
        >(DecodeError::TruncatedStream),
        data.len() >= 4 ==> decode_chunks(data, prev, seen, need) == decode_after_pixel(
            data.skip(4),
            rgb_pixel(data[1], data[2], data[3], prev),
            seen,
            need,
        ),
{
    reveal_with_fuel(decode_chunks, 2);
    reveal_with_fuel(decode_after_pixel, 2);
}

proof fn lemma_chunk_rgba(data: Seq<u8>, prev: Pixel, seen: Seq<Pixel>, need: nat)
    requires
        need >= 1,
        data.len() >= 1,
        data[0] == 0xff,
    ensures
        data.len() < 5 ==> decode_chunks(data, prev, seen, need) == Err::<
            Seq<Pixel>,
            DecodeError,
        >(DecodeError::TruncatedStream),
        data.len() >= 5 ==> decode_chunks(data, prev, seen, need) == decode_after_pixel(
            data.skip(5),
            Pixel { r: data[1], g: data[2], b: data[3], a: data[4] },
            seen,
            need,
        ),
{
    reveal_with_fuel(decode_chunks, 2);
    reveal_with_fuel(decode_after_pixel, 2);
}

proof fn lemma_chunk_index(data: Seq<u8>, prev: Pixel, seen: Seq<Pixel>, need: nat)
    requires
        need >= 1,
        data.len() >= 1,
        data[0] >> 6 == 0,
    ensures
        decode_chunks(data, prev, seen, need) == decode_after_pixel(
            data.skip(1),
            seen[data[0] as int],
            seen,
            need,
        ),
{
    reveal_with_fuel(decode_chunks, 2);
    reveal_with_fuel(decode_after_pixel, 2);
    let byte = data[0];
    assert(byte != 0xfe && byte != 0xff) by (bit_vector)
        requires
            byte >> 6 == 0,
    ;
}

proof fn lemma_chunk_diff(data: Seq<u8>, prev: Pixel, seen: Seq<Pixel>, need: nat)
    requires
        need >= 1,
        data.len() >= 1,
        data[0] >> 6 == 1,
    ensures
        decode_chunks(data, prev, seen, need) == decode_after_pixel(
            data.skip(1),
            diff_pixel(data[0], prev),
            seen,
            need,
        ),
{
    reveal_with_fuel(decode_chunks, 2);
    reveal_with_fuel(decode_after_pixel, 2);
    let byte = data[0];
    assert(byte != 0xfe && byte != 0xff) by (bit_vector)
        requires
            byte >> 6 == 1,
    ;
}

proof fn lemma_chunk_luma(data: Seq<u8>, prev: Pixel, seen: Seq<Pixel>, need: nat)
    requires
        need >= 1,
        data.len() >= 1,
        data[0] >> 6 == 2,
    ensures
        data.len() < 2 ==> decode_chunks(data, prev, seen, need) == Err::<
            Seq<Pixel>,
            DecodeError,
        >(DecodeError::TruncatedStream),
        data.len() >= 2 ==> decode_chunks(data, prev, seen, need) == decode_after_pixel(
            data.skip(2),
            luma_pixel(data[0], data[1], prev),
            seen,
            need,
        ),
{
    reveal_with_fuel(decode_chunks, 2);
    reveal_with_fuel(decode_after_pixel, 2);
    let byte = data[0];
    assert(byte != 0xfe && byte != 0xff) by (bit_vector)
        requires
            byte >> 6 == 2,
    ;
}

proof fn lemma_loop_advance(
    full: Result<Seq<Pixel>, DecodeError>,
    decoded0: Seq<Pixel>,
    decoded1: Seq<Pixel>,
    emit: Seq<Pixel>,
    step_old: Result<Seq<Pixel>, DecodeError>,
    step_new: Result<Seq<Pixel>, DecodeError>,
)
    requires
        decoded1 == decoded0 + emit,
        step_old matches Ok(t) ==> full == Ok::<Seq<Pixel>, DecodeError>(decoded0 + t),
        step_old matches Err(e) ==> full == Err::<Seq<Pixel>, DecodeError>(e),
        step_old == (match step_new {
            Ok(tail) => Ok::<Seq<Pixel>, DecodeError>(emit + tail),
            Err(e) => Err::<Seq<Pixel>, DecodeError>(e),
        }),
    ensures
        step_new matches Ok(t) ==> full == Ok::<Seq<Pixel>, DecodeError>(decoded1 + t),
        step_new matches Err(e) ==> full == Err::<Seq<Pixel>, DecodeError>(e),
{
    match step_new {
        Ok(tail) => {
            assert(decoded0 + (emit + tail) =~= (decoded0 + emit) + tail);
        },
        Err(_) => {},
    }
}

/// One chunk of the decode loop: reads the chunk at `*i`, appends the
/// pixels it stands for to `decoded` (truncating a run to the pixels still
/// needed), updates the previous pixel and the cache, and advances `*i`.
fn decode_step(
    data: &Vec<u8>,
    i: &mut usize,
    prev: &mut Pixel,
    seen: &mut Vec<Pixel>,
    decoded: &mut Vec<Pixel>,
    need: u64,
) -> (r: Result<(), DecodeError>)
    requires
        old(seen)@.len() == 64,
        old(decoded)@.len() < need,
        *old(i) <= data@.len(),
    ensures
        final(seen)@.len() == 64,
        *final(i) <= data@.len(),
        final(decoded)@.len() <= need,
        r matches Ok(_) ==> final(seen)@[pixel_hash(*final(prev))] == *final(prev),
        r matches Err(e) ==> decode_chunks(
            data@.skip(*old(i) as int),
            *old(prev),
            old(seen)@,
            (need - old(decoded)@.len()) as nat,
        ) == Err::<Seq<Pixel>, DecodeError>(e),
        r matches Ok(_) ==> ({
            let emit = final(decoded)@.skip(old(decoded)@.len() as int);
            &&& final(decoded)@ == old(decoded)@ + emit
            &&& emit.len() >= 1
            &&& decode_chunks(
                data@.skip(*old(i) as int),
                *old(prev),
                old(seen)@,
                (need - old(decoded)@.len()) as nat,
            ) == (match decode_chunks(
                data@.skip(*final(i) as int),
                *final(prev),
                final(seen)@,
                (need - final(decoded)@.len()) as nat,
            ) {
                Ok(tail) => Ok::<Seq<Pixel>, DecodeError>(emit + tail),
                Err(e) => Err::<Seq<Pixel>, DecodeError>(e),
            })
        }),
{
    let ghost prev0 = *prev;
    let ghost seen0 = seen@;
    let ghost decoded0 = decoded@;
    let ghost i0 = *i as int;
    let ghost rem0 = (need - decoded@.len()) as nat;
    let ghost mut emit: Seq<Pixel> = Seq::empty();
    if *i >= data.len() {
        proof {
            assert(data@.skip(i0).len() == 0);
            lemma_chunk_short(data@.skip(i0), prev0, seen0, rem0);
        }
        return Err(DecodeError::PixelCountShort);
    }
    let at = *i;
    let byte = data[at];
    proof {
        assert(data@.skip(i0)[0] == data@[i0]);
    }
    let chunk_type = get_chunk_type(byte);
    let cur_pixel: Pixel;
    match chunk_type {
        ChunkTypes::QoiOpRgb => {
            if data.len() - at < 4 {
                proof {
                    assert(data@.skip(i0).len() < 4);
                    lemma_chunk_rgb(data@.skip(i0), prev0, seen0, rem0);
                }
                return Err(DecodeError::TruncatedStream);
            }
            let mut chunk: Vec<u8> = Vec::new();
            chunk.push(data[at]);
            chunk.push(data[at + 1]);
            chunk.push(data[at + 2]);
            chunk.push(data[at + 3]);
            cur_pixel = parse_qoi_op_rgb(chunk, *prev);
            *i = at + 4;
            proof {
                emit = seq![cur_pixel];
                assert(chunk@ =~= seq![data@[i0], data@[i0 + 1], data@[i0 + 2], data@[i0 + 3]]);
                assert(data@.skip(i0).skip(4) =~= data@.skip(i0 + 4));
                lemma_chunk_rgb(data@.skip(i0), prev0, seen0, rem0);
                assert(decode_chunks(data@.skip(i0), prev0, seen0, rem0) == decode_after_pixel(
                    data@.skip(i0 + 4),
                    cur_pixel,
                    seen0,
                    rem0,
                ));
            }
        },
        ChunkTypes::QoiOpRgba => {
            if data.len() - at < 5 {
                proof {
                    assert(data@.skip(i0).len() < 5);
                    lemma_chunk_rgba(data@.skip(i0), prev0, seen0, rem0);
                }
                return Err(DecodeError::TruncatedStream);
            }
            let mut chunk: Vec<u8> = Vec::new();
            chunk.push(data[at]);
            chunk.push(data[at + 1]);
            chunk.push(data[at + 2]);
            chunk.push(data[at + 3]);
            chunk.push(data[at + 4]);
            cur_pixel = parse_qoi_op_rgba(chunk);
            *i = at + 5;
            proof {
                emit = seq![cur_pixel];
                assert(chunk@ =~= seq![
                    data@[i0],
                    data@[i0 + 1],
                    data@[i0 + 2],
                    data@[i0 + 3],
                    data@[i0 + 4],
                ]);
                assert(data@.skip(i0).skip(5) =~= data@.skip(i0 + 5));
                lemma_chunk_rgba(data@.skip(i0), prev0, seen0, rem0);
                assert(decode_chunks(data@.skip(i0), prev0, seen0, rem0) == decode_after_pixel(
                    data@.skip(i0 + 5),
                    cur_pixel,
                    seen0,
                    rem0,
                ));
            }
        },
        ChunkTypes::QoiOpIndex => {
            proof {
                assert(byte < 64) by (bit_vector)
                    requires
                        byte >> 6 == 0,
                ;
            }
            cur_pixel = parse_qoi_op_index(data[at], seen.clone());
            *i = at + 1;
            proof {
                emit = seq![cur_pixel];
                assert(data@.skip(i0).skip(1) =~= data@.skip(i0 + 1));
                lemma_chunk_index(data@.skip(i0), prev0, seen0, rem0);
                assert(decode_chunks(data@.skip(i0), prev0, seen0, rem0) == decode_after_pixel(
                    data@.skip(i0 + 1),
                    cur_pixel,
                    seen0,
                    rem0,
                ));
            }
        },
        ChunkTypes::QoiOpDiff => {
            cur_pixel = parse_qoi_op_diff(data[at], *prev);
            *i = at + 1;
            proof {
                emit = seq![cur_pixel];
                assert(data@.skip(i0).skip(1) =~= data@.skip(i0 + 1));
                lemma_chunk_diff(data@.skip(i0), prev0, seen0, rem0);
                assert(decode_chunks(data@.skip(i0), prev0, seen0, rem0) == decode_after_pixel(
                    data@.skip(i0 + 1),
                    cur_pixel,
                    seen0,
                    rem0,
                ));
            }
        },
        ChunkTypes::QoiOpLuma => {
            if data.len() - at < 2 {
                proof {
                    assert(data@.skip(i0).len() < 2);
                    lemma_chunk_luma(data@.skip(i0), prev0, seen0, rem0);
                }
                return Err(DecodeError::TruncatedStream);
            }
            let mut chunk: Vec<u8> = Vec::new();
            chunk.push(data[at]);
            chunk.push(data[at + 1]);
            cur_pixel = parse_qoi_op_luma(chunk, *prev);
            *i = at + 2;
            proof {
                emit = seq![cur_pixel];
                assert(chunk@ =~= seq![data@[i0], data@[i0 + 1]]);
                assert(data@.skip(i0).skip(2) =~= data@.skip(i0 + 2));
                lemma_chunk_luma(data@.skip(i0), prev0, seen0, rem0);
                assert(decode_chunks(data@.skip(i0), prev0, seen0, rem0) == decode_after_pixel(
                    data@.skip(i0 + 2),
                    cur_pixel,
                    seen0,
                    rem0,
                ));
            }
        },
        ChunkTypes::QoiOpRun => {
            let mut res = parse_qoi_op_run(data[at], *prev);
            proof {
                assert(byte & 0x3f < 64) by (bit_vector);
            }
            let rem_now: u64 = need - (decoded.len() as u64);
            let cnt: usize = if (res.len() as u64) <= rem_now {
                res.len()
            } else {
                rem_now as usize
            };
            res.truncate(cnt - 1);
            decoded.append(&mut res);
            cur_pixel = *prev;
            *i = at + 1;
            proof {
                emit = Seq::new(cnt as nat, |k: int| prev0);
                assert(data@.skip(i0).skip(1) =~= data@.skip(i0 + 1));
                assert(decoded@ =~= decoded0 + emit.drop_last());
                assert(cnt == if run_len(byte) <= rem0 {
                    run_len(byte)
                } else {
                    rem0 as int
                });
                lemma_run_chunk(data@.skip(i0), prev0, seen0, rem0);
            }
        },
    }
    decoded.push(cur_pixel);
    *prev = cur_pixel;
    let seen_idx: u16 = ((cur_pixel.r as u16) * 3 + (cur_pixel.g as u16) * 5 + (cur_pixel.b
        as u16) * 7 + (cur_pixel.a as u16) * 11) % 64;
    let slot = seen_idx as usize;
    seen[slot] = cur_pixel;
    proof {
        assert(seen_idx as int == pixel_hash(cur_pixel));
        assert(seen@ =~= cache_insert(seen0, cur_pixel));
        lemma_cache_lookup(seen0, cur_pixel);
        assert(decoded@ =~= decoded0 + emit);
        assert(decoded@.skip(decoded0.len() as int) =~= emit);
        let rem_new = (need - decoded@.len()) as nat;
        if chunk_type != ChunkTypes::QoiOpRun {
            assert(rem_new == rem0 - 1);
            lemma_after_pixel_step(data@.skip(*i as int), cur_pixel, seen0, rem0);
        } else {
            assert(rem_new == rem0 - emit.len());
        }
    }
    Ok(())
}

/// Decodes the post-header chunk stream `data` into the
/// `header.width * header.height` pixels it encodes, in row-major order.
///
/// Success and every failure are exactly those of `decode_chunks` on the
/// same bytes from the format's initial state, and a successful decode
/// holds exactly the declared pixel count.
pub fn parse_data(data: Vec<u8>, header: Header) -> (result: Result<Vec<Pixel>, DecodeError>)
    ensures
        ({
            let spec_result = decode_chunks(
                data@,
                qoi_initial_pixel(),
                initial_cache(),
                (header.width * header.height) as nat,
            );
            match result {
                Ok(decoded) => spec_result == Ok::<Seq<Pixel>, DecodeError>(decoded@)
                    && decoded@.len() == header.width * header.height,
                Err(e) => spec_result == Err::<Seq<Pixel>, DecodeError>(e),
            }
        }),
{
    proof {
        assert(header.width * header.height <= 0xffffffffu64 * 0xffffffffu64) by (nonlinear_arith)
            requires
                header.width <= 0xffffffffu64 && header.height <= 0xffffffffu64,
        ;
    }
    let need: u64 = (header.width as u64) * (header.height as u64);
    let mut decoded: Vec<Pixel> = Vec::new();
    let mut prev = Pixel { r: 0, g: 0, b: 0, a: 255 };
    let mut seen: Vec<Pixel> = Vec::new();
    let mut j: usize = 0;
    while j < 64
        invariant
            j <= 64,
            seen@ == Seq::new(j as nat, |k: int| qoi_initial_pixel()),
            prev == qoi_initial_pixel(),
        decreases 64 - j,
    {
        seen.push(prev);
        j = j + 1;
        proof {
            assert(seen@ =~= Seq::new(j as nat, |k: int| qoi_initial_pixel()));
        }
    }
    let mut i: usize = 0;
    let ghost full = decode_chunks(data@, qoi_initial_pixel(), initial_cache(), need as nat);
    proof {
        assert(seen@ =~= initial_cache());
        assert(data@.skip(0) =~= data@);
    }
    while (decoded.len() as u64) < need
        invariant
            need == header.width * header.height,
            full == decode_chunks(data@, qoi_initial_pixel(), initial_cache(), need as nat),
            seen@.len() == 64,
            decoded@.len() <= need,
            i <= data@.len(),
            ({
                let step = decode_chunks(
                    data@.skip(i as int),
                    prev,
                    seen@,
                    (need - decoded@.len()) as nat,
                );
                &&& (step matches Ok(tail) ==> full == Ok::<Seq<Pixel>, DecodeError>(
                    decoded@ + tail,
                ))
                &&& (step matches Err(e) ==> full == Err::<Seq<Pixel>, DecodeError>(e))
            }),
        decreases need - decoded@.len(),
    {
        let ghost decoded0 = decoded@;
        let ghost step_old = decode_chunks(
            data@.skip(i as int),
            prev,
            seen@,
            (need - decoded@.len()) as nat,
        );
        match decode_step(&data, &mut i, &mut prev, &mut seen, &mut decoded, need) {
            Ok(_) => {
                proof {
                    let emit = decoded@.skip(decoded0.len() as int);
                    let step_new = decode_chunks(
                        data@.skip(i as int),
                        prev,
                        seen@,
                        (need - decoded@.len()) as nat,
                    );
                    lemma_loop_advance(full, decoded0, decoded@, emit, step_old, step_new);
                }
            },
            Err(e) => {
                return Err(e);
            },
        }
    }
    proof {
        lemma_chunk_done(data@.skip(i as int), prev, seen@);
        assert(decoded@ + Seq::<Pixel>::empty() =~= decoded@);
    }
    Ok(decoded)
}

proof fn lemma_decode_after_pixel_len(rest: Seq<u8>, px: Pixel, seen: Seq<Pixel>, need: nat)
    requires
        need >= 1,
    ensures
        decode_after_pixel(rest, px, seen, need) matches Ok(pixels) ==> pixels.len() == need,
    decreases need, 0nat,
{
    reveal_with_fuel(decode_after_pixel, 2);
    reveal_with_fuel(decode_chunks, 2);
    lemma_decode_len(rest, px, cache_insert(seen, px), (need - 1) as nat);
}

/// Law: a decode that succeeds yields exactly the requested pixel count,
/// whatever the input bytes and starting state.
pub proof fn lemma_decode_len(data: Seq<u8>, prev: Pixel, seen: Seq<Pixel>, need: nat)
    ensures
        decode_chunks(data, prev, seen, need) matches Ok(pixels) ==> pixels.len() == need,
    decreases need, 1nat,
{
    reveal_with_fuel(decode_chunks, 2);
    reveal_with_fuel(decode_after_pixel, 2);
    if need == 0 || data.len() == 0 {
    } else {
        let byte = data[0];
        if byte == 0xfe {
            if data.len() >= 4 {
                lemma_decode_after_pixel_len(
                    data.skip(4),
                    rgb_pixel(data[1], data[2], data[3], prev),
                    seen,
                    need,
                );
            }
        } else if byte == 0xff {
            if data.len() >= 5 {
                lemma_decode_after_pixel_len(
                    data.skip(5),
                    Pixel { r: data[1], g: data[2], b: data[3], a: data[4] },
                    seen,
                    need,
                );
            }
        } else if byte >> 6 == 0 {
            lemma_decode_after_pixel_len(data.skip(1), seen[byte as int], seen, need);
        } else if byte >> 6 == 1 {
            lemma_decode_after_pixel_len(data.skip(1), diff_pixel(byte, prev), seen, need);
        } else if byte >> 6 == 2 {
            if data.len() >= 2 {
                lemma_decode_after_pixel_len(data.skip(2), luma_pixel(byte, data[1], prev), seen, need);
            }
        } else {
            let cnt = if run_len(byte) <= need {
                run_len(byte)
            } else {
                need as int
            };
            lemma_decode_len(data.skip(1), prev, cache_insert(seen, prev), (need - cnt) as nat);
        }
    }
}

/// A minimal encoder: every pixel becomes one RGBA chunk. It makes no use
/// of the compressed chunk kinds, so any pixel sequence can be written
/// with it and read back.
pub open spec fn encode_rgba(pixels: Seq<Pixel>) -> Seq<u8>
    decreases pixels.len(),
{
    if pixels.len() == 0 {
        Seq::empty()
    } else {
        seq![0xffu8, pixels[0].r, pixels[0].g, pixels[0].b, pixels[0].a] + encode_rgba(
            pixels.skip(1),
        )
    }
}

/// Law: decoding what the minimal encoder wrote gives back exactly the
/// encoded pixel sequence, from any starting state.
pub proof fn lemma_round_trip(pixels: Seq<Pixel>, prev: Pixel, seen: Seq<Pixel>)
    ensures
        decode_chunks(encode_rgba(pixels), prev, seen, pixels.len()) == Ok::<
            Seq<Pixel>,
            DecodeError,
        >(pixels),
    decreases pixels.len(),
{
    let data = encode_rgba(pixels);
    if pixels.len() == 0 {
        lemma_chunk_done(data, prev, seen);
        assert(pixels =~= Seq::<Pixel>::empty());
    } else {
        let px = pixels[0];
        let head = seq![0xffu8, px.r, px.g, px.b, px.a];
        let tail = encode_rgba(pixels.skip(1));
        assert(data == head + tail);
        assert(data.len() == 5 + tail.len());
        assert(data[0] == 0xffu8 && data[1] == px.r && data[2] == px.g && data[3] == px.b
            && data[4] == px.a);
        assert(data.skip(5) =~= tail);
        lemma_chunk_rgba(data, prev, seen, pixels.len());
        assert((Pixel { r: data[1], g: data[2], b: data[3], a: data[4] }) == px);
        assert(decode_chunks(data, prev, seen, pixels.len()) == decode_after_pixel(
            data.skip(5),
            px,
            seen,
            pixels.len(),
        ));
        lemma_after_pixel_step(data.skip(5), px, seen, pixels.len());
        lemma_round_trip(pixels.skip(1), px, cache_insert(seen, px));
        assert(pixels.skip(1).len() == pixels.len() - 1);
        assert(decode_chunks(data.skip(5), px, cache_insert(seen, px), (pixels.len() - 1) as nat)
            == Ok::<Seq<Pixel>, DecodeError>(pixels.skip(1)));
        assert(seq![px] + pixels.skip(1) =~= pixels);
    }
}

/// Law: recording a pixel in the cache and looking it up at its computed
/// index gives that pixel back. This is the step every chunk kind,
/// including a run, performs on the pixel it leaves as the previous one,
/// so the lookup an INDEX chunk performs is coherent after every chunk.
pub proof fn lemma_cache_lookup(seen: Seq<Pixel>, px: Pixel)
    requires
        seen.len() == 64,
    ensures
        0 <= pixel_hash(px) < 64,
        cache_insert(seen, px)[pixel_hash(px)] == px,
        cache_insert(seen, px).len() == 64,
{
}

/// Law: a RUN chunk whose six-bit field holds `k` stands for exactly
/// `k + 1` copies of the previous pixel; when that would pass the pixel
/// count still needed, only the needed prefix is produced, and decoding
/// continues with the previous pixel recorded in the cache.
pub proof fn lemma_run_chunk(data: Seq<u8>, prev: Pixel, seen: Seq<Pixel>, need: nat)
    requires
        data.len() > 0,
        data[0] >> 6 == 3,
        data[0] != 0xfe,
        data[0] != 0xff,
        need > 0,
    ensures
        ({
            let k = data[0] & 0x3f;
            let cnt = if k + 1 <= need {
                k + 1
            } else {
                need as int
            };
            decode_chunks(data, prev, seen, need) == (match decode_chunks(
                data.skip(1),
                prev,
                cache_insert(seen, prev),
                (need - cnt) as nat,
            ) {
                Ok(tail) => Ok::<Seq<Pixel>, DecodeError>(
                    Seq::new(cnt as nat, |j: int| prev) + tail,
                ),
                Err(e) => Err::<Seq<Pixel>, DecodeError>(e),
            })
        }),
{
    reveal_with_fuel(decode_chunks, 2);
    reveal_with_fuel(decode_after_pixel, 2);
}

/// The flat byte sequence handed to an image sink: each pixel's four
/// channels in order, row-major.
pub open spec fn rgba_bytes(pixels: Seq<Pixel>) -> Seq<u8>
    decreases pixels.len(),
{
    if pixels.len() == 0 {
        Seq::empty()
    } else {
        seq![pixels[0].r, pixels[0].g, pixels[0].b, pixels[0].a] + rgba_bytes(pixels.skip(1))
    }
}

proof fn lemma_rgba_bytes_push(pixels: Seq<Pixel>, px: Pixel)
    ensures
        rgba_bytes(pixels.push(px)) == rgba_bytes(pixels) + seq![px.r, px.g, px.b, px.a],
    decreases pixels.len(),
{
    let s1 = pixels.push(px);
    assert(s1.len() == pixels.len() + 1);
    if pixels.len() == 0 {
        assert(s1[0] == px);
        assert(s1.skip(1) =~= Seq::<Pixel>::empty());
        assert(rgba_bytes(s1) == seq![s1[0].r, s1[0].g, s1[0].b, s1[0].a] + rgba_bytes(s1.skip(1)));
        assert(rgba_bytes(Seq::<Pixel>::empty()) == Seq::<u8>::empty());
        assert(rgba_bytes(pixels) == Seq::<u8>::empty());
        assert(rgba_bytes(s1) =~= rgba_bytes(pixels) + seq![px.r, px.g, px.b, px.a]);
    } else {
        assert(s1[0] == pixels[0]);
        assert(s1.skip(1) =~= pixels.skip(1).push(px));
        lemma_rgba_bytes_push(pixels.skip(1), px);
        assert(rgba_bytes(s1) == seq![s1[0].r, s1[0].g, s1[0].b, s1[0].a] + rgba_bytes(s1.skip(1)));
        assert(rgba_bytes(pixels) == seq![pixels[0].r, pixels[0].g, pixels[0].b, pixels[0].a]
            + rgba_bytes(pixels.skip(1)));
        assert(rgba_bytes(s1) =~= rgba_bytes(pixels) + seq![px.r, px.g, px.b, px.a]);
    }
}

proof fn lemma_encode_rgba_push(pixels: Seq<Pixel>, px: Pixel)
    ensures
        encode_rgba(pixels.push(px)) == encode_rgba(pixels) + seq![
            0xffu8,
            px.r,
            px.g,
            px.b,
            px.a,
        ],
    decreases pixels.len(),
{
    let s1 = pixels.push(px);
    assert(s1.len() == pixels.len() + 1);
    if pixels.len() == 0 {
        assert(s1[0] == px);
        assert(s1.skip(1) =~= Seq::<Pixel>::empty());
        assert(encode_rgba(s1) == seq![0xffu8, s1[0].r, s1[0].g, s1[0].b, s1[0].a] + encode_rgba(
            s1.skip(1),
        ));
        assert(encode_rgba(Seq::<Pixel>::empty()) == Seq::<u8>::empty());
        assert(encode_rgba(pixels) == Seq::<u8>::empty());
        assert(encode_rgba(s1) =~= encode_rgba(pixels) + seq![0xffu8, px.r, px.g, px.b, px.a]);
    } else {
        assert(s1[0] == pixels[0]);
        assert(s1.skip(1) =~= pixels.skip(1).push(px));
        lemma_encode_rgba_push(pixels.skip(1), px);
        assert(encode_rgba(s1) == seq![0xffu8, s1[0].r, s1[0].g, s1[0].b, s1[0].a] + encode_rgba(
            s1.skip(1),
        ));
        assert(encode_rgba(pixels) == seq![
            0xffu8,
            pixels[0].r,
            pixels[0].g,
            pixels[0].b,
            pixels[0].a,
        ] + encode_rgba(pixels.skip(1)));
        assert(encode_rgba(s1) =~= encode_rgba(pixels) + seq![0xffu8, px.r, px.g, px.b, px.a]);
    }
}

/// Flattens a decoded pixel buffer into the four-bytes-per-pixel layout an
/// image sink takes, in the pixels' order.
pub fn pixels_to_rgba_bytes(decoded: &Vec<Pixel>) -> (bytes: Vec<u8>)
    ensures
        bytes@ == rgba_bytes(decoded@),
        bytes@.len() == 4 * decoded@.len(),
{
    let mut bytes: Vec<u8> = Vec::new();
    let mut k: usize = 0;
    proof {
        assert(decoded@.take(0) =~= Seq::<Pixel>::empty());
    }
    while k < decoded.len()
        invariant
            k <= decoded@.len(),
            bytes@ == rgba_bytes(decoded@.take(k as int)),
            bytes@.len() == 4 * k,
        decreases decoded@.len() - k,
    {
        let p = decoded[k];
        bytes.push(p.r);
        bytes.push(p.g);
        bytes.push(p.b);
        bytes.push(p.a);
        proof {
            lemma_rgba_bytes_push(decoded@.take(k as int), p);
            assert(decoded@.take(k as int + 1) =~= decoded@.take(k as int).push(p));
            assert(bytes@ =~= rgba_bytes(decoded@.take(k as int)) + seq![p.r, p.g, p.b, p.a]);
        }
        k = k + 1;
    }
    proof {
        assert(decoded@.take(decoded@.len() as int) =~= decoded@);
    }
    bytes
}

/// Writes a pixel sequence with the minimal encoder: one RGBA chunk per
/// pixel. Decoding the result gives the sequence back (`lemma_round_trip`).
pub fn encode_rgba_pixels(pixels: &Vec<Pixel>) -> (bytes: Vec<u8>)
    ensures
        bytes@ == encode_rgba(pixels@),
{
    let mut bytes: Vec<u8> = Vec::new();
    let mut k: usize = 0;
    proof {
        assert(pixels@.take(0) =~= Seq::<Pixel>::empty());
    }
    while k < pixels.len()
        invariant
            k <= pixels@.len(),
            bytes@ == encode_rgba(pixels@.take(k as int)),
        decreases pixels@.len() - k,
    {
        let p = pixels[k];
        bytes.push(0xff);
        bytes.push(p.r);
        bytes.push(p.g);
        bytes.push(p.b);
        bytes.push(p.a);
        proof {
            lemma_encode_rgba_push(pixels@.take(k as int), p);
            assert(pixels@.take(k as int + 1) =~= pixels@.take(k as int).push(p));
            assert(bytes@ =~= encode_rgba(pixels@.take(k as int)) + seq![
                0xffu8,
                p.r,
                p.g,
                p.b,
                p.a,
            ]);
        }
        k = k + 1;
    }
    proof {
        assert(pixels@.take(pixels@.len() as int) =~= pixels@);
    }
    bytes
}

} // verus!
