use qoi_decoder::data::{
    encode_rgba_pixels, get_chunk_type, parse_data, parse_qoi_op_diff, parse_qoi_op_index,
    parse_qoi_op_luma, parse_qoi_op_rgb, parse_qoi_op_rgba, parse_qoi_op_run,
    pixels_to_rgba_bytes, ChunkTypes, Pixel,
};
use qoi_decoder::error::DecodeError;
use qoi_decoder::header::Header;

fn header_for(width: u32, height: u32) -> Header {
    Header {
        magic: [0x71, 0x6f, 0x69, 0x66],
        width,
        height,
        channels: 4,
        colorspace: 0,
    }
}

fn px(r: u8, g: u8, b: u8, a: u8) -> Pixel {
    Pixel { r, g, b, a }
}

#[test]
fn single_rgba_chunk_decodes_one_pixel() {
    let decoded = parse_data(vec![0xff, 10, 20, 30, 40], header_for(1, 1)).unwrap();
    assert_eq!(decoded, vec![px(10, 20, 30, 40)]);
}

#[test]
fn rgb_chunk_copies_previous_alpha() {
    // The decode starts from {0, 0, 0, 255}, so the RGB chunk keeps alpha 255.
    let decoded = parse_data(vec![0xfe, 5, 6, 7], header_for(1, 1)).unwrap();
    assert_eq!(decoded, vec![px(5, 6, 7, 255)]);
}

#[test]
fn decode_length_equals_width_times_height() {
    // One chunk of every kind: RGBA, RGB, DIFF, LUMA, RUN (2 px), INDEX.
    let data = vec![
        0xff, 10, 20, 30, 40, // RGBA -> (10,20,30,40)
        0xfe, 1, 2, 3, // RGB -> (1,2,3,40)
        0x40, // DIFF, all fields 0 -> (255,0,1,40)
        0x80, 0x88, // LUMA dg=-32, dr=-32, db=-32 -> (223,224,225,40)
        0xc1, // RUN of 2 -> two more copies
        0x00, // INDEX slot 0
    ];
    let decoded = parse_data(data, header_for(7, 1)).unwrap();
    assert_eq!(decoded.len(), 7);
}

#[test]
fn round_trip_through_minimal_encoder() {
    let pixels = vec![
        px(1, 2, 3, 4),
        px(255, 0, 255, 0),
        px(1, 2, 3, 4),
        px(0, 0, 0, 255),
        px(10, 20, 30, 40),
    ];
    let bytes = encode_rgba_pixels(&pixels);
    let decoded = parse_data(bytes, header_for(5, 1)).unwrap();
    assert_eq!(decoded, pixels);
}

#[test]
fn index_chunk_returns_pixel_seen_earlier() {
    // hash(10,20,30,40) = (30 + 100 + 210 + 440) % 64 = 12
    // hash(1,1,1,255) = (3 + 5 + 7 + 2805) % 64 = 4
    let data = vec![
        0xff, 10, 20, 30, 40, // pixel X, cached in slot 12
        0xff, 1, 1, 1, 255, // pixel Y, cached in slot 4
        0x0c, // INDEX slot 12 -> X again
    ];
    let decoded = parse_data(data, header_for(3, 1)).unwrap();
    assert_eq!(
        decoded,
        vec![px(10, 20, 30, 40), px(1, 1, 1, 255), px(10, 20, 30, 40)]
    );
}

#[test]
fn cache_stays_in_sync_after_run_chunks() {
    // X is cached by its RGBA chunk and again by the RUN chunk; the INDEX
    // lookup at X's slot must still return X.
    let data = vec![
        0xff, 10, 20, 30, 40, // pixel X
        0xc0, // RUN of 1: X again
        0x0c, // INDEX slot 12 -> X
    ];
    let decoded = parse_data(data, header_for(3, 1)).unwrap();
    assert_eq!(decoded, vec![px(10, 20, 30, 40); 3]);
}

#[test]
fn index_chunk_reads_initial_cache() {
    // Before any chunk, every cache slot holds the initial pixel.
    let decoded = parse_data(vec![0x07], header_for(1, 1)).unwrap();
    assert_eq!(decoded, vec![px(0, 0, 0, 255)]);
}

#[test]
fn run_chunk_appends_field_plus_one_copies() {
    // RUN byte 0xc2 has six-bit field 2: exactly 3 copies of the previous pixel.
    let data = vec![0xff, 9, 8, 7, 6, 0xc2];
    let decoded = parse_data(data, header_for(4, 1)).unwrap();
    assert_eq!(decoded, vec![px(9, 8, 7, 6); 4]);
}

#[test]
fn run_overshoot_keeps_only_needed_prefix() {
    // RUN byte 0xc5 stands for 6 copies, but only 1 more pixel is needed.
    let data = vec![0xff, 9, 8, 7, 6, 0xc5];
    let decoded = parse_data(data, header_for(2, 1)).unwrap();
    assert_eq!(decoded, vec![px(9, 8, 7, 6); 2]);
}

#[test]
fn diff_with_zero_field_wraps_channel_one_to_255() {
    // Previous pixel has all color channels 1; DIFF fields 00 mean -2 each.
    let data = vec![0xff, 1, 1, 1, 77, 0x40];
    let decoded = parse_data(data, header_for(2, 1)).unwrap();
    assert_eq!(decoded[1], px(255, 255, 255, 77));
}

#[test]
fn luma_wraps_below_zero() {
    // From the initial pixel {0,0,0,255}: dg = -32, dr = db = -40.
    let decoded = parse_data(vec![0x80, 0x00], header_for(1, 1)).unwrap();
    assert_eq!(decoded, vec![px(216, 224, 216, 255)]);
}

#[test]
fn truncated_rgb_chunk_fails() {
    assert_eq!(
        parse_data(vec![0xfe, 1, 2], header_for(1, 1)),
        Err(DecodeError::TruncatedStream)
    );
}

#[test]
fn truncated_rgba_chunk_fails() {
    assert_eq!(
        parse_data(vec![0xff, 1, 2, 3], header_for(1, 1)),
        Err(DecodeError::TruncatedStream)
    );
}

#[test]
fn truncated_luma_chunk_fails() {
    assert_eq!(
        parse_data(vec![0x80], header_for(1, 1)),
        Err(DecodeError::TruncatedStream)
    );
}

#[test]
fn stream_ending_early_is_pixel_count_short() {
    assert_eq!(
        parse_data(vec![0xff, 1, 2, 3, 4], header_for(2, 1)),
        Err(DecodeError::PixelCountShort)
    );
}

#[test]
fn empty_stream_with_pixels_needed_is_pixel_count_short() {
    assert_eq!(
        parse_data(Vec::new(), header_for(1, 1)),
        Err(DecodeError::PixelCountShort)
    );
}

#[test]
fn zero_pixel_image_decodes_to_empty_buffer() {
    let decoded = parse_data(Vec::new(), header_for(0, 0)).unwrap();
    assert_eq!(decoded.len(), 0);
}

#[test]
fn bytes_after_final_pixel_are_ignored() {
    // The eight-byte QOI end marker follows the last chunk.
    let data = vec![0xff, 1, 2, 3, 4, 0, 0, 0, 0, 0, 0, 0, 1];
    let decoded = parse_data(data, header_for(1, 1)).unwrap();
    assert_eq!(decoded, vec![px(1, 2, 3, 4)]);
}

#[test]
fn chunk_types_follow_lead_byte() {
    assert_eq!(get_chunk_type(0xfe), ChunkTypes::QoiOpRgb);
    assert_eq!(get_chunk_type(0xff), ChunkTypes::QoiOpRgba);
    assert_eq!(get_chunk_type(0x00), ChunkTypes::QoiOpIndex);
    assert_eq!(get_chunk_type(0x3f), ChunkTypes::QoiOpIndex);
    assert_eq!(get_chunk_type(0x40), ChunkTypes::QoiOpDiff);
    assert_eq!(get_chunk_type(0x7f), ChunkTypes::QoiOpDiff);
    assert_eq!(get_chunk_type(0x80), ChunkTypes::QoiOpLuma);
    assert_eq!(get_chunk_type(0xbf), ChunkTypes::QoiOpLuma);
    assert_eq!(get_chunk_type(0xc0), ChunkTypes::QoiOpRun);
    assert_eq!(get_chunk_type(0xfd), ChunkTypes::QoiOpRun);
}

#[test]
fn rgb_parse_uses_bytes_after_tag() {
    let p = parse_qoi_op_rgb(vec![0xfe, 11, 22, 33], px(0, 0, 0, 9));
    assert_eq!(p, px(11, 22, 33, 9));
}

#[test]
fn rgba_parse_uses_bytes_after_tag() {
    let p = parse_qoi_op_rgba(vec![0xff, 11, 22, 33, 44]);
    assert_eq!(p, px(11, 22, 33, 44));
}

#[test]
fn index_parse_reads_cache_slot() {
    let mut seen = vec![px(0, 0, 0, 255); 64];
    seen[5] = px(1, 2, 3, 4);
    assert_eq!(parse_qoi_op_index(5, seen), px(1, 2, 3, 4));
}

#[test]
fn diff_parse_applies_biased_fields() {
    // 0x6c = 0b01_10_11_00: dr = 0, dg = +1, db = -2.
    let p = parse_qoi_op_diff(0x6c, px(100, 100, 100, 9));
    assert_eq!(p, px(100, 101, 98, 9));
}

#[test]
fn luma_parse_applies_deltas() {
    // 0xa3: dg = 35 - 32 = 3; 0xf0: dr = 3 - 8 + 15 = 10, db = 3 - 8 + 0 = -5.
    let p = parse_qoi_op_luma(vec![0xa3, 0xf0], px(100, 100, 100, 9));
    assert_eq!(p, px(110, 103, 95, 9));
}

#[test]
fn run_parse_repeats_previous_pixel() {
    let out = parse_qoi_op_run(0xc7, px(4, 5, 6, 7));
    assert_eq!(out, vec![px(4, 5, 6, 7); 8]);
}

#[test]
fn flattening_emits_four_bytes_per_pixel() {
    let bytes = pixels_to_rgba_bytes(&vec![px(1, 2, 3, 4), px(5, 6, 7, 8)]);
    assert_eq!(bytes, vec![1, 2, 3, 4, 5, 6, 7, 8]);
}

#[test]
fn minimal_encoder_writes_rgba_chunks() {
    let bytes = encode_rgba_pixels(&vec![px(1, 2, 3, 4)]);
    assert_eq!(bytes, vec![0xff, 1, 2, 3, 4]);
}
