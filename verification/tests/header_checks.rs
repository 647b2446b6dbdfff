use qoi_decoder::error::{DecodeError, HeaderField};
use qoi_decoder::header::{parse_header, validate_header, Header};

#[test]
fn parse_header_reads_fields_big_endian() {
    let bytes = vec![
        0x71, 0x6f, 0x69, 0x66, // "qoif"
        0x00, 0x00, 0x01, 0x02, // width 258
        0x00, 0x00, 0x03, 0x04, // height 772
        4,    // channels
        0,    // colorspace
    ];
    let h = parse_header(bytes).unwrap();
    assert_eq!(h.magic, [0x71, 0x6f, 0x69, 0x66]);
    assert_eq!(h.width, 258);
    assert_eq!(h.height, 772);
    assert_eq!(h.channels, 4);
    assert_eq!(h.colorspace, 0);
}

#[test]
fn parse_header_large_dimensions() {
    let bytes = vec![
        0x71, 0x6f, 0x69, 0x66, 0xff, 0xff, 0xff, 0xff, 0x80, 0x00, 0x00, 0x01, 3, 1,
    ];
    let h = parse_header(bytes).unwrap();
    assert_eq!(h.width, 0xffff_ffff);
    assert_eq!(h.height, 0x8000_0001);
}

#[test]
fn parse_header_short_input_is_malformed() {
    let bytes = vec![0x71, 0x6f, 0x69, 0x66, 0, 0, 0, 1, 0, 0, 0, 1, 4];
    assert_eq!(parse_header(bytes), Err(DecodeError::MalformedHeader));
}

#[test]
fn parse_header_empty_input_is_malformed() {
    assert_eq!(parse_header(Vec::new()), Err(DecodeError::MalformedHeader));
}

#[test]
fn validate_header_accepts_valid_fields() {
    let h = Header {
        magic: [0x71, 0x6f, 0x69, 0x66],
        width: 1,
        height: 1,
        channels: 4,
        colorspace: 0,
    };
    let v = validate_header(h).unwrap();
    assert_eq!(v.width, 1);
    assert_eq!(v.height, 1);
    assert_eq!(v.channels, 4);
    assert_eq!(v.colorspace, 0);
}

#[test]
fn invalid_magic_is_rejected_before_decoding() {
    // "qoix" instead of "qoif"
    let h = Header {
        magic: [0x71, 0x6f, 0x69, 0x78],
        width: 1,
        height: 1,
        channels: 4,
        colorspace: 0,
    };
    assert_eq!(
        validate_header(h),
        Err(DecodeError::InvalidHeaderField(HeaderField::Magic))
    );
}

#[test]
fn invalid_channels_are_rejected() {
    let h = Header {
        magic: [0x71, 0x6f, 0x69, 0x66],
        width: 1,
        height: 1,
        channels: 5,
        colorspace: 0,
    };
    assert_eq!(
        validate_header(h),
        Err(DecodeError::InvalidHeaderField(HeaderField::Channels))
    );
}

#[test]
fn invalid_colorspace_is_rejected() {
    let h = Header {
        magic: [0x71, 0x6f, 0x69, 0x66],
        width: 1,
        height: 1,
        channels: 3,
        colorspace: 2,
    };
    assert_eq!(
        validate_header(h),
        Err(DecodeError::InvalidHeaderField(HeaderField::Colorspace))
    );
}
