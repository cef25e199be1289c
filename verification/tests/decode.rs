use qoi::consts::{QOI_HEADER_SIZE, QOI_MAGIC, QOI_PIXELS_MAX};
use qoi::{decode_qoi, encode_to_vec, Channels, ColorSpace, Error, Header, Island};

/// A stream made of a header, ops, island records and the padding.
fn stream(width: u32, height: u32, channels: u8, ops: &[u8], records: &[u8]) -> Vec<u8> {
    let mut out = vec![0x71, 0x6f, 0x69, 0x66];
    out.extend_from_slice(&width.to_be_bytes());
    out.extend_from_slice(&height.to_be_bytes());
    out.push(channels);
    out.push(0);
    out.extend_from_slice(&((ops.len() + records.len()) as u32 + 8).to_be_bytes());
    out.extend_from_slice(&(records.len() as u32 / 16).to_be_bytes());
    out.extend_from_slice(ops);
    out.extend_from_slice(records);
    out.extend_from_slice(&[0; 8]);
    out
}

#[test]
fn header_encodes_to_its_fixed_layout() {
    let header = Header {
        width: 0x0102_0304,
        height: 0x0506_0708,
        channels: Channels::Rgba,
        colorspace: ColorSpace::linear(),
        n_encode: 0x1122_3344,
        n_islands: 0x5566_7788,
    };
    assert_eq!(
        header.encode(),
        [
            0x71, 0x6f, 0x69, 0x66, 1, 2, 3, 4, 5, 6, 7, 8, 4, 1, 0x11, 0x22, 0x33, 0x44, 0x55,
            0x66, 0x77, 0x88
        ]
    );
    assert_eq!(QOI_MAGIC, u32::from_be_bytes(*b"qoif"));
    assert_eq!(QOI_HEADER_SIZE, 22);
}

#[test]
fn header_decodes_what_it_encodes() {
    let header = Header {
        width: 640,
        height: 480,
        channels: Channels::Rgb,
        colorspace: ColorSpace::from_u8(200),
        n_encode: 123_456,
        n_islands: 789,
    };
    assert_eq!(Header::decode(&header.encode()), Ok(header));
}

#[test]
fn header_sizes() {
    let header = Header::try_new(7, 5, 0, 0, Channels::Rgba, ColorSpace::srgb()).unwrap();
    assert_eq!(header.n_pixels(), 35);
    assert_eq!(header.encode_max_len(), 22 + 140 + 35 + 8);
    assert_eq!(header.with_colorspace(ColorSpace::linear()).colorspace.as_u8(), 1);
}

#[test]
fn header_refuses_empty_and_oversized_images() {
    assert_eq!(
        Header::try_new(0, 5, 0, 0, Channels::Rgb, ColorSpace::srgb()),
        Err(Error::EmptyImage { width: 0, height: 5 })
    );
    assert_eq!(
        Header::try_new(QOI_PIXELS_MAX as u32, 2, 0, 0, Channels::Rgb, ColorSpace::srgb()),
        Err(Error::InvalidDimensions { width: QOI_PIXELS_MAX as u32, height: 2 })
    );
    assert!(
        Header::try_new(QOI_PIXELS_MAX as u32, 1, 0, 0, Channels::Rgb, ColorSpace::srgb()).is_ok()
    );
}

#[test]
fn a_stream_shorter_than_a_header_is_cut_short() {
    assert_eq!(Header::decode(&[0x71, 0x6f, 0x69, 0x66]), Err(Error::UnexpectedEndOfStream));
    assert!(matches!(decode_qoi(&[]), Err(Error::UnexpectedEndOfStream)));
}

#[test]
fn a_wrong_magic_number_is_refused() {
    let mut bytes = stream(1, 1, 3, &[0x40], &[]);
    assert!(decode_qoi(&bytes).is_ok());
    bytes[3] = 0x67;
    assert!(matches!(decode_qoi(&bytes), Err(Error::InvalidMagic { magic: 0x716f_6967 })));
}

#[test]
fn a_wrong_channel_count_is_refused() {
    let bytes = stream(1, 1, 5, &[0x40], &[]);
    assert!(matches!(decode_qoi(&bytes), Err(Error::InvalidChannels { channels: 5 })));
}

#[test]
fn wrong_dimensions_are_refused() {
    let bytes = stream(0, 1, 3, &[0x40], &[]);
    assert!(matches!(decode_qoi(&bytes), Err(Error::InvalidDimensions { width: 0, height: 1 })));
    let bytes = stream(20_000, 20_000, 3, &[0x40], &[]);
    assert!(matches!(
        decode_qoi(&bytes),
        Err(Error::InvalidDimensions { width: 20_000, height: 20_000 })
    ));
}

#[test]
fn the_magic_number_is_checked_before_the_channel_count() {
    let mut bytes = stream(0, 0, 9, &[], &[]);
    bytes[0] = 0;
    assert!(matches!(decode_qoi(&bytes), Err(Error::InvalidMagic { .. })));
    let bytes = stream(0, 0, 9, &[], &[]);
    assert!(matches!(decode_qoi(&bytes), Err(Error::InvalidChannels { channels: 9 })));
}

#[test]
fn a_stream_shorter_than_declared_is_cut_short() {
    let mut bytes = stream(1, 1, 3, &[0x40], &[]);
    assert!(decode_qoi(&bytes).is_ok());
    bytes.pop();
    assert!(matches!(decode_qoi(&bytes), Err(Error::UnexpectedEndOfStream)));
}

#[test]
fn the_declared_length_has_to_end_with_the_padding() {
    // The header declares one byte more than there is.
    let mut bytes = stream(1, 1, 3, &[0x40], &[0; 16]);
    assert!(decode_qoi(&bytes).is_ok());
    bytes[17] += 1;
    assert!(matches!(decode_qoi(&bytes), Err(Error::UnexpectedEndOfStream)));
    // One byte more is there, but it is not where the padding ends.
    bytes.push(0);
    assert!(matches!(decode_qoi(&bytes), Err(Error::UnexpectedEndOfStream)));
    // The header declares one byte less than the ops, the record and the
    // padding take.
    bytes[17] -= 2;
    assert!(matches!(decode_qoi(&bytes), Err(Error::UnexpectedEndOfStream)));
}

#[test]
fn ops_that_end_too_early_are_cut_short() {
    // Two pixels declared, one op for one pixel: a byte of the padding is
    // taken for an op, and then the padding is too short.
    let bytes = stream(2, 1, 3, &[0xbf], &[]);
    assert!(matches!(decode_qoi(&bytes), Err(Error::UnexpectedEndOfStream)));
    // A colour op that announces three bytes at the very end of the stream.
    let mut bytes = stream(1, 1, 3, &[], &[]);
    bytes.truncate(QOI_HEADER_SIZE);
    bytes.extend_from_slice(&[0xfe, 1, 2]);
    bytes[17] = 3;
    assert!(matches!(decode_qoi(&bytes), Err(Error::UnexpectedEndOfStream)));
    // A two-byte difference op without its second byte.
    let mut bytes = stream(1, 1, 3, &[], &[]);
    bytes.truncate(QOI_HEADER_SIZE);
    bytes.push(0xc0);
    bytes[17] = 1;
    assert!(matches!(decode_qoi(&bytes), Err(Error::UnexpectedEndOfStream)));
}

#[test]
fn a_run_beyond_the_last_pixel_is_refused() {
    let bytes = stream(2, 1, 3, &[0x42], &[]);
    assert!(matches!(decode_qoi(&bytes), Err(Error::UnexpectedEndOfStream)));
    let bytes = stream(3, 1, 3, &[0x42], &[]);
    assert_eq!(decode_qoi(&bytes).unwrap().1, vec![0; 9]);
}

#[test]
fn missing_island_records_are_reported() {
    // Two records declared; behind the op stand one record and the padding,
    // which is less than two full records.
    let mut bytes = stream(1, 1, 3, &[0x40], &[0; 16]);
    bytes[21] = 2;
    assert!(matches!(
        decode_qoi(&bytes),
        Err(Error::IslandRecordTruncated { expected: 2, found: 1 })
    ));
    bytes[21] = 1;
    assert!(decode_qoi(&bytes).is_ok());
}

#[test]
fn the_padding_has_to_be_zero() {
    let mut bytes = stream(1, 1, 3, &[0x40], &[]);
    assert!(decode_qoi(&bytes).is_ok());
    let last = bytes.len() - 1;
    bytes[last] = 1;
    assert!(matches!(decode_qoi(&bytes), Err(Error::UnexpectedEndOfStream)));
}

#[test]
fn every_op_is_read_back_by_hand() {
    let ops = [
        0xfe, 10, 20, 30, // colour: red, green, blue
        0xbf, // +1 +1 +1
        0xda, 0xd5, // +10 +5 -3
        0xe9, 105, 107, // +2 +10 -5, alpha -5
        0x41, // a run of two
        0x09, // the pixel in slot 9: (10, 20, 30, 255)
        0xf1, 7, // colour: alpha only
    ];
    let (header, pixels, islands) = decode_qoi(&stream(8, 1, 4, &ops, &[])).unwrap();
    assert_eq!(header.channels, Channels::Rgba);
    assert_eq!(header.n_encode as usize, ops.len() + 8);
    assert_eq!(
        pixels,
        vec![
            10, 20, 30, 255, 11, 21, 31, 255, 21, 26, 28, 255, 23, 36, 23, 250, 23, 36, 23, 250,
            23, 36, 23, 250, 10, 20, 30, 255, 10, 20, 30, 7
        ]
    );
    assert!(islands.islands.is_empty());
}

#[test]
fn three_channel_output_leaves_alpha_out() {
    let ops = [0xff, 1, 2, 3, 4, 0x80 + 2 * 16 + 2 * 4 + 3];
    let (_, pixels, _) = decode_qoi(&stream(2, 1, 3, &ops, &[])).unwrap();
    assert_eq!(pixels, vec![1, 2, 3, 1, 2, 4]);
}

#[test]
fn differences_wrap_around_when_decoded() {
    let ops = [0x80 + 16 + 2 * 4 + 2, 0x80 + 3 * 16 + 2 * 4 + 2];
    // -1 from 0 is 255, +1 from 255 is 0.
    let (_, pixels, _) = decode_qoi(&stream(2, 1, 3, &ops, &[])).unwrap();
    assert_eq!(pixels, vec![255, 0, 0, 0, 0, 0]);
}

#[test]
fn the_longest_run_op_is_read_back() {
    // 0x7f carries 63 for a run of 64.
    let (_, pixels, _) = decode_qoi(&stream(64, 1, 3, &[0x7f], &[])).unwrap();
    assert_eq!(pixels, vec![0; 192]);
    assert!(decode_qoi(&stream(63, 1, 3, &[0x7f], &[])).is_err());
}

#[test]
fn islands_are_kept_once() {
    let mut records = Vec::new();
    for _ in 0..2 {
        records.extend_from_slice(&[0, 0, 0, 1, 0, 0, 0, 2, 0, 0, 0, 3, 0, 0, 0, 4]);
    }
    records.extend_from_slice(&[0, 0, 0, 9, 0, 0, 0, 9, 0, 0, 0, 9, 0, 0, 0, 9]);
    let (header, _, islands) = decode_qoi(&stream(1, 1, 3, &[0x40], &records)).unwrap();
    assert_eq!(header.n_islands, 3);
    assert_eq!(
        islands.islands,
        vec![
            Island { top_left: Some((1, 2)), btm_right: Some((3, 4)) },
            Island { top_left: Some((9, 9)), btm_right: Some((9, 9)) }
        ]
    );
}

#[test]
fn what_follows_the_padding_is_ignored() {
    let mut bytes = encode_to_vec(&[1, 2, 3, 4, 5, 6], 1, 2).unwrap();
    let plain = decode_qoi(&bytes).unwrap();
    bytes.extend_from_slice(&[1, 2, 3]);
    let more = decode_qoi(&bytes).unwrap();
    assert_eq!(plain.0, more.0);
    assert_eq!(plain.1, more.1);
    assert_eq!(plain.2.islands, more.2.islands);
}

#[test]
fn the_island_records_stand_before_the_padding() {
    let data = [0u8, 0, 0, 9, 9, 9, 0, 0, 0, 0, 0, 0];
    let bytes = encode_to_vec(&data, 2, 2).unwrap();
    let header = Header::decode(&bytes).unwrap();
    assert_eq!(header.n_islands, 1);
    assert_eq!(bytes.len(), QOI_HEADER_SIZE + header.n_encode as usize);
    let at = bytes.len() - 8 - 16;
    assert_eq!(bytes[at..at + 16], [0, 0, 0, 0, 0, 0, 0, 1, 0, 0, 0, 0, 0, 0, 0, 1]);
    assert_eq!(bytes[at + 16..], [0; 8]);
}

#[test]
fn round_trip_of_mixed_images() {
    let mut seed: u32 = 12345;
    let sizes = [(1u32, 1u32, 3usize), (3, 5, 3), (16, 9, 4), (70, 3, 4), (64, 64, 3)];
    for &(width, height, channels) in &sizes {
        let mut data = Vec::new();
        for i in 0..(width * height) as usize * channels {
            seed = seed.wrapping_mul(1_664_525).wrapping_add(1_013_904_223);
            // Stretches of noise, stretches of smooth change and stretches of rest.
            let byte = match (i / 97) % 3 {
                0 => (seed >> 24) as u8,
                1 => (i / 5) as u8,
                _ => 0,
            };
            data.push(byte);
        }
        let out = encode_to_vec(&data, width, height).unwrap();
        let (header, pixels, islands) = decode_qoi(&out).unwrap();
        assert_eq!(header.width, width);
        assert_eq!(header.height, height);
        assert_eq!(header.channels.as_u8() as usize, channels);
        assert_eq!(out.len(), 22 + header.n_encode as usize);
        assert!(out.len() <= header.encode_max_len() + 16 * header.n_islands as usize);
        assert_eq!(pixels, data);
        assert_eq!(islands.islands.len(), header.n_islands as usize);
    }
}

#[test]
fn truncating_an_encoded_image_never_decodes() {
    let data: Vec<u8> = (0..48u32).map(|i| (i * 29 % 256) as u8).collect();
    let out = encode_to_vec(&data, 4, 4).unwrap();
    for cut in 0..out.len() {
        assert!(decode_qoi(&out[..cut]).is_err());
    }
    assert!(decode_qoi(&out).is_ok());
}
