use qoi::consts::{QOI_HEADER_SIZE, QOI_PADDING_SIZE};
use qoi::encode::encode_impl;
use qoi::utils::BytesMut;
use qoi::Header;
use qoi::{
    decode_qoi, encode_max_len, encode_to_buf, encode_to_vec, Channels, ColorSpace, DiffPolicy,
    Encoder, Error, Island, IslandStorage, Settings,
};

fn header(width: u32, height: u32, channels: u8, colorspace: u8, n_encode: u32, n_islands: u32) -> Vec<u8> {
    let mut out = vec![0x71, 0x6f, 0x69, 0x66];
    out.extend_from_slice(&width.to_be_bytes());
    out.extend_from_slice(&height.to_be_bytes());
    out.push(channels);
    out.push(colorspace);
    out.extend_from_slice(&n_encode.to_be_bytes());
    out.extend_from_slice(&n_islands.to_be_bytes());
    out
}

fn record(top: u32, left: u32, bottom: u32, right: u32) -> Vec<u8> {
    let mut out = Vec::new();
    out.extend_from_slice(&top.to_be_bytes());
    out.extend_from_slice(&left.to_be_bytes());
    out.extend_from_slice(&bottom.to_be_bytes());
    out.extend_from_slice(&right.to_be_bytes());
    out
}

fn boxed(top: u32, left: u32, bottom: u32, right: u32) -> Island {
    Island { top_left: Some((top, left)), btm_right: Some((bottom, right)) }
}

fn ops_of(encoded: &[u8]) -> Vec<u8> {
    let n_encode = u32::from_be_bytes([encoded[14], encoded[15], encoded[16], encoded[17]]) as usize;
    let n_islands = u32::from_be_bytes([encoded[18], encoded[19], encoded[20], encoded[21]]) as usize;
    assert_eq!(encoded.len(), QOI_HEADER_SIZE + n_encode);
    let end = encoded.len() - QOI_PADDING_SIZE;
    assert_eq!(encoded[end..], [0; 8]);
    encoded[QOI_HEADER_SIZE..end - 16 * n_islands].to_vec()
}

#[test]
fn one_opaque_black_pixel_is_a_run_and_an_island() {
    let out = encode_to_vec(&[0, 0, 0, 255], 1, 1).unwrap();
    let mut expected = header(1, 1, 4, 0, 25, 1);
    expected.push(0x40);
    expected.extend_from_slice(&record(0, 0, 0, 0));
    expected.extend_from_slice(&[0; 8]);
    assert_eq!(out, expected);
}

#[test]
fn one_black_rgb_pixel_is_background() {
    let out = encode_to_vec(&[0, 0, 0], 1, 1).unwrap();
    let mut expected = header(1, 1, 3, 0, 9, 0);
    expected.push(0x40);
    expected.extend_from_slice(&[0; 8]);
    assert_eq!(out, expected);
    assert!(out.len() <= encode_max_len(1, 1, 3));
}

#[test]
fn colour_op_then_small_difference() {
    let out = encode_to_vec(&[10, 20, 30, 11, 21, 31], 2, 1).unwrap();
    let mut expected = header(2, 1, 3, 0, 29, 1);
    expected.extend_from_slice(&[0xfe, 10, 20, 30, 0xbf]);
    expected.extend_from_slice(&record(0, 0, 0, 1));
    expected.extend_from_slice(&[0; 8]);
    assert_eq!(out, expected);
}

#[test]
fn two_byte_difference() {
    let out = encode_to_vec(&[10, 20, 30, 20, 25, 27], 2, 1).unwrap();
    assert_eq!(ops_of(&out), vec![0xfe, 10, 20, 30, 0xda, 0xd5]);
}

#[test]
fn three_byte_difference_carries_alpha() {
    let out = encode_to_vec(&[10, 20, 30, 255, 12, 30, 25, 250], 2, 1).unwrap();
    assert_eq!(ops_of(&out), vec![0xfe, 10, 20, 30, 0xe9, 105, 107]);
}

#[test]
fn colour_op_names_only_the_changed_channels() {
    // Red and alpha change by more than any difference op holds.
    let out = encode_to_vec(&[0, 0, 0, 255, 100, 0, 0, 155], 2, 1).unwrap();
    assert_eq!(ops_of(&out), vec![0x40, 0xf9, 100, 155]);
}

#[test]
fn literal_when_all_channels_change() {
    let out = encode_to_vec(&[200, 100, 50, 25], 1, 1).unwrap();
    assert_eq!(ops_of(&out), vec![0xff, 200, 100, 50, 25]);
}

#[test]
fn a_pixel_seen_before_is_an_index_op() {
    let a = [10u8, 20, 30];
    let b = [200u8, 100, 50];
    let data = [a, b, a].concat();
    let out = encode_to_vec(&data, 3, 1).unwrap();
    let hash_a = (10 * 3 + 20 * 5 + 30 * 7 + 255 * 11) % 64;
    assert_eq!(hash_a, 9);
    assert_eq!(ops_of(&out), vec![0xfe, 10, 20, 30, 0xfe, 200, 100, 50, 9]);
}

#[test]
fn the_zero_pixel_is_found_in_the_fresh_index() {
    // The index cache starts out full of zero pixels, so a transparent black
    // pixel is an index op from the start.
    let out = encode_to_vec(&[0, 0, 0, 0], 1, 1).unwrap();
    assert_eq!(ops_of(&out), vec![0x00]);
}

#[test]
fn canonical_policy_does_not_wrap() {
    let data = [255u8, 7, 7, 0, 7, 7];
    let mut encoder = Encoder::new(&data, 2, 1).unwrap().with_diff_policy(DiffPolicy::Canonical);
    let out = encoder.encode_to_vec().unwrap();
    assert_eq!(ops_of(&out), vec![0xfe, 255, 7, 7, 0xf8, 0]);
}

#[test]
fn wrapping_policy_takes_the_short_way_round() {
    let data = [255u8, 7, 7, 0, 7, 7];
    let mut encoder = Encoder::new(&data, 2, 1).unwrap().with_diff_policy(DiffPolicy::Wrapping);
    let out = encoder.encode_to_vec().unwrap();
    // From (0, 0, 0) to (255, 7, 7) is -1, 7, 7 modulo 256, then +1, 0, 0.
    assert_eq!(ops_of(&out), vec![0xc0 + 15, (7 + 8) * 16 + (7 + 8), 0xba]);
    let (_, pixels, _) = decode_qoi(&out).unwrap();
    assert_eq!(pixels, data.to_vec());
}

#[test]
fn both_policies_decode_to_the_same_pixels() {
    let mut data = Vec::new();
    for i in 0..64u32 {
        data.push((i * 37 % 256) as u8);
        data.push((255 - i * 3 % 256) as u8);
        data.push((i * i % 256) as u8);
        data.push((i * 101 % 256) as u8);
    }
    let canonical = Encoder::new(&data, 8, 8).unwrap().with_diff_policy(DiffPolicy::Canonical).encode_to_vec().unwrap();
    let wrapping = Encoder::new(&data, 8, 8).unwrap().with_diff_policy(DiffPolicy::Wrapping).encode_to_vec().unwrap();
    assert_eq!(decode_qoi(&canonical).unwrap().1, data);
    assert_eq!(decode_qoi(&wrapping).unwrap().1, data);
}

#[test]
fn a_run_takes_one_byte_whatever_its_length() {
    let mut data = vec![9u8, 9, 9];
    for _ in 0..32 {
        data.extend_from_slice(&[9, 9, 9]);
    }
    // One pixel as a difference of +9 on each colour, then a run of 32.
    assert_eq!(ops_of(&encode_to_vec(&data, 33, 1).unwrap()), vec![0xec, 231, 48, 0x40 + 31]);
    data.extend_from_slice(&[9, 9, 9]);
    assert_eq!(ops_of(&encode_to_vec(&data, 34, 1).unwrap()), vec![0xec, 231, 48, 0x40 + 32]);
    for _ in 0..29 {
        data.extend_from_slice(&[9, 9, 9]);
    }
    // A run of 62 is the longest.
    assert_eq!(ops_of(&encode_to_vec(&data, 63, 1).unwrap()), vec![0xec, 231, 48, 0x40 + 61]);
}

#[test]
fn a_run_longer_than_the_maximum_is_flushed_twice() {
    let mut data = Vec::new();
    for _ in 0..100 {
        data.extend_from_slice(&[10, 20, 30]);
    }
    let out = encode_to_vec(&data, 10, 10).unwrap();
    // The first pixel is written out; 99 follow: a run of 62 and a run of 37
    // that is flushed because the image ends.
    assert_eq!(ops_of(&out), vec![0xfe, 10, 20, 30, 0x40 + 61, 0x40 + 36]);
    let (header, pixels, _) = decode_qoi(&out).unwrap();
    assert_eq!(header.width, 10);
    assert_eq!(pixels, data);
}

#[test]
fn a_hundred_background_pixels_are_two_runs() {
    let data = vec![0u8; 300];
    let out = encode_to_vec(&data, 100, 1).unwrap();
    let mut expected = header(100, 1, 3, 0, 10, 0);
    expected.extend_from_slice(&[0x40 | 61, 0x40 | 37]);
    expected.extend_from_slice(&[0; 8]);
    assert_eq!(out, expected);
    assert_eq!(decode_qoi(&out).unwrap().1, data);
}

#[test]
fn the_pixel_after_a_full_run_gets_a_run_of_its_own() {
    let data = vec![0u8; 189];
    let out = encode_to_vec(&data, 63, 1).unwrap();
    let mut expected = header(63, 1, 3, 0, 10, 0);
    expected.extend_from_slice(&[0x40 | 61, 0x40]);
    expected.extend_from_slice(&[0; 8]);
    assert_eq!(out, expected);
    assert_eq!(decode_qoi(&out).unwrap().1, data);
}

#[test]
fn a_run_that_starts_the_image_and_ends_it() {
    let data = vec![0u8; 3 * 200];
    let out = encode_to_vec(&data, 20, 10).unwrap();
    assert_eq!(ops_of(&out), vec![0x7d, 0x7d, 0x7d, 0x40 + 13]);
    assert_eq!(decode_qoi(&out).unwrap().1, data);
}

#[test]
fn empty_image_is_refused() {
    assert_eq!(encode_to_vec(&[], 0, 0), Err(Error::EmptyImage { width: 0, height: 0 }));
    assert_eq!(encode_to_vec(&[1, 2, 3], 0, 5), Err(Error::EmptyImage { width: 0, height: 5 }));
    assert_eq!(encode_to_vec(&[1, 2, 3], 7, 0), Err(Error::EmptyImage { width: 7, height: 0 }));
}

#[test]
fn too_many_pixels_are_refused() {
    assert_eq!(
        encode_to_vec(&[1, 2, 3], 20_000, 20_000),
        Err(Error::InvalidDimensions { width: 20_000, height: 20_000 })
    );
}

#[test]
fn a_buffer_that_is_no_whole_number_of_pixels_is_refused() {
    assert_eq!(
        encode_to_vec(&[1, 2, 3, 4, 5, 6, 7], 2, 1),
        Err(Error::BadEncodingDataSize { size: 7, width: 2, height: 1 })
    );
}

#[test]
fn channel_counts_other_than_three_and_four_are_refused() {
    assert_eq!(encode_to_vec(&[1, 2, 3, 4], 2, 1), Err(Error::InvalidChannels { channels: 2 }));
    assert_eq!(encode_to_vec(&[0; 10], 2, 1), Err(Error::InvalidChannels { channels: 5 }));
    assert_eq!(encode_to_vec(&[], 2, 1), Err(Error::InvalidChannels { channels: 0 }));
    assert_eq!(encode_to_vec(&[0; 600], 2, 1), Err(Error::InvalidChannels { channels: 255 }));
}

#[test]
fn max_len_follows_the_formula() {
    assert_eq!(encode_max_len(1, 1, 3), 22 + 3 + 1 + 8);
    assert_eq!(encode_max_len(10, 20, 4), 22 + 800 + 200 + 8);
    assert_eq!(encode_max_len(0, 20, 4), 30);
    assert_eq!(encode_max_len(u32::MAX, u32::MAX, 255), usize::MAX);
}

#[test]
fn encoder_reports_what_it_was_made_with() {
    let data = [1u8, 2, 3, 4, 5, 6, 7, 8];
    let encoder = Encoder::new(&data, 1, 2).unwrap();
    assert_eq!(encoder.channels(), Channels::Rgba);
    assert_eq!(encoder.header().width, 1);
    assert_eq!(encoder.header().height, 2);
    assert_eq!(encoder.header().colorspace, ColorSpace::srgb());
    assert_eq!(encoder.header().n_encode, 0);
    assert_eq!(encoder.header().n_islands, 0);
    assert_eq!(encoder.required_buf_len(), encode_max_len(1, 2, 4));
    let encoder = encoder.with_colorspace(ColorSpace::linear());
    assert_eq!(encoder.header().colorspace.as_u8(), 1);
}

#[test]
fn colour_space_is_carried_through_unchanged() {
    let data = [1u8, 2, 3];
    let mut encoder = Encoder::new(&data, 1, 1).unwrap().with_colorspace(ColorSpace::from_u8(77));
    let out = encoder.encode_to_vec().unwrap();
    assert_eq!(out[13], 77);
    let (header, pixels, _) = decode_qoi(&out).unwrap();
    assert_eq!(header.colorspace, ColorSpace::from_u8(77));
    assert_eq!(pixels, data.to_vec());
    // The rest of the stream does not depend on the tag.
    let plain = encode_to_vec(&data, 1, 1).unwrap();
    assert_eq!(out[..13], plain[..13]);
    assert_eq!(out[14..], plain[14..]);
}

#[test]
fn encoding_fills_in_the_header_of_the_encoder() {
    let data = [10u8, 20, 30, 11, 21, 31];
    let mut encoder = Encoder::new(&data, 2, 1).unwrap();
    let out = encoder.encode_to_vec().unwrap();
    assert_eq!(encoder.header().n_encode, 29);
    assert_eq!(encoder.header().n_islands, 1);
    assert_eq!(out[..22], encoder.header().encode());
}

#[test]
fn encode_to_buf_writes_what_encode_to_vec_returns() {
    let data = [0u8, 0, 0, 0, 0, 0, 5, 5, 5, 0, 0, 0];
    let expected = encode_to_vec(&data, 2, 2).unwrap();
    let mut buf = vec![0xaau8; 100];
    let n = encode_to_buf(&mut buf, &data, 2, 2).unwrap();
    assert_eq!(n, expected.len());
    assert_eq!(buf[..n], expected[..]);
    assert!(buf[n..].iter().all(|&b| b == 0xaa));
}

#[test]
fn encode_to_buf_needs_the_maximum_length() {
    let data = [0u8; 12];
    let mut buf = vec![0xaau8; 45];
    assert_eq!(
        encode_to_buf(&mut buf, &data, 2, 2),
        Err(Error::OutputBufferTooSmall { size: 45, required: 46 })
    );
    assert!(buf.iter().all(|&b| b == 0xaa));
    let mut buf = vec![0xaau8; 46];
    assert_eq!(encode_to_buf(&mut buf, &data, 2, 2), Ok(22 + 1 + 8));
}

#[test]
fn encode_to_buf_needs_room_for_the_islands() {
    let data = [0u8, 0, 0, 255];
    let mut buf = vec![0xaau8; 35];
    assert_eq!(
        encode_to_buf(&mut buf, &data, 1, 1),
        Err(Error::OutputBufferTooSmall { size: 35, required: 47 })
    );
    assert!(buf.iter().all(|&b| b == 0xaa));
    let mut buf = vec![0xaau8; 47];
    assert_eq!(encode_to_buf(&mut buf, &data, 1, 1), Ok(47));
    assert_eq!(buf, encode_to_vec(&data, 1, 1).unwrap());
}

#[test]
fn encode_to_buf_reports_bad_images_before_it_looks_at_the_buffer() {
    let mut buf = [0u8; 0];
    assert_eq!(
        encode_to_buf(&mut buf, &[], 0, 0),
        Err(Error::EmptyImage { width: 0, height: 0 })
    );
    assert_eq!(
        encode_to_buf(&mut buf, &[1, 2], 1, 1),
        Err(Error::InvalidChannels { channels: 2 })
    );
}

#[test]
fn islands_come_bucket_after_bucket() {
    // Three rows of one pixel each, the first and the last in the foreground
    // of a 1 x 10 image, plus row 8, which shares bucket 0 with row 0.
    let mut data = vec![0u8; 30];
    data[0] = 1;
    data[2 * 3] = 1;
    data[8 * 3] = 1;
    let out = encode_to_vec(&data, 1, 10).unwrap();
    let (header, pixels, islands) = decode_qoi(&out).unwrap();
    assert_eq!(header.n_islands, 3);
    assert_eq!(pixels, data);
    assert_eq!(islands.islands, vec![boxed(0, 0, 0, 0), boxed(8, 0, 8, 0), boxed(2, 0, 2, 0)]);
}

#[test]
fn an_encoder_starts_with_the_default_settings() {
    let data = [1u8, 2, 3];
    let encoder = Encoder::new(&data, 1, 1).unwrap();
    assert_eq!(encoder.settings(), Settings::default());
    assert_eq!(
        Settings::default(),
        Settings { policy: DiffPolicy::Canonical, workers: 8, storage: IslandStorage::List }
    );
    let encoder = encoder
        .with_diff_policy(DiffPolicy::Wrapping)
        .with_workers(3)
        .with_island_storage(IslandStorage::Distinct);
    assert_eq!(
        encoder.settings(),
        Settings { policy: DiffPolicy::Wrapping, workers: 3, storage: IslandStorage::Distinct }
    );
    assert_eq!(encoder.with_workers(0).settings().workers, 1);
}

#[test]
fn islands_kept_as_a_set_decode_to_the_same_islands() {
    let mut data = vec![0u8; 6 * 6 * 3];
    for &(row, col) in &[(0usize, 0usize), (0, 1), (2, 4), (3, 4), (5, 5)] {
        data[(row * 6 + col) * 3 + 1] = 99;
    }
    let list = Encoder::new(&data, 6, 6).unwrap().with_island_storage(IslandStorage::List).encode_to_vec().unwrap();
    let set = Encoder::new(&data, 6, 6).unwrap().with_island_storage(IslandStorage::Distinct).encode_to_vec().unwrap();
    let from_list = decode_qoi(&list).unwrap();
    let from_set = decode_qoi(&set).unwrap();
    assert_eq!(from_list.1, data);
    assert_eq!(from_set.1, data);
    assert_eq!(from_list.2.islands, from_set.2.islands);
    assert_eq!(
        from_set.2.islands,
        vec![boxed(0, 0, 0, 1), boxed(2, 4, 2, 4), boxed(3, 4, 3, 4), boxed(5, 5, 5, 5)]
    );
}

#[test]
fn what_follows_the_header_is_ops_then_records_then_padding() {
    let data = [0u8, 0, 0, 7, 7, 7];
    let header = Header::try_new(2, 1, 0, 0, Channels::Rgb, ColorSpace::srgb()).unwrap();
    let (out, n_encode, n_islands) =
        encode_impl(Vec::new(), &data, &header, Settings::default()).unwrap();
    assert_eq!((n_encode, n_islands), (3 + 16 + 8, 1));
    // A run of one, then +7 on each colour as a two-byte difference.
    let mut expected = vec![0x40, 0xc0 + 23, 15 * 16 + 15];
    expected.extend_from_slice(&record(0, 1, 0, 1));
    expected.extend_from_slice(&[0; 8]);
    assert_eq!(out, expected);
}

#[test]
fn too_little_room_is_a_failure_that_says_what_is_needed() {
    let data = [0u8, 0, 0, 7, 7, 7];
    let header = Header::try_new(2, 1, 0, 0, Channels::Rgb, ColorSpace::srgb()).unwrap();
    let full = encode_impl(Vec::new(), &data, &header, Settings::default()).unwrap();
    let need = full.1;
    assert_eq!(need, full.0.len());
    for room in 0..need {
        let r = encode_impl(BytesMut::new(room), &data, &header, Settings::default());
        assert!(matches!(
            r,
            Err(Error::OutputBufferTooSmall { size, required }) if size == room && required == need
        ));
    }
    let (writer, n_encode, n_islands) =
        encode_impl(BytesMut::new(need), &data, &header, Settings::default()).unwrap();
    assert_eq!((n_encode, n_islands), (need, 1));
    assert_eq!(writer.into_vec(), full.0);
}

#[test]
fn a_writer_with_just_enough_room_takes_a_hundred_background_pixels() {
    let data = vec![0u8; 300];
    let header = Header::try_new(100, 1, 0, 0, Channels::Rgb, ColorSpace::srgb()).unwrap();
    let (writer, n_encode, n_islands) =
        encode_impl(BytesMut::new(10), &data, &header, Settings::default()).unwrap();
    assert_eq!((n_encode, n_islands), (10, 0));
    assert_eq!(writer.into_vec(), vec![0x40 | 61, 0x40 | 37, 0, 0, 0, 0, 0, 0, 0, 0]);
    assert!(encode_impl(BytesMut::new(9), &data, &header, Settings::default()).is_err());
}
