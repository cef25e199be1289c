use qoi::pixel::Pixel;
use qoi::bytes::{copy_into, u32_from_be, u32_to_be};
use qoi::utils::{BytesMut, Writer};
use qoi::{Channels, ColorSpace, DiffPolicy, Error};

#[test]
fn a_bounded_writer_takes_what_fits() {
    let writer = BytesMut::new(3);
    assert_eq!(writer.capacity(), 3);
    let writer = writer.write_one(1).unwrap();
    assert_eq!(writer.capacity(), 2);
    let writer = writer.write_many(&[2, 3]).unwrap();
    assert_eq!(writer.capacity(), 0);
    assert_eq!(writer.into_vec(), vec![1, 2, 3]);
}

#[test]
fn a_bounded_writer_refuses_what_does_not_fit() {
    let writer = BytesMut::new(2).write_one(9).unwrap();
    assert!(matches!(
        writer.write_many(&[1, 2]),
        Err(Error::OutputBufferTooSmall { size: 1, required: 2 })
    ));
    let full = BytesMut::new(0);
    assert!(matches!(full.write_one(1), Err(Error::OutputBufferTooSmall { size: 0, required: 1 })));
}

#[test]
fn an_empty_write_always_fits() {
    let writer = BytesMut::new(0).write_many(&[]).unwrap();
    assert_eq!(writer.into_vec(), Vec::<u8>::new());
}

#[test]
fn a_vector_grows_as_it_is_written_to() {
    let out = Vec::new().write_one(1).unwrap().write_many(&[2, 3, 4]).unwrap();
    assert_eq!(out, vec![1, 2, 3, 4]);
    assert_eq!(Writer::capacity(&out), usize::MAX - 4);
}

#[test]
fn numbers_are_written_most_significant_byte_first() {
    assert_eq!(u32_to_be(0x0102_0304), [1, 2, 3, 4]);
    assert_eq!(u32_to_be(0), [0, 0, 0, 0]);
    assert_eq!(u32_to_be(u32::MAX), [255, 255, 255, 255]);
    assert_eq!(u32_from_be(&[9, 1, 2, 3, 4], 1), 0x0102_0304);
}

#[test]
fn copying_touches_only_its_target() {
    let mut dst = [1u8, 2, 3, 4, 5];
    copy_into(&mut dst, 1, &[8, 9]);
    assert_eq!(dst, [1, 8, 9, 4, 5]);
    copy_into(&mut dst, 5, &[]);
    assert_eq!(dst, [1, 8, 9, 4, 5]);
}

#[test]
fn pixel_hash_is_the_weighted_sum_modulo_64() {
    assert_eq!(Pixel::new().hash_index(), 0);
    assert_eq!(Pixel::new().with_a(255).hash_index(), (255 * 11 % 64) as u8);
    let px = Pixel { r: 10, g: 20, b: 30, a: 255 };
    assert_eq!(px.hash_index(), 9);
    let px = Pixel { r: 255, g: 255, b: 255, a: 255 };
    assert_eq!(px.hash_index(), (255 * 26 % 64) as u8);
}

#[test]
fn pixels_are_read_with_or_without_alpha() {
    let data = [1u8, 2, 3, 4, 5, 6, 7, 8];
    assert_eq!(Pixel::read(&data, 0, Channels::Rgba), Pixel { r: 1, g: 2, b: 3, a: 4 });
    assert_eq!(Pixel::read(&data, 4, Channels::Rgba), Pixel { r: 5, g: 6, b: 7, a: 8 });
    assert_eq!(Pixel::read(&data, 3, Channels::Rgb), Pixel { r: 4, g: 5, b: 6, a: 255 });
}

#[test]
fn a_pixel_op_is_written_whole_or_not_at_all() {
    let prev = Pixel { r: 0, g: 0, b: 0, a: 255 };
    let px = Pixel { r: 200, g: 100, b: 50, a: 255 };
    let out = px.encode_into(prev, DiffPolicy::Canonical, Vec::new()).unwrap();
    assert_eq!(out, vec![0xfe, 200, 100, 50]);
    let tight = BytesMut::new(3);
    assert!(matches!(
        px.encode_into(prev, DiffPolicy::Canonical, tight),
        Err(Error::OutputBufferTooSmall { size: 3, required: 4 })
    ));
}

#[test]
fn the_ranges_of_the_difference_ops() {
    let prev = Pixel { r: 100, g: 100, b: 100, a: 100 };
    let op = |r: u8, g: u8, b: u8, a: u8| {
        Pixel { r, g, b, a }.encode_into(prev, DiffPolicy::Canonical, Vec::new()).unwrap()
    };
    // One byte holds -2..=1.
    assert_eq!(op(98, 101, 100, 100), vec![0x80 + 0 * 16 + 3 * 4 + 2]);
    assert_eq!(op(97, 100, 100, 100).len(), 2);
    assert_eq!(op(102, 100, 100, 100).len(), 2);
    // Two bytes hold -16..=15 on red and -8..=7 on green and blue.
    assert_eq!(op(84, 92, 107, 100), vec![0xc0, 0x0f]);
    assert_eq!(op(115, 100, 100, 100), vec![0xc0 + 31, 0x88]);
    assert_eq!(op(100, 108, 100, 100).len(), 3);
    assert_eq!(op(100, 100, 91, 100).len(), 3);
    // Three bytes hold -16..=15 on every channel.
    assert_eq!(op(84, 84, 84, 84), vec![0xe0, 0, 0]);
    assert_eq!(op(115, 115, 115, 115), vec![0xef, 0xff, 0xff]);
    assert_eq!(op(100, 100, 100, 101).len(), 3);
    // Beyond that the changed channels are written out.
    assert_eq!(op(116, 100, 100, 100), vec![0xf8, 116]);
    assert_eq!(op(100, 83, 100, 100), vec![0xf4, 83]);
    assert_eq!(op(100, 100, 100, 116), vec![0xf1, 116]);
}

#[test]
fn channels_and_colour_spaces() {
    assert_eq!(Channels::from_u8(3), Ok(Channels::Rgb));
    assert_eq!(Channels::from_u8(4), Ok(Channels::Rgba));
    assert_eq!(Channels::from_u8(0), Err(Error::InvalidChannels { channels: 0 }));
    assert_eq!(Channels::Rgb.as_u8(), 3);
    assert_eq!(Channels::Rgba.as_u8(), 4);
    assert_eq!(Channels::default(), Channels::Rgb);
    assert_eq!(ColorSpace::default(), ColorSpace::srgb());
    assert_eq!(ColorSpace::linear().as_u8(), 1);
    assert_eq!(DiffPolicy::default(), DiffPolicy::Canonical);
}
