use qoi::island::{bfs, point_key};
use qoi::{
    decode_qoi, encode_max_len, encode_to_vec, grayscale_alpha_to_rgba, grayscale_to_rgb,
    Encoder, Error, Image, Island, Islands,
};
use std::collections::HashSet;

fn boxed(top: u32, left: u32, bottom: u32, right: u32) -> Island {
    Island { top_left: Some((top, left)), btm_right: Some((bottom, right)) }
}

fn rgba_image(width: u32, height: u32, foreground: &[(u32, u32)]) -> Vec<u8> {
    let mut data = vec![0u8; (width * height * 4) as usize];
    for &(row, col) in foreground {
        let at = ((row * width + col) * 4) as usize;
        data[at] = 200;
        data[at + 3] = 255;
    }
    data
}

#[test]
fn no_points_no_islands() {
    assert!(Islands::find_islands(&vec![]).is_empty());
}

#[test]
fn one_point_is_its_own_box() {
    assert_eq!(Islands::find_islands(&vec![(7, 9)]), vec![boxed(7, 9, 7, 9)]);
}

#[test]
fn connected_points_share_a_box() {
    // An L: down the first column, then along the last row.
    let points = vec![(0, 0), (1, 0), (2, 0), (2, 1), (2, 2)];
    assert_eq!(Islands::find_islands(&points), vec![boxed(0, 0, 2, 2)]);
}

#[test]
fn diagonal_neighbours_are_not_connected() {
    let points = vec![(0, 0), (1, 1)];
    assert_eq!(Islands::find_islands(&points), vec![boxed(0, 0, 0, 0), boxed(1, 1, 1, 1)]);
}

#[test]
fn islands_come_in_the_order_of_their_first_point() {
    let points = vec![(5, 5), (0, 0), (5, 6), (0, 1), (9, 9)];
    assert_eq!(
        Islands::find_islands(&points),
        vec![boxed(5, 5, 5, 6), boxed(0, 0, 0, 1), boxed(9, 9, 9, 9)]
    );
}

#[test]
fn a_point_given_twice_counts_once() {
    let points = vec![(3, 3), (3, 3), (3, 4)];
    assert_eq!(Islands::find_islands(&points), vec![boxed(3, 3, 3, 4)]);
}

#[test]
fn points_at_the_edge_of_the_coordinate_range() {
    let top = u32::MAX;
    let points = vec![(top, top), (top, top - 1), (0, 0), (0, 1)];
    assert_eq!(
        Islands::find_islands(&points),
        vec![boxed(top, top - 1, top, top), boxed(0, 0, 0, 1)]
    );
}

#[test]
fn a_ring_is_one_island() {
    let points = vec![(0, 0), (0, 1), (0, 2), (1, 0), (1, 2), (2, 0), (2, 1), (2, 2)];
    assert_eq!(Islands::find_islands(&points), vec![boxed(0, 0, 2, 2)]);
}

#[test]
fn island_records_are_read_back() {
    let islands = vec![boxed(1, 2, 3, 4), boxed(0x0102_0304, 5, 0x0102_0305, 0xffff_ffff)];
    let bytes = Islands::encode(Vec::new(), &islands).unwrap();
    assert_eq!(
        bytes,
        vec![
            0, 0, 0, 1, 0, 0, 0, 2, 0, 0, 0, 3, 0, 0, 0, 4, 1, 2, 3, 4, 0, 0, 0, 5, 1, 2, 3, 5,
            255, 255, 255, 255
        ]
    );
    assert_eq!(Islands::decode(&bytes, 2).unwrap().islands, islands);
    assert_eq!(Islands::decode(&bytes, 1).unwrap().islands, islands[..1].to_vec());
    assert!(Islands::decode(&bytes, 0).unwrap().islands.is_empty());
}

#[test]
fn too_few_island_records() {
    let bytes = [0u8; 40];
    assert!(matches!(
        Islands::decode(&bytes, 3),
        Err(Error::IslandRecordTruncated { expected: 3, found: 2 })
    ));
    assert_eq!(Islands::decode(&bytes, 2).unwrap().islands, vec![boxed(0, 0, 0, 0)]);
}

#[test]
fn background_only_image_has_no_islands() {
    for &(width, height) in &[(1u32, 1u32), (5, 3), (17, 40)] {
        let data = vec![0u8; (width * height * 4) as usize];
        let out = encode_to_vec(&data, width, height).unwrap();
        let (header, pixels, islands) = decode_qoi(&out).unwrap();
        assert_eq!(header.n_islands, 0);
        assert!(islands.islands.is_empty());
        assert_eq!(pixels, data);
        assert!(out.len() <= encode_max_len(width, height, 4));
    }
}

#[test]
fn single_foreground_pixel_is_one_island() {
    for &(row, col) in &[(0u32, 0u32), (3, 4), (9, 0), (11, 6)] {
        let data = rgba_image(7, 12, &[(row, col)]);
        let (header, pixels, islands) = decode_qoi(&encode_to_vec(&data, 7, 12).unwrap()).unwrap();
        assert_eq!(header.n_islands, 1);
        assert_eq!(islands.islands, vec![boxed(row, col, row, col)]);
        assert_eq!(pixels, data);
    }
}

#[test]
fn a_region_that_spans_two_row_buckets_is_two_islands() {
    // A block of two rows and three columns: one connected region.
    let block = [(4, 1), (4, 2), (4, 3), (5, 1), (5, 2), (5, 3)];
    let data = rgba_image(6, 8, &block);
    let mut encoder = Encoder::new(&data, 6, 8).unwrap().with_workers(8);
    let (_, _, islands) = decode_qoi(&encoder.encode_to_vec().unwrap()).unwrap();
    // Rows 4 and 5 fall into buckets 4 and 5, so each row is an island of
    // its own; together they cover the block.
    assert_eq!(islands.islands, vec![boxed(4, 1, 4, 3), boxed(5, 1, 5, 3)]);
}

#[test]
fn with_one_bucket_a_region_is_one_island() {
    let block = [(4, 1), (4, 2), (4, 3), (5, 1), (5, 2), (5, 3)];
    let data = rgba_image(6, 8, &block);
    let mut encoder = Encoder::new(&data, 6, 8).unwrap().with_workers(1);
    let (_, _, islands) = decode_qoi(&encoder.encode_to_vec().unwrap()).unwrap();
    assert_eq!(islands.islands, vec![boxed(4, 1, 5, 3)]);
    // No bucket counts as one bucket.
    let mut encoder = Encoder::new(&data, 6, 8).unwrap().with_workers(0);
    let (_, _, islands) = decode_qoi(&encoder.encode_to_vec().unwrap()).unwrap();
    assert_eq!(islands.islands, vec![boxed(4, 1, 5, 3)]);
}

#[test]
fn rows_of_one_bucket_are_not_neighbours() {
    // Rows 0 and 8 share bucket 0 but do not touch.
    let data = rgba_image(2, 9, &[(0, 0), (8, 0)]);
    let (_, _, islands) = decode_qoi(&encode_to_vec(&data, 2, 9).unwrap()).unwrap();
    assert_eq!(islands.islands, vec![boxed(0, 0, 0, 0), boxed(8, 0, 8, 0)]);
}

#[test]
fn islands_can_outgrow_the_maximum_length() {
    // A checkerboard: every other pixel is an island of its own.
    let mut foreground = Vec::new();
    for row in 0..4 {
        for col in 0..4 {
            if (row + col) % 2 == 0 {
                foreground.push((row, col));
            }
        }
    }
    let data = rgba_image(4, 4, &foreground);
    let out = encode_to_vec(&data, 4, 4).unwrap();
    let (header, pixels, islands) = decode_qoi(&out).unwrap();
    assert_eq!(header.n_islands, 8);
    assert_eq!(islands.islands.len(), 8);
    assert_eq!(pixels, data);
    assert!(out.len() > encode_max_len(4, 4, 4));
    assert!(out.len() <= encode_max_len(4, 4, 4) + 16 * 8);
}

#[test]
fn arbitrary_bytes_encode_unless_the_image_is_empty() {
    let mut seed: u32 = 7;
    for round in 0..200usize {
        let is_4 = round % 2 == 0;
        let w_frac = (round * 37 % 256) as usize;
        let len = round * 3 % 61;
        let mut data = Vec::new();
        for _ in 0..len {
            seed = seed.wrapping_mul(1_103_515_245).wrapping_add(12_345);
            data.push(if seed & 0x3000 == 0 { 0 } else { (seed >> 16) as u8 });
        }
        let channels = if is_4 { 4 } else { 3 };
        let n_pixels = data.len() / channels;
        let (w, h) = if n_pixels == 0 {
            (0, 0)
        } else {
            let w = ((n_pixels * (1 + w_frac)) / 256).max(1);
            (w, n_pixels / w)
        };
        let out = encode_to_vec(&data[..w * h * channels], w as u32, h as u32);
        if w * h != 0 {
            let out = out.unwrap();
            let (header, pixels, _) = decode_qoi(&out).unwrap();
            assert_eq!(pixels, data[..w * h * channels].to_vec());
            assert_eq!(out.len(), 22 + header.n_encode as usize);
            let most = encode_max_len(w as u32, h as u32, channels as u8);
            assert!(out.len() <= most + 16 * header.n_islands as usize);
        } else {
            assert_eq!(out, Err(Error::EmptyImage { width: 0, height: 0 }));
        }
    }
}

#[test]
fn test_dark_compression() {
    // A dark picture: black and opaque all over.
    let mut data = Vec::new();
    for _ in 0..32 * 32 {
        data.extend_from_slice(&[0, 0, 0, 255]);
    }
    let out = encode_to_vec(&data, 32, 32).unwrap();
    assert_eq!(decode_qoi(&out).unwrap().1, data);
}

#[test]
fn test_dark_line_compression() {
    // A dark picture with a bright line across it.
    let mut data = vec![0u8; 32 * 32 * 3];
    for col in 4..28 {
        let at = (16 * 32 + col) * 3;
        data[at] = 250;
        data[at + 1] = 250;
        data[at + 2] = 240;
    }
    let out = encode_to_vec(&data, 32, 32).unwrap();
    let (_, pixels, islands) = decode_qoi(&out).unwrap();
    assert_eq!(pixels, data);
    assert_eq!(islands.islands, vec![boxed(16, 4, 16, 27)]);
}

#[test]
fn test_dark_line2_compression() {
    // A dark picture with a bright line down it: one island per row.
    let mut data = vec![0u8; 32 * 32 * 3];
    for row in 4..28 {
        let at = (row * 32 + 16) * 3;
        data[at] = 250;
        data[at + 1] = 250;
        data[at + 2] = 240;
    }
    let out = encode_to_vec(&data, 32, 32).unwrap();
    let (header, pixels, islands) = decode_qoi(&out).unwrap();
    assert_eq!(pixels, data);
    assert_eq!(header.n_islands, 24);
    assert!(islands.islands.contains(&boxed(4, 16, 4, 16)));
    assert!(islands.islands.contains(&boxed(27, 16, 27, 16)));
}

#[test]
fn test_islands() {
    // Two blobs on a transparent ground.
    let data = rgba_image(40, 16, &[(8, 3), (8, 4), (8, 5), (8, 30), (8, 31)]);
    let out = encode_to_vec(&data, 40, 16).unwrap();
    let (_, _, islands) = decode_qoi(&out).unwrap();
    assert_eq!(islands.islands, vec![boxed(8, 3, 8, 5), boxed(8, 30, 8, 31)]);
}

#[test]
fn grey_values_become_rgb() {
    assert_eq!(grayscale_to_rgb(&[]), Vec::<u8>::new());
    assert_eq!(grayscale_to_rgb(&[7, 200]), vec![7, 7, 7, 200, 200, 200]);
}

#[test]
fn grey_values_with_alpha_become_rgba() {
    assert_eq!(grayscale_alpha_to_rgba(&[]), Vec::<u8>::new());
    assert_eq!(grayscale_alpha_to_rgba(&[7, 1, 200, 2]), vec![7, 7, 7, 1, 200, 200, 200, 2]);
}

#[test]
fn image_sizes() {
    let image = Image { width: 6, height: 7, channels: 4, data: vec![0; 168] };
    assert_eq!(image.n_pixels(), 42);
    assert_eq!(image.n_bytes(), 168);
    let copy = image.clone();
    assert_eq!(copy.data.len(), copy.n_bytes());
}

#[test]
fn test_rgba_image() {
    // A dark picture with a bright line across it, with four channels.
    let mut data = Vec::new();
    for row in 0..24 {
        for col in 0..24 {
            if row == 12 && col >= 2 && col < 20 {
                data.extend_from_slice(&[250, 250, 240, 255]);
            } else {
                data.extend_from_slice(&[0, 0, 0, 255]);
            }
        }
    }
    let out = encode_to_vec(&data, 24, 24).unwrap();
    assert!(out.len() < data.len());
    assert_eq!(decode_qoi(&out).unwrap().1, data);
}

#[test]
fn test_decode() {
    let mut data = vec![0u8; 32 * 32 * 4];
    for col in 4..28 {
        let at = (16 * 32 + col) * 4;
        data[at..at + 4].copy_from_slice(&[250, 250, 240, 255]);
    }
    let out = encode_to_vec(&data, 32, 32).unwrap();
    let (header, pixels, islands) = decode_qoi(&out).unwrap();
    assert_eq!((header.width, header.height), (32, 32));
    assert_eq!(pixels.len(), 32 * 32 * 4);
    assert_eq!(pixels, data);
    assert_eq!(islands.islands, vec![boxed(16, 4, 16, 27)]);
}

#[test]
fn test_decode2() {
    let mut data = vec![0u8; 32 * 32 * 4];
    for row in 4..28 {
        let at = (row * 32 + 16) * 4;
        data[at..at + 4].copy_from_slice(&[250, 250, 240, 255]);
    }
    let out = encode_to_vec(&data, 32, 32).unwrap();
    let (header, pixels, islands) = decode_qoi(&out).unwrap();
    assert_eq!((header.width, header.height), (32, 32));
    assert_eq!(pixels, data);
    assert_eq!(islands.islands.len(), 24);
}

#[test]
fn test_decode3() {
    // Four bright blocks on a transparent ground.
    let mut foreground = Vec::new();
    for &(top, left) in &[(1u32, 1u32), (1, 9), (9, 1), (9, 9)] {
        for row in top..top + 2 {
            for col in left..left + 4 {
                foreground.push((row, col));
            }
        }
    }
    let data = rgba_image(16, 16, &foreground);
    let out = encode_to_vec(&data, 16, 16).unwrap();
    let (header, pixels, islands) = decode_qoi(&out).unwrap();
    assert_eq!((header.width, header.height), (16, 16));
    assert_eq!(pixels, data);
    // Each block spans two rows, and each row is an island of its own.
    assert_eq!(header.n_islands, 8);
    assert!(islands.islands.contains(&boxed(1, 1, 1, 4)));
    assert!(islands.islands.contains(&boxed(10, 9, 10, 12)));
}

fn keys(points: &[(u32, u32)]) -> HashSet<u64> {
    points.iter().map(|&p| point_key(p)).collect()
}

#[test]
fn a_search_takes_what_a_walk_reaches() {
    let points = keys(&[(0, 0), (0, 1), (1, 1), (5, 5)]);
    let mut used = HashSet::new();
    let mut island = Island { top_left: None, btm_right: None };
    bfs(&points, &mut used, &mut island, &(0, 1));
    assert_eq!(used, keys(&[(0, 0), (0, 1), (1, 1)]));
    assert_eq!(island, boxed(0, 0, 1, 1));
    assert_eq!(point_key((1, 2)), (1 << 32) + 2);
}

#[test]
fn a_search_from_a_point_it_cannot_take_changes_nothing() {
    let points = keys(&[(0, 0), (0, 1)]);
    let mut used = keys(&[(0, 1), (9, 9)]);
    let mut island = boxed(2, 2, 3, 3);
    // From a used point.
    bfs(&points, &mut used, &mut island, &(0, 1));
    assert_eq!(used, keys(&[(0, 1), (9, 9)]));
    assert_eq!(island, boxed(2, 2, 3, 3));
    // From a point that is no foreground point.
    let mut island = Island { top_left: None, btm_right: None };
    bfs(&points, &mut used, &mut island, &(4, 4));
    assert_eq!(used, keys(&[(0, 1), (9, 9)]));
    assert_eq!(island, Island { top_left: None, btm_right: None });
}

#[test]
fn a_search_does_not_walk_through_used_points() {
    let points = keys(&[(0, 0), (0, 1), (0, 2)]);
    let mut used = keys(&[(0, 1)]);
    let mut island = Island { top_left: None, btm_right: None };
    bfs(&points, &mut used, &mut island, &(0, 0));
    assert_eq!(used, keys(&[(0, 0), (0, 1)]));
    assert_eq!(island, boxed(0, 0, 0, 0));
}

#[test]
fn a_search_widens_the_box_that_is_there() {
    let points = keys(&[(3, 3)]);
    let mut used = HashSet::new();
    let mut island = boxed(5, 5, 5, 5);
    bfs(&points, &mut used, &mut island, &(3, 3));
    // Row and column of the corner go down at once.
    assert_eq!(island, boxed(3, 3, 5, 5));
    assert_eq!(used, keys(&[(3, 3)]));
    let points = keys(&[(7, 8), (7, 9)]);
    bfs(&points, &mut used, &mut island, &(7, 9));
    assert_eq!(island, boxed(3, 3, 7, 9));
}

#[test]
fn islands_lie_in_one_row_and_cover_the_foreground() {
    let (width, height) = (13u32, 21u32);
    let mut seed: u32 = 99;
    let mut foreground = Vec::new();
    for row in 0..height {
        for col in 0..width {
            seed = seed.wrapping_mul(1_103_515_245).wrapping_add(12_345);
            if (seed >> 16) % 3 != 0 {
                foreground.push((row, col));
            }
        }
    }
    let data = rgba_image(width, height, &foreground);
    for &workers in &[2u32, 3, 8, 100] {
        let mut encoder = Encoder::new(&data, width, height).unwrap().with_workers(workers);
        let (_, _, islands) = decode_qoi(&encoder.encode_to_vec().unwrap()).unwrap();
        for island in &islands.islands {
            assert_eq!(island.top_left.unwrap().0, island.btm_right.unwrap().0);
        }
        for &(row, col) in &foreground {
            assert!(islands.islands.iter().any(|island| {
                let (top, left) = island.top_left.unwrap();
                let (bottom, right) = island.btm_right.unwrap();
                top <= row && row <= bottom && left <= col && col <= right
            }));
        }
    }
    // With one bucket the islands still cover the foreground.
    let mut encoder = Encoder::new(&data, width, height).unwrap().with_workers(1);
    let (_, _, islands) = decode_qoi(&encoder.encode_to_vec().unwrap()).unwrap();
    for &(row, col) in &foreground {
        assert!(islands.islands.iter().any(|island| {
            let (top, left) = island.top_left.unwrap();
            let (bottom, right) = island.btm_right.unwrap();
            top <= row && row <= bottom && left <= col && col <= right
        }));
    }
}
