use lossless_codecs::image::{dump_block, dump_u32, interleave, read_block, read_u32, split_data};
use lossless_codecs::rle::{
    compress_gray, compress_rgb, decompress, dump_repeat, dump_unique, rle_decode, rle_encode,
};

#[test]
fn dump_unique_writes_bytes_as_they_are() {
    let mut encoded = vec![9i8];
    dump_unique(&mut encoded, &vec![1, 2, 200]);
    assert_eq!(encoded, vec![9, -3, 1, 2, -56]);
    let mut encoded = Vec::new();
    dump_unique(&mut encoded, &vec![]);
    assert_eq!(encoded, Vec::<i8>::new());
}

#[test]
fn dump_unique_cuts_chunks_at_127_bytes() {
    let unique: Vec<u8> = (0..130u8).collect();
    let mut encoded = Vec::new();
    dump_unique(&mut encoded, &unique);
    assert_eq!(encoded.len(), 132);
    assert_eq!(encoded[0], -127);
    assert_eq!(encoded[1], 0);
    assert_eq!(encoded[127], 126);
    assert_eq!(encoded[128], -3);
    assert_eq!(encoded[129], 127);
    assert_eq!(encoded[130], -128);
    assert_eq!(encoded[131], -127);
}

#[test]
fn dump_repeat_writes_a_count_and_the_byte() {
    let mut encoded = vec![9i8];
    dump_repeat(&mut encoded, 5, 3);
    assert_eq!(encoded, vec![9, 3, 5]);
    let mut encoded = Vec::new();
    dump_repeat(&mut encoded, 255, 1);
    assert_eq!(encoded, vec![1, -1]);
    let mut encoded = Vec::new();
    dump_repeat(&mut encoded, 5, 0);
    assert_eq!(encoded, Vec::<i8>::new());
}

#[test]
fn dump_repeat_cuts_chunks_at_127_repeats() {
    let mut encoded = Vec::new();
    dump_repeat(&mut encoded, 9, 300);
    assert_eq!(encoded, vec![127, 9, 127, 9, 46, 9]);
    let mut encoded = Vec::new();
    dump_repeat(&mut encoded, 9, 254);
    assert_eq!(encoded, vec![127, 9, 127, 9]);
}

#[test]
fn rle_encode_writes_runs_and_single_bytes() {
    assert_eq!(
        rle_encode(&vec![5, 5, 5, 1, 2, 3, 3]),
        vec![3, 5, -2, 1, 2, 2, 3]
    );
    assert_eq!(rle_encode(&vec![5, 5, 5]), vec![3, 5]);
    assert_eq!(rle_encode(&vec![]), Vec::<i8>::new());
}

#[test]
fn rle_encode_writes_the_last_byte_as_a_repeat() {
    assert_eq!(rle_encode(&vec![1, 2]), vec![-1, 1, 1, 2]);
    assert_eq!(rle_encode(&vec![7]), vec![1, 7]);
    assert_eq!(rle_encode(&vec![1, 2, 3]), vec![-2, 1, 2, 1, 3]);
    assert_eq!(rle_encode(&vec![4, 4, 9]), vec![2, 4, 1, 9]);
}

#[test]
fn rle_decode_reads_both_kinds_of_chunk() {
    assert_eq!(
        rle_decode(&vec![3, 5, -2, 1, 2, 2, 3]),
        Some(vec![5, 5, 5, 1, 2, 3, 3])
    );
    assert_eq!(rle_decode(&vec![2, -1, -1, -128]), Some(vec![255, 255, 128]));
    assert_eq!(rle_decode(&vec![0, 5, 1, 6]), Some(vec![6]));
    assert_eq!(rle_decode(&vec![]), Some(vec![]));
}

#[test]
fn rle_decode_refuses_cut_chunks() {
    assert_eq!(rle_decode(&vec![-2, 1]), None);
    assert_eq!(rle_decode(&vec![3]), None);
    assert_eq!(rle_decode(&vec![1, 5, -1]), None);
    assert_eq!(rle_decode(&vec![-128, 1, 2, 3]), None);
}

#[test]
fn rle_round_trip_of_many_planes() {
    let mut planes: Vec<Vec<u8>> = vec![
        vec![],
        vec![0],
        vec![255; 128],
        vec![3; 1000],
        (0..=255u8).collect(),
        (0..=255u8).chain(0..=255u8).collect(),
    ];
    let mut mixed = Vec::new();
    let mut state: u32 = 3;
    for _ in 0..4000 {
        state = state.wrapping_mul(1103515245).wrapping_add(12345);
        let byte = (state >> 16) as u8 % 3;
        let run = (state >> 8) as usize % 5;
        for _ in 0..=run {
            mixed.push(byte.wrapping_mul(100));
        }
    }
    planes.push(mixed);
    for plane in planes {
        let encoded = rle_encode(&plane);
        assert_eq!(rle_decode(&encoded), Some(plane));
    }
}

#[test]
fn split_data_takes_the_planes_apart() {
    assert_eq!(
        split_data(&vec![1, 2, 3, 4, 5, 6, 7, 8]),
        (vec![1, 4], vec![2, 5], vec![3, 6])
    );
    assert_eq!(split_data(&vec![1, 2]), (vec![], vec![], vec![]));
}

#[test]
fn interleave_puts_the_planes_together() {
    assert_eq!(
        interleave(&vec![1, 4], &vec![2, 5], &vec![3, 6]),
        vec![1, 2, 3, 4, 5, 6]
    );
    assert_eq!(
        interleave(&vec![1], &vec![2, 5], &vec![3, 6, 9]),
        vec![1, 2, 3]
    );
}

#[test]
fn numbers_of_four_bytes_have_the_low_byte_first() {
    let mut bytes = vec![7u8];
    dump_u32(&mut bytes, 0x0102_0304);
    dump_u32(&mut bytes, 258);
    dump_u32(&mut bytes, u32::MAX);
    assert_eq!(bytes, vec![7, 4, 3, 2, 1, 2, 1, 0, 0, 255, 255, 255, 255]);
    assert_eq!(read_u32(&bytes, 1), 0x0102_0304);
    assert_eq!(read_u32(&bytes, 5), 258);
    assert_eq!(read_u32(&bytes, 9), u32::MAX);
    assert_eq!(read_u32(&bytes, 0), 0x0203_0407);
}

#[test]
fn blocks_carry_their_length() {
    let mut bytes = vec![7u8];
    dump_block(&mut bytes, &vec![9, 8, 7]);
    assert_eq!(bytes, vec![7, 3, 0, 0, 0, 9, 8, 7]);
    assert_eq!(read_block(&bytes, 1), Some(vec![9, 8, 7]));
    assert_eq!(read_block(&bytes, 0), None);
    assert_eq!(read_block(&bytes, 5), None);
    assert_eq!(read_block(&bytes, 100), None);
    assert_eq!(read_block(&vec![0, 0, 0, 0], 0), Some(vec![]));
}

#[test]
fn rle_gray_frame() {
    let data = vec![5u8, 5, 5];
    let archive = compress_gray(&data, (3, 1));
    assert_eq!(archive, vec![0, 3, 0, 0, 0, 1, 0, 0, 0, 2, 0, 0, 0, 3, 5]);
    assert_eq!(decompress(&archive), Some((data, (3, 1))));
}

#[test]
fn rle_rgb_frame() {
    let data = vec![1u8, 2, 3, 1, 2, 3];
    let archive = compress_rgb(&data, (2, 1));
    assert_eq!(
        archive,
        vec![
            1, 2, 0, 0, 0, 1, 0, 0, 0, 2, 0, 0, 0, 2, 1, 2, 0, 0, 0, 2, 2, 2, 0, 0, 0, 2, 3
        ]
    );
    assert_eq!(decompress(&archive), Some((data, (2, 1))));
}

#[test]
fn rle_frame_keeps_large_dimensions() {
    let archive = compress_gray(&vec![200], (0x0102_0304, 258));
    assert_eq!(
        archive,
        vec![0, 4, 3, 2, 1, 2, 1, 0, 0, 2, 0, 0, 0, 1, 200]
    );
    assert_eq!(decompress(&archive), Some((vec![200], (0x0102_0304, 258))));
}

#[test]
fn rle_frames_of_larger_images_round_trip() {
    let data: Vec<u8> = (0..3000u32).map(|i| (i / 7 % 200) as u8).collect();
    let gray = compress_gray(&data, (60, 50));
    assert_eq!(decompress(&gray), Some((data.clone(), (60, 50))));
    let rgb = compress_rgb(&data, (40, 25));
    assert_eq!(decompress(&rgb), Some((data, (40, 25))));
    let odd = vec![1u8, 2, 3, 4, 5];
    let rgb = compress_rgb(&odd, (1, 1));
    assert_eq!(decompress(&rgb), Some((vec![1, 2, 3], (1, 1))));
}

#[test]
fn rle_gray_frame_reads_all_that_follows_the_head() {
    let frame = vec![0, 1, 0, 0, 0, 1, 0, 0, 0, 0, 0, 0, 0, 2, 9, 1, 8];
    assert_eq!(decompress(&frame), Some((vec![9, 9, 8], (1, 1))));
}

#[test]
fn rle_cut_frame_is_refused() {
    assert_eq!(decompress(&vec![]), None);
    assert_eq!(decompress(&vec![0; 12]), None);
    assert_eq!(decompress(&vec![1; 12]), None);
    assert_eq!(
        decompress(&vec![0, 3, 0, 0, 0, 1, 0, 0, 0, 2, 0, 0, 0, 3]),
        None
    );
    assert_eq!(
        decompress(&vec![1, 2, 0, 0, 0, 1, 0, 0, 0, 2, 0, 0, 0, 2, 1, 2, 0, 0, 0, 2, 2]),
        None
    );
    assert_eq!(
        decompress(&vec![
            1, 2, 0, 0, 0, 1, 0, 0, 0, 2, 0, 0, 0, 2, 1, 2, 0, 0, 0, 2, 2, 9, 0, 0, 0, 2, 3
        ]),
        None
    );
}

#[test]
fn rle_planes_of_unequal_length_are_refused() {
    let frame = vec![
        1, 2, 0, 0, 0, 1, 0, 0, 0, 2, 0, 0, 0, 2, 1, 2, 0, 0, 0, 1, 2, 2, 0, 0, 0, 2, 3,
    ];
    assert_eq!(decompress(&frame), None);
    let frame = vec![
        1, 2, 0, 0, 0, 1, 0, 0, 0, 2, 0, 0, 0, 1, 1, 2, 0, 0, 0, 2, 2, 2, 0, 0, 0, 2, 3,
    ];
    assert_eq!(decompress(&frame), Some((vec![1, 2, 3], (2, 1))));
}
