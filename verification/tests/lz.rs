use lossless_codecs::lz77;
use lossless_codecs::lz78;
use lossless_codecs::lzw;

fn sample_texts() -> Vec<Vec<u8>> {
    let mut texts: Vec<Vec<u8>> = vec![
        vec![],
        vec![0],
        b"aaaa".to_vec(),
        b"abab".to_vec(),
        b"abcabcabcabcabc".to_vec(),
        b"to be or not to be, that is the question".to_vec(),
        vec![0x41; 1000],
        (0..=255u8).collect(),
    ];
    let mut mixed = Vec::new();
    let mut state: u32 = 7;
    for _ in 0..1500 {
        state = state.wrapping_mul(1103515245).wrapping_add(12345);
        mixed.push((state >> 16) as u8 % 4);
    }
    texts.push(mixed);
    texts
}

#[test]
fn lz_match_compares_two_runs() {
    let data = vec![1u8, 2, 3, 1, 2, 3, 4];
    assert!(lz77::lz_match(&data, 0, 3, 3));
    assert!(!lz77::lz_match(&data, 0, 3, 4));
    assert!(lz77::lz_match(&data, 1, 4, 2));
    assert!(lz77::lz_match(&data, 2, 2, 5));
    assert!(lz77::lz_match(&data, 0, 6, 0));
    assert!(lz77::lz_match(&data, 7, 7, 0));
}

#[test]
fn lz_match_is_false_beyond_the_end() {
    let data = vec![1u8, 2, 3, 1, 2, 3, 4];
    assert!(!lz77::lz_match(&data, 5, 0, 3));
    assert!(!lz77::lz_match(&data, 0, 5, 3));
    assert!(!lz77::lz_match(&data, 8, 0, 0));
    assert!(!lz77::lz_match(&data, 0, 0, 8));
}

#[test]
fn lz77_tokens_of_a_run() {
    assert_eq!(
        lz77::lz77_encode(&b"aaaa".to_vec(), 8192),
        vec![(0, 0, 97), (1, 2, 97)]
    );
}

#[test]
fn lz77_tokens_take_the_nearest_longest_match() {
    assert_eq!(
        lz77::lz77_encode(&b"abcabc".to_vec(), 8192),
        vec![(0, 0, 97), (0, 0, 98), (0, 0, 99), (3, 2, 99)]
    );
    assert_eq!(
        lz77::lz77_encode(&b"ababab_".to_vec(), 8192),
        vec![(0, 0, 97), (0, 0, 98), (2, 4, 95)]
    );
}

#[test]
fn lz77_window_bounds_the_distance() {
    assert_eq!(
        lz77::lz77_encode(&b"abcabc".to_vec(), 3),
        vec![(0, 0, 97), (0, 0, 98), (0, 0, 99), (0, 0, 97), (0, 0, 98), (0, 0, 99)]
    );
    assert_eq!(
        lz77::lz77_encode(&b"abcabc".to_vec(), 4),
        vec![(0, 0, 97), (0, 0, 98), (0, 0, 99), (3, 2, 99)]
    );
    assert_eq!(
        lz77::lz77_encode(&b"aaaa".to_vec(), 0),
        vec![(0, 0, 97), (0, 0, 97), (0, 0, 97), (0, 0, 97)]
    );
}

#[test]
fn lz77_match_is_at_most_255_bytes() {
    let data = vec![5u8; 600];
    let tokens = lz77::lz77_encode(&data, 8192);
    assert_eq!(tokens, vec![(0, 0, 5), (1, 255, 5), (1, 255, 5), (1, 86, 5)]);
}

#[test]
fn lz77_archive_has_four_bytes_to_a_token() {
    assert_eq!(
        lz77::compress(&b"aaaa".to_vec()),
        vec![0, 0, 0, 97, 1, 0, 2, 97]
    );
    let mut data = vec![0u8; 300];
    data.extend((0..=255u8).collect::<Vec<u8>>());
    data.extend(vec![0u8; 3]);
    let archive = lz77::compress(&data);
    assert_eq!(archive.len() % 4, 0);
    assert_eq!(lz77::decompress(&archive), Some(data));
}

#[test]
fn lz77_round_trip_of_many_texts() {
    for data in sample_texts() {
        let archive = lz77::compress(&data);
        assert_eq!(lz77::decompress(&archive), Some(data));
    }
}

#[test]
fn lz77_copy_may_reach_into_what_it_writes() {
    assert_eq!(
        lz77::decompress(&vec![0, 0, 0, 1, 0, 0, 0, 2, 2, 0, 5, 9]),
        Some(vec![1, 2, 1, 2, 1, 2, 1, 9])
    );
}

#[test]
fn lz77_copy_from_before_the_start_is_refused() {
    assert_eq!(lz77::decompress(&vec![0, 0, 1, 97]), None);
    assert_eq!(lz77::decompress(&vec![5, 0, 1, 97]), None);
    assert_eq!(lz77::decompress(&vec![0, 0, 0, 97, 2, 0, 1, 98]), None);
}

#[test]
fn lz77_bytes_after_the_last_whole_token_are_not_read() {
    assert_eq!(lz77::decompress(&vec![0, 0, 0, 97, 1, 2]), Some(vec![97]));
    assert_eq!(lz77::decompress(&vec![1, 2, 3]), Some(vec![]));
}

#[test]
fn lz78_tokens_name_earlier_phrases() {
    assert_eq!(
        lz78::lz78_encode(&b"abab".to_vec()),
        vec![(0, 97), (0, 98), (1, 98)]
    );
    assert_eq!(
        lz78::lz78_encode(&b"aaaaaa_".to_vec()),
        vec![(0, 97), (1, 97), (2, 97), (0, 95)]
    );
    assert_eq!(lz78::lz78_encode(&vec![]), Vec::<(u32, u8)>::new());
}

#[test]
fn lz78_last_byte_is_never_part_of_a_phrase() {
    assert_eq!(
        lz78::lz78_encode(&b"aa".to_vec()),
        vec![(0, 97), (0, 97)]
    );
    assert_eq!(
        lz78::lz78_encode(&b"aaa".to_vec()),
        vec![(0, 97), (1, 97)]
    );
}

#[test]
fn lz78_archive_has_three_bytes_to_a_token() {
    assert_eq!(
        lz78::compress(&b"abab".to_vec()),
        vec![0, 0, 97, 0, 0, 98, 1, 0, 98]
    );
}

#[test]
fn lz78_phrase_numbers_take_two_bytes() {
    let data: Vec<u8> = (0..2000u32).map(|i| (i % 251) as u8 ^ (i / 251) as u8).collect();
    let archive = lz78::compress(&data);
    assert!(archive.chunks(3).any(|t| t[1] != 0));
    assert_eq!(lz78::decompress(&archive), Some(data));
}

#[test]
fn lz78_round_trip_of_many_texts() {
    for data in sample_texts() {
        let archive = lz78::compress(&data);
        assert_eq!(lz78::decompress(&archive), Some(data));
    }
}

#[test]
fn lz78_round_trip_with_a_full_dictionary() {
    let mut data = Vec::new();
    let mut state: u32 = 1;
    for _ in 0..30_000 {
        state = state.wrapping_mul(1664525).wrapping_add(1013904223);
        data.push((state >> 24) as u8);
    }
    let archive = lz78::compress(&data);
    assert_eq!(lz78::decompress(&archive), Some(data));
}

#[test]
fn lz78_unknown_phrase_is_refused() {
    assert_eq!(lz78::decompress(&vec![1, 0, 97]), None);
    assert_eq!(lz78::decompress(&vec![0, 0, 97, 2, 0, 98]), None);
    assert_eq!(lz78::decompress(&vec![0, 0, 97, 1, 0, 98]), Some(vec![97, 97, 98]));
}

#[test]
fn lz78_cut_token_is_refused() {
    assert_eq!(lz78::decompress(&vec![0, 0]), None);
    assert_eq!(lz78::decompress(&vec![0, 0, 97, 0]), None);
    assert_eq!(lz78::decompress(&vec![]), Some(vec![]));
}

#[test]
fn lzw_plane_coder_is_the_dictionary_coder() {
    for data in sample_texts() {
        assert_eq!(lzw::lzw_encode(&data), lz78::lz78_encode(&data));
        let code = lzw::lzw_compress(&data);
        assert_eq!(code, lz78::compress(&data));
        assert_eq!(lzw::lzw_decompress(&code), Some(data));
    }
    assert_eq!(lzw::lzw_decompress(&vec![1, 0, 97]), None);
}

#[test]
fn lzw_gray_frame() {
    let data = b"abab".to_vec();
    let archive = lzw::compress_gray(&data, (2, 2));
    assert_eq!(
        archive,
        vec![0, 2, 0, 0, 0, 2, 0, 0, 0, 9, 0, 0, 0, 0, 0, 97, 0, 0, 98, 1, 0, 98]
    );
    assert_eq!(lzw::decompress(&archive), Some((data, (2, 2))));
}

#[test]
fn lzw_rgb_frame() {
    let data = vec![1u8, 2, 3, 1, 2, 3];
    let archive = lzw::compress_rgb(&data, (2, 1));
    assert_eq!(
        archive,
        vec![
            1, 2, 0, 0, 0, 1, 0, 0, 0, 6, 0, 0, 0, 0, 0, 1, 0, 0, 1, 6, 0, 0, 0, 0, 0, 2, 0, 0, 2,
            6, 0, 0, 0, 0, 0, 3, 0, 0, 3
        ]
    );
    assert_eq!(lzw::decompress(&archive), Some((data, (2, 1))));
}

#[test]
fn lzw_rgb_frame_drops_bytes_after_the_last_whole_pixel() {
    let data = vec![1u8, 2, 3, 4, 5, 6, 7, 8];
    let archive = lzw::compress_rgb(&data, (2, 1));
    assert_eq!(lzw::decompress(&archive), Some((vec![1, 2, 3, 4, 5, 6], (2, 1))));
}

#[test]
fn lzw_frames_of_larger_images_round_trip() {
    let data: Vec<u8> = (0..3000u32).map(|i| (i * i % 17) as u8).collect();
    let gray = lzw::compress_gray(&data, (60, 50));
    assert_eq!(lzw::decompress(&gray), Some((data.clone(), (60, 50))));
    let rgb = lzw::compress_rgb(&data, (40, 25));
    assert_eq!(lzw::decompress(&rgb), Some((data, (40, 25))));
}

#[test]
fn lzw_cut_frame_is_refused() {
    assert_eq!(lzw::decompress(&vec![]), None);
    assert_eq!(lzw::decompress(&vec![0; 12]), None);
    assert_eq!(
        lzw::decompress(&vec![1, 2, 0, 0, 0, 1, 0, 0, 0, 6, 0, 0, 0, 0, 0, 1, 0, 0]),
        None
    );
    assert_eq!(
        lzw::decompress(&vec![0, 2, 0, 0, 0, 2, 0, 0, 0, 2, 0, 0, 0, 0, 0]),
        None
    );
    assert_eq!(
        lzw::decompress(&vec![0, 1, 0, 0, 0, 1, 0, 0, 0, 0, 0, 0, 0]),
        Some((vec![], (1, 1)))
    );
}

#[test]
fn lzw_planes_of_unequal_length_are_refused() {
    let frame = vec![
        1, 2, 0, 0, 0, 1, 0, 0, 0, 6, 0, 0, 0, 0, 0, 1, 0, 0, 1, 3, 0, 0, 0, 0, 0, 2, 6, 0, 0, 0,
        0, 0, 3, 0, 0, 3,
    ];
    assert_eq!(lzw::decompress(&frame), None);
}

#[test]
fn lz_match_is_the_same_in_every_coder() {
    let data = vec![4u8, 4, 5, 4, 4, 5];
    for (a, b, n) in [(0usize, 3usize, 3usize), (0, 3, 2), (0, 1, 1), (0, 1, 2), (4, 1, 2), (5, 5, 2)] {
        let expected = lz77::lz_match(&data, a, b, n);
        assert_eq!(lz78::lz_match(&data, a, b, n), expected);
        assert_eq!(lzw::lz_match(&data, a, b, n), expected);
    }
}
