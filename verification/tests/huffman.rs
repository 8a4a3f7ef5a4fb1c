use lossless_codecs::archive::{compress_with, decompress_with, DecodeError, Metadata, Strategy};
use lossless_codecs::bits::Bit;
use lossless_codecs::huffman::{compress, decompress};
use std::collections::HashMap;

fn bits_of(text: &str) -> Vec<Bit> {
    text.chars()
        .map(|c| if c == '1' { Bit::One } else { Bit::Zero })
        .collect()
}

fn sample_texts() -> Vec<Vec<u8>> {
    let mut texts: Vec<Vec<u8>> = vec![
        vec![0],
        vec![255],
        vec![1, 2, 3, 4],
        vec![7, 7, 7, 7],
        vec![0, 0, 0, 0, 0, 0, 0, 0],
        b"abracadabra".to_vec(),
        b"the quick brown fox jumps over the lazy dog".to_vec(),
        (0..=255u8).collect(),
        (0..=255u8).rev().collect(),
    ];
    let mut mixed = Vec::new();
    let mut state: u32 = 12345;
    for _ in 0..3000 {
        state = state.wrapping_mul(1103515245).wrapping_add(12345);
        mixed.push((state >> 16) as u8 % 37);
    }
    texts.push(mixed);
    for len in 1..20usize {
        texts.push((0..len).map(|i| (i * i % 5) as u8).collect());
    }
    texts
}

#[test]
fn static_round_trip_of_four_symbols() {
    let data: Vec<u8> = vec![1, 2, 3, 4];
    let archive = compress(&data);
    assert_eq!(archive, vec![7, 3, 1, 0, 2, 1, 3, 2, 4, 3, 233, 0]);
    assert_eq!(decompress(&archive), Ok(data));
}

#[test]
fn static_round_trip_of_many_texts() {
    for data in sample_texts() {
        let archive = compress(&data);
        assert_eq!(decompress(&archive), Ok(data));
    }
}

#[test]
fn static_single_symbol_alphabet() {
    let data: Vec<u8> = vec![7, 7, 7, 7];
    let archive = compress(&data);
    assert_eq!(archive, vec![4, 0, 7, 0, 0b0000_1111]);
    assert_eq!(decompress(&archive), Ok(data));
}

#[test]
fn static_full_alphabet_round_trips_with_256_entries() {
    let mut data: Vec<u8> = (0..=255u8).collect();
    data.extend_from_slice(&[3, 3, 200, 0, 255]);
    let archive = compress(&data);
    assert_eq!(archive[1], 255);
    for i in 0..256usize {
        assert_eq!(archive[2 + 2 * i], i as u8);
        assert_eq!(archive[2 + 2 * i + 1], i as u8);
    }
    assert!(archive.len() > 2 + 512);
    assert_eq!(decompress(&archive), Ok(data));
}

#[test]
fn static_empty_text_has_the_empty_archive() {
    assert_eq!(compress(&vec![]), Vec::<u8>::new());
    assert_eq!(decompress(&vec![]), Ok(vec![]));
}

#[test]
fn static_declared_padding_fills_the_last_byte() {
    for data in sample_texts() {
        let metadata = Metadata::compute(&data, Strategy::BottomUp);
        let bits: usize = data.iter().map(|b| metadata.code[b].len()).sum();
        let archive = compress(&data);
        let payload = archive.len() - 2 - 2 * metadata.weights.len();
        assert_eq!(archive[0] as usize, (8 - bits % 8) % 8);
        assert_eq!(payload * 8 - archive[0] as usize, bits);
        if bits % 8 == 0 {
            assert_eq!(archive[0], 0);
        }
    }
}

#[test]
fn static_padding_is_zero_for_whole_bytes() {
    let data = vec![9u8; 16];
    let archive = compress(&data);
    assert_eq!(archive, vec![0, 0, 9, 0, 255, 255]);
    assert_eq!(decompress(&archive), Ok(data));
}

#[test]
fn static_repetitive_text_shrinks() {
    let data = vec![0x41u8; 10_000];
    let archive = compress(&data);
    assert_eq!(archive.len(), 4 + 1250);
    assert!(archive.len() < data.len());
    assert_eq!(decompress(&archive), Ok(data));
}

#[test]
fn static_short_header_is_malformed() {
    assert_eq!(decompress(&vec![0]), Err(DecodeError::MalformedHeader));
    assert_eq!(decompress(&vec![0, 0, 7]), Err(DecodeError::MalformedHeader));
    assert_eq!(
        decompress(&vec![7, 3, 1, 0, 2, 1, 3, 2, 4]),
        Err(DecodeError::MalformedHeader)
    );
}

#[test]
fn static_padding_above_seven_is_malformed() {
    assert_eq!(
        decompress(&vec![8, 0, 7, 0, 15]),
        Err(DecodeError::MalformedHeader)
    );
}

#[test]
fn static_padding_without_payload_is_malformed() {
    assert_eq!(decompress(&vec![3, 0, 7, 0]), Err(DecodeError::MalformedHeader));
}

#[test]
fn static_header_without_payload_holds_no_text() {
    assert_eq!(decompress(&vec![0, 0, 7, 0]), Ok(vec![]));
}

#[test]
fn static_payload_that_ends_in_a_codeword_is_truncated() {
    assert_eq!(
        decompress(&vec![7, 3, 1, 0, 2, 1, 3, 2, 4, 3, 233, 1]),
        Err(DecodeError::TruncatedPayload)
    );
    assert_eq!(
        decompress(&vec![6, 3, 1, 0, 2, 1, 3, 2, 4, 3, 233, 2]),
        Err(DecodeError::TruncatedPayload)
    );
}

#[test]
fn static_decoder_builds_the_tree_from_the_header_alone() {
    let archive = vec![5, 1, 10, 9, 20, 4, 0b0000_0101];
    assert_eq!(decompress(&archive), Ok(vec![10, 20, 10]));
}

#[test]
fn metadata_of_a_text_holds_ranks_tree_and_table() {
    let metadata = Metadata::compute(&vec![4, 1, 3, 2, 1], Strategy::BottomUp);
    assert_eq!(metadata.weights, vec![(1, 0), (2, 1), (3, 2), (4, 3)]);
    assert_eq!(metadata.remainder, 0);
    assert_eq!(metadata.strategy, Strategy::BottomUp);
    let mut expected = HashMap::new();
    expected.insert(4u8, bits_of("0"));
    expected.insert(1u8, bits_of("100"));
    expected.insert(2u8, bits_of("101"));
    expected.insert(3u8, bits_of("11"));
    assert_eq!(metadata.code, expected);
    assert_eq!(metadata.tree.get_code(), expected);
}

#[test]
fn metadata_dump_writes_the_header() {
    let mut metadata = Metadata::compute(&vec![4, 1, 3, 2, 1], Strategy::BottomUp);
    metadata.remainder = 5;
    assert_eq!(metadata.dump(), vec![5, 3, 1, 0, 2, 1, 3, 2, 4, 3]);
}

#[test]
fn metadata_load_reads_the_header() {
    let archive = vec![7, 3, 1, 0, 2, 1, 3, 2, 4, 3, 233, 0];
    let metadata = Metadata::load(&archive, Strategy::BottomUp).unwrap();
    assert_eq!(metadata.weights, vec![(1, 0), (2, 1), (3, 2), (4, 3)]);
    assert_eq!(metadata.remainder, 7);
    assert_eq!(metadata.dump(), archive[..10].to_vec());
    assert_eq!(
        Metadata::load(&vec![7, 3, 1], Strategy::BottomUp).err(),
        Some(DecodeError::MalformedHeader)
    );
    assert_eq!(
        Metadata::load(&vec![], Strategy::TopDown).err(),
        Some(DecodeError::MalformedHeader)
    );
}

#[test]
fn strategies_give_different_archives_that_each_round_trip() {
    let data = vec![1u8, 2, 3, 4];
    let bottom_up = compress_with(&data, Strategy::BottomUp);
    let top_down = compress_with(&data, Strategy::TopDown);
    assert_ne!(bottom_up, top_down);
    assert_eq!(decompress_with(&bottom_up, Strategy::BottomUp), Ok(data.clone()));
    assert_eq!(decompress_with(&top_down, Strategy::TopDown), Ok(data));
}
