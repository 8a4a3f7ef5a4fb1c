use lossless_codecs::adaptive::{
    build_rank_tree, compress, copy_bytes, decompress, find_position, sort_symbols, Metadata,
};
use lossless_codecs::archive::DecodeError;
use lossless_codecs::bits::{Bit, BitReader};
use lossless_codecs::symbol_model::get_alphabet;
use std::collections::HashMap;

fn bits_of(text: &str) -> Vec<Bit> {
    text.chars()
        .map(|c| if c == '1' { Bit::One } else { Bit::Zero })
        .collect()
}

#[test]
fn rank_tree_over_four_places() {
    let mut expected = HashMap::new();
    expected.insert(3u8, bits_of("0"));
    expected.insert(2u8, bits_of("10"));
    expected.insert(0u8, bits_of("110"));
    expected.insert(1u8, bits_of("111"));
    assert_eq!(build_rank_tree(4).get_code(), expected);
}

#[test]
fn rank_tree_over_one_place_is_a_leaf() {
    assert_eq!(format!("{:?}", build_rank_tree(1)), "Leaf(0)");
}

#[test]
fn rank_tree_over_256_places_has_256_codewords() {
    assert_eq!(build_rank_tree(256).get_code().len(), 256);
}

#[test]
fn find_position_gives_the_first_place() {
    assert_eq!(find_position(&vec![5, 6, 7], 5), 0);
    assert_eq!(find_position(&vec![5, 6, 7], 7), 2);
    assert_eq!(find_position(&vec![5, 6, 5, 6], 6), 1);
}

#[test]
fn sort_symbols_sorts_and_keeps_equal_symbols() {
    assert_eq!(sort_symbols(&vec![9, 3, 200, 3, 0]), vec![0, 3, 3, 9, 200]);
    assert_eq!(sort_symbols(&vec![1, 2, 3]), vec![1, 2, 3]);
    assert_eq!(sort_symbols(&vec![]), Vec::<u8>::new());
}

#[test]
fn copy_bytes_copies_a_part() {
    assert_eq!(copy_bytes(&vec![1, 2, 3, 4, 5], 1, 4), vec![2, 3, 4]);
    assert_eq!(copy_bytes(&vec![1, 2, 3], 3, 3), Vec::<u8>::new());
}

#[test]
fn adaptive_round_trip_of_four_symbols() {
    let data: Vec<u8> = vec![1, 2, 3, 4];
    let archive = compress(&data);
    assert_eq!(archive, vec![4, 3, 1, 2, 3, 4, 219, 6]);
    assert_eq!(decompress(&archive), Ok(data));
}

#[test]
fn adaptive_codes_a_repeated_symbol_by_its_new_place() {
    let data: Vec<u8> = vec![1, 1, 2];
    let archive = compress(&data);
    assert_eq!(archive, vec![5, 1, 1, 2, 0b0000_0010]);
    assert_eq!(decompress(&archive), Ok(data));
}

#[test]
fn adaptive_single_symbol_alphabet() {
    let data: Vec<u8> = vec![7, 7, 7, 7];
    let archive = compress(&data);
    assert_eq!(archive, vec![4, 0, 7, 15]);
    assert_eq!(decompress(&archive), Ok(data));
}

#[test]
fn adaptive_full_alphabet_round_trips_with_256_entries() {
    let mut data: Vec<u8> = (0..=255u8).rev().collect();
    data.extend_from_slice(&[0, 0, 255, 17, 17, 3]);
    let archive = compress(&data);
    assert_eq!(archive[1], 255);
    let stored: Vec<u8> = archive[2..258].to_vec();
    let expected: Vec<u8> = (0..=255u8).collect();
    assert_eq!(stored, expected);
    assert_eq!(decompress(&archive), Ok(data));
}

#[test]
fn adaptive_round_trip_of_many_texts() {
    let mut texts: Vec<Vec<u8>> = vec![
        vec![],
        vec![0],
        b"abracadabra".to_vec(),
        b"the quick brown fox jumps over the lazy dog".to_vec(),
        vec![0x41; 10_000],
    ];
    let mut mixed = Vec::new();
    let mut state: u32 = 99;
    for _ in 0..2000 {
        state = state.wrapping_mul(1664525).wrapping_add(1013904223);
        mixed.push((state >> 24) as u8 % 50);
    }
    texts.push(mixed);
    for data in texts {
        let archive = compress(&data);
        assert_eq!(decompress(&archive), Ok(data));
    }
}

#[test]
fn adaptive_repetitive_text_shrinks() {
    let data = vec![0x41u8; 10_000];
    let archive = compress(&data);
    assert_eq!(archive.len(), 3 + 1250);
    assert!(archive.len() < data.len());
}

#[test]
fn adaptive_declared_padding_fills_the_last_byte() {
    let texts: Vec<Vec<u8>> = vec![vec![1, 2, 3, 4], vec![7; 8], vec![7; 9], b"mississippi".to_vec()];
    for data in texts {
        let metadata = Metadata::compute(&data);
        let mut list = metadata.alphabet.clone();
        let mut bits = 0usize;
        for &byte in &data {
            let place = find_position(&list, byte);
            bits += metadata.code[&(place as u8)].len();
            list.remove(place);
            list.push(byte);
        }
        let archive = compress(&data);
        let payload = archive.len() - 2 - metadata.alphabet.len();
        assert_eq!(archive[0] as usize, (8 - bits % 8) % 8);
        assert_eq!(payload * 8 - archive[0] as usize, bits);
    }
}

#[test]
fn adaptive_lists_of_both_sides_agree_after_every_symbol() {
    let data = b"she sells sea shells on the sea shore".to_vec();
    let archive = compress(&data);
    let metadata = Metadata::load(&archive).unwrap();
    assert_eq!(metadata.alphabet, get_alphabet(&data));
    let payload = archive[2 + metadata.alphabet.len()..].to_vec();
    let mut reader = BitReader::new(&payload, metadata.remainder);
    let places = metadata.tree.read_symbols(&mut reader).unwrap();
    assert_eq!(places.len(), data.len());
    let mut encoder_list = get_alphabet(&data);
    let mut decoder_list = metadata.alphabet.clone();
    for (i, &byte) in data.iter().enumerate() {
        assert_eq!(encoder_list, decoder_list);
        let place = find_position(&encoder_list, byte);
        assert_eq!(place, places[i] as usize);
        encoder_list.remove(place);
        encoder_list.push(byte);
        let read = decoder_list.remove(places[i] as usize);
        decoder_list.push(read);
        assert_eq!(read, byte);
    }
    assert_eq!(encoder_list, decoder_list);
}

#[test]
fn adaptive_metadata_dump_and_load() {
    let mut metadata = Metadata::compute(&vec![9, 3, 9, 200]);
    assert_eq!(metadata.alphabet, vec![3, 9, 200]);
    assert_eq!(metadata.remainder, 0);
    metadata.remainder = 2;
    assert_eq!(metadata.dump(), vec![2, 2, 3, 9, 200]);
    let loaded = Metadata::load(&vec![2, 2, 200, 3, 9, 77]).unwrap();
    assert_eq!(loaded.alphabet, vec![3, 9, 200]);
    assert_eq!(loaded.remainder, 2);
    assert_eq!(loaded.code, metadata.code);
}

#[test]
fn adaptive_decoder_sorts_the_stored_alphabet() {
    let sorted = vec![4, 3, 1, 2, 3, 4, 219, 6];
    let shuffled = vec![4, 3, 3, 1, 4, 2, 219, 6];
    assert_eq!(decompress(&shuffled), decompress(&sorted));
}

#[test]
fn adaptive_errors() {
    assert_eq!(decompress(&vec![0]), Err(DecodeError::MalformedHeader));
    assert_eq!(decompress(&vec![0, 3, 1, 2, 3]), Err(DecodeError::MalformedHeader));
    assert_eq!(decompress(&vec![8, 0, 7, 15]), Err(DecodeError::MalformedHeader));
    assert_eq!(decompress(&vec![1, 0, 7]), Err(DecodeError::MalformedHeader));
    assert_eq!(
        decompress(&vec![6, 3, 1, 2, 3, 4, 219, 3]),
        Err(DecodeError::TruncatedPayload)
    );
    assert_eq!(decompress(&vec![0, 0, 7]), Ok(vec![]));
}
