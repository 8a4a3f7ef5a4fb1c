use lossless_codecs::archive::DecodeError;
use lossless_codecs::bits::Bit;
use lossless_codecs::code_tree::CodeTree;
use lossless_codecs::fano::{compress, decompress, partition, prefix_sum};
use lossless_codecs::priority_queue::Weighted;
use std::collections::HashMap;

fn bits_of(text: &str) -> Vec<Bit> {
    text.chars()
        .map(|c| if c == '1' { Bit::One } else { Bit::Zero })
        .collect()
}

fn weighted(pairs: &[(u8, u32)]) -> Vec<Weighted<u8>> {
    pairs
        .iter()
        .map(|p| Weighted {
            weight: p.1,
            value: p.0,
        })
        .collect()
}

#[test]
fn prefix_sum_adds_up_the_weights() {
    assert_eq!(
        prefix_sum(&weighted(&[(1, 0), (2, 1), (3, 2), (4, 3)])),
        vec![0, 1, 3, 6]
    );
    assert_eq!(prefix_sum(&weighted(&[(9, 5)])), vec![5]);
    assert_eq!(prefix_sum(&weighted(&[])), Vec::<u32>::new());
}

#[test]
fn partition_splits_where_the_sides_weigh_most_alike() {
    assert_eq!(partition(&vec![0, 1, 3, 6]), 2);
    assert_eq!(partition(&vec![0, 1, 3]), 1);
    assert_eq!(partition(&vec![1, 2, 3, 4]), 1);
    assert_eq!(partition(&vec![10, 11, 12, 13, 14]), 0);
}

#[test]
fn partition_never_leaves_a_side_empty() {
    assert_eq!(partition(&vec![0, 1]), 0);
    assert_eq!(partition(&vec![1, 3, 6, 106]), 2);
    assert_eq!(partition(&vec![0, 0, 0, 100]), 1);
    assert_eq!(partition(&vec![5]), 0);
}

#[test]
fn partition_prefers_the_middle_among_equals() {
    assert_eq!(partition(&vec![2, 2, 4]), 1);
    assert_eq!(partition(&vec![0, 0, 0, 0, 0, 0]), 2);
    assert_eq!(partition(&vec![3, 3, 3, 3, 3, 3, 6]), 3);
}

#[test]
fn partition_prefers_the_earlier_of_two_equally_near_the_middle() {
    assert_eq!(partition(&vec![1, 1, 2, 2, 2, 3]), 2);
}

#[test]
fn from_weighs_splits_again_and_again() {
    let tree = CodeTree::from_weighs(&weighted(&[(1, 0), (2, 1), (3, 2), (4, 3)]));
    let mut expected = HashMap::new();
    expected.insert(1u8, bits_of("000"));
    expected.insert(2u8, bits_of("001"));
    expected.insert(3u8, bits_of("01"));
    expected.insert(4u8, bits_of("1"));
    assert_eq!(tree.get_code(), expected);
}

#[test]
fn from_weighs_of_one_symbol_is_a_leaf() {
    let tree = CodeTree::from_weighs(&weighted(&[(42, 7)]));
    assert_eq!(format!("{:?}", tree), "Leaf(42)");
}

#[test]
fn from_pairs_sorts_by_weight_and_keeps_equal_weights_in_order() {
    let tree = CodeTree::from_pairs(&vec![(4, 3), (2, 1), (1, 0), (3, 2)]);
    let sorted = CodeTree::from_weighs(&weighted(&[(1, 0), (2, 1), (3, 2), (4, 3)]));
    assert_eq!(format!("{:?}", tree), format!("{:?}", sorted));
    let tied = CodeTree::from_pairs(&vec![(9, 1), (8, 1), (7, 0)]);
    let expected = CodeTree::from_weighs(&weighted(&[(7, 0), (9, 1), (8, 1)]));
    assert_eq!(format!("{:?}", tied), format!("{:?}", expected));
}

#[test]
fn top_down_round_trip_of_four_symbols() {
    let data: Vec<u8> = vec![1, 2, 3, 4];
    let archive = compress(&data);
    assert_eq!(archive, vec![7, 3, 1, 0, 2, 1, 3, 2, 4, 3, 160, 1]);
    assert_eq!(decompress(&archive), Ok(data));
}

#[test]
fn top_down_single_symbol_alphabet() {
    let data: Vec<u8> = vec![7, 7, 7, 7];
    let archive = compress(&data);
    assert_eq!(archive, vec![4, 0, 7, 0, 15]);
    assert_eq!(decompress(&archive), Ok(data));
}

#[test]
fn top_down_round_trip_of_many_texts() {
    let mut texts: Vec<Vec<u8>> = vec![
        vec![0],
        b"abracadabra".to_vec(),
        (0..=255u8).collect(),
        vec![0x41; 10_000],
        vec![],
    ];
    for len in 1..40usize {
        texts.push((0..len).map(|i| (i * 7 % 11) as u8).collect());
    }
    for data in texts {
        let archive = compress(&data);
        assert_eq!(decompress(&archive), Ok(data));
    }
}

#[test]
fn top_down_full_alphabet_has_256_entries() {
    let data: Vec<u8> = (0..=255u8).collect();
    let archive = compress(&data);
    assert_eq!(archive[1], 255);
    assert_eq!(decompress(&archive), Ok(data));
}

#[test]
fn top_down_repetitive_text_shrinks() {
    let data = vec![0x41u8; 10_000];
    assert!(compress(&data).len() < data.len());
}

#[test]
fn top_down_errors() {
    assert_eq!(decompress(&vec![1]), Err(DecodeError::MalformedHeader));
    assert_eq!(
        decompress(&vec![9, 0, 7, 0, 15]),
        Err(DecodeError::MalformedHeader)
    );
    assert_eq!(
        decompress(&vec![7, 3, 1, 0, 2, 1, 3, 2, 4, 3, 160, 0]),
        Err(DecodeError::TruncatedPayload)
    );
}
