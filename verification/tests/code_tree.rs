use lossless_codecs::bits::{Bit, BitReader};
use lossless_codecs::code_tree::{copy_bits, CodeTree};
use lossless_codecs::priority_queue::PriorityQueue;
use std::collections::HashMap;

fn bits_of(text: &str) -> Vec<Bit> {
    text.chars()
        .map(|c| if c == '1' { Bit::One } else { Bit::Zero })
        .collect()
}

fn node(left: CodeTree, right: CodeTree) -> CodeTree {
    CodeTree::Node(Box::new(left), Box::new(right))
}

fn sample() -> CodeTree {
    node(
        CodeTree::Leaf(4),
        node(node(CodeTree::Leaf(1), CodeTree::Leaf(2)), CodeTree::Leaf(3)),
    )
}

fn is_prefix(a: &Vec<Bit>, b: &Vec<Bit>) -> bool {
    a.len() <= b.len() && a[..] == b[..a.len()]
}

#[test]
fn single_leaf_has_the_codeword_one() {
    let code = CodeTree::Leaf(7).get_code();
    let mut expected = HashMap::new();
    expected.insert(7u8, bits_of("1"));
    assert_eq!(code, expected);
}

#[test]
fn codewords_are_the_paths_to_the_leaves() {
    let code = sample().get_code();
    let mut expected = HashMap::new();
    expected.insert(4u8, bits_of("0"));
    expected.insert(1u8, bits_of("100"));
    expected.insert(2u8, bits_of("101"));
    expected.insert(3u8, bits_of("11"));
    assert_eq!(code, expected);
}

#[test]
fn dfs_adds_codewords_behind_the_path_so_far_and_gives_the_path_back() {
    let mut code = HashMap::new();
    code.insert(9u8, bits_of("000"));
    let tree = node(CodeTree::Leaf(1), CodeTree::Leaf(2));
    let acc = CodeTree::dfs(&tree, bits_of("01"), &mut code);
    assert_eq!(acc, bits_of("01"));
    let mut expected = HashMap::new();
    expected.insert(9u8, bits_of("000"));
    expected.insert(1u8, bits_of("010"));
    expected.insert(2u8, bits_of("011"));
    assert_eq!(code, expected);
}

#[test]
fn a_symbol_at_two_leaves_takes_the_codeword_of_the_right_one() {
    let tree = node(CodeTree::Leaf(5), node(CodeTree::Leaf(6), CodeTree::Leaf(5)));
    let code = tree.get_code();
    let mut expected = HashMap::new();
    expected.insert(5u8, bits_of("11"));
    expected.insert(6u8, bits_of("10"));
    assert_eq!(code, expected);
}

#[test]
fn no_codeword_begins_another() {
    let mut queue: PriorityQueue<CodeTree> = PriorityQueue::new();
    for symbol in 0..40u8 {
        queue.insert((symbol as u32 * 7) % 13, CodeTree::Leaf(symbol));
    }
    let code = CodeTree::from_queue(queue).get_code();
    assert_eq!(code.len(), 40);
    for (a, word_a) in &code {
        assert!(!word_a.is_empty());
        for (b, word_b) in &code {
            if a != b {
                assert!(!is_prefix(word_a, word_b));
            }
        }
    }
}

#[test]
fn read_symbols_walks_the_tree_bit_by_bit() {
    let data = vec![233u8, 0];
    let mut reader = BitReader::new(&data, 7);
    assert_eq!(sample().read_symbols(&mut reader), Some(vec![1, 2, 3, 4]));
}

#[test]
fn read_symbols_gives_none_in_the_middle_of_a_codeword() {
    let data = vec![233u8, 1];
    let mut reader = BitReader::new(&data, 7);
    assert_eq!(sample().read_symbols(&mut reader), None);
    let data = vec![0b0000_0001u8];
    let mut reader = BitReader::new(&data, 6);
    assert_eq!(sample().read_symbols(&mut reader), None);
}

#[test]
fn read_symbols_of_no_bits_gives_no_symbols() {
    let data: Vec<u8> = vec![];
    let mut reader = BitReader::new(&data, 0);
    assert_eq!(sample().read_symbols(&mut reader), Some(vec![]));
}

#[test]
fn single_leaf_reads_its_symbol_from_every_bit() {
    let data = vec![0b0000_0101u8];
    let mut reader = BitReader::new(&data, 5);
    assert_eq!(CodeTree::Leaf(7).read_symbols(&mut reader), Some(vec![7, 7, 7]));
}

#[test]
fn from_queue_puts_the_first_out_to_the_left() {
    let mut queue: PriorityQueue<CodeTree> = PriorityQueue::new();
    queue.insert(0, CodeTree::Leaf(1));
    queue.insert(1, CodeTree::Leaf(2));
    queue.insert(2, CodeTree::Leaf(3));
    queue.insert(3, CodeTree::Leaf(4));
    let tree = CodeTree::from_queue(queue);
    assert_eq!(format!("{:?}", tree), format!("{:?}", sample()));
}

#[test]
fn from_queue_of_one_fragment_is_that_fragment() {
    let mut queue: PriorityQueue<CodeTree> = PriorityQueue::new();
    queue.insert(9, CodeTree::Leaf(42));
    assert_eq!(format!("{:?}", CodeTree::from_queue(queue)), "Leaf(42)");
}

#[test]
fn copy_bits_copies() {
    assert_eq!(copy_bits(&bits_of("0110")), bits_of("0110"));
    assert_eq!(copy_bits(&bits_of("")), bits_of(""));
}
