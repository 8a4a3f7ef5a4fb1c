use lossless_codecs::bits::{Bit, BitReader, BitWriter};
use lossless_codecs::code_table::{find_symbol, read_with_table, same_bits, write_symbols};
use std::collections::HashMap;

fn bits_of(text: &str) -> Vec<Bit> {
    text.chars()
        .map(|c| if c == '1' { Bit::One } else { Bit::Zero })
        .collect()
}

fn sample() -> HashMap<u8, Vec<Bit>> {
    let mut code = HashMap::new();
    code.insert(10u8, bits_of("0"));
    code.insert(20u8, bits_of("10"));
    code.insert(30u8, bits_of("1100"));
    code
}

#[test]
fn same_bits_compares_runs_of_bits() {
    assert!(same_bits(&bits_of("0110"), &bits_of("0110")));
    assert!(same_bits(&bits_of(""), &bits_of("")));
    assert!(!same_bits(&bits_of("0110"), &bits_of("0111")));
    assert!(!same_bits(&bits_of("011"), &bits_of("0110")));
}

#[test]
fn find_symbol_looks_a_word_up() {
    assert_eq!(find_symbol(&sample(), &bits_of("10")), Some(20));
    assert_eq!(find_symbol(&sample(), &bits_of("1100")), Some(30));
    assert_eq!(find_symbol(&sample(), &bits_of("11")), None);
    assert_eq!(find_symbol(&sample(), &bits_of("")), None);
}

#[test]
fn find_symbol_takes_the_least_of_equal_codewords() {
    let mut code = sample();
    code.insert(5u8, bits_of("10"));
    code.insert(200u8, bits_of("10"));
    assert_eq!(find_symbol(&code, &bits_of("10")), Some(5));
}

#[test]
fn write_symbols_writes_the_codewords_in_turn() {
    let mut writer = BitWriter::new();
    assert!(write_symbols(&sample(), &vec![20, 10, 30, 10], &mut writer));
    assert_eq!(writer.finish(), (vec![0b0001_1001], 0));
}

#[test]
fn write_symbols_stops_at_a_symbol_without_a_codeword() {
    let mut writer = BitWriter::new();
    assert!(!write_symbols(&sample(), &vec![20, 10, 99, 10], &mut writer));
    let mut writer = BitWriter::new();
    assert!(write_symbols(&sample(), &vec![], &mut writer));
    assert_eq!(writer.finish(), (vec![], 0));
}

#[test]
fn read_with_table_reads_the_codewords_back() {
    let data = vec![0b0001_1001u8];
    let mut reader = BitReader::new(&data, 0);
    assert_eq!(read_with_table(&sample(), &mut reader), Some(vec![20, 10, 30, 10]));
}

#[test]
fn read_with_table_gives_none_within_a_word() {
    let data = vec![0b0000_0011u8];
    let mut reader = BitReader::new(&data, 6);
    assert_eq!(read_with_table(&sample(), &mut reader), None);
    let data = vec![0b0000_0111u8];
    let mut reader = BitReader::new(&data, 5);
    assert_eq!(read_with_table(&sample(), &mut reader), None);
}

#[test]
fn read_with_table_of_no_bits_gives_no_symbols() {
    let data: Vec<u8> = vec![];
    let mut reader = BitReader::new(&data, 0);
    assert_eq!(read_with_table(&sample(), &mut reader), Some(vec![]));
}

#[test]
fn table_round_trip() {
    let text = vec![10u8, 30, 30, 20, 10, 10, 20, 30];
    let mut writer = BitWriter::new();
    assert!(write_symbols(&sample(), &text, &mut writer));
    let (bytes, padding) = writer.finish();
    let mut reader = BitReader::new(&bytes, padding);
    assert_eq!(read_with_table(&sample(), &mut reader), Some(text));
}
