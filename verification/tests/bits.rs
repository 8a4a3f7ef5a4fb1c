use lossless_codecs::bits::{Bit, BitReader, BitWriter};

fn bits_of(text: &str) -> Vec<Bit> {
    text.chars()
        .map(|c| if c == '1' { Bit::One } else { Bit::Zero })
        .collect()
}

fn read_all(data: &Vec<u8>, padding: u8) -> Vec<Bit> {
    let mut reader = BitReader::new(data, padding);
    let mut out = Vec::new();
    while let Some(bit) = reader.read_bit() {
        out.push(bit);
    }
    out
}

#[test]
fn bit_from_u8_reads_any_non_zero_byte_as_one() {
    assert_eq!(Bit::from_u8(0), Bit::Zero);
    assert_eq!(Bit::from_u8(1), Bit::One);
    assert_eq!(Bit::from_u8(128), Bit::One);
    assert_eq!(Bit::from_u8(255), Bit::One);
}

#[test]
fn bit_to_u8_is_zero_or_one() {
    assert_eq!(Bit::to_u8(&Bit::Zero), 0);
    assert_eq!(Bit::to_u8(&Bit::One), 1);
}

#[test]
fn writer_with_no_bits_gives_no_bytes_and_no_padding() {
    let writer = BitWriter::new();
    assert_eq!(writer.finish(), (Vec::<u8>::new(), 0));
}

#[test]
fn writer_puts_the_first_bit_in_the_lowest_position() {
    let mut writer = BitWriter::new();
    writer.write_bit(Bit::One);
    assert_eq!(writer.finish(), (vec![0b0000_0001], 7));
}

#[test]
fn writer_packs_eight_bits_into_one_byte_without_padding() {
    let mut writer = BitWriter::new();
    writer.write_bits(&bits_of("10010111"));
    assert_eq!(writer.finish(), (vec![0b1110_1001], 0));
}

#[test]
fn writer_pads_the_last_byte_with_zeros() {
    let mut writer = BitWriter::new();
    writer.write_bits(&bits_of("100101110"));
    assert_eq!(writer.finish(), (vec![233, 0], 7));
    let mut writer = BitWriter::new();
    writer.write_bits(&bits_of("1111"));
    assert_eq!(writer.finish(), (vec![15], 4));
    let mut writer = BitWriter::new();
    writer.write_bits(&bits_of("110110110110"));
    assert_eq!(writer.finish(), (vec![219, 6], 4));
}

#[test]
fn padding_is_what_the_last_byte_lacks() {
    for count in 0..40usize {
        let mut writer = BitWriter::new();
        for _ in 0..count {
            writer.write_bit(Bit::One);
        }
        let (bytes, padding) = writer.finish();
        assert_eq!(bytes.len(), (count + 7) / 8);
        assert_eq!(padding as usize, (8 - count % 8) % 8);
        assert_eq!(bytes.len() * 8 - padding as usize, count);
    }
}

#[test]
fn reader_hands_out_the_lowest_position_first() {
    assert_eq!(read_all(&vec![0b1110_1001], 0), bits_of("10010111"));
}

#[test]
fn reader_drops_the_padding_of_the_last_byte_only() {
    assert_eq!(read_all(&vec![233, 0], 7), bits_of("100101110"));
    assert_eq!(read_all(&vec![233, 255], 5), bits_of("10010111111"));
    assert_eq!(read_all(&vec![15], 4), bits_of("1111"));
}

#[test]
fn reader_of_nothing_has_no_bits() {
    assert_eq!(read_all(&vec![], 0), Vec::<Bit>::new());
    assert_eq!(read_all(&vec![], 3), Vec::<Bit>::new());
}

#[test]
fn reader_drops_a_whole_last_byte_for_a_padding_of_eight_or_more() {
    assert_eq!(read_all(&vec![1, 255], 8), bits_of("10000000"));
    assert_eq!(read_all(&vec![1, 255], 200), bits_of("10000000"));
}

#[test]
fn reader_keeps_giving_none_at_the_end() {
    let data = vec![1u8];
    let mut reader = BitReader::new(&data, 7);
    assert_eq!(reader.read_bit(), Some(Bit::One));
    assert_eq!(reader.read_bit(), None);
    assert_eq!(reader.read_bit(), None);
}

#[test]
fn written_bits_are_read_back() {
    let texts = ["", "0", "1", "0101010", "11111111", "000000001", "1011001110001111000011111"];
    for text in texts {
        let bits = bits_of(text);
        let mut writer = BitWriter::new();
        writer.write_bits(&bits);
        let (bytes, padding) = writer.finish();
        assert_eq!(read_all(&bytes, padding), bits);
    }
}
