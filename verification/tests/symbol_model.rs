use lossless_codecs::symbol_model::{get_alphabet, get_weights};

#[test]
fn alphabet_is_the_bytes_in_use_in_ascending_order() {
    assert_eq!(get_alphabet(&vec![9, 3, 9, 200, 3, 0]), vec![0, 3, 9, 200]);
    assert_eq!(get_alphabet(&vec![]), Vec::<u8>::new());
    assert_eq!(get_alphabet(&vec![255, 255]), vec![255]);
}

#[test]
fn ranks_count_the_alphabet_from_zero() {
    assert_eq!(
        get_weights(&vec![9, 3, 9, 200, 3, 0]),
        vec![(0, 0), (3, 1), (9, 2), (200, 3)]
    );
}

#[test]
fn ranks_do_not_depend_on_how_often_a_byte_occurs() {
    assert_eq!(
        get_weights(&vec![1, 1, 1, 1, 2]),
        get_weights(&vec![1, 2, 2, 2, 2])
    );
}

#[test]
fn full_alphabet_has_256_ranks() {
    let data: Vec<u8> = (0..=255u8).rev().collect();
    let weights = get_weights(&data);
    assert_eq!(weights.len(), 256);
    for (i, pair) in weights.iter().enumerate() {
        assert_eq!(*pair, (i as u8, i as u32));
    }
}
