use hill_cipher::{
    check_key_validity, decode_hill, determinant, encode_hill, mod_26, numbers_to_text,
    process_chunks, text_to_numbers, HillError,
};

#[test]
fn test_empty_key_should_fail() {
    assert_eq!(
        encode_hill("test", vec![]).map_err(|e| e.message()),
        Err("Error: key matrix is empty")
    );
}

#[test]
fn test_non_square_key_should_fail() {
    let data = vec![vec![1, 2, 3], vec![4, 5, 6]];
    assert_eq!(
        encode_hill("test", data).map_err(|e| e.message()),
        Err("Error: key matrix should be a square matrix")
    );
}

#[test]
fn test_mod_26_applies_correctly() {
    let mut key = vec![vec![-90, -57], vec![12, 33]];
    mod_26(&mut key);
    assert_eq!(key, vec![vec![14, 21], vec![12, 7]]);
}

#[test]
fn test_non_invertible_matrix_should_fail() {
    assert_eq!(
        encode_hill("test", vec![vec![2, 4], vec![1, 2]]).map_err(|e| e.message()),
        Err("Error: key matrix should be invertible")
    );
}

#[test]
fn test_text_to_numbers_conversion() {
    assert_eq!(text_to_numbers("123 ABC xyz!?"), vec![0, 1, 2, 23, 24, 25]);
}

#[test]
fn test_numbers_to_text_conversion() {
    assert_eq!(numbers_to_text(&vec![0, 1, 2, 23, 24, 25]), "ABCXYZ");
}

#[test]
fn test_encoding_with_valid_key() {
    let key = vec![vec![6, 24], vec![1, 13]];
    let result = encode_hill("HELP", key);
    assert!(result.is_ok());
}

#[test]
fn test_encoding_with_padding() {
    let key = vec![vec![3, 3], vec![2, 5]];
    let result = encode_hill("ABC", key);
    assert!(result.is_ok());
}

#[test]
fn encodes_known_block_values() {
    assert_eq!(encode_hill("HELP", vec![vec![3, 3], vec![2, 5]]), Ok("HIAT".to_string()));
}

#[test]
fn decodes_known_block_values() {
    assert_eq!(decode_hill("HIAT", vec![vec![3, 3], vec![2, 5]]), Ok("HELP".to_string()));
}

#[test]
fn round_trip_with_invertible_key() {
    let key = vec![vec![3, 3], vec![2, 5]];
    let encoded = encode_hill("HELP", key.clone()).unwrap();
    assert_eq!(decode_hill(&encoded, key), Ok("HELP".to_string()));
}

#[test]
fn round_trip_with_order_three_key() {
    let key = vec![vec![6, 24, 1], vec![13, 16, 10], vec![20, 17, 15]];
    let encoded = encode_hill("ACT", key.clone()).unwrap();
    assert_eq!(encoded, "POH");
    assert_eq!(decode_hill(&encoded, key), Ok("ACT".to_string()));
}

#[test]
fn round_trip_with_order_one_key() {
    assert_eq!(encode_hill("abc", vec![vec![3]]), Ok("ADG".to_string()));
    assert_eq!(decode_hill("ADG", vec![vec![3]]), Ok("ABC".to_string()));
}

#[test]
fn padding_rounds_up_to_whole_blocks() {
    let result = encode_hill("ABC", vec![vec![3, 3], vec![2, 5]]).unwrap();
    assert_eq!(result, "DFGE");
    assert_eq!(result.len(), 4);
}

#[test]
fn padding_with_order_three_key() {
    let key = vec![vec![6, 24, 1], vec![13, 16, 10], vec![20, 17, 15]];
    let result = encode_hill("ABCD", key).unwrap();
    assert_eq!(result.len(), 6);
}

#[test]
fn empty_text_encodes_to_empty_text() {
    assert_eq!(encode_hill("", vec![vec![3, 3], vec![2, 5]]), Ok(String::new()));
    assert_eq!(encode_hill("12 !?", vec![vec![3, 3], vec![2, 5]]), Ok(String::new()));
}

#[test]
fn text_case_and_punctuation_are_ignored() {
    assert_eq!(encode_hill("h-e l!p", vec![vec![3, 3], vec![2, 5]]), Ok("HIAT".to_string()));
}

#[test]
fn negative_key_entries_are_reduced() {
    assert_eq!(encode_hill("HELP", vec![vec![-23, 29], vec![-24, 57]]), Ok("HIAT".to_string()));
}

#[test]
fn decode_with_key_not_invertible_mod_26() {
    let key = vec![vec![6, 24], vec![1, 13]];
    assert_eq!(decode_hill("IHKY", key), Err(HillError::KeyNotInvertible));
}

#[test]
fn decode_rejects_invalid_keys() {
    assert_eq!(decode_hill("test", vec![]), Err(HillError::EmptyKey));
    assert_eq!(
        decode_hill("test", vec![vec![1, 2], vec![3]]),
        Err(HillError::NonSquareKey)
    );
    assert_eq!(
        decode_hill("test", vec![vec![2, 4], vec![1, 2]]),
        Err(HillError::SingularKey)
    );
}

#[test]
fn singular_key_with_large_entries() {
    let key = vec![vec![1000, 2000], vec![3000, 6000]];
    assert_eq!(encode_hill("AB", key), Err(HillError::SingularKey));
}

#[test]
fn key_with_determinant_multiple_of_26_encodes() {
    let key = vec![vec![2, 0], vec![0, 13]];
    assert!(encode_hill("AB", key.clone()).is_ok());
    assert_eq!(decode_hill("AB", key), Err(HillError::KeyNotInvertible));
}

#[test]
fn error_messages() {
    assert_eq!(HillError::EmptyKey.message(), "Error: key matrix is empty");
    assert_eq!(
        HillError::NonSquareKey.message(),
        "Error: key matrix should be a square matrix"
    );
    assert_eq!(HillError::SingularKey.message(), "Error: key matrix should be invertible");
    assert_eq!(HillError::KeyNotInvertible.message(), "Error: key matrix is not invertible");
}

#[test]
fn key_validity_checks() {
    assert_eq!(check_key_validity(&vec![vec![3, 3], vec![2, 5]]), Ok(()));
    assert_eq!(check_key_validity(&vec![vec![1, 2]]), Err(HillError::NonSquareKey));
}

#[test]
fn determinant_values() {
    assert_eq!(determinant(&vec![vec![2, 4], vec![1, 2]]), Some(0));
    assert_eq!(determinant(&vec![vec![6, 24], vec![1, 13]]), Some(54));
    assert_eq!(
        determinant(&vec![vec![6, 24, 1], vec![13, 16, 10], vec![20, 17, 15]]),
        Some(441)
    );
    assert_eq!(determinant(&vec![vec![i64::MAX, 0], vec![0, i64::MAX]]), Some(
        (i64::MAX as i128) * (i64::MAX as i128)
    ));
    assert_eq!(
        determinant(&vec![vec![i64::MAX, 0, 0], vec![0, i64::MAX, 0], vec![0, 0, i64::MAX]]),
        None
    );
}

#[test]
fn block_processing_pads_with_zero_symbols() {
    let key = vec![vec![3, 3], vec![2, 5]];
    assert_eq!(process_chunks(vec![0, 1, 2], &key), vec![3, 5, 6, 4]);
    assert_eq!(process_chunks(vec![], &key), Vec::<u8>::new());
}

#[test]
fn symbols_round_trip_on_uppercase_text() {
    let text = "THEQUICKBROWNFOXJUMPSOVERTHELAZYDOG";
    assert_eq!(numbers_to_text(&text_to_numbers(text)), text);
}

#[test]
fn reduction_of_single_entries() {
    let mut key = vec![vec![0, 26, -26, -1, 25, i64::MIN, i64::MAX]];
    mod_26(&mut key);
    assert_eq!(
        key,
        vec![vec![0, 0, 0, 25, 25, i64::MIN.rem_euclid(26), i64::MAX.rem_euclid(26)]]
    );
}
