use bom_forge::decode::{decode, decode_lowered, decode_resistance, decode_token, DecodeError};

#[test]
fn res_r_suffix() {
    assert_eq!(decode_resistance("47R"), Some(47));
    assert_eq!(decode_resistance("4.7R"), Some(5)); // 4.7 → round to 5 Ω
}

#[test]
fn res_existing() {
    assert_eq!(decode_resistance("4.7k"), Some(4_700));
    assert_eq!(decode_resistance("4k7"), Some(4_700));
    assert_eq!(decode_resistance("4.7k ohms"), Some(4_700));
    assert_eq!(decode_resistance("4.7k 0805 Ω"), Some(4_700));
    assert_eq!(decode_resistance("10M"), Some(10_000_000));
    assert_eq!(decode_resistance("220"), Some(220));
}

#[test]
fn suffix_form_lower_and_upper() {
    assert_eq!(decode("47r"), Ok(47));
    assert_eq!(decode("47R"), Ok(47));
    assert_eq!(decode("4.7r"), Ok(5));
    assert_eq!(decode("4.4r"), Ok(4));
    assert_eq!(decode("0.5r"), Ok(1));
    assert_eq!(decode("2.5R"), Ok(3));
    assert_eq!(decode(".5r"), Ok(1));
    assert_eq!(decode("5.r"), Ok(5));
}

#[test]
fn code_form_letters() {
    assert_eq!(decode("4k7"), Ok(4_700));
    assert_eq!(decode("2M2"), Ok(2_200_000));
    assert_eq!(decode("4r7"), Ok(5));
    assert_eq!(decode("1k05"), Ok(1_050));
    assert_eq!(decode("1k0005"), Ok(1_001));
    assert_eq!(decode("1k00049"), Ok(1_000));
}

#[test]
fn normal_form_scales() {
    assert_eq!(decode("4.7k"), Ok(4_700));
    assert_eq!(decode("10M"), Ok(10_000_000));
    assert_eq!(decode("10m"), Ok(10_000_000));
    assert_eq!(decode("220"), Ok(220));
    assert_eq!(decode("1g"), Ok(1_000_000_000));
    assert_eq!(decode("4.5"), Ok(5));
    assert_eq!(decode("4.49"), Ok(4));
    assert_eq!(decode(".5k"), Ok(500));
}

#[test]
fn unit_words_and_trailing_tokens_ignored() {
    assert_eq!(decode("4.7k"), Ok(4_700));
    assert_eq!(decode("4k7"), Ok(4_700));
    assert_eq!(decode("4.7k ohms"), Ok(4_700));
    assert_eq!(decode("4.7k 0805 Ω"), Ok(4_700));
    assert_eq!(decode("4.7kOhm"), Ok(4_700));
    assert_eq!(decode("4.7kΩ"), Ok(4_700));
    assert_eq!(decode("  100  0603 1%"), Ok(100));
}

#[test]
fn out_of_range_is_reported() {
    assert_eq!(decode("4294967295"), Ok(4_294_967_295));
    assert_eq!(decode("4294967296"), Err(DecodeError::OutOfRange));
    assert_eq!(decode("4294967295.5r"), Err(DecodeError::OutOfRange));
    assert_eq!(decode("4294967295.4r"), Ok(4_294_967_295));
    assert_eq!(decode("5g"), Err(DecodeError::OutOfRange));
    assert_eq!(decode("4.3g"), Err(DecodeError::OutOfRange));
    assert_eq!(decode("4.2g"), Ok(4_200_000_000));
    assert_eq!(decode("99999999999999999999999k"), Err(DecodeError::OutOfRange));
    assert_eq!(decode_resistance("5000m"), None);
}

#[test]
fn empty_input() {
    assert_eq!(decode(""), Err(DecodeError::EmptyInput));
    assert_eq!(decode("   "), Err(DecodeError::EmptyInput));
    assert_eq!(decode("ohms"), Err(DecodeError::EmptyInput));
    assert_eq!(decode(" Ω ohm "), Err(DecodeError::EmptyInput));
}

#[test]
fn unrecognized_format() {
    assert_eq!(decode("abc"), Err(DecodeError::UnrecognizedFormat));
    assert_eq!(decode("4.7x"), Err(DecodeError::UnrecognizedFormat));
    assert_eq!(decode("k7"), Err(DecodeError::UnrecognizedFormat));
    assert_eq!(decode("4k"), Ok(4_000));
    assert_eq!(decode("4.7.1"), Err(DecodeError::UnrecognizedFormat));
    assert_eq!(decode("r"), Err(DecodeError::UnrecognizedFormat));
    assert_eq!(decode("5."), Err(DecodeError::UnrecognizedFormat));
    assert_eq!(decode_resistance("N/A"), None);
}

#[test]
fn decoding_canonical_value_again_gives_same_magnitude() {
    let v = decode("4k7").unwrap();
    assert_eq!(decode(&v.to_string()), Ok(v));
}

#[test]
fn lowered_input_is_not_lowered_again() {
    assert_eq!(decode_lowered("47r"), Ok(47));
    assert_eq!(decode_lowered("47R"), Err(DecodeError::UnrecognizedFormat));
    assert_eq!(decode_lowered("10K"), Err(DecodeError::UnrecognizedFormat));
}

#[test]
fn token_decoder() {
    let tok: Vec<char> = "4k7".chars().collect();
    assert_eq!(decode_token(&tok), Ok(4_700));
    let empty: Vec<char> = Vec::new();
    assert_eq!(decode_token(&empty), Err(DecodeError::UnrecognizedFormat));
}
