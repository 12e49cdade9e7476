use iso8583::wire::{hex_to_bytes, parse_bitmap, parse_message, parse_mti, parse_variable_field, MessageError};

#[test]
fn test_parse_mti_valid() {
    let input = b"1234rest_of_message";
    let result = parse_mti(input);
    assert_eq!(result, Ok((&b"rest_of_message"[..], "1234".to_string())))
}

#[test]
fn test_parse_mti_invalid_format() {
    let input = b"\xFF\xFF\xFF\xFFrest_of_the_message";
    let result = parse_mti(input);
    assert_eq!(result, Err("Invalid MTI format".to_string()));
}

#[test]
fn test_parse_mti_empty_input() {
    let input = b"";
    let result = parse_mti(input);
    assert_eq!(result, Err("Input too short to contain MTI".to_string()))
}

#[test]
fn test_parse_mti_exact_length() {
    let input = b"1234";
    let result = parse_mti(input);
    assert_eq!(result, Ok((&b""[..], "1234".to_string())))
}

#[test]
fn test_parse_bitmap_valid() {
    let input = b"4000000000000000rest_of_message";
    let result = parse_bitmap(input);
    assert_eq!(
        result,
        Ok((&b"rest_of_message"[..], vec![64, 0, 0, 0, 0, 0, 0, 0]))
    )
}

#[test]
fn test_parse_bitmap_too_short() {
    let input = b"1234567";
    let result = parse_bitmap(input);
    assert_eq!(result, Err("Input too short to contain bitmap".to_string()));
}

#[test]
fn test_parse_bitmap_exact_length() {
    let input = b"4000000000000000";
    let result = parse_bitmap(input);
    assert_eq!(result, Ok((&b""[..], vec![64, 0, 0, 0, 0, 0, 0, 0])))
}

#[test]
fn test_parse_bitmap_with_non_ascii() {
    let input = b"\xFF\xFF\xFF\xFF\xFF\xFF\xFF\xFFrest_of_message";
    let result = parse_bitmap(input);
    assert_eq!(result, Err("Invalid UTF-8 sequence".to_string()))
}

#[test]
fn test_parse_variable_field_valid() {
    let input = b"041234rest_of_message";
    let result = parse_variable_field(input);
    assert_eq!(result, Ok((&b"rest_of_message"[..], "1234".to_string())))
}

#[test]
fn test_parse_variable_field_invalid_length_format() {
    let input = b"\xFF\xFF1234rest_of_message";
    let result = parse_variable_field(input);
    assert_eq!(result, Err("Invalid length format".to_string()));
}

#[test]
fn test_parse_variable_field_invalid_length_value() {
    let input = b"XX1234rest_of_message";
    let result = parse_variable_field(input);
    assert_eq!(result, Err("Invalid length value".to_string()));
}

#[test]
fn test_parse_variable_field_too_short_for_length() {
    let input = b"04123";
    let result = parse_variable_field(input);
    assert_eq!(
        result,
        Err("Input too short to contain field data".to_string())
    );
}

#[test]
fn test_parse_variable_field_invalid_data_format() {
    let input = b"04\xFF\xFF\xFF\xFFrest_of_message";
    let result = parse_variable_field(input);
    assert_eq!(result, Err("Invalid field data format".to_string()));
}

#[test]
fn hex_to_bytes_reads_pairs() {
    assert_eq!(hex_to_bytes(b"0aFF10"), Ok(vec![10, 255, 16]));
}

#[test]
fn hex_to_bytes_rejects_odd_length() {
    assert_eq!(
        hex_to_bytes(b"abc"),
        Err("Hex string has an odd number of characters".to_string())
    );
}

#[test]
fn hex_to_bytes_rejects_non_hex_character() {
    assert_eq!(hex_to_bytes(b"1G"), Err("Invalid hex character".to_string()));
}

#[test]
fn parse_message_reads_fields_of_set_bits() {
    let m = parse_message(b"02004000000000000000041234").unwrap();
    assert_eq!(m.mti, "0200");
    assert_eq!(m.bitmap, vec![64, 0, 0, 0, 0, 0, 0, 0]);
    assert_eq!(m.fields, vec![(2u8, "1234".to_string())]);
    let none = parse_message(b"02000000000000000000041234").unwrap();
    assert!(none.fields.is_empty());
}

#[test]
fn parse_message_reads_secondary_fields() {
    let m = parse_message(b"0200C000000000000000040000000000000002AB03XYZ").unwrap();
    assert_eq!(m.bitmap.len(), 16);
    assert_eq!(m.fields, vec![(2u8, "AB".to_string()), (70u8, "XYZ".to_string())]);
}

#[test]
fn parse_message_fails_on_an_unreadable_field() {
    assert_eq!(
        parse_message(b"02004000000000000000XX").err(),
        Some(MessageError::Field(2, "Invalid length value".to_string()))
    );
    assert_eq!(
        parse_message(b"0200").err(),
        Some(MessageError::Bitmap("Input too short to contain bitmap".to_string()))
    );
    assert_eq!(
        parse_message(b"02").err(),
        Some(MessageError::Mti("Input too short to contain MTI".to_string()))
    );
}

#[test]
fn parse_bitmap_reads_secondary_half() {
    let input = b"C0000000000000000400000000000000rest";
    assert_eq!(
        parse_bitmap(input),
        Ok((&b"rest"[..], vec![0xC0, 0, 0, 0, 0, 0, 0, 0, 4, 0, 0, 0, 0, 0, 0, 0]))
    );
    assert_eq!(
        parse_bitmap(b"C000000000000000040000"),
        Err("Input too short to contain secondary bitmap".to_string())
    );
}

#[test]
fn parse_variable_field_cut_short() {
    let w = b"05HELLO";
    for k in 0..w.len() {
        let expected = if k < 2 {
            "Input too short to contain field length"
        } else {
            "Input too short to contain field data"
        };
        assert_eq!(parse_variable_field(&w[..k]), Err(expected.to_string()));
    }
}
