use iso8583::bitmap::{Bitmap, BitmapEncoding};
use iso8583::codec::{Decoder, Encoding};
use iso8583::error::{CoreError, FieldError};
use iso8583::message::{Message, MessageSpec};
use iso8583::numeric::{Field, Numeric};
use iso8583::pad::{Padder, Padding};
use iso8583::prefix::{LengthPrefix, Prefixer};
use iso8583::numeric::parse_digits;
use iso8583::spec::{DefaultUnpacker, FieldValue, Spec};

fn mti_spec() -> Spec {
    Spec::new(4, "Message Type Indicator".to_string(), Encoding::Numeric, LengthPrefix::Fixed, Padding::NoPad)
}

fn pan_spec() -> Spec {
    Spec::new(19, "Primary Account Number".to_string(), Encoding::Numeric, LengthPrefix::LL, Padding::NoPad)
}

fn message_spec() -> MessageSpec {
    let mut fields = Vec::new();
    for i in 0..129 {
        let f = match i {
            2 => Some(pan_spec()),
            3 => Some(Spec::new(6, "Processing Code".to_string(), Encoding::Numeric, LengthPrefix::Fixed, Padding::Left(b'0'))),
            41 => Some(Spec::new(8, "Terminal".to_string(), Encoding::Alphanumeric, LengthPrefix::Fixed, Padding::Right(b' '))),
            52 => Some(Spec::new(16, "PIN Data".to_string(), Encoding::Hex, LengthPrefix::LLL, Padding::NoPad)),
            70 => Some(Spec::new(3, "Network Code".to_string(), Encoding::Numeric, LengthPrefix::Fixed, Padding::NoPad)),
            _ => None,
        };
        fields.push(f);
    }
    MessageSpec { mti: mti_spec(), bitmap: BitmapEncoding::Hex, fields }
}

fn message(fields: Vec<(u8, Vec<u8>)>) -> Message {
    let nums: Vec<u8> = fields.iter().map(|f| f.0).collect();
    Message { mti: b"0200".to_vec(), bitmap: Bitmap::from_fields(&nums), fields }
}

#[test]
fn unpack_empty_message() {
    let (m, n) = Message::unpack(&message_spec(), b"02000000000000000000").unwrap();
    assert_eq!(m.mti, b"0200".to_vec());
    assert_eq!(m.bitmap.bits(), 64);
    assert!(!m.bitmap.is_set(1));
    assert!(m.fields.is_empty());
    assert_eq!(n, 20);
}

#[test]
fn unpack_field_two() {
    let (m, n) = Message::unpack(&message_spec(), b"02004000000000000000041234").unwrap();
    assert!(m.bitmap.is_set(2));
    assert_eq!(m.fields, vec![(2u8, b"1234".to_vec())]);
    assert_eq!(n, 26);
}

#[test]
fn numeric_field_reads_integer() {
    let mut f = Numeric::new(pan_spec());
    assert_eq!(f.value(), 0);
    assert_eq!(f.unpack(b"041234rest"), Ok(6));
    assert_eq!(f.value(), 1234);
    assert_eq!(Field::unpack(&mut f, b"0299"), Ok(4));
    assert_eq!(f.value(), 99);
    assert_eq!(f.unpack(b"0512"), Err(FieldError::Truncated));
    assert_eq!(f.unpack(b"021A"), Err(FieldError::Encoding));
    assert_eq!(f.value(), 99);
}

#[test]
fn numeric_set_bytes_edges() {
    let mut f = Numeric::new(pan_spec());
    assert_eq!(f.set_bytes(b"42"), Ok(()));
    assert_eq!(f.value(), 42);
    assert_eq!(f.set_bytes(b""), Ok(()));
    assert_eq!(f.value(), 0);
    assert_eq!(f.set_bytes(b"12a"), Err(FieldError::Encoding));
    assert_eq!(f.value(), 0);
    assert_eq!(f.set_bytes(b"9223372036854775807"), Ok(()));
    assert_eq!(f.value(), i64::MAX);
    assert_eq!(f.set_bytes(b"9223372036854775808"), Err(FieldError::Encoding));
    assert_eq!(f.value(), i64::MAX);
}

#[test]
fn unpack_secondary_bitmap() {
    let data = b"0200C0000000000000000400000000000000041234123";
    let (m, n) = Message::unpack(&message_spec(), data).unwrap();
    assert_eq!(m.bitmap.bits(), 128);
    assert!(m.bitmap.is_set(1));
    assert!(m.bitmap.is_set(70));
    assert_eq!(m.fields, vec![(2u8, b"1234".to_vec()), (70u8, b"123".to_vec())]);
    assert_eq!(n, data.len());
}

#[test]
fn pack_primary_only() {
    let m = message(vec![(2, b"1234".to_vec())]);
    let out = m.pack(&message_spec()).unwrap();
    assert_eq!(out, b"02004000000000000000041234".to_vec());
}

#[test]
fn hex_codec_rejects_bad_digit() {
    assert_eq!(Encoding::Hex.decode(b"1G", 2), Err(FieldError::Encoding));
    assert_eq!(Encoding::Hex.decode(b"1F", 2), Ok((vec![0x1F], 2)));
    assert_eq!(Encoding::Hex.decode(b"1F2", 3), Err(FieldError::Encoding));
    assert_eq!(Encoding::Binary.decode(b"\x01\x02", 3), Err(FieldError::Encoding));
    assert_eq!(Encoding::Binary.decode(b"\x01\x02\x03", 2), Ok((vec![1, 2], 2)));
    assert_eq!(Encoding::Alphanumeric.decode(b"A\xC3", 2), Err(FieldError::Encoding));
    assert_eq!(Encoding::Hex.encode(&[0xAB, 0x01]), b"AB01".to_vec());
    assert_eq!(Encoding::Numeric.encode(b"42"), b"42".to_vec());
}

#[test]
fn prefix_rejects_non_digits() {
    assert_eq!(LengthPrefix::LL.decode_length(19, b"XX12"), Err(FieldError::Length));
    assert_eq!(Encoding::Numeric.decode(b"12X4", 4), Err(FieldError::Encoding));
}

#[test]
fn prefix_reads_and_writes() {
    assert_eq!(LengthPrefix::LLL.decode_length(999, b"123"), Ok((123, 3)));
    assert_eq!(LengthPrefix::Fixed.decode_length(6, b""), Ok((6, 0)));
    assert_eq!(LengthPrefix::LL.decode_length(19, b"1"), Err(FieldError::Length));
    assert_eq!(LengthPrefix::LLL.encode_length(999, 7), b"007".to_vec());
    assert_eq!(LengthPrefix::LL.encode_length(19, 16), b"16".to_vec());
}

#[test]
fn length_above_maximum_is_refused() {
    assert_eq!(LengthPrefix::LL.decode_length(4, b"05"), Err(FieldError::Length));
    let s = Spec::new(4, "short".to_string(), Encoding::Numeric, LengthPrefix::LL, Padding::NoPad);
    assert_eq!(s.unpacker.unpack(b"05\xFF\xFF\xFF\xFF\xFF", &s), Err(FieldError::Length));
}

#[test]
fn padding_round_trip() {
    assert_eq!(Padding::Left(b'0').pad(b"12", 6), b"000012".to_vec());
    assert_eq!(Padding::Left(b'0').unpad(b"000012"), b"12".to_vec());
    assert_eq!(Padding::Right(b' ').pad(b"AB", 4), b"AB  ".to_vec());
    assert_eq!(Padding::Right(b' ').unpad(b"AB  "), b"AB".to_vec());
    assert_eq!(Padding::NoPad.pad(b"AB", 4), b"AB".to_vec());
}

#[test]
fn fixed_padded_fields_round_trip() {
    let ms = message_spec();
    let m = message(vec![(3, b"123".to_vec()), (41, b"TERM1".to_vec()), (52, vec![0xAB, 0x01])]);
    let out = m.pack(&ms).unwrap();
    assert_eq!(out, b"02002000000000801000000123TERM1   004AB01".to_vec());
    let (back, n) = Message::unpack(&ms, &out).unwrap();
    assert_eq!(back.mti, m.mti);
    assert_eq!(back.fields, m.fields);
    assert_eq!(n, out.len());
}

#[test]
fn round_trip_with_secondary_bitmap() {
    let ms = message_spec();
    let m = message(vec![(2, b"4111111111111111".to_vec()), (70, b"301".to_vec())]);
    let out = m.pack(&ms).unwrap();
    assert_eq!(&out[4..36], b"C0000000000000000400000000000000");
    let mut buf = out.clone();
    buf.extend_from_slice(b"NEXT");
    let (back, n) = Message::unpack(&ms, &buf).unwrap();
    assert_eq!(back.fields, m.fields);
    assert_eq!(n, out.len());
}

#[test]
fn truncated_buffer_fails() {
    let ms = message_spec();
    let out = b"0200C0000000000000000400000000000000041234123";
    for cut in 0..out.len() {
        assert!(Message::unpack(&ms, &out[..cut]).is_err());
    }
    assert_eq!(Message::unpack(&ms, &out[..2]).err(), Some(CoreError::Mti(FieldError::Truncated)));
    assert_eq!(Message::unpack(&ms, &out[..30]).err(), Some(CoreError::Bitmap));
    assert_eq!(Message::unpack(&ms, &out[..40]).err(), Some(CoreError::Field(2, FieldError::Truncated)));
    assert_eq!(Message::unpack(&ms, &out[..44]).err(), Some(CoreError::Field(70, FieldError::Truncated)));
}

#[test]
fn unpack_errors_name_the_stage() {
    let ms = message_spec();
    assert_eq!(Message::unpack(&ms, b"0200400000000000000004123").err(), Some(CoreError::Field(2, FieldError::Truncated)));
    assert_eq!(Message::unpack(&ms, b"02001000000000000000").err(), Some(CoreError::UnknownField(4)));
    assert_eq!(Message::unpack(&ms, b"0200400000000000").err(), Some(CoreError::Bitmap));
    assert_eq!(Message::unpack(&ms, b"0200400000000000000G").err(), Some(CoreError::Bitmap));
    assert_eq!(Message::unpack(&ms, b"02X0").err(), Some(CoreError::Mti(FieldError::Encoding)));
}

#[test]
fn pack_errors() {
    let ms = message_spec();
    assert_eq!(message(vec![(5, b"1".to_vec())]).pack(&ms), Err(CoreError::FieldNotFound(5)));
    assert_eq!(message(vec![(2, b"12A".to_vec())]).pack(&ms), Err(CoreError::InvalidValue(2)));
    let mut m = message(vec![(2, b"1".to_vec())]);
    m.mti = b"02".to_vec();
    assert_eq!(m.pack(&ms), Err(CoreError::InvalidValue(MessageSpec::MTI_INDEX)));
    let unordered = Message { mti: b"0200".to_vec(), bitmap: Bitmap::from_fields(&[2, 3]), fields: vec![(3, b"1".to_vec()), (2, b"1".to_vec())] };
    assert_eq!(unordered.pack(&ms), Err(CoreError::InvalidValue(2)));
}

#[test]
fn bitmap_from_fields_marks_numbers() {
    let b = Bitmap::from_fields(&[2, 65, 128]);
    assert_eq!(b.bits(), 128);
    assert!(b.is_set(1) && b.is_set(2) && b.is_set(65) && b.is_set(128));
    assert!(!b.is_set(3) && !b.is_set(64));
    assert_eq!(b.pack(BitmapEncoding::Hex), b"C0000000000000008000000000000001".to_vec());
    assert_eq!(b.pack(BitmapEncoding::Binary), vec![0xC0, 0, 0, 0, 0, 0, 0, 0, 0x80, 0, 0, 0, 0, 0, 0, 1]);
    let p = Bitmap::from_fields(&[64]);
    assert_eq!(p.as_bytes(), &[0, 0, 0, 0, 0, 0, 0, 1]);
    assert_eq!(Bitmap::unpack(BitmapEncoding::Hex, b"8000000000000000").err(), Some(CoreError::Bitmap));
}

#[test]
fn default_unpacker_reads_field() {
    let s = pan_spec();
    let u = DefaultUnpacker;
    assert_eq!(u.unpack(b"041234rest", &s), Ok((b"1234".to_vec(), 6)));
}

#[test]
fn secondary_half_may_be_empty() {
    let data = b"0200C0000000000000000000000000000000041234";
    let (m, n) = Message::unpack(&message_spec(), data).unwrap();
    assert!(m.bitmap.is_set(1));
    assert_eq!(m.bitmap.bits(), 128);
    assert_eq!(m.fields, vec![(2u8, b"1234".to_vec())]);
    assert_eq!(n, data.len());
}

#[test]
fn typed_values_follow_the_encoding() {
    let (m, _) = Message::unpack(&message_spec(), b"02004000000000000000041234").unwrap();
    assert_eq!(pan_spec().typed_value(&m.fields[0].1), Some(FieldValue::Number(1234)));
    let text = Spec::new(8, "Terminal".to_string(), Encoding::Alphanumeric, LengthPrefix::Fixed, Padding::NoPad);
    assert_eq!(text.typed_value(b"AB"), Some(FieldValue::Bytes(b"AB".to_vec())));
    assert_eq!(pan_spec().typed_value(b""), Some(FieldValue::Number(0)));
    assert_eq!(pan_spec().typed_value(b"1x"), None);
    assert_eq!(parse_digits(b"0007"), Some(7));
    assert_eq!(parse_digits(b"99999999999999999999"), None);
}

fn binary_message_spec() -> MessageSpec {
    let mut ms = message_spec();
    ms.bitmap = BitmapEncoding::Binary;
    ms
}

#[test]
fn unpack_binary_secondary_bitmap() {
    let mut buf = b"0200".to_vec();
    buf.extend_from_slice(&[0x80, 0, 0, 0, 0, 0, 0, 0, 0x04, 0, 0, 0, 0, 0, 0, 0]);
    buf.extend_from_slice(b"301");
    let (m, n) = Message::unpack(&binary_message_spec(), &buf).unwrap();
    assert_eq!(n, 23);
    assert_eq!(m.bitmap.bits(), 128);
    assert!(m.bitmap.is_set(1) && m.bitmap.is_set(70));
    assert_eq!(m.fields, vec![(70u8, b"301".to_vec())]);
    assert_eq!(Message::unpack(&binary_message_spec(), &buf[..12]).err(), Some(CoreError::Bitmap));
}

#[test]
fn binary_bitmap_round_trip() {
    let ms = binary_message_spec();
    let m = message(vec![(2, b"1234".to_vec())]);
    let out = m.pack(&ms).unwrap();
    let mut expected = b"0200".to_vec();
    expected.extend_from_slice(&[0x40, 0, 0, 0, 0, 0, 0, 0]);
    expected.extend_from_slice(b"041234");
    assert_eq!(out, expected);
    let (back, n) = Message::unpack(&ms, &out).unwrap();
    assert_eq!(back.fields, m.fields);
    assert_eq!(n, out.len());
}

#[test]
fn field_values_are_typed() {
    let ms = message_spec();
    let m = message(vec![(2, b"1234".to_vec()), (41, b"TERM1".to_vec()), (5, b"9".to_vec())]);
    assert_eq!(m.field_value(&ms, 0), Some(FieldValue::Number(1234)));
    assert_eq!(m.field_value(&ms, 1), Some(FieldValue::Bytes(b"TERM1".to_vec())));
    assert_eq!(m.field_value(&ms, 2), None);
}
