use termdict::common::BinarySerializable;
use termdict::common::DecodeError;
use termdict::common::VInt;

fn serialize_test<T: BinarySerializable + Eq>(v: T, num_bytes: usize) {
    let mut buffer: Vec<u8> = Vec::new();

    if num_bytes != 0 {
        assert_eq!(v.serialize(&mut buffer), num_bytes);
        assert_eq!(buffer.len(), num_bytes);
    } else {
        v.serialize(&mut buffer);
    }
    let mut cursor = &buffer[..];
    let deser = T::deserialize(&mut cursor).unwrap();
    assert_eq!(deser, v);
}

fn bytes_of<T: BinarySerializable>(v: T) -> Vec<u8> {
    let mut buffer: Vec<u8> = Vec::new();
    let written = v.serialize(&mut buffer);
    assert_eq!(written, buffer.len());
    buffer
}

#[test]
fn test_serialize_u8() {
    serialize_test(3u8, 1);
    serialize_test(5u8, 1);
}

#[test]
fn test_serialize_u32() {
    serialize_test(3u32, 4);
    serialize_test(5u32, 4);
    serialize_test(u32::max_value(), 4);
}

#[test]
fn test_serialize_string() {
    serialize_test(String::from(""), 1);
    serialize_test(String::from("ぽよぽよ"), 1 + 3 * 4);
    serialize_test(String::from("富士さん見える。"), 1 + 3 * 8);
}

#[test]
fn test_serialize_vec() {
    let v: Vec<u8> = Vec::new();
    serialize_test(v, 1);
    serialize_test(vec![1u32, 3u32], 1 + 4 * 2);
}

#[test]
fn test_serialize_vint() {
    for i in 0..10_000 {
        serialize_test(VInt(i as u64), 0);
    }
    serialize_test(VInt(7u64), 1);
    serialize_test(VInt(127u64), 1);
    serialize_test(VInt(128u64), 2);
    serialize_test(VInt(129u64), 2);
    serialize_test(VInt(1234u64), 2);
    serialize_test(VInt(16_383), 2);
    serialize_test(VInt(16_384), 3);
    serialize_test(VInt(u64::max_value()), 10);
}

#[test]
fn test_serialize_u64_i64_unit_pair() {
    serialize_test(0u64, 8);
    serialize_test(u64::max_value(), 8);
    serialize_test(-1i64, 8);
    serialize_test(i64::min_value(), 8);
    serialize_test(i64::max_value(), 8);
    serialize_test((), 0);
    serialize_test((7u8, 9u32), 5);
    serialize_test((String::from("ab"), VInt(300)), 3 + 2);
    serialize_test(vec![(1u32, String::from("x")), (2u32, String::from(""))], 1 + 4 + 2 + 4 + 1);
    serialize_test(vec![vec![1u8, 2u8], vec![], vec![3u8]], 1 + 3 + 1 + 2);
}

#[test]
fn test_fixed_width_bytes_are_little_endian() {
    assert_eq!(bytes_of(0x0102_0304u32), vec![4u8, 3, 2, 1]);
    assert_eq!(bytes_of(3u32), vec![3u8, 0, 0, 0]);
    assert_eq!(bytes_of(0x0102_0304_0506_0708u64), vec![8u8, 7, 6, 5, 4, 3, 2, 1]);
    assert_eq!(bytes_of(-2i64), vec![0xfeu8, 0xff, 0xff, 0xff, 0xff, 0xff, 0xff, 0xff]);
    assert_eq!(bytes_of(258i64), vec![2u8, 1, 0, 0, 0, 0, 0, 0]);
    assert_eq!(bytes_of(0xabu8), vec![0xabu8]);
    assert_eq!(bytes_of(()), Vec::<u8>::new());
}

#[test]
fn test_fixed_width_reads_are_little_endian() {
    let data: Vec<u8> = vec![4, 3, 2, 1, 9];
    let mut cursor = &data[..];
    assert_eq!(u32::deserialize(&mut cursor), Ok(0x0102_0304u32));
    assert_eq!(cursor, &[9u8][..]);
    let data: Vec<u8> = vec![8, 7, 6, 5, 4, 3, 2, 1];
    let mut cursor = &data[..];
    assert_eq!(u64::deserialize(&mut cursor), Ok(0x0102_0304_0506_0708u64));
    assert!(cursor.is_empty());
    let data: Vec<u8> = vec![0xfe, 0xff, 0xff, 0xff, 0xff, 0xff, 0xff, 0xff];
    let mut cursor = &data[..];
    assert_eq!(i64::deserialize(&mut cursor), Ok(-2i64));
    assert!(cursor.is_empty());
}

#[test]
fn test_vint_bytes() {
    assert_eq!(bytes_of(VInt(0)), vec![0x80u8]);
    assert_eq!(bytes_of(VInt(7)), vec![0x87u8]);
    assert_eq!(bytes_of(VInt(127)), vec![0xffu8]);
    assert_eq!(bytes_of(VInt(128)), vec![0x00u8, 0x81]);
    assert_eq!(bytes_of(VInt(129)), vec![0x01u8, 0x81]);
    assert_eq!(bytes_of(VInt(1234)), vec![0x52u8, 0x89]);
    assert_eq!(bytes_of(VInt(16_383)), vec![0x7fu8, 0xff]);
    assert_eq!(bytes_of(VInt(16_384)), vec![0x00u8, 0x00, 0x81]);
    assert_eq!(
        bytes_of(VInt(u64::max_value())),
        vec![0x7fu8, 0x7f, 0x7f, 0x7f, 0x7f, 0x7f, 0x7f, 0x7f, 0x7f, 0x81]
    );
}

#[test]
fn test_vint_val() {
    assert_eq!(VInt(42).val(), 42);
    assert_eq!(VInt(u64::max_value()).val(), u64::max_value());
}

#[test]
fn test_vint_reads_only_its_own_bytes() {
    let data: Vec<u8> = vec![0x52, 0x89, 0x80, 0x01];
    let mut cursor = &data[..];
    assert_eq!(VInt::deserialize(&mut cursor), Ok(VInt(1234)));
    assert_eq!(cursor, &[0x80u8, 0x01][..]);
    assert_eq!(VInt::deserialize(&mut cursor), Ok(VInt(0)));
    assert_eq!(cursor, &[0x01u8][..]);
}

#[test]
fn test_vint_accepts_padded_digits() {
    let data: Vec<u8> = vec![0x05, 0x00, 0x00, 0x00, 0x00, 0x00, 0x00, 0x00, 0x00, 0x00, 0x00, 0x80];
    let mut cursor = &data[..];
    assert_eq!(VInt::deserialize(&mut cursor), Ok(VInt(5)));
    assert!(cursor.is_empty());
}

#[test]
fn test_vint_malformed() {
    let empty: Vec<u8> = Vec::new();
    let mut cursor = &empty[..];
    assert_eq!(VInt::deserialize(&mut cursor), Err(DecodeError::InvalidData));
    let unfinished: Vec<u8> = vec![0x01, 0x02, 0x7f];
    let mut cursor = &unfinished[..];
    assert_eq!(VInt::deserialize(&mut cursor), Err(DecodeError::InvalidData));
    assert_eq!(cursor, &unfinished[..]);
    let ten_unfinished: Vec<u8> = vec![0x7f; 10];
    let mut cursor = &ten_unfinished[..];
    assert_eq!(VInt::deserialize(&mut cursor), Err(DecodeError::InvalidData));
    assert_eq!(cursor, &ten_unfinished[..]);
    let long_unfinished: Vec<u8> = vec![0x01; 40];
    let mut cursor = &long_unfinished[..];
    assert_eq!(VInt::deserialize(&mut cursor), Err(DecodeError::InvalidData));
}

#[test]
fn test_vint_keeps_the_low_64_bits() {
    let tenth_digit_two: Vec<u8> = vec![0x7f, 0x7f, 0x7f, 0x7f, 0x7f, 0x7f, 0x7f, 0x7f, 0x7f, 0x82];
    let mut cursor = &tenth_digit_two[..];
    assert_eq!(VInt::deserialize(&mut cursor), Ok(VInt((1u64 << 63) - 1)));
    assert!(cursor.is_empty());
    let tenth_digit_three: Vec<u8> = vec![0x7f, 0x7f, 0x7f, 0x7f, 0x7f, 0x7f, 0x7f, 0x7f, 0x7f, 0x83, 0x55];
    let mut cursor = &tenth_digit_three[..];
    assert_eq!(VInt::deserialize(&mut cursor), Ok(VInt(u64::max_value())));
    assert_eq!(cursor, &[0x55u8][..]);
    let tenth_digit_full: Vec<u8> = vec![0x01, 0x00, 0x00, 0x00, 0x00, 0x00, 0x00, 0x00, 0x00, 0xff];
    let mut cursor = &tenth_digit_full[..];
    assert_eq!(VInt::deserialize(&mut cursor), Ok(VInt((1u64 << 63) + 1)));
    assert!(cursor.is_empty());
    let tenth_digit_even: Vec<u8> = vec![0x03, 0x00, 0x00, 0x00, 0x00, 0x00, 0x00, 0x00, 0x00, 0xfe];
    let mut cursor = &tenth_digit_even[..];
    assert_eq!(VInt::deserialize(&mut cursor), Ok(VInt(3)));
    assert!(cursor.is_empty());
    let eleventh_digit: Vec<u8> = vec![0x07, 0x00, 0x00, 0x00, 0x00, 0x00, 0x00, 0x00, 0x00, 0x00, 0x81];
    let mut cursor = &eleventh_digit[..];
    assert_eq!(VInt::deserialize(&mut cursor), Ok(VInt(7)));
    assert!(cursor.is_empty());
    let later_digits: Vec<u8> = vec![0x02, 0x01, 0x00, 0x00, 0x00, 0x00, 0x00, 0x00, 0x00, 0x01, 0x7f, 0x7f, 0xff, 0x09];
    let mut cursor = &later_digits[..];
    assert_eq!(VInt::deserialize(&mut cursor), Ok(VInt((1u64 << 63) + 130)));
    assert_eq!(cursor, &[0x09u8][..]);
}

#[test]
fn test_length_prefix_is_read_in_64_bits() {
    let text: Vec<u8> = vec![0x02, 0x00, 0x00, 0x00, 0x00, 0x00, 0x00, 0x00, 0x00, 0x82, b'h', b'i', b'!'];
    let mut cursor = &text[..];
    assert_eq!(String::deserialize(&mut cursor), Ok(String::from("hi")));
    assert_eq!(cursor, &[b'!'][..]);
    let items: Vec<u8> = vec![0x01, 0x00, 0x00, 0x00, 0x00, 0x00, 0x00, 0x00, 0x00, 0x00, 0x81, 9, 8];
    let mut cursor = &items[..];
    assert_eq!(Vec::<u8>::deserialize(&mut cursor), Ok(vec![9u8]));
    assert_eq!(cursor, &[8u8][..]);
    let too_many: Vec<u8> = vec![0x7f, 0x7f, 0x7f, 0x7f, 0x7f, 0x7f, 0x7f, 0x7f, 0x7f, 0x82, b'a'];
    let mut cursor = &too_many[..];
    assert_eq!(String::deserialize(&mut cursor), Err(DecodeError::InvalidData));
    assert_eq!(cursor, &too_many[..]);
}

#[test]
fn test_fixed_width_truncated() {
    let data: Vec<u8> = vec![1, 2, 3];
    let mut cursor = &data[..];
    assert_eq!(u32::deserialize(&mut cursor), Err(DecodeError::UnexpectedEof));
    assert_eq!(cursor, &data[..]);
    let mut cursor = &data[..];
    assert_eq!(u64::deserialize(&mut cursor), Err(DecodeError::UnexpectedEof));
    let mut cursor = &data[..];
    assert_eq!(i64::deserialize(&mut cursor), Err(DecodeError::UnexpectedEof));
    let empty: Vec<u8> = Vec::new();
    let mut cursor = &empty[..];
    assert_eq!(u8::deserialize(&mut cursor), Err(DecodeError::UnexpectedEof));
}

#[test]
fn test_string_malformed() {
    let short: Vec<u8> = vec![0x85, b'a', b'b'];
    let mut cursor = &short[..];
    assert_eq!(String::deserialize(&mut cursor), Err(DecodeError::InvalidData));
    assert_eq!(cursor, &short[..]);
    let not_utf8: Vec<u8> = vec![0x82, 0xff, 0xfe];
    let mut cursor = &not_utf8[..];
    assert_eq!(String::deserialize(&mut cursor), Err(DecodeError::InvalidData));
    assert_eq!(cursor, &not_utf8[..]);
    let no_length: Vec<u8> = vec![0x05];
    let mut cursor = &no_length[..];
    assert_eq!(String::deserialize(&mut cursor), Err(DecodeError::InvalidData));
}

#[test]
fn test_string_bytes_and_length() {
    assert_eq!(bytes_of(String::from("")), vec![0x80u8]);
    assert_eq!(bytes_of(String::from("abc")), vec![0x83u8, b'a', b'b', b'c']);
    let long: String = "x".repeat(127);
    assert_eq!(bytes_of(long).len(), 128);
    let longer: String = "x".repeat(128);
    assert_eq!(bytes_of(longer).len(), 130);
    let data: Vec<u8> = vec![0x82, b'h', b'i', b'!'];
    let mut cursor = &data[..];
    assert_eq!(String::deserialize(&mut cursor), Ok(String::from("hi")));
    assert_eq!(cursor, &[b'!'][..]);
}

#[test]
fn test_vec_bytes_and_length() {
    assert_eq!(bytes_of(Vec::<u32>::new()), vec![0x80u8]);
    assert_eq!(bytes_of(vec![1u32, 3u32]), vec![0x82u8, 1, 0, 0, 0, 3, 0, 0, 0]);
    let many: Vec<u32> = vec![7u32; 127];
    assert_eq!(bytes_of(many).len(), 1 + 4 * 127);
    assert_eq!(bytes_of(vec![(); 5]), vec![0x85u8]);
}

#[test]
fn test_vec_element_error_is_passed_on() {
    let data: Vec<u8> = vec![0x82, 1, 0, 0, 0, 3, 0];
    let mut cursor = &data[..];
    assert_eq!(Vec::<u32>::deserialize(&mut cursor), Err(DecodeError::UnexpectedEof));
    assert_eq!(cursor, &data[..]);
    let data: Vec<u8> = vec![0x82, 0x81, 0x01];
    let mut cursor = &data[..];
    assert_eq!(Vec::<VInt>::deserialize(&mut cursor), Err(DecodeError::InvalidData));
    let data: Vec<u8> = vec![0x01];
    let mut cursor = &data[..];
    assert_eq!(Vec::<u8>::deserialize(&mut cursor), Err(DecodeError::InvalidData));
}

#[test]
fn test_pair_is_concatenation() {
    assert_eq!(bytes_of((VInt(128), 1u32)), vec![0x00u8, 0x81, 1, 0, 0, 0]);
    let data: Vec<u8> = vec![0x00, 0x81, 1, 0, 0];
    let mut cursor = &data[..];
    assert_eq!(<(VInt, u32)>::deserialize(&mut cursor), Err(DecodeError::UnexpectedEof));
    assert_eq!(cursor, &data[..]);
    let data: Vec<u8> = vec![0x00, 0x01, 1, 0, 0];
    let mut cursor = &data[..];
    assert_eq!(<(VInt, u32)>::deserialize(&mut cursor), Err(DecodeError::InvalidData));
}
