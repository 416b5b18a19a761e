use bintree::de::{Deserializer, Token, VariantHead};
use bintree::error::{varint_error, Error};
use bintree::ser::{append_bytes, MapSerializer, Serializer};
use bintree::varint::{decode_varint, encode_varint, VarintError};

fn encoded(v: i128) -> Vec<u8> {
    let mut buf = Vec::new();
    encode_varint(&mut buf, v);
    buf
}

fn decoded(bytes: &[u8]) -> (Result<i128, VarintError>, usize) {
    let mut pos = 0usize;
    let out = decode_varint(bytes, &mut pos);
    (out, pos)
}

#[test]
fn varint_exact_bytes() {
    assert_eq!(encoded(0), vec![0]);
    assert_eq!(encoded(1), vec![1, 1]);
    assert_eq!(encoded(-1), vec![0x81, 1]);
    assert_eq!(encoded(255), vec![1, 255]);
    assert_eq!(encoded(256), vec![2, 1, 0]);
    assert_eq!(encoded(-256), vec![0x82, 1, 0]);
    assert_eq!(encoded(0x01_02_03), vec![3, 1, 2, 3]);
    let mut max = vec![16u8, 0x7f];
    max.extend_from_slice(&[0xff; 15]);
    assert_eq!(encoded(i128::MAX), max);
    let mut min = vec![0x90u8, 0x80];
    min.extend_from_slice(&[0; 15]);
    assert_eq!(encoded(i128::MIN), min);
    let mut buf = vec![9u8];
    encode_varint(&mut buf, 30);
    assert_eq!(buf, vec![9, 1, 30]);
}

#[test]
fn varint_round_trip() {
    let values = [
        0i128,
        1,
        -1,
        127,
        128,
        255,
        256,
        -255,
        -256,
        65535,
        65536,
        1678886400,
        i64::MAX as i128,
        i64::MIN as i128,
        u64::MAX as i128,
        i128::MAX,
        i128::MIN,
        i128::MIN + 1,
    ];
    for v in values {
        let mut bytes = encoded(v);
        let len = bytes.len();
        bytes.push(0xaa);
        assert_eq!(decoded(&bytes), (Ok(v), len));
    }
}

#[test]
fn varint_errors() {
    assert_eq!(decoded(&[]), (Err(VarintError::Eof), 0));
    assert_eq!(decoded(&[2, 1]), (Err(VarintError::Eof), 0));
    assert_eq!(decoded(&[0x80]), (Err(VarintError::NonCanonical), 0));
    assert_eq!(decoded(&[2, 0, 1]), (Err(VarintError::NonCanonical), 0));
    assert_eq!(decoded(&[1, 0]), (Err(VarintError::NonCanonical), 0));
    let mut long = vec![17u8];
    long.extend_from_slice(&[1; 17]);
    assert_eq!(decoded(&long), (Err(VarintError::TooLong), 0));
    let mut big = vec![16u8];
    big.extend_from_slice(&[0x80; 16]);
    assert_eq!(decoded(&big), (Err(VarintError::OutOfRange), 0));
    let mut small = vec![0x90u8, 0x80];
    small.extend_from_slice(&[0; 14]);
    small.push(1);
    assert_eq!(decoded(&small), (Err(VarintError::OutOfRange), 0));
    // A varint is read from the position given.
    let mut pos = 2usize;
    assert_eq!(decode_varint(&[9, 9, 1, 5, 9], &mut pos), Ok(5));
    assert_eq!(pos, 4);
}

#[test]
fn reader_reads_bytes_and_moves_on() {
    let input = [1u8, 2, 3, 4, 5];
    let mut de = Deserializer::new(&input);
    assert!(matches!(de.read_byte(), Ok(1)));
    assert_eq!(de.pos, 1);
    assert_eq!(de.read_bytes(3).unwrap(), &[2u8, 3, 4]);
    assert_eq!(de.pos, 4);
    assert!(matches!(de.read_bytes(2), Err(Error::Eof)));
    assert_eq!(de.pos, 4);
    assert_eq!(de.read_bytes(0).unwrap(), &[] as &[u8]);
    assert!(matches!(de.finish(), Err(Error::TrailingBytes)));
    assert!(matches!(de.read_byte(), Ok(5)));
    assert!(matches!(de.read_byte(), Err(Error::Eof)));
    assert!(matches!(de.read_bytes(usize::MAX), Err(Error::Eof)));
    assert!(de.finish().is_ok());
}

#[test]
fn reader_reads_varints_and_lengths() {
    let input = [2u8, 1, 0, 0x81, 1, 0, 0x80];
    let mut de = Deserializer::new(&input);
    assert!(matches!(de.read_varint(), Ok(256)));
    assert_eq!(de.pos, 3);
    assert!(matches!(de.read_length(), Err(Error::InvalidLength)));
    assert_eq!(de.pos, 5);
    assert!(matches!(de.read_length(), Ok(0)));
    match de.read_varint() {
        Err(Error::Message(text)) => assert_eq!(text, "varint: not in canonical form"),
        _ => panic!("a negative zero is not a varint"),
    }
    assert_eq!(de.pos, 6);
    let mut at_end = Deserializer::new(&[]);
    match at_end.read_length() {
        Err(Error::Message(text)) => assert_eq!(text, "varint: unexpected end of input"),
        _ => panic!("nothing to read"),
    }
    match varint_error(VarintError::TooLong) {
        Error::Message(text) => assert_eq!(text, "varint: magnitude longer than 16 bytes"),
        _ => panic!("a message is expected"),
    }
    match varint_error(VarintError::OutOfRange) {
        Error::Message(text) => assert_eq!(text, "varint: out of range"),
        _ => panic!("a message is expected"),
    }
}

#[test]
fn reader_reads_terms() {
    // true, false, 30, "age", list of 2, map of 1, unit
    let input = [1u8, 2, 3, 1, 30, 5, 1, 3, b'a', b'g', b'e', 6, 1, 2, 7, 1, 1, 0, 9];
    let mut de = Deserializer::new(&input);
    assert!(matches!(de.read_bool(), Ok(true)));
    assert!(matches!(de.read_bool(), Ok(false)));
    assert!(matches!(de.read_integer(), Ok(30)));
    assert_eq!(de.read_binary().unwrap(), b"age");
    assert!(matches!(de.read_head(6), Ok(2)));
    assert!(matches!(de.read_head(7), Ok(1)));
    assert!(de.read_unit().is_ok());
    assert!(!de.take_none());
    assert!(matches!(de.read_bool(), Err(Error::InvalidTag)));
    assert!(matches!(de.read_unit(), Err(Error::Eof)));
    let mut again = Deserializer::new(&input);
    assert!(matches!(again.read_integer(), Err(Error::InvalidTag)));
    assert!(matches!(again.expect_tag(2), Ok(())));
    let mut none = Deserializer::new(&[0u8, 1]);
    assert!(none.take_none());
    assert_eq!(none.pos, 1);
    let mut short = Deserializer::new(&[5u8, 1, 4, b'a']);
    assert!(matches!(short.read_binary(), Err(Error::Eof)));
}

#[test]
fn reader_reads_tokens() {
    let input = [0u8, 1, 2, 3, 0x81, 5, 5, 1, 2, b'h', b'i', 6, 1, 3, 7, 0, 4];
    let mut de = Deserializer::new(&input);
    assert!(matches!(de.read_token(), Ok(Token::Unit)));
    assert!(matches!(de.read_token(), Ok(Token::Bool(true))));
    assert!(matches!(de.read_token(), Ok(Token::Bool(false))));
    assert!(matches!(de.read_token(), Ok(Token::Int(-5))));
    match de.read_token() {
        Ok(Token::Bytes(b)) => assert_eq!(b, b"hi"),
        _ => panic!("a byte string is expected"),
    }
    assert!(matches!(de.read_token(), Ok(Token::List(3))));
    assert!(matches!(de.read_token(), Ok(Token::PropList(0))));
    assert!(matches!(de.read_token(), Err(Error::InvalidTag)));
    assert!(matches!(de.read_token(), Err(Error::Eof)));
}

#[test]
fn reader_reads_variant_heads() {
    let unit = [5u8, 1, 3, b'p', b'u', b't'];
    match Deserializer::new(&unit).read_variant_head() {
        Ok(VariantHead::Unit(name)) => assert_eq!(name, b"put"),
        _ => panic!("a name is expected"),
    }
    let wrapped = [7u8, 1, 1, 5, 1, 3, b'p', b'u', b't'];
    let mut de = Deserializer::new(&wrapped);
    assert!(matches!(de.read_variant_head(), Ok(VariantHead::Wrapped)));
    assert_eq!(de.pos, 3);
    let two = [7u8, 1, 2];
    match Deserializer::new(&two).read_variant_head() {
        Err(Error::Message(text)) => assert_eq!(text, "expected single-entry proplist for enum"),
        _ => panic!("a map of two pairs is no variant"),
    }
    assert!(matches!(Deserializer::new(&[3u8, 0]).read_variant_head(), Err(Error::InvalidTag)));
    assert!(matches!(Deserializer::new(&[]).read_variant_head(), Err(Error::Eof)));
}

#[test]
fn writer_writes_terms() {
    let mut ser = Serializer::new();
    ser.write_bool(true);
    ser.write_bool(false);
    ser.write_i128(30);
    ser.write_i128(-256);
    ser.write_bytes(b"Alice");
    ser.write_unit();
    ser.write_seq_head(Some(2));
    ser.write_seq_head(None);
    assert_eq!(
        ser.output,
        vec![1, 2, 3, 1, 30, 3, 0x82, 1, 0, 5, 1, 5, b'A', b'l', b'i', b'c', b'e', 0, 6, 1, 2, 6, 0]
    );
    let mut other = Serializer::new();
    assert!(other.write_u128(7).is_ok());
    match other.write_u128(u128::MAX) {
        Err(Error::Message(text)) => assert_eq!(text, "u128 too large"),
        _ => panic!("the number does not fit"),
    }
    assert!(other.write_u128(i128::MAX as u128).is_ok());
    other.write_variant_head(b"put");
    let mut expected = vec![3u8, 1, 7, 3, 16, 0x7f];
    expected.extend_from_slice(&[0xff; 15]);
    expected.extend_from_slice(&[7, 1, 1, 5, 1, 3, b'p', b'u', b't']);
    assert_eq!(other.output, expected);
    let mut buf = vec![1u8];
    append_bytes(&mut buf, &[2, 3]);
    assert_eq!(buf, vec![1, 2, 3]);
}

#[test]
fn map_is_written_in_the_order_of_its_keys() {
    let entry = |k: &[u8], v: i128| {
        let mut key = Serializer::new();
        key.write_bytes(k);
        let mut value = Serializer::new();
        value.write_i128(v);
        (key.output, value.output)
    };
    let mut ser = Serializer::new();
    ser.write_unit();
    let mut map = MapSerializer::new();
    for (k, v) in [(&b"name"[..], 1), (&b"age"[..], 2), (&b"active"[..], 3)] {
        let (key, value) = entry(k, v);
        map.push_key(key);
        map.set_value(value);
    }
    assert!(map.end_map(&mut ser).is_ok());
    let mut expected = vec![0u8, 7, 1, 3];
    // Keys are compared as encoded: the shorter length byte comes first.
    for (k, v) in [(&b"age"[..], 2), (&b"name"[..], 1), (&b"active"[..], 3)] {
        let (key, value) = entry(k, v);
        expected.extend_from_slice(&key);
        expected.extend_from_slice(&value);
    }
    assert_eq!(ser.output, expected);
    let mut empty = Serializer::new();
    assert!(MapSerializer::new().end_map(&mut empty).is_ok());
    assert_eq!(empty.output, vec![7, 0]);
}

#[test]
fn texts_are_utf8_byte_strings() {
    let mut ser = Serializer::new();
    ser.write_str("héllo");
    assert_eq!(ser.output, vec![5, 1, 6, b'h', 0xc3, 0xa9, b'l', b'l', b'o']);
    let mut de = Deserializer::new(&ser.output);
    assert_eq!(de.read_text().unwrap(), "héllo");
    assert!(de.finish().is_ok());
    let bad = [5u8, 1, 2, 0xff, 0xfe];
    let mut reader = Deserializer::new(&bad);
    assert!(matches!(reader.read_text(), Err(Error::InvalidUtf8)));
    assert_eq!(reader.pos, 5);
    assert!(matches!(Deserializer::new(&[6u8, 0]).read_text(), Err(Error::InvalidTag)));
    assert!(matches!(Deserializer::new(&[5u8, 1, 9, b'a']).read_text(), Err(Error::Eof)));
    assert!(matches!(Deserializer::new(&[5u8, 0x81, 1]).read_text(), Err(Error::InvalidLength)));
}

#[test]
fn struct_variant_head_ends_with_a_map_tag() {
    let mut ser = Serializer::new();
    ser.write_struct_variant_head(b"put");
    assert_eq!(ser.output, vec![7, 1, 1, 5, 1, 3, b'p', b'u', b't', 7]);
}
