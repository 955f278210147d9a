use velo::float::{Double, Single};
use velo::persist::{
    checked_text, read_f32, read_f64, read_i64, read_payload, read_string, read_u32, read_u64,
    read_u8, read_value, write_f32, write_f64, write_i64, write_payload, write_string, write_u32,
    write_u64, write_u8, write_value, ReadError, Reader,
};
use velo::{Payload, Value};

#[test]
fn numbers_are_little_endian() {
    let mut out = Vec::new();
    write_u8(&mut out, 7);
    write_u32(&mut out, 0x0102_0304);
    write_u64(&mut out, 0x0102_0304_0506_0708);
    write_i64(&mut out, -2);
    write_f32(&mut out, Single::from_bits(1.0f32.to_bits()));
    write_f64(&mut out, Double::from_bits((-1.0f64).to_bits()));
    let mut expected = vec![7, 4, 3, 2, 1, 8, 7, 6, 5, 4, 3, 2, 1];
    expected.extend_from_slice(&(-2i64).to_le_bytes());
    expected.extend_from_slice(&1.0f32.to_le_bytes());
    expected.extend_from_slice(&(-1.0f64).to_le_bytes());
    assert_eq!(out, expected);

    let mut r = Reader::new(out);
    assert_eq!(read_u8(&mut r), Ok(7));
    assert_eq!(read_u32(&mut r), Ok(0x0102_0304));
    assert_eq!(read_u64(&mut r), Ok(0x0102_0304_0506_0708));
    assert_eq!(read_i64(&mut r), Ok(-2));
    assert_eq!(read_f32(&mut r).map(|x| x.to_bits()), Ok(1.0f32.to_bits()));
    assert_eq!(read_f64(&mut r).map(|x| x.to_bits()), Ok((-1.0f64).to_bits()));
    assert_eq!(r.left(), 0);
}

#[test]
fn signed_integers_round_trip() {
    for n in [0, 1, -1, i64::MIN, i64::MAX, -42] {
        let mut out = Vec::new();
        write_i64(&mut out, n);
        assert_eq!(out, n.to_le_bytes());
        assert_eq!(read_i64(&mut Reader::new(out)), Ok(n));
    }
}

#[test]
fn strings_are_length_prefixed() {
    let mut out = Vec::new();
    write_string(&mut out, "hé");
    assert_eq!(out, vec![3, 0, 0, 0, b'h', 0xC3, 0xA9]);
    out.push(9);
    let mut r = Reader::new(out);
    assert_eq!(read_string(&mut r), Ok("hé".to_string()));
    assert_eq!(r.left(), 1);

    let mut empty = Vec::new();
    write_string(&mut empty, "");
    assert_eq!(read_string(&mut Reader::new(empty)), Ok(String::new()));
}

#[test]
fn values_carry_a_tag() {
    let cases = [
        (Value::Str("x".into()), vec![0, 1, 0, 0, 0, b'x']),
        (Value::Int(5), vec![1, 5, 0, 0, 0, 0, 0, 0, 0]),
        (Value::Float(Double::from_bits(0)), vec![2, 0, 0, 0, 0, 0, 0, 0, 0]),
        (Value::Bool(true), vec![3, 1]),
        (Value::Bool(false), vec![3, 0]),
    ];
    for (value, bytes) in cases {
        let mut out = Vec::new();
        write_value(&mut out, &value);
        assert_eq!(out, bytes);
        assert_eq!(read_value(&mut Reader::new(out)).unwrap(), value);
    }
    // Any byte but zero is true.
    assert_eq!(read_value(&mut Reader::new(vec![3, 200])).unwrap(), Value::Bool(true));
}

#[test]
fn payloads_round_trip() {
    let mut payload = Payload::new();
    payload.insert("year".into(), Value::Int(2021));
    payload.insert("lang".into(), Value::Str("en".into()));
    payload.insert("score".into(), Value::Float(Double::from_bits(0.5f64.to_bits())));
    payload.insert("public".into(), Value::Bool(true));
    let mut out = Vec::new();
    write_payload(&mut out, Some(&payload));
    write_payload(&mut out, None);
    out.push(77);
    assert_eq!(out[..9], [1, 4, 0, 0, 0, 4, 0, 0, 0]);
    assert_eq!(&out[9..13], b"lang");

    let mut r = Reader::new(out);
    let back = read_payload(&mut r).unwrap().unwrap();
    assert_eq!(back.len(), 4);
    for i in 0..4 {
        assert_eq!(back.field(i), payload.field(i));
    }
    assert!(read_payload(&mut r).unwrap().is_none());
    assert_eq!(read_u8(&mut r), Ok(77));
}

#[test]
fn repeated_keys_keep_the_last_value() {
    let mut out = vec![1, 2, 0, 0, 0];
    write_string(&mut out, "k");
    write_value(&mut out, &Value::Int(1));
    write_string(&mut out, "k");
    write_value(&mut out, &Value::Int(2));
    let back = read_payload(&mut Reader::new(out)).unwrap().unwrap();
    assert_eq!(back.len(), 1);
    assert_eq!(back.get("k"), Some(&Value::Int(2)));
}

#[test]
fn too_few_bytes_are_refused() {
    assert_eq!(read_u8(&mut Reader::new(vec![])), Err(ReadError::UnexpectedEof));
    assert_eq!(read_u32(&mut Reader::new(vec![1, 2, 3])), Err(ReadError::UnexpectedEof));
    assert_eq!(read_u64(&mut Reader::new(vec![0; 7])), Err(ReadError::UnexpectedEof));
    assert_eq!(read_i64(&mut Reader::new(vec![0; 7])), Err(ReadError::UnexpectedEof));
    assert_eq!(
        read_string(&mut Reader::new(vec![255, 255, 255, 255, b'a'])),
        Err(ReadError::UnexpectedEof)
    );
    let mut out = Vec::new();
    write_payload(&mut out, Some(&Payload::new()));
    out.pop();
    assert!(matches!(read_payload(&mut Reader::new(out)), Err(ReadError::UnexpectedEof)));
}

#[test]
fn bad_text_and_unknown_tags_are_refused() {
    assert_eq!(
        read_string(&mut Reader::new(vec![2, 0, 0, 0, 0xC3, 0x28])),
        Err(ReadError::InvalidUtf8 { index: 0, length: Some(1) })
    );
    assert!(matches!(read_value(&mut Reader::new(vec![4])), Err(ReadError::UnknownTag(4))));
    assert!(matches!(read_value(&mut Reader::new(vec![255, 0])), Err(ReadError::UnknownTag(255))));
}

#[test]
fn read_errors_say_what_is_wrong() {
    assert_eq!(ReadError::UnexpectedEof.message(), "failed to fill whole buffer");
    let invalid = ReadError::InvalidUtf8 { index: 12, length: Some(3) };
    assert_eq!(invalid.message(), "invalid utf-8 sequence of 3 bytes from index 12");
    let incomplete = ReadError::InvalidUtf8 { index: 7, length: None };
    assert_eq!(incomplete.message(), "incomplete utf-8 byte sequence from index 7");
    assert_eq!(ReadError::UnknownTag(207).message(), "unknown payload value tag 207");
    assert_eq!(ReadError::UnknownTag(4).message(), "unknown payload value tag 4");
}

#[test]
fn bad_text_is_refused_where_it_goes_wrong() {
    let texts: [&[u8]; 6] = [
        &[0xC3, 0x28],
        b"ab\xFFcd",
        b"caf\xC3",
        b"x\xE2\x82",
        b"x\xE2\x82z",
        &[0x41, 0xF0, 0x9F, 0x92, 0x41],
    ];
    for text in texts {
        let refused = String::from_utf8(text.to_vec()).unwrap_err();
        let mut bytes = vec![text.len() as u8, 0, 0, 0];
        bytes.extend_from_slice(text);
        let error = read_string(&mut Reader::new(bytes)).unwrap_err();
        let index = refused.utf8_error().valid_up_to();
        let length = refused.utf8_error().error_len();
        assert_eq!(error, ReadError::InvalidUtf8 { index, length });
        assert_eq!(error.message(), refused.to_string());
    }
    assert_eq!(checked_text(Ok("text".to_string())), Ok("text".to_string()));
    assert_eq!(
        checked_text(Err((3, None))),
        Err(ReadError::InvalidUtf8 { index: 3, length: None })
    );
}
