use cachem::codec::{decode, encode_to_vec, value_eq, Schema, Value};
use cachem::error::CodecError;
use cachem::file::FileUtils;

fn enc(v: &Value) -> Vec<u8> {
    encode_to_vec(v)
}

fn dec_ok(s: &Schema, bytes: &[u8]) -> (Value, usize) {
    decode(s, bytes, 0).expect("decode should succeed")
}

fn dec_err(s: &Schema, bytes: &[u8]) -> CodecError {
    decode(s, bytes, 0).expect_err("decode should fail")
}

#[test]
fn test_example_1_w() {
    // a unit struct writes exactly one empty-marker byte
    let is = enc(&Value::Empty);
    let expected = vec![0];
    assert_eq!(is, expected);
}

#[test]
fn test_example_2_r() {
    let buf = vec![1, 1, 0, 0];
    let (is, used) = dec_ok(&Schema::U32, &buf);
    assert!(value_eq(&is, &Value::U32(16842752u32)));
    assert_eq!(used, 4);
}

#[test]
fn test_example_2_w() {
    let is = enc(&Value::U32(16842752u32));
    let expected = vec![1, 1, 0, 0];
    assert_eq!(is, expected);
}

fn example_11_schema() -> Schema {
    // a sum type: a u32 newtype arm, a list arm, and a bare arm
    Schema::Tagged(vec![
        Some(Schema::U32),
        Some(Schema::List(Box::new(Schema::U32))),
        None,
    ])
}

#[test]
fn test_example_11_r() {
    let buf = vec![0, 0, 0, 4, 210];
    let (is, used) = dec_ok(&example_11_schema(), &buf);
    let expected = Value::Tagged(0, Some(Box::new(Value::U32(1234u32))));
    assert!(value_eq(&is, &expected));
    assert_eq!(used, 5);
}

#[test]
fn test_example_11_w() {
    let e = Value::Tagged(0, Some(Box::new(Value::U32(1234u32))));
    let is = enc(&e);
    let expected = vec![0, 0, 0, 4, 210];
    assert_eq!(is, expected);
}

#[test]
fn fixed_width_layouts() {
    assert_eq!(enc(&Value::U8(7)), vec![7]);
    assert_eq!(enc(&Value::U16(0x1234)), vec![0x12, 0x34]);
    assert_eq!(enc(&Value::U64(1)), vec![0, 0, 0, 0, 0, 0, 0, 1]);
    assert_eq!(enc(&Value::U128(2)), vec![0, 0, 0, 0, 0, 0, 0, 0, 0, 0, 0, 0, 0, 0, 0, 2]);
    assert_eq!(enc(&Value::I8(-1)), vec![0xFF]);
    assert_eq!(enc(&Value::I16(-2)), vec![0xFF, 0xFE]);
    assert_eq!(enc(&Value::I32(-1)), vec![0xFF, 0xFF, 0xFF, 0xFF]);
    assert_eq!(enc(&Value::I64(1)), vec![0, 0, 0, 0, 0, 0, 0, 1]);
    assert_eq!(enc(&Value::Bool(true)), vec![1]);
    assert_eq!(enc(&Value::Bool(false)), vec![0]);
    assert_eq!(enc(&Value::Unit), Vec::<u8>::new());
    // IEEE-754 bits of 1.0f32, carried as a bit pattern
    assert_eq!(enc(&Value::F32(1.0f32.to_bits())), vec![0x3F, 0x80, 0, 0]);
}

#[test]
fn signed_round_trip() {
    for x in [i32::MIN, -1, 0, 1, i32::MAX] {
        let bytes = enc(&Value::I32(x));
        let (back, used) = dec_ok(&Schema::I32, &bytes);
        assert!(value_eq(&back, &Value::I32(x)));
        assert_eq!(used, 4);
    }
    let bytes = enc(&Value::I128(-5));
    let (back, _) = dec_ok(&Schema::I128, &bytes);
    assert!(value_eq(&back, &Value::I128(-5)));
}

#[test]
fn text_layout_and_round_trip() {
    let v = Value::Text(b"hello".to_vec());
    let bytes = enc(&v);
    assert_eq!(bytes, vec![b'h', b'e', b'l', b'l', b'o', 0]);
    let (back, used) = dec_ok(&Schema::Text, &bytes);
    assert!(value_eq(&back, &v));
    assert_eq!(used, 6);
}

#[test]
fn text_rejects_bad_utf8() {
    // 0xFF can never open a UTF-8 sequence
    let bytes = vec![0xFF, 0x20, 0];
    assert_eq!(dec_err(&Schema::Text, &bytes), CodecError::InvalidUtf8);
}

#[test]
fn text_needs_terminator() {
    let bytes = vec![b'h', b'i'];
    assert_eq!(dec_err(&Schema::Text, &bytes), CodecError::UnexpectedEnd);
}

#[test]
fn list_layout_and_round_trip() {
    let v = Value::List(vec![Value::U32(1), Value::U32(2)]);
    let bytes = enc(&v);
    assert_eq!(bytes, vec![0, 0, 0, 2, 0, 0, 0, 1, 0, 0, 0, 2]);
    let (back, used) = dec_ok(&Schema::List(Box::new(Schema::U32)), &bytes);
    assert!(value_eq(&back, &v));
    assert_eq!(used, 12);
}

#[test]
fn list_rejects_oversized_length() {
    // count 0xFFFFFFFE announced, almost nothing follows
    let bytes = vec![0xFF, 0xFF, 0xFF, 0xFE, 1, 2];
    assert_eq!(
        dec_err(&Schema::List(Box::new(Schema::U32)), &bytes),
        CodecError::OversizedLength
    );
}

#[test]
fn list_rejects_truncated_body() {
    let bytes = vec![0, 0, 0, 2, 0, 0, 0, 1];
    assert_eq!(
        dec_err(&Schema::List(Box::new(Schema::U32)), &bytes),
        CodecError::UnexpectedEnd
    );
}

#[test]
fn dict_layout_and_duplicate_keys() {
    let v = Value::Dict(vec![
        (Value::U8(1), Value::U8(10)),
        (Value::U8(2), Value::U8(20)),
    ]);
    let bytes = enc(&v);
    assert_eq!(bytes, vec![0, 0, 0, 2, 1, 10, 2, 20]);
    let schema = Schema::Dict(Box::new(Schema::U8), Box::new(Schema::U8));
    let (back, _) = dec_ok(&schema, &bytes);
    assert!(value_eq(&back, &v));

    let dup = vec![0, 0, 0, 2, 1, 10, 1, 20];
    assert_eq!(dec_err(&schema, &dup), CodecError::DuplicateKey);
}

#[test]
fn optional_and_fallible_layouts() {
    let some = Value::Optional(Some(Box::new(Value::U32(7))));
    assert_eq!(enc(&some), vec![1, 0, 0, 0, 7]);
    let none = Value::Optional(None);
    assert_eq!(enc(&none), vec![0]);
    let schema = Schema::Optional(Box::new(Schema::U32));
    let (back, _) = dec_ok(&schema, &enc(&some));
    assert!(value_eq(&back, &some));
    let (back, used) = dec_ok(&schema, &enc(&none));
    assert!(value_eq(&back, &none));
    assert_eq!(used, 1);

    let ok = Value::Fallible(Ok(Box::new(Value::U8(3))));
    assert_eq!(enc(&ok), vec![1, 3]);
    let err = Value::Fallible(Err(Box::new(Value::Text(b"no".to_vec()))));
    assert_eq!(enc(&err), vec![0, b'n', b'o', 0]);
    let schema = Schema::Fallible(Box::new(Schema::U8), Box::new(Schema::Text));
    let (back, _) = dec_ok(&schema, &enc(&err));
    assert!(value_eq(&back, &err));
}

#[test]
fn record_concatenates_fields() {
    let v = Value::Record(vec![Value::U8(1), Value::U16(2), Value::Bool(true)]);
    let bytes = enc(&v);
    assert_eq!(bytes, vec![1, 0, 2, 1]);
    let schema = Schema::Record(vec![Schema::U8, Schema::U16, Schema::Bool]);
    let (back, used) = dec_ok(&schema, &bytes);
    assert!(value_eq(&back, &v));
    assert_eq!(used, 4);
}

#[test]
fn tagged_rejects_unknown_tag() {
    let bytes = vec![5, 0];
    assert_eq!(dec_err(&example_11_schema(), &bytes), CodecError::BadVariantTag);
}

#[test]
fn tagged_bare_arm_uses_empty_marker() {
    let v = Value::Tagged(2, None);
    let bytes = enc(&v);
    assert_eq!(bytes, vec![2, 0]);
    let (back, used) = dec_ok(&example_11_schema(), &bytes);
    assert!(value_eq(&back, &v));
    assert_eq!(used, 2);
}

#[test]
fn two_encodings_decode_in_order() {
    // prefix-freeness: concatenated encodings come back out in order
    let a = Value::Text(b"ab".to_vec());
    let b = Value::U32(9);
    let mut bytes = enc(&a);
    bytes.extend_from_slice(&enc(&b));
    let (first, mid) = dec_ok(&Schema::Text, &bytes);
    assert!(value_eq(&first, &a));
    let (second, end) = decode(&Schema::U32, &bytes, mid).unwrap();
    assert!(value_eq(&second, &b));
    assert_eq!(end, bytes.len());
}

#[test]
fn value_eq_distinguishes() {
    assert!(value_eq(&Value::U32(1), &Value::U32(1)));
    assert!(!value_eq(&Value::U32(1), &Value::U32(2)));
    assert!(!value_eq(&Value::U32(1), &Value::U64(1)));
    let l1 = Value::List(vec![Value::U8(1), Value::U8(2)]);
    let l2 = Value::List(vec![Value::U8(1), Value::U8(2)]);
    let l3 = Value::List(vec![Value::U8(2), Value::U8(1)]);
    assert!(value_eq(&l1, &l2));
    assert!(!value_eq(&l1, &l3));
}

#[test]
fn file_utils_round_trip() {
    let entries = vec![Value::U32(1), Value::U32(2), Value::U32(3)];
    let bytes = FileUtils::save(entries);
    assert_eq!(bytes, vec![0, 0, 0, 3, 0, 0, 0, 1, 0, 0, 0, 2, 0, 0, 0, 3]);
    let back = FileUtils::open(&bytes, &Schema::U32).unwrap();
    assert_eq!(back.len(), 3);
    assert!(value_eq(&back[0], &Value::U32(1)));
    assert!(value_eq(&back[2], &Value::U32(3)));
    // an empty file reads as an empty table
    let empty = FileUtils::open(&[], &Schema::U32).unwrap();
    assert!(empty.is_empty());
}
