use gzbdb::frame::{
    decode_value, parse_frame_to_pointer, parse_keyval, read_size_int, Pointer, ReadPointerError,
    Value,
};

fn be8(n: u64) -> Vec<u8> {
    n.to_be_bytes().to_vec()
}

fn expected_frame(key: &[u8], tag: u8, payload: &[u8]) -> Vec<u8> {
    let mut f = vec![0u8, 1, 0, 0, 8, 0];
    f.extend(be8(key.len() as u64));
    f.push(0);
    f.extend_from_slice(key);
    f.extend_from_slice(&[0, tag, 0, 8, 0]);
    f.extend(be8(payload.len() as u64));
    f.push(0);
    f.extend_from_slice(payload);
    f.extend_from_slice(&[0, 2, 0]);
    f
}

#[test]
fn keyval_layout_of_a_number() {
    let frame = parse_keyval(&"k1".to_string(), &Value::U64(7));
    let mut want = vec![0u8, 1, 0, 0, 8, 0, 0, 0, 0, 0, 0, 0, 0, 2, 0, b'k', b'1', 0, 6, 0, 8, 0];
    want.extend_from_slice(&[0, 0, 0, 0, 0, 0, 0, 8, 0, 0, 0, 0, 0, 0, 0, 0, 7, 0, 2, 0]);
    assert_eq!(frame, want);
    assert_eq!(frame.len(), 42);
}

#[test]
fn keyval_layout_of_each_type() {
    let key = "clé".to_string();
    let kb = key.as_bytes().to_vec();
    assert_eq!(
        parse_keyval(&key, &Value::String("hé".to_string())),
        expected_frame(&kb, 3, "hé".as_bytes())
    );
    assert_eq!(
        parse_keyval(&key, &Value::Binary(vec![9, 8, 7])),
        expected_frame(&kb, 4, &[9, 8, 7])
    );
    assert_eq!(
        parse_keyval(&key, &Value::I64(-2)),
        expected_frame(&kb, 5, &(-2i64).to_be_bytes())
    );
    assert_eq!(
        parse_keyval(&key, &Value::U64(u64::MAX)),
        expected_frame(&kb, 6, &u64::MAX.to_be_bytes())
    );
    let bits = 1.5f64.to_bits();
    assert_eq!(parse_keyval(&key, &Value::F64(bits)), expected_frame(&kb, 7, &bits.to_be_bytes()));
}

#[test]
fn pointer_of_a_frame_at_an_offset() {
    let frame = parse_keyval(&"k1".to_string(), &Value::U64(7));
    let p = parse_frame_to_pointer(&frame, 100, 141).unwrap();
    assert_eq!(
        p,
        Pointer { start: 100, end: 141, value_start: 131, value_end: 138, value_size: 8, value_type: 6 }
    );
    assert_eq!(&frame[(131 - 100) as usize..=(138 - 100) as usize], &7u64.to_be_bytes());
}

#[test]
fn pointer_of_an_empty_payload() {
    let frame = parse_keyval(&"key".to_string(), &Value::Binary(vec![]));
    let p = parse_frame_to_pointer(&frame, 0, 34).unwrap();
    assert_eq!(p.value_start, 32);
    assert_eq!(p.value_size, 0);
    assert_eq!(p.value_type, 4);
}

#[test]
fn pointer_refused_without_flags() {
    let mut frame = parse_keyval(&"k1".to_string(), &Value::U64(7));
    frame[1] = 9;
    assert_eq!(parse_frame_to_pointer(&frame, 0, 41), Err(()));
    let mut frame = parse_keyval(&"k1".to_string(), &Value::U64(7));
    let n = frame.len();
    frame[n - 2] = 3;
    assert_eq!(parse_frame_to_pointer(&frame, 0, 41), Err(()));
}

#[test]
fn size_field_read() {
    let pool = vec![8u8, 0, 0, 0, 0, 0, 0, 0, 1, 2, 0];
    assert_eq!(read_size_int(&pool, 0), Ok((258, 9)));
}

#[test]
fn size_field_too_narrow() {
    let pool = vec![4u8, 0, 0, 0, 1, 2, 0];
    assert_eq!(read_size_int(&pool, 0), Err(()));
    let pool = vec![0u8, 0];
    assert_eq!(read_size_int(&pool, 0), Err(()));
}

#[test]
fn decode_each_type() {
    assert_eq!(decode_value(3, "hé".as_bytes().to_vec()), Ok(Value::String("hé".to_string())));
    assert_eq!(decode_value(4, vec![1, 2]), Ok(Value::Binary(vec![1, 2])));
    assert_eq!(decode_value(5, (-2i64).to_be_bytes().to_vec()), Ok(Value::I64(-2)));
    assert_eq!(decode_value(6, 300u64.to_be_bytes().to_vec()), Ok(Value::U64(300)));
    let bits = (-0.25f64).to_bits();
    assert_eq!(decode_value(7, bits.to_be_bytes().to_vec()), Ok(Value::F64(bits)));
    assert_eq!(f64::from_bits(bits), -0.25);
}

#[test]
fn decode_uses_first_eight_bytes_of_a_number() {
    let mut b = 5u64.to_be_bytes().to_vec();
    b.extend_from_slice(&[1, 2, 3]);
    assert_eq!(decode_value(6, b), Ok(Value::U64(5)));
}

#[test]
fn decode_refusals() {
    assert_eq!(decode_value(3, vec![0xff, 0xfe]), Err(ReadPointerError::InvalidValue));
    assert_eq!(decode_value(6, vec![1, 2, 3]), Err(ReadPointerError::InvalidValue));
    assert_eq!(decode_value(5, vec![]), Err(ReadPointerError::InvalidValue));
    assert_eq!(decode_value(7, vec![0; 7]), Err(ReadPointerError::InvalidValue));
    assert_eq!(decode_value(9, vec![1]), Err(ReadPointerError::InvalidValue));
    assert_eq!(decode_value(0, vec![]), Err(ReadPointerError::InvalidValue));
}
