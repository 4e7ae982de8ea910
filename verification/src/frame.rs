use vstd::prelude::*;
use vstd::utf8::*;
use crate::bytes::{be_bytes, be_value, lemma_be_value_bytes, lemma_be_roundtrip, push_u64_be, push_i64_be, read_u64_num, read_i64_num, string_from_utf8};

verus! {

/// A value kept under a key. A float is held as its IEEE-754 bit pattern
/// (`f64::to_bits`), which is exactly what the frame stores for it.
#[derive(Debug, Clone, PartialEq)]
pub enum Value {
    String(String),
    Binary(Vec<u8>),
    F64(u64),
    U64(u64),
    I64(i64),
}

/// The type byte that a frame records for a value.
pub open spec fn value_tag(v: Value) -> u8 {
    match v {
        Value::String(_) => 3,
        Value::Binary(_) => 4,
        Value::I64(_) => 5,
        Value::U64(_) => 6,
        Value::F64(_) => 7,
    }
}

/// The bytes that a frame stores for a value.
pub open spec fn value_payload(v: Value) -> Seq<u8> {
    match v {
        Value::String(s) => encode_utf8(s@),
        Value::Binary(b) => b@,
        Value::I64(i) => be_bytes(i as u64),
        Value::U64(u) => be_bytes(u),
        Value::F64(bits) => be_bytes(bits),
    }
}

/// The frame that stores `payload`, of type `tag`, under the key whose bytes are `key`:
/// a start flag, the key's length field, the key, the type, the payload's length
/// field, the payload, and an end flag. Each length field is a width byte (8) and
/// eight big-endian bytes, and each part is preceded by a zero byte.
pub open spec fn frame_bytes(key: Seq<u8>, tag: u8, payload: Seq<u8>) -> Seq<u8> {
    seq![0u8, 1u8, 0u8, 0u8, 8u8, 0u8] + be_bytes(key.len() as u64) + seq![0u8] + key + seq![
        0u8,
        tag,
        0u8,
        8u8,
        0u8,
    ] + be_bytes(payload.len() as u64) + seq![0u8] + payload + seq![0u8, 2u8, 0u8]
}

/// The frame of `key` holding `value`.
pub open spec fn keyval_bytes(key: Seq<char>, value: Value) -> Seq<u8> {
    frame_bytes(encode_utf8(key), value_tag(value), value_payload(value))
}

/// Where a value is found in the file, and what type it has.
#[derive(Debug, Clone, Copy, PartialEq, Eq)]
pub struct Pointer {
    pub start: u64,
    pub end: u64,
    pub value_start: u64,
    pub value_end: u64,
    pub value_size: u64,
    pub value_type: u8,
}

/// Why a read of a key failed.
#[derive(Debug, Clone, Copy, PartialEq, Eq, Structural)]
pub enum ReadPointerError {
    NotFound,
    FailedRead,
    FailedGetPointer,
    FailedSeek,
    ReadFailed,
    InvalidRead,
    InvalidValue,
}

/// Appends the bytes of `src` to `out`.
pub fn append_slice(out: &mut Vec<u8>, src: &[u8])
    ensures
        final(out)@ == old(out)@ + src@,
{
    let mut i: usize = 0;
    while i < src.len()
        invariant
            i <= src@.len(),
            out@ == old(out)@ + src@.subrange(0, i as int),
        decreases src@.len() - i,
    {
        out.push(src[i]);
        i = i + 1;
        assert(src@.subrange(0, i as int) =~= src@.subrange(0, i - 1) + seq![src@[i - 1]]);
    }
    assert(src@.subrange(0, src@.len() as int) =~= src@);
}

/// Appends a length field for `n`: a zero, the width 8, a zero and the eight
/// big-endian bytes of `n`.
fn push_size_field(out: &mut Vec<u8>, n: u64)
    ensures
        final(out)@ == old(out)@ + seq![0u8, 8u8, 0u8] + be_bytes(n),
{
    let mut size_bytes: Vec<u8> = Vec::new();
    push_u64_be(&mut size_bytes, n);
    out.push(0);
    out.push(size_bytes.len() as u8);
    out.push(0);
    out.append(&mut size_bytes);
}

/// The frame that stores `value` under `key`.
pub fn parse_keyval(key: &String, value: &Value) -> (collect: Vec<u8>)
    ensures
        collect@ == keyval_bytes(key@, *value),
{
    let key_bytes = key.as_str().as_bytes();
    let mut collect: Vec<u8> = Vec::new();
    collect.push(0);
    collect.push(1);
    collect.push(0);
    push_size_field(&mut collect, key_bytes.len() as u64);
    collect.push(0);
    append_slice(&mut collect, key_bytes);
    let ghost head = collect@;
    match value {
        Value::String(v) => {
            let bytes = v.as_str().as_bytes();
            collect.push(0);
            collect.push(3);
            push_size_field(&mut collect, bytes.len() as u64);
            collect.push(0);
            append_slice(&mut collect, bytes);
        },
        Value::Binary(v) => {
            collect.push(0);
            collect.push(4);
            push_size_field(&mut collect, v.len() as u64);
            collect.push(0);
            append_slice(&mut collect, v.as_slice());
        },
        Value::I64(v) => {
            let mut value_as_bytes: Vec<u8> = Vec::new();
            push_i64_be(&mut value_as_bytes, *v);
            collect.push(0);
            collect.push(5);
            push_size_field(&mut collect, value_as_bytes.len() as u64);
            collect.push(0);
            collect.append(&mut value_as_bytes);
        },
        Value::U64(v) => {
            let mut value_as_bytes: Vec<u8> = Vec::new();
            push_u64_be(&mut value_as_bytes, *v);
            collect.push(0);
            collect.push(6);
            push_size_field(&mut collect, value_as_bytes.len() as u64);
            collect.push(0);
            collect.append(&mut value_as_bytes);
        },
        Value::F64(v) => {
            let mut value_as_bytes: Vec<u8> = Vec::new();
            push_u64_be(&mut value_as_bytes, *v);
            collect.push(0);
            collect.push(7);
            push_size_field(&mut collect, value_as_bytes.len() as u64);
            collect.push(0);
            collect.append(&mut value_as_bytes);
        },
    }
    collect.push(0);
    collect.push(2);
    collect.push(0);
    assert(collect@ =~= keyval_bytes(key@, *value));
    collect
}


/// Reading a length field at `pos` does not leave `pool`: `pos` is in it, and so is
/// every byte that the width byte at `pos` announces.
pub open spec fn size_int_in_bounds(pool: Seq<u8>, pos: int) -> bool {
    &&& 0 <= pos < pool.len()
    &&& (pool[pos] == 0 || pos + pool[pos] + 1 < pool.len())
}

/// The length field at `pos`: its width byte `n` is followed, after one byte, by `n`
/// bytes whose first eight are a big-endian number. The number and the position of
/// the field's last byte, or `None` when the width is under eight.
pub open spec fn spec_read_size_int(pool: Seq<u8>, pos: int) -> Option<(u64, u64)> {
    let n = pool[pos] as int;
    if n >= 8 {
        Some((be_value(pool.subrange(pos + 2, pos + n + 2)), (pos + n + 1) as u64))
    } else {
        None
    }
}

/// Reads the length field at `key_val_size_int_pos` of `pool`.
pub fn read_size_int(pool: &Vec<u8>, key_val_size_int_pos: usize) -> (r: Result<(u64, u64), ()>)
    requires
        size_int_in_bounds(pool@, key_val_size_int_pos as int),
    ensures
        r matches Ok(v) ==> spec_read_size_int(pool@, key_val_size_int_pos as int) == Some(v),
        r is Err ==> spec_read_size_int(pool@, key_val_size_int_pos as int) is None,
{
    let pos = key_val_size_int_pos;
    let len = pool.len();
    let key_val_size_int = pool[pos] as usize;
    let mut collect: Vec<u8> = Vec::new();
    if key_val_size_int > 0 {
        assert(key_val_size_int == pool@[pos as int]);
        assert(pos + key_val_size_int + 1 < pool@.len());
        let last = pos + key_val_size_int + 1;
        let mut i: usize = pos + 2;
        while i <= last
            invariant
                pos + 2 <= i <= last + 1,
                last == pos + key_val_size_int + 1,
                last < len,
                len == pool@.len(),
                key_val_size_int == pool@[pos as int],
                collect@ == pool@.subrange(pos + 2, i as int),
            decreases last + 1 - i,
        {
            collect.push(pool[i]);
            i = i + 1;
            assert(collect@ =~= pool@.subrange(pos + 2, i as int));
        }
    }
    match read_u64_num(collect) {
        Ok(v) => Ok((v, (pos + key_val_size_int + 1) as u64)),
        Err(_e) => Err(()),
    }
}

/// The start flag (0, 1, 0, 0) opens `pool` and the end flag (0, 2, 0) closes it.
pub open spec fn frame_flags_ok(pool: Seq<u8>) -> bool {
    &&& pool[0] == 0
    &&& pool[1] == 1
    &&& pool[2] == 0
    &&& pool[3] == 0
    &&& pool[pool.len() - 1] == 0
    &&& pool[pool.len() - 2] == 2
    &&& pool[pool.len() - 3] == 0
}

/// Following the fields of a frame that starts at file offset `start` stays inside
/// `pool` and inside the range of `u64`.
pub open spec fn frame_pointer_safe(pool: Seq<u8>, start: u64) -> bool {
    frame_flags_ok(pool) ==> {
        &&& size_int_in_bounds(pool, 4)
        &&& spec_read_size_int(pool, 4) matches Some((k, c)) ==> {
            &&& c + k + 3 < pool.len()
            &&& size_int_in_bounds(pool, c + k + 5)
            &&& spec_read_size_int(pool, c + k + 5) matches Some((p, vc)) ==> start + vc + p + 2
                <= u64::MAX
        }
    }
}

/// The pointer of the frame `pool` that lies at `start..=end` in the file: the type
/// byte follows the key, and the value follows its length field. `Err` when a flag is
/// missing or a length field is narrower than eight bytes.
pub open spec fn spec_frame_pointer(pool: Seq<u8>, start: u64, end: u64) -> Result<Pointer, ()> {
    if !frame_flags_ok(pool) {
        Err(())
    } else {
        match spec_read_size_int(pool, 4) {
            None => Err(()),
            Some((k, c)) => {
                let tc = c + k + 3;
                match spec_read_size_int(pool, tc + 2) {
                    None => Err(()),
                    Some((p, vc)) => Ok(
                        Pointer {
                            start,
                            end,
                            value_start: (start + vc + 2) as u64,
                            value_end: (start + vc + p + 1) as u64,
                            value_size: p,
                            value_type: pool[tc],
                        },
                    ),
                }
            },
        }
    }
}

/// The pointer of the frame `pool`, found at `start..=end` of the file.
pub fn parse_frame_to_pointer(pool: &Vec<u8>, start: u64, end: u64) -> (r: Result<Pointer, ()>)
    requires
        pool@.len() >= 4,
        frame_pointer_safe(pool@, start),
    ensures
        r == spec_frame_pointer(pool@, start, end),
{
    let len = pool.len();
    if pool[0] != 0 || pool[1] != 1 || pool[2] != 0 || pool[3] != 0 || pool[len - 1] != 0
        || pool[len - 2] != 2 || pool[len - 3] != 0 {
        return Err(());
    }
    let key_size: u64;
    let key_cursor: u64;
    match read_size_int(pool, 4) {
        Ok((n, c)) => {
            key_size = n;
            key_cursor = c;
        },
        Err(_) => {
            return Err(());
        },
    }
    let value_type_cursor = key_cursor + key_size + 3;
    let value_type: u8 = pool[value_type_cursor as usize];
    let value_size: u64;
    let value_cursor: u64;
    let value_size_int_cursor = value_type_cursor + 2;
    match read_size_int(pool, value_size_int_cursor as usize) {
        Ok((n, c)) => {
            value_size = n;
            value_cursor = c;
        },
        Err(_) => {
            return Err(());
        },
    }
    let value_start = value_cursor + 2;
    let value_end = value_cursor + value_size + 1;
    let value_len = value_end + 1 - value_start;
    Ok(
        Pointer {
            start: start,
            end: end,
            value_start: start + value_start,
            value_end: start + value_end,
            value_size: value_len,
            value_type: value_type,
        },
    )
}

/// `buffer` holds a value of the type byte `value_type`: text (3) that is UTF-8,
/// bytes (4), or a signed (5), unsigned (6) or float (7) number, which takes eight
/// bytes.
pub open spec fn decode_ok(value_type: u8, buffer: Seq<u8>) -> bool {
    ||| value_type == 3 && valid_utf8(buffer)
    ||| value_type == 4
    ||| 5 <= value_type <= 7 && buffer.len() >= 8
}

/// The part of `buffer` that makes the value: the first eight bytes of a number,
/// all of it otherwise.
pub open spec fn decoded_payload(value_type: u8, buffer: Seq<u8>) -> Seq<u8> {
    if 5 <= value_type <= 7 {
        buffer.subrange(0, 8)
    } else {
        buffer
    }
}

/// `r` is what reading the bytes `buffer` of a value of type `value_type` gives.
pub open spec fn decodes_to(value_type: u8, buffer: Seq<u8>, r: Result<Value, ReadPointerError>) -> bool {
    &&& r is Ok <==> decode_ok(value_type, buffer)
    &&& r matches Ok(v) ==> value_tag(v) == value_type && value_payload(v) == decoded_payload(
        value_type,
        buffer,
    )
    &&& r matches Err(e) ==> e == ReadPointerError::InvalidValue
}

/// The value that `buffer` holds for the type byte `value_type`.
pub fn decode_value(value_type: u8, buffer: Vec<u8>) -> (r: Result<Value, ReadPointerError>)
    ensures
        decodes_to(value_type, buffer@, r),
{
    let ghost b = buffer@;
    if value_type == 3 {
        match string_from_utf8(buffer) {
            Some(v) => {
                proof {
                    vstd::utf8::decode_utf8_encode_utf8(b);
                }
                Ok(Value::String(v))
            },
            None => Err(ReadPointerError::InvalidValue),
        }
    } else if value_type == 4 {
        Ok(Value::Binary(buffer))
    } else if value_type == 5 {
        match read_i64_num(buffer) {
            Ok(v) => {
                proof {
                    lemma_be_value_bytes(b);
                }
                Ok(Value::I64(v))
            },
            Err(_) => Err(ReadPointerError::InvalidValue),
        }
    } else if value_type == 6 {
        match read_u64_num(buffer) {
            Ok(v) => {
                proof {
                    lemma_be_value_bytes(b);
                }
                Ok(Value::U64(v))
            },
            Err(_) => Err(ReadPointerError::InvalidValue),
        }
    } else if value_type == 7 {
        match read_u64_num(buffer) {
            Ok(v) => {
                proof {
                    lemma_be_value_bytes(b);
                }
                Ok(Value::F64(v))
            },
            Err(_) => Err(ReadPointerError::InvalidValue),
        }
    } else {
        Err(ReadPointerError::InvalidValue)
    }
}

/// The pointer that a frame of the key bytes `key`, the type `tag` and the
/// payload `payload` gets when it lies at `start..=end` of the file.
pub open spec fn expected_pointer(key: Seq<u8>, tag: u8, payload: Seq<u8>, start: u64, end: u64) -> Pointer {
    Pointer {
        start,
        end,
        value_start: (start + 29 + key.len()) as u64,
        value_end: (start + 28 + key.len() + payload.len()) as u64,
        value_size: payload.len() as u64,
        value_type: tag,
    }
}

/// Reading a frame back: the pointer of a frame written by `frame_bytes` locates
/// its payload and records its type, and the payload sits where it points.
pub proof fn lemma_frame_pointer_roundtrip(key: Seq<u8>, tag: u8, payload: Seq<u8>, start: u64, end: u64)
    requires
        start + 32 + key.len() + payload.len() <= u64::MAX,
    ensures
        frame_bytes(key, tag, payload).len() == 32 + key.len() + payload.len(),
        frame_pointer_safe(frame_bytes(key, tag, payload), start),
        spec_frame_pointer(frame_bytes(key, tag, payload), start, end) == Ok::<Pointer, ()>(
            expected_pointer(key, tag, payload, start, end),
        ),
        frame_bytes(key, tag, payload).subrange(29 + key.len() as int, 29 + key.len() + payload.len() as int)
            == payload,
{
    let k = key.len() as int;
    let p = payload.len() as int;
    let f = frame_bytes(key, tag, payload);
    lemma_be_roundtrip(k as u64);
    lemma_be_roundtrip(p as u64);
    assert(f.len() == 32 + k + p);
    assert(f.subrange(6, 14) =~= be_bytes(k as u64));
    assert(f.subrange(20 + k, 28 + k) =~= be_bytes(p as u64));
    assert(f.subrange(29 + k, 29 + k + p) =~= payload);
    assert(f[4] == 8 && f[18 + k] == 8 && f[16 + k] == tag);
    assert(f[0] == 0 && f[1] == 1 && f[2] == 0 && f[3] == 0);
    assert(f[f.len() - 1] == 0 && f[f.len() - 2] == 2 && f[f.len() - 3] == 0);
    assert(spec_read_size_int(f, 4) == Some((k as u64, 13u64)));
    assert(spec_read_size_int(f, 18 + k) == Some((p as u64, (27 + k) as u64)));
}

/// A value read back from the payload and type byte that its frame stores is the
/// value written: same type, same stored bytes.
pub proof fn lemma_value_roundtrip(v: Value)
    ensures
        decode_ok(value_tag(v), value_payload(v)),
        decoded_payload(value_tag(v), value_payload(v)) == value_payload(v),
        forall|r: Result<Value, ReadPointerError>|
            decodes_to(value_tag(v), value_payload(v), r) ==> (r matches Ok(w) && value_tag(w)
                == value_tag(v) && value_payload(w) == value_payload(v)),
{
    match v {
        Value::String(s) => {
            vstd::utf8::encode_utf8_valid_utf8(s@);
        },
        Value::I64(i) => {
            lemma_be_roundtrip(i as u64);
            assert(be_bytes(i as u64).subrange(0, 8) =~= be_bytes(i as u64));
        },
        Value::U64(u) => {
            lemma_be_roundtrip(u);
            assert(be_bytes(u).subrange(0, 8) =~= be_bytes(u));
        },
        Value::F64(b) => {
            lemma_be_roundtrip(b);
            assert(be_bytes(b).subrange(0, 8) =~= be_bytes(b));
        },
        Value::Binary(_) => {},
    }
}

} // verus!
