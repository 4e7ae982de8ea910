use vstd::prelude::*;
use byteorder::{BigEndian, ReadBytesExt, WriteBytesExt};

verus! {

/// The eight bytes of `v`, most significant first.
pub open spec fn be_bytes(v: u64) -> Seq<u8> {
    seq![
        (v >> 56u64) as u8,
        (v >> 48u64) as u8,
        (v >> 40u64) as u8,
        (v >> 32u64) as u8,
        (v >> 24u64) as u8,
        (v >> 16u64) as u8,
        (v >> 8u64) as u8,
        v as u8,
    ]
}

/// The number whose big-endian form is the first eight bytes of `s`.
pub open spec fn be_value(s: Seq<u8>) -> u64
    recommends
        s.len() >= 8,
{
    ((s[0] as u64) << 56u64) | ((s[1] as u64) << 48u64) | ((s[2] as u64) << 40u64) | ((
    s[3] as u64) << 32u64) | ((s[4] as u64) << 24u64) | ((s[5] as u64) << 16u64) | ((
    s[6] as u64) << 8u64) | (s[7] as u64)
}

/// Reading back the big-endian form of a number gives the number.
pub proof fn lemma_be_roundtrip(v: u64)
    ensures
        be_value(be_bytes(v)) == v,
        be_bytes(v).len() == 8,
{
    let b = be_bytes(v);
    assert(b[0] == (v >> 56u64) as u8);
    assert(b[7] == v as u8);
    assert(((((v >> 56u64) as u8) as u64) << 56u64) | ((((v >> 48u64) as u8) as u64) << 48u64)
        | ((((v >> 40u64) as u8) as u64) << 40u64) | ((((v >> 32u64) as u8) as u64) << 32u64)
        | ((((v >> 24u64) as u8) as u64) << 24u64) | ((((v >> 16u64) as u8) as u64) << 16u64)
        | ((((v >> 8u64) as u8) as u64) << 8u64) | ((v as u8) as u64) == v) by (bit_vector);
}

/// The big-endian form of the number made of the first eight bytes of `s` is
/// those eight bytes.
pub proof fn lemma_be_value_bytes(s: Seq<u8>)
    requires
        s.len() >= 8,
    ensures
        be_bytes(be_value(s)) == s.subrange(0, 8),
{
    let (b0, b1, b2, b3, b4, b5, b6, b7) = (s[0], s[1], s[2], s[3], s[4], s[5], s[6], s[7]);
    let v = be_value(s);
    assert(v == ((b0 as u64) << 56u64) | ((b1 as u64) << 48u64) | ((b2 as u64) << 40u64) | ((
    b3 as u64) << 32u64) | ((b4 as u64) << 24u64) | ((b5 as u64) << 16u64) | ((b6 as u64)
        << 8u64) | (b7 as u64));
    assert((v >> 56u64) as u8 == b0 && (v >> 48u64) as u8 == b1 && (v >> 40u64) as u8 == b2
        && (v >> 32u64) as u8 == b3 && (v >> 24u64) as u8 == b4 && (v >> 16u64) as u8 == b5
        && (v >> 8u64) as u8 == b6 && v as u8 == b7) by (bit_vector)
        requires
            v == ((b0 as u64) << 56u64) | ((b1 as u64) << 48u64) | ((b2 as u64) << 40u64) | ((
            b3 as u64) << 32u64) | ((b4 as u64) << 24u64) | ((b5 as u64) << 16u64) | ((
            b6 as u64) << 8u64) | (b7 as u64),
    ;
    assert(be_bytes(v) =~= s.subrange(0, 8));
}

/// Calls `ReadBytesExt::read_i64::<BigEndian>` of byteorder on a cursor over `pool`:
/// the first eight bytes read as a big-endian two's-complement number; fails when
/// fewer than eight bytes are there.
#[verifier::external_body]
pub(crate) fn read_i64_num(pool: Vec<u8>) -> (r: Result<i64, ()>)
    ensures
        pool@.len() >= 8 <==> r is Ok,
        r matches Ok(v) ==> v as u64 == be_value(pool@),
{
    let mut rdr = std::io::Cursor::new(pool);
    match rdr.read_i64::<BigEndian>() {
        Ok(v) => Ok(v),
        Err(_e) => Err(()),
    }
}

/// Calls `String::from_utf8` of std: `Some` exactly when `bytes` is UTF-8, and then
/// the text that the bytes encode.
#[verifier::external_body]
pub(crate) fn string_from_utf8(bytes: Vec<u8>) -> (r: Option<String>)
    ensures
        r is Some <==> vstd::utf8::valid_utf8(bytes@),
        r matches Some(s) ==> s@ == vstd::utf8::decode_utf8(bytes@),
{
    match String::from_utf8(bytes) {
        Ok(s) => Some(s),
        Err(_e) => None,
    }
}

/// Calls `ReadBytesExt::read_u64::<BigEndian>` of byteorder on a cursor over `pool`.
/// byteorder reads the first eight bytes as a big-endian number, and fails when fewer
/// than eight bytes are there.
#[verifier::external_body]
pub(crate) fn read_u64_num(pool: Vec<u8>) -> (r: Result<u64, ()>)
    ensures
        pool@.len() >= 8 <==> r is Ok,
        r matches Ok(v) ==> v == be_value(pool@),
{
    let mut rdr = std::io::Cursor::new(pool);
    match rdr.read_u64::<BigEndian>() {
        Ok(v) => Ok(v),
        Err(_e) => Err(()),
    }
}

/// Calls `WriteBytesExt::write_u64::<BigEndian>` of byteorder on `out`: appends the
/// eight big-endian bytes of `v` (writing into a `Vec` does not fail).
#[verifier::external_body]
pub(crate) fn push_u64_be(out: &mut Vec<u8>, v: u64)
    ensures
        final(out)@ == old(out)@ + be_bytes(v),
{
    let _ = out.write_u64::<BigEndian>(v);
}

/// Calls `WriteBytesExt::write_i64::<BigEndian>` of byteorder on `out`: appends the
/// eight big-endian two's-complement bytes of `v`.
#[verifier::external_body]
pub(crate) fn push_i64_be(out: &mut Vec<u8>, v: i64)
    ensures
        final(out)@ == old(out)@ + be_bytes(v as u64),
{
    let _ = out.write_i64::<BigEndian>(v);
}

} // verus!
