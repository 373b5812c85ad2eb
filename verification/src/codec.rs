//! The binary codec primitives: unsigned 64-bit integers as fixed 8-byte
//! little-endian fields, and strings as an 8-byte length prefix followed by
//! the raw UTF-8 bytes. Serialization appends to a byte sink owned by the
//! caller; deserialization reads from a byte source at a position and fails
//! with the single error kind `DecodeError` when the bytes run out or do not
//! decode.
use vstd::bytes::*;
use vstd::prelude::*;
use vstd::utf8::*;

verus! {

/// The one kind of decoding failure: the source is exhausted or malformed. A
/// mid-write failure leaves the sink partially written; callers discard and
/// retry rather than assume atomicity.
#[derive(Debug, PartialEq, Eq, Structural, Clone, Copy)]
pub struct DecodeError;

/// The 8 little-endian bytes of an unsigned 64-bit integer.
pub open spec fn encode_u64(x: u64) -> Seq<u8> {
    spec_u64_to_le_bytes(x)
}

/// A string's encoding: 8-byte length prefix, then the UTF-8 bytes.
pub open spec fn encode_str(s: Seq<char>) -> Seq<u8> {
    spec_u64_to_le_bytes(encode_utf8(s).len() as u64) + encode_utf8(s)
}

/// The integer stored in the 8 bytes at `pos`.
pub open spec fn decode_u64_at(bytes: Seq<u8>, pos: int) -> u64
    recommends
        0 <= pos,
        pos + 8 <= bytes.len(),
{
    spec_u64_from_le_bytes(bytes.subrange(pos, pos + 8))
}

/// The string whose encoding starts at `pos`, with the position after it;
/// `None` when the bytes run out or are not valid UTF-8.
pub open spec fn decode_str_at(bytes: Seq<u8>, pos: int) -> Option<(Seq<char>, int)> {
    if !(0 <= pos && pos + 8 <= bytes.len()) {
        None
    } else {
        let l = decode_u64_at(bytes, pos) as int;
        if pos + 8 + l > bytes.len() {
            None
        } else {
            let sub = bytes.subrange(pos + 8, pos + 8 + l);
            if valid_utf8(sub) {
                Some((decode_utf8(sub), pos + 8 + l))
            } else {
                None
            }
        }
    }
}

/// Relies on `String::from_utf8`: it succeeds exactly on valid UTF-8 and
/// returns the string that the bytes encode.
#[verifier::external_body]
fn bytes_to_string(v: Vec<u8>) -> (r: Option<String>)
    ensures
        r is Some <==> valid_utf8(v@),
        r is Some ==> r->Some_0@ == decode_utf8(v@),
{
    match String::from_utf8(v) {
        Ok(s) => Some(s),
        Err(_) => None,
    }
}

/// Appends the 8-byte little-endian field of `x`.
pub fn put_u64(out: &mut Vec<u8>, x: u64)
    ensures
        final(out)@ == old(out)@ + encode_u64(x),
{
    let mut b = u64_to_le_bytes(x);
    out.append(&mut b);
}

/// Appends the length-prefixed UTF-8 encoding of `s`.
pub fn put_str(out: &mut Vec<u8>, s: &str)
    ensures
        final(out)@ == old(out)@ + encode_str(s@),
{
    let bytes = s.as_bytes();
    put_u64(out, bytes.len() as u64);
    let mut v = vstd::slice::slice_to_vec(bytes);
    out.append(&mut v);
    proof {
        assert(final(out)@ == old(out)@ + encode_str(s@)) by {
            assert(old(out)@ + encode_u64(bytes@.len() as u64) + bytes@ =~= old(out)@ + (
            encode_u64(bytes@.len() as u64) + bytes@));
        }
    }
}

/// Reads the 8-byte field at `pos`; fails exactly when fewer than 8 bytes
/// remain.
pub fn read_u64(data: &[u8], pos: usize) -> (r: Result<(u64, usize), DecodeError>)
    ensures
        match r {
            Ok(v) => pos + 8 <= data@.len() && v.0 == decode_u64_at(data@, pos as int) && v.1 == pos
                + 8,
            Err(_) => pos + 8 > data@.len(),
        },
{
    if pos > data.len() || data.len() - pos < 8 {
        return Err(DecodeError);
    }
    let sub = vstd::slice::slice_subrange(data, pos, pos + 8);
    Ok((u64_from_le_bytes(sub), pos + 8))
}

/// Reads the length-prefixed string at `pos`; fails exactly when the bytes
/// run out or are not valid UTF-8.
pub fn read_string(data: &[u8], pos: usize) -> (r: Result<(String, usize), DecodeError>)
    ensures
        match r {
            Ok(v) => {
                &&& decode_str_at(data@, pos as int) == Some((v.0@, v.1 as int))
                &&& pos <= v.1 <= data@.len()
            },
            Err(_) => decode_str_at(data@, pos as int) is None,
        },
{
    let (l, p1) = match read_u64(data, pos) {
        Ok(x) => x,
        Err(e) => {
            return Err(e);
        },
    };
    if l > (data.len() - p1) as u64 {
        return Err(DecodeError);
    }
    let llen = l as usize;
    let sub = vstd::slice::slice_subrange(data, p1, p1 + llen);
    let v = vstd::slice::slice_to_vec(sub);
    match bytes_to_string(v) {
        Some(s) => Ok((s, p1 + llen)),
        None => Err(DecodeError),
    }
}

/// Reading an 8-byte field back from where one was written returns the
/// written integer.
pub proof fn lemma_u64_round_trip(a: Seq<u8>, x: u64, b: Seq<u8>)
    ensures
        decode_u64_at(a + encode_u64(x) + b, a.len() as int) == x,
{
    lemma_auto_spec_u64_to_from_le_bytes();
    assert((a + encode_u64(x) + b).subrange(a.len() as int, a.len() as int + 8) =~= encode_u64(x));
}

/// Reading a string back from where one was written returns the written
/// string, provided its byte length fits the 8-byte length field.
pub proof fn lemma_str_round_trip(a: Seq<u8>, s: Seq<char>, b: Seq<u8>)
    requires
        encode_utf8(s).len() < 0x1_0000_0000_0000_0000,
    ensures
        decode_str_at(a + encode_str(s) + b, a.len() as int) == Some(
            (s, a.len() as int + encode_str(s).len()),
        ),
{
    let bytes = a + encode_str(s) + b;
    let pos = a.len() as int;
    let ulen = encode_utf8(s).len() as int;
    lemma_auto_spec_u64_to_from_le_bytes();
    assert(bytes.subrange(pos, pos + 8) =~= encode_u64(ulen as u64));
    assert(decode_u64_at(bytes, pos) == ulen as u64);
    assert(bytes.subrange(pos + 8, pos + 8 + ulen) =~= encode_utf8(s));
    encode_utf8_valid_utf8(s);
    encode_utf8_decode_utf8(s);
}

} // verus!
