//! The byte-level framing shared by log records and wire messages.
//!
//! Every string field travels as its UTF-8 bytes preceded by their count as
//! a little-endian `u64`, so a reader positioned at a field start can take
//! exactly one field and end at the next one.  Records built from such
//! fields are self-delimiting, deterministic, and keep their byte offsets
//! stable once written, which lets the engine use offsets as log pointers.

use crate::errors::KvsError;
use vstd::bytes::{
    lemma_auto_spec_u64_to_from_le_bytes, spec_u64_from_le_bytes, spec_u64_to_le_bytes,
    u64_from_le_bytes, u64_to_le_bytes,
};
use vstd::prelude::*;
use vstd::string::StringSliceAdditionalSpecFns;
use vstd::utf8::{
    decode_utf8, decode_utf8_encode_utf8, encode_utf8, encode_utf8_decode_utf8,
    encode_utf8_valid_utf8, valid_utf8,
};

verus! {

/// The bytes of one length-prefixed string field.
pub open spec fn spec_encode_str(s: Seq<char>) -> Seq<u8> {
    spec_u64_to_le_bytes(encode_utf8(s).len() as u64) + encode_utf8(s)
}

/// Reading one string field of `bytes` that starts at `pos`: the characters
/// it spells and the position just past it, or nothing when the bytes from
/// `pos` on do not begin with a whole, well-formed field.
pub open spec fn spec_decode_str(bytes: Seq<u8>, pos: int) -> Option<(Seq<char>, int)> {
    if 0 <= pos && pos + 8 <= bytes.len() {
        let n = spec_u64_from_le_bytes(bytes.subrange(pos, pos + 8)) as int;
        if pos + 8 + n <= bytes.len() && valid_utf8(bytes.subrange(pos + 8, pos + 8 + n)) {
            Some((decode_utf8(bytes.subrange(pos + 8, pos + 8 + n)), pos + 8 + n))
        } else {
            None
        }
    } else {
        None
    }
}

/// An encoded string field occupies its byte count plus the 8-byte prefix.
pub proof fn lemma_encode_str_len(s: Seq<char>)
    ensures
        spec_encode_str(s).len() == 8 + encode_utf8(s).len(),
{
    lemma_auto_spec_u64_to_from_le_bytes();
}

/// A field decodes to exactly what was encoded, whatever bytes surround it.
pub proof fn lemma_decode_encoded_str(bytes: Seq<u8>, pos: int, s: Seq<char>)
    requires
        0 <= pos,
        encode_utf8(s).len() <= u64::MAX,
        pos + spec_encode_str(s).len() <= bytes.len(),
        bytes.subrange(pos, pos + spec_encode_str(s).len()) == spec_encode_str(s),
    ensures
        spec_decode_str(bytes, pos) == Some((s, pos + spec_encode_str(s).len())),
{
    lemma_auto_spec_u64_to_from_le_bytes();
    let n = encode_utf8(s).len() as int;
    let enc = spec_encode_str(s);
    assert(enc.len() == 8 + n);
    assert(bytes.subrange(pos, pos + 8) =~= enc.subrange(0, 8));
    assert(enc.subrange(0, 8) =~= spec_u64_to_le_bytes(encode_utf8(s).len() as u64));
    assert(spec_u64_from_le_bytes(bytes.subrange(pos, pos + 8)) == encode_utf8(s).len() as u64);
    assert(bytes.subrange(pos + 8, pos + 8 + n) =~= enc.subrange(8, 8 + n));
    assert(enc.subrange(8, 8 + n) =~= encode_utf8(s));
    encode_utf8_valid_utf8(s);
    encode_utf8_decode_utf8(s);
}

/// The bytes that one decoded field occupied are its own encoding: the
/// framing admits exactly one byte form for each string.
pub proof fn lemma_decode_str_canonical(bytes: Seq<u8>, pos: int)
    requires
        spec_decode_str(bytes, pos) is Some,
    ensures
        ({
            let (s, end) = spec_decode_str(bytes, pos)->Some_0;
            &&& pos + 8 <= end <= bytes.len()
            &&& encode_utf8(s).len() == end - (pos + 8)
            &&& bytes.subrange(pos, end) == spec_encode_str(s)
        }),
{
    lemma_auto_spec_u64_to_from_le_bytes();
    let (s, end) = spec_decode_str(bytes, pos)->Some_0;
    let n = spec_u64_from_le_bytes(bytes.subrange(pos, pos + 8)) as int;
    let body = bytes.subrange(pos + 8, pos + 8 + n);
    decode_utf8_encode_utf8(body);
    assert(encode_utf8(s) == body);
    assert(spec_encode_str(s) == spec_u64_to_le_bytes(encode_utf8(s).len() as u64) + encode_utf8(
        s,
    ));
    assert(spec_u64_to_le_bytes(spec_u64_from_le_bytes(bytes.subrange(pos, pos + 8)))
        == bytes.subrange(pos, pos + 8));
    assert(bytes.subrange(pos, end) =~= bytes.subrange(pos, pos + 8) + body);
}

/// Appends one length-prefixed string field to `buf`.
pub fn encode_str_into(buf: &mut Vec<u8>, s: &str)
    ensures
        final(buf)@ == old(buf)@ + spec_encode_str(s@),
{
    let bs = s.as_bytes();
    let mut len_bytes = u64_to_le_bytes(bs.len() as u64);
    buf.append(&mut len_bytes);
    buf.extend_from_slice(bs);
    assert(buf@ =~= old(buf)@ + spec_encode_str(s@));
}

/// Relies on std's `str::from_utf8`: it succeeds exactly on valid UTF-8
/// input, and the resulting string is spelled by those very bytes.
#[verifier::external_body]
fn str_from_utf8(bytes: &[u8]) -> (r: Result<String, KvsError>)
    ensures
        r is Ok <==> valid_utf8(bytes@),
        r matches Ok(s) ==> encode_utf8(s@) == bytes@,
        r matches Err(e) ==> e == KvsError::Utf8Error,
{
    match core::str::from_utf8(bytes) {
        Ok(s) => Ok(s.to_owned()),
        Err(_) => Err(KvsError::Utf8Error),
    }
}

/// Reads one string field of `bytes` starting at `pos`, returning the
/// string and the position just past the field.
pub fn decode_str(bytes: &[u8], pos: usize) -> (r: Result<(String, usize), KvsError>)
    ensures
        r is Ok <==> spec_decode_str(bytes@, pos as int) is Some,
        r matches Ok((s, end)) ==> spec_decode_str(bytes@, pos as int) == Some((s@, end as int)),
        r matches Err(e) ==> e == KvsError::SerializationError,
    {
    if bytes.len() < 8 || pos > bytes.len() - 8 {
        return Err(KvsError::SerializationError);
    }
    let header: &[u8] = &bytes[pos..pos + 8];
    let n64 = u64_from_le_bytes(header);
    let rest = (bytes.len() - (pos + 8)) as u64;
    if n64 > rest {
        return Err(KvsError::SerializationError);
    }
    let n = n64 as usize;
    let body: &[u8] = &bytes[pos + 8..pos + 8 + n];
    proof {
        assert(header@ =~= bytes@.subrange(pos as int, pos + 8));
        assert(body@ =~= bytes@.subrange(pos + 8, pos + 8 + n));
    }
    match str_from_utf8(body) {
        Ok(s) => {
            proof {
                decode_utf8_encode_utf8(body@);
                encode_utf8_decode_utf8(s@);
            }
            Ok((s, pos + 8 + n))
        },
        Err(_) => Err(KvsError::SerializationError),
    }
}

} // verus!
