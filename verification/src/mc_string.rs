//! Strings on the wire: the length in bytes as a VarInt, then that many bytes
//! of UTF-8.

use crate::error::CodecError;
use crate::groups::lemma_run_end;
use crate::varint::{
    lemma_signed32_unsigned32, lemma_varint_roundtrip, read_var_int, unsigned32, varint_bytes,
    varint_decode, write_var_int, VarInt,
};
use vstd::prelude::*;
use vstd::string::StringSliceAdditionalSpecFns;
use vstd::utf8::{decode_utf8, encode_utf8, encode_utf8_decode_utf8, encode_utf8_valid_utf8, valid_utf8};

verus! {

/// The longest run of bytes whose length a VarInt can announce.
pub const MAX_LEN: usize = 0x7fff_ffff;

/// The wire form of the raw bytes `raw`: their number, then the bytes.
pub open spec fn framed(raw: Seq<u8>) -> Seq<u8> {
    varint_bytes(raw.len() as i32) + raw
}

/// The wire form of the text `text`.
pub open spec fn string_bytes(text: Seq<char>) -> Seq<u8> {
    framed(encode_utf8(text))
}

/// Where the bytes of the string at the start of `s` lie: the index of the
/// first one and the index behind the last one.  A length that decodes to a
/// negative number is read as the unsigned number with the same bits, so it
/// is always more than what is there.
pub open spec fn string_span(s: Seq<u8>) -> Result<(nat, nat), CodecError> {
    match varint_decode(s) {
        Err(_) => Err(CodecError::MalformedVarInt),
        Ok((len, used)) => if s.len() - used < unsigned32(len) {
            Err(CodecError::TruncatedString)
        } else {
            Ok((used, used + unsigned32(len)))
        },
    }
}

/// The text that lossy decoding makes of `bytes`: the text they encode where
/// they are UTF-8, and else that text with a replacement character for each
/// ill-formed part.
pub uninterp spec fn utf8_lossy(bytes: Seq<u8>) -> Seq<char>;

/// Calls `String::from_utf8_lossy`.  The contract names its result, and
/// claims what the documentation of that function says of well-formed
/// input: it is decoded as it stands.
#[verifier::external_body]
fn decode_lossy(bytes: &[u8]) -> (text: String)
    ensures
        text@ == utf8_lossy(bytes@),
        valid_utf8(bytes@) ==> text@ == decode_utf8(bytes@),
{
    String::from_utf8_lossy(bytes).into_owned()
}

/// The text of the raw bytes `raw`: what they encode where they are UTF-8,
/// and what lossy decoding makes of them where they are not.
pub open spec fn lossy_text(raw: Seq<u8>) -> Seq<char> {
    if valid_utf8(raw) {
        decode_utf8(raw)
    } else {
        utf8_lossy(raw)
    }
}

/// What reading a string from the start of `s` gives: the text and the
/// number of bytes consumed.
pub open spec fn string_decode(s: Seq<u8>) -> Result<(Seq<char>, nat), CodecError> {
    match string_span(s) {
        Err(e) => Err(e),
        Ok((start, end)) => Ok((lossy_text(s.subrange(start as int, end as int)), end)),
    }
}

/// Appends the wire form of `text` to `out`.
pub fn write_string(out: &mut Vec<u8>, text: &str)
    requires
        text.spec_bytes().len() <= MAX_LEN,
    ensures
        final(out)@ == old(out)@ + string_bytes(text@),
{
    let raw = text.as_bytes();
    let len = VarInt::new(raw.len() as i32);
    write_var_int(out, &len);
    out.extend_from_slice(raw);
    assert(out@ == old(out)@ + (varint_bytes(raw@.len() as i32) + raw@));
}

/// Finds the string at the start of `bytes`: the index of its first byte and
/// the index behind its last.  Fails with `MalformedVarInt` where the length
/// does not decode, and with `TruncatedString` where it announces more bytes
/// than follow it.
pub fn split_string(bytes: &[u8]) -> (r: Result<(usize, usize), CodecError>)
    ensures
        match r {
            Ok((start, end)) => string_span(bytes@) == Ok::<(nat, nat), CodecError>(
                (start as nat, end as nat),
            ),
            Err(e) => string_span(bytes@) == Err::<(nat, nat), CodecError>(e),
        },
{
    match read_var_int(bytes) {
        Err(_) => Err(CodecError::MalformedVarInt),
        Ok((len, used)) => {
            let n: i32 = len.value();
            assert(n as u32 == (if n >= 0 {
                n as int
            } else {
                n + 0x1_0000_0000
            })) by (bit_vector);
            let want: u32 = n as u32;
            proof {
                lemma_run_end(bytes@, 0);
            }
            let left: usize = bytes.len() - used;
            if (left as u64) < (want as u64) {
                Err(CodecError::TruncatedString)
            } else {
                Ok((used, used + want as usize))
            }
        },
    }
}

/// Reads the string at the start of `bytes`, and says how many bytes it
/// took.  Bytes that are no UTF-8 are replaced, not refused.
pub fn read_string(bytes: &[u8]) -> (r: Result<(String, usize), CodecError>)
    ensures
        match r {
            Ok((text, used)) => string_decode(bytes@) == Ok::<(Seq<char>, nat), CodecError>(
                (text@, used as nat),
            ),
            Err(e) => string_decode(bytes@) == Err::<(Seq<char>, nat), CodecError>(e),
        },
{
    match split_string(bytes) {
        Err(e) => Err(e),
        Ok((start, end)) => {
            let raw = vstd::slice::slice_subrange(bytes, start, end);
            Ok((decode_lossy(raw), end))
        },
    }
}

/// The raw bytes of a string are found again behind their length, whatever
/// follows them.
pub proof fn lemma_framed_span(raw: Seq<u8>, rest: Seq<u8>)
    requires
        raw.len() <= MAX_LEN,
    ensures
        string_span(framed(raw) + rest) == Ok::<(nat, nat), CodecError>(
            (varint_bytes(raw.len() as i32).len(), framed(raw).len()),
        ),
        (framed(raw) + rest).subrange(
            varint_bytes(raw.len() as i32).len() as int,
            framed(raw).len() as int,
        ) == raw,
{
    let len = raw.len() as i32;
    let head = varint_bytes(len);
    lemma_varint_roundtrip(len, raw + rest);
    lemma_signed32_unsigned32(len);
    assert(head + (raw + rest) == framed(raw) + rest);
    assert((framed(raw) + rest).subrange(head.len() as int, framed(raw).len() as int) == raw);
}

/// Reading what was written gives the text back and consumes exactly what
/// was written, whatever follows it.
pub proof fn lemma_string_roundtrip(text: Seq<char>, rest: Seq<u8>)
    requires
        encode_utf8(text).len() <= MAX_LEN,
    ensures
        string_decode(string_bytes(text) + rest) == Ok::<(Seq<char>, nat), CodecError>(
            (text, string_bytes(text).len()),
        ),
{
    lemma_framed_span(encode_utf8(text), rest);
    encode_utf8_valid_utf8(text);
    encode_utf8_decode_utf8(text);
}

} // verus!
