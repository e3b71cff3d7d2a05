//! Primitive shapes: flags, Unicode scalars, text and raw byte sequences.
//!
//! A flag is a one-bit unsigned varint, so exactly `0x00` and `0x01` are
//! legal on the wire.  A Unicode scalar travels as the unsigned varint of
//! its codepoint.  Text and raw bytes are length-prefixed: an unsigned
//! varint byte count, then exactly that many bytes, UTF-8 for text.

use vstd::prelude::*;

use crate::DecodeError;
use crate::prefix_of;
use crate::varint::{enc_uvarint, encode_uvarint, decode_uvarint_max};
use vstd::utf8::{
    encode_utf8, decode_utf8, valid_utf8, is_scalar, encode_utf8_valid_utf8,
    encode_utf8_decode_utf8, decode_utf8_encode_utf8, char_is_scalar, char_u32_cast,
};

verus! {

/// Wire image of a flag: one byte, `0x01` for true and `0x00` for false.
pub open spec fn enc_bool(b: bool) -> Seq<u8> {
    if b {
        seq![1u8]
    } else {
        seq![0u8]
    }
}

/// Wire image of a Unicode scalar: its codepoint as an unsigned varint.
pub open spec fn enc_char(c: char) -> Seq<u8> {
    enc_uvarint((c as u32) as nat)
}

/// Wire image of text: the UTF-8 byte count as an unsigned varint, then the
/// UTF-8 bytes themselves.
pub open spec fn enc_str(s: Seq<char>) -> Seq<u8> {
    enc_uvarint(encode_utf8(s).len()) + encode_utf8(s)
}

/// Wire image of a raw byte sequence: the byte count as an unsigned varint,
/// then the bytes themselves.
pub open spec fn enc_bytes(b: Seq<u8>) -> Seq<u8> {
    enc_uvarint(b.len()) + b
}

/// Appends the one-byte encoding of a flag.
pub fn encode_bool(out: &mut Vec<u8>, b: bool)
    ensures
        final(out)@ == old(out)@ + enc_bool(b),
        enc_bool(b) == enc_uvarint(if b { 1nat } else { 0nat }),
{
    encode_uvarint(out, if b { 1 } else { 0 });
    assert(enc_bool(b) =~= enc_uvarint(if b { 1nat } else { 0nat }));
}

/// Reads a flag at `pos`.  A flag is a one-bit unsigned varint, so a byte
/// outside `{0x00, 0x01}` is a malformed integer.
pub fn decode_bool(buf: &[u8], pos: usize) -> (r: Result<(bool, usize), DecodeError>)
    requires
        pos <= buf@.len(),
    ensures
        r matches Ok(p) ==> pos + 1 <= buf@.len() && buf@.subrange(pos as int, pos + 1) == enc_bool(
            p.0,
        ) && p.1 == 1,
        forall|b: bool|
            prefix_of(enc_bool(b), buf@.skip(pos as int)) ==> r == Ok::<
                (bool, usize),
                DecodeError,
            >((b, 1)),
        r is Err ==> r == Err::<(bool, usize), DecodeError>(DecodeError::MalformedVarint),
{
    proof {
        assert(enc_bool(true) =~= enc_uvarint(1nat));
        assert(enc_bool(false) =~= enc_uvarint(0nat));
    }
    match decode_uvarint_max(buf, pos, 1) {
        Ok((v, _)) => {
            assert(buf@.subrange(pos as int, pos + 1) =~= enc_bool(v == 1));
            Ok((v == 1, 1))
        },
        Err(e) => Err(e),
    }
}

/// Appends the varint encoding of a Unicode scalar's codepoint.
pub fn encode_char(out: &mut Vec<u8>, c: char)
    ensures
        final(out)@ == old(out)@ + enc_char(c),
{
    encode_uvarint(out, (c as u32) as u128);
}

/// Relies on char::from_u32: it returns Some exactly on Unicode scalar
/// values, and the character it returns carries that codepoint.
#[verifier::external_body]
fn char_from_u32(u: u32) -> (r: Option<char>)
    ensures
        r is Some <==> is_scalar(u),
        r matches Some(c) ==> (c as u32) == u,
{
    char::from_u32(u)
}

/// Reads a Unicode scalar at `pos`: an unsigned varint of at most 32 bits
/// whose value must be a legal scalar (no surrogates, nothing above
/// 0x10FFFF); an illegal one is rejected as text would be.
pub fn decode_char(buf: &[u8], pos: usize) -> (r: Result<(char, usize), DecodeError>)
    requires
        pos <= buf@.len(),
    ensures
        r matches Ok(p) ==> pos + enc_char(p.0).len() <= buf@.len() && buf@.subrange(
            pos as int,
            pos + enc_char(p.0).len(),
        ) == enc_char(p.0) && p.1 == enc_char(p.0).len(),
        forall|c: char|
            prefix_of(enc_char(c), buf@.skip(pos as int)) ==> r == Ok::<
                (char, usize),
                DecodeError,
            >((c, enc_char(c).len() as usize)),
        r is Err ==> r == Err::<(char, usize), DecodeError>(DecodeError::MalformedVarint) || r
            == Err::<(char, usize), DecodeError>(DecodeError::InvalidUtf8),
{
    match decode_uvarint_max(buf, pos, u32::MAX as u128) {
        Ok((v, used)) => {
            match char_from_u32(v as u32) {
                Some(c) => {
                    proof {
                        char_u32_cast(c, v as u32);
                    }
                    assert forall|d: char|
                        prefix_of(enc_char(d), buf@.skip(pos as int)) implies c == d by {
                        char_is_scalar(d);
                        char_u32_cast(d, d as u32);
                    }
                    Ok((c, used))
                },
                None => {
                    assert forall|d: char|
                        !prefix_of(enc_char(d), buf@.skip(pos as int)) by {
                        char_is_scalar(d);
                    }
                    Err(DecodeError::InvalidUtf8)
                },
            }
        },
        Err(e) => {
            assert forall|d: char|
                !prefix_of(enc_char(d), buf@.skip(pos as int)) by {
                char_is_scalar(d);
            }
            Err(e)
        },
    }
}

/// Appends each byte of `s` to `out` in order.
pub fn push_bytes(out: &mut Vec<u8>, s: &[u8])
    ensures
        final(out)@ == old(out)@ + s@,
{
    let mut i: usize = 0;
    while i < s.len()
        invariant
            i <= s@.len(),
            out@ == old(out)@ + s@.take(i as int),
        decreases s@.len() - i,
    {
        out.push(s[i]);
        i = i + 1;
        assert(out@ =~= old(out)@ + s@.take(i as int));
    }
    assert(out@ =~= old(out)@ + s@);
}

/// Appends the length-prefixed UTF-8 encoding of `s`.
pub fn encode_string(out: &mut Vec<u8>, s: &str)
    ensures
        final(out)@ == old(out)@ + enc_str(s@),
{
    let bytes: &[u8] = s.as_bytes();
    encode_uvarint(out, bytes.len() as u128);
    push_bytes(out, bytes);
}

/// Appends the length-prefixed encoding of a raw byte sequence.
pub fn encode_bytes(out: &mut Vec<u8>, b: &Vec<u8>)
    ensures
        final(out)@ == old(out)@ + enc_bytes(b@),
{
    encode_uvarint(out, b.len() as u128);
    push_bytes(out, b.as_slice());
}

/// Relies on String::from_utf8: it succeeds exactly on valid UTF-8 input,
/// and the string it returns holds the characters those bytes encode.
#[verifier::external_body]
fn string_from_utf8(b: Vec<u8>) -> (r: Option<String>)
    ensures
        r is Some <==> valid_utf8(b@),
        r matches Some(s) ==> s@ == decode_utf8(b@),
{
    String::from_utf8(b).ok()
}

/// Reads length-prefixed text at `pos`: a byte count, then that many bytes,
/// which must be valid UTF-8.
#[verifier::rlimit(60)]
pub fn decode_string(buf: &[u8], pos: usize) -> (r: Result<(String, usize), DecodeError>)
    requires
        pos <= buf@.len(),
    ensures
        r matches Ok(p) ==> pos + enc_str(p.0@).len() <= buf@.len() && buf@.subrange(
            pos as int,
            pos + enc_str(p.0@).len(),
        ) == enc_str(p.0@) && p.1 == enc_str(p.0@).len(),
        forall|t: Seq<char>|
            prefix_of(enc_str(t), buf@.skip(pos as int)) ==> (r matches Ok(p) && p.0@ == t && p.1
                == enc_str(t).len()),
        r is Err ==> r == Err::<(String, usize), DecodeError>(DecodeError::MalformedVarint) || r
            == Err::<(String, usize), DecodeError>(DecodeError::TruncatedInput) || r == Err::<
            (String, usize),
            DecodeError,
        >(DecodeError::InvalidUtf8),
{
    let buf_len: usize = buf.len();
    let ghost suffix = buf@.skip(pos as int);
    proof {
        assert(buf@.len() <= usize::MAX as nat);
        // The byte count of any text whose encoding starts this buffer fits
        // the machine, and its count varint starts the buffer too.
        assert forall|t: Seq<char>|
            prefix_of(enc_str(t), suffix) implies encode_utf8(t).len() <= usize::MAX as nat
            && prefix_of(enc_uvarint(encode_utf8(t).len()), suffix) by {
            let e = enc_str(t);
            let c = enc_uvarint(encode_utf8(t).len());
            assert forall|i: int| 0 <= i < c.len() implies suffix[i] == c[i] by {
                assert(e[i] == c[i]);
                assert(suffix[i] == e[i]);
            }
            assert(suffix.take(c.len() as int) =~= c);
        }
    }
    match decode_uvarint_max(buf, pos, usize::MAX as u128) {
        Ok((len128, used)) => {
            let len: usize = len128 as usize;
            if len > buf.len() - (pos + used) {
                proof {
                    assert forall|t: Seq<char>| !prefix_of(enc_str(t), suffix) by {
                        if prefix_of(enc_str(t), suffix) {
                            crate::varint::lemma_enc_uvarint_prefix(
                                encode_utf8(t).len(),
                                len as nat,
                                suffix,
                            );
                        }
                    }
                }
                return Err(DecodeError::TruncatedInput);
            }
            let start: usize = pos + used;
            let seg: &[u8] = vstd::slice::slice_subrange(buf, start, start + len);
            match string_from_utf8(vstd::slice::slice_to_vec(seg)) {
                Some(s) => {
                    proof {
                        broadcast use decode_utf8_encode_utf8;

                        assert(encode_utf8(s@) == seg@);
                        let e = enc_str(s@);
                        assert(buf@.subrange(pos as int, pos + e.len()) =~= enc_uvarint(
                            len as nat,
                        ) + seg@);
                        assert forall|t: Seq<char>|
                            prefix_of(enc_str(t), suffix) implies s@ == t && e.len() == enc_str(
                            t,
                        ).len() by {
                            crate::varint::lemma_enc_uvarint_prefix(
                                encode_utf8(t).len(),
                                len as nat,
                                suffix,
                            );
                            assert(encode_utf8(t).len() == len as nat);
                            assert forall|i: int| 0 <= i < len implies seg@[i] == encode_utf8(
                                t,
                            )[i] by {
                                assert(enc_str(t)[used + i] == encode_utf8(t)[i]);
                                assert(suffix[used + i] == enc_str(t)[used + i]);
                            }
                            assert(seg@ =~= encode_utf8(t));
                            encode_utf8_decode_utf8(t);
                        }
                    }
                    Ok((s, used + len))
                },
                None => {
                    proof {
                        assert forall|t: Seq<char>| !prefix_of(enc_str(t), suffix) by {
                            if prefix_of(enc_str(t), suffix) {
                                crate::varint::lemma_enc_uvarint_prefix(
                                    encode_utf8(t).len(),
                                    len as nat,
                                    suffix,
                                );
                                assert forall|i: int| 0 <= i < len implies seg@[i] == encode_utf8(
                                    t,
                                )[i] by {
                                    assert(enc_str(t)[used + i] == encode_utf8(t)[i]);
                                    assert(suffix[used + i] == enc_str(t)[used + i]);
                                }
                                assert(seg@ =~= encode_utf8(t));
                                encode_utf8_valid_utf8(t);
                            }
                        }
                    }
                    Err(DecodeError::InvalidUtf8)
                },
            }
        },
        Err(e) => Err(e),
    }
}

/// A byte sequence whose encoding starts `suffix` has its count varint at
/// the front and its payload right after it.
proof fn lemma_enc_bytes_prefix_parts(t: Seq<u8>, suffix: Seq<u8>)
    requires
        prefix_of(enc_bytes(t), suffix),
    ensures
        prefix_of(enc_uvarint(t.len()), suffix),
        forall|i: int|
            0 <= i < t.len() ==> suffix[enc_uvarint(t.len()).len() + i] == t[i],
{
    let e = enc_bytes(t);
    let c = enc_uvarint(t.len());
    assert forall|i: int| 0 <= i < c.len() implies suffix[i] == c[i] by {
        assert(e[i] == c[i]);
        assert(suffix[i] == e[i]);
    }
    assert(suffix.take(c.len() as int) =~= c);
    assert forall|i: int| 0 <= i < t.len() implies suffix[c.len() + i] == t[i] by {
        assert(e[c.len() + i] == t[i]);
        assert(suffix[c.len() + i] == e[c.len() + i]);
    }
}

/// Reads a length-prefixed raw byte sequence at `pos`.
#[verifier::rlimit(100)]
pub fn decode_bytes(buf: &[u8], pos: usize) -> (r: Result<(Vec<u8>, usize), DecodeError>)
    requires
        pos <= buf@.len(),
    ensures
        r matches Ok(p) ==> pos + enc_bytes(p.0@).len() <= buf@.len() && buf@.subrange(
            pos as int,
            pos + enc_bytes(p.0@).len(),
        ) == enc_bytes(p.0@) && p.1 == enc_bytes(p.0@).len(),
        forall|t: Seq<u8>|
            prefix_of(enc_bytes(t), buf@.skip(pos as int)) ==> (r matches Ok(p) && p.0@ == t && p.1
                == enc_bytes(t).len()),
        r is Err ==> r == Err::<(Vec<u8>, usize), DecodeError>(DecodeError::MalformedVarint) || r
            == Err::<(Vec<u8>, usize), DecodeError>(DecodeError::TruncatedInput),
{
    let buf_len: usize = buf.len();
    let ghost suffix = buf@.skip(pos as int);
    match decode_uvarint_max(buf, pos, usize::MAX as u128) {
        Ok((len128, used)) => {
            let len: usize = len128 as usize;
            if len > buf.len() - (pos + used) {
                proof {
                    assert forall|t: Seq<u8>| !prefix_of(enc_bytes(t), suffix) by {
                        if prefix_of(enc_bytes(t), suffix) {
                            lemma_enc_bytes_prefix_parts(t, suffix);
                            crate::varint::lemma_enc_uvarint_prefix(t.len(), len as nat, suffix);
                        }
                    }
                }
                return Err(DecodeError::TruncatedInput);
            }
            let start: usize = pos + used;
            let seg: &[u8] = vstd::slice::slice_subrange(buf, start, start + len);
            let v: Vec<u8> = vstd::slice::slice_to_vec(seg);
            proof {
                assert(buf@.subrange(pos as int, pos + enc_bytes(v@).len()) =~= enc_uvarint(
                    len as nat,
                ) + seg@);
                assert forall|t: Seq<u8>|
                    prefix_of(enc_bytes(t), suffix) implies v@ == t by {
                    lemma_enc_bytes_prefix_parts(t, suffix);
                    crate::varint::lemma_enc_uvarint_prefix(t.len(), len as nat, suffix);
                    assert forall|i: int| 0 <= i < len implies seg@[i] == t[i] by {
                        assert(suffix[used + i] == t[i]);
                    }
                    assert(seg@ =~= t);
                }
            }
            Ok((v, used + len))
        },
        Err(e) => {
            proof {
                assert forall|t: Seq<u8>| !prefix_of(enc_bytes(t), suffix) by {
                    if prefix_of(enc_bytes(t), suffix) {
                        lemma_enc_bytes_prefix_parts(t, suffix);
                        assert(buf@.len() <= usize::MAX as nat);
                    }
                }
            }
            Err(e)
        },
    }
}

} // verus!
