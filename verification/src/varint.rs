//! Variable-length integers: the wire form of every integer in the format.
//!
//! An unsigned value is cut into seven-bit groups, least significant first;
//! every byte but the last carries the high bit as a continuation mark.  A
//! signed value is folded onto an unsigned one by the zig-zag transform
//! before encoding, so small magnitudes of either sign stay short.

use vstd::prelude::*;

use crate::DecodeError;
use crate::prefix_of;

verus! {

/// Wire image of an unsigned magnitude: seven-bit groups, least significant
/// first, continuation bit on every byte but the last.  Zero is the single
/// byte `0x00`; no other encoding ends in a zero group, which makes the
/// encoding minimal and prefix-free.
pub open spec fn enc_uvarint(n: nat) -> Seq<u8>
    decreases n,
{
    if n < 128 {
        seq![n as u8]
    } else {
        seq![(128 + n % 128) as u8] + enc_uvarint(n / 128)
    }
}

/// The zig-zag fold: non-negative `n` becomes `2n`, negative `n` becomes
/// `-2n - 1`, so magnitudes of either sign interleave into small codes.
pub open spec fn zigzag(n: int) -> nat {
    if n >= 0 {
        (2 * n) as nat
    } else {
        (-2 * n - 1) as nat
    }
}

/// The inverse of the zig-zag fold.
pub open spec fn unzigzag(u: nat) -> int {
    if u % 2 == 0 {
        (u / 2) as int
    } else {
        -((u / 2) as int) - 1
    }
}

/// Wire image of a signed integer: zig-zag, then the unsigned encoding.
pub open spec fn enc_ivarint(n: int) -> Seq<u8> {
    enc_uvarint(zigzag(n))
}

/// The zig-zag fold loses nothing: unfolding recovers every integer.
pub proof fn lemma_zigzag_roundtrip(n: int)
    ensures
        unzigzag(zigzag(n)) == n,
{
}

/// Two values whose encodings both start the same byte sequence are the
/// same value: the encoding is prefix-free, so a parse is unambiguous.
pub proof fn lemma_enc_uvarint_prefix(a: nat, b: nat, s: Seq<u8>)
    requires
        prefix_of(enc_uvarint(a), s),
        prefix_of(enc_uvarint(b), s),
    ensures
        a == b,
    decreases a,
{
    let ea = enc_uvarint(a);
    let eb = enc_uvarint(b);
    assert(ea[0] == s[0]);
    assert(eb[0] == s[0]);
    if a < 128 && b < 128 {
        assert(a == s[0] && b == s[0]);
    } else if a >= 128 && b >= 128 {
        let t = s.skip(1);
        assert(prefix_of(enc_uvarint(a / 128), t)) by {
            assert(ea == seq![(128 + a % 128) as u8] + enc_uvarint(a / 128));
            assert forall|i: int| 0 <= i < enc_uvarint(a / 128).len() implies t[i]
                == enc_uvarint(a / 128)[i] by {
                assert(s[i + 1] == ea[i + 1]);
            }
            assert(t.take(enc_uvarint(a / 128).len() as int) =~= enc_uvarint(a / 128));
        }
        assert(prefix_of(enc_uvarint(b / 128), t)) by {
            assert(eb == seq![(128 + b % 128) as u8] + enc_uvarint(b / 128));
            assert forall|i: int| 0 <= i < enc_uvarint(b / 128).len() implies t[i]
                == enc_uvarint(b / 128)[i] by {
                assert(s[i + 1] == eb[i + 1]);
            }
            assert(t.take(enc_uvarint(b / 128).len() as int) =~= enc_uvarint(b / 128));
        }
        lemma_enc_uvarint_prefix(a / 128, b / 128, t);
        assert(a % 128 == s[0] - 128 && b % 128 == s[0] - 128);
    } else if a < 128 {
        assert(eb[0] >= 128);
        assert(false);
    } else {
        assert(ea[0] >= 128);
        assert(false);
    }
}

/// Appends the unsigned varint encoding of `n` to `out`.
pub fn encode_uvarint(out: &mut Vec<u8>, n: u128)
    ensures
        final(out)@ == old(out)@ + enc_uvarint(n as nat),
    decreases n,
{
    if n < 128 {
        out.push(n as u8);
        assert(out@ =~= old(out)@ + enc_uvarint(n as nat));
    } else {
        let g: u8 = (128 + (n % 128)) as u8;
        out.push(g);
        encode_uvarint(out, n / 128);
        assert(out@ =~= old(out)@ + enc_uvarint(n as nat));
    }
}

/// Reads an unsigned varint at `pos`, accepting only values up to `max` and
/// only the minimal encoding of each value.  Returns the value and the
/// number of bytes consumed.
///
/// The contract is two-sided: whatever comes back Ok was encoded in exactly
/// the bytes consumed, and every buffer that starts with the encoding of an
/// admissible value yields that value.  The only error is `MalformedVarint`,
/// covering an unterminated, non-minimal or over-wide integer alike.
pub fn decode_uvarint_max(buf: &[u8], pos: usize, max: u128) -> (r: Result<
    (u128, usize),
    DecodeError,
>)
    requires
        pos <= buf@.len(),
    ensures
        r matches Ok(p) ==> p.0 <= max && pos + enc_uvarint(p.0 as nat).len() <= buf@.len()
            && buf@.subrange(pos as int, pos + enc_uvarint(p.0 as nat).len()) == enc_uvarint(
            p.0 as nat,
        ) && p.1 == enc_uvarint(p.0 as nat).len(),
        forall|n: u128|
            n <= max && prefix_of(enc_uvarint(n as nat), buf@.skip(pos as int)) ==> r == Ok::<
                (u128, usize),
                DecodeError,
            >((n, enc_uvarint(n as nat).len() as usize)),
        r is Err ==> r == Err::<(u128, usize), DecodeError>(DecodeError::MalformedVarint),
    decreases buf@.len() - pos,
{
    let ghost suffix = buf@.skip(pos as int);
    if pos == buf.len() {
        assert(forall|n: u128| !prefix_of(enc_uvarint(n as nat), suffix)) by {
            assert(forall|n: u128| enc_uvarint(n as nat).len() >= 1);
        }
        return Err(DecodeError::MalformedVarint);
    }
    let b: u8 = buf[pos];
    assert(suffix[0] == b);
    if b < 128 {
        if (b as u128) <= max {
            let ghost v = b as nat;
            assert(enc_uvarint(v) =~= seq![b]);
            assert(buf@.subrange(pos as int, pos + 1) =~= seq![b]);
            assert forall|n: u128|
                n <= max && prefix_of(enc_uvarint(n as nat), suffix) implies n == b as u128 by {
                if n >= 128 {
                    assert(enc_uvarint(n as nat)[0] == (128 + n as nat % 128) as u8);
                    assert(enc_uvarint(n as nat)[0] == suffix[0]);
                } else {
                    assert(enc_uvarint(n as nat)[0] == n as u8);
                    assert(enc_uvarint(n as nat)[0] == suffix[0]);
                }
            }
            Ok((b as u128, 1))
        } else {
            assert forall|n: u128|
                n <= max implies !prefix_of(enc_uvarint(n as nat), suffix) by {
                if n < 128 {
                    if prefix_of(enc_uvarint(n as nat), suffix) {
                        assert(enc_uvarint(n as nat)[0] == n as u8);
                        assert(enc_uvarint(n as nat)[0] == suffix[0]);
                        assert(n == b as u128);
                    }
                } else {
                    if prefix_of(enc_uvarint(n as nat), suffix) {
                        assert(enc_uvarint(n as nat)[0] == (128 + n as nat % 128) as u8);
                        assert(enc_uvarint(n as nat)[0] == suffix[0]);
                    }
                }
            }
            Err(DecodeError::MalformedVarint)
        }
    } else {
        let g: u8 = b - 128;
        if (g as u128) > max {
            assert forall|n: u128|
                n <= max implies !prefix_of(enc_uvarint(n as nat), suffix) by {
                if prefix_of(enc_uvarint(n as nat), suffix) {
                    if n < 128 {
                        assert(enc_uvarint(n as nat)[0] == n as u8);
                        assert(enc_uvarint(n as nat)[0] == suffix[0]);
                    } else {
                        assert(enc_uvarint(n as nat)[0] == (128 + n as nat % 128) as u8);
                        assert(enc_uvarint(n as nat)[0] == suffix[0]);
                        assert(n as nat % 128 == g as nat);
                        assert(n >= 128);
                    }
                }
            }
            return Err(DecodeError::MalformedVarint);
        }
        let max2: u128 = (max - g as u128) / 128;
        let ghost tail = buf@.skip(pos as int + 1);
        proof {
            assert(tail =~= suffix.skip(1));
        }
        // Any admissible value whose encoding starts this buffer has `g` as
        // its low group, and its high part is encoded in the tail.
        assert forall|n: u128|
            n <= max && prefix_of(enc_uvarint(n as nat), suffix) implies n >= 128 && (n / 128)
            <= max2 && prefix_of(enc_uvarint((n / 128) as nat), tail) && n as nat % 128
            == g as nat by {
            if n < 128 {
                assert(enc_uvarint(n as nat)[0] == n as u8);
                assert(enc_uvarint(n as nat)[0] == suffix[0]);
            } else {
                let e = enc_uvarint(n as nat);
                assert(e == seq![(128 + n as nat % 128) as u8] + enc_uvarint((n / 128) as nat));
                assert(e[0] == suffix[0]);
                assert(n as nat % 128 == g as nat);
                assert(n == 128 * (n / 128) + (n % 128)) by (nonlinear_arith);
                assert(128 * (n / 128) <= max - g as u128);
                assert((n / 128) <= (max - g as u128) / 128) by (nonlinear_arith)
                    requires
                        128 * (n / 128) <= max - g as u128,
                ;
                assert forall|i: int| 0 <= i < enc_uvarint((n / 128) as nat).len() implies tail[i]
                    == enc_uvarint((n / 128) as nat)[i] by {
                    assert(suffix[i + 1] == e[i + 1]);
                }
                assert(tail.take(enc_uvarint((n / 128) as nat).len() as int) =~= enc_uvarint(
                    (n / 128) as nat,
                ));
            }
        }
        match decode_uvarint_max(buf, pos + 1, max2) {
            Err(_) => Err(DecodeError::MalformedVarint),
            Ok((rv, used)) => {
                if rv == 0 {
                    // The high part of a minimal two-or-more byte encoding is
                    // never zero; this buffer encodes no admissible value.
                    assert forall|n: u128|
                        n <= max implies !prefix_of(enc_uvarint(n as nat), suffix) by {
                        if prefix_of(enc_uvarint(n as nat), suffix) {
                            assert(n / 128 >= 1);
                        }
                    }
                    Err(DecodeError::MalformedVarint)
                } else {
                    proof {
                        assert(128 * max2 <= max - g as u128) by (nonlinear_arith)
                            requires
                                max2 == (max - g as u128) / 128,
                        ;
                        assert(128 * rv <= 128 * max2) by (nonlinear_arith)
                            requires
                                rv <= max2,
                        ;
                    }
                    let val: u128 = g as u128 + 128 * rv;
                    let ghost elen = enc_uvarint((rv) as nat).len() + 1;
                    proof {
                        assert(val as nat % 128 == g as nat && val / 128 == rv) by (nonlinear_arith)
                            requires
                                val == g as u128 + 128 * rv,
                                g < 128,
                        ;
                        assert(enc_uvarint(val as nat) == seq![b] + enc_uvarint(rv as nat));
                        let sub = buf@.subrange(pos as int, pos as int + elen);
                        assert(buf@.subrange(pos as int + 1, pos as int + elen) == enc_uvarint(
                            rv as nat,
                        ));
                        assert(sub =~= seq![b] + enc_uvarint(rv as nat));
                    }
                    Ok((val, used + 1))
                }
            },
        }
    }
}

/// Unfolding an unsigned code recovers exactly the code: the two transforms
/// are mutually inverse.
pub proof fn lemma_unzigzag_roundtrip(u: nat)
    ensures
        zigzag(unzigzag(u)) == u,
{
}

/// The zig-zag fold, computed without overflow for the full 128-bit range:
/// the magnitude is doubled through `n + 1` so that even `i128::MIN` folds
/// safely.
pub fn zigzag_u128(n: i128) -> (r: u128)
    ensures
        r as nat == zigzag(n as int),
{
    if n >= 0 {
        (n as u128) * 2
    } else {
        ((-(n + 1)) as u128) * 2 + 1
    }
}

/// The inverse zig-zag fold; every 128-bit unsigned code unfolds into the
/// 128-bit signed range.
pub fn unzigzag_i128(u: u128) -> (r: i128)
    ensures
        r as int == unzigzag(u as nat),
{
    if u % 2 == 0 {
        (u / 2) as i128
    } else {
        -((u / 2) as i128) - 1
    }
}

/// Appends the varint encoding of an 8-bit unsigned value.
pub fn encode_u8(out: &mut Vec<u8>, v: u8)
    ensures
        final(out)@ == old(out)@ + enc_uvarint(v as nat),
{
    encode_uvarint(out, v as u128);
}

/// Reads an 8-bit unsigned value at `pos`: the varint there must carry a
/// magnitude below 2^8.
pub fn decode_u8(buf: &[u8], pos: usize) -> (r: Result<(u8, usize), DecodeError>)
    requires
        pos <= buf@.len(),
    ensures
        r matches Ok(p) ==> pos + enc_uvarint(p.0 as nat).len() <= buf@.len() && buf@.subrange(
            pos as int,
            pos + enc_uvarint(p.0 as nat).len(),
        ) == enc_uvarint(p.0 as nat) && p.1 == enc_uvarint(p.0 as nat).len(),
        forall|n: u8|
            prefix_of(enc_uvarint(n as nat), buf@.skip(pos as int)) ==> r == Ok::<
                (u8, usize),
                DecodeError,
            >((n, enc_uvarint(n as nat).len() as usize)),
        r is Err ==> r == Err::<(u8, usize), DecodeError>(DecodeError::MalformedVarint),
{
    match decode_uvarint_max(buf, pos, u8::MAX as u128) {
        Ok((v, used)) => Ok((v as u8, used)),
        Err(e) => Err(e),
    }
}

/// Appends the varint encoding of a 128-bit unsigned value.
pub fn encode_u128(out: &mut Vec<u8>, v: u128)
    ensures
        final(out)@ == old(out)@ + enc_uvarint(v as nat),
{
    encode_uvarint(out, v);
}

/// Reads a 128-bit unsigned value at `pos`.
pub fn decode_u128(buf: &[u8], pos: usize) -> (r: Result<(u128, usize), DecodeError>)
    requires
        pos <= buf@.len(),
    ensures
        r matches Ok(p) ==> pos + enc_uvarint(p.0 as nat).len() <= buf@.len() && buf@.subrange(
            pos as int,
            pos + enc_uvarint(p.0 as nat).len(),
        ) == enc_uvarint(p.0 as nat) && p.1 == enc_uvarint(p.0 as nat).len(),
        forall|n: u128|
            prefix_of(enc_uvarint(n as nat), buf@.skip(pos as int)) ==> r == Ok::<
                (u128, usize),
                DecodeError,
            >((n, enc_uvarint(n as nat).len() as usize)),
        r is Err ==> r == Err::<(u128, usize), DecodeError>(DecodeError::MalformedVarint),
{
    decode_uvarint_max(buf, pos, u128::MAX)
}

/// Appends the zig-zag varint encoding of an 8-bit signed value.
pub fn encode_i8(out: &mut Vec<u8>, v: i8)
    ensures
        final(out)@ == old(out)@ + enc_ivarint(v as int),
{
    let z: u128 = zigzag_u128(v as i128);
    encode_uvarint(out, z);
}

/// Reads an 8-bit signed value at `pos`: the varint there must carry a
/// zig-zag code below 2^8.
pub fn decode_i8(buf: &[u8], pos: usize) -> (r: Result<(i8, usize), DecodeError>)
    requires
        pos <= buf@.len(),
    ensures
        r matches Ok(p) ==> pos + enc_ivarint(p.0 as int).len() <= buf@.len() && buf@.subrange(
            pos as int,
            pos + enc_ivarint(p.0 as int).len(),
        ) == enc_ivarint(p.0 as int) && p.1 == enc_ivarint(p.0 as int).len(),
        forall|n: i8|
            prefix_of(enc_ivarint(n as int), buf@.skip(pos as int)) ==> r == Ok::<
                (i8, usize),
                DecodeError,
            >((n, enc_ivarint(n as int).len() as usize)),
        r is Err ==> r == Err::<(i8, usize), DecodeError>(DecodeError::MalformedVarint),
{
    match decode_uvarint_max(buf, pos, u8::MAX as u128) {
        Ok((v, used)) => {
            let w: i128 = unzigzag_i128(v);
            proof {
                lemma_unzigzag_roundtrip(v as nat);
            }
            assert forall|n: i8|
                prefix_of(enc_ivarint(n as int), buf@.skip(pos as int)) implies w == n as int by {
                lemma_zigzag_roundtrip(n as int);
            }
            Ok((w as i8, used))
        },
        Err(e) => Err(e),
    }
}

/// Appends the zig-zag varint encoding of a 128-bit signed value.
pub fn encode_i128(out: &mut Vec<u8>, v: i128)
    ensures
        final(out)@ == old(out)@ + enc_ivarint(v as int),
{
    let z: u128 = zigzag_u128(v);
    encode_uvarint(out, z);
}

/// Reads a 128-bit signed value at `pos`.
pub fn decode_i128(buf: &[u8], pos: usize) -> (r: Result<(i128, usize), DecodeError>)
    requires
        pos <= buf@.len(),
    ensures
        r matches Ok(p) ==> pos + enc_ivarint(p.0 as int).len() <= buf@.len() && buf@.subrange(
            pos as int,
            pos + enc_ivarint(p.0 as int).len(),
        ) == enc_ivarint(p.0 as int) && p.1 == enc_ivarint(p.0 as int).len(),
        forall|n: i128|
            prefix_of(enc_ivarint(n as int), buf@.skip(pos as int)) ==> r == Ok::<
                (i128, usize),
                DecodeError,
            >((n, enc_ivarint(n as int).len() as usize)),
        r is Err ==> r == Err::<(i128, usize), DecodeError>(DecodeError::MalformedVarint),
{
    match decode_uvarint_max(buf, pos, u128::MAX) {
        Ok((v, used)) => {
            let w: i128 = unzigzag_i128(v);
            proof {
                lemma_unzigzag_roundtrip(v as nat);
            }
            assert forall|n: i128|
                prefix_of(enc_ivarint(n as int), buf@.skip(pos as int)) implies w == n as int by {
                lemma_zigzag_roundtrip(n as int);
            }
            Ok((w, used))
        },
        Err(e) => Err(e),
    }
}

/// Appends the varint encoding of a 16-bit unsigned value.
pub fn encode_u16(out: &mut Vec<u8>, v: u16)
    ensures
        final(out)@ == old(out)@ + enc_uvarint(v as nat),
{
    encode_uvarint(out, v as u128);
}

/// Reads a 16-bit unsigned value at `pos`: the varint there must carry a
/// magnitude below 2^16.
pub fn decode_u16(buf: &[u8], pos: usize) -> (r: Result<(u16, usize), DecodeError>)
    requires
        pos <= buf@.len(),
    ensures
        r matches Ok(p) ==> pos + enc_uvarint(p.0 as nat).len() <= buf@.len() && buf@.subrange(
            pos as int,
            pos + enc_uvarint(p.0 as nat).len(),
        ) == enc_uvarint(p.0 as nat) && p.1 == enc_uvarint(p.0 as nat).len(),
        forall|n: u16|
            prefix_of(enc_uvarint(n as nat), buf@.skip(pos as int)) ==> r == Ok::<
                (u16, usize),
                DecodeError,
            >((n, enc_uvarint(n as nat).len() as usize)),
        r is Err ==> r == Err::<(u16, usize), DecodeError>(DecodeError::MalformedVarint),
{
    match decode_uvarint_max(buf, pos, u16::MAX as u128) {
        Ok((v, used)) => Ok((v as u16, used)),
        Err(e) => Err(e),
    }
}

/// Appends the varint encoding of a 32-bit unsigned value.
pub fn encode_u32(out: &mut Vec<u8>, v: u32)
    ensures
        final(out)@ == old(out)@ + enc_uvarint(v as nat),
{
    encode_uvarint(out, v as u128);
}

/// Reads a 32-bit unsigned value at `pos`: the varint there must carry a
/// magnitude below 2^32.
pub fn decode_u32(buf: &[u8], pos: usize) -> (r: Result<(u32, usize), DecodeError>)
    requires
        pos <= buf@.len(),
    ensures
        r matches Ok(p) ==> pos + enc_uvarint(p.0 as nat).len() <= buf@.len() && buf@.subrange(
            pos as int,
            pos + enc_uvarint(p.0 as nat).len(),
        ) == enc_uvarint(p.0 as nat) && p.1 == enc_uvarint(p.0 as nat).len(),
        forall|n: u32|
            prefix_of(enc_uvarint(n as nat), buf@.skip(pos as int)) ==> r == Ok::<
                (u32, usize),
                DecodeError,
            >((n, enc_uvarint(n as nat).len() as usize)),
        r is Err ==> r == Err::<(u32, usize), DecodeError>(DecodeError::MalformedVarint),
{
    match decode_uvarint_max(buf, pos, u32::MAX as u128) {
        Ok((v, used)) => Ok((v as u32, used)),
        Err(e) => Err(e),
    }
}

/// Appends the varint encoding of a 64-bit unsigned value.
pub fn encode_u64(out: &mut Vec<u8>, v: u64)
    ensures
        final(out)@ == old(out)@ + enc_uvarint(v as nat),
{
    encode_uvarint(out, v as u128);
}

/// Reads a 64-bit unsigned value at `pos`: the varint there must carry a
/// magnitude below 2^64.
pub fn decode_u64(buf: &[u8], pos: usize) -> (r: Result<(u64, usize), DecodeError>)
    requires
        pos <= buf@.len(),
    ensures
        r matches Ok(p) ==> pos + enc_uvarint(p.0 as nat).len() <= buf@.len() && buf@.subrange(
            pos as int,
            pos + enc_uvarint(p.0 as nat).len(),
        ) == enc_uvarint(p.0 as nat) && p.1 == enc_uvarint(p.0 as nat).len(),
        forall|n: u64|
            prefix_of(enc_uvarint(n as nat), buf@.skip(pos as int)) ==> r == Ok::<
                (u64, usize),
                DecodeError,
            >((n, enc_uvarint(n as nat).len() as usize)),
        r is Err ==> r == Err::<(u64, usize), DecodeError>(DecodeError::MalformedVarint),
{
    match decode_uvarint_max(buf, pos, u64::MAX as u128) {
        Ok((v, used)) => Ok((v as u64, used)),
        Err(e) => Err(e),
    }
}

/// Appends the zig-zag varint encoding of a 16-bit signed value.
pub fn encode_i16(out: &mut Vec<u8>, v: i16)
    ensures
        final(out)@ == old(out)@ + enc_ivarint(v as int),
{
    let z: u128 = zigzag_u128(v as i128);
    encode_uvarint(out, z);
}

/// Reads a 16-bit signed value at `pos`: the varint there must carry a
/// zig-zag code below 2^16.
pub fn decode_i16(buf: &[u8], pos: usize) -> (r: Result<(i16, usize), DecodeError>)
    requires
        pos <= buf@.len(),
    ensures
        r matches Ok(p) ==> pos + enc_ivarint(p.0 as int).len() <= buf@.len() && buf@.subrange(
            pos as int,
            pos + enc_ivarint(p.0 as int).len(),
        ) == enc_ivarint(p.0 as int) && p.1 == enc_ivarint(p.0 as int).len(),
        forall|n: i16|
            prefix_of(enc_ivarint(n as int), buf@.skip(pos as int)) ==> r == Ok::<
                (i16, usize),
                DecodeError,
            >((n, enc_ivarint(n as int).len() as usize)),
        r is Err ==> r == Err::<(i16, usize), DecodeError>(DecodeError::MalformedVarint),
{
    match decode_uvarint_max(buf, pos, u16::MAX as u128) {
        Ok((v, used)) => {
            let w: i128 = unzigzag_i128(v);
            proof {
                lemma_unzigzag_roundtrip(v as nat);
            }
            assert forall|n: i16|
                prefix_of(enc_ivarint(n as int), buf@.skip(pos as int)) implies w == n as int by {
                lemma_zigzag_roundtrip(n as int);
            }
            Ok((w as i16, used))
        },
        Err(e) => Err(e),
    }
}

/// Appends the zig-zag varint encoding of a 32-bit signed value.
pub fn encode_i32(out: &mut Vec<u8>, v: i32)
    ensures
        final(out)@ == old(out)@ + enc_ivarint(v as int),
{
    let z: u128 = zigzag_u128(v as i128);
    encode_uvarint(out, z);
}

/// Reads a 32-bit signed value at `pos`: the varint there must carry a
/// zig-zag code below 2^32.
pub fn decode_i32(buf: &[u8], pos: usize) -> (r: Result<(i32, usize), DecodeError>)
    requires
        pos <= buf@.len(),
    ensures
        r matches Ok(p) ==> pos + enc_ivarint(p.0 as int).len() <= buf@.len() && buf@.subrange(
            pos as int,
            pos + enc_ivarint(p.0 as int).len(),
        ) == enc_ivarint(p.0 as int) && p.1 == enc_ivarint(p.0 as int).len(),
        forall|n: i32|
            prefix_of(enc_ivarint(n as int), buf@.skip(pos as int)) ==> r == Ok::<
                (i32, usize),
                DecodeError,
            >((n, enc_ivarint(n as int).len() as usize)),
        r is Err ==> r == Err::<(i32, usize), DecodeError>(DecodeError::MalformedVarint),
{
    match decode_uvarint_max(buf, pos, u32::MAX as u128) {
        Ok((v, used)) => {
            let w: i128 = unzigzag_i128(v);
            proof {
                lemma_unzigzag_roundtrip(v as nat);
            }
            assert forall|n: i32|
                prefix_of(enc_ivarint(n as int), buf@.skip(pos as int)) implies w == n as int by {
                lemma_zigzag_roundtrip(n as int);
            }
            Ok((w as i32, used))
        },
        Err(e) => Err(e),
    }
}

/// Appends the zig-zag varint encoding of a 64-bit signed value.
pub fn encode_i64(out: &mut Vec<u8>, v: i64)
    ensures
        final(out)@ == old(out)@ + enc_ivarint(v as int),
{
    let z: u128 = zigzag_u128(v as i128);
    encode_uvarint(out, z);
}

/// Reads a 64-bit signed value at `pos`: the varint there must carry a
/// zig-zag code below 2^64.
pub fn decode_i64(buf: &[u8], pos: usize) -> (r: Result<(i64, usize), DecodeError>)
    requires
        pos <= buf@.len(),
    ensures
        r matches Ok(p) ==> pos + enc_ivarint(p.0 as int).len() <= buf@.len() && buf@.subrange(
            pos as int,
            pos + enc_ivarint(p.0 as int).len(),
        ) == enc_ivarint(p.0 as int) && p.1 == enc_ivarint(p.0 as int).len(),
        forall|n: i64|
            prefix_of(enc_ivarint(n as int), buf@.skip(pos as int)) ==> r == Ok::<
                (i64, usize),
                DecodeError,
            >((n, enc_ivarint(n as int).len() as usize)),
        r is Err ==> r == Err::<(i64, usize), DecodeError>(DecodeError::MalformedVarint),
{
    match decode_uvarint_max(buf, pos, u64::MAX as u128) {
        Ok((v, used)) => {
            let w: i128 = unzigzag_i128(v);
            proof {
                lemma_unzigzag_roundtrip(v as nat);
            }
            assert forall|n: i64|
                prefix_of(enc_ivarint(n as int), buf@.skip(pos as int)) implies w == n as int by {
                lemma_zigzag_roundtrip(n as int);
            }
            Ok((w as i64, used))
        },
        Err(e) => Err(e),
    }
}

} // verus!
