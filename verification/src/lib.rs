//! A verified codec for a compact, schema-free binary wire format.
//!
//! Values are mapped to contiguous byte buffers with no padding, no field
//! names and no type tags: both sides of the wire agree on the shape of the
//! data out of band.  Unsigned integers travel as variable-length integers
//! (seven data bits per byte, least-significant group first, the high bit of
//! every byte but the last set); signed integers are folded onto unsigned
//! ones by the zig-zag transform first.  Sequences, strings and mappings are
//! length-prefixed; fixed-size shapes carry no framing at all.
//!
//! The decoder accepts exactly the buffers the encoder can produce: it
//! insists on minimal variable-length encodings, so encoding is a bijection
//! between values and the valid buffers, and every decoder states both
//! soundness (whatever comes back was encoded in the bytes consumed) and
//! completeness (a buffer that starts with the encoding of a value decodes
//! to that value).

use vstd::prelude::*;

pub mod codec;
pub mod game;
pub mod prim;
pub mod varint;

verus! {

/// Why a decode failed.  Encoding is total over representable values and
/// never fails.
#[derive(Debug, Clone, Copy, PartialEq, Eq, Structural)]
pub enum DecodeError {
    /// The buffer ends before a required field or payload is fully read.
    TruncatedInput,
    /// A variable-length integer does not terminate within the buffer, is
    /// not minimal, or its magnitude exceeds the declared bit width.
    MalformedVarint,
    /// A sum-type discriminant has no corresponding declared variant.
    UnknownVariant,
    /// An optional discriminant byte is neither 0 nor 1.
    InvalidOptionTag,
    /// A text field's raw bytes are not valid UTF-8.
    InvalidUtf8,
    /// Bytes remain after a complete top-level decode, when the caller
    /// requires exact consumption.
    TrailingBytes,
}

/// `p` is an initial segment of `s`.
pub open spec fn prefix_of(p: Seq<u8>, s: Seq<u8>) -> bool {
    p.len() <= s.len() && s.take(p.len() as int) == p
}

/// A concatenation that starts a byte sequence splits into a head that
/// starts it and a tail that starts the remainder.
pub proof fn lemma_prefix_concat(a: Seq<u8>, b: Seq<u8>, s: Seq<u8>)
    requires
        prefix_of(a + b, s),
    ensures
        prefix_of(a, s),
        prefix_of(b, s.skip(a.len() as int)),
{
    assert forall|i: int| 0 <= i < a.len() implies s[i] == a[i] by {
        assert((a + b)[i] == a[i]);
        assert(s[i] == (a + b)[i]);
    }
    assert(s.take(a.len() as int) =~= a);
    assert forall|i: int| 0 <= i < b.len() implies s.skip(a.len() as int)[i] == b[i] by {
        assert((a + b)[a.len() + i] == b[i]);
        assert(s[a.len() + i] == (a + b)[a.len() + i]);
    }
    assert(s.skip(a.len() as int).take(b.len() as int) =~= b);
}

/// Dropping `i` bytes and then `j` more is dropping `i + j` at once.
pub proof fn lemma_skip_skip(s: Seq<u8>, i: int, j: int)
    requires
        0 <= i,
        0 <= j,
        i + j <= s.len(),
    ensures
        s.skip(i).skip(j) == s.skip(i + j),
{
    assert(s.skip(i).skip(j) =~= s.skip(i + j));
}

/// Callers that require exact consumption check the consumed count of a
/// top-level decode against the buffer length with this.
pub fn require_full_consumption(len: usize, consumed: usize) -> (r: Result<(), DecodeError>)
    ensures
        r is Ok <==> consumed == len,
        r is Err ==> r == Err::<(), DecodeError>(DecodeError::TrailingBytes),
{
    if consumed == len {
        Ok(())
    } else {
        Err(DecodeError::TrailingBytes)
    }
}

} // verus!
