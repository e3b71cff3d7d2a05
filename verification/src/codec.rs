//! Structured shapes: records, length-prefixed sequences, tuples and
//! optionals, composed from the primitive encoders with no extra framing.
//!
//! A record's fields travel concatenated in declaration order; a dynamic
//! sequence is its element count as an unsigned varint followed by the
//! elements; a fixed-size sequence or tuple carries no count at all; an
//! optional is one discriminant byte, `0x00` for absent and `0x01` for
//! present.

use vstd::prelude::*;

use crate::DecodeError;
use crate::prefix_of;
use crate::lemma_prefix_concat;
use crate::lemma_skip_skip;
use crate::varint::{
    enc_uvarint, enc_ivarint, encode_u64, decode_u64, encode_uvarint, decode_uvarint_max,
    encode_i32, decode_i32, encode_u16, decode_u16, encode_u32, decode_u32, encode_u8, decode_u8,
    encode_i8, decode_i8,
};
use crate::prim::{
    enc_str, enc_bool, enc_bytes, encode_string, decode_string, encode_bool, decode_bool,
    encode_bytes, decode_bytes,
};

verus! {

/// A record of an identifier and a name, the inner building block of the
/// nested shapes.
#[derive(Debug, Clone, PartialEq)]
pub struct InnerStruct {
    pub id: u64,
    pub name: String,
}

/// Wire image of an [`InnerStruct`]: the two fields in declaration order.
pub open spec fn enc_inner(v: InnerStruct) -> Seq<u8> {
    enc_uvarint(v.id as nat) + enc_str(v.name@)
}

/// Value equality for [`InnerStruct`]: the fields agree.
pub open spec fn inner_eq(a: InnerStruct, b: InnerStruct) -> bool {
    a.id == b.id && a.name@ == b.name@
}

/// Appends the encoding of a record's fields in declaration order.
pub fn encode_inner(out: &mut Vec<u8>, v: &InnerStruct)
    ensures
        final(out)@ == old(out)@ + enc_inner(*v),
{
    encode_u64(out, v.id);
    encode_string(out, v.name.as_str());
    assert(final(out)@ =~= old(out)@ + enc_inner(*v));
}

/// Reads a record at `pos`: both fields, in declaration order.
pub fn decode_inner(buf: &[u8], pos: usize) -> (r: Result<(InnerStruct, usize), DecodeError>)
    requires
        pos <= buf@.len(),
    ensures
        r matches Ok(p) ==> pos + enc_inner(p.0).len() <= buf@.len() && buf@.subrange(
            pos as int,
            pos + enc_inner(p.0).len(),
        ) == enc_inner(p.0) && p.1 == enc_inner(p.0).len(),
        forall|v: InnerStruct|
            prefix_of(enc_inner(v), buf@.skip(pos as int)) ==> (r matches Ok(p) && inner_eq(p.0, v)
                && p.1 == enc_inner(v).len()),
        r is Err ==> (r == Err::<(InnerStruct, usize), DecodeError>(DecodeError::MalformedVarint)
            || r == Err::<(InnerStruct, usize), DecodeError>(DecodeError::TruncatedInput) || r
            == Err::<(InnerStruct, usize), DecodeError>(DecodeError::InvalidUtf8)),
{
    let buf_len: usize = buf.len();
    let ghost suffix = buf@.skip(pos as int);
    proof {
        assert forall|v: InnerStruct|
            prefix_of(enc_inner(v), suffix) implies prefix_of(enc_uvarint(v.id as nat), suffix)
            && prefix_of(enc_str(v.name@), suffix.skip(enc_uvarint(v.id as nat).len() as int)) by {
            lemma_prefix_concat(enc_uvarint(v.id as nat), enc_str(v.name@), suffix);
        }
    }
    match decode_u64(buf, pos) {
        Err(e) => Err(e),
        Ok((id, used0)) => {
            proof {
                lemma_skip_skip(buf@, pos as int, used0 as int);
            }
            match decode_string(buf, pos + used0) {
                Err(e) => Err(e),
                Ok((name, used1)) => {
                    let w = InnerStruct { id, name };
                    proof {
                        assert(buf@.subrange(pos as int, pos + enc_inner(w).len()) =~= enc_uvarint(
                            w.id as nat,
                        ) + enc_str(w.name@));
                    }
                    Ok((w, used0 + used1))
                },
            }
        },
    }
}

/// Wire image of a sequence of text values: the encodings of the elements,
/// first to last.
pub open spec fn enc_str_seq(ss: Seq<String>) -> Seq<u8>
    decreases ss.len(),
{
    if ss.len() == 0 {
        Seq::empty()
    } else {
        enc_str(ss[0]@) + enc_str_seq(ss.drop_first())
    }
}

/// Every element costs at least one byte on the wire.
pub proof fn lemma_enc_str_seq_len_ge(ss: Seq<String>)
    ensures
        enc_str_seq(ss).len() >= ss.len(),
    decreases ss.len(),
{
    if ss.len() > 0 {
        lemma_enc_str_seq_len_ge(ss.drop_first());
    }
}

/// Appending one element appends its encoding.
pub proof fn lemma_enc_str_seq_push(ss: Seq<String>, x: String)
    ensures
        enc_str_seq(ss.push(x)) == enc_str_seq(ss) + enc_str(x@),
    decreases ss.len(),
{
    assert(ss.push(x)[0] == if ss.len() == 0 {
        x
    } else {
        ss[0]
    });
    if ss.len() == 0 {
        assert(ss.push(x).drop_first() =~= Seq::<String>::empty());
        assert(enc_str_seq(ss.push(x)) == enc_str(x@) + enc_str_seq(Seq::<String>::empty()));
        assert(enc_str_seq(ss.push(x)) =~= enc_str_seq(ss) + enc_str(x@));
    } else {
        assert(ss.push(x).drop_first() =~= ss.drop_first().push(x));
        lemma_enc_str_seq_push(ss.drop_first(), x);
        assert(enc_str_seq(ss.push(x)) == enc_str(ss[0]@) + enc_str_seq(ss.drop_first().push(x)));
        assert(enc_str_seq(ss.push(x)) =~= enc_str_seq(ss) + enc_str(x@));
    }
}

/// The encoding of a sequence splits at any element boundary.
pub proof fn lemma_enc_str_seq_split(ss: Seq<String>, i: int)
    requires
        0 <= i <= ss.len(),
    ensures
        enc_str_seq(ss) == enc_str_seq(ss.take(i)) + enc_str_seq(ss.skip(i)),
    decreases i,
{
    if i == 0 {
        assert(ss.take(0) =~= Seq::<String>::empty());
        assert(ss.skip(0) =~= ss);
        assert(enc_str_seq(ss) =~= enc_str_seq(ss.take(0)) + enc_str_seq(ss.skip(0)));
    } else {
        lemma_enc_str_seq_split(ss.drop_first(), i - 1);
        assert(ss.take(i).drop_first() =~= ss.drop_first().take(i - 1));
        assert(ss.skip(i) =~= ss.drop_first().skip(i - 1));
        assert(enc_str_seq(ss) =~= enc_str_seq(ss.take(i)) + enc_str_seq(ss.skip(i)));
    }
}

/// Wire image of a dynamic sequence of text values: the element count as an
/// unsigned varint, then the elements.
pub open spec fn enc_vec_string(ss: Seq<String>) -> Seq<u8> {
    enc_uvarint(ss.len()) + enc_str_seq(ss)
}

/// Value equality for sequences of text: same length, equal text at every
/// index.
pub open spec fn str_seq_eq(a: Seq<String>, b: Seq<String>) -> bool {
    a.len() == b.len() && forall|i: int| 0 <= i < a.len() ==> a[i]@ == b[i]@
}

/// Appends the count-prefixed encoding of a sequence of text values.
pub fn encode_vec_string(out: &mut Vec<u8>, v: &Vec<String>)
    ensures
        final(out)@ == old(out)@ + enc_vec_string(v@),
{
    encode_uvarint(out, v.len() as u128);
    let mut i: usize = 0;
    while i < v.len()
        invariant
            i <= v@.len(),
            out@ == old(out)@ + enc_uvarint(v@.len()) + enc_str_seq(v@.take(i as int)),
        decreases v@.len() - i,
    {
        encode_string(out, v[i].as_str());
        proof {
            lemma_enc_str_seq_push(v@.take(i as int), v@[i as int]);
            assert(v@.take(i + 1) =~= v@.take(i as int).push(v@[i as int]));
        }
        i = i + 1;
    }
    proof {
        assert(v@.take(v@.len() as int) =~= v@);
    }
}

/// Reads a count-prefixed sequence of text values at `pos`.
#[verifier::rlimit(100)]
pub fn decode_vec_string(buf: &[u8], pos: usize) -> (r: Result<(Vec<String>, usize), DecodeError>)
    requires
        pos <= buf@.len(),
    ensures
        r matches Ok(p) ==> pos + enc_vec_string(p.0@).len() <= buf@.len() && buf@.subrange(
            pos as int,
            pos + enc_vec_string(p.0@).len(),
        ) == enc_vec_string(p.0@) && p.1 == enc_vec_string(p.0@).len(),
        forall|ss: Seq<String>|
            #![trigger enc_vec_string(ss)]
            prefix_of(enc_vec_string(ss), buf@.skip(pos as int)) ==> (r matches Ok(p) && str_seq_eq(
                p.0@,
                ss,
            ) && p.1 == enc_vec_string(ss).len()),
        r is Err ==> (r == Err::<(Vec<String>, usize), DecodeError>(DecodeError::MalformedVarint)
            || r == Err::<(Vec<String>, usize), DecodeError>(DecodeError::TruncatedInput) || r
            == Err::<(Vec<String>, usize), DecodeError>(DecodeError::InvalidUtf8)),
{
    let buf_len: usize = buf.len();
    let ghost suffix = buf@.skip(pos as int);
    proof {
        assert(buf@.len() <= usize::MAX as nat);
        assert forall|ss: Seq<String>|
            prefix_of(enc_vec_string(ss), suffix) implies ss.len() <= usize::MAX as nat
            && prefix_of(enc_uvarint(ss.len()), suffix) && prefix_of(
            enc_str_seq(ss),
            suffix.skip(enc_uvarint(ss.len()).len() as int),
        ) by {
            lemma_enc_str_seq_len_ge(ss);
            lemma_prefix_concat(enc_uvarint(ss.len()), enc_str_seq(ss), suffix);
        }
    }
    match decode_uvarint_max(buf, pos, usize::MAX as u128) {
        Err(e) => {
            proof {
                assert forall|ss: Seq<String>| !prefix_of(enc_vec_string(ss), suffix) by {
                    if prefix_of(enc_vec_string(ss), suffix) {
                        assert(prefix_of(enc_uvarint((ss.len() as u128) as nat), suffix));
                    }
                }
            }
            Err(e)
        },
        Ok((n128, used0)) => {
            let n: usize = n128 as usize;
            let mut out: Vec<String> = Vec::new();
            let mut cur: usize = pos + used0;
            let mut i: usize = 0;
            proof {
                assert(buf@.subrange(pos as int, cur as int) == enc_uvarint(n as nat));
                assert(enc_str_seq(out@) =~= Seq::<u8>::empty());
                assert(buf@.subrange(pos as int, cur as int) =~= enc_uvarint(n as nat)
                    + enc_str_seq(out@));
                assert forall|ss: Seq<String>|
                    prefix_of(enc_vec_string(ss), suffix) implies ss.len() == n && str_seq_eq(
                    out@,
                    ss.take(0),
                ) && enc_str_seq(ss.take(0)).len() == 0 by {
                    assert(ss.take(0) =~= Seq::<String>::empty());
                }
            }
            while i < n
                invariant
                    i <= n,
                    out@.len() == i,
                    pos + used0 <= cur <= buf@.len(),
                    buf_len == buf@.len(),
                    used0 == enc_uvarint(n as nat).len(),
                    buf@.subrange(pos as int, cur as int) == enc_uvarint(n as nat) + enc_str_seq(
                        out@,
                    ),
                    suffix == buf@.skip(pos as int),
                    forall|ss: Seq<String>|
                        #![trigger enc_vec_string(ss)]
                        prefix_of(enc_vec_string(ss), suffix) ==> ss.len() == n && str_seq_eq(
                            out@,
                            ss.take(i as int),
                        ) && cur == pos + used0 + enc_str_seq(ss.take(i as int)).len(),
                decreases n - i,
            {
                proof {
                    assert forall|ss: Seq<String>|
                        prefix_of(enc_vec_string(ss), suffix) implies prefix_of(
                        enc_str(ss[i as int]@),
                        buf@.skip(cur as int),
                    ) by {
                        lemma_prefix_concat(enc_uvarint(ss.len()), enc_str_seq(ss), suffix);
                        lemma_enc_str_seq_split(ss, i as int);
                        lemma_prefix_concat(
                            enc_str_seq(ss.take(i as int)),
                            enc_str_seq(ss.skip(i as int)),
                            suffix.skip(used0 as int),
                        );
                        assert(ss.skip(i as int)[0] == ss[i as int]);
                        assert(ss.skip(i as int).drop_first() =~= ss.skip(i + 1));
                        assert(enc_str_seq(ss.skip(i as int)) == enc_str(ss[i as int]@)
                            + enc_str_seq(ss.skip(i + 1)));
                        lemma_prefix_concat(
                            enc_str(ss[i as int]@),
                            enc_str_seq(ss.skip(i + 1)),
                            suffix.skip(used0 as int).skip(
                                enc_str_seq(ss.take(i as int)).len() as int,
                            ),
                        );
                        lemma_skip_skip(buf@, pos as int, used0 as int);
                        lemma_skip_skip(
                            buf@,
                            pos + used0,
                            enc_str_seq(ss.take(i as int)).len() as int,
                        );
                    }
                }
                match decode_string(buf, cur) {
                    Err(e) => {
                        proof {
                            assert forall|ss: Seq<String>|
                                !prefix_of(enc_vec_string(ss), suffix) by {
                                if prefix_of(enc_vec_string(ss), suffix) {
                                    assert(prefix_of(enc_str(ss[i as int]@), buf@.skip(
                                        cur as int,
                                    )));
                                }
                            }
                        }
                        return Err(e);
                    },
                    Ok((s, used)) => {
                        proof {
                            lemma_enc_str_seq_push(out@, s);
                            assert(cur + used <= buf_len);
                            assert(buf@.subrange(pos as int, cur + used) =~= buf@.subrange(
                                pos as int,
                                cur as int,
                            ) + buf@.subrange(cur as int, cur + used));
                            assert(buf@.subrange(pos as int, cur + used) =~= enc_uvarint(
                                n as nat,
                            ) + (enc_str_seq(out@) + enc_str(s@)));
                            assert(enc_uvarint(n as nat) + (enc_str_seq(out@) + enc_str(s@))
                                =~= enc_uvarint(n as nat) + enc_str_seq(out@.push(s)));
                            assert forall|ss: Seq<String>|
                                prefix_of(enc_vec_string(ss), suffix) implies str_seq_eq(
                                out@.push(s),
                                ss.take(i + 1),
                            ) && s@ == ss[i as int]@ && enc_str_seq(ss.take(i + 1)).len()
                                == enc_str_seq(ss.take(i as int)).len() + enc_str(s@).len() by {
                                assert(ss.take(i + 1) =~= ss.take(i as int).push(ss[i as int]));
                                lemma_enc_str_seq_push(ss.take(i as int), ss[i as int]);
                            }
                        }
                        out.push(s);
                        cur = cur + used;
                        i = i + 1;
                    },
                }
            }
            proof {
                assert(enc_vec_string(out@) == enc_uvarint(n as nat) + enc_str_seq(out@));
                assert forall|ss: Seq<String>|
                    prefix_of(enc_vec_string(ss), suffix) implies str_seq_eq(out@, ss) && cur - pos
                    == enc_vec_string(ss).len() by {
                    assert(ss.take(i as int) =~= ss);
                }
            }
            Ok((out, cur - pos))
        },
    }
}

/// Wire image of an optional 32-bit signed value: one discriminant byte,
/// `0x00` for absent, `0x01` and the value for present.
pub open spec fn enc_opt_i32(o: Option<i32>) -> Seq<u8> {
    match o {
        None => seq![0u8],
        Some(v) => seq![1u8] + enc_ivarint(v as int),
    }
}

/// Appends the encoding of an optional 32-bit signed value.
pub fn encode_opt_i32(out: &mut Vec<u8>, o: &Option<i32>)
    ensures
        final(out)@ == old(out)@ + enc_opt_i32(*o),
{
    match o {
        None => {
            out.push(0u8);
            assert(final(out)@ =~= old(out)@ + enc_opt_i32(*o));
        },
        Some(v) => {
            out.push(1u8);
            encode_i32(out, *v);
            assert(final(out)@ =~= old(out)@ + enc_opt_i32(*o));
        },
    }
}

/// Reads an optional 32-bit signed value at `pos`.  The discriminant must
/// be 0 or 1; any other byte is an invalid option tag.
pub fn decode_opt_i32(buf: &[u8], pos: usize) -> (r: Result<(Option<i32>, usize), DecodeError>)
    requires
        pos <= buf@.len(),
    ensures
        r matches Ok(p) ==> pos + enc_opt_i32(p.0).len() <= buf@.len() && buf@.subrange(
            pos as int,
            pos + enc_opt_i32(p.0).len(),
        ) == enc_opt_i32(p.0) && p.1 == enc_opt_i32(p.0).len(),
        forall|o: Option<i32>|
            prefix_of(enc_opt_i32(o), buf@.skip(pos as int)) ==> r == Ok::<
                (Option<i32>, usize),
                DecodeError,
            >((o, enc_opt_i32(o).len() as usize)),
        r == Err::<(Option<i32>, usize), DecodeError>(DecodeError::TruncatedInput) <==> pos
            == buf@.len(),
        r == Err::<(Option<i32>, usize), DecodeError>(DecodeError::InvalidOptionTag) <==> pos
            < buf@.len() && buf@[pos as int] >= 2,
        r is Err ==> (r == Err::<(Option<i32>, usize), DecodeError>(DecodeError::MalformedVarint)
            || r == Err::<(Option<i32>, usize), DecodeError>(DecodeError::TruncatedInput) || r
            == Err::<(Option<i32>, usize), DecodeError>(DecodeError::InvalidOptionTag)),
{
    let ghost suffix = buf@.skip(pos as int);
    if pos == buf.len() {
        return Err(DecodeError::TruncatedInput);
    }
    let b: u8 = buf[pos];
    assert(suffix[0] == b);
    if b == 0 {
        assert(buf@.subrange(pos as int, pos + 1) =~= enc_opt_i32(None));
        assert forall|o: Option<i32>|
            prefix_of(enc_opt_i32(o), suffix) implies o is None by {
            if o is Some {
                assert(enc_opt_i32(o)[0] == 1);
            }
        }
        Ok((None, 1))
    } else if b == 1 {
        proof {
            lemma_skip_skip(buf@, pos as int, 1);
            assert forall|o: Option<i32>|
                prefix_of(enc_opt_i32(o), suffix) implies o matches Some(v) && prefix_of(
                enc_ivarint(o->Some_0 as int),
                buf@.skip(pos + 1),
            ) by {
                if o is None {
                    assert(enc_opt_i32(o)[0] == 0);
                } else {
                    lemma_prefix_concat(seq![1u8], enc_ivarint(o->Some_0 as int), suffix);
                }
            }
        }
        match decode_i32(buf, pos + 1) {
            Err(e) => Err(e),
            Ok((v, used)) => {
                proof {
                    assert(buf@.subrange(pos as int, pos + 1 + used) =~= seq![1u8] + buf@.subrange(
                        pos + 1,
                        pos + 1 + used,
                    ));
                }
                Ok((Some(v), 1 + used))
            },
        }
    } else {
        assert forall|o: Option<i32>| !prefix_of(enc_opt_i32(o), suffix) by {
            if prefix_of(enc_opt_i32(o), suffix) {
                assert(enc_opt_i32(o)[0] == suffix[0]);
                assert(enc_opt_i32(o)[0] == 0 || enc_opt_i32(o)[0] == 1);
            }
        }
        Err(DecodeError::InvalidOptionTag)
    }
}

/// A marker that carries no data at all.
#[derive(Debug, Clone, Copy, PartialEq, Eq, Structural)]
pub struct UnitStruct;

/// Wire image of a zero-field marker: no bytes.
pub open spec fn enc_unit() -> Seq<u8> {
    Seq::empty()
}

/// Appends the (empty) encoding of the zero-field marker.
pub fn encode_unit(out: &mut Vec<u8>, v: &UnitStruct)
    ensures
        final(out)@ == old(out)@ + enc_unit(),
{
    assert(final(out)@ =~= old(out)@ + enc_unit());
}

/// Reads a zero-field marker at `pos`: always succeeds and consumes no
/// bytes.
pub fn decode_unit(buf: &[u8], pos: usize) -> (r: Result<(UnitStruct, usize), DecodeError>)
    requires
        pos <= buf@.len(),
    ensures
        r == Ok::<(UnitStruct, usize), DecodeError>((UnitStruct, 0)),
        buf@.subrange(pos as int, pos as int) == enc_unit(),
{
    assert(buf@.subrange(pos as int, pos as int) =~= enc_unit());
    Ok((UnitStruct, 0))
}

/// A wrapper around one 64-bit unsigned value; its encoding is exactly the
/// wrapped value's, with no extra framing.
#[derive(Debug, Clone, Copy, PartialEq, Eq, Structural)]
pub struct NewtypeStruct(pub u64);

/// Wire image of the newtype wrapper: the wrapped value alone.
pub open spec fn enc_newtype(v: NewtypeStruct) -> Seq<u8> {
    enc_uvarint(v.0 as nat)
}

/// Appends the encoding of the newtype wrapper.
pub fn encode_newtype(out: &mut Vec<u8>, v: &NewtypeStruct)
    ensures
        final(out)@ == old(out)@ + enc_newtype(*v),
{
    encode_u64(out, v.0);
}

/// Reads a newtype wrapper at `pos`.
pub fn decode_newtype(buf: &[u8], pos: usize) -> (r: Result<(NewtypeStruct, usize), DecodeError>)
    requires
        pos <= buf@.len(),
    ensures
        r matches Ok(p) ==> pos + enc_newtype(p.0).len() <= buf@.len() && buf@.subrange(
            pos as int,
            pos + enc_newtype(p.0).len(),
        ) == enc_newtype(p.0) && p.1 == enc_newtype(p.0).len(),
        forall|v: NewtypeStruct|
            prefix_of(enc_newtype(v), buf@.skip(pos as int)) ==> r == Ok::<
                (NewtypeStruct, usize),
                DecodeError,
            >((v, enc_newtype(v).len() as usize)),
        r is Err ==> r == Err::<(NewtypeStruct, usize), DecodeError>(DecodeError::MalformedVarint),
{
    match decode_u64(buf, pos) {
        Err(e) => Err(e),
        Ok((v, used)) => {
            assert forall|w: NewtypeStruct|
                prefix_of(enc_newtype(w), buf@.skip(pos as int)) implies w.0 == v by {
                assert(prefix_of(enc_uvarint(w.0 as nat), buf@.skip(pos as int)));
            }
            Ok((NewtypeStruct(v), used))
        },
    }
}

/// A record of three unnamed fields, encoded as the fields concatenated in
/// declaration order with no framing.
#[derive(Debug, Clone, PartialEq)]
pub struct TupleStruct(pub String, pub i32, pub bool);

/// Wire image of the three-field tuple record.
pub open spec fn enc_tuple_struct(v: TupleStruct) -> Seq<u8> {
    enc_str(v.0@) + (enc_ivarint(v.1 as int) + enc_bool(v.2))
}

/// Value equality for [`TupleStruct`]: the fields agree.
pub open spec fn tuple_struct_eq(a: TupleStruct, b: TupleStruct) -> bool {
    a.0@ == b.0@ && a.1 == b.1 && a.2 == b.2
}

/// Appends the encoding of the three-field tuple record.
pub fn encode_tuple_struct(out: &mut Vec<u8>, v: &TupleStruct)
    ensures
        final(out)@ == old(out)@ + enc_tuple_struct(*v),
{
    encode_string(out, v.0.as_str());
    encode_i32(out, v.1);
    encode_bool(out, v.2);
    assert(final(out)@ =~= old(out)@ + enc_tuple_struct(*v));
}

/// Reads a three-field tuple record at `pos`.
pub fn decode_tuple_struct(buf: &[u8], pos: usize) -> (r: Result<
    (TupleStruct, usize),
    DecodeError,
>)
    requires
        pos <= buf@.len(),
    ensures
        r matches Ok(p) ==> pos + enc_tuple_struct(p.0).len() <= buf@.len() && buf@.subrange(
            pos as int,
            pos + enc_tuple_struct(p.0).len(),
        ) == enc_tuple_struct(p.0) && p.1 == enc_tuple_struct(p.0).len(),
        forall|v: TupleStruct|
            prefix_of(enc_tuple_struct(v), buf@.skip(pos as int)) ==> (r matches Ok(p)
                && tuple_struct_eq(p.0, v) && p.1 == enc_tuple_struct(v).len()),
        r is Err ==> (r == Err::<(TupleStruct, usize), DecodeError>(DecodeError::MalformedVarint)
            || r == Err::<(TupleStruct, usize), DecodeError>(DecodeError::TruncatedInput) || r
            == Err::<(TupleStruct, usize), DecodeError>(DecodeError::InvalidUtf8)),
{
    let buf_len: usize = buf.len();
    let ghost suffix = buf@.skip(pos as int);
    proof {
        assert forall|v: TupleStruct|
            prefix_of(enc_tuple_struct(v), suffix) implies prefix_of(enc_str(v.0@), suffix)
            && prefix_of(
            enc_ivarint(v.1 as int) + enc_bool(v.2),
            suffix.skip(enc_str(v.0@).len() as int),
        ) by {
            lemma_prefix_concat(enc_str(v.0@), enc_ivarint(v.1 as int) + enc_bool(v.2), suffix);
        }
    }
    match decode_string(buf, pos) {
        Err(e) => Err(e),
        Ok((a, used0)) => {
            proof {
                lemma_skip_skip(buf@, pos as int, used0 as int);
                assert forall|v: TupleStruct|
                    prefix_of(enc_tuple_struct(v), suffix) implies prefix_of(
                    enc_ivarint(v.1 as int),
                    buf@.skip(pos + used0),
                ) && prefix_of(
                    enc_bool(v.2),
                    buf@.skip(pos + used0).skip(enc_ivarint(v.1 as int).len() as int),
                ) by {
                    lemma_prefix_concat(
                        enc_ivarint(v.1 as int),
                        enc_bool(v.2),
                        suffix.skip(enc_str(v.0@).len() as int),
                    );
                }
            }
            match decode_i32(buf, pos + used0) {
                Err(e) => Err(e),
                Ok((b, used1)) => {
                    proof {
                        lemma_skip_skip(buf@, pos + used0, used1 as int);
                        assert forall|v: TupleStruct|
                            prefix_of(enc_tuple_struct(v), suffix) implies prefix_of(
                            enc_bool(v.2),
                            buf@.skip(pos + used0 + used1),
                        ) by {
                            assert(used1 == enc_ivarint(v.1 as int).len());
                        }
                    }
                    match decode_bool(buf, pos + used0 + used1) {
                        Err(e) => Err(e),
                        Ok((c, used2)) => {
                            let w = TupleStruct(a, b, c);
                            proof {
                                assert(buf@.subrange(
                                    pos as int,
                                    pos + used0 + used1 + used2,
                                ) =~= buf@.subrange(pos as int, pos + used0) + (buf@.subrange(
                                    pos + used0,
                                    pos + used0 + used1,
                                ) + buf@.subrange(
                                    pos + used0 + used1,
                                    pos + used0 + used1 + used2,
                                )));
                            }
                            Ok((w, used0 + used1 + used2))
                        },
                    }
                },
            }
        },
    }
}

/// Wire image of a fixed four-element sequence of 32-bit unsigned values:
/// the elements alone, no count, since the size is part of the schema.
pub open spec fn enc_arr4_u32(a: Seq<u32>) -> Seq<u8>
    recommends
        a.len() == 4,
{
    enc_uvarint(a[0] as nat) + (enc_uvarint(a[1] as nat) + (enc_uvarint(a[2] as nat) + enc_uvarint(
        a[3] as nat,
    )))
}

/// Appends the encoding of a fixed four-element sequence.
pub fn encode_arr4_u32(out: &mut Vec<u8>, a: &[u32; 4])
    ensures
        final(out)@ == old(out)@ + enc_arr4_u32(a@),
{
    encode_u32(out, a[0]);
    encode_u32(out, a[1]);
    encode_u32(out, a[2]);
    encode_u32(out, a[3]);
    assert(final(out)@ =~= old(out)@ + enc_arr4_u32(a@));
}

/// Reads a fixed four-element sequence at `pos`: four values, no count.
pub fn decode_arr4_u32(buf: &[u8], pos: usize) -> (r: Result<([u32; 4], usize), DecodeError>)
    requires
        pos <= buf@.len(),
    ensures
        r matches Ok(p) ==> pos + enc_arr4_u32(p.0@).len() <= buf@.len() && buf@.subrange(
            pos as int,
            pos + enc_arr4_u32(p.0@).len(),
        ) == enc_arr4_u32(p.0@) && p.1 == enc_arr4_u32(p.0@).len(),
        forall|a: Seq<u32>|
            a.len() == 4 && prefix_of(enc_arr4_u32(a), buf@.skip(pos as int)) ==> (r matches Ok(p)
                && p.0@ == a && p.1 == enc_arr4_u32(a).len()),
        r is Err ==> r == Err::<([u32; 4], usize), DecodeError>(DecodeError::MalformedVarint),
{
    let buf_len: usize = buf.len();
    let ghost suffix = buf@.skip(pos as int);
    proof {
        assert forall|a: Seq<u32>|
            a.len() == 4 && prefix_of(enc_arr4_u32(a), suffix) implies prefix_of(
            enc_uvarint(a[0] as nat),
            suffix,
        ) && prefix_of(
            enc_uvarint(a[1] as nat) + (enc_uvarint(a[2] as nat) + enc_uvarint(a[3] as nat)),
            suffix.skip(enc_uvarint(a[0] as nat).len() as int),
        ) by {
            lemma_prefix_concat(
                enc_uvarint(a[0] as nat),
                enc_uvarint(a[1] as nat) + (enc_uvarint(a[2] as nat) + enc_uvarint(a[3] as nat)),
                suffix,
            );
        }
    }
    match decode_u32(buf, pos) {
        Err(e) => Err(e),
        Ok((x0, u0)) => {
            proof {
                lemma_skip_skip(buf@, pos as int, u0 as int);
                assert forall|a: Seq<u32>|
                    a.len() == 4 && prefix_of(enc_arr4_u32(a), suffix) implies prefix_of(
                    enc_uvarint(a[1] as nat),
                    buf@.skip(pos + u0),
                ) && prefix_of(
                    enc_uvarint(a[2] as nat) + enc_uvarint(a[3] as nat),
                    buf@.skip(pos + u0).skip(enc_uvarint(a[1] as nat).len() as int),
                ) by {
                    lemma_prefix_concat(
                        enc_uvarint(a[1] as nat),
                        enc_uvarint(a[2] as nat) + enc_uvarint(a[3] as nat),
                        suffix.skip(enc_uvarint(a[0] as nat).len() as int),
                    );
                }
            }
            match decode_u32(buf, pos + u0) {
                Err(e) => Err(e),
                Ok((x1, u1)) => {
                    proof {
                        lemma_skip_skip(buf@, pos + u0, u1 as int);
                        assert forall|a: Seq<u32>|
                            a.len() == 4 && prefix_of(enc_arr4_u32(a), suffix) implies prefix_of(
                            enc_uvarint(a[2] as nat),
                            buf@.skip(pos + u0 + u1),
                        ) && prefix_of(
                            enc_uvarint(a[3] as nat),
                            buf@.skip(pos + u0 + u1).skip(enc_uvarint(a[2] as nat).len() as int),
                        ) by {
                            lemma_prefix_concat(
                                enc_uvarint(a[2] as nat),
                                enc_uvarint(a[3] as nat),
                                buf@.skip(pos + u0).skip(enc_uvarint(a[1] as nat).len() as int),
                            );
                        }
                    }
                    match decode_u32(buf, pos + u0 + u1) {
                        Err(e) => Err(e),
                        Ok((x2, u2)) => {
                            proof {
                                lemma_skip_skip(buf@, pos + u0 + u1, u2 as int);
                            }
                            match decode_u32(buf, pos + u0 + u1 + u2) {
                                Err(e) => Err(e),
                                Ok((x3, u3)) => {
                                    let w: [u32; 4] = [x0, x1, x2, x3];
                                    proof {
                                        assert(w@ =~= seq![x0, x1, x2, x3]);
                                        assert(buf@.subrange(
                                            pos as int,
                                            pos + u0 + u1 + u2 + u3,
                                        ) =~= buf@.subrange(pos as int, pos + u0) + (buf@.subrange(
                                            pos + u0,
                                            pos + u0 + u1,
                                        ) + (buf@.subrange(pos + u0 + u1, pos + u0 + u1 + u2)
                                            + buf@.subrange(
                                            pos + u0 + u1 + u2,
                                            pos + u0 + u1 + u2 + u3,
                                        ))));
                                    }
                                    Ok((w, u0 + u1 + u2 + u3))
                                },
                            }
                        },
                    }
                },
            }
        },
    }
}

/// Wire image of a mixed fixed tuple: the elements concatenated in declared
/// order, no framing.
pub open spec fn enc_tuple_mixed(t: (u16, String, bool)) -> Seq<u8> {
    enc_uvarint(t.0 as nat) + (enc_str(t.1@) + enc_bool(t.2))
}

/// Value equality for the mixed tuple: the elements agree.
pub open spec fn tuple_mixed_eq(a: (u16, String, bool), b: (u16, String, bool)) -> bool {
    a.0 == b.0 && a.1@ == b.1@ && a.2 == b.2
}

/// Appends the encoding of a mixed fixed tuple.
pub fn encode_tuple_mixed(out: &mut Vec<u8>, t: &(u16, String, bool))
    ensures
        final(out)@ == old(out)@ + enc_tuple_mixed(*t),
{
    encode_u16(out, t.0);
    encode_string(out, t.1.as_str());
    encode_bool(out, t.2);
    assert(final(out)@ =~= old(out)@ + enc_tuple_mixed(*t));
}

/// Reads a mixed fixed tuple at `pos`.
pub fn decode_tuple_mixed(buf: &[u8], pos: usize) -> (r: Result<
    ((u16, String, bool), usize),
    DecodeError,
>)
    requires
        pos <= buf@.len(),
    ensures
        r matches Ok(p) ==> pos + enc_tuple_mixed(p.0).len() <= buf@.len() && buf@.subrange(
            pos as int,
            pos + enc_tuple_mixed(p.0).len(),
        ) == enc_tuple_mixed(p.0) && p.1 == enc_tuple_mixed(p.0).len(),
        forall|t: (u16, String, bool)|
            prefix_of(enc_tuple_mixed(t), buf@.skip(pos as int)) ==> (r matches Ok(p)
                && tuple_mixed_eq(p.0, t) && p.1 == enc_tuple_mixed(t).len()),
        r is Err ==> (r == Err::<((u16, String, bool), usize), DecodeError>(
            DecodeError::MalformedVarint,
        ) || r == Err::<((u16, String, bool), usize), DecodeError>(DecodeError::TruncatedInput) || r
            == Err::<((u16, String, bool), usize), DecodeError>(DecodeError::InvalidUtf8)),
{
    let buf_len: usize = buf.len();
    let ghost suffix = buf@.skip(pos as int);
    proof {
        assert forall|t: (u16, String, bool)|
            prefix_of(enc_tuple_mixed(t), suffix) implies prefix_of(
            enc_uvarint(t.0 as nat),
            suffix,
        ) && prefix_of(enc_str(t.1@) + enc_bool(t.2), suffix.skip(
            enc_uvarint(t.0 as nat).len() as int,
        )) by {
            lemma_prefix_concat(enc_uvarint(t.0 as nat), enc_str(t.1@) + enc_bool(t.2), suffix);
        }
    }
    match decode_u16(buf, pos) {
        Err(e) => Err(e),
        Ok((a, used0)) => {
            proof {
                lemma_skip_skip(buf@, pos as int, used0 as int);
                assert forall|t: (u16, String, bool)|
                    prefix_of(enc_tuple_mixed(t), suffix) implies prefix_of(
                    enc_str(t.1@),
                    buf@.skip(pos + used0),
                ) && prefix_of(
                    enc_bool(t.2),
                    buf@.skip(pos + used0).skip(enc_str(t.1@).len() as int),
                ) by {
                    lemma_prefix_concat(
                        enc_str(t.1@),
                        enc_bool(t.2),
                        suffix.skip(enc_uvarint(t.0 as nat).len() as int),
                    );
                }
            }
            match decode_string(buf, pos + used0) {
                Err(e) => Err(e),
                Ok((b, used1)) => {
                    proof {
                        lemma_skip_skip(buf@, pos + used0, used1 as int);
                    }
                    match decode_bool(buf, pos + used0 + used1) {
                        Err(e) => Err(e),
                        Ok((c, used2)) => {
                            let w = (a, b, c);
                            proof {
                                assert(buf@.subrange(
                                    pos as int,
                                    pos + used0 + used1 + used2,
                                ) =~= buf@.subrange(pos as int, pos + used0) + (buf@.subrange(
                                    pos + used0,
                                    pos + used0 + used1,
                                ) + buf@.subrange(
                                    pos + used0 + used1,
                                    pos + used0 + used1 + used2,
                                )));
                            }
                            Ok((w, used0 + used1 + used2))
                        },
                    }
                },
            }
        },
    }
}

/// A record exercising every collection shape: dynamic sequences, a fixed
/// array, a mixed tuple, and present and absent optionals.
#[derive(Debug, PartialEq)]
pub struct Collections {
    pub vec_u8: Vec<u8>,
    pub vec_string: Vec<String>,
    pub array_u32: [u32; 4],
    pub tuple_mixed: (u16, String, bool),
    pub option_some: Option<i32>,
    pub option_none: Option<i32>,
}

/// Wire image of [`Collections`]: the fields concatenated in declaration order.
pub open spec fn enc_collections(v: Collections) -> Seq<u8> {
    enc_bytes(v.vec_u8@) + (enc_vec_string(v.vec_string@) + (enc_arr4_u32(v.array_u32@) + (enc_tuple_mixed(v.tuple_mixed) + (enc_opt_i32(v.option_some) + (enc_opt_i32(v.option_none))))))
}

/// Value equality for [`Collections`]: the fields agree.
pub open spec fn collections_eq(a: Collections, b: Collections) -> bool {
    a.vec_u8@ == b.vec_u8@ && str_seq_eq(a.vec_string@, b.vec_string@) && a.array_u32@
        == b.array_u32@ && tuple_mixed_eq(a.tuple_mixed, b.tuple_mixed) && a.option_some
        == b.option_some && a.option_none == b.option_none
}

/// Appends the encoding of a [`Collections`] record's fields in order.
pub fn encode_collections(out: &mut Vec<u8>, v: &Collections)
    ensures
        final(out)@ == old(out)@ + enc_collections(*v),
{
    encode_bytes(out, &v.vec_u8);
    encode_vec_string(out, &v.vec_string);
    encode_arr4_u32(out, &v.array_u32);
    encode_tuple_mixed(out, &v.tuple_mixed);
    encode_opt_i32(out, &v.option_some);
    encode_opt_i32(out, &v.option_none);
    assert(final(out)@ =~= old(out)@ + enc_collections(*v));
}

/// Reads a [`Collections`] record at `pos`: every field, in declaration
/// order.
#[verifier::rlimit(100)]
pub fn decode_collections(buf: &[u8], pos: usize) -> (r: Result<(Collections, usize), DecodeError>)
    requires
        pos <= buf@.len(),
    ensures
        r matches Ok(p) ==> pos + enc_collections(p.0).len() <= buf@.len() && buf@.subrange(
            pos as int,
            pos + enc_collections(p.0).len(),
        ) == enc_collections(p.0) && p.1 == enc_collections(p.0).len(),
        forall|v: Collections|
            #![trigger enc_collections(v)]
            prefix_of(enc_collections(v), buf@.skip(pos as int)) ==> (r matches Ok(p) && collections_eq(
                p.0,
                v,
            ) && p.1 == enc_collections(v).len()),
        r is Err ==> (r == Err::<(Collections, usize), DecodeError>(DecodeError::MalformedVarint)
            || r == Err::<(Collections, usize), DecodeError>(DecodeError::TruncatedInput) || r
            == Err::<(Collections, usize), DecodeError>(DecodeError::InvalidUtf8) || r == Err::<
            (Collections, usize),
            DecodeError,
        >(DecodeError::InvalidOptionTag)),
{
    let buf_len: usize = buf.len();
    let ghost suffix = buf@.skip(pos as int);
    proof {
        assert forall|v: Collections|
            #![trigger enc_collections(v)]
            prefix_of(enc_collections(v), suffix) implies prefix_of(enc_bytes(v.vec_u8@), suffix)
            && prefix_of(enc_vec_string(v.vec_string@) + (enc_arr4_u32(v.array_u32@) + (enc_tuple_mixed(v.tuple_mixed) + (enc_opt_i32(v.option_some) + (enc_opt_i32(v.option_none))))), suffix.skip((enc_bytes(v.vec_u8@)).len() as int)) by {
            lemma_prefix_concat(enc_bytes(v.vec_u8@), enc_vec_string(v.vec_string@) + (enc_arr4_u32(v.array_u32@) + (enc_tuple_mixed(v.tuple_mixed) + (enc_opt_i32(v.option_some) + (enc_opt_i32(v.option_none))))), suffix);
        }
    }
    match decode_bytes(buf, pos) {
        Err(e) => Err(e),
        Ok((f_vec_u8, u0)) => {
            proof {
                lemma_skip_skip(buf@, pos as int, u0 as int);
                assert forall|v: Collections|
                    #![trigger enc_collections(v)]
                    prefix_of(enc_collections(v), suffix) implies prefix_of(
                    enc_vec_string(v.vec_string@),
                    buf@.skip(pos + u0),
                ) && prefix_of(
                    enc_arr4_u32(v.array_u32@) + (enc_tuple_mixed(v.tuple_mixed) + (enc_opt_i32(v.option_some) + (enc_opt_i32(v.option_none)))),
                    buf@.skip(pos + u0).skip((enc_vec_string(v.vec_string@)).len() as int),
                ) by {
                    lemma_prefix_concat(
                        enc_vec_string(v.vec_string@),
                        enc_arr4_u32(v.array_u32@) + (enc_tuple_mixed(v.tuple_mixed) + (enc_opt_i32(v.option_some) + (enc_opt_i32(v.option_none)))),
                        buf@.skip(pos + u0),
                    );
                }
            }
            match decode_vec_string(buf, pos + u0) {
                Err(e) => Err(e),
                Ok((f_vec_string, u1)) => {
                    proof {
                        lemma_skip_skip(buf@, pos + u0, u1 as int);
                        assert forall|v: Collections|
                            #![trigger enc_collections(v)]
                            prefix_of(enc_collections(v), suffix) implies prefix_of(
                            enc_arr4_u32(v.array_u32@),
                            buf@.skip(pos + u0 + u1),
                        ) && prefix_of(
                            enc_tuple_mixed(v.tuple_mixed) + (enc_opt_i32(v.option_some) + (enc_opt_i32(v.option_none))),
                            buf@.skip(pos + u0 + u1).skip((enc_arr4_u32(v.array_u32@)).len() as int),
                        ) by {
                            lemma_prefix_concat(
                                enc_arr4_u32(v.array_u32@),
                                enc_tuple_mixed(v.tuple_mixed) + (enc_opt_i32(v.option_some) + (enc_opt_i32(v.option_none))),
                                buf@.skip(pos + u0 + u1),
                            );
                            assert(v.array_u32@.len() == 4);
                        }
                    }
                    match decode_arr4_u32(buf, pos + u0 + u1) {
                        Err(e) => Err(e),
                        Ok((f_array_u32, u2)) => {
                            proof {
                                lemma_skip_skip(buf@, pos + u0 + u1, u2 as int);
                                assert forall|v: Collections|
                                    #![trigger enc_collections(v)]
                                    prefix_of(enc_collections(v), suffix) implies prefix_of(
                                    enc_tuple_mixed(v.tuple_mixed),
                                    buf@.skip(pos + u0 + u1 + u2),
                                ) && prefix_of(
                                    enc_opt_i32(v.option_some) + (enc_opt_i32(v.option_none)),
                                    buf@.skip(pos + u0 + u1 + u2).skip((enc_tuple_mixed(v.tuple_mixed)).len() as int),
                                ) by {
                                    lemma_prefix_concat(
                                        enc_tuple_mixed(v.tuple_mixed),
                                        enc_opt_i32(v.option_some) + (enc_opt_i32(v.option_none)),
                                        buf@.skip(pos + u0 + u1 + u2),
                                    );
                                }
                            }
                            match decode_tuple_mixed(buf, pos + u0 + u1 + u2) {
                                Err(e) => Err(e),
                                Ok((f_tuple_mixed, u3)) => {
                                    proof {
                                        lemma_skip_skip(buf@, pos + u0 + u1 + u2, u3 as int);
                                        assert forall|v: Collections|
                                            #![trigger enc_collections(v)]
                                            prefix_of(enc_collections(v), suffix) implies prefix_of(
                                            enc_opt_i32(v.option_some),
                                            buf@.skip(pos + u0 + u1 + u2 + u3),
                                        ) && prefix_of(
                                            enc_opt_i32(v.option_none),
                                            buf@.skip(pos + u0 + u1 + u2 + u3).skip((enc_opt_i32(v.option_some)).len() as int),
                                        ) by {
                                            lemma_prefix_concat(
                                                enc_opt_i32(v.option_some),
                                                enc_opt_i32(v.option_none),
                                                buf@.skip(pos + u0 + u1 + u2 + u3),
                                            );
                                        }
                                    }
                                    match decode_opt_i32(buf, pos + u0 + u1 + u2 + u3) {
                                        Err(e) => Err(e),
                                        Ok((f_option_some, u4)) => {
                                            proof {
                                                lemma_skip_skip(buf@, pos + u0 + u1 + u2 + u3, u4 as int);
                                                assert forall|v: Collections|
                                                    #![trigger enc_collections(v)]
                                                    prefix_of(enc_collections(v), suffix) implies prefix_of(
                                                    enc_opt_i32(v.option_none),
                                                    buf@.skip(pos + u0 + u1 + u2 + u3 + u4),
                                                ) by {
                                                }
                                            }
                                            match decode_opt_i32(buf, pos + u0 + u1 + u2 + u3 + u4) {
                                                Err(e) => Err(e),
                                                Ok((f_option_none, u5)) => {
                                                    let w = Collections { vec_u8: f_vec_u8, vec_string: f_vec_string, array_u32: f_array_u32, tuple_mixed: f_tuple_mixed, option_some: f_option_some, option_none: f_option_none };
                                                    proof {
                                                        assert(buf@.subrange(pos as int, pos + u0 + u1 + u2 + u3 + u4 + u5) =~= buf@.subrange(pos as int, pos + u0) + (buf@.subrange(pos + u0, pos + u0 + u1) + (buf@.subrange(pos + u0 + u1, pos + u0 + u1 + u2) + (buf@.subrange(pos + u0 + u1 + u2, pos + u0 + u1 + u2 + u3) + (buf@.subrange(pos + u0 + u1 + u2 + u3, pos + u0 + u1 + u2 + u3 + u4) + (buf@.subrange(pos + u0 + u1 + u2 + u3 + u4, pos + u0 + u1 + u2 + u3 + u4 + u5)))))));
                                                    }
                                                    Ok((w, u0 + u1 + u2 + u3 + u4 + u5))
                                                    },
                                            }
                                            },
                                    }
                                    },
                            }
                            },
                    }
                    },
            }
            },
    }
}

/// Wire image of the run of integer fields of every exercised width: the parts concatenated in declared order.
pub open spec fn enc_int_run(v: (u64, u8, i8, i8, u16, u32, i32)) -> Seq<u8> {
    enc_uvarint(v.0 as nat) + (enc_uvarint(v.1 as nat) + (enc_ivarint(v.2 as int) + (enc_ivarint(v.3 as int) + (enc_uvarint(v.4 as nat) + (enc_uvarint(v.5 as nat) + (enc_ivarint(v.6 as int)))))))
}

/// Value equality for the run of integer fields of every exercised width: the parts agree.
pub open spec fn int_run_eq(a: (u64, u8, i8, i8, u16, u32, i32), b: (u64, u8, i8, i8, u16, u32, i32)) -> bool {
    a.0 == b.0 && a.1 == b.1 && a.2 == b.2 && a.3 == b.3 && a.4 == b.4 && a.5 == b.5
        && a.6 == b.6
}

/// Appends the encoding of the run of integer fields of every exercised width, part by part.
pub fn encode_int_run(out: &mut Vec<u8>, v: &(u64, u8, i8, i8, u16, u32, i32))
    ensures
        final(out)@ == old(out)@ + enc_int_run(*v),
{
    encode_u64(out, v.0);
    encode_u8(out, v.1);
    encode_i8(out, v.2);
    encode_i8(out, v.3);
    encode_u16(out, v.4);
    encode_u32(out, v.5);
    encode_i32(out, v.6);
    assert(final(out)@ =~= old(out)@ + enc_int_run(*v));
}

/// Reads the run of integer fields of every exercised width at `pos`, part by part, in declared order.
#[verifier::rlimit(100)]
pub fn decode_int_run(buf: &[u8], pos: usize) -> (r: Result<((u64, u8, i8, i8, u16, u32, i32), usize), DecodeError>)
    requires
        pos <= buf@.len(),
    ensures
        r matches Ok(p) ==> pos + enc_int_run(p.0).len() <= buf@.len() && buf@.subrange(
            pos as int,
            pos + enc_int_run(p.0).len(),
        ) == enc_int_run(p.0) && p.1 == enc_int_run(p.0).len(),
        forall|v: (u64, u8, i8, i8, u16, u32, i32)|
            #![trigger enc_int_run(v)]
            prefix_of(enc_int_run(v), buf@.skip(pos as int)) ==> (r matches Ok(p) && int_run_eq(
                p.0,
                v,
            ) && p.1 == enc_int_run(v).len()),
        r is Err ==> (r == Err::<((u64, u8, i8, i8, u16, u32, i32), usize), DecodeError>(DecodeError::MalformedVarint)
            || r == Err::<((u64, u8, i8, i8, u16, u32, i32), usize), DecodeError>(DecodeError::TruncatedInput) || r
            == Err::<((u64, u8, i8, i8, u16, u32, i32), usize), DecodeError>(DecodeError::InvalidUtf8) || r == Err::<
            ((u64, u8, i8, i8, u16, u32, i32), usize),
            DecodeError,
        >(DecodeError::InvalidOptionTag)),
{
    let buf_len: usize = buf.len();
    let ghost suffix = buf@.skip(pos as int);
    proof {
        assert forall|v: (u64, u8, i8, i8, u16, u32, i32)|
            #![trigger enc_int_run(v)]
            prefix_of(enc_int_run(v), suffix) implies prefix_of(enc_uvarint(v.0 as nat), suffix)
            && prefix_of(enc_uvarint(v.1 as nat) + (enc_ivarint(v.2 as int) + (enc_ivarint(v.3 as int) + (enc_uvarint(v.4 as nat) + (enc_uvarint(v.5 as nat) + (enc_ivarint(v.6 as int)))))), suffix.skip((enc_uvarint(v.0 as nat)).len() as int)) by {
            lemma_prefix_concat(enc_uvarint(v.0 as nat), enc_uvarint(v.1 as nat) + (enc_ivarint(v.2 as int) + (enc_ivarint(v.3 as int) + (enc_uvarint(v.4 as nat) + (enc_uvarint(v.5 as nat) + (enc_ivarint(v.6 as int)))))), suffix);
        }
    }
    match decode_u64(buf, pos) {
        Err(e) => Err(e),
        Ok((t0, u0)) => {
            proof {
                lemma_skip_skip(buf@, pos as int, u0 as int);
                assert forall|v: (u64, u8, i8, i8, u16, u32, i32)|
                    #![trigger enc_int_run(v)]
                    prefix_of(enc_int_run(v), suffix) implies prefix_of(
                    enc_uvarint(v.1 as nat),
                    buf@.skip(pos + u0),
                ) && prefix_of(
                    enc_ivarint(v.2 as int) + (enc_ivarint(v.3 as int) + (enc_uvarint(v.4 as nat) + (enc_uvarint(v.5 as nat) + (enc_ivarint(v.6 as int))))),
                    buf@.skip(pos + u0).skip((enc_uvarint(v.1 as nat)).len() as int),
                ) by {
                    lemma_prefix_concat(
                        enc_uvarint(v.1 as nat),
                        enc_ivarint(v.2 as int) + (enc_ivarint(v.3 as int) + (enc_uvarint(v.4 as nat) + (enc_uvarint(v.5 as nat) + (enc_ivarint(v.6 as int))))),
                        buf@.skip(pos + u0),
                    );
                }
            }
            match decode_u8(buf, pos + u0) {
                Err(e) => Err(e),
                Ok((t1, u1)) => {
                    proof {
                        lemma_skip_skip(buf@, pos + u0, u1 as int);
                        assert forall|v: (u64, u8, i8, i8, u16, u32, i32)|
                            #![trigger enc_int_run(v)]
                            prefix_of(enc_int_run(v), suffix) implies prefix_of(
                            enc_ivarint(v.2 as int),
                            buf@.skip(pos + u0 + u1),
                        ) && prefix_of(
                            enc_ivarint(v.3 as int) + (enc_uvarint(v.4 as nat) + (enc_uvarint(v.5 as nat) + (enc_ivarint(v.6 as int)))),
                            buf@.skip(pos + u0 + u1).skip((enc_ivarint(v.2 as int)).len() as int),
                        ) by {
                            lemma_prefix_concat(
                                enc_ivarint(v.2 as int),
                                enc_ivarint(v.3 as int) + (enc_uvarint(v.4 as nat) + (enc_uvarint(v.5 as nat) + (enc_ivarint(v.6 as int)))),
                                buf@.skip(pos + u0 + u1),
                            );
                        }
                    }
                    match decode_i8(buf, pos + u0 + u1) {
                        Err(e) => Err(e),
                        Ok((t2, u2)) => {
                            proof {
                                lemma_skip_skip(buf@, pos + u0 + u1, u2 as int);
                                assert forall|v: (u64, u8, i8, i8, u16, u32, i32)|
                                    #![trigger enc_int_run(v)]
                                    prefix_of(enc_int_run(v), suffix) implies prefix_of(
                                    enc_ivarint(v.3 as int),
                                    buf@.skip(pos + u0 + u1 + u2),
                                ) && prefix_of(
                                    enc_uvarint(v.4 as nat) + (enc_uvarint(v.5 as nat) + (enc_ivarint(v.6 as int))),
                                    buf@.skip(pos + u0 + u1 + u2).skip((enc_ivarint(v.3 as int)).len() as int),
                                ) by {
                                    lemma_prefix_concat(
                                        enc_ivarint(v.3 as int),
                                        enc_uvarint(v.4 as nat) + (enc_uvarint(v.5 as nat) + (enc_ivarint(v.6 as int))),
                                        buf@.skip(pos + u0 + u1 + u2),
                                    );
                                }
                            }
                            match decode_i8(buf, pos + u0 + u1 + u2) {
                                Err(e) => Err(e),
                                Ok((t3, u3)) => {
                                    proof {
                                        lemma_skip_skip(buf@, pos + u0 + u1 + u2, u3 as int);
                                        assert forall|v: (u64, u8, i8, i8, u16, u32, i32)|
                                            #![trigger enc_int_run(v)]
                                            prefix_of(enc_int_run(v), suffix) implies prefix_of(
                                            enc_uvarint(v.4 as nat),
                                            buf@.skip(pos + u0 + u1 + u2 + u3),
                                        ) && prefix_of(
                                            enc_uvarint(v.5 as nat) + (enc_ivarint(v.6 as int)),
                                            buf@.skip(pos + u0 + u1 + u2 + u3).skip((enc_uvarint(v.4 as nat)).len() as int),
                                        ) by {
                                            lemma_prefix_concat(
                                                enc_uvarint(v.4 as nat),
                                                enc_uvarint(v.5 as nat) + (enc_ivarint(v.6 as int)),
                                                buf@.skip(pos + u0 + u1 + u2 + u3),
                                            );
                                        }
                                    }
                                    match decode_u16(buf, pos + u0 + u1 + u2 + u3) {
                                        Err(e) => Err(e),
                                        Ok((t4, u4)) => {
                                            proof {
                                                lemma_skip_skip(buf@, pos + u0 + u1 + u2 + u3, u4 as int);
                                                assert forall|v: (u64, u8, i8, i8, u16, u32, i32)|
                                                    #![trigger enc_int_run(v)]
                                                    prefix_of(enc_int_run(v), suffix) implies prefix_of(
                                                    enc_uvarint(v.5 as nat),
                                                    buf@.skip(pos + u0 + u1 + u2 + u3 + u4),
                                                ) && prefix_of(
                                                    enc_ivarint(v.6 as int),
                                                    buf@.skip(pos + u0 + u1 + u2 + u3 + u4).skip((enc_uvarint(v.5 as nat)).len() as int),
                                                ) by {
                                                    lemma_prefix_concat(
                                                        enc_uvarint(v.5 as nat),
                                                        enc_ivarint(v.6 as int),
                                                        buf@.skip(pos + u0 + u1 + u2 + u3 + u4),
                                                    );
                                                }
                                            }
                                            match decode_u32(buf, pos + u0 + u1 + u2 + u3 + u4) {
                                                Err(e) => Err(e),
                                                Ok((t5, u5)) => {
                                                    proof {
                                                        lemma_skip_skip(buf@, pos + u0 + u1 + u2 + u3 + u4, u5 as int);
                                                        assert forall|v: (u64, u8, i8, i8, u16, u32, i32)|
                                                            #![trigger enc_int_run(v)]
                                                            prefix_of(enc_int_run(v), suffix) implies prefix_of(
                                                            enc_ivarint(v.6 as int),
                                                            buf@.skip(pos + u0 + u1 + u2 + u3 + u4 + u5),
                                                        ) by {
                                                        }
                                                    }
                                                    match decode_i32(buf, pos + u0 + u1 + u2 + u3 + u4 + u5) {
                                                        Err(e) => Err(e),
                                                        Ok((t6, u6)) => {
                                                            let w = (t0, t1, t2, t3, t4, t5, t6);
                                                            proof {
                                                                assert(buf@.subrange(pos as int, pos + u0 + u1 + u2 + u3 + u4 + u5 + u6) =~= buf@.subrange(pos as int, pos + u0) + (buf@.subrange(pos + u0, pos + u0 + u1) + (buf@.subrange(pos + u0 + u1, pos + u0 + u1 + u2) + (buf@.subrange(pos + u0 + u1 + u2, pos + u0 + u1 + u2 + u3) + (buf@.subrange(pos + u0 + u1 + u2 + u3, pos + u0 + u1 + u2 + u3 + u4) + (buf@.subrange(pos + u0 + u1 + u2 + u3 + u4, pos + u0 + u1 + u2 + u3 + u4 + u5) + (buf@.subrange(pos + u0 + u1 + u2 + u3 + u4 + u5, pos + u0 + u1 + u2 + u3 + u4 + u5 + u6))))))));
                                                            }
                                                            Ok((w, u0 + u1 + u2 + u3 + u4 + u5 + u6))
                                                            },
                                                    }
                                                    },
                                            }
                                            },
                                    }
                                    },
                            }
                            },
                    }
                    },
            }
            },
    }
}

/// A record of boundary values: empty containers, zero, and the extremes
/// of several integer widths.
#[derive(Debug, Clone, PartialEq)]
pub struct EdgeCases {
    pub empty_vec: Vec<u8>,
    pub empty_string: String,
    pub zero: u64,
    pub max_u8: u8,
    pub min_i8: i8,
    pub max_i8: i8,
    pub max_u16: u16,
    pub max_u32: u32,
    pub negative: i32,
}

/// Wire image of the boundary-value record: the parts concatenated in declared order.
pub open spec fn enc_edge_cases(v: EdgeCases) -> Seq<u8> {
    enc_bytes(v.empty_vec@) + (enc_str(v.empty_string@) + (enc_int_run((v.zero, v.max_u8, v.min_i8, v.max_i8, v.max_u16, v.max_u32, v.negative))))
}

/// Value equality for the boundary-value record: the parts agree.
pub open spec fn edge_cases_eq(a: EdgeCases, b: EdgeCases) -> bool {
    a.empty_vec@ == b.empty_vec@ && a.empty_string@ == b.empty_string@ && a.zero == b.zero
        && a.max_u8 == b.max_u8 && a.min_i8 == b.min_i8 && a.max_i8 == b.max_i8 && a.max_u16
        == b.max_u16 && a.max_u32 == b.max_u32 && a.negative == b.negative
}

/// Appends the encoding of the boundary-value record, part by part.
pub fn encode_edge_cases(out: &mut Vec<u8>, v: &EdgeCases)
    ensures
        final(out)@ == old(out)@ + enc_edge_cases(*v),
{
    encode_bytes(out, &v.empty_vec);
    encode_string(out, v.empty_string.as_str());
    encode_int_run(out, &(v.zero, v.max_u8, v.min_i8, v.max_i8, v.max_u16, v.max_u32, v.negative));
    assert(final(out)@ =~= old(out)@ + enc_edge_cases(*v));
}

/// Reads the boundary-value record at `pos`, part by part, in declared order.
#[verifier::rlimit(100)]
pub fn decode_edge_cases(buf: &[u8], pos: usize) -> (r: Result<(EdgeCases, usize), DecodeError>)
    requires
        pos <= buf@.len(),
    ensures
        r matches Ok(p) ==> pos + enc_edge_cases(p.0).len() <= buf@.len() && buf@.subrange(
            pos as int,
            pos + enc_edge_cases(p.0).len(),
        ) == enc_edge_cases(p.0) && p.1 == enc_edge_cases(p.0).len(),
        forall|v: EdgeCases|
            #![trigger enc_edge_cases(v)]
            prefix_of(enc_edge_cases(v), buf@.skip(pos as int)) ==> (r matches Ok(p) && edge_cases_eq(
                p.0,
                v,
            ) && p.1 == enc_edge_cases(v).len()),
        r is Err ==> (r == Err::<(EdgeCases, usize), DecodeError>(DecodeError::MalformedVarint)
            || r == Err::<(EdgeCases, usize), DecodeError>(DecodeError::TruncatedInput) || r
            == Err::<(EdgeCases, usize), DecodeError>(DecodeError::InvalidUtf8) || r == Err::<
            (EdgeCases, usize),
            DecodeError,
        >(DecodeError::InvalidOptionTag)),
{
    let buf_len: usize = buf.len();
    let ghost suffix = buf@.skip(pos as int);
    proof {
        assert forall|v: EdgeCases|
            #![trigger enc_edge_cases(v)]
            prefix_of(enc_edge_cases(v), suffix) implies prefix_of(enc_bytes(v.empty_vec@), suffix)
            && prefix_of(enc_str(v.empty_string@) + (enc_int_run((v.zero, v.max_u8, v.min_i8, v.max_i8, v.max_u16, v.max_u32, v.negative))), suffix.skip((enc_bytes(v.empty_vec@)).len() as int)) by {
            lemma_prefix_concat(enc_bytes(v.empty_vec@), enc_str(v.empty_string@) + (enc_int_run((v.zero, v.max_u8, v.min_i8, v.max_i8, v.max_u16, v.max_u32, v.negative))), suffix);
        }
    }
    match decode_bytes(buf, pos) {
        Err(e) => Err(e),
        Ok((f_empty_vec, u0)) => {
            proof {
                lemma_skip_skip(buf@, pos as int, u0 as int);
                assert forall|v: EdgeCases|
                    #![trigger enc_edge_cases(v)]
                    prefix_of(enc_edge_cases(v), suffix) implies prefix_of(
                    enc_str(v.empty_string@),
                    buf@.skip(pos + u0),
                ) && prefix_of(
                    enc_int_run((v.zero, v.max_u8, v.min_i8, v.max_i8, v.max_u16, v.max_u32, v.negative)),
                    buf@.skip(pos + u0).skip((enc_str(v.empty_string@)).len() as int),
                ) by {
                    lemma_prefix_concat(
                        enc_str(v.empty_string@),
                        enc_int_run((v.zero, v.max_u8, v.min_i8, v.max_i8, v.max_u16, v.max_u32, v.negative)),
                        buf@.skip(pos + u0),
                    );
                }
            }
            match decode_string(buf, pos + u0) {
                Err(e) => Err(e),
                Ok((f_empty_string, u1)) => {
                    proof {
                        lemma_skip_skip(buf@, pos + u0, u1 as int);
                        assert forall|v: EdgeCases|
                            #![trigger enc_edge_cases(v)]
                            prefix_of(enc_edge_cases(v), suffix) implies prefix_of(
                            enc_int_run((v.zero, v.max_u8, v.min_i8, v.max_i8, v.max_u16, v.max_u32, v.negative)),
                            buf@.skip(pos + u0 + u1),
                        ) by {
                        }
                    }
                    match decode_int_run(buf, pos + u0 + u1) {
                        Err(e) => Err(e),
                        Ok((f_ints, u2)) => {
                            let w = EdgeCases {
                        empty_vec: f_empty_vec,
                        empty_string: f_empty_string,
                        zero: f_ints.0,
                        max_u8: f_ints.1,
                        min_i8: f_ints.2,
                        max_i8: f_ints.3,
                        max_u16: f_ints.4,
                        max_u32: f_ints.5,
                        negative: f_ints.6,
                    };
                            proof {
                                assert(buf@.subrange(pos as int, pos + u0 + u1 + u2) =~= buf@.subrange(pos as int, pos + u0) + (buf@.subrange(pos + u0, pos + u0 + u1) + (buf@.subrange(pos + u0 + u1, pos + u0 + u1 + u2))));
                            }
                            Ok((w, u0 + u1 + u2))
                            },
                    }
                    },
            }
            },
    }
}

/// Wire image of a sequence of records: the encodings of the elements,
/// first to last.
pub open spec fn enc_inner_seq(ss: Seq<InnerStruct>) -> Seq<u8>
    decreases ss.len(),
{
    if ss.len() == 0 {
        Seq::empty()
    } else {
        enc_inner(ss[0]) + enc_inner_seq(ss.drop_first())
    }
}

/// Every element costs at least one byte on the wire.
pub proof fn lemma_enc_inner_seq_len_ge(ss: Seq<InnerStruct>)
    ensures
        enc_inner_seq(ss).len() >= ss.len(),
    decreases ss.len(),
{
    if ss.len() > 0 {
        lemma_enc_inner_seq_len_ge(ss.drop_first());
    }
}

/// Appending one element appends its encoding.
pub proof fn lemma_enc_inner_seq_push(ss: Seq<InnerStruct>, x: InnerStruct)
    ensures
        enc_inner_seq(ss.push(x)) == enc_inner_seq(ss) + enc_inner(x),
    decreases ss.len(),
{
    assert(ss.push(x)[0] == if ss.len() == 0 {
        x
    } else {
        ss[0]
    });
    if ss.len() == 0 {
        assert(ss.push(x).drop_first() =~= Seq::<InnerStruct>::empty());
        assert(enc_inner_seq(ss.push(x)) == enc_inner(x) + enc_inner_seq(Seq::<InnerStruct>::empty()));
        assert(enc_inner_seq(ss.push(x)) =~= enc_inner_seq(ss) + enc_inner(x));
    } else {
        assert(ss.push(x).drop_first() =~= ss.drop_first().push(x));
        lemma_enc_inner_seq_push(ss.drop_first(), x);
        assert(enc_inner_seq(ss.push(x)) == enc_inner(ss[0]) + enc_inner_seq(ss.drop_first().push(x)));
        assert(enc_inner_seq(ss.push(x)) =~= enc_inner_seq(ss) + enc_inner(x));
    }
}

/// The encoding of a sequence splits at any element boundary.
pub proof fn lemma_enc_inner_seq_split(ss: Seq<InnerStruct>, i: int)
    requires
        0 <= i <= ss.len(),
    ensures
        enc_inner_seq(ss) == enc_inner_seq(ss.take(i)) + enc_inner_seq(ss.skip(i)),
    decreases i,
{
    if i == 0 {
        assert(ss.take(0) =~= Seq::<InnerStruct>::empty());
        assert(ss.skip(0) =~= ss);
        assert(enc_inner_seq(ss) =~= enc_inner_seq(ss.take(0)) + enc_inner_seq(ss.skip(0)));
    } else {
        lemma_enc_inner_seq_split(ss.drop_first(), i - 1);
        assert(ss.take(i).drop_first() =~= ss.drop_first().take(i - 1));
        assert(ss.skip(i) =~= ss.drop_first().skip(i - 1));
        assert(enc_inner_seq(ss) =~= enc_inner_seq(ss.take(i)) + enc_inner_seq(ss.skip(i)));
    }
}

/// Wire image of a dynamic sequence of records: the element count as an
/// unsigned varint, then the elements.
pub open spec fn enc_inner_vec(ss: Seq<InnerStruct>) -> Seq<u8> {
    enc_uvarint(ss.len()) + enc_inner_seq(ss)
}

/// Value equality for sequences of records: same length, equal elements
/// at every index.
pub open spec fn inner_seq_eq(a: Seq<InnerStruct>, b: Seq<InnerStruct>) -> bool {
    a.len() == b.len() && forall|i: int| 0 <= i < a.len() ==> inner_eq(a[i], b[i])
}

/// Appends the count-prefixed encoding of a sequence of records.
pub fn encode_inner_vec(out: &mut Vec<u8>, v: &Vec<InnerStruct>)
    ensures
        final(out)@ == old(out)@ + enc_inner_vec(v@),
{
    encode_uvarint(out, v.len() as u128);
    let mut i: usize = 0;
    while i < v.len()
        invariant
            i <= v@.len(),
            out@ == old(out)@ + enc_uvarint(v@.len()) + enc_inner_seq(v@.take(i as int)),
        decreases v@.len() - i,
    {
        encode_inner(out, &v[i]);
        proof {
            lemma_enc_inner_seq_push(v@.take(i as int), v@[i as int]);
            assert(v@.take(i + 1) =~= v@.take(i as int).push(v@[i as int]));
        }
        i = i + 1;
    }
    proof {
        assert(v@.take(v@.len() as int) =~= v@);
    }
}

/// Reads a count-prefixed sequence of records at `pos`.
#[verifier::rlimit(100)]
#[verifier::spinoff_prover]
pub fn decode_inner_vec(buf: &[u8], pos: usize) -> (r: Result<(Vec<InnerStruct>, usize), DecodeError>)
    requires
        pos <= buf@.len(),
    ensures
        r matches Ok(p) ==> pos + enc_inner_vec(p.0@).len() <= buf@.len() && buf@.subrange(
            pos as int,
            pos + enc_inner_vec(p.0@).len(),
        ) == enc_inner_vec(p.0@) && p.1 == enc_inner_vec(p.0@).len(),
        forall|ss: Seq<InnerStruct>|
            #![trigger enc_inner_vec(ss)]
            prefix_of(enc_inner_vec(ss), buf@.skip(pos as int)) ==> (r matches Ok(p) && inner_seq_eq(
                p.0@,
                ss,
            ) && p.1 == enc_inner_vec(ss).len()),
        r is Err ==> (r == Err::<(Vec<InnerStruct>, usize), DecodeError>(DecodeError::MalformedVarint)
            || r == Err::<(Vec<InnerStruct>, usize), DecodeError>(DecodeError::TruncatedInput) || r
            == Err::<(Vec<InnerStruct>, usize), DecodeError>(DecodeError::InvalidUtf8) || r == Err::<
            (Vec<InnerStruct>, usize),
            DecodeError,
        >(DecodeError::InvalidOptionTag)),
{
    let buf_len: usize = buf.len();
    let ghost suffix = buf@.skip(pos as int);
    proof {
        assert(buf@.len() <= usize::MAX as nat);
        assert forall|ss: Seq<InnerStruct>|
            #![trigger enc_inner_vec(ss)]
            prefix_of(enc_inner_vec(ss), suffix) implies ss.len() <= usize::MAX as nat
            && prefix_of(enc_uvarint(ss.len()), suffix) && prefix_of(
            enc_inner_seq(ss),
            suffix.skip(enc_uvarint(ss.len()).len() as int),
        ) by {
            lemma_enc_inner_seq_len_ge(ss);
            lemma_prefix_concat(enc_uvarint(ss.len()), enc_inner_seq(ss), suffix);
        }
    }
    match decode_uvarint_max(buf, pos, usize::MAX as u128) {
        Err(e) => {
            proof {
                assert forall|ss: Seq<InnerStruct>| !prefix_of(enc_inner_vec(ss), suffix) by {
                    if prefix_of(enc_inner_vec(ss), suffix) {
                        assert(prefix_of(enc_uvarint((ss.len() as u128) as nat), suffix));
                    }
                }
            }
            Err(e)
        },
        Ok((n128, used0)) => {
            let n: usize = n128 as usize;
            let mut out: Vec<InnerStruct> = Vec::new();
            let mut cur: usize = pos + used0;
            let mut i: usize = 0;
            proof {
                assert(buf@.subrange(pos as int, cur as int) == enc_uvarint(n as nat));
                assert(enc_inner_seq(out@) =~= Seq::<u8>::empty());
                assert(buf@.subrange(pos as int, cur as int) =~= enc_uvarint(n as nat)
                    + enc_inner_seq(out@));
                assert forall|ss: Seq<InnerStruct>|
                    prefix_of(enc_inner_vec(ss), suffix) implies ss.len() == n && inner_seq_eq(
                    out@,
                    ss.take(0),
                ) && enc_inner_seq(ss.take(0)).len() == 0 by {
                    assert(ss.take(0) =~= Seq::<InnerStruct>::empty());
                }
            }
            while i < n
                invariant
                    i <= n,
                    out@.len() == i,
                    pos + used0 <= cur <= buf@.len(),
                    buf_len == buf@.len(),
                    used0 == enc_uvarint(n as nat).len(),
                    buf@.subrange(pos as int, cur as int) == enc_uvarint(n as nat) + enc_inner_seq(
                        out@,
                    ),
                    suffix == buf@.skip(pos as int),
                    forall|ss: Seq<InnerStruct>|
                        #![trigger enc_inner_vec(ss)]
                        prefix_of(enc_inner_vec(ss), suffix) ==> ss.len() == n && inner_seq_eq(
                            out@,
                            ss.take(i as int),
                        ) && cur == pos + used0 + enc_inner_seq(ss.take(i as int)).len(),
                decreases n - i,
            {
                proof {
                    assert forall|ss: Seq<InnerStruct>|
                        prefix_of(enc_inner_vec(ss), suffix) implies prefix_of(
                        enc_inner(ss[i as int]),
                        buf@.skip(cur as int),
                    ) by {
                        lemma_prefix_concat(enc_uvarint(ss.len()), enc_inner_seq(ss), suffix);
                        lemma_enc_inner_seq_split(ss, i as int);
                        lemma_prefix_concat(
                            enc_inner_seq(ss.take(i as int)),
                            enc_inner_seq(ss.skip(i as int)),
                            suffix.skip(used0 as int),
                        );
                        assert(ss.skip(i as int)[0] == ss[i as int]);
                        assert(ss.skip(i as int).drop_first() =~= ss.skip(i + 1));
                        assert(enc_inner_seq(ss.skip(i as int)) == enc_inner(ss[i as int])
                            + enc_inner_seq(ss.skip(i + 1)));
                        lemma_prefix_concat(
                            enc_inner(ss[i as int]),
                            enc_inner_seq(ss.skip(i + 1)),
                            suffix.skip(used0 as int).skip(
                                enc_inner_seq(ss.take(i as int)).len() as int,
                            ),
                        );
                        lemma_skip_skip(buf@, pos as int, used0 as int);
                        lemma_skip_skip(
                            buf@,
                            pos + used0,
                            enc_inner_seq(ss.take(i as int)).len() as int,
                        );
                    }
                }
                match decode_inner(buf, cur) {
                    Err(e) => {
                        proof {
                            assert forall|ss: Seq<InnerStruct>|
                                !prefix_of(enc_inner_vec(ss), suffix) by {
                                if prefix_of(enc_inner_vec(ss), suffix) {
                                    assert(prefix_of(enc_inner(ss[i as int]), buf@.skip(
                                        cur as int,
                                    )));
                                }
                            }
                        }
                        return Err(e);
                    },
                    Ok((s, used)) => {
                        proof {
                            lemma_enc_inner_seq_push(out@, s);
                            assert(cur + used <= buf_len);
                            assert(buf@.subrange(pos as int, cur + used) =~= buf@.subrange(
                                pos as int,
                                cur as int,
                            ) + buf@.subrange(cur as int, cur + used));
                            assert(buf@.subrange(pos as int, cur + used) =~= enc_uvarint(
                                n as nat,
                            ) + (enc_inner_seq(out@) + enc_inner(s)));
                            assert(enc_uvarint(n as nat) + (enc_inner_seq(out@) + enc_inner(s))
                                =~= enc_uvarint(n as nat) + enc_inner_seq(out@.push(s)));
                            assert forall|ss: Seq<InnerStruct>|
                                prefix_of(enc_inner_vec(ss), suffix) implies inner_seq_eq(
                                out@.push(s),
                                ss.take(i + 1),
                            ) && inner_eq(s, ss[i as int]) && enc_inner_seq(ss.take(i + 1)).len()
                                == enc_inner_seq(ss.take(i as int)).len() + (enc_inner(s)).len() by {
                                assert(ss.take(i + 1) =~= ss.take(i as int).push(ss[i as int]));
                                lemma_enc_inner_seq_push(ss.take(i as int), ss[i as int]);
                            }
                        }
                        out.push(s);
                        cur = cur + used;
                        i = i + 1;
                    },
                }
            }
            proof {
                assert(enc_inner_vec(out@) == enc_uvarint(n as nat) + enc_inner_seq(out@));
                assert forall|ss: Seq<InnerStruct>|
                    prefix_of(enc_inner_vec(ss), suffix) implies inner_seq_eq(out@, ss) && cur - pos
                    == enc_inner_vec(ss).len() by {
                    assert(ss.take(i as int) =~= ss);
                }
            }
            Ok((out, cur - pos))
        },
    }
}

/// Wire image of the mapping entry, a key and its value: the parts concatenated in declared order.
pub open spec fn enc_map_entry(v: (String, i32)) -> Seq<u8> {
    enc_str(v.0@) + (enc_ivarint(v.1 as int))
}

/// Value equality for the mapping entry, a key and its value: the parts agree.
pub open spec fn map_entry_eq(a: (String, i32), b: (String, i32)) -> bool {
    a.0@ == b.0@ && a.1 == b.1
}

/// Appends the encoding of the mapping entry, a key and its value, part by part.
pub fn encode_map_entry(out: &mut Vec<u8>, v: &(String, i32))
    ensures
        final(out)@ == old(out)@ + enc_map_entry(*v),
{
    encode_string(out, v.0.as_str());
    encode_i32(out, v.1);
    assert(final(out)@ =~= old(out)@ + enc_map_entry(*v));
}

/// Reads the mapping entry, a key and its value at `pos`, part by part, in declared order.
#[verifier::rlimit(100)]
pub fn decode_map_entry(buf: &[u8], pos: usize) -> (r: Result<((String, i32), usize), DecodeError>)
    requires
        pos <= buf@.len(),
    ensures
        r matches Ok(p) ==> pos + enc_map_entry(p.0).len() <= buf@.len() && buf@.subrange(
            pos as int,
            pos + enc_map_entry(p.0).len(),
        ) == enc_map_entry(p.0) && p.1 == enc_map_entry(p.0).len(),
        forall|v: (String, i32)|
            #![trigger enc_map_entry(v)]
            prefix_of(enc_map_entry(v), buf@.skip(pos as int)) ==> (r matches Ok(p) && map_entry_eq(
                p.0,
                v,
            ) && p.1 == enc_map_entry(v).len()),
        r is Err ==> (r == Err::<((String, i32), usize), DecodeError>(DecodeError::MalformedVarint)
            || r == Err::<((String, i32), usize), DecodeError>(DecodeError::TruncatedInput) || r
            == Err::<((String, i32), usize), DecodeError>(DecodeError::InvalidUtf8) || r == Err::<
            ((String, i32), usize),
            DecodeError,
        >(DecodeError::InvalidOptionTag)),
{
    let buf_len: usize = buf.len();
    let ghost suffix = buf@.skip(pos as int);
    proof {
        assert forall|v: (String, i32)|
            #![trigger enc_map_entry(v)]
            prefix_of(enc_map_entry(v), suffix) implies prefix_of(enc_str(v.0@), suffix)
            && prefix_of(enc_ivarint(v.1 as int), suffix.skip((enc_str(v.0@)).len() as int)) by {
            lemma_prefix_concat(enc_str(v.0@), enc_ivarint(v.1 as int), suffix);
        }
    }
    match decode_string(buf, pos) {
        Err(e) => Err(e),
        Ok((k, u0)) => {
            proof {
                lemma_skip_skip(buf@, pos as int, u0 as int);
                assert forall|v: (String, i32)|
                    #![trigger enc_map_entry(v)]
                    prefix_of(enc_map_entry(v), suffix) implies prefix_of(
                    enc_ivarint(v.1 as int),
                    buf@.skip(pos + u0),
                ) by {
                }
            }
            match decode_i32(buf, pos + u0) {
                Err(e) => Err(e),
                Ok((x, u1)) => {
                    let w = (k, x);
                    proof {
                        assert(buf@.subrange(pos as int, pos + u0 + u1) =~= buf@.subrange(pos as int, pos + u0) + (buf@.subrange(pos + u0, pos + u0 + u1)));
                    }
                    Ok((w, u0 + u1))
                    },
            }
            },
    }
}

/// Wire image of a sequence of mapping entries: the encodings of the elements,
/// first to last.
pub open spec fn enc_entry_seq(ss: Seq<(String, i32)>) -> Seq<u8>
    decreases ss.len(),
{
    if ss.len() == 0 {
        Seq::empty()
    } else {
        enc_map_entry(ss[0]) + enc_entry_seq(ss.drop_first())
    }
}

/// Every element costs at least one byte on the wire.
pub proof fn lemma_enc_entry_seq_len_ge(ss: Seq<(String, i32)>)
    ensures
        enc_entry_seq(ss).len() >= ss.len(),
    decreases ss.len(),
{
    if ss.len() > 0 {
        lemma_enc_entry_seq_len_ge(ss.drop_first());
    }
}

/// Appending one element appends its encoding.
pub proof fn lemma_enc_entry_seq_push(ss: Seq<(String, i32)>, x: (String, i32))
    ensures
        enc_entry_seq(ss.push(x)) == enc_entry_seq(ss) + enc_map_entry(x),
    decreases ss.len(),
{
    assert(ss.push(x)[0] == if ss.len() == 0 {
        x
    } else {
        ss[0]
    });
    if ss.len() == 0 {
        assert(ss.push(x).drop_first() =~= Seq::<(String, i32)>::empty());
        assert(enc_entry_seq(ss.push(x)) == enc_map_entry(x) + enc_entry_seq(Seq::<(String, i32)>::empty()));
        assert(enc_entry_seq(ss.push(x)) =~= enc_entry_seq(ss) + enc_map_entry(x));
    } else {
        assert(ss.push(x).drop_first() =~= ss.drop_first().push(x));
        lemma_enc_entry_seq_push(ss.drop_first(), x);
        assert(enc_entry_seq(ss.push(x)) == enc_map_entry(ss[0]) + enc_entry_seq(ss.drop_first().push(x)));
        assert(enc_entry_seq(ss.push(x)) =~= enc_entry_seq(ss) + enc_map_entry(x));
    }
}

/// The encoding of a sequence splits at any element boundary.
pub proof fn lemma_enc_entry_seq_split(ss: Seq<(String, i32)>, i: int)
    requires
        0 <= i <= ss.len(),
    ensures
        enc_entry_seq(ss) == enc_entry_seq(ss.take(i)) + enc_entry_seq(ss.skip(i)),
    decreases i,
{
    if i == 0 {
        assert(ss.take(0) =~= Seq::<(String, i32)>::empty());
        assert(ss.skip(0) =~= ss);
        assert(enc_entry_seq(ss) =~= enc_entry_seq(ss.take(0)) + enc_entry_seq(ss.skip(0)));
    } else {
        lemma_enc_entry_seq_split(ss.drop_first(), i - 1);
        assert(ss.take(i).drop_first() =~= ss.drop_first().take(i - 1));
        assert(ss.skip(i) =~= ss.drop_first().skip(i - 1));
        assert(enc_entry_seq(ss) =~= enc_entry_seq(ss.take(i)) + enc_entry_seq(ss.skip(i)));
    }
}

/// Wire image of a dynamic sequence of mapping entries: the element count as an
/// unsigned varint, then the elements.
pub open spec fn enc_entry_vec(ss: Seq<(String, i32)>) -> Seq<u8> {
    enc_uvarint(ss.len()) + enc_entry_seq(ss)
}

/// Value equality for sequences of mapping entries: same length, equal elements
/// at every index.
pub open spec fn entry_seq_eq(a: Seq<(String, i32)>, b: Seq<(String, i32)>) -> bool {
    a.len() == b.len() && forall|i: int| 0 <= i < a.len() ==> map_entry_eq(a[i], b[i])
}

/// Appends the count-prefixed encoding of a sequence of mapping entries.
pub fn encode_entry_vec(out: &mut Vec<u8>, v: &Vec<(String, i32)>)
    ensures
        final(out)@ == old(out)@ + enc_entry_vec(v@),
{
    encode_uvarint(out, v.len() as u128);
    let mut i: usize = 0;
    while i < v.len()
        invariant
            i <= v@.len(),
            out@ == old(out)@ + enc_uvarint(v@.len()) + enc_entry_seq(v@.take(i as int)),
        decreases v@.len() - i,
    {
        encode_map_entry(out, &v[i]);
        proof {
            lemma_enc_entry_seq_push(v@.take(i as int), v@[i as int]);
            assert(v@.take(i + 1) =~= v@.take(i as int).push(v@[i as int]));
        }
        i = i + 1;
    }
    proof {
        assert(v@.take(v@.len() as int) =~= v@);
    }
}

/// Reads a count-prefixed sequence of mapping entries at `pos`.
#[verifier::rlimit(100)]
#[verifier::spinoff_prover]
pub fn decode_entry_vec(buf: &[u8], pos: usize) -> (r: Result<(Vec<(String, i32)>, usize), DecodeError>)
    requires
        pos <= buf@.len(),
    ensures
        r matches Ok(p) ==> pos + enc_entry_vec(p.0@).len() <= buf@.len() && buf@.subrange(
            pos as int,
            pos + enc_entry_vec(p.0@).len(),
        ) == enc_entry_vec(p.0@) && p.1 == enc_entry_vec(p.0@).len(),
        forall|ss: Seq<(String, i32)>|
            #![trigger enc_entry_vec(ss)]
            prefix_of(enc_entry_vec(ss), buf@.skip(pos as int)) ==> (r matches Ok(p) && entry_seq_eq(
                p.0@,
                ss,
            ) && p.1 == enc_entry_vec(ss).len()),
        r is Err ==> (r == Err::<(Vec<(String, i32)>, usize), DecodeError>(DecodeError::MalformedVarint)
            || r == Err::<(Vec<(String, i32)>, usize), DecodeError>(DecodeError::TruncatedInput) || r
            == Err::<(Vec<(String, i32)>, usize), DecodeError>(DecodeError::InvalidUtf8) || r == Err::<
            (Vec<(String, i32)>, usize),
            DecodeError,
        >(DecodeError::InvalidOptionTag)),
{
    let buf_len: usize = buf.len();
    let ghost suffix = buf@.skip(pos as int);
    proof {
        assert(buf@.len() <= usize::MAX as nat);
        assert forall|ss: Seq<(String, i32)>|
            #![trigger enc_entry_vec(ss)]
            prefix_of(enc_entry_vec(ss), suffix) implies ss.len() <= usize::MAX as nat
            && prefix_of(enc_uvarint(ss.len()), suffix) && prefix_of(
            enc_entry_seq(ss),
            suffix.skip(enc_uvarint(ss.len()).len() as int),
        ) by {
            lemma_enc_entry_seq_len_ge(ss);
            lemma_prefix_concat(enc_uvarint(ss.len()), enc_entry_seq(ss), suffix);
        }
    }
    match decode_uvarint_max(buf, pos, usize::MAX as u128) {
        Err(e) => {
            proof {
                assert forall|ss: Seq<(String, i32)>| !prefix_of(enc_entry_vec(ss), suffix) by {
                    if prefix_of(enc_entry_vec(ss), suffix) {
                        assert(prefix_of(enc_uvarint((ss.len() as u128) as nat), suffix));
                    }
                }
            }
            Err(e)
        },
        Ok((n128, used0)) => {
            let n: usize = n128 as usize;
            let mut out: Vec<(String, i32)> = Vec::new();
            let mut cur: usize = pos + used0;
            let mut i: usize = 0;
            proof {
                assert(buf@.subrange(pos as int, cur as int) == enc_uvarint(n as nat));
                assert(enc_entry_seq(out@) =~= Seq::<u8>::empty());
                assert(buf@.subrange(pos as int, cur as int) =~= enc_uvarint(n as nat)
                    + enc_entry_seq(out@));
                assert forall|ss: Seq<(String, i32)>|
                    prefix_of(enc_entry_vec(ss), suffix) implies ss.len() == n && entry_seq_eq(
                    out@,
                    ss.take(0),
                ) && enc_entry_seq(ss.take(0)).len() == 0 by {
                    assert(ss.take(0) =~= Seq::<(String, i32)>::empty());
                }
            }
            while i < n
                invariant
                    i <= n,
                    out@.len() == i,
                    pos + used0 <= cur <= buf@.len(),
                    buf_len == buf@.len(),
                    used0 == enc_uvarint(n as nat).len(),
                    buf@.subrange(pos as int, cur as int) == enc_uvarint(n as nat) + enc_entry_seq(
                        out@,
                    ),
                    suffix == buf@.skip(pos as int),
                    forall|ss: Seq<(String, i32)>|
                        #![trigger enc_entry_vec(ss)]
                        prefix_of(enc_entry_vec(ss), suffix) ==> ss.len() == n && entry_seq_eq(
                            out@,
                            ss.take(i as int),
                        ) && cur == pos + used0 + enc_entry_seq(ss.take(i as int)).len(),
                decreases n - i,
            {
                proof {
                    assert forall|ss: Seq<(String, i32)>|
                        prefix_of(enc_entry_vec(ss), suffix) implies prefix_of(
                        enc_map_entry(ss[i as int]),
                        buf@.skip(cur as int),
                    ) by {
                        lemma_prefix_concat(enc_uvarint(ss.len()), enc_entry_seq(ss), suffix);
                        lemma_enc_entry_seq_split(ss, i as int);
                        lemma_prefix_concat(
                            enc_entry_seq(ss.take(i as int)),
                            enc_entry_seq(ss.skip(i as int)),
                            suffix.skip(used0 as int),
                        );
                        assert(ss.skip(i as int)[0] == ss[i as int]);
                        assert(ss.skip(i as int).drop_first() =~= ss.skip(i + 1));
                        assert(enc_entry_seq(ss.skip(i as int)) == enc_map_entry(ss[i as int])
                            + enc_entry_seq(ss.skip(i + 1)));
                        lemma_prefix_concat(
                            enc_map_entry(ss[i as int]),
                            enc_entry_seq(ss.skip(i + 1)),
                            suffix.skip(used0 as int).skip(
                                enc_entry_seq(ss.take(i as int)).len() as int,
                            ),
                        );
                        lemma_skip_skip(buf@, pos as int, used0 as int);
                        lemma_skip_skip(
                            buf@,
                            pos + used0,
                            enc_entry_seq(ss.take(i as int)).len() as int,
                        );
                    }
                }
                match decode_map_entry(buf, cur) {
                    Err(e) => {
                        proof {
                            assert forall|ss: Seq<(String, i32)>|
                                !prefix_of(enc_entry_vec(ss), suffix) by {
                                if prefix_of(enc_entry_vec(ss), suffix) {
                                    assert(prefix_of(enc_map_entry(ss[i as int]), buf@.skip(
                                        cur as int,
                                    )));
                                }
                            }
                        }
                        return Err(e);
                    },
                    Ok((s, used)) => {
                        proof {
                            lemma_enc_entry_seq_push(out@, s);
                            assert(cur + used <= buf_len);
                            assert(buf@.subrange(pos as int, cur + used) =~= buf@.subrange(
                                pos as int,
                                cur as int,
                            ) + buf@.subrange(cur as int, cur + used));
                            assert(buf@.subrange(pos as int, cur + used) =~= enc_uvarint(
                                n as nat,
                            ) + (enc_entry_seq(out@) + enc_map_entry(s)));
                            assert(enc_uvarint(n as nat) + (enc_entry_seq(out@) + enc_map_entry(s))
                                =~= enc_uvarint(n as nat) + enc_entry_seq(out@.push(s)));
                            assert forall|ss: Seq<(String, i32)>|
                                prefix_of(enc_entry_vec(ss), suffix) implies entry_seq_eq(
                                out@.push(s),
                                ss.take(i + 1),
                            ) && map_entry_eq(s, ss[i as int]) && enc_entry_seq(ss.take(i + 1)).len()
                                == enc_entry_seq(ss.take(i as int)).len() + (enc_map_entry(s)).len() by {
                                assert(ss.take(i + 1) =~= ss.take(i as int).push(ss[i as int]));
                                lemma_enc_entry_seq_push(ss.take(i as int), ss[i as int]);
                            }
                        }
                        out.push(s);
                        cur = cur + used;
                        i = i + 1;
                    },
                }
            }
            proof {
                assert(enc_entry_vec(out@) == enc_uvarint(n as nat) + enc_entry_seq(out@));
                assert forall|ss: Seq<(String, i32)>|
                    prefix_of(enc_entry_vec(ss), suffix) implies entry_seq_eq(out@, ss) && cur - pos
                    == enc_entry_vec(ss).len() by {
                    assert(ss.take(i as int) =~= ss);
                }
            }
            Ok((out, cur - pos))
        },
    }
}

/// An ordered mapping from text keys to 32-bit signed values, kept as a
/// sequence of entries.  The format guarantees key uniqueness, not entry
/// order, so this type pins an explicit policy: entries keep their insertion
/// order, and [`StringIntMap::insert`] replaces the value of a key that is
/// already present instead of adding a second entry.
#[derive(Debug, Clone, PartialEq)]
pub struct StringIntMap {
    pub entries: Vec<(String, i32)>,
}

/// No key occurs twice among the entries.
pub open spec fn map_wf(m: StringIntMap) -> bool {
    forall|i: int, j: int|
        0 <= i < j < m.entries@.len() ==> m.entries@[i].0@ != m.entries@[j].0@
}

/// The value stored under `key`, scanning entries front to back.
pub open spec fn map_get(entries: Seq<(String, i32)>, key: Seq<char>) -> Option<i32>
    decreases entries.len(),
{
    if entries.len() == 0 {
        None
    } else if entries[0].0@ == key {
        Some(entries[0].1)
    } else {
        map_get(entries.drop_first(), key)
    }
}

impl StringIntMap {
    /// An empty mapping.
    pub fn new() -> (r: StringIntMap)
        ensures
            r.entries@.len() == 0,
            map_wf(r),
    {
        StringIntMap { entries: Vec::new() }
    }

    /// Binds `key` to `value`: replaces the value of an existing entry with
    /// that key, else appends a new entry, so key uniqueness is kept and
    /// insertion order is stable.
    pub fn insert(&mut self, key: String, value: i32)
        requires
            map_wf(*old(self)),
        ensures
            map_wf(*final(self)),
            map_get(final(self).entries@, key@) == Some(value),
            forall|k: Seq<char>|
                k != key@ ==> map_get(final(self).entries@, k) == map_get(old(self).entries@, k),
    {
        let ghost orig = self.entries@;
        let ghost kview = key@;
        let mut i: usize = 0;
        while i < self.entries.len()
            invariant
                i <= self.entries@.len(),
                self.entries@ == orig,
                orig == old(self).entries@,
                kview == key@,
                map_wf(*self),
                forall|j: int| 0 <= j < i ==> orig[j].0@ != kview,
            decreases self.entries@.len() - i,
        {
            let hit: bool = self.entries[i].0.eq(&key);
            if hit {
                assert(orig[i as int].0@ == kview);
                self.entries[i] = (key, value);
                proof {
                    assert forall|a: int, b: int|
                        0 <= a < b < self.entries@.len() implies self.entries@[a].0@
                        != self.entries@[b].0@ by {
                        assert(self.entries@[a].0@ == orig[a].0@);
                        assert(self.entries@[b].0@ == orig[b].0@);
                    }
                    lemma_map_get_update(orig, self.entries@, kview, value, i as int);
                    assert(map_get(self.entries@, kview) == Some(value));
                    assert forall|k: Seq<char>|
                        k != kview implies map_get(self.entries@, k) == map_get(orig, k) by {
                    }
                }
                return ;
            }
            i = i + 1;
        }
        proof {
            lemma_map_get_absent(orig, key@);
        }
        let ghost e = (key, value);
        self.entries.push((key, value));
        proof {
            assert forall|a: int, b: int|
                0 <= a < b < self.entries@.len() implies self.entries@[a].0@
                != self.entries@[b].0@ by {
                if b < orig.len() {
                    assert(self.entries@[a] == orig[a] && self.entries@[b] == orig[b]);
                } else {
                    assert(self.entries@[a] == orig[a] && self.entries@[b] == e);
                }
            }
            assert forall|k: Seq<char>|
                #![trigger map_get(self.entries@, k)]
                true implies map_get(self.entries@, k) == if map_get(orig, k) is Some {
                map_get(orig, k)
            } else if k == key@ {
                Some(value)
            } else {
                None
            } by {
                lemma_map_get_push(orig, e, k);
            }
        }
    }
}

/// Replacing the entry at the (unique) index holding `key` updates that
/// key's lookup and leaves every other key's lookup unchanged.
proof fn lemma_map_get_update(
    orig: Seq<(String, i32)>,
    upd: Seq<(String, i32)>,
    key: Seq<char>,
    value: i32,
    at: int,
)
    requires
        0 <= at < orig.len(),
        upd.len() == orig.len(),
        orig[at].0@ == key,
        upd[at].0@ == key,
        upd[at].1 == value,
        forall|j: int| 0 <= j < orig.len() && j != at ==> upd[j] == orig[j],
        forall|j: int| 0 <= j < at ==> orig[j].0@ != key,
    ensures
        map_get(upd, key) == Some(value),
        forall|k: Seq<char>| k != key ==> map_get(upd, k) == map_get(orig, k),
    decreases orig.len(),
{
    if at == 0 {
        assert forall|k: Seq<char>| k != key implies map_get(upd, k) == map_get(orig, k) by {
            assert(upd.drop_first() =~= orig.drop_first());
        }
    } else {
        assert(upd[0] == orig[0]);
        assert(upd.drop_first().len() == orig.drop_first().len());
        assert(orig.drop_first()[at - 1] == orig[at]);
        assert(upd.drop_first()[at - 1] == upd[at]);
        assert forall|j: int|
            0 <= j < orig.drop_first().len() && j != at - 1 implies upd.drop_first()[j]
            == orig.drop_first()[j] by {
            assert(upd[j + 1] == orig[j + 1]);
        }
        assert forall|j: int| 0 <= j < at - 1 implies orig.drop_first()[j].0@ != key by {
            assert(orig[j + 1].0@ != key);
        }
        lemma_map_get_update(orig.drop_first(), upd.drop_first(), key, value, at - 1);
        assert(map_get(upd, key) == map_get(upd.drop_first(), key));
        assert forall|k: Seq<char>| k != key implies map_get(upd, k) == map_get(orig, k) by {
            assert(map_get(upd.drop_first(), k) == map_get(orig.drop_first(), k));
        }
    }
}

/// A key that no entry holds looks up to nothing.
proof fn lemma_map_get_absent(entries: Seq<(String, i32)>, key: Seq<char>)
    requires
        forall|j: int| 0 <= j < entries.len() ==> entries[j].0@ != key,
    ensures
        map_get(entries, key) is None,
    decreases entries.len(),
{
    if entries.len() > 0 {
        assert forall|j: int|
            0 <= j < entries.drop_first().len() implies entries.drop_first()[j].0@ != key by {
            assert(entries[j + 1].0@ != key);
        }
        lemma_map_get_absent(entries.drop_first(), key);
    }
}

/// Appending an entry changes only the lookup of keys that were absent.
proof fn lemma_map_get_push(orig: Seq<(String, i32)>, e: (String, i32), k: Seq<char>)
    ensures
        map_get(orig.push(e), k) == if map_get(orig, k) is Some {
            map_get(orig, k)
        } else if e.0@ == k {
            Some(e.1)
        } else {
            None
        },
    decreases orig.len(),
{
    if orig.len() == 0 {
        assert(orig.push(e)[0] == e);
        assert(orig.push(e).drop_first() =~= Seq::<(String, i32)>::empty());
        assert(map_get(Seq::<(String, i32)>::empty(), k) is None);
        assert(map_get(orig.push(e), k) == if e.0@ == k {
            Some(e.1)
        } else {
            None
        });
    } else {
        assert(orig.push(e)[0] == orig[0]);
        assert(orig.push(e).drop_first() =~= orig.drop_first().push(e));
        lemma_map_get_push(orig.drop_first(), e, k);
        assert(map_get(orig, k) == if orig[0].0@ == k {
            Some(orig[0].1)
        } else {
            map_get(orig.drop_first(), k)
        });
    }
}

/// Wire image of the mapping: its entries as a count-prefixed sequence.
pub open spec fn enc_map(m: StringIntMap) -> Seq<u8> {
    enc_entry_vec(m.entries@)
}

/// Value equality for mappings: the entry sequences agree.
pub open spec fn map_eq(a: StringIntMap, b: StringIntMap) -> bool {
    entry_seq_eq(a.entries@, b.entries@)
}

/// Appends the encoding of the mapping: entry count, then the entries in
/// stored order.
pub fn encode_map(out: &mut Vec<u8>, m: &StringIntMap)
    ensures
        final(out)@ == old(out)@ + enc_map(*m),
{
    encode_entry_vec(out, &m.entries);
}

/// Reads a mapping at `pos`: an entry count, then that many entries.
pub fn decode_map(buf: &[u8], pos: usize) -> (r: Result<(StringIntMap, usize), DecodeError>)
    requires
        pos <= buf@.len(),
    ensures
        r matches Ok(p) ==> pos + enc_map(p.0).len() <= buf@.len() && buf@.subrange(
            pos as int,
            pos + enc_map(p.0).len(),
        ) == enc_map(p.0) && p.1 == enc_map(p.0).len(),
        forall|m: StringIntMap|
            #![trigger enc_map(m)]
            prefix_of(enc_map(m), buf@.skip(pos as int)) ==> (r matches Ok(p) && map_eq(p.0, m)
                && p.1 == enc_map(m).len()),
        r is Err ==> (r == Err::<(StringIntMap, usize), DecodeError>(DecodeError::MalformedVarint)
            || r == Err::<(StringIntMap, usize), DecodeError>(DecodeError::TruncatedInput) || r
            == Err::<(StringIntMap, usize), DecodeError>(DecodeError::InvalidUtf8) || r == Err::<
            (StringIntMap, usize),
            DecodeError,
        >(DecodeError::InvalidOptionTag)),
{
    match decode_entry_vec(buf, pos) {
        Err(e) => Err(e),
        Ok((entries, used)) => {
            let w = StringIntMap { entries };
            assert forall|m: StringIntMap|
                prefix_of(enc_map(m), buf@.skip(pos as int)) implies map_eq(w, m) && used
                == enc_map(m).len() by {
                assert(prefix_of(enc_entry_vec(m.entries@), buf@.skip(pos as int)));
            }
            Ok((w, used))
        },
    }
}

/// A record that nests another record, a mapping and a sequence of
/// records.
#[derive(Debug, Clone, PartialEq)]
pub struct Nested {
    pub inner: InnerStruct,
    pub map: StringIntMap,
    pub vec_of_structs: Vec<InnerStruct>,
}

/// Wire image of the nesting record: the parts concatenated in declared order.
pub open spec fn enc_nested(v: Nested) -> Seq<u8> {
    enc_inner(v.inner) + (enc_map(v.map) + (enc_inner_vec(v.vec_of_structs@)))
}

/// Value equality for the nesting record: the parts agree.
pub open spec fn nested_eq(a: Nested, b: Nested) -> bool {
    inner_eq(a.inner, b.inner) && map_eq(a.map, b.map) && inner_seq_eq(
        a.vec_of_structs@,
        b.vec_of_structs@,
    )
}

/// Appends the encoding of the nesting record, part by part.
pub fn encode_nested(out: &mut Vec<u8>, v: &Nested)
    ensures
        final(out)@ == old(out)@ + enc_nested(*v),
{
    encode_inner(out, &v.inner);
    encode_map(out, &v.map);
    encode_inner_vec(out, &v.vec_of_structs);
    assert(final(out)@ =~= old(out)@ + enc_nested(*v));
}

/// Reads the nesting record at `pos`, part by part, in declared order.
#[verifier::rlimit(100)]
pub fn decode_nested(buf: &[u8], pos: usize) -> (r: Result<(Nested, usize), DecodeError>)
    requires
        pos <= buf@.len(),
    ensures
        r matches Ok(p) ==> pos + enc_nested(p.0).len() <= buf@.len() && buf@.subrange(
            pos as int,
            pos + enc_nested(p.0).len(),
        ) == enc_nested(p.0) && p.1 == enc_nested(p.0).len(),
        forall|v: Nested|
            #![trigger enc_nested(v)]
            prefix_of(enc_nested(v), buf@.skip(pos as int)) ==> (r matches Ok(p) && nested_eq(
                p.0,
                v,
            ) && p.1 == enc_nested(v).len()),
        r is Err ==> (r == Err::<(Nested, usize), DecodeError>(DecodeError::MalformedVarint)
            || r == Err::<(Nested, usize), DecodeError>(DecodeError::TruncatedInput) || r
            == Err::<(Nested, usize), DecodeError>(DecodeError::InvalidUtf8) || r == Err::<
            (Nested, usize),
            DecodeError,
        >(DecodeError::InvalidOptionTag)),
{
    let buf_len: usize = buf.len();
    let ghost suffix = buf@.skip(pos as int);
    proof {
        assert forall|v: Nested|
            #![trigger enc_nested(v)]
            prefix_of(enc_nested(v), suffix) implies prefix_of(enc_inner(v.inner), suffix)
            && prefix_of(enc_map(v.map) + (enc_inner_vec(v.vec_of_structs@)), suffix.skip((enc_inner(v.inner)).len() as int)) by {
            lemma_prefix_concat(enc_inner(v.inner), enc_map(v.map) + (enc_inner_vec(v.vec_of_structs@)), suffix);
        }
    }
    match decode_inner(buf, pos) {
        Err(e) => Err(e),
        Ok((f_inner, u0)) => {
            proof {
                lemma_skip_skip(buf@, pos as int, u0 as int);
                assert forall|v: Nested|
                    #![trigger enc_nested(v)]
                    prefix_of(enc_nested(v), suffix) implies prefix_of(
                    enc_map(v.map),
                    buf@.skip(pos + u0),
                ) && prefix_of(
                    enc_inner_vec(v.vec_of_structs@),
                    buf@.skip(pos + u0).skip((enc_map(v.map)).len() as int),
                ) by {
                    lemma_prefix_concat(
                        enc_map(v.map),
                        enc_inner_vec(v.vec_of_structs@),
                        buf@.skip(pos + u0),
                    );
                }
            }
            match decode_map(buf, pos + u0) {
                Err(e) => Err(e),
                Ok((f_map, u1)) => {
                    proof {
                        lemma_skip_skip(buf@, pos + u0, u1 as int);
                        assert forall|v: Nested|
                            #![trigger enc_nested(v)]
                            prefix_of(enc_nested(v), suffix) implies prefix_of(
                            enc_inner_vec(v.vec_of_structs@),
                            buf@.skip(pos + u0 + u1),
                        ) by {
                        }
                    }
                    match decode_inner_vec(buf, pos + u0 + u1) {
                        Err(e) => Err(e),
                        Ok((f_vec, u2)) => {
                            let w = Nested { inner: f_inner, map: f_map, vec_of_structs: f_vec };
                            proof {
                                assert(buf@.subrange(pos as int, pos + u0 + u1 + u2) =~= buf@.subrange(pos as int, pos + u0) + (buf@.subrange(pos + u0, pos + u0 + u1) + (buf@.subrange(pos + u0 + u1, pos + u0 + u1 + u2))));
                            }
                            Ok((w, u0 + u1 + u2))
                            },
                    }
                    },
            }
            },
    }
}

/// Equal values have identical encodings: the encoder is a function of
/// the value alone, so encoding is deterministic.
pub proof fn lemma_enc_inner_congruence(a: InnerStruct, b: InnerStruct)
    requires
        inner_eq(a, b),
    ensures
        enc_inner(a) == enc_inner(b),
{

}

/// Sequences of equal elements have identical encodings.
pub proof fn lemma_enc_str_seq_congruence(a: Seq<String>, b: Seq<String>)
    requires
        str_seq_eq(a, b),
    ensures
        enc_str_seq(a) == enc_str_seq(b),
    decreases a.len(),
{
    if a.len() > 0 {
        assert(str_seq_eq(a.drop_first(), b.drop_first())) by {
            assert forall|i: int|
                0 <= i < a.drop_first().len() implies a.drop_first()[i]@ == b.drop_first()[i]@ by {
                assert(a.drop_first()[i] == a[i + 1]);
                assert(b.drop_first()[i] == b[i + 1]);
                assert(a[i + 1]@ == b[i + 1]@);
            }
        }
        lemma_enc_str_seq_congruence(a.drop_first(), b.drop_first());
        assert(enc_str(a[0]@) == enc_str(b[0]@));
    }
}

/// Count-prefixed sequences of equal text have identical encodings.
pub proof fn lemma_enc_vec_string_congruence(a: Seq<String>, b: Seq<String>)
    requires
        str_seq_eq(a, b),
    ensures
        enc_vec_string(a) == enc_vec_string(b),
{
    lemma_enc_str_seq_congruence(a, b);
}

/// Sequences of equal elements have identical encodings.
pub proof fn lemma_enc_inner_seq_congruence(a: Seq<InnerStruct>, b: Seq<InnerStruct>)
    requires
        inner_seq_eq(a, b),
    ensures
        enc_inner_seq(a) == enc_inner_seq(b),
    decreases a.len(),
{
    if a.len() > 0 {
        assert(inner_seq_eq(a.drop_first(), b.drop_first())) by {
            assert forall|i: int|
                0 <= i < a.drop_first().len() implies inner_eq(a.drop_first()[i], b.drop_first()[i]) by {
                assert(a.drop_first()[i] == a[i + 1]);
                assert(b.drop_first()[i] == b[i + 1]);
                assert(inner_eq(a[i + 1], b[i + 1]));
            }
        }
        lemma_enc_inner_seq_congruence(a.drop_first(), b.drop_first());
        lemma_enc_inner_congruence(a[0], b[0]);
    }
}

/// Equal values have identical encodings: the encoder is a function of
/// the value alone, so encoding is deterministic.
pub proof fn lemma_enc_map_entry_congruence(a: (String, i32), b: (String, i32))
    requires
        map_entry_eq(a, b),
    ensures
        enc_map_entry(a) == enc_map_entry(b),
{

}

/// Sequences of equal elements have identical encodings.
pub proof fn lemma_enc_entry_seq_congruence(a: Seq<(String, i32)>, b: Seq<(String, i32)>)
    requires
        entry_seq_eq(a, b),
    ensures
        enc_entry_seq(a) == enc_entry_seq(b),
    decreases a.len(),
{
    if a.len() > 0 {
        assert(entry_seq_eq(a.drop_first(), b.drop_first())) by {
            assert forall|i: int|
                0 <= i < a.drop_first().len() implies map_entry_eq(a.drop_first()[i], b.drop_first()[i]) by {
                assert(a.drop_first()[i] == a[i + 1]);
                assert(b.drop_first()[i] == b[i + 1]);
                assert(map_entry_eq(a[i + 1], b[i + 1]));
            }
        }
        lemma_enc_entry_seq_congruence(a.drop_first(), b.drop_first());
        lemma_enc_map_entry_congruence(a[0], b[0]);
    }
}

/// Equal values have identical encodings: the encoder is a function of
/// the value alone, so encoding is deterministic.
pub proof fn lemma_enc_map_congruence(a: StringIntMap, b: StringIntMap)
    requires
        map_eq(a, b),
    ensures
        enc_map(a) == enc_map(b),
{
    lemma_enc_entry_seq_congruence(a.entries@, b.entries@);
}

/// Equal values have identical encodings: the encoder is a function of
/// the value alone, so encoding is deterministic.
pub proof fn lemma_enc_tuple_struct_congruence(a: TupleStruct, b: TupleStruct)
    requires
        tuple_struct_eq(a, b),
    ensures
        enc_tuple_struct(a) == enc_tuple_struct(b),
{

}

/// Equal values have identical encodings: the encoder is a function of
/// the value alone, so encoding is deterministic.
pub proof fn lemma_enc_tuple_mixed_congruence(a: (u16, String, bool), b: (u16, String, bool))
    requires
        tuple_mixed_eq(a, b),
    ensures
        enc_tuple_mixed(a) == enc_tuple_mixed(b),
{

}

/// Equal values have identical encodings: the encoder is a function of
/// the value alone, so encoding is deterministic.
pub proof fn lemma_enc_collections_congruence(a: Collections, b: Collections)
    requires
        collections_eq(a, b),
    ensures
        enc_collections(a) == enc_collections(b),
{
    lemma_enc_str_seq_congruence(a.vec_string@, b.vec_string@);
    lemma_enc_tuple_mixed_congruence(a.tuple_mixed, b.tuple_mixed);
}

/// Equal values have identical encodings: the encoder is a function of
/// the value alone, so encoding is deterministic.
pub proof fn lemma_enc_edge_cases_congruence(a: EdgeCases, b: EdgeCases)
    requires
        edge_cases_eq(a, b),
    ensures
        enc_edge_cases(a) == enc_edge_cases(b),
{

}

/// Equal values have identical encodings: the encoder is a function of
/// the value alone, so encoding is deterministic.
pub proof fn lemma_enc_nested_congruence(a: Nested, b: Nested)
    requires
        nested_eq(a, b),
    ensures
        enc_nested(a) == enc_nested(b),
{
    lemma_enc_map_congruence(a.map, b.map);
    lemma_enc_inner_seq_congruence(a.vec_of_structs@, b.vec_of_structs@);
}

} // verus!
