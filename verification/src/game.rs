//! Game-state shapes: the sum types and records of the sample domain,
//! composed from the primitive and structured encoders.
//!
//! A sum type travels as its zero-based variant index (an unsigned varint)
//! followed by the payload shaped per that variant's own kind: nothing for
//! a unit variant, one value for a newtype variant, the named fields in
//! order for a record variant.

use vstd::prelude::*;

use crate::DecodeError;
use crate::prefix_of;
use crate::lemma_prefix_concat;
use crate::lemma_skip_skip;
use crate::varint::{
    enc_uvarint, encode_uvarint, decode_uvarint_max, lemma_enc_uvarint_prefix, encode_u8,
    decode_u8, encode_u16, decode_u16, encode_u32, decode_u32, encode_u64, decode_u64,
};
use crate::prim::{enc_str, encode_string, decode_string};

verus! {

/// Elemental damage kinds a weapon can carry.
#[derive(Debug, Clone, Copy, PartialEq, Eq, Structural)]
pub enum Element {
    Fire,
    Ice,
    Lightning,
}

/// The zero-based declaration index of a [`Element`] variant.
pub open spec fn element_idx(v: Element) -> nat {
    match v {
        Element::Fire => 0,
        Element::Ice => 1,
        Element::Lightning => 2,
    }
}

/// Wire image of a [`Element`]: its variant index as an unsigned
/// varint, with no payload, since every variant is a unit variant.
pub open spec fn enc_element(v: Element) -> Seq<u8> {
    enc_uvarint(element_idx(v))
}

/// Appends the encoding of a [`Element`] variant.
pub fn encode_element(out: &mut Vec<u8>, v: &Element)
    ensures
        final(out)@ == old(out)@ + enc_element(*v),
{
    match v {
        Element::Fire => encode_u32(out, 0),
        Element::Ice => encode_u32(out, 1),
        Element::Lightning => encode_u32(out, 2),
    }
}

/// Reads a [`Element`] at `pos`: a variant index, which must be below
/// the declared variant count of 3.
pub fn decode_element(buf: &[u8], pos: usize) -> (r: Result<(Element, usize), DecodeError>)
    requires
        pos <= buf@.len(),
    ensures
        r matches Ok(p) ==> pos + enc_element(p.0).len() <= buf@.len() && buf@.subrange(
            pos as int,
            pos + enc_element(p.0).len(),
        ) == enc_element(p.0) && p.1 == enc_element(p.0).len(),
        forall|v: Element|
            prefix_of(enc_element(v), buf@.skip(pos as int)) ==> r == Ok::<
                (Element, usize),
                DecodeError,
            >((v, enc_element(v).len() as usize)),
        forall|n: u32|
            n >= 3 && prefix_of(enc_uvarint(n as nat), buf@.skip(pos as int)) ==> r == Err::<
                (Element, usize),
                DecodeError,
            >(DecodeError::UnknownVariant),
        r is Err ==> (r == Err::<(Element, usize), DecodeError>(DecodeError::MalformedVarint)
            || r == Err::<(Element, usize), DecodeError>(DecodeError::UnknownVariant)),
{
    let ghost suffix = buf@.skip(pos as int);
    match decode_u32(buf, pos) {
        Err(e) => {
            proof {
                assert forall|v: Element| !prefix_of(enc_element(v), suffix) by {
                    if prefix_of(enc_element(v), suffix) {
                        assert(prefix_of(enc_uvarint((element_idx(v) as u32) as nat), suffix));
                    }
                }
            }
            Err(e)
        },
        Ok((n, used)) => {
            proof {
                assert(prefix_of(enc_uvarint(n as nat), suffix)) by {
                    assert(suffix.take(enc_uvarint(n as nat).len() as int) =~= enc_uvarint(
                        n as nat,
                    ));
                }
                assert forall|v: Element|
                    prefix_of(enc_element(v), suffix) implies element_idx(v) == n as nat by {
                    lemma_enc_uvarint_prefix(element_idx(v), n as nat, suffix);
                }
                assert forall|m: u32|
                    prefix_of(enc_uvarint(m as nat), suffix) implies m == n by {
                    lemma_enc_uvarint_prefix(m as nat, n as nat, suffix);
                }
            }
            if n == 0 {
                Ok((Element::Fire, used))
            } else if n == 1 {
                Ok((Element::Ice, used))
            } else if n == 2 {
                Ok((Element::Lightning, used))
            } else {
                Err(DecodeError::UnknownVariant)
            }
        },
    }
}

/// The colors a dragon can have.
#[derive(Debug, Clone, Copy, PartialEq, Eq, Structural)]
pub enum DragonColor {
    Red,
    Blue,
    Green,
}

/// The zero-based declaration index of a [`DragonColor`] variant.
pub open spec fn dragon_color_idx(v: DragonColor) -> nat {
    match v {
        DragonColor::Red => 0,
        DragonColor::Blue => 1,
        DragonColor::Green => 2,
    }
}

/// Wire image of a [`DragonColor`]: its variant index as an unsigned
/// varint, with no payload, since every variant is a unit variant.
pub open spec fn enc_dragon_color(v: DragonColor) -> Seq<u8> {
    enc_uvarint(dragon_color_idx(v))
}

/// Appends the encoding of a [`DragonColor`] variant.
pub fn encode_dragon_color(out: &mut Vec<u8>, v: &DragonColor)
    ensures
        final(out)@ == old(out)@ + enc_dragon_color(*v),
{
    match v {
        DragonColor::Red => encode_u32(out, 0),
        DragonColor::Blue => encode_u32(out, 1),
        DragonColor::Green => encode_u32(out, 2),
    }
}

/// Reads a [`DragonColor`] at `pos`: a variant index, which must be below
/// the declared variant count of 3.
pub fn decode_dragon_color(buf: &[u8], pos: usize) -> (r: Result<(DragonColor, usize), DecodeError>)
    requires
        pos <= buf@.len(),
    ensures
        r matches Ok(p) ==> pos + enc_dragon_color(p.0).len() <= buf@.len() && buf@.subrange(
            pos as int,
            pos + enc_dragon_color(p.0).len(),
        ) == enc_dragon_color(p.0) && p.1 == enc_dragon_color(p.0).len(),
        forall|v: DragonColor|
            prefix_of(enc_dragon_color(v), buf@.skip(pos as int)) ==> r == Ok::<
                (DragonColor, usize),
                DecodeError,
            >((v, enc_dragon_color(v).len() as usize)),
        forall|n: u32|
            n >= 3 && prefix_of(enc_uvarint(n as nat), buf@.skip(pos as int)) ==> r == Err::<
                (DragonColor, usize),
                DecodeError,
            >(DecodeError::UnknownVariant),
        r is Err ==> (r == Err::<(DragonColor, usize), DecodeError>(DecodeError::MalformedVarint)
            || r == Err::<(DragonColor, usize), DecodeError>(DecodeError::UnknownVariant)),
{
    let ghost suffix = buf@.skip(pos as int);
    match decode_u32(buf, pos) {
        Err(e) => {
            proof {
                assert forall|v: DragonColor| !prefix_of(enc_dragon_color(v), suffix) by {
                    if prefix_of(enc_dragon_color(v), suffix) {
                        assert(prefix_of(enc_uvarint((dragon_color_idx(v) as u32) as nat), suffix));
                    }
                }
            }
            Err(e)
        },
        Ok((n, used)) => {
            proof {
                assert(prefix_of(enc_uvarint(n as nat), suffix)) by {
                    assert(suffix.take(enc_uvarint(n as nat).len() as int) =~= enc_uvarint(
                        n as nat,
                    ));
                }
                assert forall|v: DragonColor|
                    prefix_of(enc_dragon_color(v), suffix) implies dragon_color_idx(v) == n as nat by {
                    lemma_enc_uvarint_prefix(dragon_color_idx(v), n as nat, suffix);
                }
                assert forall|m: u32|
                    prefix_of(enc_uvarint(m as nat), suffix) implies m == n by {
                    lemma_enc_uvarint_prefix(m as nat, n as nat, suffix);
                }
            }
            if n == 0 {
                Ok((DragonColor::Red, used))
            } else if n == 1 {
                Ok((DragonColor::Blue, used))
            } else if n == 2 {
                Ok((DragonColor::Green, used))
            } else {
                Err(DecodeError::UnknownVariant)
            }
        },
    }
}

/// The difficulty levels of a play session.
#[derive(Debug, Clone, Copy, PartialEq, Eq, Structural)]
pub enum Difficulty {
    Easy,
    Normal,
    Hard,
}

/// The zero-based declaration index of a [`Difficulty`] variant.
pub open spec fn difficulty_idx(v: Difficulty) -> nat {
    match v {
        Difficulty::Easy => 0,
        Difficulty::Normal => 1,
        Difficulty::Hard => 2,
    }
}

/// Wire image of a [`Difficulty`]: its variant index as an unsigned
/// varint, with no payload, since every variant is a unit variant.
pub open spec fn enc_difficulty(v: Difficulty) -> Seq<u8> {
    enc_uvarint(difficulty_idx(v))
}

/// Appends the encoding of a [`Difficulty`] variant.
pub fn encode_difficulty(out: &mut Vec<u8>, v: &Difficulty)
    ensures
        final(out)@ == old(out)@ + enc_difficulty(*v),
{
    match v {
        Difficulty::Easy => encode_u32(out, 0),
        Difficulty::Normal => encode_u32(out, 1),
        Difficulty::Hard => encode_u32(out, 2),
    }
}

/// Reads a [`Difficulty`] at `pos`: a variant index, which must be below
/// the declared variant count of 3.
pub fn decode_difficulty(buf: &[u8], pos: usize) -> (r: Result<(Difficulty, usize), DecodeError>)
    requires
        pos <= buf@.len(),
    ensures
        r matches Ok(p) ==> pos + enc_difficulty(p.0).len() <= buf@.len() && buf@.subrange(
            pos as int,
            pos + enc_difficulty(p.0).len(),
        ) == enc_difficulty(p.0) && p.1 == enc_difficulty(p.0).len(),
        forall|v: Difficulty|
            prefix_of(enc_difficulty(v), buf@.skip(pos as int)) ==> r == Ok::<
                (Difficulty, usize),
                DecodeError,
            >((v, enc_difficulty(v).len() as usize)),
        forall|n: u32|
            n >= 3 && prefix_of(enc_uvarint(n as nat), buf@.skip(pos as int)) ==> r == Err::<
                (Difficulty, usize),
                DecodeError,
            >(DecodeError::UnknownVariant),
        r is Err ==> (r == Err::<(Difficulty, usize), DecodeError>(DecodeError::MalformedVarint)
            || r == Err::<(Difficulty, usize), DecodeError>(DecodeError::UnknownVariant)),
{
    let ghost suffix = buf@.skip(pos as int);
    match decode_u32(buf, pos) {
        Err(e) => {
            proof {
                assert forall|v: Difficulty| !prefix_of(enc_difficulty(v), suffix) by {
                    if prefix_of(enc_difficulty(v), suffix) {
                        assert(prefix_of(enc_uvarint((difficulty_idx(v) as u32) as nat), suffix));
                    }
                }
            }
            Err(e)
        },
        Ok((n, used)) => {
            proof {
                assert(prefix_of(enc_uvarint(n as nat), suffix)) by {
                    assert(suffix.take(enc_uvarint(n as nat).len() as int) =~= enc_uvarint(
                        n as nat,
                    ));
                }
                assert forall|v: Difficulty|
                    prefix_of(enc_difficulty(v), suffix) implies difficulty_idx(v) == n as nat by {
                    lemma_enc_uvarint_prefix(difficulty_idx(v), n as nat, suffix);
                }
                assert forall|m: u32|
                    prefix_of(enc_uvarint(m as nat), suffix) implies m == n by {
                    lemma_enc_uvarint_prefix(m as nat, n as nat, suffix);
                }
            }
            if n == 0 {
                Ok((Difficulty::Easy, used))
            } else if n == 1 {
                Ok((Difficulty::Normal, used))
            } else if n == 2 {
                Ok((Difficulty::Hard, used))
            } else {
                Err(DecodeError::UnknownVariant)
            }
        },
    }
}

/// Wire image of an optional element: one discriminant byte, `0x00` for
/// absent, `0x01` and the variant for present.
pub open spec fn enc_opt_element(o: Option<Element>) -> Seq<u8> {
    match o {
        None => seq![0u8],
        Some(e) => seq![1u8] + enc_element(e),
    }
}

/// Appends the encoding of an optional element.
pub fn encode_opt_element(out: &mut Vec<u8>, o: &Option<Element>)
    ensures
        final(out)@ == old(out)@ + enc_opt_element(*o),
{
    match o {
        None => {
            out.push(0u8);
            assert(final(out)@ =~= old(out)@ + enc_opt_element(*o));
        },
        Some(e) => {
            out.push(1u8);
            encode_element(out, e);
            assert(final(out)@ =~= old(out)@ + enc_opt_element(*o));
        },
    }
}

/// Reads an optional element at `pos`.  The discriminant must be 0 or 1;
/// any other byte is an invalid option tag.
pub fn decode_opt_element(buf: &[u8], pos: usize) -> (r: Result<
    (Option<Element>, usize),
    DecodeError,
>)
    requires
        pos <= buf@.len(),
    ensures
        r matches Ok(p) ==> pos + enc_opt_element(p.0).len() <= buf@.len() && buf@.subrange(
            pos as int,
            pos + enc_opt_element(p.0).len(),
        ) == enc_opt_element(p.0) && p.1 == enc_opt_element(p.0).len(),
        forall|o: Option<Element>|
            prefix_of(enc_opt_element(o), buf@.skip(pos as int)) ==> r == Ok::<
                (Option<Element>, usize),
                DecodeError,
            >((o, enc_opt_element(o).len() as usize)),
        r == Err::<(Option<Element>, usize), DecodeError>(DecodeError::TruncatedInput) <==> pos
            == buf@.len(),
        r == Err::<(Option<Element>, usize), DecodeError>(DecodeError::InvalidOptionTag) <==> pos
            < buf@.len() && buf@[pos as int] >= 2,
        r is Err ==> (r == Err::<(Option<Element>, usize), DecodeError>(
            DecodeError::MalformedVarint,
        ) || r == Err::<(Option<Element>, usize), DecodeError>(DecodeError::TruncatedInput) || r
            == Err::<(Option<Element>, usize), DecodeError>(DecodeError::InvalidOptionTag) || r
            == Err::<(Option<Element>, usize), DecodeError>(DecodeError::UnknownVariant)),
{
    let ghost suffix = buf@.skip(pos as int);
    if pos == buf.len() {
        return Err(DecodeError::TruncatedInput);
    }
    let b: u8 = buf[pos];
    assert(suffix[0] == b);
    if b == 0 {
        assert(buf@.subrange(pos as int, pos + 1) =~= enc_opt_element(None));
        assert forall|o: Option<Element>|
            prefix_of(enc_opt_element(o), suffix) implies o is None by {
            if o is Some {
                assert(enc_opt_element(o)[0] == 1);
            }
        }
        Ok((None, 1))
    } else if b == 1 {
        proof {
            lemma_skip_skip(buf@, pos as int, 1);
            assert forall|o: Option<Element>|
                prefix_of(enc_opt_element(o), suffix) implies o matches Some(e) && prefix_of(
                enc_element(o->Some_0),
                buf@.skip(pos + 1),
            ) by {
                if o is None {
                    assert(enc_opt_element(o)[0] == 0);
                } else {
                    lemma_prefix_concat(seq![1u8], enc_element(o->Some_0), suffix);
                }
            }
        }
        match decode_element(buf, pos + 1) {
            Err(e) => Err(e),
            Ok((v, used)) => {
                proof {
                    assert(buf@.subrange(pos as int, pos + 1 + used) =~= seq![1u8] + buf@.subrange(
                        pos + 1,
                        pos + 1 + used,
                    ));
                }
                Ok((Some(v), 1 + used))
            },
        }
    } else {
        assert forall|o: Option<Element>| !prefix_of(enc_opt_element(o), suffix) by {
            if prefix_of(enc_opt_element(o), suffix) {
                assert(enc_opt_element(o)[0] == suffix[0]);
                assert(enc_opt_element(o)[0] == 0 || enc_opt_element(o)[0] == 1);
            }
        }
        Err(DecodeError::InvalidOptionTag)
    }
}

/// A weapon: a name, a damage figure and an optional element.
#[derive(Debug, Clone, PartialEq)]
pub struct Weapon {
    pub name: String,
    pub damage: u16,
    pub element: Option<Element>,
}

/// Wire image of the weapon record: the parts concatenated in declared order.
pub open spec fn enc_weapon(v: Weapon) -> Seq<u8> {
    enc_str(v.name@) + (enc_uvarint(v.damage as nat) + (enc_opt_element(v.element)))
}

/// Value equality for the weapon record: the parts agree.
pub open spec fn weapon_eq(a: Weapon, b: Weapon) -> bool {
    a.name@ == b.name@ && a.damage == b.damage && a.element == b.element
}

/// Appends the encoding of the weapon record, part by part.
pub fn encode_weapon(out: &mut Vec<u8>, v: &Weapon)
    ensures
        final(out)@ == old(out)@ + enc_weapon(*v),
{
    encode_string(out, v.name.as_str());
    encode_u16(out, v.damage);
    encode_opt_element(out, &v.element);
    assert(final(out)@ =~= old(out)@ + enc_weapon(*v));
}

/// Reads the weapon record at `pos`, part by part, in declared order.
#[verifier::rlimit(100)]
pub fn decode_weapon(buf: &[u8], pos: usize) -> (r: Result<(Weapon, usize), DecodeError>)
    requires
        pos <= buf@.len(),
    ensures
        r matches Ok(p) ==> pos + enc_weapon(p.0).len() <= buf@.len() && buf@.subrange(
            pos as int,
            pos + enc_weapon(p.0).len(),
        ) == enc_weapon(p.0) && p.1 == enc_weapon(p.0).len(),
        forall|v: Weapon|
            #![trigger enc_weapon(v)]
            prefix_of(enc_weapon(v), buf@.skip(pos as int)) ==> (r matches Ok(p) && weapon_eq(
                p.0,
                v,
            ) && p.1 == enc_weapon(v).len()),
        r is Err ==> (r == Err::<(Weapon, usize), DecodeError>(DecodeError::MalformedVarint)
            || r == Err::<(Weapon, usize), DecodeError>(DecodeError::TruncatedInput) || r
            == Err::<(Weapon, usize), DecodeError>(DecodeError::InvalidUtf8) || r == Err::<
            (Weapon, usize),
            DecodeError,
        >(DecodeError::InvalidOptionTag) || r == Err::<(Weapon, usize), DecodeError>(
            DecodeError::UnknownVariant,
        )),
{
    let buf_len: usize = buf.len();
    let ghost suffix = buf@.skip(pos as int);
    proof {
        assert forall|v: Weapon|
            #![trigger enc_weapon(v)]
            prefix_of(enc_weapon(v), suffix) implies prefix_of(enc_str(v.name@), suffix)
            && prefix_of(enc_uvarint(v.damage as nat) + (enc_opt_element(v.element)), suffix.skip((enc_str(v.name@)).len() as int)) by {
            lemma_prefix_concat(enc_str(v.name@), enc_uvarint(v.damage as nat) + (enc_opt_element(v.element)), suffix);
        }
    }
    match decode_string(buf, pos) {
        Err(e) => Err(e),
        Ok((f_name, u0)) => {
            proof {
                lemma_skip_skip(buf@, pos as int, u0 as int);
                assert forall|v: Weapon|
                    #![trigger enc_weapon(v)]
                    prefix_of(enc_weapon(v), suffix) implies prefix_of(
                    enc_uvarint(v.damage as nat),
                    buf@.skip(pos + u0),
                ) && prefix_of(
                    enc_opt_element(v.element),
                    buf@.skip(pos + u0).skip((enc_uvarint(v.damage as nat)).len() as int),
                ) by {
                    lemma_prefix_concat(
                        enc_uvarint(v.damage as nat),
                        enc_opt_element(v.element),
                        buf@.skip(pos + u0),
                    );
                }
            }
            match decode_u16(buf, pos + u0) {
                Err(e) => Err(e),
                Ok((f_damage, u1)) => {
                    proof {
                        lemma_skip_skip(buf@, pos + u0, u1 as int);
                        assert forall|v: Weapon|
                            #![trigger enc_weapon(v)]
                            prefix_of(enc_weapon(v), suffix) implies prefix_of(
                            enc_opt_element(v.element),
                            buf@.skip(pos + u0 + u1),
                        ) by {
                        }
                    }
                    match decode_opt_element(buf, pos + u0 + u1) {
                        Err(e) => Err(e),
                        Ok((f_element, u2)) => {
                            let w = Weapon { name: f_name, damage: f_damage, element: f_element };
                            proof {
                                assert(buf@.subrange(pos as int, pos + u0 + u1 + u2) =~= buf@.subrange(pos as int, pos + u0) + (buf@.subrange(pos + u0, pos + u0 + u1) + (buf@.subrange(pos + u0 + u1, pos + u0 + u1 + u2))));
                            }
                            Ok((w, u0 + u1 + u2))
                            },
                    }
                    },
            }
            },
    }
}

/// An inventory item: a consumable with a name and count, a weapon, or a
/// piece of armor.  The three variant kinds exercise a record payload, a
/// newtype payload and another record payload.
#[derive(Debug, Clone, PartialEq)]
pub enum Item {
    Consumable { name: String, quantity: u16 },
    Weapon(Weapon),
    Armor { defense: u16, durability: u8 },
}

/// The zero-based declaration index of an [`Item`] variant.
pub open spec fn item_idx(it: Item) -> nat {
    match it {
        Item::Consumable { .. } => 0,
        Item::Weapon(..) => 1,
        Item::Armor { .. } => 2,
    }
}

/// Wire image of an [`Item`]'s payload, shaped per its variant kind: the
/// named fields in order, or the single wrapped value.
pub open spec fn enc_item_payload(it: Item) -> Seq<u8> {
    match it {
        Item::Consumable { name, quantity } => enc_str(name@) + enc_uvarint(quantity as nat),
        Item::Weapon(w) => enc_weapon(w),
        Item::Armor { defense, durability } => enc_uvarint(defense as nat) + enc_uvarint(
            durability as nat,
        ),
    }
}

/// Wire image of an [`Item`]: its variant index as an unsigned varint,
/// then the payload.
pub open spec fn enc_item(it: Item) -> Seq<u8> {
    enc_uvarint(item_idx(it)) + enc_item_payload(it)
}

/// Value equality for items: same variant, equal payload.
pub open spec fn item_eq(a: Item, b: Item) -> bool {
    match (a, b) {
        (
            Item::Consumable { name: n1, quantity: q1 },
            Item::Consumable { name: n2, quantity: q2 },
        ) => n1@ == n2@ && q1 == q2,
        (Item::Weapon(w1), Item::Weapon(w2)) => weapon_eq(w1, w2),
        (
            Item::Armor { defense: d1, durability: r1 },
            Item::Armor { defense: d2, durability: r2 },
        ) => d1 == d2 && r1 == r2,
        _ => false,
    }
}

/// Equal weapons have identical encodings: the encoder is a function of
/// the value alone, so encoding is deterministic.
pub proof fn lemma_enc_weapon_congruence(a: Weapon, b: Weapon)
    requires
        weapon_eq(a, b),
    ensures
        enc_weapon(a) == enc_weapon(b),
{
}

/// Equal items have identical encodings: the encoder is a function of the
/// value alone, so encoding is deterministic.
pub proof fn lemma_enc_item_congruence(a: Item, b: Item)
    requires
        item_eq(a, b),
    ensures
        enc_item(a) == enc_item(b),
{
    match (a, b) {
        (Item::Weapon(w1), Item::Weapon(w2)) => {
            lemma_enc_weapon_congruence(w1, w2);
        },
        _ => {
        },
    }
}

/// Appends the encoding of an [`Item`]: variant index, then payload.
pub fn encode_item(out: &mut Vec<u8>, it: &Item)
    ensures
        final(out)@ == old(out)@ + enc_item(*it),
{
    match it {
        Item::Consumable { name, quantity } => {
            encode_u32(out, 0);
            encode_string(out, name.as_str());
            encode_u16(out, *quantity);
        },
        Item::Weapon(w) => {
            encode_u32(out, 1);
            encode_weapon(out, w);
        },
        Item::Armor { defense, durability } => {
            encode_u32(out, 2);
            encode_u16(out, *defense);
            encode_u8(out, *durability);
        },
    }
    assert(final(out)@ =~= old(out)@ + enc_item(*it));
}

/// Reads an [`Item`] at `pos`: a variant index, which must be below the
/// declared variant count of 3, then that variant's payload.
#[verifier::rlimit(100)]
pub fn decode_item(buf: &[u8], pos: usize) -> (r: Result<(Item, usize), DecodeError>)
    requires
        pos <= buf@.len(),
    ensures
        r matches Ok(p) ==> pos + enc_item(p.0).len() <= buf@.len() && buf@.subrange(
            pos as int,
            pos + enc_item(p.0).len(),
        ) == enc_item(p.0) && p.1 == enc_item(p.0).len(),
        forall|it: Item|
            #![trigger enc_item(it)]
            prefix_of(enc_item(it), buf@.skip(pos as int)) ==> (r matches Ok(p) && item_eq(p.0, it)
                && p.1 == enc_item(it).len()),
        forall|n: u32|
            n >= 3 && prefix_of(enc_uvarint(n as nat), buf@.skip(pos as int)) ==> r == Err::<
                (Item, usize),
                DecodeError,
            >(DecodeError::UnknownVariant),
        r is Err ==> (r == Err::<(Item, usize), DecodeError>(DecodeError::MalformedVarint) || r
            == Err::<(Item, usize), DecodeError>(DecodeError::TruncatedInput) || r == Err::<
            (Item, usize),
            DecodeError,
        >(DecodeError::InvalidUtf8) || r == Err::<(Item, usize), DecodeError>(
            DecodeError::InvalidOptionTag,
        ) || r == Err::<(Item, usize), DecodeError>(DecodeError::UnknownVariant)),
{
    let buf_len: usize = buf.len();
    let ghost suffix = buf@.skip(pos as int);
    proof {
        assert forall|it: Item|
            #![trigger enc_item(it)]
            prefix_of(enc_item(it), suffix) implies prefix_of(enc_uvarint(item_idx(it)), suffix)
            && prefix_of(enc_item_payload(it), suffix.skip(
            enc_uvarint(item_idx(it)).len() as int,
        )) by {
            lemma_prefix_concat(enc_uvarint(item_idx(it)), enc_item_payload(it), suffix);
        }
    }
    match decode_u32(buf, pos) {
        Err(e) => {
            proof {
                assert forall|it: Item| !prefix_of(enc_item(it), suffix) by {
                    if prefix_of(enc_item(it), suffix) {
                        assert(prefix_of(enc_uvarint((item_idx(it) as u32) as nat), suffix));
                    }
                }
            }
            Err(e)
        },
        Ok((n, used0)) => {
            proof {
                assert(prefix_of(enc_uvarint(n as nat), suffix)) by {
                    assert(suffix.take(enc_uvarint(n as nat).len() as int) =~= enc_uvarint(
                        n as nat,
                    ));
                }
                assert forall|it: Item|
                    prefix_of(enc_item(it), suffix) implies item_idx(it) == n as nat by {
                    lemma_enc_uvarint_prefix(item_idx(it), n as nat, suffix);
                }
                assert forall|m: u32|
                    prefix_of(enc_uvarint(m as nat), suffix) implies m == n by {
                    lemma_enc_uvarint_prefix(m as nat, n as nat, suffix);
                }
                lemma_skip_skip(buf@, pos as int, used0 as int);
                assert forall|it: Item|
                    prefix_of(enc_item(it), suffix) implies prefix_of(
                    enc_item_payload(it),
                    buf@.skip(pos + used0),
                ) by {
                }
            }
            if n == 0 {
                proof {
                    assert forall|it: Item|
                        prefix_of(enc_item(it), suffix) implies it matches Item::Consumable {
                        name,
                        quantity,
                    } && prefix_of(enc_str(name@), buf@.skip(pos + used0)) && prefix_of(
                        enc_uvarint(quantity as nat),
                        buf@.skip(pos + used0).skip(enc_str(name@).len() as int),
                    ) by {
                        match it {
                            Item::Consumable { name, quantity } => {
                                lemma_prefix_concat(
                                    enc_str(name@),
                                    enc_uvarint(quantity as nat),
                                    buf@.skip(pos + used0),
                                );
                            },
                            _ => {
                            },
                        }
                    }
                }
                match decode_string(buf, pos + used0) {
                    Err(e) => Err(e),
                    Ok((name, used1)) => {
                        proof {
                            lemma_skip_skip(buf@, pos + used0, used1 as int);
                        }
                        match decode_u16(buf, pos + used0 + used1) {
                            Err(e) => Err(e),
                            Ok((quantity, used2)) => {
                                let w = Item::Consumable { name, quantity };
                                proof {
                                    assert(buf@.subrange(
                                        pos as int,
                                        pos + used0 + used1 + used2,
                                    ) =~= buf@.subrange(pos as int, pos + used0) + (buf@.subrange(
                                        pos + used0,
                                        pos + used0 + used1,
                                    ) + buf@.subrange(
                                        pos + used0 + used1,
                                        pos + used0 + used1 + used2,
                                    )));
                                }
                                Ok((w, used0 + used1 + used2))
                            },
                        }
                    },
                }
            } else if n == 1 {
                proof {
                    assert forall|it: Item|
                        prefix_of(enc_item(it), suffix) implies it matches Item::Weapon(w)
                        && prefix_of(enc_weapon(it->Weapon_0), buf@.skip(pos + used0)) by {
                    }
                }
                match decode_weapon(buf, pos + used0) {
                    Err(e) => Err(e),
                    Ok((w, used1)) => {
                        let v = Item::Weapon(w);
                        proof {
                            assert(buf@.subrange(pos as int, pos + used0 + used1)
                                =~= buf@.subrange(pos as int, pos + used0) + buf@.subrange(
                                pos + used0,
                                pos + used0 + used1,
                            ));
                        }
                        Ok((v, used0 + used1))
                    },
                }
            } else if n == 2 {
                proof {
                    assert forall|it: Item|
                        prefix_of(enc_item(it), suffix) implies it matches Item::Armor {
                        defense,
                        durability,
                    } && prefix_of(enc_uvarint(defense as nat), buf@.skip(pos + used0))
                        && prefix_of(
                        enc_uvarint(durability as nat),
                        buf@.skip(pos + used0).skip(enc_uvarint(defense as nat).len() as int),
                    ) by {
                        match it {
                            Item::Armor { defense, durability } => {
                                lemma_prefix_concat(
                                    enc_uvarint(defense as nat),
                                    enc_uvarint(durability as nat),
                                    buf@.skip(pos + used0),
                                );
                            },
                            _ => {
                            },
                        }
                    }
                }
                match decode_u16(buf, pos + used0) {
                    Err(e) => Err(e),
                    Ok((defense, used1)) => {
                        proof {
                            lemma_skip_skip(buf@, pos + used0, used1 as int);
                        }
                        match decode_u8(buf, pos + used0 + used1) {
                            Err(e) => Err(e),
                            Ok((durability, used2)) => {
                                let w = Item::Armor { defense, durability };
                                proof {
                                    assert(buf@.subrange(
                                        pos as int,
                                        pos + used0 + used1 + used2,
                                    ) =~= buf@.subrange(pos as int, pos + used0) + (buf@.subrange(
                                        pos + used0,
                                        pos + used0 + used1,
                                    ) + buf@.subrange(
                                        pos + used0 + used1,
                                        pos + used0 + used1 + used2,
                                    )));
                                }
                                Ok((w, used0 + used1 + used2))
                            },
                        }
                    },
                }
            } else {
                Err(DecodeError::UnknownVariant)
            }
        },
    }
}

/// Wire image of a sequence of items: the encodings of the elements,
/// first to last.
pub open spec fn enc_item_seq(ss: Seq<Item>) -> Seq<u8>
    decreases ss.len(),
{
    if ss.len() == 0 {
        Seq::empty()
    } else {
        enc_item(ss[0]) + enc_item_seq(ss.drop_first())
    }
}

/// Every element costs at least one byte on the wire.
pub proof fn lemma_enc_item_seq_len_ge(ss: Seq<Item>)
    ensures
        enc_item_seq(ss).len() >= ss.len(),
    decreases ss.len(),
{
    if ss.len() > 0 {
        lemma_enc_item_seq_len_ge(ss.drop_first());
    }
}

/// Appending one element appends its encoding.
pub proof fn lemma_enc_item_seq_push(ss: Seq<Item>, x: Item)
    ensures
        enc_item_seq(ss.push(x)) == enc_item_seq(ss) + enc_item(x),
    decreases ss.len(),
{
    assert(ss.push(x)[0] == if ss.len() == 0 {
        x
    } else {
        ss[0]
    });
    if ss.len() == 0 {
        assert(ss.push(x).drop_first() =~= Seq::<Item>::empty());
        assert(enc_item_seq(ss.push(x)) == enc_item(x) + enc_item_seq(Seq::<Item>::empty()));
        assert(enc_item_seq(ss.push(x)) =~= enc_item_seq(ss) + enc_item(x));
    } else {
        assert(ss.push(x).drop_first() =~= ss.drop_first().push(x));
        lemma_enc_item_seq_push(ss.drop_first(), x);
        assert(enc_item_seq(ss.push(x)) == enc_item(ss[0]) + enc_item_seq(ss.drop_first().push(x)));
        assert(enc_item_seq(ss.push(x)) =~= enc_item_seq(ss) + enc_item(x));
    }
}

/// The encoding of a sequence splits at any element boundary.
pub proof fn lemma_enc_item_seq_split(ss: Seq<Item>, i: int)
    requires
        0 <= i <= ss.len(),
    ensures
        enc_item_seq(ss) == enc_item_seq(ss.take(i)) + enc_item_seq(ss.skip(i)),
    decreases i,
{
    if i == 0 {
        assert(ss.take(0) =~= Seq::<Item>::empty());
        assert(ss.skip(0) =~= ss);
        assert(enc_item_seq(ss) =~= enc_item_seq(ss.take(0)) + enc_item_seq(ss.skip(0)));
    } else {
        lemma_enc_item_seq_split(ss.drop_first(), i - 1);
        assert(ss.take(i).drop_first() =~= ss.drop_first().take(i - 1));
        assert(ss.skip(i) =~= ss.drop_first().skip(i - 1));
        assert(enc_item_seq(ss) =~= enc_item_seq(ss.take(i)) + enc_item_seq(ss.skip(i)));
    }
}

/// Wire image of a dynamic sequence of items: the element count as an
/// unsigned varint, then the elements.
pub open spec fn enc_item_vec(ss: Seq<Item>) -> Seq<u8> {
    enc_uvarint(ss.len()) + enc_item_seq(ss)
}

/// Value equality for sequences of items: same length, equal elements
/// at every index.
pub open spec fn item_seq_eq(a: Seq<Item>, b: Seq<Item>) -> bool {
    a.len() == b.len() && forall|i: int| 0 <= i < a.len() ==> item_eq(a[i], b[i])
}

/// Appends the count-prefixed encoding of a sequence of items.
pub fn encode_item_vec(out: &mut Vec<u8>, v: &Vec<Item>)
    ensures
        final(out)@ == old(out)@ + enc_item_vec(v@),
{
    encode_uvarint(out, v.len() as u128);
    let mut i: usize = 0;
    while i < v.len()
        invariant
            i <= v@.len(),
            out@ == old(out)@ + enc_uvarint(v@.len()) + enc_item_seq(v@.take(i as int)),
        decreases v@.len() - i,
    {
        encode_item(out, &v[i]);
        proof {
            lemma_enc_item_seq_push(v@.take(i as int), v@[i as int]);
            assert(v@.take(i + 1) =~= v@.take(i as int).push(v@[i as int]));
        }
        i = i + 1;
    }
    proof {
        assert(v@.take(v@.len() as int) =~= v@);
    }
}

/// Reads a count-prefixed sequence of items at `pos`.
#[verifier::rlimit(100)]
pub fn decode_item_vec(buf: &[u8], pos: usize) -> (r: Result<(Vec<Item>, usize), DecodeError>)
    requires
        pos <= buf@.len(),
    ensures
        r matches Ok(p) ==> pos + enc_item_vec(p.0@).len() <= buf@.len() && buf@.subrange(
            pos as int,
            pos + enc_item_vec(p.0@).len(),
        ) == enc_item_vec(p.0@) && p.1 == enc_item_vec(p.0@).len(),
        forall|ss: Seq<Item>|
            #![trigger enc_item_vec(ss)]
            prefix_of(enc_item_vec(ss), buf@.skip(pos as int)) ==> (r matches Ok(p) && item_seq_eq(
                p.0@,
                ss,
            ) && p.1 == enc_item_vec(ss).len()),
        r is Err ==> (r == Err::<(Vec<Item>, usize), DecodeError>(DecodeError::MalformedVarint)
            || r == Err::<(Vec<Item>, usize), DecodeError>(DecodeError::TruncatedInput) || r
            == Err::<(Vec<Item>, usize), DecodeError>(DecodeError::InvalidUtf8) || r == Err::<
            (Vec<Item>, usize),
            DecodeError,
        >(DecodeError::InvalidOptionTag) || r == Err::<(Vec<Item>, usize), DecodeError>(
            DecodeError::UnknownVariant,
        )),
{
    let buf_len: usize = buf.len();
    let ghost suffix = buf@.skip(pos as int);
    proof {
        assert(buf@.len() <= usize::MAX as nat);
        assert forall|ss: Seq<Item>|
            #![trigger enc_item_vec(ss)]
            prefix_of(enc_item_vec(ss), suffix) implies ss.len() <= usize::MAX as nat
            && prefix_of(enc_uvarint(ss.len()), suffix) && prefix_of(
            enc_item_seq(ss),
            suffix.skip(enc_uvarint(ss.len()).len() as int),
        ) by {
            lemma_enc_item_seq_len_ge(ss);
            lemma_prefix_concat(enc_uvarint(ss.len()), enc_item_seq(ss), suffix);
        }
    }
    match decode_uvarint_max(buf, pos, usize::MAX as u128) {
        Err(e) => {
            proof {
                assert forall|ss: Seq<Item>| !prefix_of(enc_item_vec(ss), suffix) by {
                    if prefix_of(enc_item_vec(ss), suffix) {
                        assert(prefix_of(enc_uvarint((ss.len() as u128) as nat), suffix));
                    }
                }
            }
            Err(e)
        },
        Ok((n128, used0)) => {
            let n: usize = n128 as usize;
            let mut out: Vec<Item> = Vec::new();
            let mut cur: usize = pos + used0;
            let mut i: usize = 0;
            proof {
                assert(buf@.subrange(pos as int, cur as int) == enc_uvarint(n as nat));
                assert(enc_item_seq(out@) =~= Seq::<u8>::empty());
                assert(buf@.subrange(pos as int, cur as int) =~= enc_uvarint(n as nat)
                    + enc_item_seq(out@));
                assert forall|ss: Seq<Item>|
                    prefix_of(enc_item_vec(ss), suffix) implies ss.len() == n && item_seq_eq(
                    out@,
                    ss.take(0),
                ) && enc_item_seq(ss.take(0)).len() == 0 by {
                    assert(ss.take(0) =~= Seq::<Item>::empty());
                }
            }
            while i < n
                invariant
                    i <= n,
                    out@.len() == i,
                    pos + used0 <= cur <= buf@.len(),
                    buf_len == buf@.len(),
                    used0 == enc_uvarint(n as nat).len(),
                    buf@.subrange(pos as int, cur as int) == enc_uvarint(n as nat) + enc_item_seq(
                        out@,
                    ),
                    suffix == buf@.skip(pos as int),
                    forall|ss: Seq<Item>|
                        #![trigger enc_item_vec(ss)]
                        prefix_of(enc_item_vec(ss), suffix) ==> ss.len() == n && item_seq_eq(
                            out@,
                            ss.take(i as int),
                        ) && cur == pos + used0 + enc_item_seq(ss.take(i as int)).len(),
                decreases n - i,
            {
                proof {
                    assert forall|ss: Seq<Item>|
                        prefix_of(enc_item_vec(ss), suffix) implies prefix_of(
                        enc_item(ss[i as int]),
                        buf@.skip(cur as int),
                    ) by {
                        lemma_prefix_concat(enc_uvarint(ss.len()), enc_item_seq(ss), suffix);
                        lemma_enc_item_seq_split(ss, i as int);
                        lemma_prefix_concat(
                            enc_item_seq(ss.take(i as int)),
                            enc_item_seq(ss.skip(i as int)),
                            suffix.skip(used0 as int),
                        );
                        assert(ss.skip(i as int)[0] == ss[i as int]);
                        assert(ss.skip(i as int).drop_first() =~= ss.skip(i + 1));
                        assert(enc_item_seq(ss.skip(i as int)) == enc_item(ss[i as int])
                            + enc_item_seq(ss.skip(i + 1)));
                        lemma_prefix_concat(
                            enc_item(ss[i as int]),
                            enc_item_seq(ss.skip(i + 1)),
                            suffix.skip(used0 as int).skip(
                                enc_item_seq(ss.take(i as int)).len() as int,
                            ),
                        );
                        lemma_skip_skip(buf@, pos as int, used0 as int);
                        lemma_skip_skip(
                            buf@,
                            pos + used0,
                            enc_item_seq(ss.take(i as int)).len() as int,
                        );
                    }
                }
                match decode_item(buf, cur) {
                    Err(e) => {
                        proof {
                            assert forall|ss: Seq<Item>|
                                !prefix_of(enc_item_vec(ss), suffix) by {
                                if prefix_of(enc_item_vec(ss), suffix) {
                                    assert(prefix_of(enc_item(ss[i as int]), buf@.skip(
                                        cur as int,
                                    )));
                                }
                            }
                        }
                        return Err(e);
                    },
                    Ok((s, used)) => {
                        proof {
                            lemma_enc_item_seq_push(out@, s);
                            assert(cur + used <= buf_len);
                            assert(buf@.subrange(pos as int, cur + used) =~= buf@.subrange(
                                pos as int,
                                cur as int,
                            ) + buf@.subrange(cur as int, cur + used));
                            assert(buf@.subrange(pos as int, cur + used) =~= enc_uvarint(
                                n as nat,
                            ) + (enc_item_seq(out@) + enc_item(s)));
                            assert(enc_uvarint(n as nat) + (enc_item_seq(out@) + enc_item(s))
                                =~= enc_uvarint(n as nat) + enc_item_seq(out@.push(s)));
                            assert forall|ss: Seq<Item>|
                                prefix_of(enc_item_vec(ss), suffix) implies item_seq_eq(
                                out@.push(s),
                                ss.take(i + 1),
                            ) && item_eq(s, ss[i as int]) && enc_item_seq(ss.take(i + 1)).len()
                                == enc_item_seq(ss.take(i as int)).len() + (enc_item(s)).len() by {
                                assert(ss.take(i + 1) =~= ss.take(i as int).push(ss[i as int]));
                                lemma_enc_item_seq_push(ss.take(i as int), ss[i as int]);
                                lemma_enc_item_congruence(s, ss[i as int]);
                            }
                        }
                        out.push(s);
                        cur = cur + used;
                        i = i + 1;
                    },
                }
            }
            proof {
                assert(enc_item_vec(out@) == enc_uvarint(n as nat) + enc_item_seq(out@));
                assert forall|ss: Seq<Item>|
                    prefix_of(enc_item_vec(ss), suffix) implies item_seq_eq(out@, ss) && cur - pos
                    == enc_item_vec(ss).len() by {
                    assert(ss.take(i as int) =~= ss);
                }
            }
            Ok((out, cur - pos))
        },
    }
}

/// A player inventory: the items carried, a capacity and a gold count.
#[derive(Debug, Clone, PartialEq)]
pub struct Inventory {
    pub items: Vec<Item>,
    pub capacity: u8,
    pub gold: u32,
}

/// Wire image of the inventory record: the parts concatenated in declared order.
pub open spec fn enc_inventory(v: Inventory) -> Seq<u8> {
    enc_item_vec(v.items@) + (enc_uvarint(v.capacity as nat) + (enc_uvarint(v.gold as nat)))
}

/// Value equality for the inventory record: the parts agree.
pub open spec fn inventory_eq(a: Inventory, b: Inventory) -> bool {
    item_seq_eq(a.items@, b.items@) && a.capacity == b.capacity && a.gold == b.gold
}

/// Appends the encoding of the inventory record, part by part.
pub fn encode_inventory(out: &mut Vec<u8>, v: &Inventory)
    ensures
        final(out)@ == old(out)@ + enc_inventory(*v),
{
    encode_item_vec(out, &v.items);
    encode_u8(out, v.capacity);
    encode_u32(out, v.gold);
    assert(final(out)@ =~= old(out)@ + enc_inventory(*v));
}

/// Reads the inventory record at `pos`, part by part, in declared order.
#[verifier::rlimit(100)]
pub fn decode_inventory(buf: &[u8], pos: usize) -> (r: Result<(Inventory, usize), DecodeError>)
    requires
        pos <= buf@.len(),
    ensures
        r matches Ok(p) ==> pos + enc_inventory(p.0).len() <= buf@.len() && buf@.subrange(
            pos as int,
            pos + enc_inventory(p.0).len(),
        ) == enc_inventory(p.0) && p.1 == enc_inventory(p.0).len(),
        forall|v: Inventory|
            #![trigger enc_inventory(v)]
            prefix_of(enc_inventory(v), buf@.skip(pos as int)) ==> (r matches Ok(p) && inventory_eq(
                p.0,
                v,
            ) && p.1 == enc_inventory(v).len()),
        r is Err ==> (r == Err::<(Inventory, usize), DecodeError>(DecodeError::MalformedVarint)
            || r == Err::<(Inventory, usize), DecodeError>(DecodeError::TruncatedInput) || r
            == Err::<(Inventory, usize), DecodeError>(DecodeError::InvalidUtf8) || r == Err::<
            (Inventory, usize),
            DecodeError,
        >(DecodeError::InvalidOptionTag) || r == Err::<(Inventory, usize), DecodeError>(
            DecodeError::UnknownVariant,
        )),
{
    let buf_len: usize = buf.len();
    let ghost suffix = buf@.skip(pos as int);
    proof {
        assert forall|v: Inventory|
            #![trigger enc_inventory(v)]
            prefix_of(enc_inventory(v), suffix) implies prefix_of(enc_item_vec(v.items@), suffix)
            && prefix_of(enc_uvarint(v.capacity as nat) + (enc_uvarint(v.gold as nat)), suffix.skip((enc_item_vec(v.items@)).len() as int)) by {
            lemma_prefix_concat(enc_item_vec(v.items@), enc_uvarint(v.capacity as nat) + (enc_uvarint(v.gold as nat)), suffix);
        }
    }
    match decode_item_vec(buf, pos) {
        Err(e) => Err(e),
        Ok((f_items, u0)) => {
            proof {
                lemma_skip_skip(buf@, pos as int, u0 as int);
                assert forall|v: Inventory|
                    #![trigger enc_inventory(v)]
                    prefix_of(enc_inventory(v), suffix) implies prefix_of(
                    enc_uvarint(v.capacity as nat),
                    buf@.skip(pos + u0),
                ) && prefix_of(
                    enc_uvarint(v.gold as nat),
                    buf@.skip(pos + u0).skip((enc_uvarint(v.capacity as nat)).len() as int),
                ) by {
                    lemma_prefix_concat(
                        enc_uvarint(v.capacity as nat),
                        enc_uvarint(v.gold as nat),
                        buf@.skip(pos + u0),
                    );
                }
            }
            match decode_u8(buf, pos + u0) {
                Err(e) => Err(e),
                Ok((f_capacity, u1)) => {
                    proof {
                        lemma_skip_skip(buf@, pos + u0, u1 as int);
                        assert forall|v: Inventory|
                            #![trigger enc_inventory(v)]
                            prefix_of(enc_inventory(v), suffix) implies prefix_of(
                            enc_uvarint(v.gold as nat),
                            buf@.skip(pos + u0 + u1),
                        ) by {
                        }
                    }
                    match decode_u32(buf, pos + u0 + u1) {
                        Err(e) => Err(e),
                        Ok((f_gold, u2)) => {
                            let w = Inventory { items: f_items, capacity: f_capacity, gold: f_gold };
                            proof {
                                assert(buf@.subrange(pos as int, pos + u0 + u1 + u2) =~= buf@.subrange(pos as int, pos + u0) + (buf@.subrange(pos + u0, pos + u0 + u1) + (buf@.subrange(pos + u0 + u1, pos + u0 + u1 + u2))));
                            }
                            Ok((w, u0 + u1 + u2))
                            },
                    }
                    },
            }
            },
    }
}

/// Dragon-specific data: a color and an age.
#[derive(Debug, Clone, PartialEq)]
pub struct DragonData {
    pub color: DragonColor,
    pub age: u16,
}

/// Wire image of the dragon record: the parts concatenated in declared order.
pub open spec fn enc_dragon_data(v: DragonData) -> Seq<u8> {
    enc_dragon_color(v.color) + (enc_uvarint(v.age as nat))
}

/// Value equality for the dragon record: the parts agree.
pub open spec fn dragon_data_eq(a: DragonData, b: DragonData) -> bool {
    a.color == b.color && a.age == b.age
}

/// Appends the encoding of the dragon record, part by part.
pub fn encode_dragon_data(out: &mut Vec<u8>, v: &DragonData)
    ensures
        final(out)@ == old(out)@ + enc_dragon_data(*v),
{
    encode_dragon_color(out, &v.color);
    encode_u16(out, v.age);
    assert(final(out)@ =~= old(out)@ + enc_dragon_data(*v));
}

/// Reads the dragon record at `pos`, part by part, in declared order.
#[verifier::rlimit(100)]
pub fn decode_dragon_data(buf: &[u8], pos: usize) -> (r: Result<(DragonData, usize), DecodeError>)
    requires
        pos <= buf@.len(),
    ensures
        r matches Ok(p) ==> pos + enc_dragon_data(p.0).len() <= buf@.len() && buf@.subrange(
            pos as int,
            pos + enc_dragon_data(p.0).len(),
        ) == enc_dragon_data(p.0) && p.1 == enc_dragon_data(p.0).len(),
        forall|v: DragonData|
            #![trigger enc_dragon_data(v)]
            prefix_of(enc_dragon_data(v), buf@.skip(pos as int)) ==> (r matches Ok(p) && dragon_data_eq(
                p.0,
                v,
            ) && p.1 == enc_dragon_data(v).len()),
        r is Err ==> (r == Err::<(DragonData, usize), DecodeError>(DecodeError::MalformedVarint)
            || r == Err::<(DragonData, usize), DecodeError>(DecodeError::TruncatedInput) || r
            == Err::<(DragonData, usize), DecodeError>(DecodeError::InvalidUtf8) || r == Err::<
            (DragonData, usize),
            DecodeError,
        >(DecodeError::InvalidOptionTag) || r == Err::<(DragonData, usize), DecodeError>(
            DecodeError::UnknownVariant,
        )),
{
    let buf_len: usize = buf.len();
    let ghost suffix = buf@.skip(pos as int);
    proof {
        assert forall|v: DragonData|
            #![trigger enc_dragon_data(v)]
            prefix_of(enc_dragon_data(v), suffix) implies prefix_of(enc_dragon_color(v.color), suffix)
            && prefix_of(enc_uvarint(v.age as nat), suffix.skip((enc_dragon_color(v.color)).len() as int)) by {
            lemma_prefix_concat(enc_dragon_color(v.color), enc_uvarint(v.age as nat), suffix);
        }
    }
    match decode_dragon_color(buf, pos) {
        Err(e) => Err(e),
        Ok((f_color, u0)) => {
            proof {
                lemma_skip_skip(buf@, pos as int, u0 as int);
                assert forall|v: DragonData|
                    #![trigger enc_dragon_data(v)]
                    prefix_of(enc_dragon_data(v), suffix) implies prefix_of(
                    enc_uvarint(v.age as nat),
                    buf@.skip(pos + u0),
                ) by {
                }
            }
            match decode_u16(buf, pos + u0) {
                Err(e) => Err(e),
                Ok((f_age, u1)) => {
                    let w = DragonData { color: f_color, age: f_age };
                    proof {
                        assert(buf@.subrange(pos as int, pos + u0 + u1) =~= buf@.subrange(pos as int, pos + u0) + (buf@.subrange(pos + u0, pos + u0 + u1)));
                    }
                    Ok((w, u0 + u1))
                    },
            }
            },
    }
}

/// Boss encounter information: a name and a difficulty figure.
#[derive(Debug, Clone, PartialEq)]
pub struct BossInfo {
    pub name: String,
    pub difficulty: u8,
}

/// Wire image of the boss record: the parts concatenated in declared order.
pub open spec fn enc_boss_info(v: BossInfo) -> Seq<u8> {
    enc_str(v.name@) + (enc_uvarint(v.difficulty as nat))
}

/// Value equality for the boss record: the parts agree.
pub open spec fn boss_info_eq(a: BossInfo, b: BossInfo) -> bool {
    a.name@ == b.name@ && a.difficulty == b.difficulty
}

/// Appends the encoding of the boss record, part by part.
pub fn encode_boss_info(out: &mut Vec<u8>, v: &BossInfo)
    ensures
        final(out)@ == old(out)@ + enc_boss_info(*v),
{
    encode_string(out, v.name.as_str());
    encode_u8(out, v.difficulty);
    assert(final(out)@ =~= old(out)@ + enc_boss_info(*v));
}

/// Reads the boss record at `pos`, part by part, in declared order.
#[verifier::rlimit(100)]
pub fn decode_boss_info(buf: &[u8], pos: usize) -> (r: Result<(BossInfo, usize), DecodeError>)
    requires
        pos <= buf@.len(),
    ensures
        r matches Ok(p) ==> pos + enc_boss_info(p.0).len() <= buf@.len() && buf@.subrange(
            pos as int,
            pos + enc_boss_info(p.0).len(),
        ) == enc_boss_info(p.0) && p.1 == enc_boss_info(p.0).len(),
        forall|v: BossInfo|
            #![trigger enc_boss_info(v)]
            prefix_of(enc_boss_info(v), buf@.skip(pos as int)) ==> (r matches Ok(p) && boss_info_eq(
                p.0,
                v,
            ) && p.1 == enc_boss_info(v).len()),
        r is Err ==> (r == Err::<(BossInfo, usize), DecodeError>(DecodeError::MalformedVarint)
            || r == Err::<(BossInfo, usize), DecodeError>(DecodeError::TruncatedInput) || r
            == Err::<(BossInfo, usize), DecodeError>(DecodeError::InvalidUtf8) || r == Err::<
            (BossInfo, usize),
            DecodeError,
        >(DecodeError::InvalidOptionTag)),
{
    let buf_len: usize = buf.len();
    let ghost suffix = buf@.skip(pos as int);
    proof {
        assert forall|v: BossInfo|
            #![trigger enc_boss_info(v)]
            prefix_of(enc_boss_info(v), suffix) implies prefix_of(enc_str(v.name@), suffix)
            && prefix_of(enc_uvarint(v.difficulty as nat), suffix.skip((enc_str(v.name@)).len() as int)) by {
            lemma_prefix_concat(enc_str(v.name@), enc_uvarint(v.difficulty as nat), suffix);
        }
    }
    match decode_string(buf, pos) {
        Err(e) => Err(e),
        Ok((f_name, u0)) => {
            proof {
                lemma_skip_skip(buf@, pos as int, u0 as int);
                assert forall|v: BossInfo|
                    #![trigger enc_boss_info(v)]
                    prefix_of(enc_boss_info(v), suffix) implies prefix_of(
                    enc_uvarint(v.difficulty as nat),
                    buf@.skip(pos + u0),
                ) by {
                }
            }
            match decode_u8(buf, pos + u0) {
                Err(e) => Err(e),
                Ok((f_difficulty, u1)) => {
                    let w = BossInfo { name: f_name, difficulty: f_difficulty };
                    proof {
                        assert(buf@.subrange(pos as int, pos + u0 + u1) =~= buf@.subrange(pos as int, pos + u0) + (buf@.subrange(pos + u0, pos + u0 + u1)));
                    }
                    Ok((w, u0 + u1))
                    },
            }
            },
    }
}

/// Session metadata: a version string, a timestamp and a difficulty.
#[derive(Debug, Clone, PartialEq)]
pub struct GameMetadata {
    pub version: String,
    pub timestamp: u64,
    pub difficulty: Difficulty,
}

/// Wire image of the metadata record: the parts concatenated in declared order.
pub open spec fn enc_game_metadata(v: GameMetadata) -> Seq<u8> {
    enc_str(v.version@) + (enc_uvarint(v.timestamp as nat) + (enc_difficulty(v.difficulty)))
}

/// Value equality for the metadata record: the parts agree.
pub open spec fn game_metadata_eq(a: GameMetadata, b: GameMetadata) -> bool {
    a.version@ == b.version@ && a.timestamp == b.timestamp && a.difficulty == b.difficulty
}

/// Appends the encoding of the metadata record, part by part.
pub fn encode_game_metadata(out: &mut Vec<u8>, v: &GameMetadata)
    ensures
        final(out)@ == old(out)@ + enc_game_metadata(*v),
{
    encode_string(out, v.version.as_str());
    encode_u64(out, v.timestamp);
    encode_difficulty(out, &v.difficulty);
    assert(final(out)@ =~= old(out)@ + enc_game_metadata(*v));
}

/// Reads the metadata record at `pos`, part by part, in declared order.
#[verifier::rlimit(100)]
pub fn decode_game_metadata(buf: &[u8], pos: usize) -> (r: Result<(GameMetadata, usize), DecodeError>)
    requires
        pos <= buf@.len(),
    ensures
        r matches Ok(p) ==> pos + enc_game_metadata(p.0).len() <= buf@.len() && buf@.subrange(
            pos as int,
            pos + enc_game_metadata(p.0).len(),
        ) == enc_game_metadata(p.0) && p.1 == enc_game_metadata(p.0).len(),
        forall|v: GameMetadata|
            #![trigger enc_game_metadata(v)]
            prefix_of(enc_game_metadata(v), buf@.skip(pos as int)) ==> (r matches Ok(p) && game_metadata_eq(
                p.0,
                v,
            ) && p.1 == enc_game_metadata(v).len()),
        r is Err ==> (r == Err::<(GameMetadata, usize), DecodeError>(DecodeError::MalformedVarint)
            || r == Err::<(GameMetadata, usize), DecodeError>(DecodeError::TruncatedInput) || r
            == Err::<(GameMetadata, usize), DecodeError>(DecodeError::InvalidUtf8) || r == Err::<
            (GameMetadata, usize),
            DecodeError,
        >(DecodeError::InvalidOptionTag) || r == Err::<(GameMetadata, usize), DecodeError>(
            DecodeError::UnknownVariant,
        )),
{
    let buf_len: usize = buf.len();
    let ghost suffix = buf@.skip(pos as int);
    proof {
        assert forall|v: GameMetadata|
            #![trigger enc_game_metadata(v)]
            prefix_of(enc_game_metadata(v), suffix) implies prefix_of(enc_str(v.version@), suffix)
            && prefix_of(enc_uvarint(v.timestamp as nat) + (enc_difficulty(v.difficulty)), suffix.skip((enc_str(v.version@)).len() as int)) by {
            lemma_prefix_concat(enc_str(v.version@), enc_uvarint(v.timestamp as nat) + (enc_difficulty(v.difficulty)), suffix);
        }
    }
    match decode_string(buf, pos) {
        Err(e) => Err(e),
        Ok((f_version, u0)) => {
            proof {
                lemma_skip_skip(buf@, pos as int, u0 as int);
                assert forall|v: GameMetadata|
                    #![trigger enc_game_metadata(v)]
                    prefix_of(enc_game_metadata(v), suffix) implies prefix_of(
                    enc_uvarint(v.timestamp as nat),
                    buf@.skip(pos + u0),
                ) && prefix_of(
                    enc_difficulty(v.difficulty),
                    buf@.skip(pos + u0).skip((enc_uvarint(v.timestamp as nat)).len() as int),
                ) by {
                    lemma_prefix_concat(
                        enc_uvarint(v.timestamp as nat),
                        enc_difficulty(v.difficulty),
                        buf@.skip(pos + u0),
                    );
                }
            }
            match decode_u64(buf, pos + u0) {
                Err(e) => Err(e),
                Ok((f_timestamp, u1)) => {
                    proof {
                        lemma_skip_skip(buf@, pos + u0, u1 as int);
                        assert forall|v: GameMetadata|
                            #![trigger enc_game_metadata(v)]
                            prefix_of(enc_game_metadata(v), suffix) implies prefix_of(
                            enc_difficulty(v.difficulty),
                            buf@.skip(pos + u0 + u1),
                        ) by {
                        }
                    }
                    match decode_difficulty(buf, pos + u0 + u1) {
                        Err(e) => Err(e),
                        Ok((f_difficulty, u2)) => {
                            let w = GameMetadata { version: f_version, timestamp: f_timestamp, difficulty: f_difficulty };
                            proof {
                                assert(buf@.subrange(pos as int, pos + u0 + u1 + u2) =~= buf@.subrange(pos as int, pos + u0) + (buf@.subrange(pos + u0, pos + u0 + u1) + (buf@.subrange(pos + u0 + u1, pos + u0 + u1 + u2))));
                            }
                            Ok((w, u0 + u1 + u2))
                            },
                    }
                    },
            }
            },
    }
}

/// Sequences of equal elements have identical encodings.
pub proof fn lemma_enc_item_seq_congruence(a: Seq<Item>, b: Seq<Item>)
    requires
        item_seq_eq(a, b),
    ensures
        enc_item_seq(a) == enc_item_seq(b),
    decreases a.len(),
{
    if a.len() > 0 {
        assert(item_seq_eq(a.drop_first(), b.drop_first())) by {
            assert forall|i: int|
                0 <= i < a.drop_first().len() implies item_eq(a.drop_first()[i], b.drop_first()[i]) by {
                assert(a.drop_first()[i] == a[i + 1]);
                assert(b.drop_first()[i] == b[i + 1]);
                assert(item_eq(a[i + 1], b[i + 1]));
            }
        }
        lemma_enc_item_seq_congruence(a.drop_first(), b.drop_first());
        lemma_enc_item_congruence(a[0], b[0]);
    }
}

/// Equal values have identical encodings: the encoder is a function of
/// the value alone, so encoding is deterministic.
pub proof fn lemma_enc_inventory_congruence(a: Inventory, b: Inventory)
    requires
        inventory_eq(a, b),
    ensures
        enc_inventory(a) == enc_inventory(b),
{
    lemma_enc_item_seq_congruence(a.items@, b.items@);
}

/// Equal values have identical encodings: the encoder is a function of
/// the value alone, so encoding is deterministic.
pub proof fn lemma_enc_dragon_data_congruence(a: DragonData, b: DragonData)
    requires
        dragon_data_eq(a, b),
    ensures
        enc_dragon_data(a) == enc_dragon_data(b),
{

}

/// Equal values have identical encodings: the encoder is a function of
/// the value alone, so encoding is deterministic.
pub proof fn lemma_enc_boss_info_congruence(a: BossInfo, b: BossInfo)
    requires
        boss_info_eq(a, b),
    ensures
        enc_boss_info(a) == enc_boss_info(b),
{

}

/// Equal values have identical encodings: the encoder is a function of
/// the value alone, so encoding is deterministic.
pub proof fn lemma_enc_game_metadata_congruence(a: GameMetadata, b: GameMetadata)
    requires
        game_metadata_eq(a, b),
    ensures
        enc_game_metadata(a) == enc_game_metadata(b),
{

}

} // verus!
