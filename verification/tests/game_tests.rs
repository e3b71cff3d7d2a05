use fixture_codec::game::{
    decode_boss_info, decode_difficulty, decode_dragon_color, decode_dragon_data, decode_element,
    decode_game_metadata, decode_inventory, decode_item, decode_item_vec, decode_opt_element,
    decode_weapon, encode_boss_info, encode_difficulty, encode_dragon_color, encode_dragon_data,
    encode_element, encode_game_metadata, encode_inventory, encode_item, encode_item_vec,
    encode_opt_element, encode_weapon, BossInfo, Difficulty, DragonColor, DragonData, Element,
    GameMetadata, Inventory, Item, Weapon,
};
use fixture_codec::DecodeError;

#[test]
fn unit_variants_round_trip() {
    for v in [DragonColor::Red, DragonColor::Blue, DragonColor::Green] {
        let mut out: Vec<u8> = Vec::new();
        encode_dragon_color(&mut out, &v);
        assert_eq!(out.len(), 1);
        assert_eq!(decode_dragon_color(&out, 0), Ok((v, 1)));
    }
    for v in [Element::Fire, Element::Ice, Element::Lightning] {
        let mut out: Vec<u8> = Vec::new();
        encode_element(&mut out, &v);
        assert_eq!(decode_element(&out, 0), Ok((v, 1)));
    }
    for v in [Difficulty::Easy, Difficulty::Normal, Difficulty::Hard] {
        let mut out: Vec<u8> = Vec::new();
        encode_difficulty(&mut out, &v);
        assert_eq!(decode_difficulty(&out, 0), Ok((v, 1)));
    }
}

#[test]
fn unknown_variant_index_is_rejected() {
    assert_eq!(decode_dragon_color(&[0x03], 0), Err(DecodeError::UnknownVariant));
    assert_eq!(decode_element(&[0x07], 0), Err(DecodeError::UnknownVariant));
    assert_eq!(decode_item(&[0x03], 0), Err(DecodeError::UnknownVariant));
}

#[test]
fn newtype_variant_round_trips() {
    let it = Item::Weapon(Weapon {
        name: "Flaming Sword".to_string(),
        damage: 50,
        element: Some(Element::Fire),
    });
    let mut out: Vec<u8> = Vec::new();
    encode_item(&mut out, &it);
    assert_eq!(out[0], 0x01);
    let (w, used) = decode_item(&out, 0).unwrap();
    assert_eq!(used, out.len());
    assert_eq!(w, it);
}

#[test]
fn struct_variants_round_trip() {
    let a = Item::Consumable { name: "Health Potion".to_string(), quantity: 5 };
    let mut out: Vec<u8> = Vec::new();
    encode_item(&mut out, &a);
    assert_eq!(out[0], 0x00);
    let (w, used) = decode_item(&out, 0).unwrap();
    assert_eq!(used, out.len());
    assert_eq!(w, a);

    let b = Item::Armor { defense: 30, durability: 95 };
    let mut out: Vec<u8> = Vec::new();
    encode_item(&mut out, &b);
    assert_eq!(out[0], 0x02);
    let (w, used) = decode_item(&out, 0).unwrap();
    assert_eq!(used, out.len());
    assert_eq!(w, b);
}

#[test]
fn weapon_with_and_without_element_round_trips() {
    let a = Weapon { name: "Frost Bow".to_string(), damage: 35, element: Some(Element::Ice) };
    let mut out: Vec<u8> = Vec::new();
    encode_weapon(&mut out, &a);
    let (w, used) = decode_weapon(&out, 0).unwrap();
    assert_eq!(used, out.len());
    assert_eq!(w, a);

    let b = Weapon { name: "Club".to_string(), damage: 3, element: None };
    let mut out: Vec<u8> = Vec::new();
    encode_weapon(&mut out, &b);
    let (w, used) = decode_weapon(&out, 0).unwrap();
    assert_eq!(used, out.len());
    assert_eq!(w, b);
}

#[test]
fn optional_element_tags() {
    let mut out: Vec<u8> = Vec::new();
    encode_opt_element(&mut out, &None);
    assert_eq!(out, vec![0x00]);
    let mut out: Vec<u8> = Vec::new();
    encode_opt_element(&mut out, &Some(Element::Lightning));
    assert_eq!(out, vec![0x01, 0x02]);
    assert_eq!(decode_opt_element(&out, 0), Ok((Some(Element::Lightning), 2)));
    assert_eq!(decode_opt_element(&[0x05], 0), Err(DecodeError::InvalidOptionTag));
}

#[test]
fn inventory_round_trips() {
    let inv = Inventory {
        items: vec![
            Item::Consumable { name: "Health Potion".to_string(), quantity: 5 },
            Item::Weapon(Weapon {
                name: "Flaming Sword".to_string(),
                damage: 50,
                element: Some(Element::Fire),
            }),
            Item::Armor { defense: 30, durability: 95 },
        ],
        capacity: 20,
        gold: 1500,
    };
    let mut out: Vec<u8> = Vec::new();
    encode_inventory(&mut out, &inv);
    let (w, used) = decode_inventory(&out, 0).unwrap();
    assert_eq!(used, out.len());
    assert_eq!(w, inv);
}

#[test]
fn empty_item_sequence_is_single_zero() {
    let mut out: Vec<u8> = Vec::new();
    encode_item_vec(&mut out, &Vec::new());
    assert_eq!(out, vec![0x00]);
    let (v, used) = decode_item_vec(&out, 0).unwrap();
    assert_eq!((v.len(), used), (0, 1));
}

#[test]
fn dragon_data_round_trips() {
    let v = DragonData { color: DragonColor::Red, age: 500 };
    let mut out: Vec<u8> = Vec::new();
    encode_dragon_data(&mut out, &v);
    let (w, used) = decode_dragon_data(&out, 0).unwrap();
    assert_eq!(used, out.len());
    assert_eq!(w, v);
}

#[test]
fn boss_info_round_trips() {
    let v = BossInfo { name: "The Final Test".to_string(), difficulty: 10 };
    let mut out: Vec<u8> = Vec::new();
    encode_boss_info(&mut out, &v);
    let (w, used) = decode_boss_info(&out, 0).unwrap();
    assert_eq!(used, out.len());
    assert_eq!(w, v);
}

#[test]
fn game_metadata_round_trips() {
    let v = GameMetadata {
        version: "1.0.0".to_string(),
        timestamp: 1699000000,
        difficulty: Difficulty::Normal,
    };
    let mut out: Vec<u8> = Vec::new();
    encode_game_metadata(&mut out, &v);
    let (w, used) = decode_game_metadata(&out, 0).unwrap();
    assert_eq!(used, out.len());
    assert_eq!(w, v);
}
