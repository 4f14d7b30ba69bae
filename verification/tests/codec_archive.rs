use carddefs::archive::{pack_cards, pack_then_unpack, unpack_cards, ArchiveError};
use carddefs::card::{Card, CardCollection};
use carddefs::codec::{decode_cards, encode_cards, DecodeError, FORMAT_MARKER};

fn sample_card() -> Card {
    Card {
        id: 17,
        version: 2,
        cost: 3,
        attack: 2,
        health: 4,
        cardid: String::from("TEST_001"),
        name: String::from("Test Card"),
        hand_text: Some(String::from("Deal 2 damage.")),
        flavor_text: None,
    }
}

fn empty_card() -> Card {
    Card {
        id: 0,
        version: 0,
        cost: 0,
        attack: 0,
        health: 0,
        cardid: String::new(),
        name: String::new(),
        hand_text: None,
        flavor_text: None,
    }
}

#[test]
fn round_trip_empty_collection() {
    let cards = CardCollection { cards: Vec::new() };
    let bytes = encode_cards(&cards);
    let back = decode_cards(bytes.as_slice()).expect("decode must succeed");
    assert_eq!(back, CardCollection { cards: Vec::new() });
}

#[test]
fn round_trip_all_defaults() {
    let cards = CardCollection { cards: vec![empty_card()] };
    let bytes = encode_cards(&cards);
    let back = decode_cards(bytes.as_slice()).expect("decode must succeed");
    assert_eq!(back.cards.len(), 1);
    assert_eq!(back.cards[0], empty_card());
}

#[test]
fn round_trip_full_record() {
    let cards = CardCollection { cards: vec![sample_card(), empty_card()] };
    let bytes = encode_cards(&cards);
    let back = decode_cards(bytes.as_slice()).expect("decode must succeed");
    assert_eq!(back.cards.len(), 2);
    assert_eq!(back.cards[0], sample_card());
    assert_eq!(back.cards[1], empty_card());
}

#[test]
fn round_trip_non_ascii_text() {
    let mut card = sample_card();
    card.name = String::from("Jaina Prachtmeer — Héroïne");
    card.flavor_text = Some(String::from("«…»"));
    let cards = CardCollection { cards: vec![card.clone()] };
    let bytes = encode_cards(&cards);
    let back = decode_cards(bytes.as_slice()).expect("decode must succeed");
    assert_eq!(back.cards[0], card);
}

#[test]
fn encoding_is_deterministic() {
    let cards = CardCollection { cards: vec![sample_card()] };
    let a = encode_cards(&cards);
    let b = encode_cards(&cards);
    assert_eq!(a, b);
}

#[test]
fn decode_empty_stream_is_truncated() {
    let empty: Vec<u8> = Vec::new();
    assert_eq!(decode_cards(empty.as_slice()), Err(DecodeError::Truncated));
}

#[test]
fn decode_bad_marker() {
    let cards = CardCollection { cards: vec![sample_card()] };
    let mut bytes = encode_cards(&cards);
    bytes[0] = FORMAT_MARKER.wrapping_add(1);
    assert_eq!(decode_cards(bytes.as_slice()), Err(DecodeError::BadMarker));
}

#[test]
fn decode_truncated_stream() {
    let cards = CardCollection { cards: vec![sample_card()] };
    let mut bytes = encode_cards(&cards);
    let keep = bytes.len() - 5;
    bytes.truncate(keep);
    assert_eq!(decode_cards(bytes.as_slice()), Err(DecodeError::Truncated));
}

#[test]
fn decode_trailing_bytes() {
    let cards = CardCollection { cards: vec![sample_card()] };
    let mut bytes = encode_cards(&cards);
    bytes.push(0);
    assert_eq!(decode_cards(bytes.as_slice()), Err(DecodeError::TrailingBytes));
}

#[test]
fn decode_bad_presence_flag() {
    let cards = CardCollection { cards: vec![empty_card()] };
    let mut bytes = encode_cards(&cards);
    // The last two bytes are the presence flags of the two optional fields.
    let at = bytes.len() - 1;
    bytes[at] = 7;
    assert_eq!(decode_cards(bytes.as_slice()), Err(DecodeError::BadMarker));
}

#[test]
fn decode_invalid_utf8_text() {
    let mut card = empty_card();
    card.cardid = String::from("AB");
    let cards = CardCollection { cards: vec![card] };
    let mut bytes = encode_cards(&cards);
    // The two cardid content bytes sit just before the empty name field
    // (8-byte length) and the two presence flags.
    let at = bytes.len() - 1 - 1 - 8 - 1;
    assert_eq!(bytes[at], b'B');
    bytes[at] = 0xFF;
    assert_eq!(decode_cards(bytes.as_slice()), Err(DecodeError::BadText));
}

#[test]
fn archive_round_trip() {
    let cards = CardCollection { cards: vec![sample_card(), empty_card()] };
    let packed = pack_cards(&cards).expect("compression must succeed");
    let back = unpack_cards(packed.as_slice()).expect("reading back must succeed");
    assert_eq!(back.cards, cards.cards);
}

#[test]
fn archive_round_trip_empty() {
    let cards = CardCollection { cards: Vec::new() };
    let packed = pack_cards(&cards).expect("compression must succeed");
    let back = unpack_cards(packed.as_slice()).expect("reading back must succeed");
    assert!(back.cards.is_empty());
}

#[test]
fn pack_then_unpack_law() {
    let cards = CardCollection { cards: vec![sample_card()] };
    let back = pack_then_unpack(&cards).expect("compression must succeed");
    assert_eq!(back.cards, cards.cards);
}

#[test]
fn artifact_really_is_a_compressed_frame() {
    // The artifact must start with the compressor's frame magic, not with
    // the codec's own format marker: the payload really went through the
    // compressor.
    let cards = CardCollection { cards: vec![sample_card()] };
    let packed = pack_cards(&cards).expect("compression must succeed");
    assert_eq!(&packed[0..4], &[0x04, 0x22, 0x4D, 0x18]);
}

#[test]
fn truncated_archive_is_an_error_not_a_panic() {
    let cards = CardCollection { cards: vec![sample_card(), empty_card()] };
    let mut packed = pack_cards(&cards).expect("compression must succeed");
    // Cut away the frame's tail together with part of the payload data, so
    // that bytes of the records themselves are missing.
    let keep = packed.len() / 2;
    packed.truncate(keep);
    match unpack_cards(packed.as_slice()) {
        Ok(_) => panic!("a truncated artifact must not read back"),
        Err(ArchiveError::CorruptFrame) => {}
        Err(ArchiveError::Decode(_)) => {}
    }
}

#[test]
fn garbage_archive_is_an_error() {
    let garbage: Vec<u8> = vec![9, 9, 9, 9, 9, 9, 9, 9];
    assert!(unpack_cards(garbage.as_slice()).is_err());
}
