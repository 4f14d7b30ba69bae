use carddefs::archive::{pack_cards, unpack_cards};
use carddefs::card::CardCollection;
use carddefs::codec::{decode_cards, encode_cards};
use carddefs::xml_parser::{numeric_u32_or_zero, numeric_u8_or_zero, parse_carddefs_xml};

fn test_doc() -> Vec<u8> {
    let doc = "<CardDefs><Entity CardID=\"TEST_001\" ID=\"1\" version=\"1\"><Tag name=\"COST\" value=\"3\"/><Tag name=\"ATK\" value=\"2\"/><Tag name=\"HEALTH\" value=\"4\"/><Tag name=\"CARDNAME\"><enUS>Test Card</enUS></Tag></Entity></CardDefs>";
    doc.as_bytes().to_vec()
}

#[test]
fn concrete_scenario_en_us() {
    let cards = parse_carddefs_xml(test_doc(), "enUS");
    assert_eq!(cards.cards.len(), 1);
    let c = &cards.cards[0];
    assert_eq!(c.id, 1);
    assert_eq!(c.version, 1);
    assert_eq!(c.cost, 3);
    assert_eq!(c.attack, 2);
    assert_eq!(c.health, 4);
    assert_eq!(c.cardid, "TEST_001");
    assert_eq!(c.name, "Test Card");
    assert_eq!(c.hand_text, None);
    assert_eq!(c.flavor_text, None);
}

#[test]
fn concrete_scenario_codec_and_archive() {
    let cards = parse_carddefs_xml(test_doc(), "enUS");
    let bytes = encode_cards(&cards);
    let decoded = decode_cards(bytes.as_slice()).expect("decode must succeed");
    assert_eq!(decoded.cards, cards.cards);
    let packed = pack_cards(&cards).expect("compression must succeed");
    let unpacked = unpack_cards(packed.as_slice()).expect("reading back must succeed");
    assert_eq!(unpacked.cards, cards.cards);
}

#[test]
fn absent_locale_leaves_name_empty() {
    let cards = parse_carddefs_xml(test_doc(), "frFR");
    assert_eq!(cards.cards.len(), 1);
    assert_eq!(cards.cards[0].name, "");
    assert_eq!(cards.cards[0].cost, 3);
}

#[test]
fn missing_cost_defaults_to_zero() {
    let doc = "<CardDefs><Entity CardID=\"X\" ID=\"5\" version=\"2\"><Tag name=\"ATK\" value=\"7\"/></Entity></CardDefs>";
    let cards = parse_carddefs_xml(doc.as_bytes().to_vec(), "enUS");
    assert_eq!(cards.cards.len(), 1);
    assert_eq!(cards.cards[0].cost, 0);
    assert_eq!(cards.cards[0].attack, 7);
}

#[test]
fn non_numeric_id_defaults_to_zero() {
    let doc = "<CardDefs><Entity CardID=\"X\" ID=\"not-a-number\" version=\"1\"></Entity><Entity CardID=\"Y\" ID=\"12\" version=\"boom\"></Entity></CardDefs>";
    let cards = parse_carddefs_xml(doc.as_bytes().to_vec(), "enUS");
    assert_eq!(cards.cards.len(), 2);
    assert_eq!(cards.cards[0].id, 0);
    assert_eq!(cards.cards[0].version, 1);
    assert_eq!(cards.cards[1].id, 12);
    assert_eq!(cards.cards[1].version, 0);
}

#[test]
fn unknown_tag_is_ignored() {
    let doc = "<CardDefs><Entity CardID=\"X\" ID=\"3\" version=\"1\"><Tag name=\"SOMETHING_NEW\" value=\"99\"/><Tag name=\"COST\" value=\"2\"/></Entity></CardDefs>";
    let cards = parse_carddefs_xml(doc.as_bytes().to_vec(), "enUS");
    assert_eq!(cards.cards.len(), 1);
    assert_eq!(cards.cards[0].cost, 2);
    assert_eq!(cards.cards[0].attack, 0);
    assert_eq!(cards.cards[0].health, 0);
}

#[test]
fn localized_text_is_unescaped() {
    let doc = "<CardDefs><Entity CardID=\"X\" ID=\"3\" version=\"1\"><Tag name=\"CARDNAME\"><enUS>Test &amp; Card</enUS></Tag><Tag name=\"CARDTEXT\"><deDE>Nein</deDE><enUS>Deal &lt;2&gt; damage.</enUS></Tag></Entity></CardDefs>";
    let cards = parse_carddefs_xml(doc.as_bytes().to_vec(), "enUS");
    assert_eq!(cards.cards.len(), 1);
    assert_eq!(cards.cards[0].name, "Test & Card");
    assert_eq!(
        cards.cards[0].hand_text,
        Some(String::from("Deal <2> damage."))
    );
    assert_eq!(cards.cards[0].flavor_text, None);
}

#[test]
fn several_entities_keep_document_order() {
    let doc = "<CardDefs><Entity CardID=\"A\" ID=\"1\" version=\"1\"></Entity><Entity CardID=\"B\" ID=\"2\" version=\"1\"></Entity><Entity CardID=\"C\" ID=\"3\" version=\"1\"></Entity></CardDefs>";
    let cards = parse_carddefs_xml(doc.as_bytes().to_vec(), "enUS");
    let ids: Vec<u32> = cards.cards.iter().map(|c| c.id).collect();
    assert_eq!(ids, vec![1, 2, 3]);
    let names: Vec<String> = cards.cards.iter().map(|c| c.cardid.clone()).collect();
    assert_eq!(names, vec!["A", "B", "C"]);
}

#[test]
fn unterminated_entity_is_dropped() {
    let doc = "<CardDefs><Entity CardID=\"A\" ID=\"1\" version=\"1\"></Entity><Entity CardID=\"B\" ID=\"2\" version=\"1\">";
    let cards = parse_carddefs_xml(doc.as_bytes().to_vec(), "enUS");
    assert_eq!(cards.cards.len(), 1);
    assert_eq!(cards.cards[0].cardid, "A");
}

#[test]
fn empty_document_yields_empty_collection() {
    let cards = parse_carddefs_xml(Vec::new(), "enUS");
    assert!(cards.cards.is_empty());
}

#[test]
fn whole_pipeline_on_parsed_document() {
    let cards = parse_carddefs_xml(test_doc(), "enUS");
    let packed = pack_cards(&cards).expect("compression must succeed");
    let back: CardCollection = unpack_cards(packed.as_slice()).expect("read back");
    assert_eq!(back.cards, cards.cards);
}

#[test]
fn numeric_policy_exact_values() {
    assert_eq!(numeric_u32_or_zero("0"), 0);
    assert_eq!(numeric_u32_or_zero("3"), 3);
    assert_eq!(numeric_u32_or_zero("+41"), 41);
    assert_eq!(numeric_u32_or_zero("4294967295"), 4294967295);
    assert_eq!(numeric_u32_or_zero("4294967296"), 0);
    assert_eq!(numeric_u32_or_zero("99999999999999999999"), 0);
    assert_eq!(numeric_u32_or_zero(""), 0);
    assert_eq!(numeric_u32_or_zero("+"), 0);
    assert_eq!(numeric_u32_or_zero("-3"), 0);
    assert_eq!(numeric_u32_or_zero(" 3"), 0);
    assert_eq!(numeric_u32_or_zero("3x"), 0);
    assert_eq!(numeric_u8_or_zero("255"), 255);
    assert_eq!(numeric_u8_or_zero("256"), 0);
    assert_eq!(numeric_u8_or_zero("12"), 12);
}
