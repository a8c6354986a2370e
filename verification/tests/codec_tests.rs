use nft_relay::codec::command_text;
use nft_relay::codec::decode_mint_message;
use nft_relay::codec::encode_mint_message;
use nft_relay::codec::Command;
use nft_relay::model::NFTAttributes;
use nft_relay::model::NFTItem;

fn item(name: &str, typ: &str, key: &str, value: &str, thumb: &str) -> NFTItem {
    NFTItem {
        item_name: name.to_string(),
        item_type: typ.to_string(),
        attributes: NFTAttributes { key: key.to_string(), value: value.to_string() },
        thumb_nail: thumb.to_string(),
    }
}

#[test]
fn encode_mint_message_exact_text() {
    let encoded = encode_mint_message(&item("Sword", "weapon", "rarity", "rare", "url"));
    assert_eq!(
        encoded,
        "{\"data\":{\"itemName\":\"Sword\",\"itemType\":\"weapon\",\
         \"attributes\":{\"key\":\"rarity\",\"value\":\"rare\"},\
         \"thumbNail\":\"url\"},\"type\":\"mint-nft\"}"
    );
}

#[test]
fn encoded_mint_message_is_well_formed_json() {
    let encoded = encode_mint_message(&item("Sword", "weapon", "rarity", "rare", "url"));
    let v: serde_json::Value = serde_json::from_str(&encoded).unwrap();
    assert_eq!(v["type"], "mint-nft");
    assert_eq!(v["data"]["itemName"], "Sword");
    assert_eq!(v["data"]["itemType"], "weapon");
    assert_eq!(v["data"]["attributes"]["key"], "rarity");
    assert_eq!(v["data"]["attributes"]["value"], "rare");
    assert_eq!(v["data"]["thumbNail"], "url");
}

#[test]
fn mint_message_round_trips_exactly() {
    let original = item("Sword of \"Truth\"", "weapon\\melee", "rarity", "ra\"re", "u\\rl");
    let encoded = encode_mint_message(&original);
    let decoded = decode_mint_message(&encoded).unwrap();
    assert_eq!(decoded.item_name, original.item_name);
    assert_eq!(decoded.item_type, original.item_type);
    assert_eq!(decoded.attributes.key, original.attributes.key);
    assert_eq!(decoded.attributes.value, original.attributes.value);
    assert_eq!(decoded.thumb_nail, original.thumb_nail);
}

#[test]
fn mint_message_with_escapes_stays_valid_json() {
    let original = item("a\"b", "c\\d", "k", "v", "t");
    let encoded = encode_mint_message(&original);
    let v: serde_json::Value = serde_json::from_str(&encoded).unwrap();
    assert_eq!(v["data"]["itemName"], "a\"b");
    assert_eq!(v["data"]["itemType"], "c\\d");
}

#[test]
fn decode_rejects_texts_the_encoder_never_produces() {
    assert!(decode_mint_message("nonsense").is_none());
    assert!(decode_mint_message("").is_none());
    let mut with_tail = encode_mint_message(&item("a", "b", "c", "d", "e"));
    with_tail.push(' ');
    assert!(decode_mint_message(&with_tail).is_none());
    let truncated = "{\"data\":{\"itemName\":\"Sword";
    assert!(decode_mint_message(truncated).is_none());
}

#[test]
fn lifecycle_commands_encode_as_bare_words() {
    assert_eq!(command_text(&Command::GameStart), "game-start");
    assert_eq!(command_text(&Command::GameEnd), "game-end");
}

#[test]
fn mint_command_text_is_the_encoded_item() {
    let it = item("a", "b", "c", "d", "e");
    let direct = encode_mint_message(&it);
    let via_command = command_text(&Command::MintNft(item("a", "b", "c", "d", "e")));
    assert_eq!(direct, via_command);
}
