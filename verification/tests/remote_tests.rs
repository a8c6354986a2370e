use base64::Engine;
use nft_relay::model::Field;
use nft_relay::model::FieldValue;
use nft_relay::model::Item;
use nft_relay::model::Resource;
use nft_relay::model::Root;
use nft_relay::model::TaggedValue;
use nft_relay::remote::decode_script_response;
use nft_relay::remote::flatten_all;
use nft_relay::remote::get_user_script;

#[test]
fn request_body_embeds_script_and_argument_as_base64() {
    let body = get_user_script("0xceed54f46d4b1942".to_string());
    let v: serde_json::Value = serde_json::from_str(&body).unwrap();
    let script_b64 = v["script"].as_str().unwrap();
    let script = base64::engine::general_purpose::STANDARD.decode(script_b64).unwrap();
    let script = String::from_utf8(script).unwrap();
    assert!(script.contains("import MetaLootNFT from 0xceed54f46d4b1942"));
    assert!(script.contains("fun main(address: Address)"));
    let args = v["arguments"].as_array().unwrap();
    assert_eq!(args.len(), 1);
    let arg = base64::engine::general_purpose::STANDARD
        .decode(args[0].as_str().unwrap())
        .unwrap();
    let arg = String::from_utf8(arg).unwrap();
    assert_eq!(arg, "{\"type\":\"Address\",\"value\":\"0xceed54f46d4b1942\"}");
}

#[test]
fn response_is_unquoted_trimmed_and_decoded() {
    let payload = "{\"type\":\"Array\",\"value\":[]}";
    let blob = base64::engine::general_purpose::STANDARD.encode(payload.as_bytes());
    let body = format!("\"{}\n\"", blob);
    assert_eq!(decode_script_response(&body).as_deref(), Some(payload));
}

#[test]
fn malformed_base64_yields_no_data() {
    assert!(decode_script_response("\"not base64!!\"").is_none());
}

#[test]
fn non_utf8_payload_yields_no_data() {
    let blob = base64::engine::general_purpose::STANDARD.encode([0xffu8, 0xfe, 0xff]);
    let body = format!("\"{}\"", blob);
    assert!(decode_script_response(&body).is_none());
}

#[test]
fn flatten_all_flattens_each_resource_in_order() {
    let resource = |name: &str| Resource {
        fields: vec![Field {
            name: "name".to_string(),
            value: FieldValue {
                data_type: "String".to_string(),
                value: TaggedValue::Text(name.to_string()),
            },
        }],
        id: String::new(),
    };
    let root = Root {
        data_type: "Array".to_string(),
        value: vec![
            Item { data_type: "Resource".to_string(), value: resource("one") },
            Item { data_type: "Resource".to_string(), value: resource("two") },
        ],
    };
    let flat = flatten_all(&root);
    assert_eq!(flat.len(), 2);
    assert_eq!(flat[0].name, "one");
    assert_eq!(flat[1].name, "two");
}
