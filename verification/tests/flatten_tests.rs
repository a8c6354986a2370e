use nft_relay::model::Field;
use nft_relay::model::FieldValue;
use nft_relay::model::Resource;
use nft_relay::model::TaggedValue;

fn field(name: &str, value: TaggedValue) -> Field {
    Field {
        name: name.to_string(),
        value: FieldValue { data_type: "String".to_string(), value },
    }
}

fn text(s: &str) -> TaggedValue {
    TaggedValue::Text(s.to_string())
}

fn pair(key: &str, value: &str) -> TaggedValue {
    TaggedValue::Pair(Box::new(text(key)), Box::new(text(value)))
}

#[test]
fn flatten_well_formed_resource() {
    let resource = Resource {
        fields: vec![
            field("uuid", text("u1")),
            field("id", text("i1")),
            field("name", text("n")),
            field("description", text("d")),
            field("thumbnail", text("t")),
            field("attributes", TaggedValue::Sequence(vec![pair("rarity", "rare")])),
            field("metadata", TaggedValue::Sequence(vec![])),
        ],
        id: "i1".to_string(),
    };
    let flat = resource.flatten();
    assert_eq!(flat.uuid, "u1");
    assert_eq!(flat.id, "i1");
    assert_eq!(flat.name, "n");
    assert_eq!(flat.description, "d");
    assert_eq!(flat.thumbnail, "t");
    assert_eq!(
        flat.attributes.get(&"rarity".to_string()).map(|s| s.as_str()),
        Some("rare")
    );
    assert!(flat.metadata.is_empty());
}

#[test]
fn flatten_is_idempotent_on_well_formed_input() {
    // Flattening a resource whose fields already carry exactly the flat
    // values reproduces those values unchanged.
    let make = || Resource {
        fields: vec![
            field("uuid", text("u1")),
            field("id", text("i1")),
            field("name", text("n")),
            field("description", text("d")),
            field("thumbnail", text("t")),
            field("attributes", TaggedValue::Sequence(vec![pair("rarity", "rare")])),
            field("metadata", TaggedValue::Sequence(vec![])),
        ],
        id: "i1".to_string(),
    };
    let once = make().flatten();
    let twice = make().flatten();
    assert_eq!(once.uuid, twice.uuid);
    assert_eq!(once.id, twice.id);
    assert_eq!(once.name, twice.name);
    assert_eq!(once.description, twice.description);
    assert_eq!(once.thumbnail, twice.thumbnail);
    assert_eq!(
        once.attributes.get(&"rarity".to_string()),
        twice.attributes.get(&"rarity".to_string())
    );
    assert!(twice.metadata.is_empty());
}

#[test]
fn attributes_not_a_sequence_yields_empty_mapping() {
    let resource = Resource {
        fields: vec![field("attributes", text("not-a-sequence"))],
        id: String::new(),
    };
    let flat = resource.flatten();
    assert!(flat.attributes.is_empty());
}

#[test]
fn duplicate_name_fields_last_occurrence_wins() {
    let resource = Resource {
        fields: vec![field("name", text("first")), field("name", text("second"))],
        id: String::new(),
    };
    let flat = resource.flatten();
    assert_eq!(flat.name, "second");
}

#[test]
fn malformed_entries_are_skipped_individually() {
    let entries = vec![
        TaggedValue::Other,
        pair("a", "1"),
        TaggedValue::Pair(Box::new(TaggedValue::Other), Box::new(text("x"))),
        pair("b", "2"),
    ];
    let resource = Resource {
        fields: vec![field("attributes", TaggedValue::Sequence(entries))],
        id: String::new(),
    };
    let flat = resource.flatten();
    assert_eq!(flat.attributes.get(&"a".to_string()).map(|s| s.as_str()), Some("1"));
    assert_eq!(flat.attributes.get(&"b".to_string()).map(|s| s.as_str()), Some("2"));
    assert!(flat.attributes.get(&"x".to_string()).is_none());
}

#[test]
fn unknown_fields_and_non_string_scalars_are_ignored() {
    let resource = Resource {
        fields: vec![
            field("unexpected", text("zzz")),
            field("uuid", TaggedValue::Other),
        ],
        id: String::new(),
    };
    let flat = resource.flatten();
    assert_eq!(flat.uuid, "");
    assert_eq!(flat.name, "");
    assert!(flat.attributes.is_empty());
}

#[test]
fn later_attribute_entry_overrides_earlier_key() {
    let entries = vec![pair("k", "v1"), pair("k", "v2")];
    let resource = Resource {
        fields: vec![field("attributes", TaggedValue::Sequence(entries))],
        id: String::new(),
    };
    let flat = resource.flatten();
    assert_eq!(flat.attributes.get(&"k".to_string()).map(|s| s.as_str()), Some("v2"));
}
