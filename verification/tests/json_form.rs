use factorio_mod_settings_converter::error::DocumentError;
use factorio_mod_settings_converter::immutable_string::ImmutableString;
use factorio_mod_settings_converter::json::{JsonNumber, JsonValue};
use factorio_mod_settings_converter::mod_settings::{ModSettings, Version};
use factorio_mod_settings_converter::property_tree::{PropertyTree, PropertyTreeValue};

fn tree(value: PropertyTreeValue) -> PropertyTree {
    PropertyTree { value, any_type: false }
}

fn key(s: &str) -> ImmutableString {
    ImmutableString::from_string(s.to_string())
}

#[test]
fn text_of_strings() {
    assert_eq!(key("héllo").to_string_lossy(), Some("héllo".to_string()));
    assert_eq!(key("héllo").0, Some("héllo".as_bytes().to_vec()));
    assert_eq!(ImmutableString(None).to_string_lossy(), None);
    let bad = ImmutableString(Some(vec![b'a', 0xff, b'b']));
    assert_eq!(bad.to_string_lossy(), Some("a\u{fffd}b".to_string()));
}

#[test]
fn trees_become_json() {
    let t = PropertyTree {
        value: PropertyTreeValue::Dictionary(vec![
            (key("b"), tree(PropertyTreeValue::Bool(true))),
            (ImmutableString(None), tree(PropertyTreeValue::Null)),
            (key("n"), tree(PropertyTreeValue::Number(0.25f64.to_bits()))),
            (key("s"), tree(PropertyTreeValue::SignedInteger(-3))),
            (key("p"), tree(PropertyTreeValue::SignedInteger(3))),
            (key("u"), tree(PropertyTreeValue::UnsignedInteger(7))),
            (key("none"), tree(PropertyTreeValue::String(ImmutableString(None)))),
            (
                key("l"),
                tree(PropertyTreeValue::List(vec![tree(PropertyTreeValue::String(key("x")))])),
            ),
        ]),
        any_type: true,
    };
    let expected = JsonValue::Object(vec![
        ("b".to_string(), JsonValue::Bool(true)),
        ("n".to_string(), JsonValue::Number(JsonNumber::Float(0.25f64.to_bits()))),
        ("s".to_string(), JsonValue::Number(JsonNumber::NegInt(-3))),
        ("p".to_string(), JsonValue::Number(JsonNumber::PosInt(3))),
        ("u".to_string(), JsonValue::Number(JsonNumber::PosInt(7))),
        ("none".to_string(), JsonValue::Null),
        ("l".to_string(), JsonValue::Array(vec![JsonValue::String("x".to_string())])),
    ]);
    assert_eq!(t.to_json_value(), expected);
}

#[test]
fn json_becomes_trees() {
    let j = JsonValue::Array(vec![
        JsonValue::Number(JsonNumber::PosInt(5)),
        JsonValue::Number(JsonNumber::PosInt(u64::MAX)),
        JsonValue::Number(JsonNumber::PosInt(i64::MAX as u64)),
        JsonValue::Number(JsonNumber::NegInt(-9)),
        JsonValue::Number(JsonNumber::Float(1.25f64.to_bits())),
        JsonValue::String("ü".to_string()),
        JsonValue::Object(vec![("k".to_string(), JsonValue::Null)]),
    ]);
    let expected = tree(PropertyTreeValue::List(vec![
        tree(PropertyTreeValue::SignedInteger(5)),
        tree(PropertyTreeValue::UnsignedInteger(u64::MAX)),
        tree(PropertyTreeValue::SignedInteger(i64::MAX)),
        tree(PropertyTreeValue::SignedInteger(-9)),
        tree(PropertyTreeValue::Number(1.25f64.to_bits())),
        tree(PropertyTreeValue::String(ImmutableString(Some(vec![0xc3, 0xbc])))),
        tree(PropertyTreeValue::Dictionary(vec![(key("k"), tree(PropertyTreeValue::Null))])),
    ]));
    assert_eq!(PropertyTree::from_json_value(j), expected);
}

#[test]
fn json_round_trip() {
    let j = JsonValue::Object(vec![
        ("a".to_string(), JsonValue::Number(JsonNumber::NegInt(-1))),
        ("a".to_string(), JsonValue::Array(vec![JsonValue::Bool(false), JsonValue::Null])),
        ("z".to_string(), JsonValue::Number(JsonNumber::PosInt(1 << 63))),
        ("s".to_string(), JsonValue::String("text".to_string())),
    ]);
    let back = PropertyTree::from_json_value(j);
    let j2 = JsonValue::Object(vec![
        ("a".to_string(), JsonValue::Number(JsonNumber::NegInt(-1))),
        ("a".to_string(), JsonValue::Array(vec![JsonValue::Bool(false), JsonValue::Null])),
        ("z".to_string(), JsonValue::Number(JsonNumber::PosInt(1 << 63))),
        ("s".to_string(), JsonValue::String("text".to_string())),
    ]);
    assert_eq!(back.to_json_value(), j2);
}

#[test]
fn tree_json_round_trip() {
    let t = tree(PropertyTreeValue::Dictionary(vec![
        (key("i"), tree(PropertyTreeValue::SignedInteger(-40))),
        (key("u"), tree(PropertyTreeValue::UnsignedInteger(u64::MAX))),
        (key("s"), tree(PropertyTreeValue::String(key("v")))),
    ]));
    let j = t.to_json_value();
    assert_eq!(PropertyTree::from_json_value(j), t);
}

#[test]
fn small_unsigned_integers_read_back_as_signed() {
    let t = tree(PropertyTreeValue::UnsignedInteger(12));
    let back = PropertyTree::from_json_value(t.to_json_value());
    assert_eq!(back, tree(PropertyTreeValue::SignedInteger(12)));
}

#[test]
fn documents_must_be_mod_settings() {
    let ok = ModSettings::from_document(
        "ModSettings".to_string(),
        Version(1, 1, 0, 0),
        false,
        tree(PropertyTreeValue::Null),
    );
    assert_eq!(
        ok,
        Ok(ModSettings {
            object_type: "ModSettings".to_string(),
            version: Version(1, 1, 0, 0),
            has_quality: false,
            data: tree(PropertyTreeValue::Null),
        })
    );
    let bad = ModSettings::from_document(
        "Other".to_string(),
        Version(1, 1, 0, 0),
        false,
        tree(PropertyTreeValue::Null),
    );
    assert_eq!(bad, Err(DocumentError::UnknownObjectType("Other".to_string())));
}

#[test]
fn loaded_settings_are_named_mod_settings() {
    let bytes = vec![1, 0, 1, 0, 0, 0, 0, 0, 0, 0, 0];
    let m = ModSettings::load(&bytes).unwrap();
    assert_eq!(m.object_type, "ModSettings");
    assert!(!m.has_quality);
}

#[test]
fn json_form_ignores_any_type() {
    let flagged = PropertyTree {
        value: PropertyTreeValue::List(vec![PropertyTree {
            value: PropertyTreeValue::Bool(true),
            any_type: true,
        }]),
        any_type: true,
    };
    let plain = tree(PropertyTreeValue::List(vec![tree(PropertyTreeValue::Bool(true))]));
    assert_eq!(flagged.to_json_value(), plain.to_json_value());
    assert_eq!(PropertyTree::from_json_value(flagged.to_document()), plain);
}
