use factorio_mod_settings_converter::immutable_string::ImmutableString;
use factorio_mod_settings_converter::json::{JsonNumber, JsonValue};
use factorio_mod_settings_converter::property_tree::{PropertyTree, PropertyTreeValue};

fn tree(value: PropertyTreeValue) -> PropertyTree {
    PropertyTree { value, any_type: false }
}

fn key(s: &str) -> ImmutableString {
    ImmutableString::from_string(s.to_string())
}

fn pos_int(i: i64) -> JsonValue {
    JsonValue::Number(JsonNumber::PosInt(i as u64))
}

#[test]
fn later_duplicate_key_wins() {
    let t = tree(PropertyTreeValue::Dictionary(vec![
        (ImmutableString(Some(vec![97u8])), tree(PropertyTreeValue::SignedInteger(1))),
        (ImmutableString(Some(vec![97u8])), tree(PropertyTreeValue::SignedInteger(2))),
    ]));
    assert_eq!(t.to_document(), JsonValue::Object(vec![("a".to_string(), pos_int(2))]));
}

#[test]
fn members_come_out_ordered_by_key_bytes() {
    let j = JsonValue::Object(vec![
        ("b".to_string(), pos_int(1)),
        ("ab".to_string(), pos_int(2)),
        ("B".to_string(), pos_int(3)),
        ("a".to_string(), pos_int(4)),
        ("é".to_string(), pos_int(5)),
        ("b".to_string(), pos_int(6)),
    ]);
    let expected = JsonValue::Object(vec![
        ("B".to_string(), pos_int(3)),
        ("a".to_string(), pos_int(4)),
        ("ab".to_string(), pos_int(2)),
        ("b".to_string(), pos_int(6)),
        ("é".to_string(), pos_int(5)),
    ]);
    assert_eq!(j.document_form(), expected);
}

#[test]
fn nested_objects_are_put_in_document_form() {
    let j = JsonValue::Array(vec![
        JsonValue::Object(vec![
            ("z".to_string(), JsonValue::Object(vec![
                ("y".to_string(), JsonValue::Null),
                ("x".to_string(), JsonValue::Bool(true)),
            ])),
            ("z".to_string(), JsonValue::String("last".to_string())),
        ]),
        JsonValue::Object(vec![]),
    ]);
    let expected = JsonValue::Array(vec![
        JsonValue::Object(vec![("z".to_string(), JsonValue::String("last".to_string()))]),
        JsonValue::Object(vec![]),
    ]);
    assert_eq!(j.document_form(), expected);
    let inner = JsonValue::Object(vec![
        ("y".to_string(), JsonValue::Null),
        ("x".to_string(), JsonValue::Bool(true)),
    ]);
    assert_eq!(
        inner.document_form(),
        JsonValue::Object(vec![
            ("x".to_string(), JsonValue::Bool(true)),
            ("y".to_string(), JsonValue::Null),
        ])
    );
}

#[test]
fn ordered_documents_are_unchanged() {
    let j = JsonValue::Object(vec![
        ("a".to_string(), JsonValue::Array(vec![pos_int(1), JsonValue::Null])),
        ("b".to_string(), JsonValue::Number(JsonNumber::NegInt(-4))),
        ("c".to_string(), JsonValue::Number(JsonNumber::Float(0.5f64.to_bits()))),
    ]);
    let copy = JsonValue::Object(vec![
        ("a".to_string(), JsonValue::Array(vec![pos_int(1), JsonValue::Null])),
        ("b".to_string(), JsonValue::Number(JsonNumber::NegInt(-4))),
        ("c".to_string(), JsonValue::Number(JsonNumber::Float(0.5f64.to_bits()))),
    ]);
    assert_eq!(j.document_form(), copy);
    let back = PropertyTree::from_json_value(j).to_document();
    assert_eq!(back, copy);
}

#[test]
fn document_of_a_settings_tree() {
    let t = PropertyTree {
        value: PropertyTreeValue::Dictionary(vec![
            (key("startup"), tree(PropertyTreeValue::Dictionary(vec![]))),
            (ImmutableString(None), tree(PropertyTreeValue::Null)),
            (key("runtime-global"), tree(PropertyTreeValue::UnsignedInteger(3))),
        ]),
        any_type: true,
    };
    let expected = JsonValue::Object(vec![
        ("runtime-global".to_string(), pos_int(3)),
        ("startup".to_string(), JsonValue::Object(vec![])),
    ]);
    assert_eq!(t.to_document(), expected);
}

#[test]
fn unsorted_unique_keys_keep_their_entries() {
    let t = tree(PropertyTreeValue::Dictionary(vec![
        (key("zeta"), tree(PropertyTreeValue::String(key("last")))),
        (key("alpha"), tree(PropertyTreeValue::List(vec![
            tree(PropertyTreeValue::Bool(true)),
            tree(PropertyTreeValue::UnsignedInteger(7)),
        ]))),
        (key("mid"), tree(PropertyTreeValue::SignedInteger(-2))),
    ]));
    let back = PropertyTree::from_json_value(t.to_document());
    let expected = tree(PropertyTreeValue::Dictionary(vec![
        (key("alpha"), tree(PropertyTreeValue::List(vec![
            tree(PropertyTreeValue::Bool(true)),
            tree(PropertyTreeValue::SignedInteger(7)),
        ]))),
        (key("mid"), tree(PropertyTreeValue::SignedInteger(-2))),
        (key("zeta"), tree(PropertyTreeValue::String(key("last")))),
    ]));
    assert_eq!(back, expected);
}
