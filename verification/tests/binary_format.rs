use factorio_mod_settings_converter::error::LoadError;
use factorio_mod_settings_converter::immutable_string::ImmutableString;
use factorio_mod_settings_converter::mod_settings::{ModSettings, Version};
use factorio_mod_settings_converter::property_tree::{
    PropertyTree, PropertyTreeType, PropertyTreeValue,
};

fn tree(value: PropertyTreeValue) -> PropertyTree {
    PropertyTree { value, any_type: false }
}

fn string_tree(s: &str) -> PropertyTree {
    tree(PropertyTreeValue::String(ImmutableString::from_string(s.to_string())))
}

fn save_tree(t: &PropertyTree) -> Vec<u8> {
    let mut out = Vec::new();
    t.save(&mut out);
    out
}

#[test]
fn absent_string_is_one_byte() {
    let mut out = Vec::new();
    ImmutableString(None).save(&mut out);
    assert_eq!(out, vec![1]);
    assert_eq!(ImmutableString::load(&[1]), Ok((ImmutableString(None), 1)));
    // Any first byte other than 0 marks an absent string.
    assert_eq!(ImmutableString::load(&[7, 3, 3]), Ok((ImmutableString(None), 1)));
}

#[test]
fn short_string_has_a_length_byte() {
    let s = ImmutableString::from_string("abc".to_string());
    let mut out = Vec::new();
    s.save(&mut out);
    assert_eq!(out, vec![0, 3, b'a', b'b', b'c']);
    assert_eq!(ImmutableString::load(&[0, 3, b'a', b'b', b'c', 9]), Ok((s, 5)));
}

#[test]
fn long_string_has_a_u32_length() {
    let bytes = vec![b'x'; 300];
    let s = ImmutableString(Some(bytes.clone()));
    let mut out = Vec::new();
    s.save(&mut out);
    assert_eq!(&out[..6], &[0, 0xff, 0x2c, 0x01, 0, 0]);
    assert_eq!(out.len(), 306);
    assert_eq!(ImmutableString::load(&out), Ok((s, 306)));
}

#[test]
fn length_255_uses_the_long_form() {
    let s = ImmutableString(Some(vec![b'y'; 255]));
    let mut out = Vec::new();
    s.save(&mut out);
    assert_eq!(&out[..6], &[0, 0xff, 0xff, 0, 0, 0]);
    assert_eq!(ImmutableString::load(&out), Ok((s, 261)));
}

#[test]
fn truncated_string_is_refused() {
    assert_eq!(ImmutableString::load(&[]), Err(LoadError::UnexpectedEof));
    assert_eq!(ImmutableString::load(&[0]), Err(LoadError::UnexpectedEof));
    assert_eq!(ImmutableString::load(&[0, 4, b'a']), Err(LoadError::UnexpectedEof));
    assert_eq!(ImmutableString::load(&[0, 0xff, 1, 0]), Err(LoadError::UnexpectedEof));
    assert_eq!(ImmutableString::load(&[0, 0xff, 2, 0, 0, 0, b'a']), Err(LoadError::UnexpectedEof));
}

#[test]
fn type_tags() {
    assert_eq!(PropertyTreeType::from_u8(0), Ok(PropertyTreeType::Null));
    assert_eq!(PropertyTreeType::from_u8(1), Ok(PropertyTreeType::Bool));
    assert_eq!(PropertyTreeType::from_u8(2), Ok(PropertyTreeType::Number));
    assert_eq!(PropertyTreeType::from_u8(3), Ok(PropertyTreeType::String));
    assert_eq!(PropertyTreeType::from_u8(4), Ok(PropertyTreeType::List));
    assert_eq!(PropertyTreeType::from_u8(5), Ok(PropertyTreeType::Dictionary));
    assert_eq!(PropertyTreeType::from_u8(6), Ok(PropertyTreeType::SignedInteger));
    assert_eq!(PropertyTreeType::from_u8(7), Ok(PropertyTreeType::UnsignedInteger));
    assert_eq!(PropertyTreeType::from_u8(8), Err(LoadError::UnknownType(8)));
    assert_eq!(PropertyTreeType::Dictionary.to_u8(), 5);
}

#[test]
fn scalar_trees_are_written_and_read() {
    let t = PropertyTree { value: PropertyTreeValue::Bool(true), any_type: true };
    assert_eq!(save_tree(&t), vec![1, 1, 1]);
    assert_eq!(PropertyTree::load(&[1, 1, 1]), Ok((t, 3)));
    // Any non-zero flag byte reads as set.
    let t2 = PropertyTree { value: PropertyTreeValue::Bool(true), any_type: true };
    assert_eq!(PropertyTree::load(&[1, 5, 2]), Ok((t2, 3)));

    let n = tree(PropertyTreeValue::Number(1.5f64.to_bits()));
    let mut expected = vec![2, 0];
    expected.extend_from_slice(&1.5f64.to_le_bytes());
    assert_eq!(save_tree(&n), expected);
    assert_eq!(PropertyTree::load(&expected), Ok((n, 10)));

    let s = tree(PropertyTreeValue::SignedInteger(-2));
    let bytes = save_tree(&s);
    assert_eq!(bytes, vec![6, 0, 0xfe, 0xff, 0xff, 0xff, 0xff, 0xff, 0xff, 0xff]);
    assert_eq!(PropertyTree::load(&bytes), Ok((s, 10)));

    let u = tree(PropertyTreeValue::UnsignedInteger(0x0102_0304_0506_0708));
    let bytes = save_tree(&u);
    assert_eq!(bytes, vec![7, 0, 8, 7, 6, 5, 4, 3, 2, 1]);
    assert_eq!(PropertyTree::load(&bytes), Ok((u, 10)));

    assert_eq!(PropertyTree::load(&[0, 0, 42]), Ok((tree(PropertyTreeValue::Null), 2)));
}

#[test]
fn list_items_are_keyed_by_the_absent_string() {
    let t = tree(PropertyTreeValue::List(vec![
        tree(PropertyTreeValue::Bool(false)),
        string_tree("a"),
    ]));
    let bytes = save_tree(&t);
    assert_eq!(bytes, vec![4, 0, 2, 0, 0, 0, 1, 1, 0, 0, 1, 3, 0, 0, 1, b'a']);
    assert_eq!(PropertyTree::load(&bytes), Ok((t, 16)));
}

#[test]
fn list_keys_are_dropped_when_read() {
    let bytes = vec![4, 0, 1, 0, 0, 0, 0, 1, b'k', 0, 0];
    let expected = tree(PropertyTreeValue::List(vec![tree(PropertyTreeValue::Null)]));
    assert_eq!(PropertyTree::load(&bytes), Ok((expected, 11)));
}

#[test]
fn dictionary_round_trip() {
    let t = tree(PropertyTreeValue::Dictionary(vec![
        (ImmutableString::from_string("x".to_string()), tree(PropertyTreeValue::SignedInteger(5))),
        (ImmutableString(None), string_tree("v")),
        (
            ImmutableString::from_string("nested".to_string()),
            tree(PropertyTreeValue::Dictionary(vec![(
                ImmutableString::from_string("y".to_string()),
                tree(PropertyTreeValue::List(vec![])),
            )])),
        ),
    ]));
    let bytes = save_tree(&t);
    assert_eq!(&bytes[..6], &[5, 0, 3, 0, 0, 0]);
    assert_eq!(PropertyTree::load(&bytes), Ok((t, bytes.len())));
}

#[test]
fn bad_trees_are_refused() {
    assert_eq!(PropertyTree::load(&[9, 0]), Err(LoadError::UnknownType(9)));
    // Both header bytes are read before the tag is checked.
    assert_eq!(PropertyTree::load(&[9]), Err(LoadError::UnexpectedEof));
    assert_eq!(PropertyTree::load(&[2, 0, 1, 2, 3]), Err(LoadError::UnexpectedEof));
    assert_eq!(PropertyTree::load(&[4, 0, 2, 0, 0, 0, 1, 0, 0]), Err(LoadError::UnexpectedEof));
    assert_eq!(PropertyTree::load(&[5, 0, 1, 0, 0, 0, 1, 8, 0]), Err(LoadError::UnknownType(8)));
}

fn sample_settings(version: Version) -> ModSettings {
    ModSettings {
        object_type: "ModSettings".to_string(),
        version,
        has_quality: true,
        data: tree(PropertyTreeValue::Dictionary(vec![(
            ImmutableString::from_string("startup".to_string()),
            tree(PropertyTreeValue::Dictionary(vec![(
                ImmutableString::from_string("setting".to_string()),
                tree(PropertyTreeValue::Dictionary(vec![(
                    ImmutableString::from_string("value".to_string()),
                    tree(PropertyTreeValue::Number(2.5f64.to_bits())),
                )])),
            )])),
        )])),
    }
}

#[test]
fn settings_round_trip() {
    let m = sample_settings(Version(2, 0, 28, 1));
    let mut bytes = Vec::new();
    m.save(&mut bytes);
    assert_eq!(&bytes[..9], &[2, 0, 0, 0, 28, 0, 1, 0, 1]);
    assert_eq!(ModSettings::load(&bytes), Ok(m));
}

#[test]
fn trailing_bytes_are_not_read() {
    let m = sample_settings(Version(1, 1, 110, 0));
    let mut bytes = Vec::new();
    m.save(&mut bytes);
    bytes.extend_from_slice(&[0xde, 0xad]);
    assert_eq!(ModSettings::load(&bytes), Ok(m));
}

#[test]
fn old_versions_are_refused() {
    let m = sample_settings(Version(0, 17, 79, 0));
    let mut bytes = Vec::new();
    m.save(&mut bytes);
    assert_eq!(ModSettings::load(&bytes), Err(LoadError::VersionTooLow(Version(0, 17, 79, 0))));
    let ok = sample_settings(Version(0, 18, 0, 0));
    let mut bytes = Vec::new();
    ok.save(&mut bytes);
    assert_eq!(ModSettings::load(&bytes), Ok(ok));
}

#[test]
fn read_errors_come_before_the_version_check() {
    assert_eq!(ModSettings::load(&[0, 0, 1, 0, 0, 0, 0, 0, 0, 9, 0]), Err(LoadError::UnknownType(9)));
    assert_eq!(ModSettings::load(&[1, 0, 2, 0]), Err(LoadError::UnexpectedEof));
}

#[test]
fn versions_compare_part_by_part() {
    assert!(Version(0, 17, 99, 99).precedes(&Version(0, 18, 0, 0)));
    assert!(!Version(0, 18, 0, 0).precedes(&Version(0, 18, 0, 0)));
    assert!(!Version(1, 0, 0, 0).precedes(&Version(0, 18, 0, 0)));
    assert!(Version(1, 1, 2, 3).precedes(&Version(1, 1, 2, 4)));
}

#[test]
fn canonical_bytes_are_written_back_unchanged() {
    let bytes = vec![
        5, 1, 2, 0, 0, 0, // dictionary, any_type set, two entries
        0, 1, b'k', 4, 0, 1, 0, 0, 0, 1, 1, 0, 1, // "k": list of one bool
        0, 2, b'n', b'm', 3, 0, 1, // "nm": absent string
    ];
    let (t, n) = PropertyTree::load(&bytes).unwrap();
    assert_eq!(n, bytes.len());
    assert_eq!(save_tree(&t), bytes);
}

#[test]
fn non_canonical_bytes_are_written_in_canonical_form() {
    // A flag byte of 7, a list key that is present, and a short string in the long form.
    let bytes = vec![4, 7, 1, 0, 0, 0, 0, 1, b'x', 3, 0, 0, 0xff, 1, 0, 0, 0, b'z'];
    let (t, n) = PropertyTree::load(&bytes).unwrap();
    assert_eq!(n, bytes.len());
    assert_eq!(save_tree(&t), vec![4, 1, 1, 0, 0, 0, 1, 3, 0, 0, 1, b'z']);
}
