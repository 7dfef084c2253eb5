//! What holds of the JSON form: reading back what was written, and what the
//! JSON map step does to values that a JSON parser gives.

use crate::document::{
    bytes_precede, document_form, document_items, document_members, is_map_form, last_value,
    lemma_document_members, lemma_last_value_member, lemma_map_form, lemma_map_form_len,
    lemma_map_form_is, lemma_ordered_last_values, map_form, name_precedes, names,
    strictly_ordered,
};
use crate::immutable_string::lossy_decode;
use crate::json::{
    array_to_trees, dict_to_json, json_to_tree, list_to_json, object_to_entries, tree_to_json,
    JsonNumber, SpecJsonValue,
};
use crate::laws::{law_settings_round_trip, lemma_parsed_tree_fits, settings_round_trip};
use crate::mod_settings::{parse_settings, serialize_settings, spec_from_document};
use crate::property_tree::{
    dict_fits, list_fits, tree_fits, SpecPropertyTree, SpecPropertyTreeValue,
};
use vstd::prelude::*;
use vstd::utf8::{
    decode_utf8_encode_utf8, encode_utf8, encode_utf8_decode_utf8, encode_utf8_valid_utf8,
    valid_utf8,
};

verus! {

/// A JSON value whose negative-integer numbers are negative, as a JSON
/// parser gives them (a non-negative integer is always a `PosInt`).
pub open spec fn json_canonical(j: SpecJsonValue) -> bool
    decreases j,
{
    match j {
        SpecJsonValue::Number(JsonNumber::NegInt(i)) => i < 0,
        SpecJsonValue::Array(items) => array_canonical(items),
        SpecJsonValue::Object(members) => object_canonical(members),
        _ => true,
    }
}

/// Every item of the array is canonical.
pub open spec fn array_canonical(items: Seq<SpecJsonValue>) -> bool
    decreases items,
{
    if items.len() == 0 {
        true
    } else {
        array_canonical(items.drop_last()) && json_canonical(items[items.len() - 1])
    }
}

/// Every member value of the object is canonical.
pub open spec fn object_canonical(members: Seq<(Seq<char>, SpecJsonValue)>) -> bool
    decreases members,
{
    if members.len() == 0 {
        true
    } else {
        object_canonical(members.drop_last()) && json_canonical(members[members.len() - 1].1)
    }
}

/// A JSON value whose objects, at every depth, have their members ordered
/// strictly by name, as a JSON map hands them out.
pub open spec fn map_ordered(j: SpecJsonValue) -> bool
    decreases j,
{
    match j {
        SpecJsonValue::Array(items) => array_map_ordered(items),
        SpecJsonValue::Object(members) => strictly_ordered(members) && members_map_ordered(members),
        _ => true,
    }
}

/// Every item of the array is map-ordered.
pub open spec fn array_map_ordered(items: Seq<SpecJsonValue>) -> bool
    decreases items,
{
    if items.len() == 0 {
        true
    } else {
        array_map_ordered(items.drop_last()) && map_ordered(items[items.len() - 1])
    }
}

/// Every member value of the object is map-ordered.
pub open spec fn members_map_ordered(members: Seq<(Seq<char>, SpecJsonValue)>) -> bool
    decreases members,
{
    if members.len() == 0 {
        true
    } else {
        members_map_ordered(members.drop_last()) && map_ordered(members[members.len() - 1].1)
    }
}

/// The text of a string read from JSON is the JSON string again.
pub proof fn law_text_round_trip(s: Seq<char>)
    ensures
        lossy_decode(encode_utf8(s)) == s,
{
    encode_utf8_valid_utf8(s);
    encode_utf8_decode_utf8(s);
}

/// The UTF-8 bytes of the text of valid UTF-8 are those bytes again.
pub proof fn law_bytes_round_trip(b: Seq<u8>)
    requires
        valid_utf8(b),
    ensures
        encode_utf8(lossy_decode(b)) == b,
{
    decode_utf8_encode_utf8(b);
}

/// Reading a tree from JSON and writing it back as JSON gives the same
/// JSON value (members stay in order, duplicates included).
pub proof fn law_json_round_trip(j: SpecJsonValue)
    requires
        json_canonical(j),
    ensures
        tree_to_json(json_to_tree(j)) == j,
    decreases j, 1nat,
{
    match j {
        SpecJsonValue::String(s) => {
            law_text_round_trip(s);
        },
        SpecJsonValue::Number(n) => {
            match n {
                JsonNumber::PosInt(u) => {
                    if u <= i64::MAX {
                        assert(((u as i64) as u64) == u);
                    }
                },
                _ => {},
            }
        },
        SpecJsonValue::Array(items) => {
            lemma_array_round_trip(items);
        },
        SpecJsonValue::Object(members) => {
            lemma_object_round_trip(members);
        },
        _ => {},
    }
}

proof fn lemma_array_round_trip(items: Seq<SpecJsonValue>)
    requires
        array_canonical(items),
    ensures
        list_to_json(array_to_trees(items)) == items,
    decreases items, 0nat,
{
    if items.len() > 0 {
        lemma_array_round_trip(items.drop_last());
        law_json_round_trip(items[items.len() - 1]);
        let ts = array_to_trees(items);
        assert(ts.drop_last() =~= array_to_trees(items.drop_last()));
        assert(list_to_json(ts) =~= items);
    } else {
        assert(list_to_json(array_to_trees(items)) =~= items);
    }
}

proof fn lemma_object_round_trip(members: Seq<(Seq<char>, SpecJsonValue)>)
    requires
        object_canonical(members),
    ensures
        dict_to_json(object_to_entries(members)) == members,
    decreases members, 0nat,
{
    if members.len() > 0 {
        let last = members[members.len() - 1];
        lemma_object_round_trip(members.drop_last());
        law_json_round_trip(last.1);
        law_text_round_trip(last.0);
        let es = object_to_entries(members);
        assert(es.drop_last() =~= object_to_entries(members.drop_last()));
        assert(dict_to_json(es) =~= members);
    } else {
        assert(dict_to_json(object_to_entries(members)) =~= members);
    }
}

/// A map-ordered value is its own document form: the JSON map step changes
/// nothing in what a JSON parser gives.
pub proof fn law_document_form_of_ordered(j: SpecJsonValue)
    requires
        map_ordered(j),
    ensures
        document_form(j) == j,
    decreases j, 1nat,
{
    match j {
        SpecJsonValue::Array(items) => {
            lemma_document_items_ordered(items);
        },
        SpecJsonValue::Object(ms) => {
            lemma_document_members_ordered(ms);
            lemma_ordered_last_values(ms);
            assert(is_map_form(ms, ms));
            lemma_map_form_is(ms, ms);
        },
        _ => {},
    }
}

proof fn lemma_document_items_ordered(items: Seq<SpecJsonValue>)
    requires
        array_map_ordered(items),
    ensures
        document_items(items) == items,
    decreases items, 0nat,
{
    if items.len() > 0 {
        lemma_document_items_ordered(items.drop_last());
        law_document_form_of_ordered(items[items.len() - 1]);
        assert(document_items(items) =~= items);
    } else {
        assert(document_items(items) =~= items);
    }
}

proof fn lemma_document_members_ordered(ms: Seq<(Seq<char>, SpecJsonValue)>)
    requires
        members_map_ordered(ms),
    ensures
        document_members(ms) == ms,
    decreases ms, 0nat,
{
    if ms.len() > 0 {
        lemma_document_members_ordered(ms.drop_last());
        law_document_form_of_ordered(ms[ms.len() - 1].1);
        assert(document_members(ms) =~= ms);
    } else {
        assert(document_members(ms) =~= ms);
    }
}

/// A value that a JSON parser gives (negative-integer numbers negative,
/// object members ordered strictly by name) comes back unchanged from being
/// read as a tree and written as a JSON document.
pub proof fn law_parsed_json_round_trip(j: SpecJsonValue)
    requires
        json_canonical(j),
        map_ordered(j),
    ensures
        document_form(tree_to_json(json_to_tree(j))) == j,
{
    law_json_round_trip(j);
    law_document_form_of_ordered(j);
}

/// Every string of the tree is present and valid UTF-8, and so is every
/// dictionary key: the text that the JSON form writes for each is exact.
pub open spec fn json_text_valid(t: SpecPropertyTree) -> bool
    decreases t,
{
    match t.value {
        SpecPropertyTreeValue::String(v) => v matches Some(b) && valid_utf8(b),
        SpecPropertyTreeValue::List(items) => list_text_valid(items),
        SpecPropertyTreeValue::Dictionary(es) => dict_text_valid(es),
        _ => true,
    }
}

/// Every tree of the list has exact text.
pub open spec fn list_text_valid(items: Seq<SpecPropertyTree>) -> bool
    decreases items,
{
    if items.len() == 0 {
        true
    } else {
        list_text_valid(items.drop_last()) && json_text_valid(items[items.len() - 1])
    }
}

/// Every entry of the dictionary has a present, valid UTF-8 key and a tree
/// with exact text.
pub open spec fn dict_text_valid(es: Seq<(Option<Seq<u8>>, SpecPropertyTree)>) -> bool
    decreases es,
{
    if es.len() == 0 {
        true
    } else {
        let last = es[es.len() - 1];
        &&& dict_text_valid(es.drop_last())
        &&& last.0 matches Some(k) && valid_utf8(k)
        &&& json_text_valid(last.1)
    }
}

/// The tree as reading its JSON form gives it: every `any_type` flag
/// cleared, and every unsigned integer up to `i64::MAX` a signed one.
pub open spec fn json_normal(t: SpecPropertyTree) -> SpecPropertyTree
    decreases t,
{
    SpecPropertyTree {
        value: match t.value {
            SpecPropertyTreeValue::UnsignedInteger(u) => if u <= i64::MAX {
                SpecPropertyTreeValue::SignedInteger(u as i64)
            } else {
                SpecPropertyTreeValue::UnsignedInteger(u)
            },
            SpecPropertyTreeValue::List(items) => SpecPropertyTreeValue::List(normal_list(items)),
            SpecPropertyTreeValue::Dictionary(es) => SpecPropertyTreeValue::Dictionary(
                normal_dict(es),
            ),
            _ => t.value,
        },
        any_type: false,
    }
}

/// The trees of the list, normalized as `json_normal` says.
pub open spec fn normal_list(items: Seq<SpecPropertyTree>) -> Seq<SpecPropertyTree>
    decreases items,
{
    if items.len() == 0 {
        Seq::empty()
    } else {
        normal_list(items.drop_last()).push(json_normal(items[items.len() - 1]))
    }
}

/// The entries of the dictionary, their trees normalized as `json_normal`
/// says.
pub open spec fn normal_dict(es: Seq<(Option<Seq<u8>>, SpecPropertyTree)>) -> Seq<
    (Option<Seq<u8>>, SpecPropertyTree),
>
    decreases es,
{
    if es.len() == 0 {
        Seq::empty()
    } else {
        let last = es[es.len() - 1];
        normal_dict(es.drop_last()).push((last.0, json_normal(last.1)))
    }
}

/// Writing a tree as JSON and reading it back gives the tree with its
/// `any_type` flags cleared and its unsigned integers up to `i64::MAX` made
/// signed, where all its text is valid UTF-8.
pub proof fn law_tree_json_round_trip(t: SpecPropertyTree)
    requires
        json_text_valid(t),
    ensures
        json_to_tree(tree_to_json(t)) == json_normal(t),
    decreases t, 1nat,
{
    match t.value {
        SpecPropertyTreeValue::String(v) => {
            law_bytes_round_trip(v->0);
        },
        SpecPropertyTreeValue::SignedInteger(v) => {
            if v >= 0 {
                assert(((v as u64) as i64) == v);
            }
        },
        SpecPropertyTreeValue::List(items) => {
            lemma_list_json_round_trip(items);
        },
        SpecPropertyTreeValue::Dictionary(es) => {
            lemma_dict_json_round_trip(es);
        },
        _ => {},
    }
}

proof fn lemma_list_json_round_trip(items: Seq<SpecPropertyTree>)
    requires
        list_text_valid(items),
    ensures
        array_to_trees(list_to_json(items)) == normal_list(items),
    decreases items, 0nat,
{
    if items.len() > 0 {
        lemma_list_json_round_trip(items.drop_last());
        law_tree_json_round_trip(items[items.len() - 1]);
        let js = list_to_json(items);
        assert(js.drop_last() =~= list_to_json(items.drop_last()));
        assert(array_to_trees(js) =~= normal_list(items));
    } else {
        assert(array_to_trees(list_to_json(items)) =~= normal_list(items));
    }
}

proof fn lemma_dict_json_round_trip(es: Seq<(Option<Seq<u8>>, SpecPropertyTree)>)
    requires
        dict_text_valid(es),
    ensures
        object_to_entries(dict_to_json(es)) == normal_dict(es),
    decreases es, 0nat,
{
    if es.len() > 0 {
        let last = es[es.len() - 1];
        lemma_dict_json_round_trip(es.drop_last());
        law_tree_json_round_trip(last.1);
        law_bytes_round_trip(last.0->0);
        let ms = dict_to_json(es);
        assert(ms.drop_last() =~= dict_to_json(es.drop_last()));
        assert(object_to_entries(ms) =~= normal_dict(es));
    } else {
        assert(object_to_entries(dict_to_json(es)) =~= normal_dict(es));
    }
}

/// The tree with every `any_type` flag cleared.
pub open spec fn clear_flags(t: SpecPropertyTree) -> SpecPropertyTree
    decreases t,
{
    SpecPropertyTree {
        value: match t.value {
            SpecPropertyTreeValue::List(items) => SpecPropertyTreeValue::List(clear_list(items)),
            SpecPropertyTreeValue::Dictionary(es) => SpecPropertyTreeValue::Dictionary(
                clear_dict(es),
            ),
            _ => t.value,
        },
        any_type: false,
    }
}

/// The trees of the list with their flags cleared.
pub open spec fn clear_list(items: Seq<SpecPropertyTree>) -> Seq<SpecPropertyTree>
    decreases items,
{
    if items.len() == 0 {
        Seq::empty()
    } else {
        clear_list(items.drop_last()).push(clear_flags(items[items.len() - 1]))
    }
}

/// The entries of the dictionary with their trees' flags cleared.
pub open spec fn clear_dict(es: Seq<(Option<Seq<u8>>, SpecPropertyTree)>) -> Seq<
    (Option<Seq<u8>>, SpecPropertyTree),
>
    decreases es,
{
    if es.len() == 0 {
        Seq::empty()
    } else {
        let last = es[es.len() - 1];
        clear_dict(es.drop_last()).push((last.0, clear_flags(last.1)))
    }
}

proof fn lemma_json_of_cleared(t: SpecPropertyTree)
    ensures
        tree_to_json(clear_flags(t)) == tree_to_json(t),
    decreases t, 1nat,
{
    match t.value {
        SpecPropertyTreeValue::List(items) => {
            lemma_json_of_cleared_list(items);
        },
        SpecPropertyTreeValue::Dictionary(es) => {
            lemma_json_of_cleared_dict(es);
        },
        _ => {},
    }
}

proof fn lemma_json_of_cleared_list(items: Seq<SpecPropertyTree>)
    ensures
        list_to_json(clear_list(items)) == list_to_json(items),
    decreases items, 0nat,
{
    if items.len() > 0 {
        lemma_json_of_cleared_list(items.drop_last());
        lemma_json_of_cleared(items[items.len() - 1]);
        let c = clear_list(items);
        assert(c.drop_last() =~= clear_list(items.drop_last()));
        assert(list_to_json(c) =~= list_to_json(items));
    } else {
        assert(list_to_json(clear_list(items)) =~= list_to_json(items));
    }
}

proof fn lemma_json_of_cleared_dict(es: Seq<(Option<Seq<u8>>, SpecPropertyTree)>)
    ensures
        dict_to_json(clear_dict(es)) == dict_to_json(es),
    decreases es, 0nat,
{
    if es.len() > 0 {
        let last = es[es.len() - 1];
        lemma_json_of_cleared_dict(es.drop_last());
        lemma_json_of_cleared(last.1);
        let c = clear_dict(es);
        assert(c.drop_last() =~= clear_dict(es.drop_last()));
        assert(c[c.len() - 1] == (last.0, clear_flags(last.1)));
        assert(dict_to_json(c) =~= dict_to_json(es));
    } else {
        assert(dict_to_json(clear_dict(es)) =~= dict_to_json(es));
    }
}

/// The JSON form does not depend on `any_type` flags: trees that differ
/// only in their flags have the same JSON form.
pub proof fn law_json_ignores_any_type(t1: SpecPropertyTree, t2: SpecPropertyTree)
    requires
        clear_flags(t1) == clear_flags(t2),
    ensures
        tree_to_json(t1) == tree_to_json(t2),
{
    lemma_json_of_cleared(t1);
    lemma_json_of_cleared(t2);
}

/// Each dictionary's keys, at every depth, are in strictly increasing byte
/// order, as a JSON map hands out their text.
pub open spec fn keys_ordered(t: SpecPropertyTree) -> bool
    decreases t,
{
    match t.value {
        SpecPropertyTreeValue::List(items) => list_keys_ordered(items),
        SpecPropertyTreeValue::Dictionary(es) => keys_increasing(es) && dict_keys_ordered(es),
        _ => true,
    }
}

/// The present keys of the entries are in strictly increasing byte order.
pub open spec fn keys_increasing(es: Seq<(Option<Seq<u8>>, SpecPropertyTree)>) -> bool {
    forall|i: int, j: int|
        0 <= i < j < es.len() ==> bytes_precede(#[trigger] es[i].0->0, #[trigger] es[j].0->0)
}

/// Every tree of the list has ordered keys.
pub open spec fn list_keys_ordered(items: Seq<SpecPropertyTree>) -> bool
    decreases items,
{
    if items.len() == 0 {
        true
    } else {
        list_keys_ordered(items.drop_last()) && keys_ordered(items[items.len() - 1])
    }
}

/// Every tree of the dictionary has ordered keys.
pub open spec fn dict_keys_ordered(es: Seq<(Option<Seq<u8>>, SpecPropertyTree)>) -> bool
    decreases es,
{
    if es.len() == 0 {
        true
    } else {
        dict_keys_ordered(es.drop_last()) && keys_ordered(es[es.len() - 1].1)
    }
}

pub(crate) proof fn lemma_dict_text_valid_keys(es: Seq<(Option<Seq<u8>>, SpecPropertyTree)>)
    requires
        dict_text_valid(es),
    ensures
        forall|i: int| 0 <= i < es.len() ==> (#[trigger] es[i].0 matches Some(k) && valid_utf8(k)),
        dict_to_json(es).len() == es.len(),
        forall|i: int|
            0 <= i < es.len() ==> #[trigger] dict_to_json(es)[i] == (
                lossy_decode(es[i].0->0),
                tree_to_json(es[i].1),
            ),
    decreases es.len(),
{
    if es.len() > 0 {
        lemma_dict_text_valid_keys(es.drop_last());
        assert forall|i: int| 0 <= i < es.len() implies (#[trigger] es[i].0 matches Some(k)
            && valid_utf8(k)) by {
            if i < es.len() - 1 {
                assert(es.drop_last()[i] == es[i]);
            }
        }
    }
}

proof fn lemma_tree_json_map_ordered(t: SpecPropertyTree)
    requires
        json_text_valid(t),
        keys_ordered(t),
    ensures
        map_ordered(tree_to_json(t)),
    decreases t, 1nat,
{
    match t.value {
        SpecPropertyTreeValue::List(items) => {
            lemma_list_json_map_ordered(items);
        },
        SpecPropertyTreeValue::Dictionary(es) => {
            lemma_dict_json_map_ordered(es);
            lemma_dict_text_valid_keys(es);
            let ms = dict_to_json(es);
            assert forall|i: int, j: int| 0 <= i < j < ms.len() implies name_precedes(
                #[trigger] ms[i].0,
                #[trigger] ms[j].0,
            ) by {
                assert(es[i].0 matches Some(k) && valid_utf8(k));
                assert(es[j].0 matches Some(k) && valid_utf8(k));
                law_bytes_round_trip(es[i].0->0);
                law_bytes_round_trip(es[j].0->0);
                assert(bytes_precede(es[i].0->0, es[j].0->0));
            }
        },
        _ => {},
    }
}

proof fn lemma_list_json_map_ordered(items: Seq<SpecPropertyTree>)
    requires
        list_text_valid(items),
        list_keys_ordered(items),
    ensures
        array_map_ordered(list_to_json(items)),
    decreases items, 0nat,
{
    if items.len() > 0 {
        lemma_list_json_map_ordered(items.drop_last());
        lemma_tree_json_map_ordered(items[items.len() - 1]);
        let js = list_to_json(items);
        assert(js.drop_last() =~= list_to_json(items.drop_last()));
    }
}

proof fn lemma_dict_json_map_ordered(es: Seq<(Option<Seq<u8>>, SpecPropertyTree)>)
    requires
        dict_text_valid(es),
        dict_keys_ordered(es),
    ensures
        members_map_ordered(dict_to_json(es)),
    decreases es, 0nat,
{
    if es.len() > 0 {
        let last = es[es.len() - 1];
        lemma_dict_json_map_ordered(es.drop_last());
        lemma_tree_json_map_ordered(last.1);
        let ms = dict_to_json(es);
        assert(ms.drop_last() =~= dict_to_json(es.drop_last()));
    }
}

/// Writing a tree as a JSON document (through a JSON map) and reading it
/// back gives the tree with its `any_type` flags cleared and its unsigned
/// integers up to `i64::MAX` made signed, where all its text is valid UTF-8
/// and each dictionary's keys are in increasing byte order (so that the map
/// neither drops nor reorders members).
pub proof fn law_tree_document_round_trip(t: SpecPropertyTree)
    requires
        json_text_valid(t),
        keys_ordered(t),
    ensures
        json_to_tree(document_form(tree_to_json(t))) == json_normal(t),
{
    lemma_tree_json_map_ordered(t);
    law_document_form_of_ordered(tree_to_json(t));
    law_tree_json_round_trip(t);
}

proof fn lemma_normal_fits(t: SpecPropertyTree)
    requires
        tree_fits(t),
    ensures
        tree_fits(json_normal(t)),
    decreases t, 1nat,
{
    match t.value {
        SpecPropertyTreeValue::List(items) => {
            lemma_normal_list_fits(items);
        },
        SpecPropertyTreeValue::Dictionary(es) => {
            lemma_normal_dict_fits(es);
        },
        _ => {},
    }
}

proof fn lemma_normal_list_fits(items: Seq<SpecPropertyTree>)
    requires
        list_fits(items),
    ensures
        list_fits(normal_list(items)),
        normal_list(items).len() == items.len(),
    decreases items, 0nat,
{
    if items.len() > 0 {
        lemma_normal_list_fits(items.drop_last());
        lemma_normal_fits(items[items.len() - 1]);
        let n = normal_list(items);
        assert(n.drop_last() =~= normal_list(items.drop_last()));
    }
}

proof fn lemma_normal_dict_fits(es: Seq<(Option<Seq<u8>>, SpecPropertyTree)>)
    requires
        dict_fits(es),
    ensures
        dict_fits(normal_dict(es)),
        normal_dict(es).len() == es.len(),
    decreases es, 0nat,
{
    if es.len() > 0 {
        lemma_normal_dict_fits(es.drop_last());
        lemma_normal_fits(es[es.len() - 1].1);
        let n = normal_dict(es);
        assert(n.drop_last() =~= normal_dict(es.drop_last()));
    }
}

/// Settings read from a file, written as a JSON document and read back from
/// it, pass the document's type check, and can be written to a file and read
/// back from it, where all their text is valid UTF-8 and each dictionary's
/// keys are in increasing byte order. What comes back is the tree with its
/// flags cleared and its small unsigned integers made signed.
pub proof fn law_settings_through_document(s: Seq<u8>)
    requires
        parse_settings(s) matches Ok((m, _)) && json_text_valid(m.data) && keys_ordered(m.data),
    ensures
        parse_settings(s) matches Ok((m, _)) && spec_from_document(
            m.object_type,
            m.version,
            m.has_quality,
            json_to_tree(document_form(tree_to_json(m.data))),
        ) matches Ok(m1) && m1.data == json_normal(m.data) && parse_settings(
            serialize_settings(m1),
        ) == Ok::<_, crate::error::LoadError>((m1, serialize_settings(m1).len())),
{
    let (m, _) = parse_settings(s)->Ok_0;
    law_tree_document_round_trip(m.data);
    lemma_parsed_tree_fits(s.skip(9));
    lemma_normal_fits(m.data);
    let m1 = spec_from_document(m.object_type, m.version, m.has_quality, json_normal(m.data))->Ok_0;
    assert(settings_round_trip(m1));
    law_settings_round_trip(m1);
}

/// Every string and name of the JSON value, written as UTF-8, and every
/// array and object, have a length that the settings format can write (at
/// most `u32::MAX`).
pub open spec fn json_fits(j: SpecJsonValue) -> bool
    decreases j,
{
    match j {
        SpecJsonValue::String(s) => encode_utf8(s).len() <= u32::MAX,
        SpecJsonValue::Array(items) => items.len() <= u32::MAX && forall|i: int|
            0 <= i < items.len() ==> json_fits(#[trigger] items[i]),
        SpecJsonValue::Object(ms) => ms.len() <= u32::MAX && forall|i: int|
            0 <= i < ms.len() ==> encode_utf8((#[trigger] ms[i]).0).len() <= u32::MAX && json_fits(
                ms[i].1,
            ),
        _ => true,
    }
}

/// A JSON value that fits reads as a tree that fits.
proof fn lemma_json_fits_tree(j: SpecJsonValue)
    requires
        json_fits(j),
    ensures
        tree_fits(json_to_tree(j)),
    decreases j, 1nat,
{
    match j {
        SpecJsonValue::Array(items) => {
            lemma_array_fits(items);
        },
        SpecJsonValue::Object(ms) => {
            lemma_object_fits(ms);
        },
        _ => {},
    }
}

proof fn lemma_array_fits(items: Seq<SpecJsonValue>)
    requires
        forall|i: int| 0 <= i < items.len() ==> json_fits(#[trigger] items[i]),
    ensures
        list_fits(array_to_trees(items)),
        array_to_trees(items).len() == items.len(),
    decreases items, 0nat,
{
    if items.len() > 0 {
        let init = items.drop_last();
        assert forall|i: int| 0 <= i < init.len() implies json_fits(#[trigger] init[i]) by {
            assert(init[i] == items[i]);
        }
        lemma_array_fits(init);
        lemma_json_fits_tree(items[items.len() - 1]);
        let ts = array_to_trees(items);
        assert(ts.drop_last() =~= array_to_trees(init));
    }
}

proof fn lemma_object_fits(ms: Seq<(Seq<char>, SpecJsonValue)>)
    requires
        forall|i: int|
            0 <= i < ms.len() ==> encode_utf8((#[trigger] ms[i]).0).len() <= u32::MAX && json_fits(
                ms[i].1,
            ),
    ensures
        dict_fits(object_to_entries(ms)),
        object_to_entries(ms).len() == ms.len(),
    decreases ms, 0nat,
{
    if ms.len() > 0 {
        let init = ms.drop_last();
        assert forall|i: int| 0 <= i < init.len() implies encode_utf8((#[trigger] init[i]).0).len()
            <= u32::MAX && json_fits(init[i].1) by {
            assert(init[i] == ms[i]);
        }
        lemma_object_fits(init);
        lemma_json_fits_tree(ms[ms.len() - 1].1);
        let es = object_to_entries(ms);
        assert(es.drop_last() =~= object_to_entries(init));
    }
}

/// The document form of a JSON value that fits fits.
proof fn lemma_document_fits(j: SpecJsonValue)
    requires
        json_fits(j),
    ensures
        json_fits(document_form(j)),
    decreases j, 1nat,
{
    match j {
        SpecJsonValue::Array(items) => {
            lemma_document_items_fit(items);
        },
        SpecJsonValue::Object(ms) => {
            let pairs = document_members(ms);
            let r = map_form(pairs);
            lemma_document_members(ms);
            lemma_map_form(pairs);
            lemma_map_form_len(pairs);
            assert forall|i: int| 0 <= i < r.len() implies encode_utf8((#[trigger] r[i]).0).len()
                <= u32::MAX && json_fits(r[i].1) by {
                assert(last_value(pairs, r[i].0) == Some(r[i].1));
                lemma_last_value_member(pairs, r[i].0);
                let p = choose|p: int| 0 <= p < pairs.len() && #[trigger] pairs[p] == (r[i].0, r[i].1);
                assert(pairs[p] == (ms[p].0, document_form(ms[p].1)));
                assert(json_fits(ms[p].1));
                lemma_document_fits(ms[p].1);
            }
        },
        _ => {},
    }
}

proof fn lemma_document_items_fit(items: Seq<SpecJsonValue>)
    requires
        forall|i: int| 0 <= i < items.len() ==> json_fits(#[trigger] items[i]),
    ensures
        document_items(items).len() == items.len(),
        forall|i: int| 0 <= i < items.len() ==> json_fits(#[trigger] document_items(items)[i]),
    decreases items, 0nat,
{
    if items.len() > 0 {
        let init = items.drop_last();
        assert forall|i: int| 0 <= i < init.len() implies json_fits(#[trigger] init[i]) by {
            assert(init[i] == items[i]);
        }
        lemma_document_items_fit(init);
        lemma_document_fits(items[items.len() - 1]);
        assert forall|i: int| 0 <= i < items.len() implies json_fits(
            #[trigger] document_items(items)[i],
        ) by {
            if i < items.len() - 1 {
                assert(document_items(items)[i] == document_items(init)[i]);
            }
        }
    }
}

/// The JSON form of a tree that fits, whose text is valid UTF-8, fits.
pub proof fn law_text_json_fits(t: SpecPropertyTree)
    requires
        tree_fits(t),
        json_text_valid(t),
    ensures
        json_fits(tree_to_json(t)),
    decreases t, 1nat,
{
    match t.value {
        SpecPropertyTreeValue::String(v) => {
            law_bytes_round_trip(v->0);
        },
        SpecPropertyTreeValue::List(items) => {
            lemma_list_json_fits(items);
        },
        SpecPropertyTreeValue::Dictionary(es) => {
            lemma_dict_json_fits(es);
        },
        _ => {},
    }
}

proof fn lemma_list_json_fits(items: Seq<SpecPropertyTree>)
    requires
        list_fits(items),
        list_text_valid(items),
    ensures
        list_to_json(items).len() == items.len(),
        forall|i: int| 0 <= i < items.len() ==> json_fits(#[trigger] list_to_json(items)[i]),
    decreases items, 0nat,
{
    if items.len() > 0 {
        let init = items.drop_last();
        lemma_list_json_fits(init);
        law_text_json_fits(items[items.len() - 1]);
        assert forall|i: int| 0 <= i < items.len() implies json_fits(
            #[trigger] list_to_json(items)[i],
        ) by {
            if i < items.len() - 1 {
                assert(list_to_json(items)[i] == list_to_json(init)[i]);
            }
        }
    }
}

proof fn lemma_dict_json_fits(es: Seq<(Option<Seq<u8>>, SpecPropertyTree)>)
    requires
        dict_fits(es),
        dict_text_valid(es),
    ensures
        dict_to_json(es).len() == es.len(),
        forall|i: int|
            0 <= i < es.len() ==> encode_utf8((#[trigger] dict_to_json(es)[i]).0).len() <= u32::MAX
                && json_fits(dict_to_json(es)[i].1),
    decreases es, 0nat,
{
    if es.len() > 0 {
        let init = es.drop_last();
        let last = es[es.len() - 1];
        lemma_dict_json_fits(init);
        law_text_json_fits(last.1);
        law_bytes_round_trip(last.0->0);
        assert forall|i: int| 0 <= i < es.len() implies encode_utf8(
            (#[trigger] dict_to_json(es)[i]).0,
        ).len() <= u32::MAX && json_fits(dict_to_json(es)[i].1) by {
            if i < es.len() - 1 {
                assert(dict_to_json(es)[i] == dict_to_json(init)[i]);
            }
        }
    }
}

/// Settings read from a file, written as a JSON document (through a JSON
/// map) and read back from it, pass the document's type check, and the file
/// written for them reads back as the same settings, wherever every length
/// in their JSON form fits the file format (absent strings, absent keys and
/// invalid UTF-8 included; `law_text_json_fits` shows that valid UTF-8 text
/// always fits).
pub proof fn law_settings_document_loads(s: Seq<u8>)
    requires
        parse_settings(s) matches Ok((m, _)) && json_fits(tree_to_json(m.data)),
    ensures
        parse_settings(s) matches Ok((m, _)) && spec_from_document(
            m.object_type,
            m.version,
            m.has_quality,
            json_to_tree(document_form(tree_to_json(m.data))),
        ) matches Ok(m1) && parse_settings(serialize_settings(m1)) == Ok::<
            _,
            crate::error::LoadError,
        >((m1, serialize_settings(m1).len())),
{
    let (m, _) = parse_settings(s)->Ok_0;
    lemma_document_fits(tree_to_json(m.data));
    lemma_json_fits_tree(document_form(tree_to_json(m.data)));
    let m1 = spec_from_document(
        m.object_type,
        m.version,
        m.has_quality,
        json_to_tree(document_form(tree_to_json(m.data))),
    )->Ok_0;
    assert(settings_round_trip(m1));
    law_settings_round_trip(m1);
}

} // verus!
