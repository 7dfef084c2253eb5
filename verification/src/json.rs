//! The JSON shape of a property tree: what the JSON and YAML forms of a
//! settings file hold, and the conversions between it and property trees.

use crate::immutable_string::{lossy_decode, ImmutableString};
use crate::property_tree::{
    lemma_view_dict, lemma_view_list, view_dict, view_list, view_tree, PropertyTree,
    PropertyTreeValue, SpecPropertyTree, SpecPropertyTreeValue,
};
use vstd::prelude::*;
use vstd::utf8::encode_utf8;

verus! {

/// A JSON number, told apart as a JSON parser stores it: a non-negative
/// integer, a negative integer, or a double (held as its IEEE 754 bit
/// pattern, `f64::to_bits`).
#[derive(Debug, Clone, Copy, PartialEq, Eq, Structural)]
pub enum JsonNumber {
    PosInt(u64),
    NegInt(i64),
    Float(u64),
}

/// A JSON value. An object keeps its members in order, duplicates included;
/// a JSON map built from it keeps the last of equal keys.
#[derive(Debug, PartialEq)]
pub enum JsonValue {
    Null,
    Bool(bool),
    Number(JsonNumber),
    String(String),
    Array(Vec<JsonValue>),
    Object(Vec<(String, JsonValue)>),
}

/// The mathematical value of a JSON value.
pub enum SpecJsonValue {
    Null,
    Bool(bool),
    Number(JsonNumber),
    String(Seq<char>),
    Array(Seq<SpecJsonValue>),
    Object(Seq<(Seq<char>, SpecJsonValue)>),
}

/// The mathematical value of a JSON value.
pub open spec fn view_json(j: JsonValue) -> SpecJsonValue
    decreases j,
{
    match j {
        JsonValue::Null => SpecJsonValue::Null,
        JsonValue::Bool(b) => SpecJsonValue::Bool(b),
        JsonValue::Number(n) => SpecJsonValue::Number(n),
        JsonValue::String(s) => SpecJsonValue::String(s@),
        JsonValue::Array(items) => SpecJsonValue::Array(view_json_array(items@)),
        JsonValue::Object(members) => SpecJsonValue::Object(view_json_object(members@)),
    }
}

/// The mathematical values of the items of an array, in order.
pub open spec fn view_json_array(items: Seq<JsonValue>) -> Seq<SpecJsonValue>
    decreases items,
{
    if items.len() == 0 {
        Seq::empty()
    } else {
        view_json_array(items.drop_last()).push(view_json(items[items.len() - 1]))
    }
}

/// The mathematical values of the members of an object, in order.
pub open spec fn view_json_object(members: Seq<(String, JsonValue)>) -> Seq<(Seq<char>, SpecJsonValue)>
    decreases members,
{
    if members.len() == 0 {
        Seq::empty()
    } else {
        let last = members[members.len() - 1];
        view_json_object(members.drop_last()).push((last.0@, view_json(last.1)))
    }
}

impl View for JsonValue {
    type V = SpecJsonValue;

    open spec fn view(&self) -> SpecJsonValue {
        view_json(*self)
    }
}

/// The JSON number written for a signed integer.
pub open spec fn signed_number(v: i64) -> JsonNumber {
    if v >= 0 {
        JsonNumber::PosInt(v as u64)
    } else {
        JsonNumber::NegInt(v)
    }
}

/// The JSON form of a tree. Null, bools and numbers map to their JSON
/// counterparts (a double stays a double, a signed integer an integer); a
/// string becomes its text decoded as by `String::from_utf8_lossy`, an absent
/// string `null`; a list becomes an array; a dictionary becomes an object
/// whose members are its entries with a present key, in order, each key its
/// decoded text. The `any_type` flag is dropped.
pub open spec fn tree_to_json(t: SpecPropertyTree) -> SpecJsonValue
    decreases t,
{
    match t.value {
        SpecPropertyTreeValue::Null => SpecJsonValue::Null,
        SpecPropertyTreeValue::Bool(b) => SpecJsonValue::Bool(b),
        SpecPropertyTreeValue::Number(bits) => SpecJsonValue::Number(JsonNumber::Float(bits)),
        SpecPropertyTreeValue::String(v) => match v {
            Some(b) => SpecJsonValue::String(lossy_decode(b)),
            None => SpecJsonValue::Null,
        },
        SpecPropertyTreeValue::List(items) => SpecJsonValue::Array(list_to_json(items)),
        SpecPropertyTreeValue::Dictionary(es) => SpecJsonValue::Object(dict_to_json(es)),
        SpecPropertyTreeValue::SignedInteger(v) => SpecJsonValue::Number(signed_number(v)),
        SpecPropertyTreeValue::UnsignedInteger(v) => SpecJsonValue::Number(JsonNumber::PosInt(v)),
    }
}

/// The JSON forms of the trees of a list, in order.
pub open spec fn list_to_json(items: Seq<SpecPropertyTree>) -> Seq<SpecJsonValue>
    decreases items,
{
    if items.len() == 0 {
        Seq::empty()
    } else {
        list_to_json(items.drop_last()).push(tree_to_json(items[items.len() - 1]))
    }
}

/// The members written for the entries of a dictionary: those with a present
/// key, in order.
pub open spec fn dict_to_json(es: Seq<(Option<Seq<u8>>, SpecPropertyTree)>) -> Seq<
    (Seq<char>, SpecJsonValue),
>
    decreases es,
{
    if es.len() == 0 {
        Seq::empty()
    } else {
        let last = es[es.len() - 1];
        match last.0 {
            Some(k) => dict_to_json(es.drop_last()).push((lossy_decode(k), tree_to_json(last.1))),
            None => dict_to_json(es.drop_last()),
        }
    }
}

/// The tree value read for a JSON number: an integer that fits `i64` is a
/// signed integer, another non-negative integer an unsigned one, a double a
/// number.
pub open spec fn number_to_value(n: JsonNumber) -> SpecPropertyTreeValue {
    match n {
        JsonNumber::PosInt(u) => if u <= i64::MAX {
            SpecPropertyTreeValue::SignedInteger(u as i64)
        } else {
            SpecPropertyTreeValue::UnsignedInteger(u)
        },
        JsonNumber::NegInt(i) => SpecPropertyTreeValue::SignedInteger(i),
        JsonNumber::Float(bits) => SpecPropertyTreeValue::Number(bits),
    }
}

/// The tree read from a JSON value. Null and bools map to their tree
/// counterparts, numbers as `number_to_value` says; a string becomes a
/// present string of its UTF-8 bytes, an array a list, an object a
/// dictionary whose keys are the members' names as present strings. No
/// tree has the `any_type` flag set.
pub open spec fn json_to_tree(j: SpecJsonValue) -> SpecPropertyTree
    decreases j,
{
    SpecPropertyTree {
        value: match j {
            SpecJsonValue::Null => SpecPropertyTreeValue::Null,
            SpecJsonValue::Bool(b) => SpecPropertyTreeValue::Bool(b),
            SpecJsonValue::Number(n) => number_to_value(n),
            SpecJsonValue::String(s) => SpecPropertyTreeValue::String(Some(encode_utf8(s))),
            SpecJsonValue::Array(items) => SpecPropertyTreeValue::List(array_to_trees(items)),
            SpecJsonValue::Object(members) => SpecPropertyTreeValue::Dictionary(
                object_to_entries(members),
            ),
        },
        any_type: false,
    }
}

/// The trees read from the items of an array, in order.
pub open spec fn array_to_trees(items: Seq<SpecJsonValue>) -> Seq<SpecPropertyTree>
    decreases items,
{
    if items.len() == 0 {
        Seq::empty()
    } else {
        array_to_trees(items.drop_last()).push(json_to_tree(items[items.len() - 1]))
    }
}

/// The dictionary entries read from the members of an object, in order.
pub open spec fn object_to_entries(members: Seq<(Seq<char>, SpecJsonValue)>) -> Seq<
    (Option<Seq<u8>>, SpecPropertyTree),
>
    decreases members,
{
    if members.len() == 0 {
        Seq::empty()
    } else {
        let last = members[members.len() - 1];
        object_to_entries(members.drop_last()).push(
            (Some(encode_utf8(last.0)), json_to_tree(last.1)),
        )
    }
}

/// The view of an array has one value per item, each the item's view.
pub proof fn lemma_view_json_array(items: Seq<JsonValue>)
    ensures
        view_json_array(items).len() == items.len(),
        forall|i: int|
            0 <= i < items.len() ==> #[trigger] view_json_array(items)[i] == view_json(items[i]),
    decreases items.len(),
{
    if items.len() > 0 {
        lemma_view_json_array(items.drop_last());
    }
}

/// The view of an object has one member per member, each the member's view.
pub proof fn lemma_view_json_object(members: Seq<(String, JsonValue)>)
    ensures
        view_json_object(members).len() == members.len(),
        forall|i: int|
            0 <= i < members.len() ==> #[trigger] view_json_object(members)[i] == (
                members[i].0@,
                view_json(members[i].1),
            ),
    decreases members.len(),
{
    if members.len() > 0 {
        lemma_view_json_object(members.drop_last());
    }
}

impl PropertyTree {
    /// The JSON form of this tree, as `tree_to_json` says.
    pub fn to_json_value(&self) -> (r: JsonValue)
        ensures
            r@ == tree_to_json(self@),
        decreases self, 1nat,
    {
        match &self.value {
            PropertyTreeValue::Null => JsonValue::Null,
            PropertyTreeValue::Bool(b) => JsonValue::Bool(*b),
            PropertyTreeValue::Number(bits) => JsonValue::Number(JsonNumber::Float(*bits)),
            PropertyTreeValue::String(v) => match v.to_string_lossy() {
                Some(s) => JsonValue::String(s),
                None => JsonValue::Null,
            },
            PropertyTreeValue::List(items) => JsonValue::Array(Self::list_to_json(items)),
            PropertyTreeValue::Dictionary(items) => JsonValue::Object(Self::dict_to_json(items)),
            PropertyTreeValue::SignedInteger(v) => {
                if *v >= 0 {
                    JsonValue::Number(JsonNumber::PosInt(*v as u64))
                } else {
                    JsonValue::Number(JsonNumber::NegInt(*v))
                }
            },
            PropertyTreeValue::UnsignedInteger(v) => JsonValue::Number(JsonNumber::PosInt(*v)),
        }
    }

    fn list_to_json(items: &Vec<PropertyTree>) -> (r: Vec<JsonValue>)
        ensures
            view_json_array(r@) == list_to_json(view_list(items@)),
        decreases items, 0nat,
    {
        let ghost vl = view_list(items@);
        proof {
            lemma_view_list(items@);
        }
        let mut out: Vec<JsonValue> = Vec::new();
        let mut i: usize = 0;
        assert(vl.take(0) =~= Seq::<SpecPropertyTree>::empty());
        while i < items.len()
            invariant
                i <= items@.len(),
                vl == view_list(items@),
                vl.len() == items@.len(),
                forall|k: int| 0 <= k < items@.len() ==> #[trigger] vl[k] == view_tree(items@[k]),
                view_json_array(out@) == list_to_json(vl.take(i as int)),
            decreases items@.len() - i,
        {
            assert(decreases_to!(items => items@[i as int]));
            let j = items[i].to_json_value();
            let ghost old_out = out@;
            out.push(j);
            assert(out@.drop_last() =~= old_out);
            assert(vl.take(i + 1).drop_last() =~= vl.take(i as int));
            i = i + 1;
        }
        assert(vl.take(i as int) =~= vl);
        out
    }

    fn dict_to_json(items: &Vec<(ImmutableString, PropertyTree)>) -> (r: Vec<(String, JsonValue)>)
        ensures
            view_json_object(r@) == dict_to_json(view_dict(items@)),
        decreases items, 0nat,
    {
        let ghost vd = view_dict(items@);
        proof {
            lemma_view_dict(items@);
        }
        let mut out: Vec<(String, JsonValue)> = Vec::new();
        let mut i: usize = 0;
        assert(vd.take(0) =~= Seq::<(Option<Seq<u8>>, SpecPropertyTree)>::empty());
        while i < items.len()
            invariant
                i <= items@.len(),
                vd == view_dict(items@),
                vd.len() == items@.len(),
                forall|k: int|
                    0 <= k < items@.len() ==> #[trigger] vd[k] == (
                        items@[k].0@,
                        view_tree(items@[k].1),
                    ),
                view_json_object(out@) == dict_to_json(vd.take(i as int)),
            decreases items@.len() - i,
        {
            let (key, item) = &items[i];
            assert(vd.take(i + 1).drop_last() =~= vd.take(i as int));
            match key.to_string_lossy() {
                Some(k) => {
                    assert(decreases_to!(items => items@[i as int].1));
                    let j = item.to_json_value();
                    let ghost old_out = out@;
                    out.push((k, j));
                    assert(out@.drop_last() =~= old_out);
                },
                None => {},
            }
            i = i + 1;
        }
        assert(vd.take(i as int) =~= vd);
        out
    }

    /// The tree read from a JSON value, as `json_to_tree` says.
    pub fn from_json_value(v: JsonValue) -> (r: PropertyTree)
        ensures
            r@ == json_to_tree(v@),
    {
        Self::tree_from_json(&v)
    }

    fn tree_from_json(j: &JsonValue) -> (r: PropertyTree)
        ensures
            r@ == json_to_tree(j@),
        decreases j, 1nat,
    {
        let value = match j {
            JsonValue::Null => PropertyTreeValue::Null,
            JsonValue::Bool(b) => PropertyTreeValue::Bool(*b),
            JsonValue::Number(n) => match n {
                JsonNumber::PosInt(u) => {
                    if *u <= 0x7fff_ffff_ffff_ffffu64 {
                        PropertyTreeValue::SignedInteger(*u as i64)
                    } else {
                        PropertyTreeValue::UnsignedInteger(*u)
                    }
                },
                JsonNumber::NegInt(i) => PropertyTreeValue::SignedInteger(*i),
                JsonNumber::Float(bits) => PropertyTreeValue::Number(*bits),
            },
            JsonValue::String(s) => PropertyTreeValue::String(ImmutableString::from_string(s.clone())),
            JsonValue::Array(items) => PropertyTreeValue::List(Self::trees_from_array(items)),
            JsonValue::Object(members) => PropertyTreeValue::Dictionary(
                Self::entries_from_object(members),
            ),
        };
        PropertyTree { value, any_type: false }
    }

    fn trees_from_array(items: &Vec<JsonValue>) -> (r: Vec<PropertyTree>)
        ensures
            view_list(r@) == array_to_trees(view_json_array(items@)),
        decreases items, 0nat,
    {
        let ghost va = view_json_array(items@);
        proof {
            lemma_view_json_array(items@);
        }
        let mut out: Vec<PropertyTree> = Vec::new();
        let mut i: usize = 0;
        assert(va.take(0) =~= Seq::<SpecJsonValue>::empty());
        while i < items.len()
            invariant
                i <= items@.len(),
                va == view_json_array(items@),
                va.len() == items@.len(),
                forall|k: int| 0 <= k < items@.len() ==> #[trigger] va[k] == view_json(items@[k]),
                view_list(out@) == array_to_trees(va.take(i as int)),
            decreases items@.len() - i,
        {
            assert(decreases_to!(items => items@[i as int]));
            let t = Self::tree_from_json(&items[i]);
            let ghost old_out = out@;
            out.push(t);
            assert(out@.drop_last() =~= old_out);
            assert(va.take(i + 1).drop_last() =~= va.take(i as int));
            i = i + 1;
        }
        assert(va.take(i as int) =~= va);
        out
    }

    fn entries_from_object(members: &Vec<(String, JsonValue)>) -> (r: Vec<(ImmutableString, PropertyTree)>)
        ensures
            view_dict(r@) == object_to_entries(view_json_object(members@)),
        decreases members, 0nat,
    {
        let ghost vo = view_json_object(members@);
        proof {
            lemma_view_json_object(members@);
        }
        let mut out: Vec<(ImmutableString, PropertyTree)> = Vec::new();
        let mut i: usize = 0;
        assert(vo.take(0) =~= Seq::<(Seq<char>, SpecJsonValue)>::empty());
        while i < members.len()
            invariant
                i <= members@.len(),
                vo == view_json_object(members@),
                vo.len() == members@.len(),
                forall|k: int|
                    0 <= k < members@.len() ==> #[trigger] vo[k] == (
                        members@[k].0@,
                        view_json(members@[k].1),
                    ),
                view_dict(out@) == object_to_entries(vo.take(i as int)),
            decreases members@.len() - i,
        {
            let (name, value) = &members[i];
            let key = ImmutableString::from_string(name.clone());
            assert(decreases_to!(members => members@[i as int].1));
            let t = Self::tree_from_json(value);
            let ghost old_out = out@;
            out.push((key, t));
            assert(out@.drop_last() =~= old_out);
            assert(vo.take(i + 1).drop_last() =~= vo.take(i as int));
            i = i + 1;
        }
        assert(vo.take(i as int) =~= vo);
        out
    }
}

} // verus!
