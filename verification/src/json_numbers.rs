//! What the JSON form of a tree's numbers is worth: a double keeps its bits,
//! and an integer keeps its value, in both directions.

use crate::json::{json_to_tree, tree_to_json, JsonNumber, SpecJsonValue};
use crate::property_tree::{SpecPropertyTree, SpecPropertyTreeValue};
use vstd::prelude::*;

verus! {

/// The integer that a JSON number stands for; a double stands for none.
pub open spec fn json_integer(n: JsonNumber) -> Option<int> {
    match n {
        JsonNumber::PosInt(u) => Some(u as int),
        JsonNumber::NegInt(i) => Some(i as int),
        JsonNumber::Float(_) => None,
    }
}

/// The integer that a tree value stands for, where it is a signed or an
/// unsigned integer.
pub open spec fn tree_integer(v: SpecPropertyTreeValue) -> Option<int> {
    match v {
        SpecPropertyTreeValue::SignedInteger(i) => Some(i as int),
        SpecPropertyTreeValue::UnsignedInteger(u) => Some(u as int),
        _ => None,
    }
}

/// A double of a tree is written as the JSON double with the very same bits,
/// and a JSON double is read as the tree double with the very same bits.
pub proof fn law_double_keeps_bits(bits: u64, any_type: bool)
    ensures
        tree_to_json(SpecPropertyTree { value: SpecPropertyTreeValue::Number(bits), any_type })
            == SpecJsonValue::Number(JsonNumber::Float(bits)),
        json_to_tree(SpecJsonValue::Number(JsonNumber::Float(bits))) == (SpecPropertyTree {
            value: SpecPropertyTreeValue::Number(bits),
            any_type: false,
        }),
{
}

/// An integer of a tree, signed or unsigned, is written as a JSON integer of
/// the same value: a non-negative one as a non-negative JSON integer, a
/// negative one as a negative JSON integer.
pub proof fn law_integer_written_as_is(t: SpecPropertyTree)
    requires
        tree_integer(t.value) is Some,
    ensures
        tree_to_json(t) matches SpecJsonValue::Number(n) && json_integer(n) == tree_integer(
            t.value,
        ) && (n is PosInt <==> tree_integer(t.value)->0 >= 0),
{
}

/// A JSON integer is read as a tree integer of the same value: a signed one
/// where the value fits `i64`, an unsigned one otherwise.
pub proof fn law_integer_read_as_is(n: JsonNumber)
    requires
        json_integer(n) is Some,
    ensures
        tree_integer(json_to_tree(SpecJsonValue::Number(n)).value) == json_integer(n),
        json_to_tree(SpecJsonValue::Number(n)).value is SignedInteger <==> json_integer(n)->0
            <= i64::MAX,
        !json_to_tree(SpecJsonValue::Number(n)).any_type,
{
}

} // verus!
