//! Writing a tree as a JSON document and reading it back, where each
//! dictionary's keys are different: only the order of dictionary entries may
//! change.

use crate::document::{
    distinct_names, document_form, document_items, document_members, lemma_document_members,
    lemma_map_form_distinct, map_form,
};
use crate::immutable_string::lossy_decode;
use crate::json::{
    array_to_trees, dict_to_json, json_to_tree, list_to_json, object_to_entries, tree_to_json,
    SpecJsonValue,
};
use crate::json_laws::{
    dict_text_valid, json_normal, json_text_valid, law_bytes_round_trip,
    law_tree_json_round_trip, lemma_dict_text_valid_keys, list_text_valid, normal_dict,
    normal_list,
};
use crate::property_tree::{SpecPropertyTree, SpecPropertyTreeValue};
use vstd::prelude::*;
use vstd::utf8::encode_utf8;

verus! {

/// `a` and `b` are the same tree but for the order of dictionary entries:
/// the same flags and scalar values, lists of the same length matching item
/// by item, and dictionaries of the same length in which each entry of `a`
/// has an entry of `b` with the same key and a matching tree.
pub open spec fn same_but_entry_order(a: SpecPropertyTree, b: SpecPropertyTree) -> bool
    decreases a, 0nat,
{
    &&& a.any_type == b.any_type
    &&& match a.value {
        SpecPropertyTreeValue::List(x) => b.value is List && x.len() == b.value->List_0.len()
            && forall|i: int|
            #![trigger x[i]]
            0 <= i < x.len() ==> same_but_entry_order(x[i], b.value->List_0[i]),
        SpecPropertyTreeValue::Dictionary(x) => b.value is Dictionary && x.len()
            == b.value->Dictionary_0.len() && forall|i: int|
            #![trigger x[i]]
            0 <= i < x.len() ==> has_matching_entry(x[i], b.value->Dictionary_0),
        _ => b.value == a.value,
    }
}

/// Some entry of `es` has the key of `e` and a tree that is the same as that
/// of `e` but for the order of dictionary entries.
pub open spec fn has_matching_entry(
    e: (Option<Seq<u8>>, SpecPropertyTree),
    es: Seq<(Option<Seq<u8>>, SpecPropertyTree)>,
) -> bool
    decreases e.1, 1nat,
{
    exists|j: int|
        0 <= j < es.len() && #[trigger] es[j].0 == e.0 && same_but_entry_order(e.1, es[j].1)
}

/// Every dictionary of the tree, at every depth, has pairwise different
/// keys.
pub open spec fn keys_unique(t: SpecPropertyTree) -> bool
    decreases t,
{
    match t.value {
        SpecPropertyTreeValue::List(x) => forall|i: int|
            #![trigger x[i]]
            0 <= i < x.len() ==> keys_unique(x[i]),
        SpecPropertyTreeValue::Dictionary(x) => (forall|i: int, j: int|
            0 <= i < j < x.len() ==> #[trigger] x[i].0 != #[trigger] x[j].0) && forall|i: int|
            #![trigger x[i]]
            0 <= i < x.len() ==> keys_unique(x[i].1),
        _ => true,
    }
}

proof fn lemma_list_index(items: Seq<SpecPropertyTree>)
    requires
        list_text_valid(items),
    ensures
        forall|i: int| 0 <= i < items.len() ==> json_text_valid(#[trigger] items[i]),
        normal_list(items).len() == items.len(),
        forall|i: int| 0 <= i < items.len() ==> #[trigger] normal_list(items)[i] == json_normal(items[i]),
        list_to_json(items).len() == items.len(),
        forall|i: int| 0 <= i < items.len() ==> #[trigger] list_to_json(items)[i] == tree_to_json(items[i]),
    decreases items.len(),
{
    if items.len() > 0 {
        let init = items.drop_last();
        lemma_list_index(init);
        assert forall|i: int| 0 <= i < items.len() implies json_text_valid(#[trigger] items[i]) by {
            if i < items.len() - 1 {
                assert(init[i] == items[i]);
            }
        }
        assert forall|i: int| 0 <= i < items.len() implies #[trigger] normal_list(items)[i]
            == json_normal(items[i]) by {
            if i < items.len() - 1 {
                assert(normal_list(items)[i] == normal_list(init)[i]);
            }
        }
        assert forall|i: int| 0 <= i < items.len() implies #[trigger] list_to_json(items)[i]
            == tree_to_json(items[i]) by {
            if i < items.len() - 1 {
                assert(list_to_json(items)[i] == list_to_json(init)[i]);
            }
        }
    }
}

proof fn lemma_dict_index(es: Seq<(Option<Seq<u8>>, SpecPropertyTree)>)
    requires
        dict_text_valid(es),
    ensures
        forall|i: int| 0 <= i < es.len() ==> json_text_valid(#[trigger] es[i].1),
        normal_dict(es).len() == es.len(),
        forall|i: int|
            0 <= i < es.len() ==> #[trigger] normal_dict(es)[i] == (es[i].0, json_normal(es[i].1)),
    decreases es.len(),
{
    if es.len() > 0 {
        let init = es.drop_last();
        lemma_dict_index(init);
        assert forall|i: int| 0 <= i < es.len() implies json_text_valid(#[trigger] es[i].1) by {
            if i < es.len() - 1 {
                assert(init[i] == es[i]);
            }
        }
        assert forall|i: int| 0 <= i < es.len() implies #[trigger] normal_dict(es)[i] == (
            es[i].0,
            json_normal(es[i].1),
        ) by {
            if i < es.len() - 1 {
                assert(normal_dict(es)[i] == normal_dict(init)[i]);
                assert(init[i] == es[i]);
            }
        }
    }
}

proof fn lemma_document_items_index(items: Seq<SpecJsonValue>)
    ensures
        document_items(items).len() == items.len(),
        forall|i: int| 0 <= i < items.len() ==> #[trigger] document_items(items)[i] == document_form(items[i]),
    decreases items.len(),
{
    if items.len() > 0 {
        lemma_document_items_index(items.drop_last());
        assert forall|i: int| 0 <= i < items.len() implies #[trigger] document_items(items)[i]
            == document_form(items[i]) by {
            if i < items.len() - 1 {
                assert(document_items(items)[i] == document_items(items.drop_last())[i]);
            }
        }
    }
}

proof fn lemma_array_to_trees_index(items: Seq<SpecJsonValue>)
    ensures
        array_to_trees(items).len() == items.len(),
        forall|i: int| 0 <= i < items.len() ==> #[trigger] array_to_trees(items)[i] == json_to_tree(items[i]),
    decreases items.len(),
{
    if items.len() > 0 {
        lemma_array_to_trees_index(items.drop_last());
        assert forall|i: int| 0 <= i < items.len() implies #[trigger] array_to_trees(items)[i]
            == json_to_tree(items[i]) by {
            if i < items.len() - 1 {
                assert(array_to_trees(items)[i] == array_to_trees(items.drop_last())[i]);
            }
        }
    }
}

proof fn lemma_object_to_entries_index(ms: Seq<(Seq<char>, SpecJsonValue)>)
    ensures
        object_to_entries(ms).len() == ms.len(),
        forall|i: int|
            0 <= i < ms.len() ==> #[trigger] object_to_entries(ms)[i] == (
                Some(encode_utf8(ms[i].0)),
                json_to_tree(ms[i].1),
            ),
    decreases ms.len(),
{
    if ms.len() > 0 {
        lemma_object_to_entries_index(ms.drop_last());
        assert forall|i: int| 0 <= i < ms.len() implies #[trigger] object_to_entries(ms)[i] == (
            Some(encode_utf8(ms[i].0)),
            json_to_tree(ms[i].1),
        ) by {
            if i < ms.len() - 1 {
                assert(object_to_entries(ms)[i] == object_to_entries(ms.drop_last())[i]);
                assert(ms.drop_last()[i] == ms[i]);
            }
        }
    }
}

/// Writing a tree as a JSON document (through a JSON map) and reading it
/// back gives, where all its text is valid UTF-8 and each dictionary's keys
/// are different, the tree with its flags cleared and its unsigned integers
/// up to `i64::MAX` made signed, but for the order of dictionary entries:
/// every dictionary keeps its length, its keys and, under each key, the
/// tree.
pub proof fn law_tree_document_keeps_entries(t: SpecPropertyTree)
    requires
        json_text_valid(t),
        keys_unique(t),
    ensures
        same_but_entry_order(json_normal(t), json_to_tree(document_form(tree_to_json(t)))),
    decreases t,
{
    let a = json_normal(t);
    let b = json_to_tree(document_form(tree_to_json(t)));
    match t.value {
        SpecPropertyTreeValue::List(items) => {
            lemma_list_index(items);
            let js = list_to_json(items);
            lemma_document_items_index(js);
            lemma_array_to_trees_index(document_items(js));
            let x = normal_list(items);
            assert(document_form(tree_to_json(t)) == SpecJsonValue::Array(document_items(js)));
            assert(b.value == SpecPropertyTreeValue::List(array_to_trees(document_items(js))));
            let y = b.value->List_0;
            assert(a.value == SpecPropertyTreeValue::List(x));
            assert(x.len() == y.len());
            assert forall|i: int| #![trigger x[i]] 0 <= i < x.len() implies same_but_entry_order(
                x[i],
                y[i],
            ) by {
                assert(y[i] == json_to_tree(document_form(tree_to_json(items[i]))));
                assert(x[i] == json_normal(items[i]));
                law_tree_document_keeps_entries(items[i]);
            }
            assert(same_but_entry_order(a, b));
        },
        SpecPropertyTreeValue::Dictionary(es) => {
            lemma_dict_index(es);
            lemma_dict_text_valid_keys(es);
            let ms = dict_to_json(es);
            let pairs = document_members(ms);
            lemma_document_members(ms);
            assert(distinct_names(pairs)) by {
                assert forall|i: int, j: int| 0 <= i < j < pairs.len() implies #[trigger] pairs[i].0
                    != #[trigger] pairs[j].0 by {
                    assert(es[i].0 != es[j].0);
                    law_bytes_round_trip(es[i].0->0);
                    law_bytes_round_trip(es[j].0->0);
                }
            }
            lemma_map_form_distinct(pairs);
            let r = map_form(pairs);
            lemma_object_to_entries_index(r);
            let x = normal_dict(es);
            let y = b.value->Dictionary_0;
            assert(y == object_to_entries(r));
            assert forall|i: int| #![trigger x[i]] 0 <= i < x.len() implies has_matching_entry(
                x[i],
                y,
            ) by {
                assert(ms[i] == (lossy_decode(es[i].0->0), tree_to_json(es[i].1)));
                assert(pairs[i] == (ms[i].0, document_form(ms[i].1)));
                let j = choose|j: int| 0 <= j < r.len() && #[trigger] r[j] == pairs[i];
                law_bytes_round_trip(es[i].0->0);
                law_tree_document_keeps_entries(es[i].1);
                assert(y[j] == (Some(encode_utf8(r[j].0)), json_to_tree(r[j].1)));
                assert(x[i] == (es[i].0, json_normal(es[i].1)));
                assert(y[j].0 == x[i].0 && same_but_entry_order(x[i].1, y[j].1));
                assert(has_matching_entry(x[i], y));
            }
            assert(a.value == SpecPropertyTreeValue::Dictionary(x));
            assert(same_but_entry_order(a, b));
        },
        _ => {
            law_tree_json_round_trip(t);
        },
    }
}

} // verus!
