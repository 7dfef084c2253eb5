//! What holds of the library as a whole: reading back what was written.

use crate::endian::{
    lemma_i64_round_trip, lemma_u16_round_trip, lemma_u32_round_trip, lemma_u64_round_trip, u16_at,
    u16_le, u32_at, u32_le,
};
use crate::immutable_string::{parse_immutable_string, serialize_immutable_string};
use crate::mod_settings::{
    oldest_readable, parse_settings, serialize_settings, settings_object_type, version_precedes,
    SpecModSettings,
};
use crate::property_tree::{
    dict_fits, entry_trees, lemma_parse_entries_len, list_fits, parse_entries, parse_tree, serialize_dict, serialize_list,
    serialize_tree, spec_type_from_u8, spec_value_type, string_fits, tree_fits, type_tag,
    PropertyTreeType, SpecPropertyTree, SpecPropertyTreeValue,
};
use vstd::prelude::*;

verus! {

/// Reading a string back from what was written for it gives the string and
/// takes exactly the bytes written, whatever follows them.
pub proof fn law_string_round_trip(v: Option<Seq<u8>>, rest: Seq<u8>)
    requires
        string_fits(v),
    ensures
        parse_immutable_string(serialize_immutable_string(v) + rest) == Ok::<_, crate::error::LoadError>(
            (v, serialize_immutable_string(v).len()),
        ),
{
    let w = serialize_immutable_string(v);
    let s = w + rest;
    match v {
        None => {},
        Some(b) => {
            if b.len() >= 0xff {
                lemma_u32_round_trip(b.len() as u32);
                let l = u32_le(b.len() as u32);
                assert(u32_at(s, 2) == u32_at(l, 0));
                assert(s.subrange(6, 6 + b.len() as int) =~= b);
            } else {
                assert(s.subrange(2, 2 + b.len() as int) =~= b);
            }
        },
    }
}

/// The tag of a type names that type again.
pub proof fn lemma_type_tag(t: PropertyTreeType)
    ensures
        spec_type_from_u8(type_tag(t)) == Some(t),
{
}

/// Reading a tree back from what was written for it gives the tree and takes
/// exactly the bytes written, whatever follows them.
pub proof fn law_tree_round_trip(t: SpecPropertyTree, rest: Seq<u8>)
    requires
        tree_fits(t),
    ensures
        parse_tree(serialize_tree(t) + rest) == Ok::<_, crate::error::LoadError>(
            (t, serialize_tree(t).len()),
        ),
    decreases t, 2nat,
{
    match t.value {
        SpecPropertyTreeValue::List(_) => lemma_list_tree_round_trip(t, rest),
        SpecPropertyTreeValue::Dictionary(_) => lemma_dict_tree_round_trip(t, rest),
        SpecPropertyTreeValue::String(_) => lemma_string_tree_round_trip(t, rest),
        _ => lemma_scalar_tree_round_trip(t, rest),
    }
}

proof fn lemma_tree_header(t: SpecPropertyTree, rest: Seq<u8>)
    ensures
        ({
            let s = serialize_tree(t) + rest;
            &&& s.len() >= 2
            &&& spec_type_from_u8(s[0]) == Some(spec_value_type(t.value))
            &&& s[1] == (if t.any_type { 1u8 } else { 0u8 })
        }),
{
    lemma_type_tag(spec_value_type(t.value));
}

proof fn lemma_scalar_tree_round_trip(t: SpecPropertyTree, rest: Seq<u8>)
    requires
        !(t.value is List),
        !(t.value is Dictionary),
        !(t.value is String),
    ensures
        parse_tree(serialize_tree(t) + rest) == Ok::<_, crate::error::LoadError>(
            (t, serialize_tree(t).len()),
        ),
{
    let s = serialize_tree(t) + rest;
    lemma_tree_header(t, rest);
    match t.value {
        SpecPropertyTreeValue::Bool(b) => {
            assert(s[2] == if b { 1u8 } else { 0u8 });
        },
        SpecPropertyTreeValue::Number(n) => {
            lemma_u64_round_trip(n);
        },
        SpecPropertyTreeValue::SignedInteger(n) => {
            lemma_i64_round_trip(n);
        },
        SpecPropertyTreeValue::UnsignedInteger(n) => {
            lemma_u64_round_trip(n);
        },
        _ => {},
    }
}

proof fn lemma_string_tree_round_trip(t: SpecPropertyTree, rest: Seq<u8>)
    requires
        t.value is String,
        tree_fits(t),
    ensures
        parse_tree(serialize_tree(t) + rest) == Ok::<_, crate::error::LoadError>(
            (t, serialize_tree(t).len()),
        ),
{
    let s = serialize_tree(t) + rest;
    lemma_tree_header(t, rest);
    let v = t.value->String_0;
    law_string_round_trip(v, rest);
    assert(s.skip(2) =~= serialize_immutable_string(v) + rest);
}

proof fn lemma_list_tree_round_trip(t: SpecPropertyTree, rest: Seq<u8>)
    requires
        t.value is List,
        tree_fits(t),
    ensures
        parse_tree(serialize_tree(t) + rest) == Ok::<_, crate::error::LoadError>(
            (t, serialize_tree(t).len()),
        ),
    decreases t, 1nat,
{
    let s = serialize_tree(t) + rest;
    lemma_tree_header(t, rest);
    let items = t.value->List_0;
    lemma_u32_round_trip(items.len() as u32);
    assert(u32_at(s, 2) == u32_at(u32_le(items.len() as u32), 0));
    lemma_list_round_trip(items, rest);
    assert(s.skip(6) =~= serialize_list(items) + rest);
    lemma_keyed_trees(items);
}

proof fn lemma_dict_tree_round_trip(t: SpecPropertyTree, rest: Seq<u8>)
    requires
        t.value is Dictionary,
        tree_fits(t),
    ensures
        parse_tree(serialize_tree(t) + rest) == Ok::<_, crate::error::LoadError>(
            (t, serialize_tree(t).len()),
        ),
    decreases t, 1nat,
{
    let s = serialize_tree(t) + rest;
    lemma_tree_header(t, rest);
    let es = t.value->Dictionary_0;
    lemma_u32_round_trip(es.len() as u32);
    assert(u32_at(s, 2) == u32_at(u32_le(es.len() as u32), 0));
    lemma_dict_round_trip(es, rest);
    assert(s.skip(6) =~= serialize_dict(es) + rest);
}

/// The entries a list is written as: each item keyed by the absent string.
pub open spec fn keyed_none(items: Seq<SpecPropertyTree>) -> Seq<(Option<Seq<u8>>, SpecPropertyTree)> {
    items.map_values(|t: SpecPropertyTree| (None::<Seq<u8>>, t))
}

pub(crate) proof fn lemma_keyed_trees(items: Seq<SpecPropertyTree>)
    ensures
        entry_trees(keyed_none(items)) == items,
{
    assert(entry_trees(keyed_none(items)) =~= items);
}

pub(crate) proof fn lemma_list_round_trip(items: Seq<SpecPropertyTree>, rest: Seq<u8>)
    requires
        list_fits(items),
    ensures
        parse_entries(serialize_list(items) + rest, items.len()) == Ok::<_, crate::error::LoadError>(
            (keyed_none(items), serialize_list(items).len()),
        ),
    decreases items, 0nat,
{
    if items.len() > 0 {
        let init = items.drop_last();
        let last = items[items.len() - 1];
        let key = serialize_immutable_string(None);
        let tail = key + serialize_tree(last) + rest;
        let s = serialize_list(items) + rest;
        assert(s =~= serialize_list(init) + tail);
        lemma_list_round_trip(init, tail);
        let m = serialize_list(init).len();
        assert(s.skip(m as int) =~= key + (serialize_tree(last) + rest));
        law_string_round_trip(None, serialize_tree(last) + rest);
        assert(s.skip((m + 1) as int) =~= serialize_tree(last) + rest);
        law_tree_round_trip(last, rest);
        assert(keyed_none(init).push((None, last)) =~= keyed_none(items));
    } else {
        assert(keyed_none(items) =~= Seq::empty());
    }
}

pub(crate) proof fn lemma_dict_round_trip(es: Seq<(Option<Seq<u8>>, SpecPropertyTree)>, rest: Seq<u8>)
    requires
        dict_fits(es),
    ensures
        parse_entries(serialize_dict(es) + rest, es.len()) == Ok::<_, crate::error::LoadError>(
            (es, serialize_dict(es).len()),
        ),
    decreases es, 0nat,
{
    if es.len() > 0 {
        let init = es.drop_last();
        let last = es[es.len() - 1];
        let key = serialize_immutable_string(last.0);
        let tail = key + serialize_tree(last.1) + rest;
        let s = serialize_dict(es) + rest;
        assert(s =~= serialize_dict(init) + tail);
        lemma_dict_round_trip(init, tail);
        let m = serialize_dict(init).len();
        assert(s.skip(m as int) =~= key + (serialize_tree(last.1) + rest));
        law_string_round_trip(last.0, serialize_tree(last.1) + rest);
        assert(s.skip((m + key.len()) as int) =~= serialize_tree(last.1) + rest);
        law_tree_round_trip(last.1, rest);
        assert(init.push(last) =~= es);
    } else {
        assert(es =~= Seq::empty());
    }
}

/// Settings that can be written and read back: named `ModSettings`, written
/// by 0.18 or later, every length in the tree at most `u32::MAX`.
pub open spec fn settings_round_trip(m: SpecModSettings) -> bool {
    &&& m.object_type == settings_object_type()
    &&& !version_precedes(m.version, oldest_readable())
    &&& tree_fits(m.data)
}

/// Reading settings back from the bytes written for them gives the same
/// settings, and takes all of those bytes.
pub proof fn law_settings_round_trip(m: SpecModSettings)
    requires
        settings_round_trip(m),
    ensures
        parse_settings(serialize_settings(m)) == Ok::<_, crate::error::LoadError>(
            (m, serialize_settings(m).len()),
        ),
{
    let s = serialize_settings(m);
    lemma_u16_round_trip(m.version.0);
    lemma_u16_round_trip(m.version.1);
    lemma_u16_round_trip(m.version.2);
    lemma_u16_round_trip(m.version.3);
    assert(u16_at(s, 0) == u16_at(u16_le(m.version.0), 0));
    assert(u16_at(s, 2) == u16_at(u16_le(m.version.1), 0));
    assert(u16_at(s, 4) == u16_at(u16_le(m.version.2), 0));
    assert(u16_at(s, 6) == u16_at(u16_le(m.version.3), 0));
    law_tree_round_trip(m.data, Seq::empty());
    assert(s.skip(9) =~= serialize_tree(m.data) + Seq::<u8>::empty());
}

/// Every tree that reading gives fits: its lengths came from the format's
/// own length fields.
pub proof fn lemma_parsed_tree_fits(s: Seq<u8>)
    ensures
        parse_tree(s) matches Ok((t, _)) ==> tree_fits(t),
    decreases s.len(), 0nat,
{
    if let Ok((t, _)) = parse_tree(s) {
        match spec_type_from_u8(s[0])->Some_0 {
            PropertyTreeType::String => {
                lemma_parsed_string_fits(s.skip(2));
            },
            PropertyTreeType::List => {
                let count = u32_at(s, 2) as nat;
                lemma_parse_entries_len(s.skip(6), count);
                lemma_parsed_entries_fit(s.skip(6), count);
            },
            PropertyTreeType::Dictionary => {
                let count = u32_at(s, 2) as nat;
                lemma_parse_entries_len(s.skip(6), count);
                lemma_parsed_entries_fit(s.skip(6), count);
            },
            _ => {},
        }
    }
}

proof fn lemma_parsed_string_fits(s: Seq<u8>)
    ensures
        parse_immutable_string(s) matches Ok((v, _)) ==> string_fits(v),
{
}

proof fn lemma_parsed_entries_fit(s: Seq<u8>, c: nat)
    ensures
        parse_entries(s, c) matches Ok((es, _)) ==> dict_fits(es) && list_fits(entry_trees(es)),
    decreases s.len(), c,
{
    if c > 0 {
        lemma_parsed_entries_fit(s, (c - 1) as nat);
        if let Ok((es0, m0)) = parse_entries(s, (c - 1) as nat) {
            if m0 <= s.len() {
                lemma_parsed_string_fits(s.skip(m0 as int));
                if let Ok((key, k)) = parse_immutable_string(s.skip(m0 as int)) {
                    if m0 + k <= s.len() {
                        lemma_parsed_tree_fits(s.skip((m0 + k) as int));
                        if let Ok((es, m)) = parse_entries(s, c) {
                            let t = es[es.len() - 1].1;
                            assert(es.drop_last() =~= es0);
                            assert(entry_trees(es).drop_last() =~= entry_trees(es0));
                        }
                    }
                }
            }
        }
    }
}

} // verus!
