//! Canonical bytes: those that writing produces. Writing back what was read
//! from canonical bytes gives those bytes again.

use crate::endian::{
    lemma_i64_bytes_round_trip, lemma_u16_bytes_round_trip, lemma_u32_bytes_round_trip, lemma_u64_bytes_round_trip, u32_at,
};
use crate::immutable_string::{parse_immutable_string, serialize_immutable_string};
use crate::property_tree::{
    entry_trees, flag, flag_byte, lemma_parse_entries_len, lemma_parse_tree_len, parse_entries,
    parse_tree, serialize_dict, serialize_list, serialize_tree, spec_type_from_u8, spec_value_type,
    type_tag, PropertyTreeType, SpecPropertyTree,
};
use crate::endian::{lemma_u32_round_trip, u32_le};
use crate::laws::{
    law_string_round_trip, law_tree_round_trip, lemma_dict_round_trip,
    lemma_list_round_trip, lemma_type_tag,
};
use crate::mod_settings::{parse_settings, serialize_settings, SpecModSettings};
use crate::property_tree::{dict_fits, list_fits, string_fits, tree_fits, SpecPropertyTreeValue};
use vstd::prelude::*;

verus! {

/// A string's bytes as writing gives them: the first byte is 0 or 1, and a
/// length of 255 or more is written in the long form only (so a long-form
/// length is at least 255).
pub open spec fn string_bytes_canonical(s: Seq<u8>) -> bool {
    &&& s.len() >= 1
    &&& s[0] <= 1
    &&& (s[0] == 0 && s.len() >= 6 && s[1] == 0xff ==> u32_at(s, 2) >= 0xff)
}

/// A tree's bytes as writing gives them: the `any_type` and bool flag bytes
/// are 0 or 1, strings are canonical, every list item's key is the absent
/// string written as the byte 1, and every dictionary key is canonical, at
/// every depth.
pub open spec fn tree_bytes_canonical(s: Seq<u8>) -> bool
    decreases s.len(), 0nat,
{
    if s.len() < 2 {
        false
    } else {
        &&& s[1] <= 1
        &&& match spec_type_from_u8(s[0]) {
            None => false,
            Some(ty) => match ty {
                PropertyTreeType::Bool => s.len() >= 3 && s[2] <= 1,
                PropertyTreeType::String => string_bytes_canonical(s.skip(2)),
                PropertyTreeType::List => s.len() >= 6 && entries_bytes_canonical(
                    s.skip(6),
                    u32_at(s, 2) as nat,
                    true,
                ),
                PropertyTreeType::Dictionary => s.len() >= 6 && entries_bytes_canonical(
                    s.skip(6),
                    u32_at(s, 2) as nat,
                    false,
                ),
                _ => true,
            },
        }
    }
}

/// The first `n` entries at the start of `s` are canonical: each key is the
/// byte 1 (`is_list`) or a canonical string, each tree canonical.
pub open spec fn entries_bytes_canonical(s: Seq<u8>, n: nat, is_list: bool) -> bool
    decreases s.len(), n,
{
    if n == 0 {
        true
    } else {
        &&& entries_bytes_canonical(s, (n - 1) as nat, is_list)
        &&& match parse_entries(s, (n - 1) as nat) {
            Err(_) => true,
            Ok((_, m)) => {
                &&& m < s.len()
                &&& if is_list {
                    s[m as int] == 1
                } else {
                    string_bytes_canonical(s.skip(m as int))
                }
                &&& match parse_immutable_string(s.skip(m as int)) {
                    Err(_) => true,
                    Ok((_, k)) => m + k <= s.len() && tree_bytes_canonical(s.skip((m + k) as int)),
                }
            },
        }
    }
}

/// Writing back a string read from canonical bytes gives those bytes.
pub proof fn law_string_write_of_read(s: Seq<u8>)
    requires
        string_bytes_canonical(s),
        parse_immutable_string(s) is Ok,
    ensures
        parse_immutable_string(s) matches Ok((v, n)) && serialize_immutable_string(v) == s.take(
            n as int,
        ),
{
    if let Ok((v, n)) = parse_immutable_string(s) {
        if s[0] == 0 {
            if s[1] == 0xff {
                lemma_u32_bytes_round_trip(s, 2);
            }
        }
        assert(serialize_immutable_string(v) =~= s.take(n as int));
    }
}

/// Writing back a tree read from canonical bytes gives those bytes: the
/// bytes that reading took, exactly.
pub proof fn law_tree_write_of_read(s: Seq<u8>)
    requires
        tree_bytes_canonical(s),
        parse_tree(s) is Ok,
    ensures
        parse_tree(s) matches Ok((t, n)) && serialize_tree(t) == s.take(n as int),
    decreases s.len(), 1nat,
{
    let (t, n) = parse_tree(s)->Ok_0;
    let ty = spec_type_from_u8(s[0])->Some_0;
    assert(type_tag(ty) == s[0]);
    assert(flag_byte(flag(s[1])) == s[1]);
    assert(spec_value_type(t.value) == ty);
    let head = seq![s[0], s[1]];
    match ty {
        PropertyTreeType::Null => {
            assert(serialize_tree(t) =~= s.take(n as int));
        },
        PropertyTreeType::Bool => {
            assert(serialize_tree(t) =~= s.take(n as int));
        },
        PropertyTreeType::Number => {
            lemma_u64_bytes_round_trip(s, 2);
            assert(serialize_tree(t) =~= s.take(n as int));
        },
        PropertyTreeType::SignedInteger => {
            lemma_i64_bytes_round_trip(s, 2);
            assert(serialize_tree(t) =~= s.take(n as int));
        },
        PropertyTreeType::UnsignedInteger => {
            lemma_u64_bytes_round_trip(s, 2);
            assert(serialize_tree(t) =~= s.take(n as int));
        },
        PropertyTreeType::String => {
            law_string_write_of_read(s.skip(2));
            assert(serialize_tree(t) =~= s.take(n as int));
        },
        PropertyTreeType::List => {
            let count = u32_at(s, 2) as nat;
            lemma_parse_entries_len(s.skip(6), count);
            lemma_u32_bytes_round_trip(s, 2);
            lemma_list_write_of_read(s.skip(6), count);
            let (es, k) = parse_entries(s.skip(6), count)->Ok_0;
            assert(serialize_tree(t) == head + s.subrange(2, 6) + serialize_list(entry_trees(es)));
            assert(serialize_tree(t) =~= s.take(n as int));
        },
        PropertyTreeType::Dictionary => {
            let count = u32_at(s, 2) as nat;
            lemma_parse_entries_len(s.skip(6), count);
            lemma_u32_bytes_round_trip(s, 2);
            lemma_dict_write_of_read(s.skip(6), count);
            let (es, k) = parse_entries(s.skip(6), count)->Ok_0;
            assert(serialize_tree(t) == head + s.subrange(2, 6) + serialize_dict(es));
            assert(serialize_tree(t) =~= s.take(n as int));
        },
    }
}

proof fn lemma_list_write_of_read(s: Seq<u8>, c: nat)
    requires
        entries_bytes_canonical(s, c, true),
        parse_entries(s, c) is Ok,
    ensures
        parse_entries(s, c) matches Ok((es, m)) && serialize_list(entry_trees(es)) == s.take(
            m as int,
        ) && forall|i: int| 0 <= i < es.len() ==> (#[trigger] es[i]).0 is None,
    decreases s.len(), c,
{
    if c == 0 {
        assert(serialize_list(entry_trees(Seq::empty())) =~= s.take(0));
    } else {
        let (es, m) = parse_entries(s, c)->Ok_0;
        let (es0, m0) = parse_entries(s, (c - 1) as nat)->Ok_0;
        lemma_list_write_of_read(s, (c - 1) as nat);
        lemma_parse_entries_len(s, (c - 1) as nat);
        let rest = s.skip(m0 as int);
        let (key, k) = parse_immutable_string(rest)->Ok_0;
        assert(key is None && k == 1);
        let (t, j) = parse_tree(s.skip((m0 + k) as int))->Ok_0;
        lemma_parse_tree_len(s.skip((m0 + k) as int));
        law_tree_write_of_read(s.skip((m0 + k) as int));
        assert(es == es0.push((key, t)));
        assert(entry_trees(es) =~= entry_trees(es0).push(t));
        assert(entry_trees(es).drop_last() =~= entry_trees(es0));
        assert(serialize_immutable_string(None) == s.subrange(m0 as int, m0 + 1int));
        assert(serialize_list(entry_trees(es)) =~= s.take(m as int));
        assert forall|i: int| 0 <= i < es.len() implies (#[trigger] es[i]).0 is None by {
            if i < es0.len() {
                assert(es[i] == es0[i]);
            }
        }
    }
}

proof fn lemma_dict_write_of_read(s: Seq<u8>, c: nat)
    requires
        entries_bytes_canonical(s, c, false),
        parse_entries(s, c) is Ok,
    ensures
        parse_entries(s, c) matches Ok((es, m)) && serialize_dict(es) == s.take(m as int),
    decreases s.len(), c,
{
    if c == 0 {
        assert(serialize_dict(Seq::empty()) =~= s.take(0));
    } else {
        let (es, m) = parse_entries(s, c)->Ok_0;
        let (es0, m0) = parse_entries(s, (c - 1) as nat)->Ok_0;
        lemma_dict_write_of_read(s, (c - 1) as nat);
        lemma_parse_entries_len(s, (c - 1) as nat);
        let rest = s.skip(m0 as int);
        let (key, k) = parse_immutable_string(rest)->Ok_0;
        law_string_write_of_read(rest);
        let (t, j) = parse_tree(s.skip((m0 + k) as int))->Ok_0;
        lemma_parse_tree_len(s.skip((m0 + k) as int));
        law_tree_write_of_read(s.skip((m0 + k) as int));
        assert(es == es0.push((key, t)));
        assert(es.drop_last() =~= es0);
        assert(serialize_dict(es) =~= s.take(m as int));
    }
}

/// A settings file's bytes as writing gives them: the quality flag byte is 0
/// or 1 and the tree's bytes are canonical.
pub open spec fn settings_bytes_canonical(s: Seq<u8>) -> bool {
    s.len() >= 9 && s[8] <= 1 && tree_bytes_canonical(s.skip(9))
}

/// Writing back settings read from canonical bytes gives the bytes that
/// reading took.
pub proof fn law_settings_write_of_read(s: Seq<u8>)
    requires
        settings_bytes_canonical(s),
        parse_settings(s) is Ok,
    ensures
        parse_settings(s) matches Ok((m, n)) && serialize_settings(m) == s.take(n as int),
{
    let (m, n) = parse_settings(s)->Ok_0;
    lemma_u16_bytes_round_trip(s, 0);
    lemma_u16_bytes_round_trip(s, 2);
    lemma_u16_bytes_round_trip(s, 4);
    lemma_u16_bytes_round_trip(s, 6);
    law_tree_write_of_read(s.skip(9));
    lemma_parse_tree_len(s.skip(9));
    let (t, k) = parse_tree(s.skip(9))->Ok_0;
    assert(m.data == t && n == 9 + k);
    assert(flag_byte(flag(s[8])) == s[8]);
    assert(s.take(n as int) =~= s.subrange(0, 2) + s.subrange(2, 4) + s.subrange(4, 6)
        + s.subrange(6, 8) + seq![s[8]] + s.skip(9).take(k as int));
    assert(serialize_settings(m) =~= s.take(n as int));
}

/// The bytes written for a string are canonical.
pub proof fn law_written_string_canonical(v: Option<Seq<u8>>, rest: Seq<u8>)
    requires
        string_fits(v),
    ensures
        string_bytes_canonical(serialize_immutable_string(v) + rest),
{
    let s = serialize_immutable_string(v) + rest;
    if let Some(b) = v {
        if b.len() >= 0xff {
            lemma_u32_round_trip(b.len() as u32);
            assert(u32_at(s, 2) == u32_at(u32_le(b.len() as u32), 0));
        }
    }
}

/// The bytes written for a tree are canonical, whatever follows them.
pub proof fn law_written_tree_canonical(t: SpecPropertyTree, rest: Seq<u8>)
    requires
        tree_fits(t),
    ensures
        tree_bytes_canonical(serialize_tree(t) + rest),
    decreases t, 1nat,
{
    let s = serialize_tree(t) + rest;
    lemma_type_tag(spec_value_type(t.value));
    assert(s[0] == type_tag(spec_value_type(t.value)));
    assert(s[1] == flag_byte(t.any_type));
    match t.value {
        SpecPropertyTreeValue::Bool(b) => {
            assert(s[2] == flag_byte(b));
        },
        SpecPropertyTreeValue::String(v) => {
            law_written_string_canonical(v, rest);
            assert(s.skip(2) =~= serialize_immutable_string(v) + rest);
        },
        SpecPropertyTreeValue::List(items) => {
            lemma_u32_round_trip(items.len() as u32);
            assert(u32_at(s, 2) == u32_at(u32_le(items.len() as u32), 0));
            assert(s.skip(6) =~= serialize_list(items) + rest);
            lemma_written_list_canonical(items, rest);
        },
        SpecPropertyTreeValue::Dictionary(es) => {
            lemma_u32_round_trip(es.len() as u32);
            assert(u32_at(s, 2) == u32_at(u32_le(es.len() as u32), 0));
            assert(s.skip(6) =~= serialize_dict(es) + rest);
            lemma_written_dict_canonical(es, rest);
        },
        _ => {},
    }
}

proof fn lemma_written_list_canonical(items: Seq<SpecPropertyTree>, rest: Seq<u8>)
    requires
        list_fits(items),
    ensures
        entries_bytes_canonical(serialize_list(items) + rest, items.len(), true),
    decreases items, 0nat,
{
    if items.len() > 0 {
        let init = items.drop_last();
        let last = items[items.len() - 1];
        let key = serialize_immutable_string(None);
        let tail = key + serialize_tree(last) + rest;
        let s = serialize_list(items) + rest;
        assert(s =~= serialize_list(init) + tail);
        lemma_written_list_canonical(init, tail);
        lemma_list_round_trip(init, tail);
        let m = serialize_list(init).len();
        assert(s.skip(m as int) =~= key + (serialize_tree(last) + rest));
        law_string_round_trip(None, serialize_tree(last) + rest);
        assert(s.skip((m + 1) as int) =~= serialize_tree(last) + rest);
        law_written_tree_canonical(last, rest);
    }
}

proof fn lemma_written_dict_canonical(es: Seq<(Option<Seq<u8>>, SpecPropertyTree)>, rest: Seq<u8>)
    requires
        dict_fits(es),
    ensures
        entries_bytes_canonical(serialize_dict(es) + rest, es.len(), false),
    decreases es, 0nat,
{
    if es.len() > 0 {
        let init = es.drop_last();
        let last = es[es.len() - 1];
        let key = serialize_immutable_string(last.0);
        let tail = key + serialize_tree(last.1) + rest;
        let s = serialize_dict(es) + rest;
        assert(s =~= serialize_dict(init) + tail);
        lemma_written_dict_canonical(init, tail);
        lemma_dict_round_trip(init, tail);
        let m = serialize_dict(init).len();
        assert(s.skip(m as int) =~= key + (serialize_tree(last.1) + rest));
        law_string_round_trip(last.0, serialize_tree(last.1) + rest);
        law_written_string_canonical(last.0, serialize_tree(last.1) + rest);
        assert(s.skip((m + key.len()) as int) =~= serialize_tree(last.1) + rest);
        law_written_tree_canonical(last.1, rest);
    }
}

/// The bytes written for settings whose tree fits are canonical.
pub proof fn law_written_settings_canonical(m: SpecModSettings)
    requires
        tree_fits(m.data),
    ensures
        settings_bytes_canonical(serialize_settings(m)),
{
    let s = serialize_settings(m);
    law_written_tree_canonical(m.data, Seq::empty());
    assert(s.skip(9) =~= serialize_tree(m.data) + Seq::<u8>::empty());
}

} // verus!
