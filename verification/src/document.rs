//! The document form of a JSON value: what writing it through a JSON map
//! gives. A `serde_json::Map` (built here without `preserve_order`, so backed
//! by a `BTreeMap`) keeps, of members with equal names, the last one, and
//! hands its members out ordered by name, names compared byte by byte.

use crate::json::{
    lemma_view_json_array, lemma_view_json_object, tree_to_json, view_json, view_json_array,
    view_json_object, JsonValue, SpecJsonValue,
};
use crate::property_tree::PropertyTree;
use vstd::prelude::*;
use vstd::utf8::{encode_utf8, encode_utf8_decode_utf8};

verus! {

/// `a` comes before `b` in lexicographic byte order: at the first byte where
/// they differ `a`'s is smaller, or `a` is a proper prefix of `b`.
pub open spec fn bytes_precede(a: Seq<u8>, b: Seq<u8>) -> bool
    decreases a.len(),
{
    if a.len() == 0 {
        b.len() > 0
    } else if b.len() == 0 {
        false
    } else if a[0] < b[0] {
        true
    } else if a[0] > b[0] {
        false
    } else {
        bytes_precede(a.drop_first(), b.drop_first())
    }
}

/// The order of `String`: the UTF-8 bytes of `a` come before those of `b`.
pub open spec fn name_precedes(a: Seq<char>, b: Seq<char>) -> bool {
    bytes_precede(encode_utf8(a), encode_utf8(b))
}

/// No byte sequence comes before itself.
pub proof fn lemma_bytes_precede_irreflexive(a: Seq<u8>)
    ensures
        !bytes_precede(a, a),
    decreases a.len(),
{
    if a.len() > 0 {
        lemma_bytes_precede_irreflexive(a.drop_first());
    }
}

/// The byte order is transitive.
pub proof fn lemma_bytes_precede_transitive(a: Seq<u8>, b: Seq<u8>, c: Seq<u8>)
    requires
        bytes_precede(a, b),
        bytes_precede(b, c),
    ensures
        bytes_precede(a, c),
    decreases a.len(),
{
    if a.len() > 0 && b.len() > 0 && c.len() > 0 && a[0] == b[0] && b[0] == c[0] {
        lemma_bytes_precede_transitive(a.drop_first(), b.drop_first(), c.drop_first());
    }
}

/// Of two names, at most one comes before the other.
pub proof fn lemma_name_precedes_asymmetric(a: Seq<char>, b: Seq<char>)
    ensures
        !(name_precedes(a, b) && name_precedes(b, a)),
{
    if name_precedes(a, b) && name_precedes(b, a) {
        lemma_bytes_precede_transitive(encode_utf8(a), encode_utf8(b), encode_utf8(a));
        lemma_bytes_precede_irreflexive(encode_utf8(a));
    }
}

/// The value of the last member named `k`, if any member has that name.
pub open spec fn last_value(pairs: Seq<(Seq<char>, SpecJsonValue)>, k: Seq<char>) -> Option<SpecJsonValue>
    decreases pairs.len(),
{
    if pairs.len() == 0 {
        None
    } else if pairs[pairs.len() - 1].0 == k {
        Some(pairs[pairs.len() - 1].1)
    } else {
        last_value(pairs.drop_last(), k)
    }
}

/// Some member of `r` is named `k`.
pub open spec fn names(r: Seq<(Seq<char>, SpecJsonValue)>, k: Seq<char>) -> bool {
    exists|i: int| 0 <= i < r.len() && #[trigger] r[i].0 == k
}

/// The members are ordered strictly by name.
pub open spec fn strictly_ordered(r: Seq<(Seq<char>, SpecJsonValue)>) -> bool {
    forall|i: int, j: int| 0 <= i < j < r.len() ==> name_precedes(#[trigger] r[i].0, #[trigger] r[j].0)
}

/// `r` is what a JSON map gives for the members `pairs`: one member per
/// name that `pairs` uses, its value that of the last member of `pairs` with
/// that name, ordered strictly by name.
pub open spec fn is_map_form(r: Seq<(Seq<char>, SpecJsonValue)>, pairs: Seq<(Seq<char>, SpecJsonValue)>) -> bool {
    &&& strictly_ordered(r)
    &&& forall|i: int| 0 <= i < r.len() ==> last_value(pairs, #[trigger] r[i].0) == Some(r[i].1)
    &&& forall|k: Seq<char>| #[trigger] last_value(pairs, k) is Some ==> names(r, k)
}

/// The members a JSON map gives for `pairs` (there is exactly one such
/// sequence: `lemma_map_form_unique`).
pub open spec fn map_form(pairs: Seq<(Seq<char>, SpecJsonValue)>) -> Seq<(Seq<char>, SpecJsonValue)> {
    choose|r: Seq<(Seq<char>, SpecJsonValue)>| is_map_form(r, pairs)
}

/// The document form of a JSON value: every object, at every depth, as a
/// JSON map gives its members.
pub open spec fn document_form(j: SpecJsonValue) -> SpecJsonValue
    decreases j,
{
    match j {
        SpecJsonValue::Array(items) => SpecJsonValue::Array(document_items(items)),
        SpecJsonValue::Object(members) => SpecJsonValue::Object(map_form(document_members(members))),
        _ => j,
    }
}

/// The document forms of the items of an array, in order.
pub open spec fn document_items(items: Seq<SpecJsonValue>) -> Seq<SpecJsonValue>
    decreases items,
{
    if items.len() == 0 {
        Seq::empty()
    } else {
        document_items(items.drop_last()).push(document_form(items[items.len() - 1]))
    }
}

/// The members with their values in document form, in order.
pub open spec fn document_members(members: Seq<(Seq<char>, SpecJsonValue)>) -> Seq<(Seq<char>, SpecJsonValue)>
    decreases members,
{
    if members.len() == 0 {
        Seq::empty()
    } else {
        let last = members[members.len() - 1];
        document_members(members.drop_last()).push((last.0, document_form(last.1)))
    }
}

/// Two sequences ordered strictly by name that use the same names have
/// the same names at the same places.
pub proof fn lemma_ordered_same_names(r1: Seq<(Seq<char>, SpecJsonValue)>, r2: Seq<(Seq<char>, SpecJsonValue)>)
    requires
        strictly_ordered(r1),
        strictly_ordered(r2),
        forall|k: Seq<char>| names(r1, k) <==> names(r2, k),
    ensures
        r1.len() == r2.len(),
        forall|i: int| 0 <= i < r1.len() ==> r1[i].0 == r2[i].0,
    decreases r1.len(),
{
    if r1.len() == 0 {
        if r2.len() > 0 {
            assert(names(r2, r2[0].0));
        }
    } else {
        assert(names(r1, r1[0].0));
        assert(r2.len() > 0);
        let a = r1[0].0;
        let b = r2[0].0;
        assert(names(r2, a));
        assert(names(r2, b));
        assert(names(r1, b));
        let j = choose|j: int| 0 <= j < r2.len() && r2[j].0 == a;
        let i = choose|i: int| 0 <= i < r1.len() && r1[i].0 == b;
        if a != b {
            assert(j > 0 && i > 0);
            assert(name_precedes(r2[0].0, r2[j].0));
            assert(name_precedes(r1[0].0, r1[i].0));
            lemma_name_precedes_asymmetric(a, b);
        }
        let t1 = r1.drop_first();
        let t2 = r2.drop_first();
        assert forall|k: Seq<char>| names(t1, k) <==> names(t2, k) by {
            if names(t1, k) {
                let x = choose|x: int| 0 <= x < t1.len() && t1[x].0 == k;
                assert(r1[x + 1].0 == k);
                assert(name_precedes(r1[0].0, r1[x + 1].0));
                lemma_bytes_precede_irreflexive(encode_utf8(a));
                assert(names(r1, k));
                assert(names(r2, k));
                let y = choose|y: int| 0 <= y < r2.len() && r2[y].0 == k;
                assert(y != 0);
                assert(t2[y - 1].0 == k);
            }
            if names(t2, k) {
                let x = choose|x: int| 0 <= x < t2.len() && t2[x].0 == k;
                assert(r2[x + 1].0 == k);
                assert(name_precedes(r2[0].0, r2[x + 1].0));
                lemma_bytes_precede_irreflexive(encode_utf8(a));
                assert(names(r2, k));
                assert(names(r1, k));
                let y = choose|y: int| 0 <= y < r1.len() && r1[y].0 == k;
                assert(y != 0);
                assert(t1[y - 1].0 == k);
            }
        }
        lemma_ordered_same_names(t1, t2);
        assert forall|i: int| 0 <= i < r1.len() implies r1[i].0 == r2[i].0 by {
            if i > 0 {
                assert(t1[i - 1].0 == t2[i - 1].0);
            }
        }
    }
}

/// At most one sequence is the map form of given members.
pub proof fn lemma_map_form_unique(
    r1: Seq<(Seq<char>, SpecJsonValue)>,
    r2: Seq<(Seq<char>, SpecJsonValue)>,
    pairs: Seq<(Seq<char>, SpecJsonValue)>,
)
    requires
        is_map_form(r1, pairs),
        is_map_form(r2, pairs),
    ensures
        r1 == r2,
{
    assert forall|k: Seq<char>| names(r1, k) <==> names(r2, k) by {
        if names(r1, k) {
            let i = choose|i: int| 0 <= i < r1.len() && r1[i].0 == k;
            assert(last_value(pairs, r1[i].0) == Some(r1[i].1));
        }
        if names(r2, k) {
            let i = choose|i: int| 0 <= i < r2.len() && r2[i].0 == k;
            assert(last_value(pairs, r2[i].0) == Some(r2[i].1));
        }
    }
    lemma_ordered_same_names(r1, r2);
    assert forall|i: int| 0 <= i < r1.len() implies r1[i] == r2[i] by {
        assert(last_value(pairs, r1[i].0) == Some(r1[i].1));
        assert(last_value(pairs, r2[i].0) == Some(r2[i].1));
    }
    assert(r1 =~= r2);
}

/// Where some sequence is the map form of `pairs`, `map_form` is that
/// sequence.
pub proof fn lemma_map_form_is(r: Seq<(Seq<char>, SpecJsonValue)>, pairs: Seq<(Seq<char>, SpecJsonValue)>)
    requires
        is_map_form(r, pairs),
    ensures
        map_form(pairs) == r,
{
    lemma_map_form_unique(map_form(pairs), r, pairs);
}

/// The name of each member, mapped to the place of the last member with
/// that name: what a JSON map holds after inserting each member's place
/// under its name, in order.
pub open spec fn last_places(pairs: Seq<(Seq<char>, SpecJsonValue)>) -> Map<Seq<char>, Option<u64>>
    decreases pairs.len(),
{
    if pairs.len() == 0 {
        Map::empty()
    } else {
        last_places(pairs.drop_last()).insert(pairs[pairs.len() - 1].0, Some((pairs.len() - 1) as u64))
    }
}

/// A name is in `last_places` exactly where some member has it; the place
/// held is that of the last such member.
pub proof fn lemma_last_places(pairs: Seq<(Seq<char>, SpecJsonValue)>, k: Seq<char>)
    requires
        pairs.len() <= u64::MAX,
    ensures
        last_places(pairs).contains_key(k) <==> last_value(pairs, k) is Some,
        last_places(pairs).contains_key(k) ==> (last_places(pairs)[k] matches Some(p) && p
            < pairs.len() && pairs[p as int].0 == k && last_value(pairs, k) == Some(pairs[p as int].1)),
    decreases pairs.len(),
{
    if pairs.len() > 0 {
        lemma_last_places(pairs.drop_last(), k);
    }
}

/// A `serde_json::Map`.
#[verifier::external_type_specification]
#[verifier::external_body]
#[verifier::reject_recursive_types(K)]
#[verifier::reject_recursive_types(V)]
pub struct ExJsonMap<K, V>(serde_json::Map<K, V>);

/// A `serde_json::Value`.
#[verifier::external_type_specification]
#[verifier::external_body]
pub struct ExJsonValue(serde_json::Value);

/// What a `serde_json::Map` holds: each key's text, mapped to its value's
/// `as_u64`.
pub uninterp spec fn json_map_contents(m: serde_json::Map<String, serde_json::Value>) -> Map<Seq<char>, Option<u64>>;

/// `serde_json::Map::new`: an empty map.
#[verifier::external_body]
fn json_map_new() -> (r: serde_json::Map<String, serde_json::Value>)
    ensures
        forall|k: Seq<char>| !(#[trigger] json_map_contents(r).contains_key(k)),
{
    serde_json::Map::new()
}

/// `serde_json::Map::insert` of the number `index` under `key`: the key
/// now holds that number (`as_u64` gives it back), whether it was present
/// or not; other keys are unchanged.
#[verifier::external_body]
fn json_map_insert(m: &mut serde_json::Map<String, serde_json::Value>, key: String, index: u64)
    ensures
        json_map_contents(*final(m)) == json_map_contents(*old(m)).insert(key@, Some(index)),
{
    m.insert(key, serde_json::Value::from(index));
}

/// `serde_json::Map::iter`, each entry taken as its key and its value's
/// `as_u64`: every key once, in ascending `String` order (bytes compared
/// lexicographically), as the `BTreeMap` behind the map hands them out.
#[verifier::external_body]
fn json_map_entries(m: &serde_json::Map<String, serde_json::Value>) -> (r: Vec<(String, Option<u64>)>)
    ensures
        forall|i: int|
            0 <= i < r@.len() ==> json_map_contents(*m).contains_key(#[trigger] r@[i].0@)
                && json_map_contents(*m)[r@[i].0@] == r@[i].1,
        forall|k: Seq<char>|
            #[trigger] json_map_contents(*m).contains_key(k) ==> exists|i: int|
                0 <= i < r@.len() && r@[i].0@ == k,
        forall|i: int, j: int|
            0 <= i < j < r@.len() ==> name_precedes(#[trigger] r@[i].0@, #[trigger] r@[j].0@),
{
    m.iter().map(|(k, v)| (k.clone(), v.as_u64())).collect()
}

/// The document form of the members' values, in order.
pub proof fn lemma_document_members(members: Seq<(Seq<char>, SpecJsonValue)>)
    ensures
        document_members(members).len() == members.len(),
        forall|i: int|
            0 <= i < members.len() ==> #[trigger] document_members(members)[i] == (
                members[i].0,
                document_form(members[i].1),
            ),
    decreases members.len(),
{
    if members.len() > 0 {
        lemma_document_members(members.drop_last());
    }
}

/// Of two different byte sequences, one comes before the other.
pub proof fn lemma_bytes_precede_total(a: Seq<u8>, b: Seq<u8>)
    requires
        a != b,
    ensures
        bytes_precede(a, b) || bytes_precede(b, a),
    decreases a.len(),
{
    if a.len() > 0 && b.len() > 0 && a[0] == b[0] {
        if a.drop_first() == b.drop_first() {
            assert(a =~= seq![a[0]] + a.drop_first());
            assert(b =~= seq![b[0]] + b.drop_first());
        }
        lemma_bytes_precede_total(a.drop_first(), b.drop_first());
    } else if a.len() == 0 && b.len() == 0 {
        assert(a =~= b);
    }
}

/// Of two different names, one comes before the other.
pub proof fn lemma_name_precedes_total(a: Seq<char>, b: Seq<char>)
    requires
        a != b,
    ensures
        name_precedes(a, b) || name_precedes(b, a),
{
    encode_utf8_decode_utf8(a);
    encode_utf8_decode_utf8(b);
    lemma_bytes_precede_total(encode_utf8(a), encode_utf8(b));
}

/// The name order is transitive.
pub proof fn lemma_name_precedes_transitive(a: Seq<char>, b: Seq<char>, c: Seq<char>)
    requires
        name_precedes(a, b),
        name_precedes(b, c),
    ensures
        name_precedes(a, c),
{
    lemma_bytes_precede_transitive(encode_utf8(a), encode_utf8(b), encode_utf8(c));
}

/// In members ordered strictly by name, each member is the last with its
/// name, and the names used are those of the members.
pub proof fn lemma_ordered_last_values(ms: Seq<(Seq<char>, SpecJsonValue)>)
    requires
        strictly_ordered(ms),
    ensures
        forall|i: int| 0 <= i < ms.len() ==> last_value(ms, #[trigger] ms[i].0) == Some(ms[i].1),
        forall|k: Seq<char>| #[trigger] last_value(ms, k) is Some ==> names(ms, k),
    decreases ms.len(),
{
    if ms.len() > 0 {
        let init = ms.drop_last();
        assert(strictly_ordered(init)) by {
            assert forall|i: int, j: int| 0 <= i < j < init.len() implies name_precedes(
                #[trigger] init[i].0,
                #[trigger] init[j].0,
            ) by {
                assert(name_precedes(ms[i].0, ms[j].0));
            }
        }
        lemma_ordered_last_values(init);
        assert forall|i: int| 0 <= i < ms.len() implies last_value(ms, #[trigger] ms[i].0) == Some(
            ms[i].1,
        ) by {
            if i < ms.len() - 1 {
                assert(name_precedes(ms[i].0, ms[ms.len() - 1].0));
                if ms[i].0 == ms[ms.len() - 1].0 {
                    lemma_bytes_precede_irreflexive(encode_utf8(ms[i].0));
                }
                assert(init[i] == ms[i]);
            }
        }
        assert forall|k: Seq<char>| #[trigger] last_value(ms, k) is Some implies names(ms, k) by {
            if ms[ms.len() - 1].0 == k {
                assert(ms[ms.len() - 1].0 == k);
            } else {
                assert(last_value(init, k) is Some);
                let x = choose|x: int| 0 <= x < init.len() && init[x].0 == k;
                assert(ms[x].0 == k);
            }
        }
    }
}

/// `r` with the member `(k, v)` put in: replacing the member named `k`, or
/// inserted where its name belongs.
pub open spec fn insert_member(r: Seq<(Seq<char>, SpecJsonValue)>, k: Seq<char>, v: SpecJsonValue) -> Seq<
    (Seq<char>, SpecJsonValue),
>
    decreases r.len(),
{
    if r.len() == 0 {
        seq![(k, v)]
    } else if r[0].0 == k {
        r.update(0, (k, v))
    } else if name_precedes(k, r[0].0) {
        seq![(k, v)] + r
    } else {
        seq![r[0]] + insert_member(r.drop_first(), k, v)
    }
}

/// Putting a member into strictly ordered members keeps them strictly
/// ordered, and changes only the value under its name.
proof fn lemma_insert_member(r: Seq<(Seq<char>, SpecJsonValue)>, k: Seq<char>, v: SpecJsonValue)
    requires
        strictly_ordered(r),
    ensures
        strictly_ordered(insert_member(r, k, v)),
        forall|x: Seq<char>|
            #[trigger] last_value(insert_member(r, k, v), x) == if x == k {
                Some(v)
            } else {
                last_value(r, x)
            },
        forall|i: int|
            0 <= i < insert_member(r, k, v).len() ==> (#[trigger] insert_member(r, k, v)[i]).0 == k
                || names(r, insert_member(r, k, v)[i].0),
    decreases r.len(), 1nat,
{
    if r.len() == 0 {
        lemma_ordered_last_values(insert_member(r, k, v));
    } else if r[0].0 == k {
        lemma_insert_replace(r, k, v);
    } else if name_precedes(k, r[0].0) {
        lemma_insert_front(r, k, v);
    } else {
        lemma_insert_later(r, k, v);
    }
}

#[verifier::spinoff_prover]
#[verifier::rlimit(40)]
proof fn lemma_insert_replace(r: Seq<(Seq<char>, SpecJsonValue)>, k: Seq<char>, v: SpecJsonValue)
    requires
        strictly_ordered(r),
        r.len() > 0,
        r[0].0 == k,
    ensures
        strictly_ordered(insert_member(r, k, v)),
        forall|x: Seq<char>|
            #[trigger] last_value(insert_member(r, k, v), x) == if x == k {
                Some(v)
            } else {
                last_value(r, x)
            },
        forall|i: int|
            0 <= i < insert_member(r, k, v).len() ==> (#[trigger] insert_member(r, k, v)[i]).0 == k
                || names(r, insert_member(r, k, v)[i].0),
{
    let ins = insert_member(r, k, v);
    lemma_ordered_last_values(r);
        assert(strictly_ordered(ins)) by {
            assert forall|i: int, j: int| 0 <= i < j < ins.len() implies name_precedes(
                #[trigger] ins[i].0,
                #[trigger] ins[j].0,
            ) by {
                assert(name_precedes(r[i].0, r[j].0));
            }
        }
        lemma_ordered_last_values(ins);
        assert forall|x: Seq<char>| #[trigger] last_value(ins, x) == if x == k {
            Some(v)
        } else {
            last_value(r, x)
        } by {
            if names(r, x) {
                let i = choose|i: int| 0 <= i < r.len() && r[i].0 == x;
                assert(last_value(r, r[i].0) == Some(r[i].1));
                assert(ins[i].0 == x);
                assert(last_value(ins, ins[i].0) == Some(ins[i].1));
            } else {
                if last_value(ins, x) is Some {
                    let i = choose|i: int| 0 <= i < ins.len() && ins[i].0 == x;
                    assert(r[i].0 == x || i == 0);
                }
            }
        }
        assert forall|i: int| 0 <= i < ins.len() implies (#[trigger] ins[i]).0 == k || names(
            r,
            ins[i].0,
        ) by {
            assert(ins[i].0 == r[i].0);
        }
}

#[verifier::spinoff_prover]
#[verifier::rlimit(40)]
proof fn lemma_insert_front(r: Seq<(Seq<char>, SpecJsonValue)>, k: Seq<char>, v: SpecJsonValue)
    requires
        strictly_ordered(r),
        r.len() > 0,
        r[0].0 != k,
        name_precedes(k, r[0].0),
    ensures
        strictly_ordered(insert_member(r, k, v)),
        forall|x: Seq<char>|
            #[trigger] last_value(insert_member(r, k, v), x) == if x == k {
                Some(v)
            } else {
                last_value(r, x)
            },
        forall|i: int|
            0 <= i < insert_member(r, k, v).len() ==> (#[trigger] insert_member(r, k, v)[i]).0 == k
                || names(r, insert_member(r, k, v)[i].0),
{
    let ins = insert_member(r, k, v);
    lemma_ordered_last_values(r);
        assert(strictly_ordered(ins)) by {
            assert forall|i: int, j: int| 0 <= i < j < ins.len() implies name_precedes(
                #[trigger] ins[i].0,
                #[trigger] ins[j].0,
            ) by {
                if i == 0 {
                    if j > 1 {
                        assert(name_precedes(r[0].0, r[j - 1].0));
                        lemma_name_precedes_transitive(k, r[0].0, r[j - 1].0);
                    }
                } else {
                    assert(name_precedes(r[i - 1].0, r[j - 1].0));
                }
            }
        }
        lemma_ordered_last_values(ins);
        assert forall|x: Seq<char>| #[trigger] last_value(ins, x) == if x == k {
            Some(v)
        } else {
            last_value(r, x)
        } by {
            if names(r, x) {
                let i = choose|i: int| 0 <= i < r.len() && r[i].0 == x;
                assert(last_value(r, r[i].0) == Some(r[i].1));
                assert(ins[i + 1] == r[i]);
                assert(last_value(ins, ins[i + 1].0) == Some(ins[i + 1].1));
                if x == k {
                    if i > 0 {
                        assert(name_precedes(r[0].0, r[i].0));
                        lemma_name_precedes_transitive(k, r[0].0, k);
                    }
                    lemma_bytes_precede_irreflexive(encode_utf8(k));
                }
            } else {
                assert(last_value(ins, ins[0].0) == Some(ins[0].1));
                if last_value(ins, x) is Some {
                    let i = choose|i: int| 0 <= i < ins.len() && ins[i].0 == x;
                    if i > 0 {
                        assert(r[i - 1].0 == x);
                    }
                }
            }
        }
        assert forall|i: int| 0 <= i < ins.len() implies (#[trigger] ins[i]).0 == k || names(
            r,
            ins[i].0,
        ) by {
            if i > 0 {
                assert(ins[i] == r[i - 1]);
            }
        }
}

#[verifier::spinoff_prover]
#[verifier::rlimit(40)]
proof fn lemma_insert_later(r: Seq<(Seq<char>, SpecJsonValue)>, k: Seq<char>, v: SpecJsonValue)
    requires
        strictly_ordered(r),
        r.len() > 0,
        r[0].0 != k,
        !name_precedes(k, r[0].0),
    ensures
        strictly_ordered(insert_member(r, k, v)),
        forall|x: Seq<char>|
            #[trigger] last_value(insert_member(r, k, v), x) == if x == k {
                Some(v)
            } else {
                last_value(r, x)
            },
        forall|i: int|
            0 <= i < insert_member(r, k, v).len() ==> (#[trigger] insert_member(r, k, v)[i]).0 == k
                || names(r, insert_member(r, k, v)[i].0),
    decreases r.len(), 0nat,
{
    let ins = insert_member(r, k, v);
    lemma_ordered_last_values(r);
        lemma_name_precedes_total(k, r[0].0);
        let rest = r.drop_first();
        assert(strictly_ordered(rest)) by {
            assert forall|i: int, j: int| 0 <= i < j < rest.len() implies name_precedes(
                #[trigger] rest[i].0,
                #[trigger] rest[j].0,
            ) by {
                assert(name_precedes(r[i + 1].0, r[j + 1].0));
            }
        }
        lemma_insert_member(rest, k, v);
        let tail = insert_member(rest, k, v);
        assert(ins == seq![r[0]] + tail);
        assert(strictly_ordered(ins)) by {
            assert forall|i: int, j: int| 0 <= i < j < ins.len() implies name_precedes(
                #[trigger] ins[i].0,
                #[trigger] ins[j].0,
            ) by {
                if i == 0 {
                    assert(ins[j] == tail[j - 1]);
                    if tail[j - 1].0 != k {
                        assert(names(rest, tail[j - 1].0));
                        let y = choose|y: int| 0 <= y < rest.len() && rest[y].0 == tail[j - 1].0;
                        assert(name_precedes(r[0].0, r[y + 1].0));
                    }
                } else {
                    assert(ins[i] == tail[i - 1]);
                    assert(ins[j] == tail[j - 1]);
                }
            }
        }
        lemma_ordered_last_values(ins);
        lemma_ordered_last_values(rest);
        lemma_ordered_last_values(tail);
        assert forall|x: Seq<char>| #[trigger] last_value(ins, x) == if x == k {
            Some(v)
        } else {
            last_value(r, x)
        } by {
            if x == r[0].0 {
                assert(last_value(ins, ins[0].0) == Some(ins[0].1));
                assert(last_value(r, r[0].0) == Some(r[0].1));
            } else {
                if last_value(tail, x) is Some {
                    let i = choose|i: int| 0 <= i < tail.len() && tail[i].0 == x;
                    assert(ins[i + 1] == tail[i]);
                    assert(last_value(ins, ins[i + 1].0) == Some(ins[i + 1].1));
                    assert(last_value(tail, tail[i].0) == Some(tail[i].1));
                } else if last_value(ins, x) is Some {
                    let i = choose|i: int| 0 <= i < ins.len() && ins[i].0 == x;
                    assert(i > 0);
                    assert(tail[i - 1].0 == x);
                    assert(last_value(tail, tail[i - 1].0) is Some);
                }
                if last_value(rest, x) is Some {
                    let i = choose|i: int| 0 <= i < rest.len() && rest[i].0 == x;
                    assert(r[i + 1] == rest[i]);
                    assert(last_value(r, r[i + 1].0) == Some(r[i + 1].1));
                    assert(last_value(rest, rest[i].0) == Some(rest[i].1));
                } else if last_value(r, x) is Some {
                    let i = choose|i: int| 0 <= i < r.len() && r[i].0 == x;
                    assert(i > 0);
                    assert(rest[i - 1].0 == x);
                    assert(last_value(rest, rest[i - 1].0) is Some);
                }
            }
        }
        assert forall|i: int| 0 <= i < ins.len() implies (#[trigger] ins[i]).0 == k || names(
            r,
            ins[i].0,
        ) by {
            if i == 0 {
                assert(names(r, r[0].0));
            } else {
                assert(ins[i] == tail[i - 1]);
                if tail[i - 1].0 != k {
                    let y = choose|y: int| 0 <= y < rest.len() && rest[y].0 == tail[i - 1].0;
                    assert(r[y + 1].0 == tail[i - 1].0);
                }
            }
        }
}

/// The members put, one after another, into an empty ordered sequence.
pub open spec fn build_map_form(pairs: Seq<(Seq<char>, SpecJsonValue)>) -> Seq<(Seq<char>, SpecJsonValue)>
    decreases pairs.len(),
{
    if pairs.len() == 0 {
        Seq::empty()
    } else {
        let last = pairs[pairs.len() - 1];
        insert_member(build_map_form(pairs.drop_last()), last.0, last.1)
    }
}

proof fn lemma_build_map_form(pairs: Seq<(Seq<char>, SpecJsonValue)>)
    ensures
        strictly_ordered(build_map_form(pairs)),
        forall|x: Seq<char>| #[trigger] last_value(build_map_form(pairs), x) == last_value(pairs, x),
    decreases pairs.len(),
{
    if pairs.len() > 0 {
        let last = pairs[pairs.len() - 1];
        lemma_build_map_form(pairs.drop_last());
        lemma_insert_member(build_map_form(pairs.drop_last()), last.0, last.1);
    }
}

/// Every sequence of members has a map form: `map_form` is it.
pub proof fn lemma_map_form(pairs: Seq<(Seq<char>, SpecJsonValue)>)
    ensures
        is_map_form(map_form(pairs), pairs),
{
    let r = build_map_form(pairs);
    lemma_build_map_form(pairs);
    lemma_ordered_last_values(r);
    assert forall|x: Seq<char>| #[trigger] last_value(pairs, x) is Some implies names(r, x) by {
        assert(last_value(r, x) == last_value(pairs, x));
    }
    assert forall|i: int| 0 <= i < r.len() implies last_value(pairs, #[trigger] r[i].0) == Some(r[i].1) by {
        assert(last_value(r, r[i].0) == last_value(pairs, r[i].0));
    }
    assert(is_map_form(r, pairs));
    lemma_map_form_is(r, pairs);
}

/// Where the last member named `k` has the value `v`, some member is
/// `(k, v)`.
pub proof fn lemma_last_value_member(pairs: Seq<(Seq<char>, SpecJsonValue)>, k: Seq<char>)
    ensures
        last_value(pairs, k) matches Some(v) ==> exists|i: int|
            0 <= i < pairs.len() && #[trigger] pairs[i] == (k, v),
    decreases pairs.len(),
{
    if pairs.len() > 0 {
        lemma_last_value_member(pairs.drop_last(), k);
        if let Some(v) = last_value(pairs, k) {
            if pairs[pairs.len() - 1].0 == k {
                assert(pairs[pairs.len() - 1] == (k, v));
            } else {
                let i = choose|i: int| 0 <= i < pairs.len() - 1 && #[trigger] pairs.drop_last()[i] == (k, v);
                assert(pairs[i] == (k, v));
            }
        }
    }
}

/// The map form has no more members than the members it is made of.
pub proof fn lemma_map_form_len(pairs: Seq<(Seq<char>, SpecJsonValue)>)
    ensures
        map_form(pairs).len() <= pairs.len(),
{
    broadcast use vstd::seq_lib::seq_to_set_is_finite;

    let r = map_form(pairs);
    lemma_map_form(pairs);
    let f = |p: (Seq<char>, SpecJsonValue)| p.0;
    let rn = r.map_values(f);
    let pn = pairs.map_values(f);
    assert(rn.no_duplicates()) by {
        assert forall|i: int, j: int| 0 <= i < rn.len() && 0 <= j < rn.len() && i != j implies rn[i]
            != rn[j] by {
            if i < j {
                assert(name_precedes(r[i].0, r[j].0));
            } else {
                assert(name_precedes(r[j].0, r[i].0));
            }
            lemma_bytes_precede_irreflexive(encode_utf8(r[i].0));
        }
    }
    rn.unique_seq_to_set();
    pn.lemma_cardinality_of_set();
    assert(rn.to_set().subset_of(pn.to_set())) by {
        assert forall|x: Seq<char>| rn.to_set().contains(x) implies pn.to_set().contains(x) by {
            let i = choose|i: int| 0 <= i < rn.len() && rn[i] == x;
            assert(last_value(pairs, r[i].0) == Some(r[i].1));
            lemma_last_value_member(pairs, r[i].0);
            let p = choose|p: int| 0 <= p < pairs.len() && #[trigger] pairs[p] == (r[i].0, r[i].1);
            assert(pn[p] == x);
        }
    }
    vstd::set_lib::lemma_len_subset(rn.to_set(), pn.to_set());
}

/// The names of the members are pairwise different.
pub open spec fn distinct_names(p: Seq<(Seq<char>, SpecJsonValue)>) -> bool {
    forall|i: int, j: int| 0 <= i < j < p.len() ==> #[trigger] p[i].0 != #[trigger] p[j].0
}

/// Where names are pairwise different, each member is the last with its
/// name.
pub proof fn lemma_distinct_last_values(p: Seq<(Seq<char>, SpecJsonValue)>)
    requires
        distinct_names(p),
    ensures
        forall|i: int| 0 <= i < p.len() ==> last_value(p, #[trigger] p[i].0) == Some(p[i].1),
    decreases p.len(),
{
    if p.len() > 0 {
        let init = p.drop_last();
        assert(distinct_names(init)) by {
            assert forall|i: int, j: int| 0 <= i < j < init.len() implies #[trigger] init[i].0
                != #[trigger] init[j].0 by {
                assert(p[i].0 != p[j].0);
            }
        }
        lemma_distinct_last_values(init);
        assert forall|i: int| 0 <= i < p.len() implies last_value(p, #[trigger] p[i].0) == Some(
            p[i].1,
        ) by {
            if i < p.len() - 1 {
                assert(p[i].0 != p[p.len() - 1].0);
                assert(init[i] == p[i]);
            }
        }
    }
}

/// Where names are pairwise different, the map form keeps every member: it
/// is as long as the members, and holds each of them.
pub proof fn lemma_map_form_distinct(pairs: Seq<(Seq<char>, SpecJsonValue)>)
    requires
        distinct_names(pairs),
    ensures
        map_form(pairs).len() == pairs.len(),
        forall|i: int|
            #![trigger pairs[i]]
            0 <= i < pairs.len() ==> exists|j: int|
                0 <= j < map_form(pairs).len() && #[trigger] map_form(pairs)[j] == pairs[i],
{
    broadcast use vstd::seq_lib::seq_to_set_is_finite;

    let r = map_form(pairs);
    lemma_map_form(pairs);
    lemma_map_form_len(pairs);
    lemma_distinct_last_values(pairs);
    assert forall|i: int| #![trigger pairs[i]] 0 <= i < pairs.len() implies exists|j: int|
        0 <= j < r.len() && #[trigger] r[j] == pairs[i] by {
        assert(last_value(pairs, pairs[i].0) == Some(pairs[i].1));
        assert(names(r, pairs[i].0));
        let j = choose|j: int| 0 <= j < r.len() && r[j].0 == pairs[i].0;
        assert(last_value(pairs, r[j].0) == Some(r[j].1));
        assert(r[j] == pairs[i]);
    }
    let f = |p: (Seq<char>, SpecJsonValue)| p.0;
    let rn = r.map_values(f);
    let pn = pairs.map_values(f);
    assert(pn.no_duplicates()) by {
        assert forall|i: int, j: int| 0 <= i < pn.len() && 0 <= j < pn.len() && i != j implies pn[i]
            != pn[j] by {
            if i < j {
                assert(pairs[i].0 != pairs[j].0);
            } else {
                assert(pairs[j].0 != pairs[i].0);
            }
        }
    }
    pn.unique_seq_to_set();
    rn.lemma_cardinality_of_set();
    assert(pn.to_set().subset_of(rn.to_set())) by {
        assert forall|x: Seq<char>| pn.to_set().contains(x) implies rn.to_set().contains(x) by {
            let i = choose|i: int| 0 <= i < pn.len() && pn[i] == x;
            let j = choose|j: int| 0 <= j < r.len() && #[trigger] r[j] == pairs[i];
            assert(rn[j] == x);
        }
    }
    vstd::set_lib::lemma_len_subset(pn.to_set(), rn.to_set());
}

impl JsonValue {
    /// The document form of this value, as `document_form` says: each
    /// object's members as a `serde_json::Map` holds them.
    pub fn document_form(&self) -> (r: JsonValue)
        ensures
            r@ == document_form(self@),
        decreases self, 1nat,
    {
        match self {
            JsonValue::Null => JsonValue::Null,
            JsonValue::Bool(b) => JsonValue::Bool(*b),
            JsonValue::Number(n) => JsonValue::Number(*n),
            JsonValue::String(s) => JsonValue::String(s.clone()),
            JsonValue::Array(items) => JsonValue::Array(Self::document_array(items)),
            JsonValue::Object(members) => JsonValue::Object(Self::document_object(members)),
        }
    }

    fn document_array(items: &Vec<JsonValue>) -> (r: Vec<JsonValue>)
        ensures
            view_json_array(r@) == document_items(view_json_array(items@)),
        decreases items, 0nat,
    {
        let ghost va = view_json_array(items@);
        proof {
            lemma_view_json_array(items@);
        }
        let mut out: Vec<JsonValue> = Vec::new();
        let mut i: usize = 0;
        assert(va.take(0) =~= Seq::<SpecJsonValue>::empty());
        while i < items.len()
            invariant
                i <= items@.len(),
                va == view_json_array(items@),
                va.len() == items@.len(),
                forall|k: int| 0 <= k < items@.len() ==> #[trigger] va[k] == view_json(items@[k]),
                view_json_array(out@) == document_items(va.take(i as int)),
            decreases items@.len() - i,
        {
            assert(decreases_to!(items => items@[i as int]));
            let d = items[i].document_form();
            let ghost old_out = out@;
            out.push(d);
            assert(out@.drop_last() =~= old_out);
            assert(va.take(i + 1).drop_last() =~= va.take(i as int));
            i = i + 1;
        }
        assert(va.take(i as int) =~= va);
        out
    }

    #[verifier::spinoff_prover]
    fn document_object(members: &Vec<(String, JsonValue)>) -> (r: Vec<(String, JsonValue)>)
        ensures
            view_json_object(r@) == map_form(document_members(view_json_object(members@))),
        decreases members, 0nat,
    {
        let ghost raw = view_json_object(members@);
        let ghost pairs = document_members(raw);
        proof {
            lemma_view_json_object(members@);
            lemma_document_members(raw);
        }
        let mut map = json_map_new();
        assert(json_map_contents(map) =~= Map::<Seq<char>, Option<u64>>::empty());
        let mut i: usize = 0;
        assert(pairs.take(0) =~= Seq::<(Seq<char>, SpecJsonValue)>::empty());
        while i < members.len()
            invariant
                i <= members@.len(),
                raw == view_json_object(members@),
                pairs == document_members(raw),
                raw.len() == members@.len(),
                pairs.len() == members@.len(),
                forall|k: int| 0 <= k < members@.len() ==> #[trigger] pairs[k].0 == members@[k].0@,
                json_map_contents(map) == last_places(pairs.take(i as int)),
            decreases members@.len() - i,
        {
            let name = members[i].0.clone();
            json_map_insert(&mut map, name, i as u64);
            assert(pairs.take(i + 1).drop_last() =~= pairs.take(i as int));
            i = i + 1;
        }
        assert(pairs.take(i as int) =~= pairs);
        let entries = json_map_entries(&map);
        let mut out: Vec<(String, JsonValue)> = Vec::new();
        let mut e: usize = 0;
        while e < entries.len()
            invariant
                e <= entries@.len(),
                raw == view_json_object(members@),
                pairs == document_members(raw),
                raw.len() == members@.len(),
                pairs.len() == members@.len(),
                members@.len() <= usize::MAX,
                forall|k: int|
                    0 <= k < members@.len() ==> #[trigger] pairs[k] == (
                        members@[k].0@,
                        document_form(view_json(members@[k].1)),
                    ),
                json_map_contents(map) == last_places(pairs),
                forall|x: int|
                    0 <= x < entries@.len() ==> json_map_contents(map).contains_key(
                        #[trigger] entries@[x].0@,
                    ) && json_map_contents(map)[entries@[x].0@] == entries@[x].1,
                view_json_object(out@).len() == e,
                forall|x: int|
                    0 <= x < e ==> #[trigger] view_json_object(out@)[x].0 == entries@[x].0@
                        && last_value(pairs, entries@[x].0@) == Some(view_json_object(out@)[x].1),
            decreases entries@.len() - e,
        {
            let (name, place) = &entries[e];
            proof {
                lemma_last_places(pairs, name@);
            }
            match place {
                Some(pl) => {
                    let p = *pl as usize;
                    assert(p as int == *pl as int);
                    let (_, value) = &members[p];
                    let d = value.document_form();
                    let ghost old_out = out@;
                    out.push((name.clone(), d));
                    proof {
                        lemma_view_json_object(out@);
                        lemma_view_json_object(old_out);
                        assert(out@.drop_last() =~= old_out);
                        assert(view_json_object(out@) == view_json_object(old_out).push(
                            (name@, d@),
                        ));
                        assert(d@ == pairs[p as int].1);
                        assert forall|x: int| 0 <= x < e + 1 implies #[trigger] view_json_object(out@)[x].0
                            == entries@[x].0@ && last_value(pairs, entries@[x].0@) == Some(
                            view_json_object(out@)[x].1,
                        ) by {
                            if x < e {
                                assert(view_json_object(out@)[x] == view_json_object(old_out)[x]);
                                assert(view_json_object(old_out)[x].0 == entries@[x].0@);
                            } else {
                                assert(entries@[x].0@ == name@);
                                assert(json_map_contents(map)[name@] == Some(*pl));
                            }
                        }
                    }
                },
                None => {
                    assert(false);
                },
            }
            e = e + 1;
        }
        proof {
            let r = view_json_object(out@);
            lemma_view_json_object(out@);
            assert forall|k: Seq<char>| #[trigger] last_value(pairs, k) is Some implies names(r, k) by {
                lemma_last_places(pairs, k);
                let x = choose|x: int| 0 <= x < entries@.len() && entries@[x].0@ == k;
                assert(r[x].0 == k);
            }
            assert forall|a: int, b: int| 0 <= a < b < r.len() implies name_precedes(
                #[trigger] r[a].0,
                #[trigger] r[b].0,
            ) by {
                assert(name_precedes(entries@[a].0@, entries@[b].0@));
            }
            lemma_map_form_is(r, pairs);
        }
        out
    }
}

impl PropertyTree {
    /// The tree as its JSON and YAML documents hold it: its JSON form with
    /// every dictionary's members as a `serde_json::Map` holds them (of
    /// equal keys the last, ordered by key).
    pub fn to_document(&self) -> (r: JsonValue)
        ensures
            r@ == document_form(tree_to_json(self@)),
    {
        self.to_json_value().document_form()
    }
}

} // verus!
