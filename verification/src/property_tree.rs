//! The property tree: the typed, nested value that holds the settings.

use crate::endian::{
    i64_at, i64_le, i64_le_bytes, read_i64_at, read_u32_at, read_u64_at, u32_at, u32_le,
    u32_le_bytes, u64_at, u64_le, u64_le_bytes,
};
use crate::error::LoadError;
use crate::immutable_string::{
    append_bytes, load_matches, parse_immutable_string, serialize_immutable_string,
    ImmutableString,
};
use vstd::slice::slice_subrange;
use vstd::prelude::*;

verus! {

/// The type tag of a property tree, as the settings format numbers it.
#[derive(Debug, Clone, Copy, PartialEq, Eq, Structural)]
pub enum PropertyTreeType {
    Null,
    Bool,
    Number,
    String,
    List,
    Dictionary,
    SignedInteger,
    UnsignedInteger,
}

/// The type whose tag is `v`, if one has it.
pub open spec fn spec_type_from_u8(v: u8) -> Option<PropertyTreeType> {
    if v == 0 {
        Some(PropertyTreeType::Null)
    } else if v == 1 {
        Some(PropertyTreeType::Bool)
    } else if v == 2 {
        Some(PropertyTreeType::Number)
    } else if v == 3 {
        Some(PropertyTreeType::String)
    } else if v == 4 {
        Some(PropertyTreeType::List)
    } else if v == 5 {
        Some(PropertyTreeType::Dictionary)
    } else if v == 6 {
        Some(PropertyTreeType::SignedInteger)
    } else if v == 7 {
        Some(PropertyTreeType::UnsignedInteger)
    } else {
        None
    }
}

/// The tag of a type.
pub open spec fn type_tag(t: PropertyTreeType) -> u8 {
    match t {
        PropertyTreeType::Null => 0,
        PropertyTreeType::Bool => 1,
        PropertyTreeType::Number => 2,
        PropertyTreeType::String => 3,
        PropertyTreeType::List => 4,
        PropertyTreeType::Dictionary => 5,
        PropertyTreeType::SignedInteger => 6,
        PropertyTreeType::UnsignedInteger => 7,
    }
}

impl PropertyTreeType {
    /// The type whose tag is `v`; `UnknownType(v)` where no type has it.
    pub fn from_u8(v: u8) -> (r: Result<PropertyTreeType, LoadError>)
        ensures
            (match spec_type_from_u8(v) {
                Some(t) => r == Ok::<PropertyTreeType, LoadError>(t),
                None => r == Err::<PropertyTreeType, LoadError>(LoadError::UnknownType(v)),
            }),
    {
        match v {
            0 => Ok(PropertyTreeType::Null),
            1 => Ok(PropertyTreeType::Bool),
            2 => Ok(PropertyTreeType::Number),
            3 => Ok(PropertyTreeType::String),
            4 => Ok(PropertyTreeType::List),
            5 => Ok(PropertyTreeType::Dictionary),
            6 => Ok(PropertyTreeType::SignedInteger),
            7 => Ok(PropertyTreeType::UnsignedInteger),
            _ => Err(LoadError::UnknownType(v)),
        }
    }

    /// The tag of this type.
    pub fn to_u8(self) -> (r: u8)
        ensures
            r == type_tag(self),
    {
        match self {
            PropertyTreeType::Null => 0,
            PropertyTreeType::Bool => 1,
            PropertyTreeType::Number => 2,
            PropertyTreeType::String => 3,
            PropertyTreeType::List => 4,
            PropertyTreeType::Dictionary => 5,
            PropertyTreeType::SignedInteger => 6,
            PropertyTreeType::UnsignedInteger => 7,
        }
    }
}

/// The value of a property tree.
#[derive(Debug, PartialEq)]
pub enum PropertyTreeValue {
    Null,
    Bool(bool),
    /// A double, held as its IEEE 754 bit pattern (`f64::to_bits`).
    Number(u64),
    String(ImmutableString),
    List(Vec<PropertyTree>),
    Dictionary(Vec<(ImmutableString, PropertyTree)>),
    SignedInteger(i64),
    UnsignedInteger(u64),
}

/// A property tree: a value and the format's `any_type` flag.
#[derive(Debug, PartialEq)]
pub struct PropertyTree {
    pub value: PropertyTreeValue,
    pub any_type: bool,
}

/// The mathematical value of a property tree's value.
pub enum SpecPropertyTreeValue {
    Null,
    Bool(bool),
    Number(u64),
    String(Option<Seq<u8>>),
    List(Seq<SpecPropertyTree>),
    Dictionary(Seq<(Option<Seq<u8>>, SpecPropertyTree)>),
    SignedInteger(i64),
    UnsignedInteger(u64),
}

/// The mathematical value of a property tree.
pub struct SpecPropertyTree {
    pub value: SpecPropertyTreeValue,
    pub any_type: bool,
}

/// The mathematical value of a tree.
pub open spec fn view_tree(t: PropertyTree) -> SpecPropertyTree
    decreases t,
{
    SpecPropertyTree {
        value: match t.value {
            PropertyTreeValue::Null => SpecPropertyTreeValue::Null,
            PropertyTreeValue::Bool(b) => SpecPropertyTreeValue::Bool(b),
            PropertyTreeValue::Number(n) => SpecPropertyTreeValue::Number(n),
            PropertyTreeValue::String(s) => SpecPropertyTreeValue::String(s@),
            PropertyTreeValue::List(items) => SpecPropertyTreeValue::List(view_list(items@)),
            PropertyTreeValue::Dictionary(items) => SpecPropertyTreeValue::Dictionary(
                view_dict(items@),
            ),
            PropertyTreeValue::SignedInteger(n) => SpecPropertyTreeValue::SignedInteger(n),
            PropertyTreeValue::UnsignedInteger(n) => SpecPropertyTreeValue::UnsignedInteger(n),
        },
        any_type: t.any_type,
    }
}

/// The mathematical values of the trees of a list, in order.
pub open spec fn view_list(items: Seq<PropertyTree>) -> Seq<SpecPropertyTree>
    decreases items,
{
    if items.len() == 0 {
        Seq::empty()
    } else {
        view_list(items.drop_last()).push(view_tree(items[items.len() - 1]))
    }
}

/// The mathematical values of the entries of a dictionary, in order.
pub open spec fn view_dict(items: Seq<(ImmutableString, PropertyTree)>) -> Seq<
    (Option<Seq<u8>>, SpecPropertyTree),
>
    decreases items,
{
    if items.len() == 0 {
        Seq::empty()
    } else {
        let last = items[items.len() - 1];
        view_dict(items.drop_last()).push((last.0@, view_tree(last.1)))
    }
}

/// The type of a tree's value.
pub open spec fn spec_value_type(v: SpecPropertyTreeValue) -> PropertyTreeType {
    match v {
        SpecPropertyTreeValue::Null => PropertyTreeType::Null,
        SpecPropertyTreeValue::Bool(_) => PropertyTreeType::Bool,
        SpecPropertyTreeValue::Number(_) => PropertyTreeType::Number,
        SpecPropertyTreeValue::String(_) => PropertyTreeType::String,
        SpecPropertyTreeValue::List(_) => PropertyTreeType::List,
        SpecPropertyTreeValue::Dictionary(_) => PropertyTreeType::Dictionary,
        SpecPropertyTreeValue::SignedInteger(_) => PropertyTreeType::SignedInteger,
        SpecPropertyTreeValue::UnsignedInteger(_) => PropertyTreeType::UnsignedInteger,
    }
}

/// A flag byte as the format reads it: anything but 0 is set.
pub open spec fn flag(b: u8) -> bool {
    b != 0
}

/// A flag as the format writes it.
pub open spec fn flag_byte(b: bool) -> u8 {
    if b {
        1
    } else {
        0
    }
}

/// Reads a property tree from the start of `s`: a type tag, an `any_type`
/// flag byte, then the value. A bool is one flag byte; a number, a signed and
/// an unsigned integer are eight little-endian bytes; a string is an
/// `ImmutableString`; a list and a dictionary are a little-endian `u32`
/// count and that many entries, each a key string and a tree (a list drops
/// the keys). Returns the tree and the number of bytes it took, or the first
/// error met.
pub open spec fn parse_tree(s: Seq<u8>) -> Result<(SpecPropertyTree, nat), LoadError>
    decreases s.len(), 0nat,
{
    if s.len() < 2 {
        Err(LoadError::UnexpectedEof)
    } else {
        let any_type = flag(s[1]);
        match spec_type_from_u8(s[0]) {
            None => Err(LoadError::UnknownType(s[0])),
            Some(ty) => match ty {
                PropertyTreeType::Null => Ok(
                    (SpecPropertyTree { value: SpecPropertyTreeValue::Null, any_type }, 2),
                ),
                PropertyTreeType::Bool => if s.len() < 3 {
                    Err(LoadError::UnexpectedEof)
                } else {
                    Ok(
                        (
                            SpecPropertyTree {
                                value: SpecPropertyTreeValue::Bool(flag(s[2])),
                                any_type,
                            },
                            3,
                        ),
                    )
                },
                PropertyTreeType::Number => if s.len() < 10 {
                    Err(LoadError::UnexpectedEof)
                } else {
                    Ok(
                        (
                            SpecPropertyTree {
                                value: SpecPropertyTreeValue::Number(u64_at(s, 2)),
                                any_type,
                            },
                            10,
                        ),
                    )
                },
                PropertyTreeType::String => match parse_immutable_string(s.skip(2)) {
                    Ok((v, k)) => Ok(
                        (
                            SpecPropertyTree { value: SpecPropertyTreeValue::String(v), any_type },
                            2 + k,
                        ),
                    ),
                    Err(e) => Err(e),
                },
                PropertyTreeType::List => if s.len() < 6 {
                    Err(LoadError::UnexpectedEof)
                } else {
                    match parse_entries(s.skip(6), u32_at(s, 2) as nat) {
                        Ok((es, k)) => Ok(
                            (
                                SpecPropertyTree {
                                    value: SpecPropertyTreeValue::List(entry_trees(es)),
                                    any_type,
                                },
                                6 + k,
                            ),
                        ),
                        Err(e) => Err(e),
                    }
                },
                PropertyTreeType::Dictionary => if s.len() < 6 {
                    Err(LoadError::UnexpectedEof)
                } else {
                    match parse_entries(s.skip(6), u32_at(s, 2) as nat) {
                        Ok((es, k)) => Ok(
                            (
                                SpecPropertyTree {
                                    value: SpecPropertyTreeValue::Dictionary(es),
                                    any_type,
                                },
                                6 + k,
                            ),
                        ),
                        Err(e) => Err(e),
                    }
                },
                PropertyTreeType::SignedInteger => if s.len() < 10 {
                    Err(LoadError::UnexpectedEof)
                } else {
                    Ok(
                        (
                            SpecPropertyTree {
                                value: SpecPropertyTreeValue::SignedInteger(i64_at(s, 2)),
                                any_type,
                            },
                            10,
                        ),
                    )
                },
                PropertyTreeType::UnsignedInteger => if s.len() < 10 {
                    Err(LoadError::UnexpectedEof)
                } else {
                    Ok(
                        (
                            SpecPropertyTree {
                                value: SpecPropertyTreeValue::UnsignedInteger(u64_at(s, 2)),
                                any_type,
                            },
                            10,
                        ),
                    )
                },
            },
        }
    }
}

/// The trees of a list of entries, keys dropped.
pub open spec fn entry_trees(es: Seq<(Option<Seq<u8>>, SpecPropertyTree)>) -> Seq<SpecPropertyTree> {
    es.map_values(|e: (Option<Seq<u8>>, SpecPropertyTree)| e.1)
}

/// Reads `n` entries (a key string, then a tree) one after another from the
/// start of `s`. Returns them and the number of bytes they took, or the first
/// error met.
pub open spec fn parse_entries(s: Seq<u8>, n: nat) -> Result<
    (Seq<(Option<Seq<u8>>, SpecPropertyTree)>, nat),
    LoadError,
>
    decreases s.len(), n,
{
    if n == 0 {
        Ok((Seq::empty(), 0))
    } else {
        match parse_entries(s, (n - 1) as nat) {
            Err(e) => Err(e),
            Ok((es, m)) => if m > s.len() {
                Err(LoadError::UnexpectedEof)
            } else {
                match parse_immutable_string(s.skip(m as int)) {
                    Err(e) => Err(e),
                    Ok((key, k)) => if m + k > s.len() {
                        Err(LoadError::UnexpectedEof)
                    } else {
                        match parse_tree(s.skip((m + k) as int)) {
                            Err(e) => Err(e),
                            Ok((t, j)) => Ok((es.push((key, t)), m + k + j)),
                        }
                    },
                }
            },
        }
    }
}

/// The bytes written for a tree: its type tag, its `any_type` flag, then its
/// value as `parse_tree` reads it. The key written before each list item is
/// the absent string; a count is the length cut to 32 bits.
pub open spec fn serialize_tree(t: SpecPropertyTree) -> Seq<u8>
    decreases t,
{
    seq![type_tag(spec_value_type(t.value)), flag_byte(t.any_type)] + match t.value {
        SpecPropertyTreeValue::Null => Seq::empty(),
        SpecPropertyTreeValue::Bool(b) => seq![flag_byte(b)],
        SpecPropertyTreeValue::Number(n) => u64_le(n),
        SpecPropertyTreeValue::String(v) => serialize_immutable_string(v),
        SpecPropertyTreeValue::List(items) => u32_le(items.len() as u32) + serialize_list(items),
        SpecPropertyTreeValue::Dictionary(es) => u32_le(es.len() as u32) + serialize_dict(es),
        SpecPropertyTreeValue::SignedInteger(n) => i64_le(n),
        SpecPropertyTreeValue::UnsignedInteger(n) => u64_le(n),
    }
}

/// The entries written for the items of a list, each keyed by the absent
/// string.
pub open spec fn serialize_list(items: Seq<SpecPropertyTree>) -> Seq<u8>
    decreases items,
{
    if items.len() == 0 {
        Seq::empty()
    } else {
        serialize_list(items.drop_last()) + serialize_immutable_string(None) + serialize_tree(
            items[items.len() - 1],
        )
    }
}

/// The entries written for the entries of a dictionary.
pub open spec fn serialize_dict(es: Seq<(Option<Seq<u8>>, SpecPropertyTree)>) -> Seq<u8>
    decreases es,
{
    if es.len() == 0 {
        Seq::empty()
    } else {
        let last = es[es.len() - 1];
        serialize_dict(es.drop_last()) + serialize_immutable_string(last.0) + serialize_tree(
            last.1,
        )
    }
}

/// A string whose length the format can write: at most `u32::MAX` bytes.
pub open spec fn string_fits(v: Option<Seq<u8>>) -> bool {
    v matches Some(b) ==> b.len() <= u32::MAX
}

/// Every string and every list and dictionary in the tree has a length
/// that the format can write (at most `u32::MAX`).
pub open spec fn tree_fits(t: SpecPropertyTree) -> bool
    decreases t,
{
    match t.value {
        SpecPropertyTreeValue::String(v) => string_fits(v),
        SpecPropertyTreeValue::List(items) => items.len() <= u32::MAX && list_fits(items),
        SpecPropertyTreeValue::Dictionary(es) => es.len() <= u32::MAX && dict_fits(es),
        _ => true,
    }
}

/// Every tree of the list fits.
pub open spec fn list_fits(items: Seq<SpecPropertyTree>) -> bool
    decreases items,
{
    if items.len() == 0 {
        true
    } else {
        list_fits(items.drop_last()) && tree_fits(items[items.len() - 1])
    }
}

/// Every key and every tree of the dictionary fits.
pub open spec fn dict_fits(es: Seq<(Option<Seq<u8>>, SpecPropertyTree)>) -> bool
    decreases es,
{
    if es.len() == 0 {
        true
    } else {
        let last = es[es.len() - 1];
        dict_fits(es.drop_last()) && string_fits(last.0) && tree_fits(last.1)
    }
}

impl View for PropertyTree {
    type V = SpecPropertyTree;

    open spec fn view(&self) -> SpecPropertyTree {
        view_tree(*self)
    }
}

/// A tree's encoding is at least two bytes long, and reading never takes more
/// bytes than there are; reading `n` entries gives `n` of them.
pub proof fn lemma_parse_tree_len(s: Seq<u8>)
    ensures
        parse_tree(s) matches Ok((_, n)) ==> 2 <= n <= s.len(),
    decreases s.len(), 0nat,
{
    if s.len() >= 6 {
        lemma_parse_entries_len(s.skip(6), u32_at(s, 2) as nat);
    }
}

/// Reading entries never takes more bytes than there are, and gives as many
/// entries as were asked for.
pub proof fn lemma_parse_entries_len(s: Seq<u8>, n: nat)
    ensures
        parse_entries(s, n) matches Ok((es, m)) ==> m <= s.len() && es.len() == n,
    decreases s.len(), n,
{
    if n > 0 {
        lemma_parse_entries_len(s, (n - 1) as nat);
        if let Ok((es, m)) = parse_entries(s, (n - 1) as nat) {
            if m <= s.len() {
                if let Ok((key, k)) = parse_immutable_string(s.skip(m as int)) {
                    if m + k <= s.len() {
                        lemma_parse_tree_len(s.skip((m + k) as int));
                    }
                }
            }
        }
    }
}

/// Once reading the first `n1` entries fails, reading more fails with the
/// same error.
pub proof fn lemma_parse_entries_err_persists(s: Seq<u8>, n1: nat, n2: nat)
    requires
        n1 <= n2,
        parse_entries(s, n1) is Err,
    ensures
        parse_entries(s, n2) == parse_entries(s, n1),
    decreases n2,
{
    if n2 > n1 {
        lemma_parse_entries_err_persists(s, n1, (n2 - 1) as nat);
    }
}

/// The view of a list has one tree per item, each the item's view.
pub proof fn lemma_view_list(items: Seq<PropertyTree>)
    ensures
        view_list(items).len() == items.len(),
        forall|i: int| 0 <= i < items.len() ==> #[trigger] view_list(items)[i] == view_tree(items[i]),
    decreases items.len(),
{
    if items.len() > 0 {
        lemma_view_list(items.drop_last());
    }
}

/// The view of a dictionary has one entry per item, each the item's view.
pub proof fn lemma_view_dict(items: Seq<(ImmutableString, PropertyTree)>)
    ensures
        view_dict(items).len() == items.len(),
        forall|i: int|
            0 <= i < items.len() ==> #[trigger] view_dict(items)[i] == (
                items[i].0@,
                view_tree(items[i].1),
            ),
    decreases items.len(),
{
    if items.len() > 0 {
        lemma_view_dict(items.drop_last());
    }
}

impl PropertyTree {
    /// The type of this tree's value.
    pub fn value_type(&self) -> (r: PropertyTreeType)
        ensures
            r == spec_value_type(self@.value),
    {
        match &self.value {
            PropertyTreeValue::Null => PropertyTreeType::Null,
            PropertyTreeValue::Bool(_) => PropertyTreeType::Bool,
            PropertyTreeValue::Number(_) => PropertyTreeType::Number,
            PropertyTreeValue::String(_) => PropertyTreeType::String,
            PropertyTreeValue::List(_) => PropertyTreeType::List,
            PropertyTreeValue::Dictionary(_) => PropertyTreeType::Dictionary,
            PropertyTreeValue::SignedInteger(_) => PropertyTreeType::SignedInteger,
            PropertyTreeValue::UnsignedInteger(_) => PropertyTreeType::UnsignedInteger,
        }
    }

    /// Reads a property tree from the start of `input`; returns it and the
    /// number of bytes it took.
    pub fn load(input: &[u8]) -> (r: Result<(PropertyTree, usize), LoadError>)
        ensures
            load_matches(r, parse_tree(input@)),
            r matches Ok((_, n)) ==> 2 <= n <= input@.len(),
        decreases input@.len(),
    {
        if input.len() < 2 {
            return Err(LoadError::UnexpectedEof);
        }
        let type_raw = input[0];
        let any_type = input[1] != 0;
        let value_type = match PropertyTreeType::from_u8(type_raw) {
            Ok(t) => t,
            Err(e) => {
                return Err(e);
            },
        };
        match value_type {
            PropertyTreeType::Null => Ok((PropertyTree { value: PropertyTreeValue::Null, any_type }, 2)),
            PropertyTreeType::Bool => {
                if input.len() < 3 {
                    return Err(LoadError::UnexpectedEof);
                }
                let v = input[2] != 0;
                Ok((PropertyTree { value: PropertyTreeValue::Bool(v), any_type }, 3))
            },
            PropertyTreeType::Number => {
                if input.len() < 10 {
                    return Err(LoadError::UnexpectedEof);
                }
                let v = read_u64_at(input, 2);
                Ok((PropertyTree { value: PropertyTreeValue::Number(v), any_type }, 10))
            },
            PropertyTreeType::String => {
                let rest = slice_subrange(input, 2, input.len());
                assert(rest@ =~= input@.skip(2));
                match ImmutableString::load(rest) {
                    Ok((v, k)) => Ok(
                        (PropertyTree { value: PropertyTreeValue::String(v), any_type }, 2 + k),
                    ),
                    Err(e) => Err(e),
                }
            },
            PropertyTreeType::SignedInteger => {
                if input.len() < 10 {
                    return Err(LoadError::UnexpectedEof);
                }
                let v = read_i64_at(input, 2);
                Ok((PropertyTree { value: PropertyTreeValue::SignedInteger(v), any_type }, 10))
            },
            PropertyTreeType::UnsignedInteger => {
                if input.len() < 10 {
                    return Err(LoadError::UnexpectedEof);
                }
                let v = read_u64_at(input, 2);
                Ok((PropertyTree { value: PropertyTreeValue::UnsignedInteger(v), any_type }, 10))
            },
            _ => {
                let is_list = match value_type {
                    PropertyTreeType::List => true,
                    _ => false,
                };
                if input.len() < 6 {
                    return Err(LoadError::UnexpectedEof);
                }
                let count = read_u32_at(input, 2);
                let ghost s = input@.skip(6);
                let ghost mut es: Seq<(Option<Seq<u8>>, SpecPropertyTree)> = Seq::empty();
                let mut list_items: Vec<PropertyTree> = Vec::new();
                let mut dict_items: Vec<(ImmutableString, PropertyTree)> = Vec::new();
                let mut pos: usize = 6;
                let mut i: u32 = 0;
                assert(view_list(list_items@) =~= entry_trees(es));
                while i < count
                    invariant
                        6 <= pos <= input@.len(),
                        i <= count,
                        spec_type_from_u8(input@[0]) == Some(value_type),
                        any_type == flag(input@[1]),
                        value_type == PropertyTreeType::List || value_type
                            == PropertyTreeType::Dictionary,
                        is_list == (value_type == PropertyTreeType::List),
                        s == input@.skip(6),
                        count == u32_at(input@, 2),
                        parse_entries(s, i as nat) == Ok::<_, LoadError>((es, (pos - 6) as nat)),
                        is_list ==> view_list(list_items@) == entry_trees(es),
                        !is_list ==> view_dict(dict_items@) == es,
                    decreases count - i,
                {
                    let rest = slice_subrange(input, pos, input.len());
                    assert(rest@ =~= s.skip(pos - 6));
                    let (key, k) = match ImmutableString::load(rest) {
                        Ok(kv) => kv,
                        Err(e) => {
                            proof {
                                assert(parse_entries(s, (i + 1) as nat) == Err::<
                                    (Seq<(Option<Seq<u8>>, SpecPropertyTree)>, nat),
                                    LoadError,
                                >(e));
                                lemma_parse_entries_err_persists(s, (i + 1) as nat, count as nat);
                            }
                            return Err(e);
                        },
                    };
                    let rest2 = slice_subrange(input, pos + k, input.len());
                    assert(rest2@ =~= s.skip(pos + k - 6));
                    let (t, j) = match PropertyTree::load(rest2) {
                        Ok(tj) => tj,
                        Err(e) => {
                            proof {
                                assert(parse_entries(s, (i + 1) as nat) == Err::<
                                    (Seq<(Option<Seq<u8>>, SpecPropertyTree)>, nat),
                                    LoadError,
                                >(e));
                                lemma_parse_entries_err_persists(s, (i + 1) as nat, count as nat);
                            }
                            return Err(e);
                        },
                    };
                    proof {
                        es = es.push((key@, t@));
                    }
                    if is_list {
                        let ghost old_items = list_items@;
                        list_items.push(t);
                        assert(list_items@.drop_last() =~= old_items);
                        assert(entry_trees(es) =~= entry_trees(es.drop_last()).push(t@));
                    } else {
                        let ghost old_items = dict_items@;
                        dict_items.push((key, t));
                        assert(dict_items@.drop_last() =~= old_items);
                    }
                    pos = pos + k + j;
                    i = i + 1;
                }
                let value = if is_list {
                    PropertyTreeValue::List(list_items)
                } else {
                    PropertyTreeValue::Dictionary(dict_items)
                };
                Ok((PropertyTree { value, any_type }, pos))
            },
        }
    }

    /// Appends the tree's bytes in the settings format to `out`.
    pub fn save(&self, out: &mut Vec<u8>)
        ensures
            final(out)@ == old(out)@ + serialize_tree(self@),
        decreases self, 1nat,
    {
        let tag = self.value_type().to_u8();
        out.push(tag);
        out.push(if self.any_type { 1 } else { 0 });
        match &self.value {
            PropertyTreeValue::Null => {},
            PropertyTreeValue::Bool(v) => {
                out.push(if *v { 1 } else { 0 });
            },
            PropertyTreeValue::Number(v) => {
                let b = u64_le_bytes(*v);
                append_bytes(out, b.as_slice());
            },
            PropertyTreeValue::String(v) => {
                v.save(out);
            },
            PropertyTreeValue::List(items) => {
                proof {
                    lemma_view_list(items@);
                }
                let b = u32_le_bytes(#[verifier::truncate] (items.len() as u32));
                append_bytes(out, b.as_slice());
                Self::save_list(items, out);
            },
            PropertyTreeValue::Dictionary(items) => {
                proof {
                    lemma_view_dict(items@);
                }
                let b = u32_le_bytes(#[verifier::truncate] (items.len() as u32));
                append_bytes(out, b.as_slice());
                Self::save_dict(items, out);
            },
            PropertyTreeValue::SignedInteger(v) => {
                let b = i64_le_bytes(*v);
                append_bytes(out, b.as_slice());
            },
            PropertyTreeValue::UnsignedInteger(v) => {
                let b = u64_le_bytes(*v);
                append_bytes(out, b.as_slice());
            },
        }
        assert(out@ =~= old(out)@ + serialize_tree(self@));
    }

    /// Appends the entries of a list, each keyed by the absent string.
    fn save_list(items: &Vec<PropertyTree>, out: &mut Vec<u8>)
        ensures
            final(out)@ == old(out)@ + serialize_list(view_list(items@)),
        decreases items, 0nat,
    {
        let ghost start = out@;
        let ghost vl = view_list(items@);
        proof {
            lemma_view_list(items@);
        }
        let mut i: usize = 0;
        assert(vl.take(0) =~= Seq::<SpecPropertyTree>::empty());
        assert(start =~= start + serialize_list(vl.take(0)));
        while i < items.len()
            invariant
                i <= items@.len(),
                vl == view_list(items@),
                vl.len() == items@.len(),
                forall|k: int| 0 <= k < items@.len() ==> #[trigger] vl[k] == view_tree(items@[k]),
                out@ == start + serialize_list(vl.take(i as int)),
            decreases items@.len() - i,
        {
            let none = ImmutableString(None);
            none.save(out);
            assert(decreases_to!(items => items@[i as int]));
            items[i].save(out);
            assert(vl.take(i + 1).drop_last() =~= vl.take(i as int));
            i = i + 1;
            assert(out@ =~= start + serialize_list(vl.take(i as int)));
        }
        assert(vl.take(i as int) =~= vl);
    }

    /// Appends the entries of a dictionary.
    fn save_dict(items: &Vec<(ImmutableString, PropertyTree)>, out: &mut Vec<u8>)
        ensures
            final(out)@ == old(out)@ + serialize_dict(view_dict(items@)),
        decreases items, 0nat,
    {
        let ghost start = out@;
        let ghost vd = view_dict(items@);
        proof {
            lemma_view_dict(items@);
        }
        let mut i: usize = 0;
        assert(vd.take(0) =~= Seq::<(Option<Seq<u8>>, SpecPropertyTree)>::empty());
        assert(start =~= start + serialize_dict(vd.take(0)));
        while i < items.len()
            invariant
                i <= items@.len(),
                vd == view_dict(items@),
                vd.len() == items@.len(),
                forall|k: int|
                    0 <= k < items@.len() ==> #[trigger] vd[k] == (
                        items@[k].0@,
                        view_tree(items@[k].1),
                    ),
                out@ == start + serialize_dict(vd.take(i as int)),
            decreases items@.len() - i,
        {
            let (key, item) = &items[i];
            key.save(out);
            assert(decreases_to!(items => items@[i as int].1));
            item.save(out);
            assert(vd.take(i + 1).drop_last() =~= vd.take(i as int));
            i = i + 1;
            assert(out@ =~= start + serialize_dict(vd.take(i as int)));
        }
        assert(vd.take(i as int) =~= vd);
    }
}

} // verus!
