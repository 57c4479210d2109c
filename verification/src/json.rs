//! Reading and building JSON.
//!
//! `serde_json` finds where a value ends, decodes strings and numbers, and holds finished
//! documents. This module walks objects and arrays on top of it, because a decoder of records
//! has to see a repeated key.
use vstd::prelude::*;
use vstd::slice::slice_subrange;

use crate::text;

verus! {

/// A JSON document.
#[verifier::ext_equal]
pub enum Json {
    Null,
    Bool(bool),
    /// A number from 0 to `u64::MAX`.
    Unsigned(u64),
    /// Any other number, in the form in which `serde_json` writes it.
    Number(Seq<char>),
    Text(Seq<char>),
    List(Seq<Json>),
    Object(Map<Seq<char>, Json>),
}

#[verifier::external_type_specification]
#[verifier::external_body]
pub struct ExValue(serde_json::Value);

/// The document that a `serde_json::Value` holds.
pub uninterp spec fn json_of(value: serde_json::Value) -> Json;

/// The documents that the values hold.
pub open spec fn jsons_of(values: Seq<serde_json::Value>) -> Seq<Json> {
    values.map_values(|v: serde_json::Value| json_of(v))
}

/// The document that an optional value holds.
pub open spec fn optional_json(value: Option<serde_json::Value>) -> Option<Json> {
    match value {
        Some(v) => Some(json_of(v)),
        None => None,
    }
}

/// The object with the given members.
pub open spec fn object_of(members: Seq<(String, serde_json::Value)>) -> Map<Seq<char>, Json>
    decreases members.len(),
{
    if members.len() == 0 {
        Map::empty()
    } else {
        object_of(members.drop_last()).insert(members.last().0@, json_of(members.last().1))
    }
}

/// Builds `serde_json::Value::Null`.
#[verifier::external_body]
pub(crate) fn null_value() -> (r: serde_json::Value)
    ensures
        json_of(r) == Json::Null,
{
    serde_json::Value::Null
}

/// Builds a `serde_json::Value::String`, which holds the text it is given.
#[verifier::external_body]
pub(crate) fn text_value(s: String) -> (r: serde_json::Value)
    ensures
        json_of(r) == Json::Text(s@),
{
    serde_json::Value::String(s)
}

/// Calls `serde_json::Value::from` on a `u64`, which gives a number of that value.
#[verifier::external_body]
pub(crate) fn number_value(n: u64) -> (r: serde_json::Value)
    ensures
        json_of(r) == Json::Unsigned(n),
{
    serde_json::Value::from(n)
}

/// Builds a `serde_json::Value::Array`, which holds the values it is given in their order.
#[verifier::external_body]
pub(crate) fn list_value(items: Vec<serde_json::Value>) -> (r: serde_json::Value)
    ensures
        json_of(r) == Json::List(jsons_of(items@)),
{
    serde_json::Value::Array(items)
}

/// Whether no two members have the same key.
pub open spec fn keys_differ(members: Seq<(String, serde_json::Value)>) -> bool {
    forall|i: int, j: int|
        0 <= i < j < members.len() ==> (#[trigger] members[i]).0@ != (#[trigger] members[j]).0@
}

/// Collects a `serde_json::Map` and builds a `serde_json::Value::Object` of it, which has
/// exactly the given members.
#[verifier::external_body]
pub(crate) fn object_value(members: Vec<(String, serde_json::Value)>) -> (r: serde_json::Value)
    requires
        keys_differ(members@),
    ensures
        json_of(r) == Json::Object(object_of(members@)),
{
    serde_json::Value::Object(members.into_iter().collect())
}

proof fn lemma_object_keys(members: Seq<(String, serde_json::Value)>, key: Seq<char>)
    ensures
        object_of(members).dom().contains(key) <==> exists|i: int|
            0 <= i < members.len() && (#[trigger] members[i]).0@ == key,
    decreases members.len(),
{
    if members.len() > 0 {
        let init = members.drop_last();
        lemma_object_keys(init, key);
        assert(forall|i: int| 0 <= i < init.len() ==> #[trigger] init[i] == members[i]);
        assert(members.last() == members[members.len() - 1]);
        if object_of(init).dom().contains(key) {
            let i = choose|i: int| 0 <= i < init.len() && (#[trigger] init[i]).0@ == key;
            assert(members[i].0@ == key);
        }
        if exists|i: int| 0 <= i < members.len() && (#[trigger] members[i]).0@ == key {
            let i = choose|i: int| 0 <= i < members.len() && (#[trigger] members[i]).0@ == key;
            if i < init.len() {
                assert(init[i].0@ == key);
            }
        }
    }
}

/// An object under construction.
pub struct ObjectBuilder {
    members: Vec<(String, serde_json::Value)>,
}

impl View for ObjectBuilder {
    type V = Map<Seq<char>, Json>;

    closed spec fn view(&self) -> Map<Seq<char>, Json> {
        object_of(self.members@)
    }
}

impl ObjectBuilder {
    pub closed spec fn wf(self) -> bool {
        keys_differ(self.members@)
    }

    pub fn new() -> (r: Self)
        ensures
            r.wf(),
            r@ == Map::<Seq<char>, Json>::empty(),
    {
        ObjectBuilder { members: Vec::new() }
    }

    /// Adds a member under a new key.
    pub fn put(&mut self, key: &str, value: serde_json::Value)
        requires
            old(self).wf(),
            !old(self)@.dom().contains(key@),
        ensures
            final(self).wf(),
            final(self)@ == old(self)@.insert(key@, json_of(value)),
    {
        let name = key.to_owned();
        proof {
            lemma_object_keys(self.members@, key@);
        }
        self.members.push((name, value));
        proof {
            assert(self.members@.drop_last() == old(self).members@);
        }
    }

    /// The finished object.
    pub fn build(self) -> (r: serde_json::Value)
        requires
            self.wf(),
        ensures
            json_of(r) == Json::Object(self@),
    {
        object_value(self.members)
    }
}

/// The document that `serde_json` reads from a text, if it is one.
pub uninterp spec fn parsed(s: Seq<char>) -> Option<Json>;

/// Calls `serde_json::from_str` for a `serde_json::Value`. What it returns depends on the text
/// alone.
#[verifier::external_body]
pub(crate) fn parse_value(s: &str) -> (r: Option<serde_json::Value>)
    ensures
        optional_json(r) == parsed(s@),
{
    serde_json::from_str::<serde_json::Value>(s).ok()
}

/// The number of bytes up to the end of the JSON value at the start of `s`, leading white space
/// counted, if `serde_json` finds one there.
pub uninterp spec fn value_len(s: Seq<u8>) -> Option<nat>;

/// Reads one `serde::de::IgnoredAny` from a `serde_json::StreamDeserializer` over `s` and asks
/// its `byte_offset`. A value takes at least one byte and ends within `s`.
#[verifier::external_body]
pub(crate) fn scan_value(s: &[u8]) -> (r: Option<usize>)
    ensures
        match r {
            Some(n) => value_len(s@) == Some(n as nat) && 0 < n <= s@.len(),
            None => value_len(s@) is None,
        },
{
    let mut values = serde_json::Deserializer::from_slice(s).into_iter::<serde::de::IgnoredAny>();
    match values.next() {
        Some(Ok(_)) => Some(values.byte_offset()),
        _ => None,
    }
}

/// What `serde_json` reads from `s` as an optional string: nothing if `s` is neither a string
/// nor `null`.
pub uninterp spec fn string_or_null(s: Seq<u8>) -> Option<Option<Seq<char>>>;

/// The texts inside a string or `null` that was read.
pub open spec fn text_or_null(r: Option<Option<String>>) -> Option<Option<Seq<char>>> {
    match r {
        Some(t) => Some(text::optional_text(t)),
        None => None,
    }
}

/// Calls `serde_json::from_slice` for an `Option<String>`. What it returns depends on the bytes
/// alone.
#[verifier::external_body]
pub(crate) fn parse_string(s: &[u8]) -> (r: Option<Option<String>>)
    ensures
        text_or_null(r) == string_or_null(s@),
{
    serde_json::from_slice::<Option<String>>(s).ok()
}

/// What `serde_json` reads from `s` as an optional `u64`: nothing if `s` is neither a number in
/// that range nor `null`.
pub uninterp spec fn u64_or_null(s: Seq<u8>) -> Option<Option<u64>>;

/// Calls `serde_json::from_slice` for an `Option<u64>`. What it returns depends on the bytes
/// alone.
#[verifier::external_body]
pub(crate) fn parse_u64(s: &[u8]) -> (r: Option<Option<u64>>)
    ensures
        r == u64_or_null(s@),
{
    serde_json::from_slice::<Option<u64>>(s).ok()
}

pub open spec fn is_space(c: u8) -> bool {
    c == 32 || c == 10 || c == 9 || c == 13
}

/// The first position from `i` on that holds no white space.
pub open spec fn skip_space(s: Seq<u8>, i: int) -> int
    decreases s.len() - i,
{
    if 0 <= i < s.len() && is_space(s[i]) {
        skip_space(s, i + 1)
    } else {
        i
    }
}

/// Where the value that starts at `i` ends.
pub open spec fn value_end(s: Seq<u8>, i: int) -> Option<int> {
    match value_len(s.skip(i)) {
        Some(n) => if 0 < n && i + n <= s.len() {
            Some(i + n)
        } else {
            None
        },
        None => None,
    }
}

/// The byte at `i`, if there is one.
pub open spec fn byte_at(s: Seq<u8>, i: int) -> Option<u8> {
    if 0 <= i < s.len() {
        Some(s[i])
    } else {
        None
    }
}

/// Skipping white space goes forward, stays within `s` and stops at no white space.
pub proof fn lemma_skip_space(s: Seq<u8>, i: int)
    ensures
        i <= skip_space(s, i),
        i <= s.len() ==> skip_space(s, i) <= s.len(),
        byte_at(s, skip_space(s, i)) matches Some(c) ==> 0 <= i ==> !is_space(c),
    decreases s.len() - i,
{
    if 0 <= i < s.len() && is_space(s[i]) {
        lemma_skip_space(s, i + 1);
    }
}

/// The elements of an array from the one at `i` on, where the array ends with `s`.
pub open spec fn elements_from(s: Seq<u8>, i: int) -> Option<Seq<Seq<u8>>>
    decreases s.len() - i,
{
    match value_end(s, i) {
        None => None,
        Some(end) => {
            let stop = skip_space(s, end);
            let item = s.subrange(i, end);
            if byte_at(s, stop) == Some(93u8) && stop + 1 == s.len() {
                Some(seq![item])
            } else if byte_at(s, stop) == Some(44u8) {
                proof {
                    lemma_skip_space(s, end);
                    lemma_skip_space(s, stop + 1);
                }
                match elements_from(s, skip_space(s, stop + 1)) {
                    Some(rest) => Some(seq![item] + rest),
                    None => None,
                }
            } else {
                None
            }
        },
    }
}

/// The elements of the array `s`, each as it is written, if `s` is an array.
pub open spec fn elements(s: Seq<u8>) -> Option<Seq<Seq<u8>>> {
    let first = skip_space(s, 1);
    if byte_at(s, 0) != Some(91u8) {
        None
    } else if byte_at(s, first) == Some(93u8) {
        if first + 1 == s.len() {
            Some(Seq::empty())
        } else {
            None
        }
    } else {
        elements_from(s, first)
    }
}

/// The member that starts at `i`: its key, its value as it is written, and where it ends.
pub open spec fn member_at(s: Seq<u8>, i: int) -> Option<(Seq<char>, Seq<u8>, int)> {
    match value_end(s, i) {
        Some(key_end) => {
            let colon = skip_space(s, key_end);
            let start = skip_space(s, colon + 1);
            if byte_at(s, i) == Some(34u8) && byte_at(s, colon) == Some(58u8) {
                match (string_or_null(s.subrange(i, key_end)), value_end(s, start)) {
                    (Some(Some(key)), Some(end)) => Some((key, s.subrange(start, end), end)),
                    _ => None,
                }
            } else {
                None
            }
        },
        None => None,
    }
}

/// A member ends behind its start and within `s`.
pub proof fn lemma_member_at(s: Seq<u8>, i: int)
    ensures
        member_at(s, i) matches Some(m) ==> i < m.2 <= s.len(),
{
    if let Some(m) = member_at(s, i) {
        let key_end = value_end(s, i).unwrap();
        lemma_skip_space(s, key_end);
        lemma_skip_space(s, skip_space(s, key_end) + 1);
    }
}

/// The members of an object from the one at `i` on, where the object ends with `s`.
pub open spec fn members_from(s: Seq<u8>, i: int) -> Option<Seq<(Seq<char>, Seq<u8>)>>
    decreases s.len() - i,
{
    match member_at(s, i) {
        None => None,
        Some((key, value, end)) => {
            let stop = skip_space(s, end);
            if byte_at(s, stop) == Some(125u8) && stop + 1 == s.len() {
                Some(seq![(key, value)])
            } else if byte_at(s, stop) == Some(44u8) {
                proof {
                    lemma_member_at(s, i);
                    lemma_skip_space(s, end);
                    lemma_skip_space(s, stop + 1);
                }
                match members_from(s, skip_space(s, stop + 1)) {
                    Some(rest) => Some(seq![(key, value)] + rest),
                    None => None,
                }
            } else {
                None
            }
        },
    }
}

/// The members of the object `s` in their order, each value as it is written, if `s` is an
/// object.
pub open spec fn members(s: Seq<u8>) -> Option<Seq<(Seq<char>, Seq<u8>)>> {
    let first = skip_space(s, 1);
    if byte_at(s, 0) != Some(123u8) {
        None
    } else if byte_at(s, first) == Some(125u8) {
        if first + 1 == s.len() {
            Some(Seq::empty())
        } else {
            None
        }
    } else {
        members_from(s, first)
    }
}

/// The value of the member with the key `name`.
pub open spec fn member_value(ms: Seq<(Seq<char>, Seq<u8>)>, name: Seq<char>) -> Option<Seq<u8>>
    decreases ms.len(),
{
    if ms.len() == 0 {
        None
    } else if ms.last().0 == name {
        Some(ms.last().1)
    } else {
        member_value(ms.drop_last(), name)
    }
}

/// No key among `names` occurs in two members.
pub open spec fn named_once(ms: Seq<(Seq<char>, Seq<u8>)>, names: Seq<Seq<char>>) -> bool {
    forall|a: int, b: int|
        0 <= a < b < ms.len() && (#[trigger] ms[a]).0 == (#[trigger] ms[b]).0 ==> !names.contains(
            ms[a].0,
        )
}

/// The values of a record's fields, in the order of `names`, absent fields as `None`.
///
/// A record is an object, in which other keys are ignored and none of `names` may be repeated,
/// or an array of at most as many elements as there are fields.
pub open spec fn record(s: Seq<u8>, names: Seq<Seq<char>>) -> Option<Seq<Option<Seq<u8>>>> {
    match (members(s), elements(s)) {
        (Some(ms), _) => if named_once(ms, names) {
            Some(names.map_values(|name: Seq<char>| member_value(ms, name)))
        } else {
            None
        },
        (None, Some(es)) => if es.len() <= names.len() {
            Some(
                Seq::new(
                    names.len(),
                    |k: int|
                        if k < es.len() {
                            Some(es[k])
                        } else {
                            None
                        },
                ),
            )
        } else {
            None
        },
        (None, None) => None,
    }
}

/// The bytes of each slice.
pub open spec fn slices_of(v: Seq<&[u8]>) -> Seq<Seq<u8>> {
    v.map_values(|x: &[u8]| x@)
}

/// The texts of the names.
pub open spec fn names_of(v: Seq<&str>) -> Seq<Seq<char>> {
    v.map_values(|x: &str| x@)
}

/// The bytes of an optional slice.
pub open spec fn optional_slice(v: Option<&[u8]>) -> Option<Seq<u8>> {
    match v {
        Some(x) => Some(x@),
        None => None,
    }
}

/// The bytes of each optional slice.
pub open spec fn fields_of(v: Seq<Option<&[u8]>>) -> Seq<Option<Seq<u8>>> {
    v.map_values(|x: Option<&[u8]>| optional_slice(x))
}

/// The keys and values of the members.
pub open spec fn members_of(v: Seq<(String, &[u8])>) -> Seq<(Seq<char>, Seq<u8>)> {
    v.map_values(|m: (String, &[u8])| (m.0@, m.1@))
}

fn after_space(s: &[u8], from: usize) -> (r: usize)
    requires
        from <= s@.len(),
    ensures
        r == skip_space(s@, from as int),
        from <= r <= s@.len(),
{
    let mut i: usize = from;
    while i < s.len() && (s[i] == 32 || s[i] == 10 || s[i] == 9 || s[i] == 13)
        invariant
            from <= i <= s@.len(),
            skip_space(s@, from as int) == skip_space(s@, i as int),
        decreases s@.len() - i,
    {
        i = i + 1;
    }
    i
}

fn end_of_value(s: &[u8], from: usize) -> (r: Option<usize>)
    requires
        from <= s@.len(),
    ensures
        match r {
            Some(end) => value_end(s@, from as int) == Some(end as int) && from < end <= s@.len(),
            None => value_end(s@, from as int) is None,
        },
{
    let rest = slice_subrange(s, from, s.len());
    proof {
        assert(rest@ == s@.skip(from as int));
    }
    match scan_value(rest) {
        Some(n) => Some(from + n),
        None => None,
    }
}

/// The elements of an array.
pub fn array_elements(s: &[u8]) -> (r: Option<Vec<&[u8]>>)
    ensures
        match r {
            Some(v) => elements(s@) == Some(slices_of(v@)),
            None => elements(s@) is None,
        },
{
    if s.len() == 0 || s[0] != 91 {
        return None;
    }
    let mut items: Vec<&[u8]> = Vec::new();
    let mut i = after_space(s, 1);
    if i < s.len() && s[i] == 93 {
        if i + 1 == s.len() {
            proof {
                assert(slices_of(items@) == Seq::<Seq<u8>>::empty());
            }
            return Some(items);
        }
        return None;
    }
    proof {
        if let Some(rest) = elements_from(s@, i as int) {
            assert(slices_of(items@) + rest == rest);
        }
    }
    loop
        invariant
            i <= s@.len(),
            match elements_from(s@, i as int) {
                Some(rest) => elements(s@) == Some(slices_of(items@) + rest),
                None => elements(s@) is None,
            },
        decreases s@.len() - i,
    {
        let end = match end_of_value(s, i) {
            Some(end) => end,
            None => return None,
        };
        let item = slice_subrange(s, i, end);
        let stop = after_space(s, end);
        let ghost before = items@;
        items.push(item);
        proof {
            assert(slices_of(items@) == slices_of(before).push(item@));
            assert(slices_of(before) + seq![item@] == slices_of(items@));
        }
        if stop >= s.len() {
            return None;
        }
        if s[stop] == 93 {
            if stop + 1 == s.len() {
                return Some(items);
            }
            return None;
        }
        if s[stop] != 44 {
            return None;
        }
        let next = after_space(s, stop + 1);
        proof {
            if let Some(rest) = elements_from(s@, next as int) {
                assert(slices_of(before) + (seq![item@] + rest) == slices_of(items@) + rest);
            }
        }
        i = next;
    }
}

/// The members of an object.
pub fn object_members(s: &[u8]) -> (r: Option<Vec<(String, &[u8])>>)
    ensures
        match r {
            Some(v) => members(s@) == Some(members_of(v@)),
            None => members(s@) is None,
        },
{
    if s.len() == 0 || s[0] != 123 {
        return None;
    }
    let mut found: Vec<(String, &[u8])> = Vec::new();
    let mut i = after_space(s, 1);
    if i < s.len() && s[i] == 125 {
        if i + 1 == s.len() {
            proof {
                assert(members_of(found@) == Seq::<(Seq<char>, Seq<u8>)>::empty());
            }
            return Some(found);
        }
        return None;
    }
    proof {
        if let Some(rest) = members_from(s@, i as int) {
            assert(members_of(found@) + rest == rest);
        }
    }
    loop
        invariant
            i <= s@.len(),
            match members_from(s@, i as int) {
                Some(rest) => members(s@) == Some(members_of(found@) + rest),
                None => members(s@) is None,
            },
        decreases s@.len() - i,
    {
        let (key, value, end) = match read_member(s, i) {
            Some(m) => m,
            None => return None,
        };
        let stop = after_space(s, end);
        let ghost before = found@;
        let ghost member = (key@, value@);
        found.push((key, value));
        proof {
            assert(members_of(found@) == members_of(before).push(member));
            assert(members_of(before) + seq![member] == members_of(found@));
        }
        if stop >= s.len() {
            return None;
        }
        if s[stop] == 125 {
            if stop + 1 == s.len() {
                return Some(found);
            }
            return None;
        }
        if s[stop] != 44 {
            return None;
        }
        let next = after_space(s, stop + 1);
        proof {
            if let Some(rest) = members_from(s@, next as int) {
                assert(members_of(before) + (seq![member] + rest) == members_of(found@) + rest);
            }
        }
        i = next;
    }
}

fn read_member(s: &[u8], i: usize) -> (r: Option<(String, &[u8], usize)>)
    requires
        i <= s@.len(),
    ensures
        match r {
            Some((key, value, end)) => member_at(s@, i as int) == Some((key@, value@, end as int))
                && i < end <= s@.len(),
            None => member_at(s@, i as int) is None,
        },
{
    if i >= s.len() || s[i] != 34 {
        return None;
    }
    let key_end = match end_of_value(s, i) {
        Some(end) => end,
        None => return None,
    };
    let colon = after_space(s, key_end);
    if colon >= s.len() || s[colon] != 58 {
        return None;
    }
    let start = after_space(s, colon + 1);
    let end = match end_of_value(s, start) {
        Some(end) => end,
        None => return None,
    };
    match parse_string(slice_subrange(s, i, key_end)) {
        Some(Some(key)) => Some((key, slice_subrange(s, start, end), end)),
        _ => None,
    }
}

proof fn lemma_member_value_found(ms: Seq<(Seq<char>, Seq<u8>)>, name: Seq<char>)
    ensures
        member_value(ms, name) is Some <==> exists|a: int|
            0 <= a < ms.len() && (#[trigger] ms[a]).0 == name,
    decreases ms.len(),
{
    if ms.len() > 0 {
        lemma_member_value_found(ms.drop_last(), name);
        assert(forall|a: int| 0 <= a < ms.len() - 1 ==> ms.drop_last()[a] == ms[a]);
        if ms.last().0 == name {
            assert(ms[ms.len() - 1].0 == name);
        }
    }
}

/// The values of the fields `names` among the members of an object.
pub fn object_fields<'a>(found: &Vec<(String, &'a [u8])>, names: &[&str]) -> (r: Option<
    Vec<Option<&'a [u8]>>,
>)
    ensures
        match r {
            Some(v) => named_once(members_of(found@), names_of(names@)) && fields_of(v@)
                == names_of(names@).map_values(
                |name: Seq<char>| member_value(members_of(found@), name),
            ) && v@.len() == names@.len(),
            None => !named_once(members_of(found@), names_of(names@)),
        },
{
    let ghost ms = members_of(found@);
    let ghost keys = names_of(names@);
    let mut fields: Vec<Option<&'a [u8]>> = Vec::new();
    let mut k: usize = 0;
    while k < names.len()
        invariant
            k <= names@.len(),
            fields@.len() == k,
            forall|q: int| 0 <= q < k ==> #[trigger] fields@[q] is None,
        decreases names@.len() - k,
    {
        fields.push(None);
        k = k + 1;
    }
    let mut j: usize = 0;
    while j < found.len()
        invariant
            ms == members_of(found@),
            keys == names_of(names@),
            j <= found@.len(),
            fields@.len() == names@.len(),
            named_once(ms.take(j as int), keys),
            forall|q: int|
                0 <= q < fields@.len() ==> optional_slice(#[trigger] fields@[q]) == member_value(
                    ms.take(j as int),
                    keys[q],
                ),
        decreases found@.len() - j,
    {
        let key = &found[j].0;
        let value = found[j].1;
        let ghost seen = ms.take(j as int);
        let ghost grown = ms.take(j + 1);
        proof {
            assert(ms[j as int] == (key@, value@));
            assert(grown.drop_last() == seen);
            assert(grown.last() == ms[j as int]);
        }
        let mut k: usize = 0;
        while k < names.len()
            invariant
                ms == members_of(found@),
                keys == names_of(names@),
                j < found@.len(),
                k <= names@.len(),
                fields@.len() == names@.len(),
                seen == ms.take(j as int),
                grown == ms.take(j + 1),
                grown.drop_last() == seen,
                grown.last() == (key@, value@),
                grown.len() > 0,
                named_once(seen, keys),
                forall|q: int|
                    0 <= q < k ==> optional_slice(#[trigger] fields@[q]) == member_value(
                        grown,
                        keys[q],
                    ),
                forall|q: int|
                    0 <= q < k && #[trigger] keys[q] == key@ ==> member_value(seen, keys[q]) is None,
                forall|q: int|
                    k <= q < fields@.len() ==> optional_slice(#[trigger] fields@[q])
                        == member_value(seen, keys[q]),
            decreases names@.len() - k,
        {
            if text::same_text(key.as_str(), names[k]) {
                proof {
                    assert(keys[k as int] == key@);
                    assert(optional_slice(fields@[k as int]) == member_value(seen, key@));
                }
                if fields[k].is_some() {
                    proof {
                        lemma_member_value_found(seen, key@);
                        let a = choose|a: int| 0 <= a < seen.len() && (#[trigger] seen[a]).0 == key@;
                        assert(ms[a].0 == ms[j as int].0);
                        assert(keys.contains(ms[a].0));
                    }
                    return None;
                }
                fields.set(k, Some(value));
            }
            k = k + 1;
        }
        proof {
            assert forall|a: int, b: int|
                0 <= a < b < grown.len() && (#[trigger] grown[a]).0 == (
                #[trigger] grown[b]).0 implies !keys.contains(grown[a].0) by {
                if b < seen.len() {
                    assert(seen[a] == grown[a]);
                    assert(seen[b] == grown[b]);
                } else {
                    assert(seen[a] == grown[a]);
                    assert(grown[b].0 == key@);
                    lemma_member_value_found(seen, key@);
                    if keys.contains(key@) {
                        let q = choose|q: int| 0 <= q < keys.len() && keys[q] == key@;
                        assert(member_value(seen, keys[q]) is None);
                    }
                }
            }
        }
        j = j + 1;
    }
    proof {
        assert(ms.take(j as int) == ms);
        assert(fields_of(fields@) =~= keys.map_values(|name: Seq<char>| member_value(ms, name)));
    }
    Some(fields)
}

/// The fields of a record.
pub fn record_fields<'a>(s: &'a [u8], names: &[&str]) -> (r: Option<Vec<Option<&'a [u8]>>>)
    ensures
        match r {
            Some(v) => record(s@, names_of(names@)) == Some(fields_of(v@)) && v@.len()
                == names@.len(),
            None => record(s@, names_of(names@)) is None,
        },
{
    if let Some(found) = object_members(s) {
        return object_fields(&found, names);
    }
    let items = match array_elements(s) {
        Some(items) => items,
        None => return None,
    };
    if items.len() > names.len() {
        return None;
    }
    let mut fields: Vec<Option<&'a [u8]>> = Vec::new();
    let mut k: usize = 0;
    while k < names.len()
        invariant
            k <= names@.len(),
            items@.len() <= names@.len(),
            fields@.len() == k,
            forall|q: int|
                0 <= q < k ==> optional_slice(#[trigger] fields@[q]) == (if q < items@.len() {
                    Some(slices_of(items@)[q])
                } else {
                    None
                }),
        decreases names@.len() - k,
    {
        if k < items.len() {
            fields.push(Some(items[k]));
        } else {
            fields.push(None);
        }
        k = k + 1;
    }
    proof {
        assert(fields_of(fields@) =~= record(s@, names_of(names@)).unwrap());
    }
    Some(fields)
}

} // verus!
