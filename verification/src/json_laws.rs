//! Which texts are arrays, objects and records, and what they hold.
use vstd::prelude::*;

use crate::json;

verus! {

/// Whether `s` holds nothing but white space from `a` to `b`.
pub open spec fn blank(s: Seq<u8>, a: int, b: int) -> bool {
    &&& 0 <= a <= b <= s.len()
    &&& forall|i: int|
        a <= i < b ==> (#[trigger] s[i] == 32 || s[i] == 9 || s[i] == 10 || s[i] == 13)
}

/// Whether a JSON value stands from `a` to `b`.
pub open spec fn value_at(s: Seq<u8>, a: int, b: int) -> bool {
    &&& 0 <= a < b <= s.len()
    &&& s[a] != 32 && s[a] != 9 && s[a] != 10 && s[a] != 13
    &&& json::value_len(s.skip(a)) == Some((b - a) as nat)
}

/// Where an element of an array starts and ends, and where the comma or bracket behind it is.
pub struct Element {
    pub start: int,
    pub end: int,
    pub sep: int,
}

/// Whether the `i`-th of the elements stands in `s`, with a comma behind it, or with the bracket
/// that ends `s` behind the last one.
pub open spec fn element_stands(s: Seq<u8>, all: Seq<Element>, i: int) -> bool {
    let e = all[i];
    &&& value_at(s, e.start, e.end)
    &&& blank(s, e.end, e.sep)
    &&& e.sep < s.len()
    &&& if i == all.len() - 1 {
        s[e.sep] == 93 && e.sep == s.len() - 1
    } else {
        s[e.sep] == 44 && blank(s, e.sep + 1, all[i + 1].start)
    }
}

pub open spec fn elements_stand(s: Seq<u8>, all: Seq<Element>) -> bool {
    forall|i: int| 0 <= i < all.len() ==> #[trigger] element_stands(s, all, i)
}

/// Whether `s` is an array of the given elements: `[`, the elements with commas between them, and
/// `]` at the end, with white space around each.
pub open spec fn is_array(s: Seq<u8>, all: Seq<Element>) -> bool {
    &&& s.len() >= 2
    &&& s[0] == 91
    &&& if all.len() == 0 {
        blank(s, 1, s.len() - 1) && s[s.len() - 1] == 93
    } else {
        blank(s, 1, all[0].start) && s[all[0].start] != 93 && elements_stand(s, all)
    }
}

/// The elements as they are written.
pub open spec fn written_elements(s: Seq<u8>, all: Seq<Element>) -> Seq<Seq<u8>> {
    all.map_values(|e: Element| s.subrange(e.start, e.end))
}

/// Where a key of an object starts and ends, where the colon is, where its value starts and ends,
/// and where the comma or brace behind it is.
pub struct Member {
    pub key: int,
    pub key_end: int,
    pub colon: int,
    pub start: int,
    pub end: int,
    pub sep: int,
    pub name: Seq<char>,
}

/// Whether a member stands in `s`, apart from what is behind it.
pub open spec fn key_and_value_stand(s: Seq<u8>, m: Member) -> bool {
    &&& value_at(s, m.key, m.key_end)
    &&& s[m.key] == 34
    &&& json::string_or_null(s.subrange(m.key, m.key_end)) == Some(Some(m.name))
    &&& blank(s, m.key_end, m.colon)
    &&& m.colon < s.len()
    &&& s[m.colon] == 58
    &&& blank(s, m.colon + 1, m.start)
    &&& value_at(s, m.start, m.end)
    &&& blank(s, m.end, m.sep)
    &&& m.sep < s.len()
}

/// Whether the `i`-th of the members stands in `s`, with a comma behind it, or with the brace that
/// ends `s` behind the last one.
pub open spec fn member_stands(s: Seq<u8>, all: Seq<Member>, i: int) -> bool {
    let m = all[i];
    &&& key_and_value_stand(s, m)
    &&& if i == all.len() - 1 {
        s[m.sep] == 125 && m.sep == s.len() - 1
    } else {
        s[m.sep] == 44 && blank(s, m.sep + 1, all[i + 1].key)
    }
}

pub open spec fn members_stand(s: Seq<u8>, all: Seq<Member>) -> bool {
    forall|i: int| 0 <= i < all.len() ==> #[trigger] member_stands(s, all, i)
}

/// Whether `s` is an object of the given members: `{`, the members with commas between them, and
/// `}` at the end, with white space around each key and value.
pub open spec fn is_object(s: Seq<u8>, all: Seq<Member>) -> bool {
    &&& s.len() >= 2
    &&& s[0] == 123
    &&& if all.len() == 0 {
        blank(s, 1, s.len() - 1) && s[s.len() - 1] == 125
    } else {
        blank(s, 1, all[0].key) && members_stand(s, all)
    }
}

/// The names of the members and their values as they are written.
pub open spec fn written_members(s: Seq<u8>, all: Seq<Member>) -> Seq<(Seq<char>, Seq<u8>)> {
    all.map_values(|m: Member| (m.name, s.subrange(m.start, m.end)))
}

proof fn lemma_blank(s: Seq<u8>, a: int, b: int)
    requires
        blank(s, a, b),
        b < s.len() ==> s[b] != 32 && s[b] != 9 && s[b] != 10 && s[b] != 13,
    ensures
        json::skip_space(s, a) == b,
    decreases b - a,
{
    if a < b {
        assert(json::is_space(s[a]));
        assert forall|i: int| a + 1 <= i < b implies (#[trigger] s[i] == 32 || s[i] == 9 || s[i]
            == 10 || s[i] == 13) by {
            assert(a <= i < b);
        }
        lemma_blank(s, a + 1, b);
    }
}

proof fn lemma_skips_blank(s: Seq<u8>, a: int)
    requires
        0 <= a <= s.len(),
    ensures
        blank(s, a, json::skip_space(s, a)),
        json::skip_space(s, a) < s.len() ==> {
            let c = s[json::skip_space(s, a)];
            c != 32 && c != 9 && c != 10 && c != 13
        },
    decreases s.len() - a,
{
    if a < s.len() && json::is_space(s[a]) {
        lemma_skips_blank(s, a + 1);
        let b = json::skip_space(s, a + 1);
        assert forall|i: int| a <= i < b implies (#[trigger] s[i] == 32 || s[i] == 9 || s[i] == 10
            || s[i] == 13) by {
            if i > a {
                assert(a + 1 <= i < b);
            }
        }
    }
}

proof fn lemma_elements_stand(s: Seq<u8>, all: Seq<Element>, k: int)
    requires
        0 <= k < all.len(),
        elements_stand(s, all),
    ensures
        json::elements_from(s, all[k].start) == Some(written_elements(s, all).skip(k)),
    decreases all.len() - k,
{
    let e = all[k];
    let items = written_elements(s, all);
    assert(element_stands(s, all, k));
    assert(json::value_end(s, e.start) == Some(e.end));
    lemma_blank(s, e.end, e.sep);
    let item = s.subrange(e.start, e.end);
    assert(items[k] == item);
    if k == all.len() - 1 {
        assert(items.skip(k) == seq![item]);
    } else {
        let next = all[k + 1];
        assert(element_stands(s, all, k + 1));
        lemma_blank(s, e.sep + 1, next.start);
        lemma_elements_stand(s, all, k + 1);
        assert(items.skip(k) == seq![item] + items.skip(k + 1));
    }
}

/// An array has exactly the elements that stand in it, each as it is written.
pub proof fn law_arrays_hold_their_elements(s: Seq<u8>, all: Seq<Element>)
    requires
        is_array(s, all),
    ensures
        json::elements(s) == Some(written_elements(s, all)),
{
    if all.len() == 0 {
        lemma_blank(s, 1, s.len() - 1);
        assert(written_elements(s, all) == Seq::<Seq<u8>>::empty());
    } else {
        assert(element_stands(s, all, 0));
        lemma_blank(s, 1, all[0].start);
        lemma_elements_stand(s, all, 0);
        assert(written_elements(s, all).skip(0) == written_elements(s, all));
    }
}

proof fn lemma_elements_found(s: Seq<u8>, i: int) -> (all: Seq<Element>)
    requires
        0 <= i <= s.len(),
        i < s.len() ==> s[i] != 32 && s[i] != 9 && s[i] != 10 && s[i] != 13,
        json::elements_from(s, i) is Some,
    ensures
        all.len() > 0,
        all[0].start == i,
        elements_stand(s, all),
    decreases s.len() - i,
{
    let end = json::value_end(s, i).unwrap();
    let sep = json::skip_space(s, end);
    lemma_skips_blank(s, end);
    json::lemma_skip_space(s, end);
    let e = Element { start: i, end, sep };
    assert(value_at(s, i, end));
    if s[sep] == 93 && sep + 1 == s.len() {
        assert(element_stands(s, seq![e], 0));
        seq![e]
    } else {
        let next = json::skip_space(s, sep + 1);
        lemma_skips_blank(s, sep + 1);
        json::lemma_skip_space(s, sep + 1);
        let rest = lemma_elements_found(s, next);
        let all = seq![e] + rest;
        assert forall|k: int| 0 <= k < all.len() implies #[trigger] element_stands(s, all, k) by {
            if k > 0 {
                assert(element_stands(s, rest, k - 1));
                assert(all[k] == rest[k - 1]);
                if k < all.len() - 1 {
                    assert(all[k + 1] == rest[k]);
                }
            } else {
                assert(all[1] == rest[0]);
            }
        }
        all
    }
}

/// What is read as an array is one.
pub proof fn law_only_arrays_have_elements(s: Seq<u8>)
    requires
        json::elements(s) is Some,
    ensures
        exists|all: Seq<Element>| #[trigger] is_array(s, all),
{
    let first = json::skip_space(s, 1);
    lemma_skips_blank(s, 1);
    json::lemma_skip_space(s, 1);
    if json::byte_at(s, first) == Some(93u8) {
        assert(is_array(s, Seq::<Element>::empty()));
    } else {
        let all = lemma_elements_found(s, first);
        assert(element_stands(s, all, 0));
        assert(is_array(s, all));
    }
}

proof fn lemma_members_stand(s: Seq<u8>, all: Seq<Member>, k: int)
    requires
        0 <= k < all.len(),
        members_stand(s, all),
    ensures
        json::members_from(s, all[k].key) == Some(written_members(s, all).skip(k)),
    decreases all.len() - k,
{
    let m = all[k];
    let items = written_members(s, all);
    assert(member_stands(s, all, k));
    assert(json::value_end(s, m.key) == Some(m.key_end));
    lemma_blank(s, m.key_end, m.colon);
    lemma_blank(s, m.colon + 1, m.start);
    assert(json::value_end(s, m.start) == Some(m.end));
    lemma_blank(s, m.end, m.sep);
    let item = (m.name, s.subrange(m.start, m.end));
    assert(items[k] == item);
    assert(json::member_at(s, m.key) == Some((item.0, item.1, m.end)));
    if k == all.len() - 1 {
        assert(items.skip(k) == seq![item]);
    } else {
        let next = all[k + 1];
        assert(member_stands(s, all, k + 1));
        lemma_blank(s, m.sep + 1, next.key);
        lemma_members_stand(s, all, k + 1);
        assert(items.skip(k) == seq![item] + items.skip(k + 1));
    }
}

/// An object has exactly the members that stand in it, in their order, each value as it is
/// written.
pub proof fn law_objects_hold_their_members(s: Seq<u8>, all: Seq<Member>)
    requires
        is_object(s, all),
    ensures
        json::members(s) == Some(written_members(s, all)),
{
    if all.len() == 0 {
        lemma_blank(s, 1, s.len() - 1);
        assert(written_members(s, all) == Seq::<(Seq<char>, Seq<u8>)>::empty());
    } else {
        assert(member_stands(s, all, 0));
        lemma_blank(s, 1, all[0].key);
        lemma_members_stand(s, all, 0);
        assert(written_members(s, all).skip(0) == written_members(s, all));
    }
}

proof fn lemma_members_found(s: Seq<u8>, i: int) -> (all: Seq<Member>)
    requires
        0 <= i <= s.len(),
        i < s.len() ==> s[i] != 32 && s[i] != 9 && s[i] != 10 && s[i] != 13,
        json::members_from(s, i) is Some,
    ensures
        all.len() > 0,
        all[0].key == i,
        members_stand(s, all),
    decreases s.len() - i,
{
    let (name, value, end) = json::member_at(s, i).unwrap();
    json::lemma_member_at(s, i);
    let key_end = json::value_end(s, i).unwrap();
    let colon = json::skip_space(s, key_end);
    lemma_skips_blank(s, key_end);
    json::lemma_skip_space(s, key_end);
    let start = json::skip_space(s, colon + 1);
    lemma_skips_blank(s, colon + 1);
    json::lemma_skip_space(s, colon + 1);
    let sep = json::skip_space(s, end);
    lemma_skips_blank(s, end);
    json::lemma_skip_space(s, end);
    let m = Member { key: i, key_end, colon, start, end, sep, name };
    assert(key_and_value_stand(s, m));
    if s[sep] == 125 && sep + 1 == s.len() {
        assert(member_stands(s, seq![m], 0));
        seq![m]
    } else {
        let next = json::skip_space(s, sep + 1);
        lemma_skips_blank(s, sep + 1);
        json::lemma_skip_space(s, sep + 1);
        let rest = lemma_members_found(s, next);
        let all = seq![m] + rest;
        assert forall|k: int| 0 <= k < all.len() implies #[trigger] member_stands(s, all, k) by {
            if k > 0 {
                assert(member_stands(s, rest, k - 1));
                assert(all[k] == rest[k - 1]);
                if k < all.len() - 1 {
                    assert(all[k + 1] == rest[k]);
                }
            } else {
                assert(all[1] == rest[0]);
            }
        }
        all
    }
}

/// What is read as an object is one.
pub proof fn law_only_objects_have_members(s: Seq<u8>)
    requires
        json::members(s) is Some,
    ensures
        exists|all: Seq<Member>| #[trigger] is_object(s, all),
{
    let first = json::skip_space(s, 1);
    lemma_skips_blank(s, 1);
    json::lemma_skip_space(s, 1);
    if json::byte_at(s, first) == Some(125u8) {
        assert(is_object(s, Seq::<Member>::empty()));
    } else {
        let all = lemma_members_found(s, first);
        assert(member_stands(s, all, 0));
        assert(is_object(s, all));
    }
}

/// Whether `s` is a record with fields of the given names: an object in which none of them is
/// repeated, or an array of at most as many elements.
pub open spec fn is_record(s: Seq<u8>, names: Seq<Seq<char>>) -> bool {
    match json::members(s) {
        Some(ms) => forall|i: int, j: int, k: int|
            0 <= i < j < ms.len() && 0 <= k < names.len() ==> !((#[trigger] ms[i]).0
                == #[trigger] names[k] && (#[trigger] ms[j]).0 == names[k]),
        None => json::elements(s) matches Some(es) && es.len() <= names.len(),
    }
}

/// Whether the field `name`, the `k`-th one of a record, has the value `v`: that of the member
/// with its name, or of the element at its place. An absent field has none.
pub open spec fn has_field(s: Seq<u8>, k: int, name: Seq<char>, v: Option<Seq<u8>>) -> bool {
    match json::members(s) {
        Some(ms) => match v {
            Some(b) => exists|i: int| 0 <= i < ms.len() && #[trigger] ms[i] == (name, b),
            None => forall|i: int| 0 <= i < ms.len() ==> (#[trigger] ms[i]).0 != name,
        },
        None => match json::elements(s) {
            Some(es) => v == (if k < es.len() {
                Some(es[k])
            } else {
                None
            }),
            None => false,
        },
    }
}

proof fn lemma_member_value(ms: Seq<(Seq<char>, Seq<u8>)>, name: Seq<char>)
    ensures
        match json::member_value(ms, name) {
            Some(b) => exists|i: int| 0 <= i < ms.len() && #[trigger] ms[i] == (name, b),
            None => forall|i: int| 0 <= i < ms.len() ==> (#[trigger] ms[i]).0 != name,
        },
    decreases ms.len(),
{
    if ms.len() > 0 {
        let init = ms.drop_last();
        lemma_member_value(init, name);
        assert(forall|i: int| 0 <= i < init.len() ==> #[trigger] init[i] == ms[i]);
        if ms.last().0 == name {
            assert(ms[ms.len() - 1] == (name, ms.last().1));
        } else if let Some(b) = json::member_value(init, name) {
            let i = choose|i: int| 0 <= i < init.len() && #[trigger] init[i] == (name, b);
            assert(ms[i] == (name, b));
        } else {
            assert forall|i: int| 0 <= i < ms.len() implies (#[trigger] ms[i]).0 != name by {
                if i < init.len() {
                    assert(init[i] == ms[i]);
                }
            }
        }
    }
}

/// Records are read exactly where they stand, and each field has the value that it has there.
pub proof fn law_records_hold_their_fields(s: Seq<u8>, names: Seq<Seq<char>>)
    ensures
        json::record(s, names) is Some <==> is_record(s, names),
        json::record(s, names) matches Some(fields) ==> {
            &&& fields.len() == names.len()
            &&& forall|k: int|
                0 <= k < names.len() ==> has_field(s, k, #[trigger] names[k], fields[k])
        },
{
    match json::members(s) {
        Some(ms) => {
            if is_record(s, names) {
                assert forall|a: int, b: int|
                    0 <= a < b < ms.len() && (#[trigger] ms[a]).0 == (
                    #[trigger] ms[b]).0 implies !names.contains(ms[a].0) by {
                    if names.contains(ms[a].0) {
                        let k = choose|k: int| 0 <= k < names.len() && names[k] == ms[a].0;
                        assert(ms[a].0 == names[k] && ms[b].0 == names[k]);
                    }
                }
                assert(json::named_once(ms, names));
            }
            if json::named_once(ms, names) {
                assert forall|i: int, j: int, k: int|
                    0 <= i < j < ms.len() && 0 <= k < names.len() implies !((#[trigger] ms[i]).0
                    == #[trigger] names[k] && (#[trigger] ms[j]).0 == names[k]) by {
                    if ms[i].0 == names[k] && ms[j].0 == names[k] {
                        assert(names.contains(ms[i].0));
                    }
                }
            }
            if let Some(fields) = json::record(s, names) {
                assert forall|k: int| 0 <= k < names.len() implies has_field(
                    s,
                    k,
                    #[trigger] names[k],
                    fields[k],
                ) by {
                    lemma_member_value(ms, names[k]);
                }
            }
        },
        None => {},
    }
}

/// The value of a field of a record is the only one that it has there.
pub proof fn lemma_field_is_unique(
    s: Seq<u8>,
    names: Seq<Seq<char>>,
    k: int,
    v: Option<Seq<u8>>,
)
    requires
        is_record(s, names),
        0 <= k < names.len(),
        has_field(s, k, names[k], v),
    ensures
        json::record(s, names).unwrap()[k] == v,
        json::record(s, names).unwrap().len() == names.len(),
{
    law_records_hold_their_fields(s, names);
    let w = json::record(s, names).unwrap()[k];
    assert(has_field(s, k, names[k], w));
    if let Some(ms) = json::members(s) {
        match (v, w) {
            (Some(a), Some(b)) => {
                let i = choose|i: int| 0 <= i < ms.len() && #[trigger] ms[i] == (names[k], a);
                let j = choose|j: int| 0 <= j < ms.len() && #[trigger] ms[j] == (names[k], b);
                if i < j {
                    assert(ms[i].0 == names[k] && ms[j].0 == names[k]);
                } else if j < i {
                    assert(ms[j].0 == names[k] && ms[i].0 == names[k]);
                }
            },
            _ => {},
        }
    }
}

/// Values, slices, names and members are shown one by one, in their order.
pub proof fn law_lists_show_their_items(
    values: Seq<serde_json::Value>,
    slices: Seq<&[u8]>,
    names: Seq<&str>,
    fields: Seq<Option<&[u8]>>,
    members: Seq<(String, &[u8])>,
)
    ensures
        json::jsons_of(values).len() == values.len(),
        forall|i: int|
            0 <= i < values.len() ==> json::jsons_of(values)[i] == json::json_of(
                #[trigger] values[i],
            ),
        json::slices_of(slices).len() == slices.len(),
        forall|i: int|
            0 <= i < slices.len() ==> json::slices_of(slices)[i] == (#[trigger] slices[i])@,
        json::names_of(names).len() == names.len(),
        forall|i: int| 0 <= i < names.len() ==> json::names_of(names)[i] == (#[trigger] names[i])@,
        json::fields_of(fields).len() == fields.len(),
        forall|i: int|
            0 <= i < fields.len() ==> (match #[trigger] fields[i] {
                Some(b) => json::fields_of(fields)[i] == Some(b@),
                None => json::fields_of(fields)[i] is None,
            }),
        json::members_of(members).len() == members.len(),
        forall|i: int|
            0 <= i < members.len() ==> json::members_of(members)[i] == (
                (#[trigger] members[i]).0@,
                members[i].1@,
            ),
{
}

/// An object has the members that it is built of, and a document that is read, or a string or
/// `null`, is shown as it is.
pub proof fn law_objects_are_built_of_their_members(
    members: Seq<(String, serde_json::Value)>,
    m: (String, serde_json::Value),
    value: Option<serde_json::Value>,
    read: Option<Option<String>>,
)
    ensures
        json::object_of(Seq::<(String, serde_json::Value)>::empty()) == Map::<
            Seq<char>,
            json::Json,
        >::empty(),
        json::object_of(members.push(m)) == json::object_of(members).insert(
            m.0@,
            json::json_of(m.1),
        ),
        match value {
            Some(v) => json::optional_json(value) == Some(json::json_of(v)),
            None => json::optional_json(value) is None,
        },
        match read {
            Some(Some(t)) => json::text_or_null(read) == Some(Some(t@)),
            Some(None) => json::text_or_null(read) == Some(None::<Seq<char>>),
            None => json::text_or_null(read) is None,
        },
{
    assert(members.push(m).drop_last() == members);
}

} // verus!
