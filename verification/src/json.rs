//! JSON values as plain data, and their notation.

use vstd::prelude::*;
use crate::model::Modeled;
use crate::prompt;
use crate::text;

verus! {

/// A JSON value. A number that is no integer keeps the notation it is written in.
#[derive(Debug, PartialEq, Eq)]
pub enum Json {
    Null,
    Bool(bool),
    Unsigned(u64),
    Signed(i64),
    Float(String),
    Text(String),
    Array(Vec<Json>),
    Object(Vec<(String, Json)>),
}

/// The mathematical content of a `Json`.
pub enum JsonView {
    Null,
    Bool(bool),
    Unsigned(u64),
    Signed(i64),
    Float(Seq<char>),
    Text(Seq<char>),
    Array(Seq<JsonView>),
    Object(Seq<(Seq<char>, JsonView)>),
}

pub open spec fn json_view(json: Json) -> JsonView
    decreases json,
{
    match json {
        Json::Null => JsonView::Null,
        Json::Bool(value) => JsonView::Bool(value),
        Json::Unsigned(value) => JsonView::Unsigned(value),
        Json::Signed(value) => JsonView::Signed(value),
        Json::Float(text) => JsonView::Float(text@),
        Json::Text(text) => JsonView::Text(text@),
        Json::Array(items) => JsonView::Array(json_views(items@)),
        Json::Object(members) => JsonView::Object(member_views(members@)),
    }
}

pub open spec fn json_views(items: Seq<Json>) -> Seq<JsonView>
    decreases items,
{
    if items.len() == 0 {
        seq![]
    } else {
        json_views(items.drop_last()).push(json_view(items.last()))
    }
}

pub open spec fn member_views(members: Seq<(String, Json)>) -> Seq<(Seq<char>, JsonView)>
    decreases members,
{
    if members.len() == 0 {
        seq![]
    } else {
        member_views(members.drop_last()).push((members.last().0@, json_view(members.last().1)))
    }
}

impl View for Json {
    type V = JsonView;

    open spec fn view(&self) -> JsonView {
        json_view(*self)
    }
}

/// The members with a key, first to last, found by position.
pub open spec fn position_of(members: Seq<(Seq<char>, JsonView)>, key: Seq<char>) -> Option<int>
    decreases members.len(),
{
    if members.len() == 0 {
        None
    } else if members[0].0 == key {
        Some(0)
    } else {
        match position_of(members.skip(1), key) {
            Some(index) => Some(index + 1),
            None => None,
        }
    }
}

impl JsonView {
    /// The value of an object's member, if this is an object that has one.
    pub open spec fn member(self, key: Seq<char>) -> Option<JsonView> {
        match self {
            JsonView::Object(members) => match position_of(members, key) {
                Some(index) => Some(members[index].1),
                None => None,
            },
            _ => None,
        }
    }
}

/// Relates a list of values to its models position by position.
pub proof fn lemma_json_views(items: Seq<Json>)
    ensures
        json_views(items).len() == items.len(),
        forall|i: int| 0 <= i < items.len() ==> #[trigger] json_views(items)[i] == json_view(items[i]),
    decreases items.len(),
{
    if items.len() > 0 {
        lemma_json_views(items.drop_last());
        assert forall|i: int| 0 <= i < items.len() implies #[trigger] json_views(items)[i] == json_view(
            items[i],
        ) by {
            if i < items.len() - 1 {
                assert(items.drop_last()[i] == items[i]);
            }
        }
    }
}

/// Relates a list of members to its models position by position.
pub proof fn lemma_member_views(members: Seq<(String, Json)>)
    ensures
        member_views(members).len() == members.len(),
        forall|i: int|
            0 <= i < members.len() ==> #[trigger] member_views(members)[i] == (
                members[i].0@,
                json_view(members[i].1),
            ),
    decreases members.len(),
{
    if members.len() > 0 {
        lemma_member_views(members.drop_last());
        assert forall|i: int| 0 <= i < members.len() implies #[trigger] member_views(members)[i] == (
            members[i].0@,
            json_view(members[i].1),
        ) by {
            if i < members.len() - 1 {
                assert(members.drop_last()[i] == members[i]);
            }
        }
    }
}

/// Whether a notation is one of the two zeros that are no integers.
pub open spec fn float_zero(notation: Seq<char>) -> bool {
    notation == "0.0"@ || notation == "-0.0"@
}

/// Equality of JSON values: the order of an object's members does not matter.
pub open spec fn json_alike(left: JsonView, right: JsonView) -> bool
    decreases left,
{
    match (left, right) {
        (JsonView::Null, JsonView::Null) => true,
        (JsonView::Bool(a), JsonView::Bool(b)) => a == b,
        (JsonView::Unsigned(a), JsonView::Unsigned(b)) => a == b,
        (JsonView::Signed(a), JsonView::Signed(b)) => a == b,
        (JsonView::Float(a), JsonView::Float(b)) => a == b || (float_zero(a) && float_zero(b)),
        (JsonView::Text(a), JsonView::Text(b)) => a == b,
        (JsonView::Array(a), JsonView::Array(b)) => {
            &&& a.len() == b.len()
            &&& forall|i: int| #![trigger a[i]] 0 <= i < a.len() ==> json_alike(a[i], b[i])
        },
        (JsonView::Object(a), JsonView::Object(b)) => {
            &&& a.len() == b.len()
            &&& forall|i: int|
                #![trigger a[i]]
                0 <= i < a.len() ==> match position_of(b, a[i].0) {
                    Some(j) => json_alike(a[i].1, b[j].1),
                    None => false,
                }
        },
        _ => false,
    }
}

/// The first position whose key fits is the one that is found.
proof fn lemma_position_of(members: Seq<(Seq<char>, JsonView)>, key: Seq<char>, index: int)
    requires
        0 <= index <= members.len(),
        forall|k: int| 0 <= k < index ==> (#[trigger] members[k]).0 != key,
        index < members.len() ==> members[index].0 == key,
    ensures
        position_of(members, key) == if index < members.len() {
            Some(index)
        } else {
            None::<int>
        },
    decreases members.len(),
{
    if members.len() > 0 && index > 0 {
        let rest = members.skip(1);
        assert forall|k: int| 0 <= k < index - 1 implies (#[trigger] rest[k]).0 != key by {
            assert(rest[k] == members[k + 1]);
        }
        lemma_position_of(rest, key, index - 1);
        assert(members[0].0 != key);
    }
}

/// Finds the first member with a key.
pub fn find_member(members: &Vec<(String, Json)>, key: &str) -> (found: Option<usize>)
    ensures
        match found {
            Some(index) => index < members.len() && position_of(member_views(members@), key@) == Some(
                index as int,
            ),
            None => position_of(member_views(members@), key@) is None,
        },
{
    proof {
        lemma_member_views(members@);
    }
    let ghost all = member_views(members@);
    let wanted: String = key.to_owned();
    let mut i: usize = 0;
    while i < members.len()
        invariant
            i <= members.len(),
            wanted@ == key@,
            all == member_views(members@),
            all.len() == members.len(),
            forall|k: int|
                0 <= k < members.len() ==> #[trigger] all[k] == (
                    members[k].0@,
                    json_view(members[k].1),
                ),
            forall|k: int| 0 <= k < i ==> (#[trigger] all[k]).0 != key@,
        decreases members.len() - i,
    {
        if members[i].0 == wanted {
            proof {
                assert(all[i as int].0 == key@);
                lemma_position_of(all, key@, i as int);
            }
            return Some(i);
        }
        assert(all[i as int].0 != key@);
        i += 1;
    }
    proof {
        lemma_position_of(all, key@, i as int);
    }
    None
}

/// Whether a notation is one of the two zeros that are no integers.
fn is_float_zero(notation: &String) -> (zero: bool)
    ensures
        zero == float_zero(notation@),
{
    *notation == "0.0".to_owned() || *notation == "-0.0".to_owned()
}

/// Compares two values.
pub fn same_json(left: &Json, right: &Json) -> (equal: bool)
    ensures
        equal == json_alike(left@, right@),
    decreases left,
{
    match (left, right) {
        (Json::Null, Json::Null) => true,
        (Json::Bool(a), Json::Bool(b)) => *a == *b,
        (Json::Unsigned(a), Json::Unsigned(b)) => *a == *b,
        (Json::Signed(a), Json::Signed(b)) => *a == *b,
        (Json::Float(a), Json::Float(b)) => *a == *b || (is_float_zero(a) && is_float_zero(b)),
        (Json::Text(a), Json::Text(b)) => *a == *b,
        (Json::Array(a), Json::Array(b)) => {
            proof {
                lemma_json_views(a@);
                lemma_json_views(b@);
            }
            if a.len() != b.len() {
                return false;
            }
            let ghost av = json_views(a@);
            let ghost bv = json_views(b@);
            let mut i: usize = 0;
            while i < a.len()
                invariant
                    i <= a.len(),
                    a.len() == b.len(),
                    *left == Json::Array(*a),
                    *right == Json::Array(*b),
                    av == json_views(a@),
                    bv == json_views(b@),
                    av.len() == a.len(),
                    bv.len() == b.len(),
                    forall|k: int| 0 <= k < a.len() ==> #[trigger] av[k] == json_view(a[k]),
                    forall|k: int| 0 <= k < b.len() ==> #[trigger] bv[k] == json_view(b[k]),
                    forall|k: int| #![trigger av[k]] 0 <= k < i ==> json_alike(av[k], bv[k]),
                decreases a.len() - i,
            {
                proof {
                    assert(decreases_to!(left => left->Array_0));
                    assert(decreases_to!(a => a@));
                    assert(decreases_to!(a@ => a@[i as int]));
                }
                if !same_json(&a[i], &b[i]) {
                    assert(!json_alike(av[i as int], bv[i as int]));
                    return false;
                }
                i += 1;
            }
            true
        },
        (Json::Object(a), Json::Object(b)) => {
            proof {
                lemma_member_views(a@);
                lemma_member_views(b@);
            }
            if a.len() != b.len() {
                return false;
            }
            let ghost av = member_views(a@);
            let ghost bv = member_views(b@);
            let mut i: usize = 0;
            while i < a.len()
                invariant
                    i <= a.len(),
                    a.len() == b.len(),
                    *left == Json::Object(*a),
                    *right == Json::Object(*b),
                    av == member_views(a@),
                    bv == member_views(b@),
                    av.len() == a.len(),
                    bv.len() == b.len(),
                    forall|k: int| 0 <= k < a.len() ==> #[trigger] av[k] == (a[k].0@, json_view(a[k].1)),
                    forall|k: int| 0 <= k < b.len() ==> #[trigger] bv[k] == (b[k].0@, json_view(b[k].1)),
                    forall|k: int|
                        #![trigger av[k]]
                        0 <= k < i ==> match position_of(bv, av[k].0) {
                            Some(j) => json_alike(av[k].1, bv[j].1),
                            None => false,
                        },
                decreases a.len() - i,
            {
                proof {
                    assert(decreases_to!(left => left->Object_0));
                    assert(decreases_to!(a => a@));
                    assert(decreases_to!(a@ => a@[i as int]));
                    assert(decreases_to!(a@[i as int] => a@[i as int].1));
                    assert(av[i as int].0 == a[i as int].0@);
                }
                match find_member(b, a[i].0.as_str()) {
                    None => {
                        return false;
                    },
                    Some(j) => {
                        if !same_json(&a[i].1, &b[j].1) {
                            assert(!json_alike(av[i as int].1, bv[j as int].1));
                            return false;
                        }
                    },
                }
                i += 1;
            }
            true
        },
        _ => false,
    }
}

/// Copies a value.
pub fn duplicate_json(json: &Json) -> (copy: Json)
    ensures
        copy@ == json@,
    decreases json,
{
    match json {
        Json::Null => Json::Null,
        Json::Bool(value) => Json::Bool(*value),
        Json::Unsigned(value) => Json::Unsigned(*value),
        Json::Signed(value) => Json::Signed(*value),
        Json::Float(notation) => Json::Float(notation.clone()),
        Json::Text(content) => Json::Text(content.clone()),
        Json::Array(items) => {
            let mut copies: Vec<Json> = Vec::new();
            let mut i: usize = 0;
            while i < items.len()
                invariant
                    i <= items.len(),
                    *json == Json::Array(*items),
                    json_views(copies@) == json_views(items@.take(i as int)),
                decreases items.len() - i,
            {
                proof {
                    assert(decreases_to!(json => json->Array_0));
                    assert(decreases_to!(items => items@));
                    assert(decreases_to!(items@ => items@[i as int]));
                }
                let copy = duplicate_json(&items[i]);
                let ghost earlier = copies@;
                copies.push(copy);
                proof {
                    assert(copies@.drop_last() =~= earlier);
                    assert(items@.take(i + 1).drop_last() =~= items@.take(i as int));
                }
                i += 1;
            }
            assert(items@.take(i as int) =~= items@);
            Json::Array(copies)
        },
        Json::Object(members) => {
            let mut copies: Vec<(String, Json)> = Vec::new();
            let mut i: usize = 0;
            while i < members.len()
                invariant
                    i <= members.len(),
                    *json == Json::Object(*members),
                    member_views(copies@) == member_views(members@.take(i as int)),
                decreases members.len() - i,
            {
                proof {
                    assert(decreases_to!(json => json->Object_0));
                    assert(decreases_to!(members => members@));
                    assert(decreases_to!(members@ => members@[i as int]));
                    assert(decreases_to!(members@[i as int] => members@[i as int].1));
                }
                let copy = duplicate_json(&members[i].1);
                let key = members[i].0.clone();
                let ghost earlier = copies@;
                copies.push((key, copy));
                proof {
                    assert(copies@.drop_last() =~= earlier);
                    assert(members@.take(i + 1).drop_last() =~= members@.take(i as int));
                }
                i += 1;
            }
            assert(members@.take(i as int) =~= members@);
            Json::Object(copies)
        },
    }
}

impl Modeled for Json {
    open spec fn alike(left: JsonView, right: JsonView) -> bool {
        json_alike(left, right)
    }

    fn duplicate(&self) -> (copy: Self) {
        duplicate_json(self)
    }

    fn same(&self, other: &Self) -> (equal: bool) {
        same_json(self, other)
    }
}

impl Clone for Json {
    fn clone(&self) -> (copy: Self)
        ensures
            copy@ == self@,
    {
        duplicate_json(self)
    }
}

impl Json {
    /// The value of an object's member, if this is an object that has one.
    pub fn member(&self, key: &str) -> (value: Option<&Json>)
        ensures
            match value {
                Some(found) => self@.member(key@) == Some(found@),
                None => self@.member(key@) is None,
            },
    {
        match self {
            Json::Object(members) => match find_member(members, key) {
                Some(index) => {
                    proof {
                        lemma_member_views(members@);
                        assert(member_views(members@)[index as int].1 == json_view(members[index as int].1));
                    }
                    Some(&members[index].1)
                },
                None => None,
            },
            _ => None,
        }
    }
}

/// A JSON value as `serde_json` holds it.
#[verifier::external_type_specification]
#[verifier::external_body]
pub struct ExValue(serde_json::Value);

/// What a `serde_json::Value` holds. Members stand in the order in which the value keeps
/// them, and a number that is no integer is known by its notation.
pub uninterp spec fn value_contents(value: serde_json::Value) -> JsonView;

/// What `serde_json::from_str` reads from a text: the contents of a value, or nothing
/// where the text is no JSON document.
pub uninterp spec fn parsed_json(text: Seq<char>) -> Option<JsonView>;

/// Calls `serde_json::from_str` for a `serde_json::Value`. Claims only that whether there
/// is a value, and what it holds, are functions of the text.
#[verifier::external_body]
fn parse_value(text: &str) -> (value: Option<serde_json::Value>)
    ensures
        match value {
            Some(found) => parsed_json(text@) == Some(value_contents(found)),
            None => parsed_json(text@) is None,
        },
{
    serde_json::from_str(text).ok()
}

/// Moves a `serde_json::Value` into plain data, variant by variant; a number that
/// is no integer keeps the notation that `serde_json::Number` displays. Claims that the
/// result is what the value holds.
#[verifier::external_body]
fn json_of_value(value: serde_json::Value) -> (json: Json)
    ensures
        json@ == value_contents(value),
{
    match value {
        serde_json::Value::Null => Json::Null,
        serde_json::Value::Bool(value) => Json::Bool(value),
        serde_json::Value::Number(number) => match (number.as_u64(), number.as_i64()) {
            (Some(value), _) => Json::Unsigned(value),
            (None, Some(value)) => Json::Signed(value),
            (None, None) => Json::Float(number.to_string()),
        },
        serde_json::Value::String(text) => Json::Text(text),
        serde_json::Value::Array(items) => Json::Array(items.into_iter().map(json_of_value).collect()),
        serde_json::Value::Object(map) => Json::Object(map.into_iter().map(|(k, v)| (k, json_of_value(v))).collect()),
    }
}

/// Reads a JSON document.
pub fn parse_json(text: &str) -> (json: Option<Json>)
    ensures
        match json {
            Some(value) => parsed_json(text@) == Some(value@),
            None => parsed_json(text@) is None,
        },
{
    match parse_value(text) {
        Some(value) => Some(json_of_value(value)),
        None => None,
    }
}

/// What a `serde_json::Value` holds that is built from plain data: an object keeps one
/// member for each key, and a number that is no integer is read from its notation.
pub uninterp spec fn held_json(json: JsonView) -> JsonView;

/// Whether a `serde_json::Value` holds data as it is: no object has a key twice, and
/// numbers are integers, signed only where they are negative.
pub open spec fn is_canonical(json: JsonView) -> bool
    decreases json,
{
    match json {
        JsonView::Float(_) => false,
        JsonView::Signed(value) => value < 0,
        JsonView::Array(items) => forall|i: int| 0 <= i < items.len() ==> is_canonical(#[trigger] items[i]),
        JsonView::Object(members) => {
            &&& forall|i: int, j: int|
                0 <= i < j < members.len() ==> (#[trigger] members[i]).0 != (#[trigger] members[j]).0
            &&& forall|i: int| 0 <= i < members.len() ==> is_canonical((#[trigger] members[i]).1)
        },
        _ => true,
    }
}

/// Builds a `serde_json::Value` from plain data, variant by variant. Claims that what
/// the value holds is a function of the data, and the data itself where that is
/// canonical.
#[verifier::external_body]
fn value_of_json(json: &Json) -> (value: serde_json::Value)
    ensures
        value_contents(value) == held_json(json@),
        is_canonical(json@) ==> value_contents(value) == json@,
{
    match json {
        Json::Null => serde_json::Value::Null,
        Json::Bool(value) => serde_json::Value::Bool(*value),
        Json::Unsigned(value) => serde_json::Value::from(*value),
        Json::Signed(value) => serde_json::Value::from(*value),
        Json::Float(notation) => serde_json::from_str(notation).unwrap_or(serde_json::Value::Null),
        Json::Text(text) => serde_json::Value::String(text.clone()),
        Json::Array(items) => serde_json::Value::Array(items.iter().map(value_of_json).collect()),
        Json::Object(members) => serde_json::Value::Object(members.iter().map(|(k, v)| (k.clone(), value_of_json(v))).collect()),
    }
}

/// A line break before something that is indented to a depth. Compact notation has none.
pub open spec fn line_break(depth: Option<nat>) -> Seq<char> {
    match depth {
        Some(levels) => seq!['\n'] + Seq::new(2 * levels, |i: int| ' '),
        None => seq![],
    }
}

/// One level deeper.
pub open spec fn deeper(depth: Option<nat>) -> Option<nat> {
    match depth {
        Some(levels) => Some(levels + 1),
        None => None,
    }
}

/// The notation of a value that stands at a depth of indented notation, or in compact
/// notation.
pub open spec fn notation(json: JsonView, depth: Option<nat>) -> Seq<char>
    decreases json,
{
    match json {
        JsonView::Null => seq!['n', 'u', 'l', 'l'],
        JsonView::Bool(true) => seq!['t', 'r', 'u', 'e'],
        JsonView::Bool(false) => seq!['f', 'a', 'l', 's', 'e'],
        JsonView::Unsigned(value) => text::decimal(value as nat),
        JsonView::Signed(value) => if value < 0 {
            seq!['-'] + text::decimal((-value) as nat)
        } else {
            text::decimal(value as nat)
        },
        JsonView::Float(shown) => shown,
        JsonView::Text(text) => text::json_string(text),
        JsonView::Array(items) => if items.len() == 0 {
            seq!['[', ']']
        } else {
            seq!['['] + item_notation(items, deeper(depth)) + line_break(depth) + seq![']']
        },
        JsonView::Object(members) => if members.len() == 0 {
            seq!['{', '}']
        } else {
            seq!['{'] + member_notation(members, deeper(depth)) + line_break(depth) + seq!['}']
        },
    }
}

/// The notation of an array's items.
pub open spec fn item_notation(items: Seq<JsonView>, depth: Option<nat>) -> Seq<char>
    decreases items,
{
    if items.len() == 0 {
        seq![]
    } else {
        let earlier = if items.len() == 1 {
            seq![]
        } else {
            item_notation(items.drop_last(), depth).push(',')
        };
        earlier + line_break(depth) + notation(items.last(), depth)
    }
}

/// The notation of an object's members.
pub open spec fn member_notation(members: Seq<(Seq<char>, JsonView)>, depth: Option<nat>) -> Seq<char>
    decreases members,
{
    if members.len() == 0 {
        seq![]
    } else {
        let earlier = if members.len() == 1 {
            seq![]
        } else {
            member_notation(members.drop_last(), depth).push(',')
        };
        let colon = if depth is Some {
            seq![':', ' ']
        } else {
            seq![':']
        };
        earlier + line_break(depth) + text::json_string(members.last().0) + colon + notation(members.last().1, depth)
    }
}

/// The compact notation of a value: without any space between its parts.
pub open spec fn compact_notation(json: JsonView) -> Seq<char> {
    notation(json, None)
}

/// The indented notation of a value: each item and member on a line of its own, two
/// spaces deeper than what it belongs to.
pub open spec fn pretty_notation(json: JsonView) -> Seq<char> {
    notation(json, Some(0))
}

/// Calls `serde_json::Value::to_string`. Claims that the text is the compact notation of
/// what the value holds.
#[verifier::external_body]
fn compact_value(value: &serde_json::Value) -> (text: String)
    ensures
        text@ == compact_notation(value_contents(*value)),
{
    value.to_string()
}

/// Calls `serde_json::to_string_pretty`. Claims that the text is the indented notation of
/// what the value holds.
#[verifier::external_body]
fn pretty_value(value: &serde_json::Value) -> (text: String)
    ensures
        text@ == pretty_notation(value_contents(*value)),
{
    serde_json::to_string_pretty(value).expect("JSON value serializes")
}

/// What is written of plain data: the data itself where that is canonical.
pub open spec fn written(json: JsonView) -> JsonView {
    if is_canonical(json) {
        json
    } else {
        held_json(json)
    }
}

/// The compact notation of plain data.
pub open spec fn compact(json: JsonView) -> Seq<char> {
    compact_notation(written(json))
}

/// The indented notation of plain data.
pub open spec fn pretty(json: JsonView) -> Seq<char> {
    pretty_notation(written(json))
}

/// Writes a value in compact notation.
pub fn compact_text(json: &Json) -> (text: String)
    ensures
        text@ == compact(json@),
{
    compact_value(&value_of_json(json))
}

/// Writes a value in indented notation.
pub fn pretty_text(json: &Json) -> (text: String)
    ensures
        text@ == pretty(json@),
{
    pretty_value(&value_of_json(json))
}

/// The members of an object after one has been given a value: in its place where
/// there is one with the key, at the end where there is none.
pub open spec fn with_member(
    members: Seq<(Seq<char>, JsonView)>,
    key: Seq<char>,
    value: JsonView,
) -> Seq<(Seq<char>, JsonView)> {
    match position_of(members, key) {
        Some(index) => members.update(index, (key, value)),
        None => members.push((key, value)),
    }
}

/// A found position lies in the list and has the key.
pub proof fn lemma_position_found(members: Seq<(Seq<char>, JsonView)>, key: Seq<char>)
    ensures
        position_of(members, key) matches Some(index) ==> 0 <= index < members.len() && members[index].0
            == key,
    decreases members.len(),
{
    if members.len() > 0 && members[0].0 != key {
        lemma_position_found(members.skip(1), key);
    }
}

/// Relates the members of a longer list to those of a shorter one.
pub proof fn lemma_member_views_push(members: Seq<(String, Json)>, member: (String, Json))
    ensures
        member_views(members.push(member)) == member_views(members).push((member.0@, json_view(member.1))),
{
    assert(members.push(member).drop_last() =~= members);
}

/// Relates the items of a longer list to those of a shorter one.
pub proof fn lemma_json_views_push(items: Seq<Json>, item: Json)
    ensures
        json_views(items.push(item)) == json_views(items).push(json_view(item)),
{
    assert(items.push(item).drop_last() =~= items);
}

/// Gives a member of an object a value.
pub fn set_member(members: &mut Vec<(String, Json)>, key: &str, value: Json)
    ensures
        member_views(final(members)@) == with_member(member_views(old(members)@), key@, value@),
{
    let ghost before = members@;
    proof {
        lemma_member_views(before);
    }
    match find_member(members, key) {
        Some(index) => {
            let ghost content = value@;
            members[index] = (key.to_owned(), value);
            proof {
                lemma_member_views(members@);
                assert(member_views(members@) =~= member_views(before).update(index as int, (key@, content)));
            }
        },
        None => {
            members.push((key.to_owned(), value));
            proof {
                lemma_member_views_push(before, members@.last());
                assert(members@ =~= before.push(members@.last()));
            }
        },
    }
}

/// A value without the null members of its objects, at any depth. Null items of
/// arrays stay.
pub open spec fn without_nulls(value: JsonView) -> JsonView
    decreases value,
{
    match value {
        JsonView::Object(members) => JsonView::Object(members_without_nulls(members)),
        JsonView::Array(items) => JsonView::Array(items_without_nulls(items)),
        _ => value,
    }
}

/// Members that are not null, each without nulls.
pub open spec fn members_without_nulls(members: Seq<(Seq<char>, JsonView)>) -> Seq<(Seq<char>, JsonView)>
    decreases members,
{
    if members.len() == 0 {
        seq![]
    } else {
        let earlier = members_without_nulls(members.drop_last());
        if members.last().1 is Null {
            earlier
        } else {
            earlier.push((members.last().0, without_nulls(members.last().1)))
        }
    }
}

/// Items without nulls.
pub open spec fn items_without_nulls(items: Seq<JsonView>) -> Seq<JsonView>
    decreases items,
{
    if items.len() == 0 {
        seq![]
    } else {
        items_without_nulls(items.drop_last()).push(without_nulls(items.last()))
    }
}

/// Leaves out the null members of objects, at any depth.
pub fn omit_null_fields(json: &Json) -> (compacted: Json)
    ensures
        compacted@ == without_nulls(json@),
    decreases json,
{
    match json {
        Json::Object(members) => {
            let mut left: Vec<(String, Json)> = Vec::new();
            let mut i: usize = 0;
            while i < members.len()
                invariant
                    i <= members.len(),
                    *json == Json::Object(*members),
                    member_views(left@) == members_without_nulls(member_views(members@.take(i as int))),
                decreases members.len() - i,
            {
                proof {
                    assert(decreases_to!(json => json->Object_0));
                    assert(decreases_to!(members => members@));
                    assert(decreases_to!(members@ => members@[i as int]));
                    assert(decreases_to!(members@[i as int] => members@[i as int].1));
                    assert(members@.take(i + 1).drop_last() =~= members@.take(i as int));
                    lemma_member_views_push(members@.take(i as int), members@[i as int]);
                    assert(members@.take(i + 1) =~= members@.take(i as int).push(members@[i as int]));
                    let shorter = member_views(members@.take(i as int));
                    let entry = (members@[i as int].0@, json_view(members@[i as int].1));
                    assert(shorter.push(entry).drop_last() =~= shorter);
                }
                if let Json::Null = members[i].1 {
                } else {
                    let value = omit_null_fields(&members[i].1);
                    let key = members[i].0.clone();
                    let ghost earlier = left@;
                    left.push((key, value));
                    proof {
                        lemma_member_views_push(earlier, left@.last());
                        assert(left@ =~= earlier.push(left@.last()));
                    }
                }
                i += 1;
            }
            assert(members@.take(i as int) =~= members@);
            Json::Object(left)
        },
        Json::Array(items) => {
            let mut left: Vec<Json> = Vec::new();
            let mut i: usize = 0;
            while i < items.len()
                invariant
                    i <= items.len(),
                    *json == Json::Array(*items),
                    json_views(left@) == items_without_nulls(json_views(items@.take(i as int))),
                decreases items.len() - i,
            {
                proof {
                    assert(decreases_to!(json => json->Array_0));
                    assert(decreases_to!(items => items@));
                    assert(decreases_to!(items@ => items@[i as int]));
                    lemma_json_views_push(items@.take(i as int), items@[i as int]);
                    assert(items@.take(i + 1) =~= items@.take(i as int).push(items@[i as int]));
                    let shorter = json_views(items@.take(i as int));
                    assert(shorter.push(json_view(items@[i as int])).drop_last() =~= shorter);
                }
                let value = omit_null_fields(&items[i]);
                let ghost earlier = left@;
                left.push(value);
                proof {
                    lemma_json_views_push(earlier, left@.last());
                    assert(left@ =~= earlier.push(left@.last()));
                }
                i += 1;
            }
            assert(items@.take(i as int) =~= items@);
            Json::Array(left)
        },
        _ => duplicate_json(json),
    }
}

/// Whether no object at any depth has a null member.
pub open spec fn free_of_nulls(value: JsonView) -> bool
    decreases value,
{
    match value {
        JsonView::Object(members) => forall|i: int|
            0 <= i < members.len() ==> !((#[trigger] members[i]).1 is Null) && free_of_nulls(members[i].1),
        JsonView::Array(items) => forall|i: int|
            #![trigger items[i]]
            0 <= i < items.len() ==> free_of_nulls(items[i]),
        _ => true,
    }
}

/// What is left has no null member at any depth.
pub proof fn omission_leaves_no_nulls(value: JsonView)
    ensures
        free_of_nulls(without_nulls(value)),
        without_nulls(value) is Null <==> value is Null,
    decreases value,
{
    match value {
        JsonView::Object(members) => {
            lemma_members_without_nulls(members);
        },
        JsonView::Array(items) => {
            lemma_items_without_nulls(items);
        },
        _ => {},
    }
}

proof fn lemma_members_without_nulls(members: Seq<(Seq<char>, JsonView)>)
    ensures
        free_of_nulls(JsonView::Object(members_without_nulls(members))),
    decreases members,
{
    let left = members_without_nulls(members);
    if members.len() > 0 {
        lemma_members_without_nulls(members.drop_last());
        omission_leaves_no_nulls(members.last().1);
        let earlier = members_without_nulls(members.drop_last());
        assert forall|i: int| 0 <= i < left.len() implies !((#[trigger] left[i]).1 is Null) && free_of_nulls(
            left[i].1,
        ) by {
            if i < earlier.len() {
                assert(JsonView::Object(earlier)->Object_0[i] == left[i]);
            }
        }
    }
    assert(JsonView::Object(left)->Object_0 == left);
}

proof fn lemma_items_without_nulls(items: Seq<JsonView>)
    ensures
        free_of_nulls(JsonView::Array(items_without_nulls(items))),
    decreases items,
{
    let left = items_without_nulls(items);
    if items.len() > 0 {
        lemma_items_without_nulls(items.drop_last());
        omission_leaves_no_nulls(items.last());
        let earlier = items_without_nulls(items.drop_last());
        assert forall|i: int| #![trigger left[i]] 0 <= i < left.len() implies free_of_nulls(left[i]) by {
            if i < earlier.len() {
                assert(JsonView::Array(earlier)->Array_0[i] == left[i]);
            }
        }
    }
    assert(JsonView::Array(left)->Array_0 == left);
}

/// A member is found by its key: it is the first one that has it, and nothing is found only
/// where none has.
pub proof fn members_are_found_by_key(members: Seq<(Seq<char>, JsonView)>, key: Seq<char>, index: int)
    ensures
        position_of(members, key) == Some(index) <==> {
            &&& 0 <= index < members.len()
            &&& members[index].0 == key
            &&& forall|k: int| 0 <= k < index ==> (#[trigger] members[k]).0 != key
        },
        position_of(members, key) is None <==> forall|k: int|
            0 <= k < members.len() ==> (#[trigger] members[k]).0 != key,
    decreases members.len(),
{
    if members.len() > 0 {
        let rest = members.skip(1);
        members_are_found_by_key(rest, key, index - 1);
        lemma_position_found(rest, key);
        assert forall|k: int| 0 <= k < rest.len() implies #[trigger] rest[k] == members[k + 1] by {}
        if members[0].0 != key {
            if forall|k: int| 0 <= k < index ==> (#[trigger] members[k]).0 != key {
                assert forall|k: int| 0 <= k < index - 1 && k < rest.len() implies (#[trigger] rest[k]).0 != key by {
                    assert(members[k + 1].0 != key);
                }
            }
            if forall|k: int| 0 <= k < members.len() ==> (#[trigger] members[k]).0 != key {
                assert forall|k: int| 0 <= k < rest.len() implies (#[trigger] rest[k]).0 != key by {
                    assert(members[k + 1].0 != key);
                }
            }
            if forall|k: int| 0 <= k < rest.len() ==> (#[trigger] rest[k]).0 != key {
                assert forall|k: int| 0 <= k < members.len() implies (#[trigger] members[k]).0 != key by {
                    if k > 0 {
                        assert(rest[k - 1].0 != key);
                    }
                }
            }
            if position_of(members, key) == Some(index) {
                assert(position_of(rest, key) == Some(index - 1));
                assert forall|k: int| 0 <= k < index implies (#[trigger] members[k]).0 != key by {
                    if k > 0 {
                        assert(rest[k - 1].0 != key);
                    }
                }
            }
        }
    }
}

/// A member that is given a value has it from then on, and what other keys have stays.
pub proof fn given_members_are_read_back(
    members: Seq<(Seq<char>, JsonView)>,
    key: Seq<char>,
    value: JsonView,
    other: Seq<char>,
)
    ensures
        JsonView::Object(with_member(members, key, value)).member(key) == Some(value),
        other != key ==> JsonView::Object(with_member(members, key, value)).member(other) == JsonView::Object(
            members,
        ).member(other),
{
    let given = with_member(members, key, value);
    lemma_position_found(members, key);
    lemma_position_found(members, other);
    match position_of(members, key) {
        Some(index) => {
            members_are_found_by_key(members, key, index);
            members_are_found_by_key(given, key, index);
            assert forall|k: int| 0 <= k < given.len() implies (#[trigger] given[k]).0 == members[k].0 by {}
        },
        None => {
            members_are_found_by_key(members, key, 0);
            members_are_found_by_key(given, key, members.len() as int);
            assert forall|k: int| 0 <= k < members.len() implies #[trigger] given[k] == members[k] by {}
            assert(forall|k: int| 0 <= k < members.len() ==> (#[trigger] given[k]).0 != key);
        },
    }
    if other != key {
        match position_of(members, other) {
            Some(place) => {
                members_are_found_by_key(members, other, place);
                members_are_found_by_key(given, other, place);
                assert(forall|k: int| 0 <= k < place ==> (#[trigger] given[k]).0 == members[k].0);
            },
            None => {
                members_are_found_by_key(members, other, 0);
                members_are_found_by_key(given, other, 0);
                assert forall|k: int| 0 <= k < given.len() implies (#[trigger] given[k]).0 != other by {
                    if k < members.len() {
                        assert(members[k].0 != other);
                    }
                }
            },
        }
    }
}

/// Members that are not null stay in their order, and so do all items of an array, null
/// ones too. Nothing but objects and arrays is changed.
pub proof fn omission_drops_null_members_only(
    members: Seq<(Seq<char>, JsonView)>,
    key: Seq<char>,
    items: Seq<JsonView>,
    value: JsonView,
)
    ensures
        !(value is Object) && !(value is Array) ==> without_nulls(value) == value,
        without_nulls(JsonView::Object(seq![])) == JsonView::Object(seq![]),
        without_nulls(JsonView::Array(seq![])) == JsonView::Array(seq![]),
        ({
            let before = without_nulls(JsonView::Object(members))->Object_0;
            let after = without_nulls(JsonView::Object(members.push((key, value))))->Object_0;
            after == if value is Null {
                before
            } else {
                before.push((key, without_nulls(value)))
            }
        }),
        without_nulls(JsonView::Array(items.push(value))) == JsonView::Array(
            without_nulls(JsonView::Array(items))->Array_0.push(without_nulls(value)),
        ),
{
    assert(members.push((key, value)).drop_last() =~= members);
    assert(items.push(value).drop_last() =~= items);
    reveal_with_fuel(without_nulls, 2);
    reveal_with_fuel(members_without_nulls, 2);
    reveal_with_fuel(items_without_nulls, 2);
}

/// What has no null member at any depth is left as it is.
pub proof fn nothing_else_is_omitted(value: JsonView)
    requires
        free_of_nulls(value),
    ensures
        without_nulls(value) == value,
    decreases value, 1nat,
{
    match value {
        JsonView::Object(members) => lemma_members_kept(members),
        JsonView::Array(items) => lemma_items_kept(items),
        _ => {},
    }
}

proof fn lemma_members_kept(members: Seq<(Seq<char>, JsonView)>)
    requires
        forall|i: int|
            0 <= i < members.len() ==> !((#[trigger] members[i]).1 is Null) && free_of_nulls(members[i].1),
    ensures
        members_without_nulls(members) == members,
    decreases members, 0nat,
{
    if members.len() > 0 {
        let rest = members.drop_last();
        let last = members[members.len() - 1];
        assert(last == members.last());
        assert forall|i: int| 0 <= i < rest.len() implies !((#[trigger] rest[i]).1 is Null) && free_of_nulls(
            rest[i].1,
        ) by {
            assert(rest[i] == members[i]);
        }
        lemma_members_kept(rest);
        nothing_else_is_omitted(last.1);
        assert(rest.push(last) =~= members);
    }
}

proof fn lemma_items_kept(items: Seq<JsonView>)
    requires
        forall|i: int| #![trigger items[i]] 0 <= i < items.len() ==> free_of_nulls(items[i]),
    ensures
        items_without_nulls(items) == items,
    decreases items, 0nat,
{
    if items.len() > 0 {
        let rest = items.drop_last();
        let last = items[items.len() - 1];
        assert(last == items.last());
        assert forall|i: int| #![trigger rest[i]] 0 <= i < rest.len() implies free_of_nulls(rest[i]) by {
            assert(rest[i] == items[i]);
        }
        lemma_items_kept(rest);
        nothing_else_is_omitted(last);
        assert(rest.push(last) =~= items);
    }
}

/// Values that are alike are of one kind, and equal where they hold no others and are no
/// fractions. Arrays are alike item by item, and objects member by member, in whatever
/// order.
pub proof fn alike_values_agree(left: JsonView, right: JsonView, key: Seq<char>, index: int)
    requires
        json_alike(left, right),
    ensures
        left is Null <==> right is Null,
        left is Bool <==> right is Bool,
        left is Unsigned <==> right is Unsigned,
        left is Signed <==> right is Signed,
        left is Float <==> right is Float,
        left is Text <==> right is Text,
        left is Array <==> right is Array,
        left is Object <==> right is Object,
        !(left is Float) && !(left is Array) && !(left is Object) ==> left == right,
        left matches JsonView::Array(items) ==> items.len() == right->Array_0.len() && (0 <= index < items.len()
            ==> json_alike(items[index], right->Array_0[index])),
        left matches JsonView::Object(members) ==> members.len() == right->Object_0.len(),
        left.member(key) matches Some(value) ==> (right.member(key) matches Some(other) && json_alike(value, other)),
{
    if let (JsonView::Object(a), JsonView::Object(b)) = (left, right) {
        lemma_position_found(a, key);
        if let Some(i) = position_of(a, key) {
            assert(a[i].0 == key);
        }
    }
}

/// Equal values that hold no others are alike, and arrays of alike items are.
pub proof fn equal_values_are_alike(value: JsonView, left: Seq<JsonView>, right: Seq<JsonView>)
    ensures
        !(value is Array) && !(value is Object) ==> json_alike(value, value),
        left.len() == right.len() && (forall|i: int|
            #![trigger left[i]]
            0 <= i < left.len() ==> json_alike(left[i], right[i])) ==> json_alike(
            JsonView::Array(left),
            JsonView::Array(right),
        ),
{
}

/// Whether no object at any depth has a key twice.
pub open spec fn has_distinct_keys(value: JsonView) -> bool
    decreases value,
{
    match value {
        JsonView::Object(members) => {
            &&& forall|i: int, j: int|
                0 <= i < j < members.len() ==> (#[trigger] members[i]).0 != (#[trigger] members[j]).0
            &&& forall|i: int| 0 <= i < members.len() ==> has_distinct_keys((#[trigger] members[i]).1)
        },
        JsonView::Array(items) => forall|i: int|
            #![trigger items[i]]
            0 <= i < items.len() ==> has_distinct_keys(items[i]),
        _ => true,
    }
}

/// Every value is like itself, as long as none of its objects has a key twice.
pub proof fn values_are_like_themselves(value: JsonView)
    requires
        has_distinct_keys(value),
    ensures
        json_alike(value, value),
    decreases value,
{
    match value {
        JsonView::Object(members) => {
            assert forall|i: int| #![trigger members[i]] 0 <= i < members.len() implies match position_of(
                members,
                members[i].0,
            ) {
                Some(j) => json_alike(members[i].1, members[j].1),
                None => false,
            } by {
                members_are_found_by_key(members, members[i].0, i);
                values_are_like_themselves(members[i].1);
            }
        },
        JsonView::Array(items) => {
            assert forall|i: int| #![trigger items[i]] 0 <= i < items.len() implies json_alike(items[i], items[i]) by {
                values_are_like_themselves(items[i]);
            }
        },
        _ => {},
    }
}

/// Whether a text stays on one line.
pub open spec fn unbroken(content: Seq<char>) -> bool {
    forall|i: int| 0 <= i < content.len() ==> #[trigger] content[i] != '\n'
}

proof fn lemma_unbroken_concat(left: Seq<char>, right: Seq<char>)
    requires
        unbroken(left),
        unbroken(right),
    ensures
        unbroken(left + right),
{
    let both = left + right;
    assert forall|i: int| 0 <= i < both.len() implies #[trigger] both[i] != '\n' by {
        if i < left.len() {
            assert(both[i] == left[i]);
        } else {
            assert(both[i] == right[i - left.len()]);
        }
    }
}

proof fn lemma_unbroken_notation(json: JsonView)
    requires
        is_canonical(json),
    ensures
        unbroken(notation(json, None)),
    decreases json, 1nat,
{
    match json {
        JsonView::Unsigned(value) => {
            text::lemma_decimal_ascii(value as nat);
        },
        JsonView::Signed(value) => {
            text::lemma_decimal_ascii((-value) as nat);
            lemma_unbroken_concat(seq!['-'], text::decimal((-value) as nat));
        },
        JsonView::Text(content) => {
            prompt::quotes_stay_on_one_line(content);
            assert(prompt::one_line(text::json_string(content)));
        },
        JsonView::Array(items) => {
            if items.len() > 0 {
                lemma_unbroken_items(items);
                let inner = item_notation(items, None);
                lemma_unbroken_concat(seq!['['], inner);
                lemma_unbroken_concat(seq!['['] + inner, line_break(None));
                lemma_unbroken_concat(seq!['['] + inner + line_break(None), seq![']']);
            }
        },
        JsonView::Object(members) => {
            if members.len() > 0 {
                lemma_unbroken_members(members);
                let inner = member_notation(members, None);
                lemma_unbroken_concat(seq!['{'], inner);
                lemma_unbroken_concat(seq!['{'] + inner, line_break(None));
                lemma_unbroken_concat(seq!['{'] + inner + line_break(None), seq!['}']);
            }
        },
        _ => {},
    }
}

proof fn lemma_unbroken_items(items: Seq<JsonView>)
    requires
        forall|i: int| 0 <= i < items.len() ==> is_canonical(#[trigger] items[i]),
    ensures
        unbroken(item_notation(items, None)),
    decreases items, 0nat,
{
    if items.len() > 0 {
        let rest = items.drop_last();
        let last = items[items.len() - 1];
        assert(last == items.last());
        assert forall|i: int| 0 <= i < rest.len() implies is_canonical(#[trigger] rest[i]) by {
            assert(rest[i] == items[i]);
        }
        lemma_unbroken_items(rest);
        lemma_unbroken_notation(last);
        let earlier = if items.len() == 1 {
            seq![]
        } else {
            item_notation(rest, None).push(',')
        };
        assert(unbroken(earlier));
        lemma_unbroken_concat(earlier, line_break(None));
        lemma_unbroken_concat(earlier + line_break(None), notation(last, None));
    }
}

proof fn lemma_unbroken_members(members: Seq<(Seq<char>, JsonView)>)
    requires
        forall|i: int| 0 <= i < members.len() ==> is_canonical((#[trigger] members[i]).1),
    ensures
        unbroken(member_notation(members, None)),
    decreases members, 0nat,
{
    if members.len() > 0 {
        let rest = members.drop_last();
        let last = members[members.len() - 1];
        assert(last == members.last());
        assert forall|i: int| 0 <= i < rest.len() implies is_canonical((#[trigger] rest[i]).1) by {
            assert(rest[i] == members[i]);
        }
        lemma_unbroken_members(rest);
        lemma_unbroken_notation(last.1);
        prompt::quotes_stay_on_one_line(last.0);
        let earlier = if members.len() == 1 {
            seq![]
        } else {
            member_notation(rest, None).push(',')
        };
        assert(unbroken(earlier));
        let key = text::json_string(last.0);
        assert(prompt::one_line(key));
        lemma_unbroken_concat(earlier, line_break(None));
        lemma_unbroken_concat(earlier + line_break(None), key);
        lemma_unbroken_concat(earlier + line_break(None) + key, seq![':']);
        lemma_unbroken_concat(earlier + line_break(None) + key + seq![':'], notation(last.1, None));
    }
}

/// Compact notation stays on one line, whatever the texts hold, and indented notation puts
/// every item on a line of its own.
pub proof fn compact_texts_stay_on_one_line(json: JsonView, item: JsonView)
    requires
        is_canonical(json),
        is_canonical(item),
    ensures
        unbroken(compact(json)),
        pretty(JsonView::Array(seq![item])) == seq!['[', '\n', ' ', ' '] + notation(item, Some(1)) + seq!['\n', ']'],
{
    lemma_unbroken_notation(json);
    let items = seq![item];
    assert(is_canonical(JsonView::Array(items)));
    reveal_with_fuel(item_notation, 2);
    assert(items.last() == item);
    let inner = notation(item, Some(1));
    assert(line_break(Some(1)) =~= seq!['\n', ' ', ' ']);
    assert(line_break(Some(0)) =~= seq!['\n']);
    assert(item_notation(items, Some(1)) =~= seq!['\n', ' ', ' '] + inner);
    assert(pretty(JsonView::Array(items)) =~= seq!['[', '\n', ' ', ' '] + inner + seq!['\n', ']']);
}

} // verus!
