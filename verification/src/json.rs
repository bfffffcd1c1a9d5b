//! JSON values as plain data, and the calls into the JSON engine.
use crate::text::{eq_text, text_before};
use blazingly_json::Value;
use vstd::prelude::*;
use vstd::string::*;

verus! {

/// A JSON number, kept without losing integers. Other numbers are kept in the
/// notation in which they are written.
#[derive(Debug, PartialEq, Eq)]
pub enum JsonNumber {
    Unsigned(u64),
    Negative(i64),
    Decimal(String),
}

/// A JSON value.
#[derive(Debug, PartialEq, Eq)]
pub enum JsonValue {
    Null,
    Bool(bool),
    Number(JsonNumber),
    String(String),
    Array(Vec<JsonValue>),
    Object(Vec<JsonEntry>),
}

/// One member of a JSON object.
#[derive(Debug, PartialEq, Eq)]
pub struct JsonEntry {
    pub key: String,
    pub value: JsonValue,
}

/// What a JSON number says.
pub enum NumberView {
    Unsigned(u64),
    Negative(i64),
    Decimal(Seq<char>),
}

/// What a JSON value says. An object is a map from keys to values.
pub enum JsonView {
    Null,
    Bool(bool),
    Number(NumberView),
    Text(Seq<char>),
    List(Seq<JsonView>),
    Object(Map<Seq<char>, JsonView>),
}

/// The position of the first member with a key.
pub open spec fn key_index(entries: Seq<JsonEntry>, key: Seq<char>) -> Option<int>
    decreases entries.len(),
{
    if entries.len() == 0 {
        None
    } else if entries[0].key@ == key {
        Some(0)
    } else {
        match key_index(entries.drop_first(), key) {
            Some(at) => Some(at + 1),
            None => None,
        }
    }
}

/// The view of a number.
pub open spec fn number_view(number: JsonNumber) -> NumberView {
    match number {
        JsonNumber::Unsigned(value) => NumberView::Unsigned(value),
        JsonNumber::Negative(value) => NumberView::Negative(value),
        JsonNumber::Decimal(text) => NumberView::Decimal(text@),
    }
}

/// The view of a value.
pub open spec fn json_view(value: JsonValue) -> JsonView
    decreases value,
{
    match value {
        JsonValue::Null => JsonView::Null,
        JsonValue::Bool(flag) => JsonView::Bool(flag),
        JsonValue::Number(number) => JsonView::Number(number_view(number)),
        JsonValue::String(text) => JsonView::Text(text@),
        JsonValue::Array(items) => JsonView::List(
            Seq::new(
                items@.len(),
                |i: int|
                    if 0 <= i < items@.len() {
                        json_view(items@[i])
                    } else {
                        arbitrary()
                    },
            ),
        ),
        JsonValue::Object(entries) => JsonView::Object(
            Map::new(
                |key: Seq<char>| key_index(entries@, key) is Some,
                |key: Seq<char>|
                    {
                        let at = key_index(entries@, key)->Some_0;
                        if 0 <= at < entries@.len() {
                            json_view(entries@[at].value)
                        } else {
                            arbitrary()
                        }
                    },
            ),
        ),
    }
}

impl View for JsonValue {
    type V = JsonView;

    open spec fn view(&self) -> JsonView {
        json_view(*self)
    }
}

proof fn lemma_key_index(entries: Seq<JsonEntry>, key: Seq<char>)
    ensures
        match key_index(entries, key) {
            Some(at) => 0 <= at < entries.len() && entries[at].key@ == key && forall|i: int|
                0 <= i < at ==> (#[trigger] entries[i]).key@ != key,
            None => forall|i: int| 0 <= i < entries.len() ==> (#[trigger] entries[i]).key@ != key,
        },
    decreases entries.len(),
{
    if entries.len() > 0 && entries[0].key@ != key {
        let rest = entries.drop_first();
        lemma_key_index(rest, key);
        assert forall|i: int| 0 < i < entries.len() implies entries[i] == rest[i - 1] by {}
        match key_index(rest, key) {
            Some(at) => {
                assert forall|i: int| 0 <= i < at + 1 implies (#[trigger] entries[i]).key@
                    != key by {
                    if i > 0 {
                        assert(rest[i - 1].key@ != key);
                    }
                }
            },
            None => {
                assert forall|i: int| 0 <= i < entries.len() implies (#[trigger] entries[i]).key@
                    != key by {
                    if i > 0 {
                        assert(rest[i - 1].key@ != key);
                    }
                }
            },
        }
    }
}

proof fn lemma_key_is(entries: Seq<JsonEntry>, key: Seq<char>, at: int)
    requires
        0 <= at < entries.len(),
        entries[at].key@ == key,
        forall|i: int| 0 <= i < at ==> (#[trigger] entries[i]).key@ != key,
    ensures
        key_index(entries, key) == Some(at),
{
    lemma_key_index(entries, key);
}

fn find_key(entries: &Vec<JsonEntry>, key: &str) -> (found: Option<usize>)
    ensures
        match found {
            Some(at) => key_index(entries@, key@) == Some(at as int) && at < entries@.len(),
            None => key_index(entries@, key@) is None,
        },
{
    let mut index: usize = 0;
    while index < entries.len()
        invariant
            index <= entries@.len(),
            forall|i: int| 0 <= i < index ==> (#[trigger] entries@[i]).key@ != key@,
        decreases entries@.len() - index,
    {
        if eq_text(entries[index].key.as_str(), key) {
            proof {
                lemma_key_is(entries@, key@, index as int);
            }
            return Some(index);
        }
        index += 1;
    }
    proof {
        lemma_key_index(entries@, key@);
    }
    None
}

/// The members of an object; other values have none.
pub open spec fn members(value: JsonView) -> Map<Seq<char>, JsonView> {
    match value {
        JsonView::Object(members) => members,
        _ => Map::empty(),
    }
}

impl JsonNumber {
    fn duplicate(&self) -> (copy: JsonNumber)
        ensures
            number_view(copy) == number_view(*self),
    {
        match self {
            JsonNumber::Unsigned(value) => JsonNumber::Unsigned(*value),
            JsonNumber::Negative(value) => JsonNumber::Negative(*value),
            JsonNumber::Decimal(text) => JsonNumber::Decimal(text.clone()),
        }
    }
}

impl Clone for JsonNumber {
    fn clone(&self) -> (copy: Self)
        ensures
            number_view(copy) == number_view(*self),
    {
        self.duplicate()
    }
}

impl Clone for JsonValue {
    fn clone(&self) -> (copy: Self)
        ensures
            copy@ == self@,
    {
        self.duplicate()
    }
}

impl Clone for JsonEntry {
    fn clone(&self) -> (copy: Self)
        ensures
            copy.key@ == self.key@,
            copy.value@ == self.value@,
    {
        JsonEntry { key: self.key.clone(), value: self.value.duplicate() }
    }
}

proof fn lemma_same_object(left: Seq<JsonEntry>, right: Seq<JsonEntry>, a: JsonView, b: JsonView)
    requires
        left.len() == right.len(),
        forall|i: int| 0 <= i < left.len() ==> (#[trigger] left[i]).key@ == right[i].key@,
        forall|i: int|
            0 <= i < left.len() ==> json_view((#[trigger] left[i]).value) == json_view(
                right[i].value,
            ),
        a == object_of(left),
        b == object_of(right),
    ensures
        a == b,
{
    assert forall|key: Seq<char>| key_index(left, key) == key_index(right, key) by {
        lemma_key_index(left, key);
        lemma_key_index(right, key);
        match key_index(left, key) {
            Some(at) => {
                assert(right[at].key@ == key);
                assert forall|i: int| 0 <= i < at implies (#[trigger] right[i]).key@ != key by {
                    assert(left[i].key@ == right[i].key@);
                }
                lemma_key_is(right, key, at);
            },
            None => {
                match key_index(right, key) {
                    Some(at) => {
                        assert(left[at].key@ == right[at].key@);
                    },
                    None => {},
                }
            },
        }
    }
    assert forall|key: Seq<char>| key_index(left, key) is Some implies members(a)[key]
        == members(b)[key] by {
        lemma_key_index(left, key);
        let at = key_index(left, key)->Some_0;
        assert(json_view(left[at].value) == json_view(right[at].value));
    }
    assert(members(a) =~= members(b));
}

/// The object with these members.
pub open spec fn object_of(entries: Seq<JsonEntry>) -> JsonView {
    JsonView::Object(
        Map::new(
            |key: Seq<char>| key_index(entries, key) is Some,
            |key: Seq<char>|
                {
                    let at = key_index(entries, key)->Some_0;
                    if 0 <= at < entries.len() {
                        json_view(entries[at].value)
                    } else {
                        arbitrary()
                    }
                },
        ),
    )
}

/// The list with these items.
pub open spec fn list_of(items: Seq<JsonValue>) -> JsonView {
    JsonView::List(items.map_values(|item: JsonValue| json_view(item)))
}

proof fn lemma_object_view(entries: Vec<JsonEntry>)
    ensures
        json_view(JsonValue::Object(entries)) == object_of(entries@),
{
    assert(members(json_view(JsonValue::Object(entries))) =~= members(object_of(entries@)));
}

pub proof fn lemma_list_view(items: Vec<JsonValue>)
    ensures
        json_view(JsonValue::Array(items)) == list_of(items@),
{
    match json_view(JsonValue::Array(items)) {
        JsonView::List(views) => {
            assert(views =~= items@.map_values(|item: JsonValue| json_view(item)));
        },
        _ => {},
    }
}

impl JsonValue {
    fn duplicate(&self) -> (copy: JsonValue)
        ensures
            copy@ == self@,
        decreases self,
    {
        match self {
            JsonValue::Null => JsonValue::Null,
            JsonValue::Bool(flag) => JsonValue::Bool(*flag),
            JsonValue::Number(number) => JsonValue::Number(number.duplicate()),
            JsonValue::String(text) => JsonValue::String(text.clone()),
            JsonValue::Array(items) => {
                let copies = duplicate_items(items);
                proof {
                    lemma_list_view(copies);
                    lemma_list_view(*items);
                    assert(copies@.map_values(|item: JsonValue| json_view(item))
                        =~= items@.map_values(|item: JsonValue| json_view(item)));
                }
                JsonValue::Array(copies)
            },
            JsonValue::Object(entries) => {
                let copies = duplicate_entries(entries);
                proof {
                    lemma_object_view(copies);
                    lemma_object_view(*entries);
                    lemma_same_object(
                        copies@,
                        entries@,
                        object_of(copies@),
                        object_of(entries@),
                    );
                }
                JsonValue::Object(copies)
            },
        }
    }

    /// A text.
    pub fn text(text: &str) -> (value: JsonValue)
        ensures
            value@ == JsonView::Text(text@),
    {
        JsonValue::String(text.to_owned())
    }

    /// A non-negative integer.
    pub fn unsigned(number: u64) -> (value: JsonValue)
        ensures
            value@ == JsonView::Number(NumberView::Unsigned(number)),
    {
        JsonValue::Number(JsonNumber::Unsigned(number))
    }

    /// A flag.
    pub fn flag(flag: bool) -> (value: JsonValue)
        ensures
            value@ == JsonView::Bool(flag),
    {
        JsonValue::Bool(flag)
    }

    /// A list.
    pub fn list(items: Vec<JsonValue>) -> (value: JsonValue)
        ensures
            value@ == list_of(items@),
    {
        proof {
            lemma_list_view(items);
        }
        JsonValue::Array(items)
    }

    /// An object without members.
    pub fn object() -> (value: JsonValue)
        ensures
            value@ == JsonView::Object(Map::empty()),
    {
        let entries: Vec<JsonEntry> = Vec::new();
        proof {
            lemma_object_view(entries);
            assert(members(object_of(entries@)) =~= Map::empty());
        }
        JsonValue::Object(entries)
    }

    /// Reports whether the value is `null`.
    pub fn is_null(&self) -> (null: bool)
        ensures
            null == (self@ == JsonView::Null),
    {
        match self {
            JsonValue::Null => true,
            _ => false,
        }
    }

    /// Reports whether the value is an object.
    pub fn is_object(&self) -> (object: bool)
        ensures
            object == (self@ is Object),
    {
        match self {
            JsonValue::Object(_) => true,
            _ => false,
        }
    }

    /// Reports whether the value is an object without members.
    pub fn is_empty_object(&self) -> (empty: bool)
        ensures
            empty == (self@ == JsonView::Object(Map::empty())),
    {
        match self {
            JsonValue::Object(entries) => {
                proof {
                    lemma_object_view(*entries);
                    let view = members(self@);
                    if entries@.len() == 0 {
                        assert(view =~= Map::empty());
                    } else {
                        let key = entries@[0].key@;
                        assert(key_index(entries@, key) == Some(0int));
                        assert(view.contains_key(key));
                        assert(!Map::<Seq<char>, JsonView>::empty().contains_key(key));
                    }
                }
                entries.len() == 0
            },
            _ => false,
        }
    }

    /// The text of a string value.
    pub fn as_str(&self) -> (text: Option<&str>)
        ensures
            match text {
                Some(text) => self@ == JsonView::Text(text@),
                None => !(self@ is Text),
            },
    {
        match self {
            JsonValue::String(text) => Some(text.as_str()),
            _ => None,
        }
    }

    /// The member of an object with a key.
    pub fn get(&self, key: &str) -> (member: Option<&JsonValue>)
        ensures
            match member {
                Some(value) => members(self@).contains_key(key@) && members(self@)[key@] == value@,
                None => !members(self@).contains_key(key@),
            },
    {
        match self {
            JsonValue::Object(entries) => {
                proof {
                    lemma_object_view(*entries);
                }
                match find_key(entries, key) {
                    Some(at) => Some(&entries[at].value),
                    None => None,
                }
            },
            _ => None,
        }
    }

    /// Sets a member in place, as `with` does.
    pub fn set(&mut self, key: &str, value: JsonValue)
        ensures
            final(self)@ == JsonView::Object(members(old(self)@).insert(key@, value@)),
    {
        let mut object = JsonValue::Null;
        std::mem::swap(&mut object, self);
        *self = object.with(key, value);
    }

    /// Sets a member of an object, replacing the one with the same key. Other
    /// values are turned into an object first, as `null` is.
    pub fn with(self, key: &str, value: JsonValue) -> (object: JsonValue)
        ensures
            object@ == JsonView::Object(members(self@).insert(key@, value@)),
    {
        let ghost before = members(self@);
        let entries = match self {
            JsonValue::Object(entries) => entries,
            _ => Vec::new(),
        };
        let ghost start = entries@;
        proof {
            lemma_object_view(entries);
            assert(members(object_of(start)) =~= before);
        }
        let mut entries = entries;
        let ghost view = value@;
        match find_key(&entries, key) {
            Some(at) => {
                proof {
                    lemma_key_index(start, key@);
                }
                let entry = entries.remove(at);
                entries.insert(at, JsonEntry { key: entry.key, value });
                proof {
                    lemma_replaced(start, entries@, at as int, key@, view);
                }
            },
            None => {
                proof {
                    lemma_key_index(start, key@);
                }
                let mut at: usize = 0;
                while at < entries.len() && text_before(entries[at].key.as_str(), key)
                    invariant
                        at <= entries@.len(),
                        entries@ == start,
                    decreases entries@.len() - at,
                {
                    at += 1;
                }
                entries.insert(at, JsonEntry { key: key.to_owned(), value });
                proof {
                    lemma_added(start, entries@, at as int, key@, view);
                }
            },
        }
        proof {
            lemma_object_view(entries);
        }
        JsonValue::Object(entries)
    }
}

fn duplicate_items(items: &Vec<JsonValue>) -> (copies: Vec<JsonValue>)
    ensures
        copies@.len() == items@.len(),
        forall|i: int|
            0 <= i < items@.len() ==> json_view(#[trigger] copies@[i]) == json_view(items@[i]),
    decreases items,
{
    let mut copies: Vec<JsonValue> = Vec::new();
    let mut index: usize = 0;
    while index < items.len()
        invariant
            index <= items@.len(),
            copies@.len() == index,
            forall|i: int|
                0 <= i < index ==> json_view(#[trigger] copies@[i]) == json_view(items@[i]),
        decreases items@.len() - index,
    {
        copies.push(items[index].duplicate());
        index += 1;
    }
    copies
}

fn duplicate_entries(entries: &Vec<JsonEntry>) -> (copies: Vec<JsonEntry>)
    ensures
        copies@.len() == entries@.len(),
        forall|i: int|
            0 <= i < entries@.len() ==> (#[trigger] copies@[i]).key@ == entries@[i].key@,
        forall|i: int|
            0 <= i < entries@.len() ==> json_view((#[trigger] copies@[i]).value) == json_view(
                entries@[i].value,
            ),
    decreases entries,
{
    let mut copies: Vec<JsonEntry> = Vec::new();
    let mut index: usize = 0;
    while index < entries.len()
        invariant
            index <= entries@.len(),
            copies@.len() == index,
            forall|i: int| 0 <= i < index ==> (#[trigger] copies@[i]).key@ == entries@[i].key@,
            forall|i: int|
                0 <= i < index ==> json_view((#[trigger] copies@[i]).value) == json_view(
                    entries@[i].value,
                ),
        decreases entries@.len() - index,
    {
        let entry = &entries[index];
        copies.push(JsonEntry { key: entry.key.clone(), value: entry.value.duplicate() });
        index += 1;
    }
    copies
}

proof fn lemma_replaced(
    before: Seq<JsonEntry>,
    after: Seq<JsonEntry>,
    at: int,
    key: Seq<char>,
    view: JsonView,
)
    requires
        key_index(before, key) == Some(at),
        0 <= at < before.len(),
        after.len() == before.len(),
        after[at].key@ == key,
        json_view(after[at].value) == view,
        forall|i: int| 0 <= i < before.len() && i != at ==> after[i] == before[i],
    ensures
        object_of(after) == JsonView::Object(members(object_of(before)).insert(key, view)),
{
    lemma_key_index(before, key);
    assert forall|other: Seq<char>| key_index(after, other) == key_index(before, other) by {
        lemma_key_index(before, other);
        lemma_key_index(after, other);
        assert forall|i: int| 0 <= i < before.len() implies (#[trigger] after[i]).key@
            == before[i].key@ by {
            if i != at {
                assert(after[i] == before[i]);
            }
        }
        match key_index(before, other) {
            Some(place) => {
                assert(after[place].key@ == other);
                lemma_key_is(after, other, place);
            },
            None => {
                match key_index(after, other) {
                    Some(place) => {
                        assert(before[place].key@ == after[place].key@);
                    },
                    None => {},
                }
            },
        }
    }
    let expected = members(object_of(before)).insert(key, view);
    assert forall|other: Seq<char>| expected.contains_key(other) implies members(
        object_of(after),
    )[other] == expected[other] by {
        lemma_key_index(before, other);
        if other != key {
            let place = key_index(before, other)->Some_0;
            assert(place != at);
            assert(after[place] == before[place]);
        }
    }
    assert(members(object_of(after)) =~= expected);
}

proof fn lemma_added(
    before: Seq<JsonEntry>,
    after: Seq<JsonEntry>,
    at: int,
    key: Seq<char>,
    view: JsonView,
)
    requires
        key_index(before, key) is None,
        0 <= at <= before.len(),
        after.len() == before.len() + 1,
        after[at].key@ == key,
        json_view(after[at].value) == view,
        forall|i: int| 0 <= i < at ==> after[i] == before[i],
        forall|i: int| at <= i < before.len() ==> #[trigger] after[i + 1] == before[i],
    ensures
        object_of(after) == JsonView::Object(members(object_of(before)).insert(key, view)),
{
    lemma_key_index(before, key);
    assert forall|i: int| at < i < after.len() implies (#[trigger] after[i]) == before[i - 1] by {
        assert(after[(i - 1) + 1] == before[i - 1]);
    }
    assert forall|other: Seq<char>| other != key implies key_index(after, other) == match key_index(
        before,
        other,
    ) {
        Some(place) => Some(
            if place < at {
                place
            } else {
                place + 1
            },
        ),
        None => None,
    } by {
        lemma_key_index(before, other);
        lemma_key_index(after, other);
        match key_index(before, other) {
            Some(place) => {
                let target = if place < at {
                    place
                } else {
                    place + 1
                };
                assert(after[target] == before[place]);
                assert forall|i: int| 0 <= i < target implies (#[trigger] after[i]).key@
                    != other by {
                    if i < at {
                        assert(after[i] == before[i]);
                        assert(before[i].key@ != other);
                    } else if i > at {
                        assert(after[i] == before[i - 1]);
                        assert(before[i - 1].key@ != other);
                    }
                }
                lemma_key_is(after, other, target);
            },
            None => {
                match key_index(after, other) {
                    Some(place) => {
                        if place < at {
                            assert(after[place] == before[place]);
                            assert(before[place].key@ != other);
                        } else if place > at {
                            assert(after[place] == before[place - 1]);
                            assert(before[place - 1].key@ != other);
                        }
                    },
                    None => {},
                }
            },
        }
    }
    assert(key_index(after, key) == Some(at)) by {
        assert forall|i: int| 0 <= i < at implies (#[trigger] after[i]).key@ != key by {
            assert(after[i] == before[i]);
            assert(before[i].key@ != key);
        }
        lemma_key_is(after, key, at);
    }
    let expected = members(object_of(before)).insert(key, view);
    assert forall|other: Seq<char>| members(object_of(after)).contains_key(other)
        == expected.contains_key(other) by {}
    assert forall|other: Seq<char>| expected.contains_key(other) implies members(
        object_of(after),
    )[other] == expected[other] by {
        if other != key {
            lemma_key_index(before, other);
            let place = key_index(before, other)->Some_0;
            if place < at {
                assert(after[place] == before[place]);
            } else {
                assert(after[place + 1] == before[place]);
            }
        }
    }
    assert(members(object_of(after)) =~= expected);
}

// ---------------------------------------------------------------------------
// The JSON engine
// ---------------------------------------------------------------------------

/// `blazingly_json::Value`, the value type of the JSON engine, is only carried
/// between the calls below.
#[verifier::external_type_specification]
#[verifier::external_body]
pub struct ExEngineValue(blazingly_json::Value);

/// A value of the JSON engine with the same contents. Where a key occurs twice
/// the first member counts, and a decimal is read back from its notation.
#[verifier::external_body]
fn engine_value(value: &JsonValue) -> Value {
    match value {
        JsonValue::Null => Value::Null,
        JsonValue::Bool(flag) => Value::Bool(*flag),
        JsonValue::Number(JsonNumber::Unsigned(number)) => Value::from(*number),
        JsonValue::Number(JsonNumber::Negative(number)) => Value::from(*number),
        JsonValue::Number(JsonNumber::Decimal(text)) => blazingly_json::from_str(text).unwrap_or_default(),
        JsonValue::String(text) => Value::String(text.clone()),
        JsonValue::Array(list) => Value::Array(list.iter().map(engine_value).collect()),
        JsonValue::Object(list) => Value::Object(
            list.iter().rev().map(|e| (e.key.clone(), engine_value(&e.value))).collect(),
        ),
    }
}

/// The plain form of a value of the JSON engine, member by member in key
/// order.
#[verifier::external_body]
fn plain_value(value: &Value) -> JsonValue {
    match value {
        Value::Null => JsonValue::Null,
        Value::Bool(flag) => JsonValue::Bool(*flag),
        Value::Number(number) => JsonValue::Number(plain_number(number)),
        Value::String(text) => JsonValue::String(text.clone()),
        Value::Array(list) => JsonValue::Array(list.iter().map(plain_value).collect()),
        Value::Object(map) => JsonValue::Object(
            map.iter().map(|(k, v)| JsonEntry { key: k.clone(), value: plain_value(v) }).collect(),
        ),
    }
}

/// `blazingly_json::Number`, a number of the JSON engine, is only carried into
/// its plain form.
#[verifier::external_type_specification]
#[verifier::external_body]
pub struct ExEngineNumber(blazingly_json::Number);

/// The plain form of a number of the JSON engine: an integer where it is one,
/// and its notation otherwise.
#[verifier::external_body]
fn plain_number(number: &blazingly_json::Number) -> JsonNumber {
    match (number.as_u64(), number.as_i64()) {
        (Some(value), _) => JsonNumber::Unsigned(value),
        (None, Some(value)) => JsonNumber::Negative(value),
        (None, None) => JsonNumber::Decimal(number.to_string()),
    }
}

/// What a JSON text says, where it is one.
pub uninterp spec fn parsed_json(text: Seq<char>) -> Option<JsonView>;

/// The compact notation of a value, where the engine can write it.
pub uninterp spec fn compact_json(value: JsonView) -> Option<Seq<char>>;

/// The indented notation of a value, where the engine can write it.
pub uninterp spec fn pretty_json(value: JsonView) -> Option<Seq<char>>;

/// A value without parts: `null`, a flag, an integer or a text.
pub open spec fn is_scalar(value: JsonView) -> bool {
    match value {
        JsonView::Null | JsonView::Bool(_) | JsonView::Text(_) => true,
        JsonView::Number(NumberView::Unsigned(_)) => true,
        JsonView::Number(NumberView::Negative(number)) => number < 0,
        _ => false,
    }
}

/// `blazingly_json::from_str` reads one complete JSON value from a text.
/// Nothing is claimed of the grammar beyond its dependence on the text alone.
#[verifier::external_body]
pub(crate) fn parse_json(text: &str) -> (value: Option<JsonValue>)
    ensures
        match value {
            Some(value) => parsed_json(text@) == Some(value@),
            None => parsed_json(text@) is None,
        },
{
    let value: Value = blazingly_json::from_str(text).ok()?;
    Some(plain_value(&value))
}

/// `blazingly_json::to_string` writes a value in compact notation. The
/// notation of a value without parts reads back as that value.
#[verifier::external_body]
pub(crate) fn compact_text(value: &JsonValue) -> (text: Option<String>)
    ensures
        match text {
            Some(text) => compact_json(value@) == Some(text@),
            None => compact_json(value@) is None,
        },
        is_scalar(value@) ==> (text matches Some(text) && parsed_json(text@) == Some(value@)),
{
    blazingly_json::to_string(&engine_value(value)).ok()
}

/// `blazingly_json::to_string_pretty` writes a value in indented notation.
/// Nothing is claimed of the layout beyond its dependence on the value alone.
#[verifier::external_body]
pub(crate) fn pretty_text(value: &JsonValue) -> (text: Option<String>)
    ensures
        match text {
            Some(text) => pretty_json(value@) == Some(text@),
            None => pretty_json(value@) is None,
        },
{
    blazingly_json::to_string_pretty(&engine_value(value)).ok()
}

} // verus!
