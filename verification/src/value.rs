//! JSON values: their mathematical model, lookup, comparison, reading and writing.
use crate::map::{lemma_zip_push, text_map, zip_map, StringMap};
use crate::text::same_text;
use vstd::prelude::*;

verus! {

/// The value type of `serde_json`.
#[verifier::external_type_specification]
#[verifier::external_body]
pub struct ExValue(serde_json::Value);

/// The number type of `serde_json`.
#[verifier::external_type_specification]
#[verifier::external_body]
pub struct ExNumber(serde_json::Number);

/// The error type of `serde_json`.
#[verifier::external_type_specification]
#[verifier::external_body]
pub struct ExJsonError(serde_json::Error);

/// A JSON value. The members of an object keep the order in which they were written.
#[derive(Debug)]
pub enum Json {
    Null,
    Bool(bool),
    Number(serde_json::Number),
    Text(String),
    Array(Vec<Json>),
    Object(Vec<(String, Json)>),
}

/// What a JSON value is: a number is the text it is written as.
#[verifier::ext_equal]
pub enum JsonModel {
    Null,
    Bool(bool),
    Number(Seq<char>),
    Text(Seq<char>),
    Array(Seq<JsonModel>),
    Object(Seq<(Seq<char>, JsonModel)>),
}

/// The text that `serde_json` writes for a number.
pub uninterp spec fn number_text(number: serde_json::Number) -> Seq<char>;

/// The content of a `serde_json` value.
pub uninterp spec fn value_model(value: serde_json::Value) -> JsonModel;

/// The value that `serde_json` reads from a text, where the text is a JSON document.
pub uninterp spec fn json_document(text: Seq<char>) -> Option<JsonModel>;

/// The bytes that `serde_json` writes for a value, indented by two spaces.
pub uninterp spec fn pretty_encoding(value: JsonModel) -> Seq<u8>;

/// The text that `serde_json` writes for a value without white space between tokens.
pub uninterp spec fn compact_encoding(value: JsonModel) -> Seq<char>;

/// The members of an object.
pub open spec fn members(entries: Seq<(String, Json)>) -> Seq<(Seq<char>, JsonModel)> {
    Seq::new(entries.len(), |i: int| (entries[i].0@, entries[i].1.model()))
}

/// The items of an array.
pub open spec fn items(list: Seq<Json>) -> Seq<JsonModel> {
    Seq::new(list.len(), |i: int| list[i].model())
}

impl Json {
    /// What the value is.
    pub open spec fn model(self) -> JsonModel
        decreases self,
    {
        match self {
            Json::Null => JsonModel::Null,
            Json::Bool(flag) => JsonModel::Bool(flag),
            Json::Number(number) => JsonModel::Number(number_text(number)),
            Json::Text(text) => JsonModel::Text(text@),
            Json::Array(list) => JsonModel::Array(
                Seq::new(
                    list@.len(),
                    |i: int|
                        if 0 <= i < list@.len() {
                            list@[i].model()
                        } else {
                            JsonModel::Null
                        },
                ),
            ),
            Json::Object(entries) => JsonModel::Object(
                Seq::new(
                    entries@.len(),
                    |i: int|
                        if 0 <= i < entries@.len() {
                            (entries@[i].0@, entries@[i].1.model())
                        } else {
                            (Seq::empty(), JsonModel::Null)
                        },
                ),
            ),
        }
    }
}

/// The model of an array and of an object, item by item.
pub proof fn lemma_model(value: Json)
    ensures
        value is Array ==> value.model() == JsonModel::Array(items(value->Array_0@)),
        value is Object ==> value.model() == JsonModel::Object(members(value->Object_0@)),
{
    match value {
        Json::Array(list) => {
            assert(value.model()->Array_0 =~= items(list@));
        },
        Json::Object(entries) => {
            assert(value.model()->Object_0 =~= members(entries@));
        },
        _ => {},
    }
}

/// The value of a key: that of the first member with the key.
pub open spec fn lookup(entries: Seq<(Seq<char>, JsonModel)>, key: Seq<char>) -> Option<JsonModel>
    decreases entries.len(),
{
    if entries.len() == 0 {
        None
    } else if entries[0].0 == key {
        Some(entries[0].1)
    } else {
        lookup(entries.drop_first(), key)
    }
}

/// Whether an object has a key.
pub open spec fn has_key(entries: Seq<(Seq<char>, JsonModel)>, key: Seq<char>) -> bool {
    lookup(entries, key) is Some
}

/// The keys of an object.
pub open spec fn keys(entries: Seq<(Seq<char>, JsonModel)>) -> Seq<Seq<char>> {
    Seq::new(entries.len(), |i: int| entries[i].0)
}

/// The first member with a key gives the key's value.
pub proof fn lemma_lookup_first(entries: Seq<(Seq<char>, JsonModel)>, key: Seq<char>, at: int)
    requires
        0 <= at < entries.len(),
        entries[at].0 == key,
        forall|i: int| 0 <= i < at ==> (#[trigger] entries[i]).0 != key,
    ensures
        lookup(entries, key) == Some(entries[at].1),
    decreases at,
{
    if at > 0 {
        assert(entries[0].0 != key);
        let rest = entries.drop_first();
        assert forall|i: int| 0 <= i < at - 1 implies (#[trigger] rest[i]).0 != key by {
            assert(rest[i] == entries[i + 1]);
        }
        lemma_lookup_first(rest, key, at - 1);
    }
}

/// A key that no member has gives no value.
pub proof fn lemma_lookup_absent(entries: Seq<(Seq<char>, JsonModel)>, key: Seq<char>)
    requires
        forall|i: int| 0 <= i < entries.len() ==> (#[trigger] entries[i]).0 != key,
    ensures
        lookup(entries, key) is None,
    decreases entries.len(),
{
    if entries.len() > 0 {
        assert(entries[0].0 != key);
        let rest = entries.drop_first();
        assert forall|i: int| 0 <= i < rest.len() implies (#[trigger] rest[i]).0 != key by {
            assert(rest[i] == entries[i + 1]);
        }
        lemma_lookup_absent(rest, key);
    }
}

/// A key that gives a value stands at some position, and the value with it.
pub proof fn lemma_lookup_position(entries: Seq<(Seq<char>, JsonModel)>, key: Seq<char>) -> (at: int)
    requires
        lookup(entries, key) is Some,
    ensures
        0 <= at < entries.len(),
        entries[at].0 == key,
        lookup(entries, key) == Some(entries[at].1),
        forall|i: int| 0 <= i < at ==> (#[trigger] entries[i]).0 != key,
    decreases entries.len(),
{
    if entries[0].0 == key {
        0
    } else {
        let rest = entries.drop_first();
        let at = lemma_lookup_position(rest, key);
        assert forall|i: int| 0 <= i < at + 1 implies (#[trigger] entries[i]).0 != key by {
            if i > 0 {
                assert(rest[i - 1] == entries[i]);
            }
        }
        at + 1
    }
}

/// Among distinct keys, each member gives the value of its key.
pub proof fn lemma_lookup_distinct(entries: Seq<(Seq<char>, JsonModel)>, at: int)
    requires
        keys(entries).no_duplicates(),
        0 <= at < entries.len(),
    ensures
        lookup(entries, entries[at].0) == Some(entries[at].1),
{
    assert forall|i: int| 0 <= i < at implies (#[trigger] entries[i]).0 != entries[at].0 by {
        assert(keys(entries)[i] != keys(entries)[at]);
    }
    lemma_lookup_first(entries, entries[at].0, at);
}

/// A key that some member has gives a value.
pub proof fn lemma_present(entries: Seq<(Seq<char>, JsonModel)>, key: Seq<char>, at: int)
    requires
        0 <= at < entries.len(),
        entries[at].0 == key,
    ensures
        has_key(entries, key),
    decreases entries.len(),
{
    if entries[0].0 != key {
        let rest = entries.drop_first();
        assert(rest[at - 1] == entries[at]);
        lemma_present(rest, key, at - 1);
    }
}

/// Members whose keys differ from each other have distinct keys.
pub proof fn lemma_keys_distinct(entries: Seq<(Seq<char>, JsonModel)>)
    requires
        forall|i: int, j: int|
            0 <= i < j < entries.len() ==> (#[trigger] entries[i]).0 != (#[trigger] entries[j]).0,
    ensures
        keys(entries).no_duplicates(),
{
    assert forall|i: int, j: int|
        0 <= i < keys(entries).len() && 0 <= j < keys(entries).len() && i != j implies keys(
        entries,
    )[i] != keys(entries)[j] by {
        if i < j {
            assert(entries[i].0 != entries[j].0);
        } else {
            assert(entries[j].0 != entries[i].0);
        }
    }
}

/// No object in the value has a key twice.
pub open spec fn well_formed(value: JsonModel) -> bool
    decreases value,
{
    match value {
        JsonModel::Array(list) => forall|i: int|
            0 <= i < list.len() ==> well_formed(#[trigger] list[i]),
        JsonModel::Object(entries) => {
            &&& keys(entries).no_duplicates()
            &&& forall|i: int| 0 <= i < entries.len() ==> well_formed((#[trigger] entries[i]).1)
        },
        _ => true,
    }
}

/// Whether arrays and objects are nested in the value at most `limit` levels deep.
pub open spec fn nested_within(value: JsonModel, limit: nat) -> bool
    decreases value,
{
    match value {
        JsonModel::Array(list) => limit > 0 && forall|i: int|
            0 <= i < list.len() ==> nested_within(#[trigger] list[i], (limit - 1) as nat),
        JsonModel::Object(entries) => limit > 0 && forall|i: int|
            0 <= i < entries.len() ==> nested_within((#[trigger] entries[i]).1, (limit - 1) as nat),
        _ => true,
    }
}

/// An object is nested one level deeper than its members.
pub proof fn lemma_nested_object(entries: Seq<(Seq<char>, JsonModel)>, limit: nat)
    requires
        limit > 0,
        forall|i: int|
            0 <= i < entries.len() ==> nested_within((#[trigger] entries[i]).1, (limit - 1) as nat),
    ensures
        nested_within(JsonModel::Object(entries), limit),
{
}

/// An array is nested one level deeper than its items.
pub proof fn lemma_nested_array(list: Seq<JsonModel>, limit: nat)
    requires
        limit > 0,
        forall|i: int| 0 <= i < list.len() ==> nested_within(#[trigger] list[i], (limit - 1) as nat),
    ensures
        nested_within(JsonModel::Array(list), limit),
{
}

/// A value that is neither an array nor an object is not nested.
pub proof fn lemma_not_nested(value: JsonModel, limit: nat)
    requires
        !(value is Array),
        !(value is Object),
    ensures
        nested_within(value, limit),
{
}

/// Whether bytes are a text that is read as a value.
pub open spec fn holds_document(bytes: Seq<u8>, value: JsonModel) -> bool {
    forall|text: Seq<char>| #[trigger]
        vstd::utf8::encode_utf8(text) == bytes ==> json_document(text) == Some(value)
}

/// Whether a number is written as a floating-point zero.
pub open spec fn zero_text(text: Seq<char>) -> bool {
    text == seq!['0', '.', '0'] || text == seq!['-', '0', '.', '0']
}

/// Whether two numbers are equal: they are written alike, or both are floating-point zeros.
pub open spec fn same_number_text(a: Seq<char>, b: Seq<char>) -> bool {
    a == b || (zero_text(a) && zero_text(b))
}

/// Whether two values are equal; the order of an object's members does not matter.
pub open spec fn same_value(a: JsonModel, b: JsonModel) -> bool
    decreases a,
{
    match (a, b) {
        (JsonModel::Null, JsonModel::Null) => true,
        (JsonModel::Bool(x), JsonModel::Bool(y)) => x == y,
        (JsonModel::Number(x), JsonModel::Number(y)) => same_number_text(x, y),
        (JsonModel::Text(x), JsonModel::Text(y)) => x == y,
        (JsonModel::Array(x), JsonModel::Array(y)) => x.len() == y.len() && forall|i: int|
            0 <= i < x.len() ==> same_value(#[trigger] x[i], y[i]),
        (JsonModel::Object(x), JsonModel::Object(y)) => x.len() == y.len() && forall|i: int|
            0 <= i < x.len() ==> has_key(y, (#[trigger] x[i]).0) && same_value(
                x[i].1,
                lookup(y, x[i].0)->0,
            ),
        _ => false,
    }
}

/// Every well-formed value equals itself.
pub proof fn lemma_same_value_reflexive(a: JsonModel)
    requires
        well_formed(a),
    ensures
        same_value(a, a),
    decreases a,
{
    match a {
        JsonModel::Array(list) => {
            assert forall|i: int| 0 <= i < list.len() implies same_value(#[trigger] list[i], list[i]) by {
                lemma_same_value_reflexive(list[i]);
            }
        },
        JsonModel::Object(entries) => {
            assert forall|i: int| 0 <= i < entries.len() implies has_key(
                entries,
                (#[trigger] entries[i]).0,
            ) && same_value(entries[i].1, lookup(entries, entries[i].0)->0) by {
                lemma_lookup_distinct(entries, i);
                lemma_same_value_reflexive(entries[i].1);
            }
        },
        _ => {},
    }
}

/// `serde_json::Number` implements `Clone`: the copy is the same number.
#[verifier::external_body]
fn clone_number(number: &serde_json::Number) -> (copy: serde_json::Number)
    ensures
        number_text(copy) == number_text(*number),
{
    number.clone()
}

/// `serde_json::Number` implements `PartialEq`: integers are equal when their digits and sign
/// are, floating-point numbers when they compare equal, which apart from the two zeros means
/// that they are written alike; an integer never equals a floating-point number.
#[verifier::external_body]
fn same_number(a: &serde_json::Number, b: &serde_json::Number) -> (same: bool)
    ensures
        same == same_number_text(number_text(*a), number_text(*b)),
{
    a == b
}

/// `serde_json::Number` implements `Display`: the text is the one that the number is written as.
#[verifier::external_body]
fn write_number(number: &serde_json::Number) -> (text: String)
    ensures
        text@ == number_text(*number),
{
    number.to_string()
}

/// `serde_json::Number: From<u64>` gives the integer, which is written in decimal digits.
#[verifier::external_body]
fn number_from(number: u64) -> (result: serde_json::Number)
    ensures
        number_text(result) == crate::text::decimal(number as nat),
{
    serde_json::Number::from(number)
}

/// The text that `serde_json` shows for an error.
pub uninterp spec fn json_error_text(error: serde_json::Error) -> Seq<char>;

/// `serde_json::Error` implements `Display`; the text is a function of the error and is referred
/// to by name.
#[verifier::external_body]
pub(crate) fn show_json_error(error: &serde_json::Error) -> (text: String)
    ensures
        text@ == json_error_text(*error),
{
    error.to_string()
}

/// The outermost layer of a `serde_json` value.
pub enum Layer {
    Null,
    Bool(bool),
    Number(serde_json::Number),
    Text(String),
    Array(Vec<serde_json::Value>),
    Object(Vec<(String, serde_json::Value)>),
}

/// The members that a layer of values stands for.
pub open spec fn layer_members(
    entries: Seq<(String, serde_json::Value)>,
) -> Seq<(Seq<char>, JsonModel)> {
    Seq::new(entries.len(), |i: int| (entries[i].0@, value_model(entries[i].1)))
}

/// The items that a layer of values stands for.
pub open spec fn layer_items(list: Seq<serde_json::Value>) -> Seq<JsonModel> {
    Seq::new(list.len(), |i: int| value_model(list[i]))
}

impl Layer {
    /// What the layer is.
    pub open spec fn model(self) -> JsonModel {
        match self {
            Layer::Null => JsonModel::Null,
            Layer::Bool(flag) => JsonModel::Bool(flag),
            Layer::Number(number) => JsonModel::Number(number_text(number)),
            Layer::Text(text) => JsonModel::Text(text@),
            Layer::Array(list) => JsonModel::Array(layer_items(list@)),
            Layer::Object(entries) => JsonModel::Object(layer_members(entries@)),
        }
    }

    /// Whether no key of the layer occurs twice.
    pub open spec fn keys_distinct(self) -> bool {
        match self {
            Layer::Object(entries) => keys(layer_members(entries@)).no_duplicates(),
            _ => true,
        }
    }
}

/// Takes a `serde_json::Value` apart, one arm for each of its variants; `serde_json::Map`
/// yields its members in order and holds each key once.
#[verifier::external_body]
fn value_layer(value: serde_json::Value) -> (layer: Layer)
    ensures
        layer.model() == value_model(value),
        layer.keys_distinct(),
{
    match value {
        serde_json::Value::Null => Layer::Null,
        serde_json::Value::Bool(flag) => Layer::Bool(flag),
        serde_json::Value::Number(number) => Layer::Number(number),
        serde_json::Value::String(text) => Layer::Text(text),
        serde_json::Value::Array(list) => Layer::Array(list),
        serde_json::Value::Object(map) => Layer::Object(map.into_iter().collect()),
    }
}

/// Builds a `serde_json::Value`, one arm for each of its variants; `serde_json::Map` keeps
/// members with distinct keys in the order in which they come.
#[verifier::external_body]
fn value_from_layer(layer: Layer) -> (value: serde_json::Value)
    requires
        layer.keys_distinct(),
    ensures
        value_model(value) == layer.model(),
{
    match layer {
        Layer::Null => serde_json::Value::Null,
        Layer::Bool(flag) => serde_json::Value::Bool(flag),
        Layer::Number(number) => serde_json::Value::Number(number),
        Layer::Text(text) => serde_json::Value::String(text),
        Layer::Array(list) => serde_json::Value::Array(list),
        Layer::Object(entries) => serde_json::Value::Object(entries.into_iter().collect()),
    }
}

/// `serde_json::from_str` reads a JSON document; the outcome is a function of the text and is
/// referred to by name. Arrays and objects nested deeper than 127 levels are refused.
#[verifier::external_body]
fn read_document(text: &str) -> (outcome: Result<serde_json::Value, serde_json::Error>)
    ensures
        outcome is Ok <==> json_document(text@) is Some,
        outcome is Ok ==> json_document(text@) == Some(value_model(outcome->Ok_0)),
        outcome is Ok ==> nested_within(value_model(outcome->Ok_0), 127),
{
    serde_json::from_str(text)
}

/// The value that `serde_json` reads from bytes, where they are a JSON document.
pub uninterp spec fn json_bytes(bytes: Seq<u8>) -> Option<JsonModel>;

/// `serde_json::from_slice` reads a JSON document; the outcome is a function of the bytes and is
/// referred to by name.
#[verifier::external_body]
fn read_bytes(bytes: &[u8]) -> (outcome: Result<serde_json::Value, serde_json::Error>)
    ensures
        outcome is Ok <==> json_bytes(bytes@) is Some,
        outcome is Ok ==> json_bytes(bytes@) == Some(value_model(outcome->Ok_0)),
{
    serde_json::from_slice(bytes)
}

/// `serde_json::to_vec_pretty` writes a value as indented JSON. Writing a value into memory
/// cannot fail. Followed by a line break, a document that is not nested too deeply reads back
/// as the value: numbers are written with as many digits as they need, and read with all of them.
#[verifier::external_body]
fn write_pretty(value: &serde_json::Value) -> (outcome: Result<Vec<u8>, serde_json::Error>)
    ensures
        outcome is Ok,
        outcome->Ok_0@ == pretty_encoding(value_model(*value)),
        forall|text: Seq<char>|
            nested_within(value_model(*value), 127) && #[trigger] vstd::utf8::encode_utf8(text)
                == outcome->Ok_0@.push(10u8) ==> json_document(text) == Some(value_model(*value)),
{
    serde_json::to_vec_pretty(value)
}

/// `serde_json::Value` implements `Display`, which writes compact JSON.
#[verifier::external_body]
fn write_compact(value: &serde_json::Value) -> (text: String)
    ensures
        text@ == compact_encoding(value_model(*value)),
{
    value.to_string()
}

/// Converts a `serde_json` value.
fn from_value(value: serde_json::Value) -> (json: Json)
    ensures
        json.model() == value_model(value),
        well_formed(json.model()),
    decreases value_model(value),
{
    match value_layer(value) {
        Layer::Null => Json::Null,
        Layer::Bool(flag) => Json::Bool(flag),
        Layer::Number(number) => Json::Number(number),
        Layer::Text(text) => Json::Text(text),
        Layer::Array(values) => {
            let mut list: Vec<Json> = Vec::new();
            for v in iter: values
                invariant
                    list@.len() == iter.index(),
                    iter.seq() == values@,
                    value_model(value) == JsonModel::Array(layer_items(values@)),
                    forall|i: int|
                        0 <= i < list@.len() ==> (#[trigger] list@[i]).model() == value_model(
                            values@[i],
                        ) && well_formed(list@[i].model()),
            {
                assert(value_model(value)->Array_0[iter.index()] == value_model(v));
                list.push(from_value(v));
            }
            let json = Json::Array(list);
            assert(json.model()->Array_0 =~= value_model(value)->Array_0);
            json
        },
        Layer::Object(values) => {
            let mut entries: Vec<(String, Json)> = Vec::new();
            for entry in iter: values
                invariant
                    entries@.len() == iter.index(),
                    iter.seq() == values@,
                    value_model(value) == JsonModel::Object(layer_members(values@)),
                    forall|i: int|
                        0 <= i < entries@.len() ==> (#[trigger] entries@[i]).0@ == values@[i].0@
                            && entries@[i].1.model() == value_model(values@[i].1) && well_formed(
                            entries@[i].1.model(),
                        ),
            {
                assert(value_model(value)->Object_0[iter.index()].1 == value_model(entry.1));
                entries.push((entry.0, from_value(entry.1)));
            }
            let json = Json::Object(entries);
            assert(json.model()->Object_0 =~= value_model(value)->Object_0);
            json
        },
    }
}

/// Reads a JSON document.
pub fn parse_json(text: &str) -> (outcome: Result<Json, serde_json::Error>)
    ensures
        outcome is Ok <==> json_document(text@) is Some,
        outcome is Ok ==> json_document(text@) == Some(outcome->Ok_0.model()),
        outcome is Ok ==> well_formed(outcome->Ok_0.model()),
        outcome is Ok ==> nested_within(outcome->Ok_0.model(), 127),
{
    match read_document(text) {
        Ok(value) => Ok(from_value(value)),
        Err(error) => Err(error),
    }
}

/// Reads a JSON document from bytes.
pub fn parse_json_bytes(bytes: &[u8]) -> (outcome: Result<Json, serde_json::Error>)
    ensures
        outcome is Ok <==> json_bytes(bytes@) is Some,
        outcome is Ok ==> json_bytes(bytes@) == Some(outcome->Ok_0.model()),
        outcome is Ok ==> well_formed(outcome->Ok_0.model()),
{
    match read_bytes(bytes) {
        Ok(value) => Ok(from_value(value)),
        Err(error) => Err(error),
    }
}

/// The text of an optional member: none where it is missing or null. The outer result is none
/// where the member is neither of these nor a string.
pub open spec fn optional_text_member(value: Option<JsonModel>) -> Option<Option<Seq<char>>> {
    match value {
        None => Some(None),
        Some(JsonModel::Null) => Some(None),
        Some(JsonModel::Text(text)) => Some(Some(text)),
        _ => None,
    }
}

/// The text of an optional member.
pub fn read_optional_text(value: Option<&Json>) -> (result: Option<Option<String>>)
    ensures
        match optional_text_member(
            match value {
                Some(json) => Some(json.model()),
                None => None,
            },
        ) {
            Some(expected) => result is Some && crate::text::optional_text(result->0) == expected,
            None => result is None,
        },
{
    match value {
        None => Some(None),
        Some(Json::Null) => Some(None),
        Some(Json::Text(text)) => Some(Some(text.clone())),
        _ => None,
    }
}

impl Json {
    /// A string.
    pub fn text(text: &str) -> (json: Json)
        ensures
            json.model() == JsonModel::Text(text@),
    {
        Json::Text(text.to_owned())
    }

    /// A whole number.
    pub fn integer(number: u64) -> (json: Json)
        ensures
            json.model() == JsonModel::Number(crate::text::decimal(number as nat)),
    {
        Json::Number(number_from(number))
    }

    /// The characters of a string.
    pub fn as_text(&self) -> (text: Option<&String>)
        ensures
            text is Some <==> self.model() is Text,
            text is Some ==> self.model() == JsonModel::Text(text->0@),
    {
        match self {
            Json::Text(text) => Some(text),
            _ => None,
        }
    }

    /// The members of an object.
    pub fn as_object(&self) -> (entries: Option<&Vec<(String, Json)>>)
        ensures
            entries is Some <==> self.model() is Object,
            entries is Some ==> self.model() == JsonModel::Object(members(entries->0@)),
            entries is Some ==> *self == Json::Object(*entries->0),
    {
        proof {
            lemma_model(*self);
        }
        match self {
            Json::Object(entries) => Some(entries),
            _ => None,
        }
    }

    /// A copy of the value.
    pub fn copy(&self) -> (json: Json)
        ensures
            json.model() == self.model(),
        decreases self,
    {
        match self {
            Json::Null => Json::Null,
            Json::Bool(flag) => Json::Bool(*flag),
            Json::Number(number) => Json::Number(clone_number(number)),
            Json::Text(text) => Json::Text(text.clone()),
            Json::Array(values) => {
                let mut list: Vec<Json> = Vec::new();
                for i in 0..values.len()
                    invariant
                        *self == Json::Array(*values),
                        list@.len() == i,
                        forall|j: int| 0 <= j < i ==> (#[trigger] list@[j]).model() == values@[j].model(),
                {
                    assert(decreases_to!(self->Array_0 => values@[i as int]));
                    list.push(values[i].copy());
                }
                let json = Json::Array(list);
                assert(json.model()->Array_0 =~= self.model()->Array_0);
                json
            },
            Json::Object(values) => {
                let mut entries: Vec<(String, Json)> = Vec::new();
                for i in 0..values.len()
                    invariant
                        *self == Json::Object(*values),
                        entries@.len() == i,
                        forall|j: int|
                            0 <= j < i ==> (#[trigger] entries@[j]).0@ == values@[j].0@
                                && entries@[j].1.model() == values@[j].1.model(),
                {
                    assert(decreases_to!(self->Object_0 => values@[i as int]));
                    entries.push((values[i].0.clone(), values[i].1.copy()));
                }
                let json = Json::Object(entries);
                assert(json.model()->Object_0 =~= self.model()->Object_0);
                json
            },
        }
    }

    /// Whether two values are equal.
    pub fn same(&self, other: &Json) -> (same: bool)
        ensures
            same == same_value(self.model(), other.model()),
        decreases self,
    {
        proof {
            lemma_model(*self);
            lemma_model(*other);
        }
        match (self, other) {
            (Json::Null, Json::Null) => true,
            (Json::Bool(a), Json::Bool(b)) => *a == *b,
            (Json::Number(a), Json::Number(b)) => same_number(a, b),
            (Json::Text(a), Json::Text(b)) => same_text(a.as_str(), b.as_str()),
            (Json::Array(a), Json::Array(b)) => {
                if a.len() != b.len() {
                    return false;
                }
                for i in 0..a.len()
                    invariant
                        *self == Json::Array(*a),
                        self.model() == JsonModel::Array(items(a@)),
                        other.model() == JsonModel::Array(items(b@)),
                        a@.len() == b@.len(),
                        forall|j: int|
                            0 <= j < i ==> same_value(#[trigger] items(a@)[j], items(b@)[j]),
                {
                    if !a[i].same(&b[i]) {
                        assert(!same_value(items(a@)[i as int], items(b@)[i as int]));
                        return false;
                    }
                }
                true
            },
            (Json::Object(a), Json::Object(b)) => {
                if a.len() != b.len() {
                    return false;
                }
                for i in 0..a.len()
                    invariant
                        *self == Json::Object(*a),
                        self.model() == JsonModel::Object(members(a@)),
                        other.model() == JsonModel::Object(members(b@)),
                        a@.len() == b@.len(),
                        forall|j: int|
                            0 <= j < i ==> has_key(members(b@), (#[trigger] members(a@)[j]).0)
                                && same_value(
                                members(a@)[j].1,
                                lookup(members(b@), members(a@)[j].0)->0,
                            ),
                {
                    let ghost entry = members(a@)[i as int];
                    assert(entry == (a@[i as int].0@, a@[i as int].1.model()));
                    match find(b, a[i].0.as_str()) {
                        Some(value) => {
                            if !a[i].1.same(value) {
                                return false;
                            }
                        },
                        None => {
                            return false;
                        },
                    }
                }
                true
            },
            _ => false,
        }
    }

    /// Converts the value for `serde_json`.
    fn to_value(&self) -> (value: serde_json::Value)
        requires
            well_formed(self.model()),
        ensures
            value_model(value) == self.model(),
        decreases self,
    {
        proof {
            lemma_model(*self);
        }
        match self {
            Json::Null => value_from_layer(Layer::Null),
            Json::Bool(flag) => value_from_layer(Layer::Bool(*flag)),
            Json::Number(number) => value_from_layer(Layer::Number(clone_number(number))),
            Json::Text(text) => value_from_layer(Layer::Text(text.clone())),
            Json::Array(list) => {
                let mut values: Vec<serde_json::Value> = Vec::new();
                for i in 0..list.len()
                    invariant
                        *self == Json::Array(*list),
                        self.model() == JsonModel::Array(items(list@)),
                        well_formed(self.model()),
                        values@.len() == i,
                        forall|j: int|
                            0 <= j < i ==> value_model(#[trigger] values@[j]) == list@[j].model(),
                {
                    let ghost inner = self.model()->Array_0;
                    assert(well_formed(inner[i as int]));
                    values.push(list[i].to_value());
                }
                assert(layer_items(values@) =~= items(list@));
                value_from_layer(Layer::Array(values))
            },
            Json::Object(entries) => {
                let mut values: Vec<(String, serde_json::Value)> = Vec::new();
                for i in 0..entries.len()
                    invariant
                        *self == Json::Object(*entries),
                        self.model() == JsonModel::Object(members(entries@)),
                        well_formed(self.model()),
                        values@.len() == i,
                        forall|j: int|
                            0 <= j < i ==> (#[trigger] values@[j]).0@ == entries@[j].0@ && value_model(
                                values@[j].1,
                            ) == entries@[j].1.model(),
                {
                    assert(well_formed(members(entries@)[i as int].1));
                    values.push((entries[i].0.clone(), entries[i].1.to_value()));
                }
                assert(layer_members(values@) =~= members(entries@));
                value_from_layer(Layer::Object(values))
            },
        }
    }

    /// The value as indented JSON.
    pub fn to_pretty(&self) -> (outcome: Result<Vec<u8>, serde_json::Error>)
        requires
            well_formed(self.model()),
        ensures
            outcome is Ok,
            outcome->Ok_0@ == pretty_encoding(self.model()),
            nested_within(self.model(), 127) ==> holds_document(
                outcome->Ok_0@.push(10u8),
                self.model(),
            ),
    {
        let value = self.to_value();
        write_pretty(&value)
    }

    /// The value as JSON without white space between tokens.
    pub fn to_compact(&self) -> (text: String)
        requires
            well_formed(self.model()),
        ensures
            text@ == compact_encoding(self.model()),
    {
        let value = self.to_value();
        write_compact(&value)
    }
}

/// The value of a key.
pub fn find<'a>(entries: &'a Vec<(String, Json)>, key: &str) -> (value: Option<&'a Json>)
    ensures
        value is Some <==> has_key(members(entries@), key@),
        value is Some ==> lookup(members(entries@), key@) == Some(value->0.model()),
        value is Some ==> decreases_to!(entries => value->0),
{
    for i in 0..entries.len()
        invariant
            forall|j: int| 0 <= j < i ==> (#[trigger] members(entries@)[j]).0 != key@,
    {
        assert(members(entries@)[i as int].0 == entries@[i as int].0@);
        if same_text(entries[i].0.as_str(), key) {
            proof {
                lemma_lookup_first(members(entries@), key@, i as int);
            }
            return Some(&entries[i].1);
        }
    }
    proof {
        lemma_lookup_absent(members(entries@), key@);
    }
    None
}

/// The number of a member, where it is a whole number up to a limit.
pub open spec fn number_member(value: Option<JsonModel>, limit: nat) -> Option<nat> {
    match value {
        Some(JsonModel::Number(text)) => crate::text::parsed_number(text, limit),
        _ => None,
    }
}

/// The number of a member.
pub fn read_number(value: Option<&Json>, limit: u64) -> (number: Option<u64>)
    ensures
        match number_member(
            match value {
                Some(json) => Some(json.model()),
                None => None,
            },
            limit as nat,
        ) {
            Some(expected) => number is Some && number->0 == expected,
            None => number is None,
        },
{
    match value {
        Some(Json::Number(found)) => {
            let text = write_number(found);
            let chars = crate::text::chars_of(text.as_str());
            assert(chars@.subrange(0, chars@.len() as int) =~= text@);
            crate::text::parse_number(&chars, 0, chars.len(), limit)
        },
        _ => None,
    }
}

/// The text of a member, where it is a string.
pub open spec fn text_member(value: Option<JsonModel>) -> Option<Seq<char>> {
    match value {
        Some(JsonModel::Text(text)) => Some(text),
        _ => None,
    }
}

/// The text of a member.
pub fn read_text(value: Option<&Json>) -> (text: Option<String>)
    ensures
        crate::text::optional_text(text) == text_member(
            match value {
                Some(json) => Some(json.model()),
                None => None,
            },
        ),
{
    match value {
        Some(Json::Text(found)) => Some(found.clone()),
        _ => None,
    }
}

/// The texts of an object whose members are all strings, by their keys.
pub open spec fn text_members(value: JsonModel) -> Option<Map<Seq<char>, Seq<char>>> {
    match value {
        JsonModel::Object(entries) => if forall|i: int|
            0 <= i < entries.len() ==> (#[trigger] entries[i]).1 is Text {
            Some(member_texts(entries))
        } else {
            None
        },
        _ => None,
    }
}

/// The texts of members that are strings, by their keys.
pub open spec fn member_texts(entries: Seq<(Seq<char>, JsonModel)>) -> Map<Seq<char>, Seq<char>> {
    zip_map(keys(entries), Seq::new(entries.len(), |i: int| entries[i].1->Text_0))
}

/// The texts of an object whose members are all strings.
pub fn read_text_members(value: &Json) -> (map: Option<StringMap<String>>)
    requires
        well_formed(value.model()),
    ensures
        match text_members(value.model()) {
            Some(expected) => map is Some && text_map(map->0@) == expected,
            None => map is None,
        },
{
    let list = match value.as_object() {
        Some(list) => list,
        None => {
            return None;
        },
    };
    let ghost entries = members(list@);
    let mut map: StringMap<String> = StringMap::new();
    assert(text_map(map@) =~= member_texts(entries.take(0)));
    for i in 0..list.len()
        invariant
            entries == members(list@),
            value.model() == JsonModel::Object(entries),
            keys(entries).no_duplicates(),
            forall|j: int| 0 <= j < i ==> (#[trigger] entries[j]).1 is Text,
            text_map(map@) == member_texts(entries.take(i as int)),
    {
        assert(entries[i as int] == (list@[i as int].0@, list@[i as int].1.model()));
        match &list[i].1 {
            Json::Text(text) => {
                let ghost before = text_map(map@);
                let ghost key = list@[i as int].0@;
                map.insert(list[i].0.clone(), text.clone());
                proof {
                    lemma_member_texts_push(entries, i as int);
                    assert(text_map(map@) =~= before.insert(key, text@));
                }
            },
            _ => {
                assert(!(entries[i as int].1 is Text));
                return None;
            },
        }
    }
    assert(entries.take(entries.len() as int) =~= entries);
    Some(map)
}

proof fn lemma_member_texts_push(entries: Seq<(Seq<char>, JsonModel)>, at: int)
    requires
        keys(entries).no_duplicates(),
        0 <= at < entries.len(),
    ensures
        member_texts(entries.take(at + 1)) == member_texts(entries.take(at)).insert(
            entries[at].0,
            entries[at].1->Text_0,
        ),
{
    let values = Seq::new(entries.len(), |i: int| entries[i].1->Text_0);
    let (shorter, longer) = (entries.take(at), entries.take(at + 1));
    lemma_zip_push(keys(entries), values, at);
    assert(keys(longer) =~= keys(entries).take(at + 1));
    assert(keys(shorter) =~= keys(entries).take(at));
    assert(Seq::new(longer.len(), |i: int| longer[i].1->Text_0) =~= values.take(at + 1));
    assert(Seq::new(shorter.len(), |i: int| shorter[i].1->Text_0) =~= values.take(at));
}

/// Whether every key of an object is one of the given ones.
pub open spec fn only_keys(
    entries: Seq<(Seq<char>, JsonModel)>,
    allowed: Seq<Seq<char>>,
) -> bool {
    forall|i: int| 0 <= i < entries.len() ==> allowed.contains((#[trigger] entries[i]).0)
}

/// Appends a member to those of an object.
pub fn push_member(entries: &mut Vec<(String, Json)>, key: &str, value: Json)
    ensures
        members(final(entries)@) == members(old(entries)@).push((key@, value.model())),
{
    let ghost before = members(entries@);
    entries.push((key.to_owned(), value));
    assert(members(entries@) =~= before.push((key@, value.model())));
}

/// An object with the given members.
pub fn object(entries: Vec<(String, Json)>) -> (json: Json)
    ensures
        json.model() == JsonModel::Object(members(entries@)),
{
    let json = Json::Object(entries);
    proof {
        lemma_model(json);
    }
    json
}

/// An array with the given items.
pub fn array(list: Vec<Json>) -> (json: Json)
    ensures
        json.model() == JsonModel::Array(items(list@)),
{
    let json = Json::Array(list);
    proof {
        lemma_model(json);
    }
    json
}

/// Equal values have the same type. Booleans and texts are equal where they are the same; equal
/// arrays have equal items, equal objects as many members, and each member of the one has an equal
/// one under its key in the other.
pub proof fn law_same_value(a: JsonModel, b: JsonModel)
    ensures
        a is Null ==> (same_value(a, b) <==> b is Null),
        a is Bool ==> (same_value(a, b) <==> b == a),
        a is Text ==> (same_value(a, b) <==> b == a),
        a is Number && same_value(a, b) ==> b is Number,
        a is Number && b == a ==> same_value(a, b),
        a is Array ==> (same_value(a, b) <==> b is Array && a->Array_0.len() == b->Array_0.len()
            && forall|i: int|
            0 <= i < a->Array_0.len() ==> same_value(#[trigger] a->Array_0[i], b->Array_0[i])),
        a is Object ==> (same_value(a, b) <==> b is Object && a->Object_0.len() == b->Object_0.len()
            && forall|i: int|
            0 <= i < a->Object_0.len() ==> lookup(b->Object_0, (#[trigger] a->Object_0[i]).0) is Some
                && same_value(a->Object_0[i].1, lookup(b->Object_0, a->Object_0[i].0)->0)),
{
}

} // verus!
