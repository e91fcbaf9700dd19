//! What the request for a batch says, and what its reply means, member by member.
use crate::catalog::{TranslationKind, UnitModel};
use crate::map::{text_map, zip_map, StringMap};
use crate::text::decimal;
use crate::value::{
    compact_encoding, json_bytes, json_document, keys, lemma_keys_distinct, lemma_lookup_absent,
    lemma_lookup_distinct, lemma_lookup_position, lemma_present, lookup, JsonModel,
};
use super::{law_unit_ids_distinct, unit_id, ModelClientError, ModelRequest};
use super::openai::{
    body_json, choice_document, entry_json, ids_json, message_json, output_document, prompt_json,
    properties_json, reply_document, response_format_json, response_outcome_is, single,
    strict_object, SYSTEM_PROMPT,
};
use vstd::prelude::*;

verus! {

/// The identifier of the unit at a position: `t` and the position.
pub open spec fn identifier(at: int) -> Seq<char> {
    seq!['t'] + decimal(at as nat)
}

/// What an optional text is as a member: nothing where there is none.
pub open spec fn optional_member(text: Option<Seq<char>>) -> Option<JsonModel> {
    match text {
        Some(found) => Some(JsonModel::Text(found)),
        None => None,
    }
}

/// Whether an entry of a prompt says all of a unit: its identifier, path and text, the description
/// and the placeholders that are known of it, and its format.
pub open spec fn entry_says(entry: JsonModel, unit: UnitModel, at: int) -> bool {
    &&& entry is Object
    &&& lookup(entry->Object_0, "id"@) == Some(JsonModel::Text(identifier(at)))
    &&& lookup(entry->Object_0, "path"@) == Some(JsonModel::Text(unit.path))
    &&& lookup(entry->Object_0, "source"@) == Some(JsonModel::Text(unit.source))
    &&& lookup(entry->Object_0, "description"@) == optional_member(unit.description)
    &&& lookup(entry->Object_0, "format"@) == Some(
        JsonModel::Text(
            if unit.kind == TranslationKind::Arb {
                "arb_icu"@
            } else {
                "json"@
            },
        ),
    )
    &&& lookup(entry->Object_0, "placeholders"@) is Some
    &&& lookup(entry->Object_0, "placeholders"@)->0 is Array
    &&& lookup(entry->Object_0, "placeholders"@)->0->Array_0.len() == unit.placeholders.len()
    &&& forall|i: int|
        0 <= i < unit.placeholders.len() ==> (#[trigger] lookup(
            entry->Object_0,
            "placeholders"@,
        )->0->Array_0[i]) == JsonModel::Text(unit.placeholders[i])
}

/// Whether a prompt says all of a request: the languages, the instructions of the target where it
/// has some, the correction where there is one, and every unit in order.
pub open spec fn prompt_says(
    prompt: Seq<(Seq<char>, JsonModel)>,
    request: ModelRequest<'_>,
) -> bool {
    &&& lookup(prompt, "source_locale"@) == Some(JsonModel::Text(request.source_locale@))
    &&& lookup(prompt, "target_locale"@) == Some(JsonModel::Text(request.target.locale@))
    &&& lookup(prompt, "target_language"@) == Some(JsonModel::Text(request.target.language@))
    &&& lookup(prompt, "target_instructions"@) == optional_member(
        match request.target.prompt {
            Some(text) => Some(text@),
            None => None,
        },
    )
    &&& lookup(prompt, "correction"@) == optional_member(
        match request.correction {
            Some(text) => Some(text@),
            None => None,
        },
    )
    &&& lookup(prompt, "entries"@) is Some
    &&& lookup(prompt, "entries"@)->0 is Array
    &&& lookup(prompt, "entries"@)->0->Array_0.len() == request.units@.len()
    &&& forall|i: int|
        0 <= i < request.units@.len() ==> entry_says(
            #[trigger] lookup(prompt, "entries"@)->0->Array_0[i],
            request.units@[i].model(),
            i,
        )
}

#[verifier::rlimit(60)]
proof fn lemma_entry_says(unit: UnitModel, at: int)
    ensures
        entry_says(entry_json(unit, at), unit, at),
{
    let entries = entry_json(unit, at)->Object_0;
    let n = entries.len() as int;
    reveal_strlit("id");
    reveal_strlit("path");
    reveal_strlit("source");
    reveal_strlit("description");
    reveal_strlit("placeholders");
    reveal_strlit("format");
    assert("id"@.len() == 2 && "path"@.len() == 4 && "source"@.len() == 6 && "description"@.len() == 11
        && "placeholders"@.len() == 12 && "format"@.len() == 6);
    assert("source"@[0] == 's' && "format"@[0] == 'f');
    assert(entries[0].0 == "id"@ && entries[1].0 == "path"@ && entries[2].0 == "source"@);
    assert(n == 6 ==> entries[3].0 == "description"@);
    assert(entries[n - 2].0 == "placeholders"@ && entries[n - 1].0 == "format"@);
    assert(n == 5 || n == 6);
    lemma_keys_distinct(entries);
    lemma_lookup_distinct(entries, 0);
    lemma_lookup_distinct(entries, 1);
    lemma_lookup_distinct(entries, 2);
    lemma_lookup_distinct(entries, n - 2);
    lemma_lookup_distinct(entries, n - 1);
    if n == 6 {
        lemma_lookup_distinct(entries, 3);
    } else {
        assert forall|i: int| 0 <= i < n implies (#[trigger] entries[i]).0 != "description"@ by {}
        lemma_lookup_absent(entries, "description"@);
    }
}

/// The prompt of a request says all of it.
#[verifier::rlimit(60)]
pub proof fn law_prompt_says_all(request: ModelRequest<'_>)
    ensures
        prompt_json(request) is Object,
        prompt_says(prompt_json(request)->Object_0, request),
{
    let entries = prompt_json(request)->Object_0;
    let n = entries.len() as int;
    reveal_strlit("source_locale");
    reveal_strlit("target_locale");
    reveal_strlit("target_language");
    reveal_strlit("target_instructions");
    reveal_strlit("correction");
    reveal_strlit("entries");
    assert("source_locale"@.len() == 13 && "target_locale"@.len() == 13 && "target_language"@.len()
        == 15 && "target_instructions"@.len() == 19 && "correction"@.len() == 10 && "entries"@.len()
        == 7);
    assert("source_locale"@[0] == 's' && "target_locale"@[0] == 't');
    assert(entries[0].0 == "source_locale"@ && entries[1].0 == "target_locale"@);
    assert(entries[2].0 == "target_language"@ && entries[n - 1].0 == "entries"@);
    assert(n == 4 || n == 5 || n == 6);
    let (told, corrected) = (request.target.prompt is Some, request.correction is Some);
    assert(told ==> entries[3].0 == "target_instructions"@);
    assert(corrected ==> entries[n - 2].0 == "correction"@);
    assert(n == 6 <==> told && corrected);
    lemma_keys_distinct(entries);
    lemma_lookup_distinct(entries, 0);
    lemma_lookup_distinct(entries, 1);
    lemma_lookup_distinct(entries, 2);
    lemma_lookup_distinct(entries, n - 1);
    if told {
        lemma_lookup_distinct(entries, 3);
    } else {
        assert forall|i: int| 0 <= i < n implies (#[trigger] entries[i]).0
            != "target_instructions"@ by {}
        lemma_lookup_absent(entries, "target_instructions"@);
    }
    if corrected {
        lemma_lookup_distinct(entries, n - 2);
    } else {
        assert forall|i: int| 0 <= i < n implies (#[trigger] entries[i]).0 != "correction"@ by {}
        lemma_lookup_absent(entries, "correction"@);
    }
    let list = entries[n - 1].1->Array_0;
    assert forall|i: int| 0 <= i < request.units@.len() implies entry_says(
        #[trigger] list[i],
        request.units@[i].model(),
        i,
    ) by {
        lemma_entry_says(request.units@[i].model(), i);
    }
}

/// Whether a schema is that of an object with exactly the properties that are required, each
/// required once.
pub open spec fn strict_schema(schema: JsonModel) -> bool {
    &&& schema is Object
    &&& lookup(schema->Object_0, "type"@) == Some(JsonModel::Text("object"@))
    &&& lookup(schema->Object_0, "additionalProperties"@) == Some(JsonModel::Bool(false))
    &&& lookup(schema->Object_0, "properties"@) is Some
    &&& lookup(schema->Object_0, "properties"@)->0 is Object
    &&& lookup(schema->Object_0, "required"@) is Some
    &&& lookup(schema->Object_0, "required"@)->0 is Array
}

/// The schema of a property.
pub open spec fn property(schema: JsonModel, key: Seq<char>) -> Option<JsonModel> {
    lookup(lookup(schema->Object_0, "properties"@)->0->Object_0, key)
}

/// The names of the properties that a schema requires.
pub open spec fn required(schema: JsonModel) -> Seq<JsonModel> {
    lookup(schema->Object_0, "required"@)->0->Array_0
}

proof fn lemma_strict(properties: JsonModel, names: JsonModel)
    requires
        properties is Object,
        names is Array,
    ensures
        strict_schema(strict_object(properties, names)),
        lookup(strict_object(properties, names)->Object_0, "properties"@) == Some(properties),
        lookup(strict_object(properties, names)->Object_0, "required"@) == Some(names),
{
    let entries = strict_object(properties, names)->Object_0;
    reveal_strlit("type");
    reveal_strlit("properties");
    reveal_strlit("required");
    reveal_strlit("additionalProperties");
    assert("type"@.len() == 4 && "properties"@.len() == 10 && "required"@.len() == 8
        && "additionalProperties"@.len() == 20);
    assert(entries[0].0 == "type"@ && entries[1].0 == "properties"@);
    assert(entries[2].0 == "required"@ && entries[3].0 == "additionalProperties"@);
    lemma_keys_distinct(entries);
    lemma_lookup_distinct(entries, 0);
    lemma_lookup_distinct(entries, 1);
    lemma_lookup_distinct(entries, 2);
    lemma_lookup_distinct(entries, 3);
}

/// Whether the format that a reply has to have asks for exactly one text for each of the units, by
/// its identifier, and nothing else.
pub open spec fn asks_for_each(format: JsonModel, count: nat) -> bool {
    let outer = format->Object_0;
    let described = lookup(outer, "json_schema"@)->0->Object_0;
    let schema = lookup(described, "schema"@)->0;
    let inner = property(schema, "translations"@)->0;
    &&& format is Object
    &&& lookup(outer, "type"@) == Some(JsonModel::Text("json_schema"@))
    &&& lookup(outer, "json_schema"@) is Some
    &&& lookup(outer, "json_schema"@)->0 is Object
    &&& lookup(described, "strict"@) == Some(JsonModel::Bool(true))
    &&& lookup(described, "name"@) is Some
    &&& lookup(described, "schema"@) is Some
    &&& strict_schema(schema)
    &&& required(schema) == seq![JsonModel::Text("translations"@)]
    &&& forall|key: Seq<char>| #[trigger] property(schema, key) is Some <==> key == "translations"@
    &&& strict_schema(inner)
    &&& required(inner).len() == count
    &&& forall|i: int|
        0 <= i < count ==> (#[trigger] required(inner)[i]) == JsonModel::Text(identifier(i))
    &&& forall|i: int|
        0 <= i < count ==> {
            let kind = #[trigger] property(inner, identifier(i));
            kind is Some && kind->0 is Object && lookup(kind->0->Object_0, "type"@) == Some(
                JsonModel::Text("string"@),
            )
        }
    &&& forall|key: Seq<char>| #[trigger]
        property(inner, key) is Some ==> exists|i: int| 0 <= i < count && key == #[trigger] identifier(i)
}

/// The format of the reply asks for exactly one text for each of the units.
#[verifier::rlimit(60)]
pub proof fn law_format_asks_for_each(count: nat)
    ensures
        asks_for_each(response_format_json(count), count),
{
    let format = response_format_json(count);
    let outer = format->Object_0;
    let described = outer[1].1->Object_0;
    let schema = described[2].1;
    let listed = seq![("translations"@, strict_object(properties_json(count), ids_json(count)))];
    let inner = listed[0].1;
    reveal_strlit("name");
    reveal_strlit("strict");
    reveal_strlit("schema");
    reveal_strlit("type");
    reveal_strlit("json_schema");
    assert("name"@.len() == 4 && "strict"@.len() == 6 && "schema"@.len() == 6 && "type"@.len() == 4
        && "json_schema"@.len() == 11);
    assert("strict"@[1] == 't' && "schema"@[1] == 'c');
    assert(outer[0].0 == "type"@ && outer[1].0 == "json_schema"@);
    lemma_keys_distinct(outer);
    lemma_lookup_distinct(outer, 0);
    lemma_lookup_distinct(outer, 1);
    assert(described[0].0 == "name"@ && described[1].0 == "strict"@ && described[2].0 == "schema"@);
    lemma_keys_distinct(described);
    lemma_lookup_distinct(described, 0);
    lemma_lookup_distinct(described, 1);
    lemma_lookup_distinct(described, 2);
    lemma_strict(
        JsonModel::Object(listed),
        JsonModel::Array(seq![JsonModel::Text("translations"@)]),
    );
    assert forall|key: Seq<char>| #[trigger] lookup(listed, key) is Some <==> key
        == "translations"@ by {
        if key == "translations"@ {
            lemma_keys_distinct(listed);
            lemma_lookup_distinct(listed, 0);
        } else {
            assert forall|i: int| 0 <= i < listed.len() implies (#[trigger] listed[i]).0 != key by {}
            lemma_lookup_absent(listed, key);
        }
    }
    lemma_keys_distinct(listed);
    lemma_lookup_distinct(listed, 0);
    assert(property(schema, "translations"@) == Some(inner));
    assert forall|key: Seq<char>| #[trigger] property(schema, key) is Some <==> key
        == "translations"@ by {
        assert(property(schema, key) == lookup(listed, key));
    }
    lemma_strict(properties_json(count), ids_json(count));
    let members = properties_json(count)->Object_0;
    assert forall|i: int, j: int| 0 <= i < j < members.len() implies (#[trigger] members[i]).0
        != (#[trigger] members[j]).0 by {
        if unit_id(i) == unit_id(j) {
            law_unit_ids_distinct(i as nat, j as nat);
        }
    }
    lemma_keys_distinct(members);
    assert forall|i: int| 0 <= i < count implies {
        let kind = #[trigger] property(inner, identifier(i));
        kind is Some && kind->0 is Object && lookup(kind->0->Object_0, "type"@) == Some(
            JsonModel::Text("string"@),
        )
    } by {
        lemma_lookup_distinct(members, i);
        let kind = single("type"@, "string"@)->Object_0;
        lemma_keys_distinct(kind);
        lemma_lookup_distinct(kind, 0);
        assert(members[i].0 == identifier(i));
        assert(property(inner, identifier(i)) == Some(members[i].1));
    }
    assert forall|key: Seq<char>| #[trigger] property(inner, key) is Some implies exists|i: int|
        0 <= i < count && key == #[trigger] identifier(i) by {
        let i = lemma_lookup_position(members, key);
        assert(key == identifier(i));
    }
    assert forall|i: int| 0 <= i < count implies (#[trigger] required(inner)[i]) == JsonModel::Text(
        identifier(i),
    ) by {
        assert(unit_id(i) == identifier(i));
    }
}

/// Whether a message of the conversation has a role and a content.
pub open spec fn message_is(message: JsonModel, role: Seq<char>, content: Seq<char>) -> bool {
    &&& message is Object
    &&& lookup(message->Object_0, "role"@) == Some(JsonModel::Text(role))
    &&& lookup(message->Object_0, "content"@) == Some(JsonModel::Text(content))
}

proof fn lemma_message(role: Seq<char>, content: Seq<char>)
    ensures
        message_is(message_json(role, content), role, content),
{
    let entries = message_json(role, content)->Object_0;
    reveal_strlit("role");
    reveal_strlit("content");
    assert("role"@.len() == 4 && "content"@.len() == 7);
    assert(entries[0].0 == "role"@ && entries[1].0 == "content"@);
    lemma_keys_distinct(entries);
    lemma_lookup_distinct(entries, 0);
    lemma_lookup_distinct(entries, 1);
}

/// The body of a request names the model, tells the system its task and the user all of the
/// request, and asks for exactly one text for each of the units.
#[verifier::rlimit(60)]
pub proof fn law_request_says_all(model: Seq<char>, request: ModelRequest<'_>)
    ensures
        ({
            let body = body_json(model, request)->Object_0;
            let messages = lookup(body, "messages"@)->0;
            &&& body_json(model, request) is Object
            &&& lookup(body, "model"@) == Some(JsonModel::Text(model))
            &&& lookup(body, "messages"@) is Some
            &&& messages is Array
            &&& messages->Array_0.len() == 2
            &&& message_is(messages->Array_0[0], "system"@, SYSTEM_PROMPT@)
            &&& exists|prompt: Seq<(Seq<char>, JsonModel)>|
                message_is(
                    messages->Array_0[1],
                    "user"@,
                    compact_encoding(JsonModel::Object(prompt)),
                ) && #[trigger] prompt_says(prompt, request)
            &&& lookup(body, "response_format"@) is Some
            &&& asks_for_each(lookup(body, "response_format"@)->0, request.units@.len())
        }),
{
    let body = body_json(model, request)->Object_0;
    reveal_strlit("model");
    reveal_strlit("messages");
    reveal_strlit("response_format");
    assert("model"@.len() == 5 && "messages"@.len() == 8 && "response_format"@.len() == 15);
    assert(body[0].0 == "model"@ && body[1].0 == "messages"@ && body[2].0 == "response_format"@);
    lemma_keys_distinct(body);
    lemma_lookup_distinct(body, 0);
    lemma_lookup_distinct(body, 1);
    lemma_lookup_distinct(body, 2);
    law_prompt_says_all(request);
    law_format_asks_for_each(request.units@.len());
    lemma_message("system"@, SYSTEM_PROMPT@);
    lemma_message("user"@, compact_encoding(prompt_json(request)));
    let prompt = prompt_json(request)->Object_0;
    assert(prompt_says(prompt, request));
}

/// Whether a member is a text or, by being missing or null, none.
pub open spec fn text_or_none(value: Option<JsonModel>) -> bool {
    value is None || value == Some(JsonModel::Null) || value->0 is Text
}

/// Whether a choice of a reply is an object with a message whose content and refusal are texts or
/// none.
pub open spec fn is_choice(value: JsonModel) -> bool {
    &&& value is Object
    &&& lookup(value->Object_0, "message"@) is Some
    &&& lookup(value->Object_0, "message"@)->0 is Object
    &&& text_or_none(lookup(message_of(value), "content"@))
    &&& text_or_none(lookup(message_of(value), "refusal"@))
}

/// The members of the message of a choice.
pub open spec fn message_of(value: JsonModel) -> Seq<(Seq<char>, JsonModel)> {
    lookup(value->Object_0, "message"@)->0->Object_0
}

/// The choices of a reply.
pub open spec fn choices_of(document: JsonModel) -> Seq<JsonModel> {
    lookup(document->Object_0, "choices"@)->0->Array_0
}

/// Whether a document is a reply: an object with an array of choices.
pub open spec fn is_reply(document: JsonModel) -> bool {
    &&& document is Object
    &&& lookup(document->Object_0, "choices"@) is Some
    &&& lookup(document->Object_0, "choices"@)->0 is Array
    &&& forall|i: int|
        0 <= i < choices_of(document).len() ==> is_choice(#[trigger] choices_of(document)[i])
}

/// Whether a document holds translations: an object whose `translations` are an object of texts.
pub open spec fn is_output(document: JsonModel) -> bool {
    &&& document is Object
    &&& lookup(document->Object_0, "translations"@) is Some
    &&& lookup(document->Object_0, "translations"@)->0 is Object
    &&& forall|i: int|
        0 <= i < texts_of(document).len() ==> (#[trigger] texts_of(document)[i]).1 is Text
}

/// The members of the translations that a document holds.
pub open spec fn texts_of(document: JsonModel) -> Seq<(Seq<char>, JsonModel)> {
    lookup(document->Object_0, "translations"@)->0->Object_0
}

/// Whether a reply has translations in its first choice: a content that is a document with
/// translations, and no refusal.
pub open spec fn has_translations(document: JsonModel, output: JsonModel) -> bool {
    &&& is_reply(document)
    &&& choices_of(document).len() > 0
    &&& !(lookup(message_of(choices_of(document)[0]), "refusal"@) is Some && lookup(
        message_of(choices_of(document)[0]),
        "refusal"@,
    )->0 is Text)
    &&& lookup(message_of(choices_of(document)[0]), "content"@) is Some
    &&& lookup(message_of(choices_of(document)[0]), "content"@)->0 is Text
    &&& json_document(lookup(message_of(choices_of(document)[0]), "content"@)->0->Text_0) == Some(
        output,
    )
    &&& is_output(output)
}

#[verifier::rlimit(60)]
proof fn lemma_reply(document: JsonModel)
    ensures
        reply_document(document) is Some <==> is_reply(document),
        is_reply(document) ==> {
            &&& reply_document(document)->0.len() == choices_of(document).len()
            &&& forall|i: int|
                0 <= i < choices_of(document).len() ==> {
                    let message = message_of(choices_of(document)[i]);
                    let read = #[trigger] reply_document(document)->0[i];
                    &&& read.content is Some <==> lookup(message, "content"@) is Some && lookup(
                        message,
                        "content"@,
                    )->0 is Text
                    &&& read.content is Some ==> lookup(message, "content"@) == Some(
                        JsonModel::Text(read.content->0),
                    )
                    &&& read.refusal is Some <==> lookup(message, "refusal"@) is Some && lookup(
                        message,
                        "refusal"@,
                    )->0 is Text
                }
        },
{
    if document is Object && lookup(document->Object_0, "choices"@) is Some && lookup(
        document->Object_0,
        "choices"@,
    )->0 is Array {
        let list = choices_of(document);
        assert forall|i: int| 0 <= i < list.len() implies (choice_document(#[trigger] list[i]) is Some
            <==> is_choice(list[i])) by {}
        if is_reply(document) {
            assert forall|i: int| 0 <= i < list.len() implies choice_document(
                #[trigger] list[i],
            ) is Some by {
                assert(is_choice(choices_of(document)[i]));
            }
        }
        if reply_document(document) is Some {
            assert forall|i: int| 0 <= i < list.len() implies is_choice(
                #[trigger] choices_of(document)[i],
            ) by {
                assert(choice_document(list[i]) is Some);
            }
        }
    }
}

proof fn lemma_output(document: JsonModel)
    ensures
        output_document(document) is Some <==> is_output(document),
        is_output(document) ==> holds_texts(output_document(document)->0, texts_of(document)),
{
    if is_output(document) {
        let members = texts_of(document);
        let map = output_document(document)->0;
        let (names, texts) = (
            keys(members),
            Seq::new(members.len(), |i: int| members[i].1->Text_0),
        );
        assert(map == zip_map(names, texts));
        assert forall|key: Seq<char>| #[trigger] map.contains_key(key) <==> lookup(members, key) is Some by {
            if names.contains(key) {
                lemma_present(members, key, names.index_of(key));
            }
            if lookup(members, key) is Some {
                let i = lemma_lookup_position(members, key);
                assert(names[i] == key);
            }
        }
        if names.no_duplicates() {
            assert forall|key: Seq<char>| #[trigger] map.contains_key(key) implies lookup(members, key)
                == Some(JsonModel::Text(map[key])) by {
                let i = names.index_of(key);
                assert(names[i] == key && members[i].0 == key);
                lemma_lookup_distinct(members, i);
                assert(members[i].1 is Text);
            }
        }
    }
}

/// What a reply means. Where it has translations, they are what its outcome holds, text by text;
/// where it has none, the outcome is a failure, which will occur again exactly where the model
/// refuses.
#[verifier::rlimit(60)]
pub proof fn law_reply_read(
    outcome: Result<StringMap<String>, ModelClientError>,
    bytes: Seq<u8>,
    key: Option<Seq<char>>,
)
    requires
        response_outcome_is(outcome, json_bytes(bytes), key),
    ensures
        outcome is Ok <==> json_bytes(bytes) is Some && exists|output: JsonModel| #[trigger]
            has_translations(json_bytes(bytes)->0, output),
        forall|output: JsonModel|
            json_bytes(bytes) is Some && #[trigger] has_translations(json_bytes(bytes)->0, output)
                ==> holds_texts(text_map(outcome->Ok_0@), texts_of(output)),
        outcome is Err ==> (!outcome->Err_0.retryable <==> json_bytes(bytes) is Some && is_reply(
            json_bytes(bytes)->0,
        ) && choices_of(json_bytes(bytes)->0).len() > 0 && lookup(
            message_of(choices_of(json_bytes(bytes)->0)[0]),
            "refusal"@,
        ) is Some && lookup(
            message_of(choices_of(json_bytes(bytes)->0)[0]),
            "refusal"@,
        )->0 is Text),
{
    if json_bytes(bytes) is Some {
        let document = json_bytes(bytes)->0;
        lemma_reply(document);
        if is_reply(document) && choices_of(document).len() > 0 {
            let message = message_of(choices_of(document)[0]);
            let read = reply_document(document)->0[0];
            assert(is_choice(choices_of(document)[0]));
            if read.refusal is None && read.content is Some {
                let found = json_document(read.content->0);
                if found is Some {
                    lemma_output(found->0);
                    if is_output(found->0) {
                        assert(has_translations(document, found->0));
                    }
                }
            }
        }
        assert forall|output: JsonModel| #[trigger] has_translations(document, output) implies outcome is Ok
            && holds_texts(text_map(outcome->Ok_0@), texts_of(output)) by {
            lemma_output(output);
        }
    }
}

/// Whether a map holds the texts of members, by their keys, and nothing else.
pub open spec fn holds_texts(
    map: Map<Seq<char>, Seq<char>>,
    members: Seq<(Seq<char>, JsonModel)>,
) -> bool {
    &&& forall|key: Seq<char>| #[trigger] map.contains_key(key) <==> lookup(members, key) is Some
    &&& keys(members).no_duplicates() ==> forall|key: Seq<char>| #[trigger]
        map.contains_key(key) ==> lookup(members, key) == Some(JsonModel::Text(map[key]))
}

/// A reply says that the request may succeed later exactly where its status is 429 or one of the
/// five hundreds.
pub proof fn law_retryable_status(status: u16)
    ensures
        super::openai::retryable_status(status) <==> status == 429 || status / 100 == 5,
{
}

} // verus!
