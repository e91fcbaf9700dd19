//! The models that a service offers.
use crate::agent::openai::{optional_str, sanitize_error_text, sanitized};
use crate::map::{lemma_sorted_keys, sorted_keys, StringMap};
use crate::terminal::{contains_control, has_control};
use crate::text::{
    blank, chars_of, contains, is_blank, join2, join4, occurs, optional_text, text_of,
};
use crate::urls::{
    ends_in_chat, is_chat_url, is_models_url, models_sibling, parsed_url, same_origin,
    same_origin_as, url_model, url_parts, UrlModel,
};
use crate::value::{
    find, items, json_bytes, json_error_text, lemma_model, lookup, members, optional_text_member,
    parse_json_bytes, read_optional_text, show_json_error, Json, JsonModel,
};
use super::{url_issue, validate_url, ModelConnection, ModelStoreError};
use url::Url;
use vstd::prelude::*;

verus! {

/// The largest response that is read, in bytes.
pub const MAX_RESPONSE_BYTES: usize = 8388608;

/// The number of characters of a response that an error shows.
pub const MAX_DETAILS: usize = 2048;

/// A model that a service offers.
#[derive(Debug, PartialEq, Eq)]
pub struct AvailableModel {
    /// The exact identifier by which requests name the model.
    pub id: String,
    /// The owner of the model, where the service gives one.
    pub owned_by: Option<String>,
}

/// What an offered model is.
#[verifier::ext_equal]
pub struct OfferModel {
    pub id: Seq<char>,
    pub owned_by: Option<Seq<char>>,
}

impl AvailableModel {
    /// What the offered model is.
    pub open spec fn model(self) -> OfferModel {
        OfferModel { id: self.id@, owned_by: optional_text(self.owned_by) }
    }
}

/// What each offered model is.
pub open spec fn offers(list: Seq<AvailableModel>) -> Seq<OfferModel> {
    Seq::new(list.len(), |i: int| list[i].model())
}

/// An error of asking a service for its models.
#[derive(Debug)]
pub enum RemoteModelsError {
    CannotDeriveUrl,
    InvalidUrl(ModelStoreError),
    CrossOrigin,
    Store(ModelStoreError),
    BuildClient(String),
    Request(String),
    ResponseTooLarge,
    Http { status: String, details: String },
    Parse(serde_json::Error),
    Malformed,
    InvalidModelId,
    SensitiveDataEcho,
}

/// Whether an outcome of finding the URL of the model list is the one that is called for; `found`
/// is what the other URL is read as.
pub open spec fn models_url_is(
    outcome: Result<Url, RemoteModelsError>,
    chat_url: UrlModel,
    override_url: Option<Seq<char>>,
    found: Option<UrlModel>,
) -> bool {
    match override_url {
        Some(raw) => match url_issue(raw, found) {
            Some(issue) => outcome is Err && outcome->Err_0 is InvalidUrl
                && outcome->Err_0->InvalidUrl_0.reports(issue),
            None => if same_origin_as(chat_url, found->0) {
                outcome is Ok && url_model(outcome->Ok_0) == found->0
            } else {
                outcome == Err::<Url, RemoteModelsError>(RemoteModelsError::CrossOrigin)
            },
        },
        None => if is_chat_url(chat_url) {
            outcome is Ok && is_models_url(url_model(outcome->Ok_0), chat_url)
        } else {
            outcome == Err::<Url, RemoteModelsError>(RemoteModelsError::CannotDeriveUrl)
        },
    }
}

/// What an optional text is read as.
pub open spec fn optional_url(text: Option<&str>) -> Option<UrlModel> {
    match text {
        Some(found) => parsed_url(found@),
        None => None,
    }
}

/// The URL of the list of models: another one of the same origin, or the one next to the chat
/// URL of the connection.
pub fn resolve_models_url(connection: &ModelConnection<'_>, override_url: Option<&str>) -> (outcome:
    Result<Url, RemoteModelsError>)
    ensures
        models_url_is(
            outcome,
            url_model(connection.url),
            optional_str(override_url),
            optional_url(override_url),
        ),
{
    let parts = url_parts(&connection.url);
    if let Some(raw) = override_url {
        return match validate_url(raw) {
            Err(error) => Err(RemoteModelsError::InvalidUrl(error)),
            Ok(url) => {
                let others = url_parts(&url);
                if same_origin(&parts, &others) {
                    Ok(url)
                } else {
                    Err(RemoteModelsError::CrossOrigin)
                }
            },
        };
    }
    if !ends_in_chat(&parts) {
        return Err(RemoteModelsError::CannotDeriveUrl);
    }
    Ok(models_sibling(&connection.url))
}

/// Whether one more piece of a response would make it too large.
pub fn exceeds_limit(received: usize, piece: usize) -> (exceeds: bool)
    ensures
        exceeds == (received + piece > MAX_RESPONSE_BYTES),
{
    received > MAX_RESPONSE_BYTES || piece > MAX_RESPONSE_BYTES - received
}

/// A model as the service describes it.
#[derive(Debug)]
pub struct RemoteModel {
    pub id: String,
    pub owned_by: Option<String>,
}

/// Whether a text can be the identifier of a model.
pub open spec fn valid_id(id: Seq<char>) -> bool {
    !blank(id) && !has_control(id)
}

/// The owners of the first `count` described models, by identifier; of models with the same
/// identifier the first one counts.
pub open spec fn owners(list: Seq<RemoteModel>, count: nat) -> Map<Seq<char>, Option<Seq<char>>>
    decreases count,
{
    if count == 0 {
        Map::empty()
    } else {
        let before = owners(list, (count - 1) as nat);
        let model = list[count - 1];
        if before.contains_key(model.id@) {
            before
        } else {
            before.insert(model.id@, optional_text(model.owned_by))
        }
    }
}

/// The offered models of a map, in the order of their identifiers.
pub open spec fn offers_of(map: Map<Seq<char>, Option<Seq<char>>>) -> Seq<OfferModel> {
    let ids = sorted_keys(map.dom());
    Seq::new(ids.len(), |i: int| OfferModel { id: ids[i], owned_by: map[ids[i]] })
}

/// What each owner is.
pub open spec fn owner_models(map: Map<Seq<char>, Option<String>>) -> Map<
    Seq<char>,
    Option<Seq<char>>,
> {
    map.map_values(|owner: Option<String>| optional_text(owner))
}

/// The models that a service describes, each once, in the order of their identifiers.
pub fn collect_models(list: Vec<RemoteModel>) -> (outcome: Result<
    Vec<AvailableModel>,
    RemoteModelsError,
>)
    ensures
        outcome is Ok <==> forall|i: int| 0 <= i < list@.len() ==> valid_id((#[trigger] list@[i]).id@),
        outcome is Ok ==> offers(outcome->Ok_0@) == offers_of(owners(list@, list@.len())),
        outcome is Err ==> outcome->Err_0 is InvalidModelId,
{
    let mut found: StringMap<Option<String>> = StringMap::new();
    assert(owner_models(found@) =~= Map::<Seq<char>, Option<Seq<char>>>::empty());
    for model in iter: list
        invariant
            iter.seq() == list@,
            owner_models(found@) == owners(list@, iter.index() as nat),
            forall|i: int| 0 <= i < iter.index() ==> valid_id((#[trigger] list@[i]).id@),
    {
        let ghost at = iter.index();
        assert(list@[at] == model);
        if is_blank(model.id.as_str()) || contains_control(model.id.as_str()) {
            assert(!valid_id(list@[at].id@));
            return Err(RemoteModelsError::InvalidModelId);
        }
        let ghost before = found@;
        assert(owners(list@, (at + 1) as nat) == (if before.contains_key(model.id@) {
            owner_models(before)
        } else {
            owner_models(before).insert(model.id@, optional_text(model.owned_by))
        }));
        if !found.contains_key(model.id.as_str()) {
            let ghost id = model.id@;
            let ghost owner = model.owned_by;
            found.insert(model.id, model.owned_by);
            assert(owner_models(found@) =~= owner_models(before).insert(id, optional_text(owner)));
        }
    }
    let ghost map = owner_models(found@);
    let ghost ids = found.keys();
    let entries = found.into_entries();
    proof {
        assert(map.dom() =~= found@.dom());
        lemma_sorted_keys(ids);
    }
    let mut result: Vec<AvailableModel> = Vec::new();
    let ghost expected = offers_of(map);
    for entry in iter: entries
        invariant
            iter.seq() == entries@,
            ids == crate::map::entry_keys(entries@),
            ids.no_duplicates(),
            found@ == crate::map::entry_map(entries@),
            map == owner_models(found@),
            expected == offers_of(map),
            sorted_keys(map.dom()) == ids,
            result@.len() == iter.index(),
            forall|j: int| 0 <= j < result@.len() ==> (#[trigger] result@[j]).model() == expected[j],
    {
        let ghost at = iter.index();
        proof {
            assert(ids[at] == entry.0@);
            assert(ids.contains(entry.0@));
            assert(ids.index_of(entry.0@) == at);
            assert(found@.contains_key(entry.0@));
            assert(found@[entry.0@] == entry.1);
            assert(map[entry.0@] == optional_text(entry.1));
        }
        result.push(AvailableModel { id: entry.0, owned_by: entry.1 });
        assert(result@[at].model() =~= expected[at]);
    }
    assert(offers(result@) =~= expected);
    Ok(result)
}

/// A model as a document describes it: an object with an identifier and, where the service gives
/// one, an owner.
pub open spec fn described_model(value: JsonModel) -> Option<OfferModel> {
    match value {
        JsonModel::Object(entries) => match (
            lookup(entries, "id"@),
            optional_text_member(lookup(entries, "owned_by"@)),
        ) {
            (Some(JsonModel::Text(id)), Some(owned_by)) => Some(OfferModel { id, owned_by }),
            _ => None,
        },
        _ => None,
    }
}

/// The models that a document lists, where it is an object whose `data` is an array of them.
pub open spec fn described_models(document: JsonModel) -> Option<Seq<OfferModel>> {
    match document {
        JsonModel::Object(entries) => match lookup(entries, "data"@) {
            Some(JsonModel::Array(list)) => if forall|i: int|
                0 <= i < list.len() ==> described_model(#[trigger] list[i]) is Some {
                Some(Seq::new(list.len(), |i: int| described_model(list[i])->0))
            } else {
                None
            },
            _ => None,
        },
        _ => None,
    }
}

/// What each described model is.
pub open spec fn remote_models(list: Seq<RemoteModel>) -> Seq<OfferModel> {
    Seq::new(
        list.len(),
        |i: int| OfferModel { id: list[i].id@, owned_by: optional_text(list[i].owned_by) },
    )
}

fn read_model(value: &Json) -> (model: Option<RemoteModel>)
    ensures
        match described_model(value.model()) {
            Some(expected) => model is Some && model->0.id@ == expected.id && optional_text(
                model->0.owned_by,
            ) == expected.owned_by,
            None => model is None,
        },
{
    let entries = match value.as_object() {
        Some(entries) => entries,
        None => {
            return None;
        },
    };
    let id = match find(entries, "id") {
        Some(Json::Text(id)) => id.clone(),
        _ => {
            return None;
        },
    };
    match read_optional_text(find(entries, "owned_by")) {
        Some(owned_by) => Some(RemoteModel { id, owned_by }),
        None => None,
    }
}

/// The models that a document lists.
pub fn read_models(document: &Json) -> (list: Option<Vec<RemoteModel>>)
    ensures
        match described_models(document.model()) {
            Some(expected) => list is Some && remote_models(list->0@) == expected,
            None => list is None,
        },
{
    let entries = match document.as_object() {
        Some(entries) => entries,
        None => {
            return None;
        },
    };
    let data = match find(entries, "data") {
        Some(data) => data,
        None => {
            return None;
        },
    };
    proof {
        lemma_model(*data);
    }
    match data {
        Json::Array(values) => {
            let ghost models = items(values@);
            let mut list: Vec<RemoteModel> = Vec::new();
            for i in 0..values.len()
                invariant
                    models == items(values@),
                    document.model() == JsonModel::Object(members(entries@)),
                    lookup(members(entries@), "data"@) == Some(JsonModel::Array(models)),
                    list@.len() == i,
                    forall|j: int|
                        0 <= j < i ==> described_model(#[trigger] models[j]) == Some(
                            remote_models(list@)[j],
                        ),
            {
                assert(models[i as int] == values@[i as int].model());
                match read_model(&values[i]) {
                    Some(model) => {
                        let ghost before = remote_models(list@);
                        list.push(model);
                        assert forall|j: int| 0 <= j < i + 1 implies described_model(
                            #[trigger] models[j],
                        ) == Some(remote_models(list@)[j]) by {
                            if j < i {
                                assert(remote_models(list@)[j] == before[j]);
                            }
                        }
                    },
                    None => {
                        assert(described_model(models[i as int]) is None);
                        return None;
                    },
                }
            }
            assert(remote_models(list@) =~= described_models(document.model())->0);
            Some(list)
        },
        _ => None,
    }
}

/// The owners of the first `count` offered models, by identifier; of models with the same
/// identifier the first one counts.
pub open spec fn offer_owners(list: Seq<OfferModel>, count: nat) -> Map<Seq<char>, Option<Seq<char>>>
    decreases count,
{
    if count == 0 {
        Map::empty()
    } else {
        let before = offer_owners(list, (count - 1) as nat);
        let offer = list[count - 1];
        if before.contains_key(offer.id) {
            before
        } else {
            before.insert(offer.id, offer.owned_by)
        }
    }
}

proof fn lemma_owners(list: Seq<RemoteModel>, count: nat)
    requires
        count <= list.len(),
    ensures
        owners(list, count) == offer_owners(remote_models(list), count),
    decreases count,
{
    if count > 0 {
        lemma_owners(list, (count - 1) as nat);
        assert(remote_models(list)[count - 1].id == list[count - 1].id@);
    }
}

/// Whether an outcome of reading a list of models is the one that the document calls for.
pub open spec fn models_outcome_is(
    outcome: Result<Vec<AvailableModel>, RemoteModelsError>,
    found: Option<JsonModel>,
) -> bool {
    match found {
        None => outcome is Err && outcome->Err_0 is Parse,
        Some(document) => match described_models(document) {
            None => outcome == Err::<Vec<AvailableModel>, RemoteModelsError>(
                RemoteModelsError::Malformed,
            ),
            Some(list) => if forall|i: int| 0 <= i < list.len() ==> valid_id((#[trigger] list[i]).id) {
                outcome is Ok && offers(outcome->Ok_0@) == offers_of(
                    offer_owners(list, list.len()),
                )
            } else {
                outcome is Err && outcome->Err_0 is InvalidModelId
            },
        },
    }
}

/// The models that a document lists, each once, in the order of their identifiers.
pub fn models_from_json(document: &Json) -> (outcome: Result<
    Vec<AvailableModel>,
    RemoteModelsError,
>)
    ensures
        models_outcome_is(outcome, Some(document.model())),
{
    match read_models(document) {
        None => Err(RemoteModelsError::Malformed),
        Some(list) => {
            let ghost described = remote_models(list@);
            proof {
                lemma_owners(list@, list@.len());
                assert forall|i: int| 0 <= i < list@.len() implies (#[trigger] described[i]).id
                    == list@[i].id@ by {}
                if forall|i: int| 0 <= i < described.len() ==> valid_id((#[trigger] described[i]).id) {
                    assert forall|i: int| 0 <= i < list@.len() implies valid_id(
                        (#[trigger] list@[i]).id@,
                    ) by {
                        assert(valid_id(described[i].id));
                    }
                }
                if forall|i: int| 0 <= i < list@.len() ==> valid_id((#[trigger] list@[i]).id@) {
                    assert forall|i: int| 0 <= i < described.len() implies valid_id(
                        (#[trigger] described[i]).id,
                    ) by {
                        assert(valid_id(list@[i].id@));
                    }
                }
            }
            collect_models(list)
        },
    }
}

/// The models in the response of a service.
pub fn parse_models(bytes: &[u8]) -> (outcome: Result<Vec<AvailableModel>, RemoteModelsError>)
    ensures
        models_outcome_is(outcome, json_bytes(bytes@)),
{
    match parse_json_bytes(bytes) {
        Err(error) => Err(RemoteModelsError::Parse(error)),
        Ok(document) => models_from_json(&document),
    }
}

/// Whether an offered model shows a key.
pub open spec fn shows_key(offer: OfferModel, key: Seq<char>) -> bool {
    occurs(offer.id, key) || (offer.owned_by is Some && occurs(offer.owned_by->0, key))
}

/// Refuses offered models that show the key of the service.
pub fn reject_echo(list: Vec<AvailableModel>, api_key: Option<&str>) -> (outcome: Result<
    Vec<AvailableModel>,
    RemoteModelsError,
>)
    ensures
        outcome == (if api_key is Some && exists|i: int|
            0 <= i < list@.len() && shows_key((#[trigger] list@[i]).model(), api_key->0@) {
            Err::<Vec<AvailableModel>, RemoteModelsError>(RemoteModelsError::SensitiveDataEcho)
        } else {
            Ok(list)
        }),
{
    if let Some(key) = api_key {
        for i in 0..list.len()
            invariant
                api_key == Some(key),
                forall|j: int| 0 <= j < i ==> !shows_key((#[trigger] list@[j]).model(), key@),
        {
            let in_owner = match &list[i].owned_by {
                Some(owner) => contains(owner.as_str(), key),
                None => false,
            };
            if in_owner || contains(list[i].id.as_str(), key) {
                assert(shows_key(list@[i as int].model(), key@));
                return Err(RemoteModelsError::SensitiveDataEcho);
            }
        }
    }
    Ok(list)
}

/// The first characters of a text.
pub open spec fn shortened(text: Seq<char>) -> Seq<char> {
    if text.len() <= MAX_DETAILS {
        text
    } else {
        text.take(MAX_DETAILS as int)
    }
}

/// The first characters of a text.
pub fn shorten(text: &str) -> (result: String)
    ensures
        result@ == shortened(text@),
{
    let chars = chars_of(text);
    if chars.len() <= MAX_DETAILS {
        return text.to_owned();
    }
    let result = text_of(&chars, 0, MAX_DETAILS);
    assert(result@ =~= text@.take(MAX_DETAILS as int));
    result
}

/// The error for a response that is not a success.
pub fn http_error(status: &str, body: &str, api_key: Option<&str>) -> (error: RemoteModelsError)
    ensures
        error is Http,
        error->status@ == status@,
        error->details@ == sanitized(shortened(body@), optional_str(api_key)),
{
    let details = shorten(body);
    RemoteModelsError::Http {
        status: status.to_owned(),
        details: sanitize_error_text(details.as_str(), api_key),
    }
}

impl RemoteModelsError {
    /// The message about the error.
    pub open spec fn message(self) -> Seq<char> {
        match self {
            RemoteModelsError::CannotDeriveUrl => {
                "无法从模型接口 URL 推导模型列表地址；请使用 --url 指定同源 /v1/models 地址"@
            },
            RemoteModelsError::InvalidUrl(error) => "模型列表 URL 无效: "@ + error.message(),
            RemoteModelsError::CrossOrigin => "模型列表 URL 必须与模型接口 URL 同源"@,
            RemoteModelsError::Store(error) => "模型配置错误: "@ + error.message(),
            RemoteModelsError::BuildClient(details) => "无法创建模型列表 HTTP 客户端: "@ + details@,
            RemoteModelsError::Request(details) => "模型列表请求失败: "@ + details@,
            RemoteModelsError::ResponseTooLarge => "模型列表响应超过 8 MiB 限制"@,
            RemoteModelsError::Http { status, details } => "模型列表接口返回 HTTP "@ + status@ + ": "@
                + details@,
            RemoteModelsError::Parse(error) => "模型列表响应不是有效的 OpenAI 模型列表: "@
                + json_error_text(error),
            RemoteModelsError::Malformed => {
                "模型列表响应不是有效的 OpenAI 模型列表: data 必须是模型对象的数组"@
            },
            RemoteModelsError::InvalidModelId => "模型列表响应包含空模型 ID 或控制字符"@,
            RemoteModelsError::SensitiveDataEcho => "模型列表响应包含敏感凭据，已拒绝输出"@,
        }
    }

    /// The message about the error.
    pub fn to_string(&self) -> (text: String)
        ensures
            text@ == self.message(),
    {
        match self {
            RemoteModelsError::CannotDeriveUrl => {
                "无法从模型接口 URL 推导模型列表地址；请使用 --url 指定同源 /v1/models 地址".to_owned()
            },
            RemoteModelsError::InvalidUrl(error) => {
                let details = error.to_string();
                join2("模型列表 URL 无效: ", details.as_str())
            },
            RemoteModelsError::CrossOrigin => "模型列表 URL 必须与模型接口 URL 同源".to_owned(),
            RemoteModelsError::Store(error) => {
                let details = error.to_string();
                join2("模型配置错误: ", details.as_str())
            },
            RemoteModelsError::BuildClient(details) => join2(
                "无法创建模型列表 HTTP 客户端: ",
                details.as_str(),
            ),
            RemoteModelsError::Request(details) => join2("模型列表请求失败: ", details.as_str()),
            RemoteModelsError::ResponseTooLarge => "模型列表响应超过 8 MiB 限制".to_owned(),
            RemoteModelsError::Http { status, details } => join4(
                "模型列表接口返回 HTTP ",
                status.as_str(),
                ": ",
                details.as_str(),
            ),
            RemoteModelsError::Parse(error) => {
                let details = show_json_error(error);
                join2("模型列表响应不是有效的 OpenAI 模型列表: ", details.as_str())
            },
            RemoteModelsError::Malformed => {
                "模型列表响应不是有效的 OpenAI 模型列表: data 必须是模型对象的数组".to_owned()
            },
            RemoteModelsError::InvalidModelId => "模型列表响应包含空模型 ID 或控制字符".to_owned(),
            RemoteModelsError::SensitiveDataEcho => "模型列表响应包含敏感凭据，已拒绝输出".to_owned(),
        }
    }
}

} // verus!
