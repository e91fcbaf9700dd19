//! What the rules of model services mean: which URLs are used, and which models are offered.
use crate::agent::openai::sanitized;
use crate::map::{law_sorted_keys, sorted_keys};
use crate::order::precedes;
use crate::terminal::{has_control, law_plain_text_unchanged, law_shown_has_no_control, shown};
use crate::text::{
    blank, law_replaced_absent, law_replaced_first, lowered, occurs, occurs_at, replaced,
};
use crate::urls::{is_chat_url, url_model, url_problem, HostModel, UrlModel};
use crate::value::{lookup, JsonModel};
use super::remote::{
    described_model, described_models, models_outcome_is, models_url_is, offer_owners, offers,
    offers_of, AvailableModel, OfferModel, RemoteModelsError,
};
use super::{service_document, service_issue, valid_name, ServiceModel};
use url::Url;
use vstd::prelude::*;

verus! {

/// Whether a host is this machine: `localhost`, upper and lower case alike, an IPv4 address of
/// 127.0.0.0/8, or the IPv6 address `::1`.
pub open spec fn this_machine(host: Option<HostModel>) -> bool {
    match host {
        Some(HostModel::Domain(name)) => lowered(name) == "localhost"@,
        Some(HostModel::Ipv4(a, _, _, _)) => a == 127,
        Some(HostModel::Ipv6(bits)) => bits == 1,
        None => false,
    }
}

/// Whether a URL may be used: it has no credentials and no fragment, and is one of HTTPS, or of
/// HTTP on this machine.
pub open spec fn may_be_used(url: UrlModel) -> bool {
    &&& url.username.len() == 0
    &&& url.password is None
    &&& url.fragment is None
    &&& url.scheme == "https"@ || (url.scheme == "http"@ && this_machine(url.host))
}

/// Nothing is wrong with a URL exactly where it may be used.
pub proof fn law_usable_urls(url: UrlModel)
    ensures
        url_problem(url) is None <==> may_be_used(url),
{
    reveal_strlit("https");
    reveal_strlit("http");
    assert("https"@.len() == 5 && "http"@.len() == 4);
}

/// A service may be configured exactly where its URL may be used, its model has a name, and its
/// key, if there is one, is not empty.
pub proof fn law_services(service: ServiceModel, found: Option<UrlModel>)
    ensures
        service_issue(service, found) is None <==> found is Some && may_be_used(found->0) && !blank(
            service.model,
        ) && (service.api_key is Some ==> service.api_key->0.len() > 0),
{
    if found is Some {
        law_usable_urls(found->0);
    }
}

/// The name of a configuration has only letters, digits, hyphens, underscores and dots, and at
/// least one of them.
pub proof fn law_names(name: Seq<char>)
    ensures
        valid_name(name) <==> name.len() > 0 && forall|i: int|
            0 <= i < name.len() ==> {
                let c = #[trigger] name[i];
                ('a' <= c && c <= 'z') || ('A' <= c && c <= 'Z') || ('0' <= c && c <= '9') || c == '-'
                    || c == '_' || c == '.'
            },
{
    if name.len() > 0 && forall|i: int|
        0 <= i < name.len() ==> {
            let c = #[trigger] name[i];
            ('a' <= c && c <= 'z') || ('A' <= c && c <= 'Z') || ('0' <= c && c <= '9') || c == '-' || c
                == '_' || c == '.'
        } {
        assert forall|i: int| 0 <= i < name.len() implies super::name_char(#[trigger] name[i]) by {}
    }
    if valid_name(name) {
        assert forall|i: int| 0 <= i < name.len() implies {
            let c = #[trigger] name[i];
            ('a' <= c && c <= 'z') || ('A' <= c && c <= 'Z') || ('0' <= c && c <= '9') || c == '-' || c
                == '_' || c == '.'
        } by {
            assert(super::name_char(name[i]));
        }
    }
}

/// Whether two URLs have the same origin: scheme, host, upper and lower case alike, and port.
pub open spec fn one_origin(a: UrlModel, b: UrlModel) -> bool {
    a.scheme == b.scheme && a.host_text is Some && b.host_text is Some && lowered(a.host_text->0)
        == lowered(b.host_text->0) && a.port == b.port
}

/// The URL of the model list. One that is given is used exactly where it may be used and has the
/// origin of the chat URL. Else it is found exactly where the path of the chat URL ends in
/// `chat/completions`, and a slash perhaps, and then has `models` in their place, no query, and
/// everything else of the chat URL.
#[verifier::rlimit(60)]
pub proof fn law_models_url(
    outcome: Result<Url, RemoteModelsError>,
    chat_url: UrlModel,
    given: Option<Seq<char>>,
    found: Option<UrlModel>,
    rest: Seq<Seq<char>>,
)
    requires
        models_url_is(outcome, chat_url, given, found),
    ensures
        given is Some ==> (outcome is Ok <==> found is Some && may_be_used(found->0) && one_origin(
            chat_url,
            found->0,
        )),
        given is Some && outcome is Ok ==> url_model(outcome->Ok_0) == found->0,
        given is None && (chat_url.segments == Some(rest + seq!["chat"@, "completions"@])
            || chat_url.segments == Some(rest + seq!["chat"@, "completions"@, ""@])) ==> {
            &&& outcome is Ok
            &&& rest != seq![Seq::<char>::empty()] ==> url_model(outcome->Ok_0).segments == Some(
                rest + seq!["models"@],
            )
        },
        given is None && outcome is Ok ==> {
            let url = url_model(outcome->Ok_0);
            &&& chat_url.segments is Some
            &&& url.query is None
            &&& url.scheme == chat_url.scheme
            &&& url.host == chat_url.host
            &&& url.host_text == chat_url.host_text
            &&& url.port == chat_url.port
            &&& url.username == chat_url.username
            &&& url.password == chat_url.password
            &&& url.fragment == chat_url.fragment
            &&& url.segments is Some
            &&& url.segments->0.len() > 0
            &&& url.segments->0.last() == "models"@
        },
{
    if given is Some && found is Some {
        law_usable_urls(found->0);
    }
    reveal_strlit("");
    reveal_strlit("completions");
    assert(""@.len() == 0 && "completions"@.len() == 11);
    let all = rest + seq!["chat"@, "completions"@];
    let slashed = rest + seq!["chat"@, "completions"@, ""@];
    assert(slashed.drop_last() =~= all);
    assert(all.drop_last().drop_last() =~= rest);
    assert(all[all.len() - 2] == "chat"@ && all.last() == "completions"@);
    assert(slashed.last() == ""@);
    if given is None && chat_url.segments == Some(all) {
        assert(crate::urls::without_empty_end(all) == all);
        assert(is_chat_url(chat_url));
        assert(rest.push("models"@) =~= rest + seq!["models"@]);
    }
    if given is None && chat_url.segments == Some(slashed) {
        assert(crate::urls::without_empty_end(slashed) == all);
        assert(is_chat_url(chat_url));
        assert(rest.push("models"@) =~= rest + seq!["models"@]);
    }
}

/// Whether a value describes a model: an object with an identifier, and an owner that is a text or
/// none.
pub open spec fn describes_model(value: JsonModel) -> bool {
    &&& value is Object
    &&& lookup(value->Object_0, "id"@) is Some
    &&& lookup(value->Object_0, "id"@)->0 is Text
    &&& lookup(value->Object_0, "owned_by"@) is None || lookup(value->Object_0, "owned_by"@) == Some(
        JsonModel::Null,
    ) || lookup(value->Object_0, "owned_by"@)->0 is Text
}

/// The values that a list of models has.
pub open spec fn data_of(document: JsonModel) -> Seq<JsonModel> {
    lookup(document->Object_0, "data"@)->0->Array_0
}

/// The identifier that a value gives a model.
pub open spec fn id_in(value: JsonModel) -> Seq<char> {
    lookup(value->Object_0, "id"@)->0->Text_0
}

/// The owner that a value gives a model.
pub open spec fn owner_in(value: JsonModel) -> Option<Seq<char>> {
    match lookup(value->Object_0, "owned_by"@) {
        Some(JsonModel::Text(owner)) => Some(owner),
        _ => None,
    }
}

/// Whether a document is a list of models with proper identifiers: each has a character that is no
/// white space, and no control character.
pub open spec fn lists_models(document: JsonModel) -> bool {
    &&& document is Object
    &&& lookup(document->Object_0, "data"@) is Some
    &&& lookup(document->Object_0, "data"@)->0 is Array
    &&& forall|i: int|
        0 <= i < data_of(document).len() ==> describes_model(#[trigger] data_of(document)[i])
            && !blank(id_in(data_of(document)[i])) && !has_control(id_in(data_of(document)[i]))
}

proof fn lemma_owners(list: Seq<OfferModel>, count: nat)
    requires
        count <= list.len(),
    ensures
        offer_owners(list, count).dom().finite(),
        forall|id: Seq<char>| #[trigger]
            offer_owners(list, count).contains_key(id) <==> exists|i: int|
                0 <= i < count && (#[trigger] list[i]).id == id,
        forall|i: int|
            0 <= i < count && #[trigger] first_with_id(list, i) ==> offer_owners(
                list,
                count,
            )[list[i].id] == list[i].owned_by,
    decreases count,
{
    if count > 0 {
        let last = count - 1;
        lemma_owners(list, last as nat);
        let before = offer_owners(list, last as nat);
        let after = offer_owners(list, count);
        assert forall|id: Seq<char>| #[trigger] after.contains_key(id) <==> exists|i: int|
            0 <= i < count && (#[trigger] list[i]).id == id by {
            if before.contains_key(id) {
                let i = choose|i: int| 0 <= i < last && (#[trigger] list[i]).id == id;
                assert(list[i].id == id);
            }
            if list[last].id == id {
                assert(0 <= last < count);
            }
        }
        assert forall|i: int| 0 <= i < count && #[trigger] first_with_id(list, i) implies after[list[i].id]
            == list[i].owned_by by {
            if i < last {
                assert(before.contains_key(list[i].id));
            } else if before.contains_key(list[i].id) {
                let j = choose|j: int| 0 <= j < last && (#[trigger] list[j]).id == list[i].id;
                assert(list[j].id != list[i].id);
            }
        }
    }
}

/// Whether no model before a position has the identifier of the one there.
pub open spec fn first_with_id(list: Seq<OfferModel>, at: int) -> bool {
    forall|j: int| 0 <= j < at ==> (#[trigger] list[j]).id != list[at].id
}

/// What a list of models gives. It is accepted exactly where it is one with proper identifiers; each
/// identifier is then offered once, in ascending order, with the owner that comes first.
#[verifier::rlimit(60)]
pub proof fn law_models_listed(
    outcome: Result<Vec<AvailableModel>, RemoteModelsError>,
    document: JsonModel,
)
    requires
        models_outcome_is(outcome, Some(document)),
    ensures
        outcome is Ok <==> lists_models(document),
        outcome is Ok ==> {
            let list = outcome->Ok_0@;
            let data = data_of(document);
            &&& forall|a: int, b: int|
                0 <= a < b < list.len() ==> precedes(
                    (#[trigger] list[a]).id@,
                    (#[trigger] list[b]).id@,
                )
            &&& forall|i: int|
                0 <= i < data.len() ==> exists|a: int|
                    0 <= a < list.len() && (#[trigger] list[a]).id@ == id_in(#[trigger] data[i])
            &&& forall|a: int|
                0 <= a < list.len() ==> exists|i: int|
                    {
                        &&& 0 <= i < data.len()
                        &&& (#[trigger] list[a]).id@ == id_in(#[trigger] data[i])
                        &&& crate::text::optional_text(list[a].owned_by) == owner_in(data[i])
                        &&& forall|j: int| 0 <= j < i ==> id_in(#[trigger] data[j]) != list[a].id@
                    }
        },
{
    if document is Object && lookup(document->Object_0, "data"@) is Some && lookup(
        document->Object_0,
        "data"@,
    )->0 is Array {
        let data = data_of(document);
        assert forall|i: int| 0 <= i < data.len() implies (described_model(#[trigger] data[i]) is Some
            <==> describes_model(data[i])) && (describes_model(data[i]) ==> described_model(data[i])
            == Some(OfferModel { id: id_in(data[i]), owned_by: owner_in(data[i]) })) by {}
        if forall|i: int| 0 <= i < data.len() ==> described_model(#[trigger] data[i]) is Some {
            let all = described_models(document)->0;
            assert(all.len() == data.len());
            assert forall|i: int| 0 <= i < data.len() implies (#[trigger] all[i]).id == id_in(data[i])
                && all[i].owned_by == owner_in(data[i]) && describes_model(data[i]) by {
                assert(described_model(data[i]) is Some);
            }
            if lists_models(document) {
                assert forall|i: int| 0 <= i < all.len() implies super::remote::valid_id(
                    (#[trigger] all[i]).id,
                ) by {
                    assert(describes_model(data_of(document)[i]));
                }
            }
            if forall|i: int|
                0 <= i < all.len() ==> super::remote::valid_id((#[trigger] all[i]).id) {
                assert forall|i: int| 0 <= i < data.len() implies describes_model(
                    #[trigger] data_of(document)[i],
                ) && !blank(id_in(data_of(document)[i])) && !has_control(
                    id_in(data_of(document)[i]),
                ) by {
                    assert(super::remote::valid_id(all[i].id));
                }
                let map = offer_owners(all, all.len());
                let ids = sorted_keys(map.dom());
                let list = outcome->Ok_0@;
                lemma_owners(all, all.len());
                law_sorted_keys(map.dom());
                assert(offers(list) == offers_of(map));
                assert(list.len() == ids.len());
                assert forall|a: int| 0 <= a < list.len() implies (#[trigger] list[a]).id@ == ids[a]
                    && crate::text::optional_text(list[a].owned_by) == map[ids[a]] by {
                    assert(offers(list)[a] == offers_of(map)[a]);
                }
                assert forall|a: int, b: int| 0 <= a < b < list.len() implies precedes(
                    (#[trigger] list[a]).id@,
                    (#[trigger] list[b]).id@,
                ) by {
                    assert(precedes(ids[a], ids[b]));
                }
                assert forall|i: int| 0 <= i < data.len() implies exists|a: int|
                    0 <= a < list.len() && (#[trigger] list[a]).id@ == id_in(#[trigger] data[i]) by {
                    assert(all[i].id == id_in(data[i]));
                    assert(map.contains_key(all[i].id));
                    assert(ids.to_set().contains(all[i].id));
                    let a = ids.index_of(all[i].id);
                    assert(list[a].id@ == ids[a]);
                }
                assert forall|a: int| 0 <= a < list.len() implies exists|i: int|
                    {
                        &&& 0 <= i < data.len()
                        &&& (#[trigger] list[a]).id@ == id_in(#[trigger] data[i])
                        &&& crate::text::optional_text(list[a].owned_by) == owner_in(data[i])
                        &&& forall|j: int| 0 <= j < i ==> id_in(#[trigger] data[j]) != list[a].id@
                    } by {
                    let id = ids[a];
                    assert(ids.to_set().contains(id));
                    assert(map.contains_key(id));
                    let some = choose|i: int| 0 <= i < all.len() && (#[trigger] all[i]).id == id;
                    let i = lemma_first(all, some);
                    assert(all[i].id == id_in(data[i]));
                    assert forall|j: int| 0 <= j < i implies id_in(#[trigger] data[j])
                        != list[a].id@ by {
                        assert(all[j].id != all[i].id);
                    }
                    assert(list[a].id@ == id_in(data[i]));
                }
            }
        } else {
            let i = choose|i: int|
                0 <= i < data.len() && described_model(#[trigger] data[i]) is None;
            assert(!describes_model(data_of(document)[i]));
        }
    }
}

proof fn lemma_first(list: Seq<OfferModel>, at: int) -> (first: int)
    requires
        0 <= at < list.len(),
    ensures
        0 <= first <= at,
        list[first].id == list[at].id,
        first_with_id(list, first),
    decreases at,
{
    if first_with_id(list, at) {
        at
    } else {
        let j = choose|j: int| 0 <= j < at && (#[trigger] list[j]).id == list[at].id;
        lemma_first(list, j)
    }
}

/// What is shown of a text from a service has no control characters. Without a key, and where the
/// key does not stand in it, a text without control characters is shown as it is; where the key
/// stands in it, the key is blotted out, and what follows is looked through.
pub proof fn law_sanitized(before: Seq<char>, key: Seq<char>, after: Seq<char>)
    requires
        key.len() > 0,
        forall|at: int|
            0 <= at < before.len() ==> !#[trigger] occurs_at(before + key + after, key, at),
    ensures
        !has_control(sanitized(before + key + after, Some(key))),
        !has_control(sanitized(before, None)),
        !has_control(before) ==> sanitized(before, None) == before,
        !has_control(before) && !occurs(before, key) ==> sanitized(before, Some(key)) == before,
        sanitized(before + key + after, Some(key)) == shown(
            before + "[REDACTED]"@ + replaced(after, key, "[REDACTED]"@),
        ),
{
    law_shown_has_no_control(replaced(before + key + after, key, "[REDACTED]"@));
    law_shown_has_no_control(before);
    if !has_control(before) {
        law_plain_text_unchanged(before);
        if !occurs(before, key) {
            law_replaced_absent(before, key, "[REDACTED]"@);
        }
    }
    law_replaced_first(before, key, after, "[REDACTED]"@);
}

/// Whether a value describes a service: an object with a URL and a model, and a key that is a text
/// or none.
pub open spec fn describes_service(value: JsonModel) -> bool {
    &&& value is Object
    &&& lookup(value->Object_0, "url"@) is Some
    &&& lookup(value->Object_0, "url"@)->0 is Text
    &&& lookup(value->Object_0, "model"@) is Some
    &&& lookup(value->Object_0, "model"@)->0 is Text
    &&& lookup(value->Object_0, "api_key"@) is None || lookup(value->Object_0, "api_key"@) == Some(
        JsonModel::Null,
    ) || lookup(value->Object_0, "api_key"@)->0 is Text
}

/// A value that describes a service is read as the service, with its URL, model and key.
pub proof fn law_service_read(value: JsonModel)
    ensures
        service_document(value) is Some <==> describes_service(value),
        describes_service(value) ==> {
            let service = service_document(value)->0;
            &&& lookup(value->Object_0, "url"@) == Some(JsonModel::Text(service.url))
            &&& lookup(value->Object_0, "model"@) == Some(JsonModel::Text(service.model))
            &&& service.api_key == (match lookup(value->Object_0, "api_key"@) {
                Some(JsonModel::Text(key)) => Some(key),
                _ => None,
            })
        },
{
}

} // verus!
