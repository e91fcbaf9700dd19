//! The named configurations of model services.
use crate::catalog::json::optional_model;
use crate::map::{
    law_map_finite, law_sorted_keys, lemma_sorted_keys, lemma_zip_push, lemma_zip_sorted,
    sorted_keys, zip_map, StringMap,
};
use crate::order::{ascending, precedes};
use crate::paths::{entry_of, entry_path, main_separator};
use crate::text::{
    alphanumeric, blank, chars_of, clone_optional, is_alphanumeric, is_blank, join2, join3, join4,
    optional_text,
};
use crate::urls::{
    check_url, parsed_url, read_url, show_url_error, url_error_text, url_model, url_parts,
    url_problem, UrlModel, UrlParts, UrlProblem,
};
use crate::value::{
    find, holds_document, json_document, json_error_text, keys, lemma_keys_distinct,
    lemma_lookup_distinct, lemma_lookup_position, lemma_nested_object, lemma_not_nested, lookup,
    members, nested_within, object, optional_text_member, parse_json, pretty_encoding, push_member,
    read_optional_text, read_text, show_json_error, text_member, well_formed, Json, JsonModel,
};
use url::{ParseError, Url};
use vstd::prelude::*;
use vstd::utf8::encode_utf8;

pub mod meaning;
pub mod remote;

verus! {

/// The largest file of model configurations that is read, in bytes.
pub const MAX_MODEL_STORE_SIZE: u64 = 1048576;

/// What is wrong with a model configuration.
#[derive(Debug, Clone, Copy, PartialEq, Eq, Structural)]
pub enum StoreProblem {
    TooLarge,
    Url(UrlProblem),
    Name,
    EmptyModel,
    EmptyKey,
}

/// An error of the model configurations.
#[allow(inconsistent_fields)]
#[derive(Debug)]
pub enum ModelStoreError {
    Parse { path: String, source: serde_json::Error },
    Malformed(String),
    Serialize(serde_json::Error),
    Invalid(StoreProblem),
    InvalidUrl { value: String, source: ParseError },
    Missing(String),
    NoHomeDirectory,
}

/// What an error of the model configurations is about.
pub enum StoreIssue {
    Invalid(StoreProblem),
    InvalidUrl(Seq<char>),
    Missing(Seq<char>),
}

impl ModelStoreError {
    /// Whether the error reports what is wrong.
    pub open spec fn reports(self, issue: StoreIssue) -> bool {
        match (self, issue) {
            (ModelStoreError::Invalid(found), StoreIssue::Invalid(problem)) => found == problem,
            (ModelStoreError::InvalidUrl { value, .. }, StoreIssue::InvalidUrl(text)) => value@
                == text,
            (ModelStoreError::Missing(found), StoreIssue::Missing(name)) => found@ == name,
            _ => false,
        }
    }
}

/// Whether a result is success, or the failure that the problem calls for.
pub open spec fn store_outcome_is(
    outcome: Result<(), ModelStoreError>,
    issue: Option<StoreIssue>,
) -> bool {
    match issue {
        None => outcome is Ok,
        Some(found) => outcome is Err && outcome->Err_0.reports(found),
    }
}

/// What is wrong with the URL that a text is read as.
pub open spec fn url_issue(text: Seq<char>, found: Option<UrlModel>) -> Option<StoreIssue> {
    match found {
        None => Some(StoreIssue::InvalidUrl(text)),
        Some(url) => match url_problem(url) {
            Some(problem) => Some(StoreIssue::Invalid(StoreProblem::Url(problem))),
            None => None,
        },
    }
}

/// Reads the URL of a model service and checks that it may be used.
pub fn validate_url(raw: &str) -> (outcome: Result<Url, ModelStoreError>)
    ensures
        match url_issue(raw@, parsed_url(raw@)) {
            None => outcome is Ok && parsed_url(raw@) == Some(url_model(outcome->Ok_0)),
            Some(issue) => outcome is Err && outcome->Err_0.reports(issue),
        },
{
    match read_url(raw) {
        Err(source) => Err(ModelStoreError::InvalidUrl { value: raw.to_owned(), source }),
        Ok(url) => {
            let parts = url_parts(&url);
            match check_url(&parts) {
                Some(problem) => Err(ModelStoreError::Invalid(StoreProblem::Url(problem))),
                None => Ok(url),
            }
        },
    }
}

/// Whether a character can stand in the name of a configuration.
pub open spec fn name_char(c: char) -> bool {
    alphanumeric(c) || c == '-' || c == '_' || c == '.'
}

/// Whether a text can be the name of a configuration.
pub open spec fn valid_name(name: Seq<char>) -> bool {
    name.len() > 0 && forall|i: int| 0 <= i < name.len() ==> name_char(#[trigger] name[i])
}

/// Checks the name of a configuration.
pub fn validate_name(name: &str) -> (outcome: Result<(), ModelStoreError>)
    ensures
        store_outcome_is(
            outcome,
            if valid_name(name@) {
                None
            } else {
                Some(StoreIssue::Invalid(StoreProblem::Name))
            },
        ),
{
    let chars = chars_of(name);
    for i in 0..chars.len()
        invariant
            chars@ == name@,
            forall|j: int| 0 <= j < i ==> name_char(#[trigger] name@[j]),
    {
        let c = chars[i];
        if !(is_alphanumeric(c) || c == '-' || c == '_' || c == '.') {
            assert(!name_char(name@[i as int]));
            return Err(ModelStoreError::Invalid(StoreProblem::Name));
        }
    }
    if chars.len() == 0 {
        return Err(ModelStoreError::Invalid(StoreProblem::Name));
    }
    Ok(())
}

/// Checks the name of a model.
pub fn validate_model(model: &str) -> (outcome: Result<(), ModelStoreError>)
    ensures
        store_outcome_is(
            outcome,
            if blank(model@) {
                Some(StoreIssue::Invalid(StoreProblem::EmptyModel))
            } else {
                None
            },
        ),
{
    if is_blank(model) {
        return Err(ModelStoreError::Invalid(StoreProblem::EmptyModel));
    }
    Ok(())
}

/// A model service: where it is, which of its models is used, and the key for it.
#[verifier::ext_equal]
pub struct ServiceModel {
    pub url: Seq<char>,
    pub model: Seq<char>,
    pub api_key: Option<Seq<char>>,
}

/// What is wrong with a model service, whose URL is read as `found`.
pub open spec fn service_issue(service: ServiceModel, found: Option<UrlModel>) -> Option<StoreIssue> {
    if url_issue(service.url, found) is Some {
        url_issue(service.url, found)
    } else if blank(service.model) {
        Some(StoreIssue::Invalid(StoreProblem::EmptyModel))
    } else if service.api_key is Some && service.api_key->0.len() == 0 {
        Some(StoreIssue::Invalid(StoreProblem::EmptyKey))
    } else {
        None
    }
}

/// Checks a model service whose URL has these parts.
pub fn check_service(url: &UrlParts, model: &str, api_key: &Option<String>) -> (outcome: Result<
    (),
    ModelStoreError,
>)
    ensures
        store_outcome_is(
            outcome,
            service_issue(
                ServiceModel {
                    url: url.text@,
                    model: model@,
                    api_key: optional_text(*api_key),
                },
                Some(url.model()),
            ),
        ),
{
    if let Some(problem) = check_url(url) {
        return Err(ModelStoreError::Invalid(StoreProblem::Url(problem)));
    }
    match validate_model(model) {
        Ok(_) => {},
        Err(error) => {
            return Err(error);
        },
    }
    if let Some(key) = api_key {
        if key.as_str().is_empty() {
            return Err(ModelStoreError::Invalid(StoreProblem::EmptyKey));
        }
    }
    Ok(())
}

/// Checks a model service.
pub fn validate_profile(url: &str, model: &str, api_key: &Option<String>) -> (outcome: Result<
    (),
    ModelStoreError,
>)
    ensures
        store_outcome_is(
            outcome,
            service_issue(
                ServiceModel { url: url@, model: model@, api_key: optional_text(*api_key) },
                parsed_url(url@),
            ),
        ),
{
    match read_url(url) {
        Err(source) => Err(ModelStoreError::InvalidUrl { value: url.to_owned(), source }),
        Ok(found) => check_service(&url_parts(&found), model, api_key),
    }
}

/// A stored configuration of a model service.
pub struct StoredModelProfile {
    pub url: String,
    pub model: String,
    pub api_key: Option<String>,
}

impl StoredModelProfile {
    /// What the configuration is.
    pub open spec fn service(self) -> ServiceModel {
        ServiceModel {
            url: self.url@,
            model: self.model@,
            api_key: optional_text(self.api_key),
        }
    }
}

/// A configuration that is ready to be used.
pub struct ModelProfile {
    pub url: Url,
    pub model: String,
    pub api_key: Option<String>,
}

/// What is shown of a configuration: not its key.
#[derive(Debug)]
pub struct ModelSummary<'a> {
    pub name: &'a str,
    pub url: &'a str,
    pub model: &'a str,
    pub has_key: bool,
}

/// What is shown of a configuration.
pub struct SummaryModel {
    pub name: Seq<char>,
    pub url: Seq<char>,
    pub model: Seq<char>,
    pub has_key: bool,
}

/// What is shown of a configuration.
pub open spec fn summary_of(name: Seq<char>, service: ServiceModel) -> SummaryModel {
    SummaryModel {
        name,
        url: service.url,
        model: service.model,
        has_key: service.api_key is Some,
    }
}

/// What is shown of configurations, in the order of their names.
pub open spec fn summaries_of(services: Map<Seq<char>, ServiceModel>) -> Seq<SummaryModel> {
    let names = sorted_keys(services.dom());
    Seq::new(names.len(), |i: int| summary_of(names[i], services[names[i]]))
}

/// What each summary shows.
pub open spec fn summary_models(list: Seq<ModelSummary<'_>>) -> Seq<SummaryModel> {
    Seq::new(list.len(), |i: int| list[i].shows())
}

/// The summaries come in ascending order of the names, one for each configuration, and tell of a
/// key only whether there is one: configurations that differ in their keys alone have the same
/// summaries.
pub proof fn law_summaries_hide_keys(
    a: Map<Seq<char>, ServiceModel>,
    b: Map<Seq<char>, ServiceModel>,
)
    requires
        a.dom().finite(),
        a.dom() == b.dom(),
        forall|name: Seq<char>| #[trigger]
            a.contains_key(name) ==> a[name].url == b[name].url && a[name].model == b[name].model && (
            a[name].api_key is Some) == (b[name].api_key is Some),
    ensures
        summaries_of(a) == summaries_of(b),
        summaries_of(a).len() == a.len(),
        forall|i: int, j: int|
            0 <= i < j < summaries_of(a).len() ==> precedes(
                (#[trigger] summaries_of(a)[i]).name,
                (#[trigger] summaries_of(a)[j]).name,
            ),
        forall|i: int|
            0 <= i < summaries_of(a).len() ==> a.contains_key((#[trigger] summaries_of(a)[i]).name)
                && summaries_of(a)[i].has_key == (a[summaries_of(a)[i].name].api_key is Some),
        forall|name: Seq<char>| #[trigger]
            a.contains_key(name) ==> exists|i: int|
                0 <= i < summaries_of(a).len() && (#[trigger] summaries_of(a)[i]).name == name,
{
    let names = sorted_keys(a.dom());
    law_sorted_keys(a.dom());
    let list = summaries_of(a);
    assert forall|i: int| 0 <= i < names.len() implies a.contains_key(#[trigger] names[i]) by {
        assert(names.to_set().contains(names[i]));
    }
    assert forall|i: int| 0 <= i < list.len() implies a.contains_key((#[trigger] list[i]).name)
        && list[i].has_key == (a[list[i].name].api_key is Some) by {
        assert(a.contains_key(names[i]));
    }
    assert forall|i: int, j: int| 0 <= i < j < list.len() implies precedes(
        (#[trigger] list[i]).name,
        (#[trigger] list[j]).name,
    ) by {
        assert(precedes(names[i], names[j]));
    }
    assert forall|name: Seq<char>| #[trigger] a.contains_key(name) implies exists|i: int|
        0 <= i < list.len() && (#[trigger] list[i]).name == name by {
        assert(names.to_set().contains(name));
        let i = names.index_of(name);
        assert(list[i].name == name);
    }
    assert(summaries_of(a) =~= summaries_of(b));
}

impl<'a> ModelSummary<'a> {
    /// What the summary shows.
    pub open spec fn shows(self) -> SummaryModel {
        SummaryModel {
            name: self.name@,
            url: self.url@,
            model: self.model@,
            has_key: self.has_key,
        }
    }

    /// Whether the summary is that of a configuration.
    pub open spec fn is_of(self, name: Seq<char>, service: ServiceModel) -> bool {
        self.name@ == name && self.url@ == service.url && self.model@ == service.model
            && self.has_key == (service.api_key is Some)
    }
}

/// Where a model service is, and the key for it.
pub struct ModelConnection<'a> {
    pub url: Url,
    pub api_key: Option<&'a str>,
}

/// The key of a connection.
pub open spec fn connection_key(connection: ModelConnection<'_>) -> Option<Seq<char>> {
    match connection.api_key {
        Some(key) => Some(key@),
        None => None,
    }
}

/// The stored configurations, by their names.
pub struct ModelStore {
    profiles: StringMap<StoredModelProfile>,
}

/// What each configuration is.
pub open spec fn services(profiles: Map<Seq<char>, StoredModelProfile>) -> Map<
    Seq<char>,
    ServiceModel,
> {
    profiles.map_values(|profile: StoredModelProfile| profile.service())
}

/// Whether every configuration has a valid name and is valid.
pub open spec fn all_valid(profiles: Map<Seq<char>, ServiceModel>) -> bool {
    forall|name: Seq<char>| #[trigger]
        profiles.contains_key(name) ==> valid_name(name) && service_issue(
            profiles[name],
            parsed_url(profiles[name].url),
        ) is None
}

impl Default for ModelStore {
    fn default() -> (store: Self)
        ensures
            store.model() == Map::<Seq<char>, ServiceModel>::empty(),
    {
        let profiles: StringMap<StoredModelProfile> = StringMap::new();
        assert(services(profiles@) =~= Map::<Seq<char>, ServiceModel>::empty());
        ModelStore { profiles }
    }
}

/// What is wrong with the first `count` configurations, in the order of their names.
pub open spec fn profiles_issue(profiles: Map<Seq<char>, ServiceModel>, count: nat) -> Option<
    StoreIssue,
>
    decreases count,
{
    if count == 0 {
        None
    } else {
        let before = profiles_issue(profiles, (count - 1) as nat);
        let name = sorted_keys(profiles.dom())[count - 1];
        if before is Some {
            before
        } else if !valid_name(name) {
            Some(StoreIssue::Invalid(StoreProblem::Name))
        } else {
            service_issue(profiles[name], parsed_url(profiles[name].url))
        }
    }
}

proof fn lemma_profiles_issue_stays(
    profiles: Map<Seq<char>, ServiceModel>,
    fewer: nat,
    count: nat,
)
    requires
        fewer <= count,
        profiles_issue(profiles, fewer) is Some,
    ensures
        profiles_issue(profiles, count) == profiles_issue(profiles, fewer),
    decreases count,
{
    if fewer < count {
        lemma_profiles_issue_stays(profiles, fewer, (count - 1) as nat);
    }
}

impl ModelStore {
    /// The configurations, by their names.
    pub closed spec fn model(self) -> Map<Seq<char>, ServiceModel> {
        services(self.profiles@)
    }

    #[verifier::type_invariant]
    spec fn valid(self) -> bool {
        all_valid(services(self.profiles@))
    }

    /// The store that a file of configurations holds, where nothing is wrong with them.
    pub fn from_profiles(profiles: StringMap<StoredModelProfile>) -> (outcome: Result<
        Self,
        ModelStoreError,
    >)
        ensures
            match profiles_issue(services(profiles@), services(profiles@).len()) {
                None => outcome is Ok && outcome->Ok_0.model() == services(profiles@),
                Some(issue) => outcome is Err && outcome->Err_0.reports(issue),
            },
    {
        let count: usize = profiles.len();
        let ghost map = services(profiles@);
        proof {
            assert(map.dom() =~= profiles@.dom());
            lemma_sorted_keys(profiles.keys());
        }
        for i in 0..count
            invariant
                count == profiles.keys().len(),
                count == map.len(),
                profiles.ordered(),
                map == services(profiles@),
                sorted_keys(map.dom()) == profiles.keys(),
                profiles_issue(map, i as nat) is None,
                forall|j: int|
                    0 <= j < i ==> valid_name(#[trigger] profiles.keys()[j]) && service_issue(
                        map[profiles.keys()[j]],
                        parsed_url(map[profiles.keys()[j]].url),
                    ) is None,
        {
            let name = profiles.key_at(i);
            let profile = profiles.value_at(i);
            assert(profiles@.contains_key(profiles.keys()[i as int]));
            assert(map[name@] == profile.service());
            proof {
                if profiles_issue(map, (i + 1) as nat) is Some {
                    lemma_profiles_issue_stays(map, (i + 1) as nat, map.len());
                }
            }
            match validate_name(name.as_str()) {
                Ok(_) => {},
                Err(error) => {
                    return Err(error);
                },
            }
            match validate_profile(profile.url.as_str(), profile.model.as_str(), &profile.api_key) {
                Ok(_) => {},
                Err(error) => {
                    return Err(error);
                },
            }
        }
        proof {
            assert forall|name: Seq<char>| #[trigger] map.contains_key(name) implies valid_name(name)
                && service_issue(map[name], parsed_url(map[name].url)) is None by {
                assert(profiles.keys().to_set().contains(name));
                let j = profiles.keys().index_of(name);
                assert(profiles.keys()[j] == name);
            }
        }
        Ok(ModelStore { profiles })
    }

    /// Stores a configuration under a name.
    pub fn set(&mut self, name: String, url: String, model: String, api_key: Option<String>) -> (outcome:
        Result<(), ModelStoreError>)
        ensures
            ({
                let service = ServiceModel {
                    url: url@,
                    model: model@,
                    api_key: optional_text(api_key),
                };
                let issue = if !valid_name(name@) {
                    Some(StoreIssue::Invalid(StoreProblem::Name))
                } else {
                    service_issue(service, parsed_url(url@))
                };
                &&& store_outcome_is(outcome, issue)
                &&& final(self).model() == (if issue is None {
                    old(self).model().insert(name@, service)
                } else {
                    old(self).model()
                })
            }),
    {
        match validate_name(name.as_str()) {
            Ok(_) => {},
            Err(error) => {
                return Err(error);
            },
        }
        match validate_profile(url.as_str(), model.as_str(), &api_key) {
            Ok(_) => {},
            Err(error) => {
                return Err(error);
            },
        }
        let profile = StoredModelProfile { url, model, api_key };
        self.put(name, profile);
        Ok(())
    }

    /// Stores a valid configuration under a valid name.
    fn put(&mut self, name: String, profile: StoredModelProfile)
        requires
            valid_name(name@),
            service_issue(profile.service(), parsed_url(profile.service().url)) is None,
        ensures
            final(self).model() == old(self).model().insert(name@, profile.service()),
    {
        proof {
            use_type_invariant(&*self);
        }
        let ghost before = self.model();
        let mut profiles: StringMap<StoredModelProfile> = StringMap::new();
        assert(services(profiles@) =~= Map::<Seq<char>, ServiceModel>::empty());
        std::mem::swap(&mut self.profiles, &mut profiles);
        profiles.insert(name, profile);
        assert(services(profiles@) =~= before.insert(name@, profile.service()));
        self.profiles = profiles;
    }

    /// Removes a configuration.
    pub fn delete(&mut self, name: &str) -> (outcome: Result<(), ModelStoreError>)
        ensures
            store_outcome_is(
                outcome,
                if old(self).model().contains_key(name@) {
                    None
                } else {
                    Some(StoreIssue::Missing(name@))
                },
            ),
            final(self).model() == old(self).model().remove(name@),
    {
        proof {
            use_type_invariant(&*self);
        }
        let ghost before = self.model();
        let mut profiles: StringMap<StoredModelProfile> = StringMap::new();
        assert(services(profiles@) =~= Map::<Seq<char>, ServiceModel>::empty());
        std::mem::swap(&mut self.profiles, &mut profiles);
        let removed = profiles.remove(name);
        assert(services(profiles@) =~= before.remove(name@));
        self.profiles = profiles;
        match removed {
            Some(_) => Ok(()),
            None => Err(ModelStoreError::Missing(name.to_owned())),
        }
    }

    /// Uses another model of a configured service, whose URL and key stay as they are.
    pub fn select_model(&mut self, name: &str, model: String) -> (outcome: Result<
        (),
        ModelStoreError,
    >)
        ensures
            ({
                let issue = if blank(model@) {
                    Some(StoreIssue::Invalid(StoreProblem::EmptyModel))
                } else if !old(self).model().contains_key(name@) {
                    Some(StoreIssue::Missing(name@))
                } else {
                    None
                };
                &&& store_outcome_is(outcome, issue)
                &&& final(self).model() == (if issue is None {
                    old(self).model().insert(
                        name@,
                        ServiceModel { model: model@, ..old(self).model()[name@] },
                    )
                } else {
                    old(self).model()
                })
            }),
    {
        proof {
            use_type_invariant(&*self);
        }
        match validate_model(model.as_str()) {
            Ok(_) => {},
            Err(error) => {
                return Err(error);
            },
        }
        let (url, api_key) = match self.profiles.get(name) {
            None => {
                return Err(ModelStoreError::Missing(name.to_owned()));
            },
            Some(profile) => (profile.url.clone(), clone_optional(&profile.api_key)),
        };
        assert(self.model().contains_key(name@));
        let profile = StoredModelProfile { url, model, api_key };
        self.put(name.to_owned(), profile);
        Ok(())
    }

    /// Whether there is a configuration of a name.
    pub fn contains(&self, name: &str) -> (found: bool)
        ensures
            found == self.model().contains_key(name@),
    {
        self.profiles.contains_key(name)
    }

    /// The summaries of all configurations, in the order of their names.
    pub fn summaries(&self) -> (list: Vec<ModelSummary<'_>>)
        ensures
            summary_models(list@) == summaries_of(self.model()),
            self.model().dom().finite(),
            list@.len() == self.model().len(),
            ascending(sorted_keys(self.model().dom())),
            forall|i: int|
                0 <= i < list@.len() ==> {
                    let name = sorted_keys(self.model().dom())[i];
                    (#[trigger] list@[i]).is_of(name, self.model()[name])
                },
    {
        let count: usize = self.profiles.len();
        let ghost map = self.model();
        proof {
            assert(map.dom() =~= self.profiles@.dom());
            lemma_sorted_keys(self.profiles.keys());
        }
        let mut list: Vec<ModelSummary<'_>> = Vec::new();
        for i in 0..count
            invariant
                count == self.profiles.keys().len(),
                count == map.len(),
                self.profiles.ordered(),
                map == services(self.profiles@),
                sorted_keys(map.dom()) == self.profiles.keys(),
                list@.len() == i,
                forall|j: int|
                    0 <= j < i ==> {
                        let name = sorted_keys(map.dom())[j];
                        (#[trigger] list@[j]).is_of(name, map[name])
                    },
        {
            let name = self.profiles.key_at(i);
            let profile = self.profiles.value_at(i);
            assert(self.profiles@.contains_key(self.profiles.keys()[i as int]));
            assert(map[name@] == profile.service());
            list.push(
                ModelSummary {
                    name: name.as_str(),
                    url: profile.url.as_str(),
                    model: profile.model.as_str(),
                    has_key: profile.api_key.is_some(),
                },
            );
        }
        proof {
            let shown = summary_models(list@);
            assert forall|i: int| 0 <= i < shown.len() implies shown[i] == summaries_of(map)[i] by {
                assert(list@[i].is_of(sorted_keys(map.dom())[i], map[sorted_keys(map.dom())[i]]));
            }
            assert(shown =~= summaries_of(map));
        }
        list
    }

    /// The summary of a configuration.
    pub fn summary<'a>(&'a self, name: &'a str) -> (outcome: Result<
        ModelSummary<'a>,
        ModelStoreError,
    >)
        ensures
            outcome is Ok <==> self.model().contains_key(name@),
            outcome is Ok ==> outcome->Ok_0.is_of(name@, self.model()[name@]),
            outcome is Err ==> outcome->Err_0.reports(StoreIssue::Missing(name@)),
    {
        match self.profiles.get(name) {
            None => Err(ModelStoreError::Missing(name.to_owned())),
            Some(profile) => Ok(
                ModelSummary {
                    name,
                    url: profile.url.as_str(),
                    model: profile.model.as_str(),
                    has_key: profile.api_key.is_some(),
                },
            ),
        }
    }

    /// Where a configured service is, and the key for it. The URL of a stored configuration is
    /// valid, so only a missing name is an error.
    pub fn connection(&self, name: &str) -> (outcome: Result<ModelConnection<'_>, ModelStoreError>)
        ensures
            outcome is Ok <==> self.model().contains_key(name@),
            outcome is Ok ==> Some(url_model(outcome->Ok_0.url)) == parsed_url(
                self.model()[name@].url,
            ) && url_problem(url_model(outcome->Ok_0.url)) is None && connection_key(outcome->Ok_0)
                == self.model()[name@].api_key,
            outcome is Err ==> outcome->Err_0.reports(StoreIssue::Missing(name@)),
    {
        proof {
            use_type_invariant(self);
        }
        match self.profiles.get(name) {
            None => Err(ModelStoreError::Missing(name.to_owned())),
            Some(profile) => {
                assert(self.model().contains_key(name@));
                match validate_url(profile.url.as_str()) {
                    Err(error) => Err(error),
                    Ok(url) => Ok(
                        ModelConnection {
                            url,
                            api_key: match &profile.api_key {
                                Some(key) => Some(key.as_str()),
                                None => None,
                            },
                        },
                    ),
                }
            },
        }
    }

    /// The configuration of a name, ready to be used.
    pub fn into_profile(self, name: &str) -> (outcome: Result<ModelProfile, ModelStoreError>)
        ensures
            outcome is Ok <==> self.model().contains_key(name@),
            outcome is Ok ==> Some(url_model(outcome->Ok_0.url)) == parsed_url(
                self.model()[name@].url,
            ) && url_problem(url_model(outcome->Ok_0.url)) is None && outcome->Ok_0.model@
                == self.model()[name@].model && optional_text(outcome->Ok_0.api_key)
                == self.model()[name@].api_key,
            outcome is Err ==> outcome->Err_0.reports(StoreIssue::Missing(name@)),
    {
        proof {
            use_type_invariant(&self);
        }
        let ghost services = self.model();
        let mut profiles = self.profiles;
        match profiles.remove(name) {
            None => Err(ModelStoreError::Missing(name.to_owned())),
            Some(profile) => {
                assert(services.contains_key(name@));
                assert(services[name@] == profile.service());
                match validate_url(profile.url.as_str()) {
                    Err(error) => Err(error),
                    Ok(url) => Ok(
                        ModelProfile { url, model: profile.model, api_key: profile.api_key },
                    ),
                }
            },
        }
    }
}

/// Checks the size of a file of model configurations before it is read.
pub fn check_size(length: u64) -> (outcome: Result<(), ModelStoreError>)
    ensures
        store_outcome_is(
            outcome,
            if length > MAX_MODEL_STORE_SIZE {
                Some(StoreIssue::Invalid(StoreProblem::TooLarge))
            } else {
                None
            },
        ),
{
    if length > MAX_MODEL_STORE_SIZE {
        return Err(ModelStoreError::Invalid(StoreProblem::TooLarge));
    }
    Ok(())
}

/// A configuration as JSON; a missing key is left out.
pub open spec fn service_json(service: ServiceModel) -> JsonModel {
    JsonModel::Object(
        seq![
            ("url"@, JsonModel::Text(service.url)),
            ("model"@, JsonModel::Text(service.model)),
        ] + (match service.api_key {
            Some(key) => seq![("api_key"@, JsonModel::Text(key))],
            None => Seq::empty(),
        }),
    )
}

/// The configurations as JSON, in the order of their names.
pub open spec fn store_json(profiles: Map<Seq<char>, ServiceModel>) -> JsonModel {
    let names = sorted_keys(profiles.dom());
    JsonModel::Object(
        seq![
            (
                "profiles"@,
                JsonModel::Object(
                    Seq::new(names.len(), |i: int| (names[i], service_json(profiles[names[i]]))),
                ),
            ),
        ],
    )
}

fn profile_to_json(profile: &StoredModelProfile) -> (json: Json)
    ensures
        json.model() == service_json(profile.service()),
        well_formed(json.model()),
{
    let mut entries: Vec<(String, Json)> = Vec::new();
    push_member(&mut entries, "url", Json::text(profile.url.as_str()));
    push_member(&mut entries, "model", Json::text(profile.model.as_str()));
    if let Some(key) = &profile.api_key {
        push_member(&mut entries, "api_key", Json::text(key.as_str()));
    }
    let ghost expected = service_json(profile.service())->Object_0;
    assert(members(entries@) =~= expected);
    proof {
        reveal_strlit("url");
        reveal_strlit("model");
        reveal_strlit("api_key");
        assert("url"@.len() == 3 && "model"@.len() == 5 && "api_key"@.len() == 7);
        assert(expected.len() == 2 || expected.len() == 3);
        assert(expected[0].0 == "url"@ && expected[1].0 == "model"@);
        assert(expected.len() > 2 ==> expected[2].0 == "api_key"@);
        lemma_keys_distinct(expected);
        assert forall|i: int| 0 <= i < expected.len() implies well_formed((#[trigger] expected[i]).1) by {
            assert(expected[i].1 is Text);
        }
    }
    object(entries)
}

impl ModelStore {
    /// The contents of the file of configurations: an indented document that ends in a line break.
    pub fn to_pretty_bytes(&self) -> (outcome: Result<Vec<u8>, ModelStoreError>)
        ensures
            outcome is Ok,
            outcome->Ok_0@ == pretty_encoding(store_json(self.model())).push(10u8),
            holds_document(outcome->Ok_0@, store_json(self.model())),
            store_document(store_json(self.model())) == Some(self.model()),
            profiles_issue(self.model(), self.model().len()) is None,
            self.model().dom().finite(),
    {
        proof {
            use_type_invariant(self);
            law_store_finite(*self);
            law_store_reads_back(self.model());
            law_profiles_valid(self.model());
            lemma_store_nested(self.model());
        }
        let count: usize = self.profiles.len();
        let ghost map = self.model();
        let ghost expected = store_json(map)->Object_0;
        let ghost inner = expected[0].1->Object_0;
        proof {
            assert(map.dom() =~= self.profiles@.dom());
            lemma_sorted_keys(self.profiles.keys());
        }
        let mut profiles: Vec<(String, Json)> = Vec::new();
        assert(members(profiles@) =~= inner.take(0));
        for i in 0..count
            invariant
                count == self.profiles.keys().len(),
                self.profiles.ordered(),
                map == services(self.profiles@),
                sorted_keys(map.dom()) == self.profiles.keys(),
                inner == store_json(map)->Object_0[0].1->Object_0,
                members(profiles@) == inner.take(i as int),
                forall|j: int| 0 <= j < i ==> well_formed((#[trigger] inner[j]).1),
        {
            let ghost name = self.profiles.keys()[i as int];
            assert(self.profiles@.contains_key(name));
            let profile = profile_to_json(self.profiles.value_at(i));
            assert(inner[i as int] == (name, profile.model()));
            push_member(&mut profiles, self.profiles.key_at(i).as_str(), profile);
            assert(inner.take(i + 1) =~= inner.take(i as int).push(inner[i as int]));
        }
        assert(inner.take(count as int) =~= inner);
        let mut entries: Vec<(String, Json)> = Vec::new();
        push_member(&mut entries, "profiles", object(profiles));
        assert(members(entries@) =~= expected);
        proof {
            assert forall|i: int, j: int| 0 <= i < j < inner.len() implies (#[trigger] inner[i]).0
                != (#[trigger] inner[j]).0 by {
                assert(self.profiles.keys()[i] != self.profiles.keys()[j]);
            }
            lemma_keys_distinct(inner);
            assert(well_formed(expected[0].1));
            lemma_keys_distinct(expected);
            assert forall|i: int| 0 <= i < expected.len() implies well_formed(
                (#[trigger] expected[i]).1,
            ) by {}
        }
        match object(entries).to_pretty() {
            Ok(contents) => {
                let mut bytes = contents;
                bytes.push(10u8);
                Ok(bytes)
            },
            Err(source) => Err(ModelStoreError::Serialize(source)),
        }
    }
}

/// The file of model configurations in the home directory of a user.
pub fn model_store_path(home_dir: &str) -> (path: String)
    ensures
        exists|separator: char|
            (separator == '/' || separator == '\\') && path@ == #[trigger] entry_path(
                entry_path(home_dir@, ".locale-forge"@, separator),
                "models.json"@,
                separator,
            ),
{
    let separator = main_separator();
    let directory = entry_of(home_dir, ".locale-forge", separator);
    entry_of(directory.as_str(), "models.json", separator)
}

/// The message about a problem.
pub open spec fn problem_text(problem: StoreProblem) -> Seq<char> {
    match problem {
        StoreProblem::TooLarge => "模型配置文件超过 1048576 字节限制"@,
        StoreProblem::Url(UrlProblem::Credentials) => "模型 URL 不能包含用户名或密码"@,
        StoreProblem::Url(UrlProblem::Fragment) => "模型 URL 不能包含 fragment"@,
        StoreProblem::Url(UrlProblem::PlainHttp) => "HTTP 模型 URL 仅允许 localhost 或回环 IP"@,
        StoreProblem::Url(UrlProblem::Scheme) => "模型 URL 必须使用 HTTPS，或对回环地址使用 HTTP"@,
        StoreProblem::Name => "模型配置名称只能包含字母、数字、点、短横线和下划线"@,
        StoreProblem::EmptyModel => "模型名称不能为空"@,
        StoreProblem::EmptyKey => "API key 不能为空；无鉴权服务请使用 --no-key"@,
    }
}

fn show_problem(problem: StoreProblem) -> (text: &'static str)
    ensures
        text@ == problem_text(problem),
{
    match problem {
        StoreProblem::TooLarge => "模型配置文件超过 1048576 字节限制",
        StoreProblem::Url(UrlProblem::Credentials) => "模型 URL 不能包含用户名或密码",
        StoreProblem::Url(UrlProblem::Fragment) => "模型 URL 不能包含 fragment",
        StoreProblem::Url(UrlProblem::PlainHttp) => "HTTP 模型 URL 仅允许 localhost 或回环 IP",
        StoreProblem::Url(UrlProblem::Scheme) => "模型 URL 必须使用 HTTPS，或对回环地址使用 HTTP",
        StoreProblem::Name => "模型配置名称只能包含字母、数字、点、短横线和下划线",
        StoreProblem::EmptyModel => "模型名称不能为空",
        StoreProblem::EmptyKey => "API key 不能为空；无鉴权服务请使用 --no-key",
    }
}

impl ModelStoreError {
    /// The message about the error.
    pub open spec fn message(self) -> Seq<char> {
        match self {
            ModelStoreError::Parse { path, source } => "模型配置 "@ + path@ + " 不是有效 JSON: "@
                + json_error_text(source),
            ModelStoreError::Malformed(path) => "模型配置 "@ + path@
                + " 不是有效 JSON: 结构不符合要求"@,
            ModelStoreError::Serialize(source) => "无法序列化模型配置: "@ + json_error_text(source),
            ModelStoreError::Invalid(problem) => "模型配置无效: "@ + problem_text(problem),
            ModelStoreError::InvalidUrl { value, source } => "模型 URL 无效 "@ + value@ + ": "@
                + url_error_text(source),
            ModelStoreError::Missing(name) => "模型配置不存在: "@ + name@,
            ModelStoreError::NoHomeDirectory => "无法确定当前用户的主目录"@,
        }
    }

    /// The message about the error.
    pub fn to_string(&self) -> (text: String)
        ensures
            text@ == self.message(),
    {
        match self {
            ModelStoreError::Parse { path, source } => {
                let details = show_json_error(source);
                join4("模型配置 ", path.as_str(), " 不是有效 JSON: ", details.as_str())
            },
            ModelStoreError::Malformed(path) => join3(
                "模型配置 ",
                path.as_str(),
                " 不是有效 JSON: 结构不符合要求",
            ),
            ModelStoreError::Serialize(source) => {
                let details = show_json_error(source);
                join2("无法序列化模型配置: ", details.as_str())
            },
            ModelStoreError::Invalid(problem) => join2("模型配置无效: ", show_problem(*problem)),
            ModelStoreError::InvalidUrl { value, source } => {
                let details = show_url_error(source);
                join4("模型 URL 无效 ", value.as_str(), ": ", details.as_str())
            },
            ModelStoreError::Missing(name) => join2("模型配置不存在: ", name.as_str()),
            ModelStoreError::NoHomeDirectory => "无法确定当前用户的主目录".to_owned(),
        }
    }
}

/// The configuration that a document holds: an object with a URL, a model and, where there is
/// one, a key.
pub open spec fn service_document(value: JsonModel) -> Option<ServiceModel> {
    match value {
        JsonModel::Object(entries) => match (
            text_member(lookup(entries, "url"@)),
            text_member(lookup(entries, "model"@)),
            optional_text_member(lookup(entries, "api_key"@)),
        ) {
            (Some(url), Some(model), Some(api_key)) => Some(ServiceModel { url, model, api_key }),
            _ => None,
        },
        _ => None,
    }
}

/// The configurations that members hold, by their keys.
pub open spec fn member_services(entries: Seq<(Seq<char>, JsonModel)>) -> Map<
    Seq<char>,
    ServiceModel,
> {
    zip_map(keys(entries), Seq::new(entries.len(), |i: int| service_document(entries[i].1)->0))
}

/// The configurations that a document holds, where it is an object of them; a missing document
/// holds none.
pub open spec fn services_document(value: Option<JsonModel>) -> Option<
    Map<Seq<char>, ServiceModel>,
> {
    match value {
        None => Some(Map::empty()),
        Some(JsonModel::Object(entries)) => if forall|i: int|
            0 <= i < entries.len() ==> service_document((#[trigger] entries[i]).1) is Some {
            Some(member_services(entries))
        } else {
            None
        },
        _ => None,
    }
}

/// The configurations that a file holds: an object whose `profiles` are the configurations.
pub open spec fn store_document(document: JsonModel) -> Option<Map<Seq<char>, ServiceModel>> {
    match document {
        JsonModel::Object(entries) => services_document(lookup(entries, "profiles"@)),
        _ => None,
    }
}

fn read_service(value: &Json) -> (profile: Option<StoredModelProfile>)
    ensures
        match service_document(value.model()) {
            Some(expected) => profile is Some && profile->0.service() == expected,
            None => profile is None,
        },
{
    let entries = match value.as_object() {
        Some(entries) => entries,
        None => {
            return None;
        },
    };
    let url = read_text(find(entries, "url"));
    let model = read_text(find(entries, "model"));
    let api_key = read_optional_text(find(entries, "api_key"));
    match (url, model, api_key) {
        (Some(url), Some(model), Some(api_key)) => {
            let profile = StoredModelProfile { url, model, api_key };
            assert(profile.service() =~= service_document(value.model())->0);
            Some(profile)
        },
        _ => None,
    }
}

proof fn lemma_member_services_push(entries: Seq<(Seq<char>, JsonModel)>, at: int)
    requires
        keys(entries).no_duplicates(),
        0 <= at < entries.len(),
    ensures
        member_services(entries.take(at + 1)) == member_services(entries.take(at)).insert(
            entries[at].0,
            service_document(entries[at].1)->0,
        ),
{
    let values = Seq::new(entries.len(), |i: int| service_document(entries[i].1)->0);
    let (shorter, longer) = (entries.take(at), entries.take(at + 1));
    lemma_zip_push(keys(entries), values, at);
    assert(keys(longer) =~= keys(entries).take(at + 1));
    assert(keys(shorter) =~= keys(entries).take(at));
    assert(Seq::new(longer.len(), |i: int| service_document(longer[i].1)->0) =~= values.take(at + 1));
    assert(Seq::new(shorter.len(), |i: int| service_document(shorter[i].1)->0) =~= values.take(at));
}

fn read_services(value: Option<&Json>) -> (profiles: Option<StringMap<StoredModelProfile>>)
    requires
        value is Some ==> well_formed(value->0.model()),
    ensures
        match services_document(optional_model(value)) {
            Some(expected) => profiles is Some && services(profiles->0@) == expected,
            None => profiles is None,
        },
{
    let mut profiles: StringMap<StoredModelProfile> = StringMap::new();
    assert(services(profiles@) =~= Map::empty());
    let json = match value {
        Some(json) => json,
        None => {
            return Some(profiles);
        },
    };
    let list = match json.as_object() {
        Some(list) => list,
        None => {
            return None;
        },
    };
    let ghost entries = members(list@);
    assert(services(profiles@) =~= member_services(entries.take(0)));
    for i in 0..list.len()
        invariant
            entries == members(list@),
            value == Some(json),
            json.model() == JsonModel::Object(entries),
            keys(entries).no_duplicates(),
            forall|j: int| 0 <= j < i ==> service_document((#[trigger] entries[j]).1) is Some,
            services(profiles@) == member_services(entries.take(i as int)),
    {
        let ghost key = list@[i as int].0@;
        assert(entries[i as int] == (key, list@[i as int].1.model()));
        match read_service(&list[i].1) {
            Some(profile) => {
                let ghost before = services(profiles@);
                let ghost service = profile.service();
                profiles.insert(list[i].0.clone(), profile);
                proof {
                    lemma_member_services_push(entries, i as int);
                    assert(services(profiles@) =~= before.insert(key, service));
                }
            },
            None => {
                return None;
            },
        }
    }
    assert(entries.take(entries.len() as int) =~= entries);
    Some(profiles)
}

/// Whether an outcome of reading a file of configurations is the one that its document calls for.
pub open spec fn read_outcome_is(
    outcome: Result<ModelStore, ModelStoreError>,
    found: Option<JsonModel>,
    path: Seq<char>,
) -> bool {
    match found {
        None => outcome is Err && outcome->Err_0 is Parse && outcome->Err_0->Parse_path@ == path,
        Some(document) => match store_document(document) {
            None => outcome is Err && outcome->Err_0 is Malformed
                && outcome->Err_0->Malformed_0@ == path,
            Some(profiles) => match profiles_issue(profiles, profiles.len()) {
                Some(issue) => outcome is Err && outcome->Err_0.reports(issue),
                None => outcome is Ok && outcome->Ok_0.model() == profiles,
            },
        },
    }
}

impl ModelStore {
    /// The configurations that a document holds.
    pub fn from_json(document: &Json, path: &str) -> (outcome: Result<Self, ModelStoreError>)
        requires
            well_formed(document.model()),
        ensures
            read_outcome_is(outcome, Some(document.model()), path@),
    {
        let entries = match document.as_object() {
            Some(entries) => entries,
            None => {
                return Err(ModelStoreError::Malformed(path.to_owned()));
            },
        };
        let value = find(entries, "profiles");
        proof {
            if value is Some {
                let at = lemma_lookup_position(members(entries@), "profiles"@);
                assert(well_formed(members(entries@)[at].1));
            }
        }
        match read_services(value) {
            Some(profiles) => ModelStore::from_profiles(profiles),
            None => Err(ModelStoreError::Malformed(path.to_owned())),
        }
    }

    /// Reads the contents of the file of configurations at a path.
    pub fn parse(contents: &str, path: &str) -> (outcome: Result<Self, ModelStoreError>)
        ensures
            read_outcome_is(outcome, json_document(contents@), path@),
    {
        match parse_json(contents) {
            Ok(document) => ModelStore::from_json(&document, path),
            Err(source) => Err(ModelStoreError::Parse { path: path.to_owned(), source }),
        }
    }
}

proof fn lemma_service_reads_back(service: ServiceModel)
    ensures
        service_document(service_json(service)) == Some(service),
{
    let entries = service_json(service)->Object_0;
    reveal_strlit("url");
    reveal_strlit("model");
    reveal_strlit("api_key");
    assert("url"@.len() == 3 && "model"@.len() == 5 && "api_key"@.len() == 7);
    assert(entries[0].0 == "url"@ && entries[1].0 == "model"@);
    assert(entries.len() > 2 ==> entries[2].0 == "api_key"@);
    assert(entries.len() == 2 || entries.len() == 3);
    lemma_keys_distinct(entries);
    lemma_lookup_distinct(entries, 0);
    lemma_lookup_distinct(entries, 1);
    if service.api_key is Some {
        lemma_lookup_distinct(entries, 2);
    } else {
        crate::value::lemma_lookup_absent(entries, "api_key"@);
    }
}

/// Configurations read back from the document that they are written as.
pub proof fn law_store_reads_back(profiles: Map<Seq<char>, ServiceModel>)
    requires
        profiles.dom().finite(),
    ensures
        store_document(store_json(profiles)) == Some(profiles),
{
    let entries = store_json(profiles)->Object_0;
    let list = entries[0].1->Object_0;
    let names = sorted_keys(profiles.dom());
    assert(entries[0].0 == "profiles"@);
    lemma_keys_distinct(entries);
    lemma_lookup_distinct(entries, 0);
    law_sorted_keys(profiles.dom());
    assert forall|i: int| 0 <= i < list.len() implies service_document((#[trigger] list[i]).1)
        == Some(profiles[names[i]]) by {
        lemma_service_reads_back(profiles[names[i]]);
    }
    lemma_zip_sorted(profiles);
    assert(keys(list) =~= names);
    assert(Seq::new(list.len(), |i: int| service_document(list[i].1)->0) =~= Seq::new(
        names.len(),
        |i: int| profiles[names[i]],
    ));
}

/// A store has finitely many configurations.
pub proof fn law_store_finite(store: ModelStore)
    ensures
        store.model().dom().finite(),
{
    law_map_finite(store.profiles);
    assert(store.model().dom() =~= store.profiles@.dom());
}

proof fn lemma_service_nested(service: ServiceModel)
    ensures
        nested_within(service_json(service), 125),
{
    let entries = service_json(service)->Object_0;
    assert forall|i: int| 0 <= i < entries.len() implies nested_within(
        (#[trigger] entries[i]).1,
        124,
    ) by {
        lemma_not_nested(entries[i].1, 124);
    }
    lemma_nested_object(entries, 125);
}

proof fn lemma_store_nested(profiles: Map<Seq<char>, ServiceModel>)
    ensures
        nested_within(store_json(profiles), 127),
{
    let entries = store_json(profiles)->Object_0;
    let list = entries[0].1->Object_0;
    let names = sorted_keys(profiles.dom());
    assert forall|i: int| 0 <= i < list.len() implies nested_within(
        (#[trigger] list[i]).1,
        125,
    ) by {
        lemma_service_nested(profiles[names[i]]);
    }
    lemma_nested_object(list, 126);
    assert forall|i: int| 0 <= i < entries.len() implies nested_within(
        (#[trigger] entries[i]).1,
        126,
    ) by {}
    lemma_nested_object(entries, 127);
}

proof fn lemma_profiles_valid(profiles: Map<Seq<char>, ServiceModel>, count: nat)
    requires
        profiles.dom().finite(),
        count <= profiles.len(),
    ensures
        profiles_issue(profiles, count) is None <==> forall|i: int|
            0 <= i < count ==> valid_name(#[trigger] sorted_keys(profiles.dom())[i]) && service_issue(
                profiles[sorted_keys(profiles.dom())[i]],
                parsed_url(profiles[sorted_keys(profiles.dom())[i]].url),
            ) is None,
    decreases count,
{
    let names = sorted_keys(profiles.dom());
    if count > 0 {
        lemma_profiles_valid(profiles, (count - 1) as nat);
        let last = names[count - 1];
        if profiles_issue(profiles, count) is None {
            assert forall|i: int| 0 <= i < count implies valid_name(#[trigger] names[i])
                && service_issue(profiles[names[i]], parsed_url(profiles[names[i]].url)) is None by {
                if i == count - 1 {
                    assert(names[i] == last);
                }
            }
        }
    }
}

/// Nothing is wrong with configurations exactly where every one of them is valid.
pub proof fn law_profiles_valid(profiles: Map<Seq<char>, ServiceModel>)
    requires
        profiles.dom().finite(),
    ensures
        profiles_issue(profiles, profiles.len()) is None <==> all_valid(profiles),
{
    let names = sorted_keys(profiles.dom());
    law_sorted_keys(profiles.dom());
    lemma_profiles_valid(profiles, profiles.len());
    if profiles_issue(profiles, profiles.len()) is None {
        assert forall|name: Seq<char>| #[trigger] profiles.contains_key(name) implies valid_name(name)
            && service_issue(profiles[name], parsed_url(profiles[name].url)) is None by {
            assert(names.to_set().contains(name));
            let i = names.index_of(name);
            assert(names[i] == name);
        }
    }
    if all_valid(profiles) {
        assert forall|i: int| 0 <= i < profiles.len() implies valid_name(#[trigger] names[i])
            && service_issue(profiles[names[i]], parsed_url(profiles[names[i]].url)) is None by {
            assert(names.to_set().contains(names[i]));
            assert(profiles.contains_key(names[i]));
        }
    }
}

/// Reading the file that a store was written to gives the store again.
pub proof fn law_saved_store_loads(
    profiles: Map<Seq<char>, ServiceModel>,
    bytes: Seq<u8>,
    text: Seq<char>,
    outcome: Result<ModelStore, ModelStoreError>,
    path: Seq<char>,
)
    requires
        profiles.dom().finite(),
        all_valid(profiles),
        holds_document(bytes, store_json(profiles)),
        encode_utf8(text) == bytes,
        read_outcome_is(outcome, json_document(text), path),
    ensures
        outcome is Ok,
        outcome->Ok_0.model() == profiles,
{
    law_store_reads_back(profiles);
    law_profiles_valid(profiles);
}

} // verus!
