//! The record of which source texts the translations of a project were made from.
use crate::catalog::{CatalogFormat, SourceFingerprints};
use crate::catalog::json::optional_model;
use crate::fingerprint::{is_valid_fingerprint, valid_fingerprint};
use crate::locale::{language, language_of};
use crate::map::{
    law_map_finite, law_sorted_keys, lemma_sorted_keys, lemma_zip_push, lemma_zip_sorted,
    sorted_keys, text_map, zip_map, StringMap,
};
use crate::paths::{entry_of, entry_path, main_separator};
use crate::text::{
    chars_of, contains_text, decimal, join2, join3, join4, join5, law_decimal_parses, quoted,
    quoted_form, same_text, texts, to_decimal,
};
use crate::value::{
    find, holds_document, json_document, json_error_text, keys, lemma_keys_distinct,
    lemma_lookup_distinct, lemma_lookup_position, lemma_nested_object, lemma_not_nested, lookup,
    members, nested_within, number_member, object, only_keys, parse_json, pretty_encoding,
    push_member, read_number, read_text, read_text_members, show_json_error, text_member,
    text_members, well_formed, Json, JsonModel,
};
use vstd::prelude::*;
use vstd::utf8::encode_utf8;

verus! {

/// The name of the state file.
pub const STATE_FILE_NAME: &'static str = "locale-forge.lock.json";

/// The version of the state file that this library reads and writes.
pub const STATE_VERSION: u32 = 1;

/// The largest state file that is read, in bytes.
pub const MAX_STATE_SIZE: u64 = 67108864;

/// The source texts that the accepted translations of each target were made from.
#[derive(Debug, PartialEq, Eq)]
pub struct TranslationState {
    version: u32,
    source_locale: String,
    source_format: CatalogFormat,
    targets: StringMap<SourceFingerprints>,
}

/// What a state is.
#[verifier::ext_equal]
pub struct StateModel {
    pub version: u32,
    pub source_locale: Seq<char>,
    pub source_format: CatalogFormat,
    pub targets: Map<Seq<char>, Map<Seq<char>, Seq<char>>>,
}

/// The texts of each map of a map.
pub open spec fn text_maps(map: Map<Seq<char>, SourceFingerprints>) -> Map<
    Seq<char>,
    Map<Seq<char>, Seq<char>>,
> {
    map.map_values(|inner: SourceFingerprints| text_map(inner@))
}

/// What is wrong with a state.
#[derive(Debug)]
pub enum StateProblem {
    InvalidLocale { field: &'static str, locale: String },
    InvalidPath { locale: String, path: String },
    InvalidFingerprint { locale: String, path: String },
}

/// An error of the state file.
#[derive(Debug)]
pub enum StateError {
    TooLarge { path: String, limit: u64 },
    Parse { path: String, source: serde_json::Error },
    Malformed(String),
    UnsupportedVersion(u32),
    Invalid(StateProblem),
    Serialize(serde_json::Error),
}

/// What is wrong with a state.
pub enum StateIssue {
    UnsupportedVersion(u32),
    InvalidLocale { field: Seq<char>, locale: Seq<char> },
    InvalidPath { locale: Seq<char>, path: Seq<char> },
    InvalidFingerprint { locale: Seq<char>, path: Seq<char> },
}

impl StateError {
    /// Whether the error reports what is wrong.
    pub open spec fn reports(self, issue: StateIssue) -> bool {
        match (self, issue) {
            (StateError::UnsupportedVersion(found), StateIssue::UnsupportedVersion(version)) => found
                == version,
            (
                StateError::Invalid(StateProblem::InvalidLocale { field, locale }),
                StateIssue::InvalidLocale { field: place, locale: code },
            ) => field@ == place && locale@ == code,
            (
                StateError::Invalid(StateProblem::InvalidPath { locale, path }),
                StateIssue::InvalidPath { locale: code, path: name },
            ) => locale@ == code && path@ == name,
            (
                StateError::Invalid(StateProblem::InvalidFingerprint { locale, path }),
                StateIssue::InvalidFingerprint { locale: code, path: name },
            ) => locale@ == code && path@ == name,
            _ => false,
        }
    }
}

/// Whether a result is success, or the failure that the problem calls for.
pub open spec fn state_outcome_is(
    outcome: Result<(), StateError>,
    issue: Option<StateIssue>,
) -> bool {
    match issue {
        None => outcome is Ok,
        Some(found) => outcome is Err && outcome->Err_0.reports(found),
    }
}

/// Whether there are finitely many records, each with finitely many entries.
pub open spec fn finite_records(targets: Map<Seq<char>, Map<Seq<char>, Seq<char>>>) -> bool {
    targets.dom().finite() && forall|locale: Seq<char>| #[trigger]
        targets.contains_key(locale) ==> targets[locale].dom().finite()
}

/// What is wrong with the entry of a path.
pub open spec fn entry_issue(
    locale: Seq<char>,
    entries: Map<Seq<char>, Seq<char>>,
    path: Seq<char>,
) -> Option<StateIssue> {
    if !valid_path(path) {
        Some(StateIssue::InvalidPath { locale, path })
    } else if !valid_fingerprint(entries[path]) {
        Some(StateIssue::InvalidFingerprint { locale, path })
    } else {
        None
    }
}

/// The first thing that is wrong with the entries of the first `count` paths.
pub open spec fn entries_issue(
    locale: Seq<char>,
    entries: Map<Seq<char>, Seq<char>>,
    count: nat,
) -> Option<StateIssue>
    decreases count,
{
    if count == 0 {
        None
    } else {
        let before = entries_issue(locale, entries, (count - 1) as nat);
        if before is Some {
            before
        } else {
            entry_issue(locale, entries, sorted_keys(entries.dom())[count - 1])
        }
    }
}

/// What is wrong with the record of a target.
pub open spec fn record_issue(
    locale: Seq<char>,
    entries: Map<Seq<char>, Seq<char>>,
) -> Option<StateIssue> {
    if language_of(locale) is Err {
        Some(StateIssue::InvalidLocale { field: "targets 的语言代码"@, locale })
    } else {
        entries_issue(locale, entries, entries.len())
    }
}

/// The first thing that is wrong with the records of the first `count` targets.
pub open spec fn records_issue(
    targets: Map<Seq<char>, Map<Seq<char>, Seq<char>>>,
    count: nat,
) -> Option<StateIssue>
    decreases count,
{
    if count == 0 {
        None
    } else {
        let before = records_issue(targets, (count - 1) as nat);
        let locale = sorted_keys(targets.dom())[count - 1];
        if before is Some {
            before
        } else {
            record_issue(locale, targets[locale])
        }
    }
}

/// The first thing that is wrong with a state; targets and paths are taken in ascending order.
pub open spec fn state_issue(state: StateModel) -> Option<StateIssue> {
    if state.version != STATE_VERSION {
        Some(StateIssue::UnsupportedVersion(state.version))
    } else if language_of(state.source_locale) is Err {
        Some(StateIssue::InvalidLocale { field: "source.locale"@, locale: state.source_locale })
    } else {
        records_issue(state.targets, state.targets.len())
    }
}

proof fn lemma_entries_issue_stays(
    locale: Seq<char>,
    entries: Map<Seq<char>, Seq<char>>,
    fewer: nat,
    count: nat,
)
    requires
        fewer <= count,
        entries_issue(locale, entries, fewer) is Some,
    ensures
        entries_issue(locale, entries, count) == entries_issue(locale, entries, fewer),
    decreases count,
{
    if fewer < count {
        lemma_entries_issue_stays(locale, entries, fewer, (count - 1) as nat);
    }
}

proof fn lemma_records_issue_stays(
    targets: Map<Seq<char>, Map<Seq<char>, Seq<char>>>,
    fewer: nat,
    count: nat,
)
    requires
        fewer <= count,
        records_issue(targets, fewer) is Some,
    ensures
        records_issue(targets, count) == records_issue(targets, fewer),
    decreases count,
{
    if fewer < count {
        lemma_records_issue_stays(targets, fewer, (count - 1) as nat);
    }
}

/// Whether a text has the form of a path.
pub open spec fn valid_path(path: Seq<char>) -> bool {
    path.len() > 0 && path[0] == '/'
}

/// Whether a text has the form of a path.
pub fn is_valid_path(path: &str) -> (valid: bool)
    ensures
        valid == valid_path(path@),
{
    let chars = chars_of(path);
    chars.len() > 0 && chars[0] == '/'
}

fn validate_locale(field: &'static str, locale: &str) -> (outcome: Result<(), StateError>)
    ensures
        outcome is Ok <==> language_of(locale@) is Ok,
        outcome is Err ==> outcome->Err_0.reports(
            StateIssue::InvalidLocale { field: field@, locale: locale@ },
        ),
{
    match language(locale) {
        Ok(_) => Ok(()),
        Err(_) => Err(
            StateError::Invalid(StateProblem::InvalidLocale { field, locale: locale.to_owned() }),
        ),
    }
}

/// Checks the entries of a record, in the order of their paths.
pub fn validate_entries(locale: &str, entries: &SourceFingerprints) -> (outcome: Result<
    (),
    StateError,
>)
    ensures
        state_outcome_is(
            outcome,
            entries_issue(locale@, text_map(entries@), text_map(entries@).len()),
        ),
{
    let count: usize = entries.len();
    let ghost map = text_map(entries@);
    proof {
        assert(map.dom() =~= entries@.dom());
        lemma_sorted_keys(entries.keys());
    }
    for i in 0..count
        invariant
            count == entries.keys().len(),
            count == map.len(),
            entries.ordered(),
            map == text_map(entries@),
            sorted_keys(map.dom()) == entries.keys(),
            entries_issue(locale@, map, i as nat) is None,
    {
        let path = entries.key_at(i);
        let value = entries.value_at(i);
        assert(entries@.contains_key(entries.keys()[i as int]));
        assert(map[path@] == value@);
        proof {
            if entries_issue(locale@, map, (i + 1) as nat) is Some {
                lemma_entries_issue_stays(locale@, map, (i + 1) as nat, map.len());
            }
        }
        if !is_valid_path(path.as_str()) {
            return Err(
                StateError::Invalid(
                    StateProblem::InvalidPath { locale: locale.to_owned(), path: path.clone() },
                ),
            );
        }
        if !is_valid_fingerprint(value.as_str()) {
            return Err(
                StateError::Invalid(
                    StateProblem::InvalidFingerprint { locale: locale.to_owned(), path: path.clone() },
                ),
            );
        }
    }
    Ok(())
}

fn validate_record(locale: &str, entries: &SourceFingerprints) -> (outcome: Result<(), StateError>)
    ensures
        state_outcome_is(outcome, record_issue(locale@, text_map(entries@))),
{
    match validate_locale("targets 的语言代码", locale) {
        Ok(_) => validate_entries(locale, entries),
        Err(error) => Err(error),
    }
}

/// Whether two records are equal.
fn same_record(a: &SourceFingerprints, b: &SourceFingerprints) -> (same: bool)
    ensures
        same == (text_map(a@) == text_map(b@)),
{
    crate::catalog::arb::same_text_map(a, b)
}

impl TranslationState {
    /// What the state is.
    pub closed spec fn model(self) -> StateModel {
        StateModel {
            version: self.version,
            source_locale: self.source_locale@,
            source_format: self.source_format,
            targets: text_maps(self.targets@),
        }
    }

    /// A state without targets.
    pub fn new(source_locale: &str, format: CatalogFormat) -> (state: Self)
        ensures
            state.model() == (StateModel {
                version: STATE_VERSION,
                source_locale: source_locale@,
                source_format: format,
                targets: Map::empty(),
            }),
    {
        let state = TranslationState {
            version: STATE_VERSION,
            source_locale: source_locale.to_owned(),
            source_format: format,
            targets: StringMap::new(),
        };
        assert(state.model().targets =~= Map::empty());
        state
    }

    /// The state that a state file holds, where nothing is wrong with it.
    pub fn from_parts(
        version: u32,
        source_locale: String,
        source_format: CatalogFormat,
        targets: StringMap<SourceFingerprints>,
    ) -> (outcome: Result<Self, StateError>)
        ensures
            ({
                let model = StateModel {
                    version,
                    source_locale: source_locale@,
                    source_format,
                    targets: text_maps(targets@),
                };
                match state_issue(model) {
                    None => outcome is Ok && outcome->Ok_0.model() == model,
                    Some(issue) => outcome is Err && outcome->Err_0.reports(issue),
                }
            }),
    {
        let state = TranslationState { version, source_locale, source_format, targets };
        match state.validate() {
            Ok(_) => Ok(state),
            Err(error) => Err(error),
        }
    }

    /// Whether the state is about translations of a source.
    pub fn matches_source(&self, source_locale: &str, format: CatalogFormat) -> (matches: bool)
        ensures
            matches == (self.model().source_locale == source_locale@ && self.model().source_format
                == format),
    {
        same_text(self.source_locale.as_str(), source_locale) && self.source_format == format
    }

    /// The record of a target.
    pub fn target(&self, locale: &str) -> (record: Option<&SourceFingerprints>)
        ensures
            record is Some <==> self.model().targets.contains_key(locale@),
            record is Some ==> text_map(record->0@) == self.model().targets[locale@],
    {
        self.targets.get(locale)
    }

    /// Makes the state one of another source: the records of all targets are dropped.
    pub fn reset_source(&mut self, source_locale: &str, format: CatalogFormat)
        ensures
            final(self).model() == (StateModel {
                version: old(self).model().version,
                source_locale: source_locale@,
                source_format: format,
                targets: Map::empty(),
            }),
    {
        self.source_locale = source_locale.to_owned();
        self.source_format = format;
        self.targets = StringMap::new();
        assert(self.model().targets =~= Map::empty());
    }

    /// Records the source texts of a target; whether that is a change.
    pub fn set_target(&mut self, locale: &str, fingerprints: SourceFingerprints) -> (changed: bool)
        ensures
            changed == !(old(self).model().targets.contains_key(locale@) && old(
                self,
            ).model().targets[locale@] == text_map(fingerprints@)),
            final(self).model() == (StateModel {
                targets: old(self).model().targets.insert(locale@, text_map(fingerprints@)),
                ..old(self).model()
            }),
    {
        let ghost before = self.model();
        if let Some(record) = self.targets.get(locale) {
            if same_record(record, &fingerprints) {
                assert(before.targets.insert(locale@, text_map(fingerprints@)) =~= before.targets);
                return false;
            }
        }
        self.targets.insert(locale.to_owned(), fingerprints);
        assert(self.model().targets =~= before.targets.insert(locale@, text_map(fingerprints@)));
        true
    }

    /// Drops the records of the targets that are not listed; whether that is a change.
    pub fn retain_targets(&mut self, locales: &Vec<String>) -> (changed: bool)
        ensures
            final(self).model() == (StateModel {
                targets: old(self).model().targets.restrict(texts(locales@).to_set()),
                ..old(self).model()
            }),
            changed == (final(self).model().targets != old(self).model().targets),
    {
        let ghost before = self.model();
        let ghost kept = texts(locales@).to_set();
        let count: usize = self.targets.len();
        let ghost names = self.targets.keys();
        let ghost held = self.targets@;
        let mut dropped: Vec<String> = Vec::new();
        for i in 0..count
            invariant
                count == names.len(),
                names == self.targets.keys(),
                held == self.targets@,
                self.targets.ordered(),
                kept == texts(locales@).to_set(),
                forall|j: int|
                    0 <= j < dropped@.len() ==> held.contains_key((#[trigger] dropped@[j])@)
                        && !kept.contains(dropped@[j]@),
                forall|j: int|
                    0 <= j < i && !kept.contains(#[trigger] names[j]) ==> texts(dropped@).contains(
                        names[j],
                    ),
        {
            let name = self.targets.key_at(i);
            assert(held.contains_key(names[i as int]));
            if !contains_text(locales, name.as_str()) {
                let ghost earlier = texts(dropped@);
                dropped.push(name.clone());
                proof {
                    assert(texts(dropped@) =~= earlier.push(name@));
                    assert forall|j: int| 0 <= j < i + 1 && !kept.contains(#[trigger] names[j]) implies texts(
                        dropped@,
                    ).contains(names[j]) by {
                        if j < i {
                            let k = earlier.index_of(names[j]);
                            assert(texts(dropped@)[k] == names[j]);
                        } else {
                            assert(texts(dropped@)[earlier.len() as int] == names[j]);
                        }
                    }
                }
            }
        }
        let ghost gone = texts(dropped@);
        assert(gone.take(0).to_set() =~= Set::empty());
        assert(self.targets@ =~= held.remove_keys(gone.take(0).to_set()));
        for i in 0..dropped.len()
            invariant
                gone == texts(dropped@),
                self.version == before.version,
                self.source_locale@ == before.source_locale,
                self.source_format == before.source_format,
                self.targets@ == held.remove_keys(gone.take(i as int).to_set()),
        {
            self.targets.remove(dropped[i].as_str());
            proof {
                let (fewer, more) = (gone.take(i as int), gone.take(i + 1));
                assert(more =~= fewer.push(gone[i as int]));
                assert forall|k: Seq<char>| #[trigger]
                    more.to_set().contains(k) == (fewer.to_set().contains(k) || k == gone[i as int]) by {
                    if fewer.contains(k) {
                        let j = fewer.index_of(k);
                        assert(more[j] == k);
                    }
                    if k == gone[i as int] {
                        assert(more[i as int] == k);
                    }
                    if more.contains(k) && k != gone[i as int] {
                        let j = more.index_of(k);
                        assert(fewer[j] == k);
                    }
                }
                assert(self.targets@ =~= held.remove_keys(more.to_set()));
            }
        }
        assert(gone.take(gone.len() as int) =~= gone);
        proof {
            assert forall|k: Seq<char>| #[trigger]
                held.remove_keys(gone.to_set()).contains_key(k) == (held.contains_key(k) && kept.contains(
                    k,
                )) by {
                if held.contains_key(k) {
                    assert(names.to_set().contains(k));
                    let j = names.index_of(k);
                    assert(names[j] == k);
                }
                if gone.contains(k) {
                    let j = gone.index_of(k);
                    assert(dropped@[j]@ == k);
                }
            }
            assert(self.model().targets =~= before.targets.restrict(kept));
            if dropped@.len() > 0 {
                assert(before.targets.contains_key(dropped@[0]@));
                assert(!self.model().targets.contains_key(dropped@[0]@));
            } else {
                assert(gone.to_set() =~= Set::empty());
                assert(self.model().targets =~= before.targets);
            }
        }
        dropped.len() > 0
    }

    /// Checks the state.
    pub fn validate(&self) -> (outcome: Result<(), StateError>)
        ensures
            state_outcome_is(outcome, state_issue(self.model())),
            finite_records(self.model().targets),
    {
        proof {
            law_state_finite(*self);
        }
        if self.version != STATE_VERSION {
            return Err(StateError::UnsupportedVersion(self.version));
        }
        match validate_locale("source.locale", self.source_locale.as_str()) {
            Ok(_) => {},
            Err(error) => {
                return Err(error);
            },
        }
        let count: usize = self.targets.len();
        let ghost map = self.model().targets;
        proof {
            assert(map.dom() =~= self.targets@.dom());
            lemma_sorted_keys(self.targets.keys());
        }
        for i in 0..count
            invariant
                count == self.targets.keys().len(),
                count == map.len(),
                self.targets.ordered(),
                map == text_maps(self.targets@),
                sorted_keys(map.dom()) == self.targets.keys(),
                state_issue(self.model()) == records_issue(map, map.len()),
                records_issue(map, i as nat) is None,
                finite_records(self.model().targets),
        {
            let locale = self.targets.key_at(i);
            let record = self.targets.value_at(i);
            assert(self.targets@.contains_key(self.targets.keys()[i as int]));
            assert(map[locale@] == text_map(record@));
            proof {
                if records_issue(map, (i + 1) as nat) is Some {
                    lemma_records_issue_stays(map, (i + 1) as nat, map.len());
                }
            }
            match validate_record(locale.as_str(), record) {
                Ok(_) => {},
                Err(error) => {
                    return Err(error);
                },
            }
        }
        Ok(())
    }
}

/// A record as JSON, its paths in ascending order.
pub open spec fn record_json(entries: Map<Seq<char>, Seq<char>>) -> JsonModel {
    let paths = sorted_keys(entries.dom());
    JsonModel::Object(
        Seq::new(paths.len(), |i: int| (paths[i], JsonModel::Text(entries[paths[i]]))),
    )
}

/// The name of a format in the state file.
pub open spec fn format_name(format: CatalogFormat) -> Seq<char> {
    match format {
        CatalogFormat::Json => "json"@,
        CatalogFormat::Arb => "arb"@,
    }
}

/// A state as JSON, its targets in ascending order.
pub open spec fn state_json(state: StateModel) -> JsonModel {
    let locales = sorted_keys(state.targets.dom());
    JsonModel::Object(
        seq![
            ("version"@, JsonModel::Number(decimal(state.version as nat))),
            (
                "source"@,
                JsonModel::Object(
                    seq![
                        ("locale"@, JsonModel::Text(state.source_locale)),
                        ("format"@, JsonModel::Text(format_name(state.source_format))),
                    ],
                ),
            ),
            (
                "targets"@,
                JsonModel::Object(
                    Seq::new(
                        locales.len(),
                        |i: int| (locales[i], record_json(state.targets[locales[i]])),
                    ),
                ),
            ),
        ],
    )
}

fn record_to_json(entries: &SourceFingerprints) -> (json: Json)
    ensures
        json.model() == record_json(text_map(entries@)),
        well_formed(json.model()),
{
    let count: usize = entries.len();
    let ghost map = text_map(entries@);
    let ghost expected = record_json(map)->Object_0;
    proof {
        assert(map.dom() =~= entries@.dom());
        lemma_sorted_keys(entries.keys());
    }
    let mut list: Vec<(String, Json)> = Vec::new();
    assert(members(list@) =~= expected.take(0));
    for i in 0..count
        invariant
            count == entries.keys().len(),
            entries.ordered(),
            map == text_map(entries@),
            sorted_keys(map.dom()) == entries.keys(),
            expected == record_json(map)->Object_0,
            members(list@) == expected.take(i as int),
    {
        let ghost path = entries.keys()[i as int];
        assert(entries@.contains_key(path));
        push_member(
            &mut list,
            entries.key_at(i).as_str(),
            Json::text(entries.value_at(i).as_str()),
        );
        assert(expected.take(i + 1) =~= expected.take(i as int).push(expected[i as int]));
    }
    assert(expected.take(count as int) =~= expected);
    proof {
        assert forall|i: int, j: int| 0 <= i < j < expected.len() implies (#[trigger] expected[i]).0
            != (#[trigger] expected[j]).0 by {
            assert(entries.keys()[i] != entries.keys()[j]);
        }
        lemma_keys_distinct(expected);
        assert forall|i: int| 0 <= i < expected.len() implies well_formed((#[trigger] expected[i]).1) by {
            assert(expected[i].1 is Text);
        }
    }
    object(list)
}

/// The path of the state file of a project.
pub fn state_path(base_dir: &str) -> (path: String)
    ensures
        exists|separator: char|
            (separator == '/' || separator == '\\') && path@ == #[trigger] entry_path(
                base_dir@,
                STATE_FILE_NAME@,
                separator,
            ),
{
    entry_of(base_dir, STATE_FILE_NAME, main_separator())
}

/// Checks the size of a state file before it is read.
pub fn check_size(path: &str, length: u64) -> (outcome: Result<(), StateError>)
    ensures
        outcome is Ok <==> length <= MAX_STATE_SIZE,
        outcome is Err ==> outcome->Err_0 is TooLarge && outcome->Err_0->TooLarge_path@ == path@
            && outcome->Err_0->limit == MAX_STATE_SIZE,
{
    if length > MAX_STATE_SIZE {
        return Err(StateError::TooLarge { path: path.to_owned(), limit: MAX_STATE_SIZE });
    }
    Ok(())
}

impl TranslationState {
    /// The state as JSON.
    pub fn to_json(&self) -> (json: Json)
        ensures
            json.model() == state_json(self.model()),
            well_formed(json.model()),
    {
        let ghost model = self.model();
        let ghost expected = state_json(model)->Object_0;
        let ghost inner = expected[2].1->Object_0;
        let count: usize = self.targets.len();
        proof {
            assert(model.targets.dom() =~= self.targets@.dom());
            lemma_sorted_keys(self.targets.keys());
        }
        let mut targets: Vec<(String, Json)> = Vec::new();
        assert(members(targets@) =~= inner.take(0));
        for i in 0..count
            invariant
                count == self.targets.keys().len(),
                self.targets.ordered(),
                model == self.model(),
                sorted_keys(model.targets.dom()) == self.targets.keys(),
                inner == state_json(model)->Object_0[2].1->Object_0,
                members(targets@) == inner.take(i as int),
                forall|j: int| 0 <= j < i ==> well_formed((#[trigger] inner[j]).1),
        {
            let ghost locale = self.targets.keys()[i as int];
            assert(self.targets@.contains_key(locale));
            let record = record_to_json(self.targets.value_at(i));
            assert(inner[i as int] == (locale, record.model()));
            push_member(&mut targets, self.targets.key_at(i).as_str(), record);
            assert(inner.take(i + 1) =~= inner.take(i as int).push(inner[i as int]));
        }
        assert(inner.take(count as int) =~= inner);
        let mut source: Vec<(String, Json)> = Vec::new();
        push_member(&mut source, "locale", Json::text(self.source_locale.as_str()));
        let format = match self.source_format {
            CatalogFormat::Json => "json",
            CatalogFormat::Arb => "arb",
        };
        push_member(&mut source, "format", Json::text(format));
        assert(members(source@) =~= expected[1].1->Object_0);
        let version: u64 = self.version as u64;
        let mut entries: Vec<(String, Json)> = Vec::new();
        push_member(&mut entries, "version", Json::integer(version));
        push_member(&mut entries, "source", object(source));
        push_member(&mut entries, "targets", object(targets));
        assert(members(entries@) =~= expected);
        proof {
            assert forall|i: int, j: int| 0 <= i < j < inner.len() implies (#[trigger] inner[i]).0
                != (#[trigger] inner[j]).0 by {
                assert(self.targets.keys()[i] != self.targets.keys()[j]);
            }
            lemma_keys_distinct(inner);
            assert(well_formed(expected[2].1));
            reveal_strlit("version");
            reveal_strlit("source");
            reveal_strlit("targets");
            reveal_strlit("locale");
            reveal_strlit("format");
            let pair = expected[1].1->Object_0;
            assert("locale"@[0] == 'l' && "format"@[0] == 'f');
            assert(pair[0].0 == "locale"@ && pair[1].0 == "format"@);
            lemma_keys_distinct(pair);
            assert(well_formed(pair[0].1) && well_formed(pair[1].1));
            assert(well_formed(expected[1].1));
            assert("version"@[0] == 'v' && "targets"@[0] == 't');
            assert(expected[0].0 == "version"@ && expected[1].0 == "source"@ && expected[2].0
                == "targets"@);
            lemma_keys_distinct(expected);
            assert(well_formed(expected[0].1));
            assert forall|i: int| 0 <= i < expected.len() implies well_formed(
                (#[trigger] expected[i]).1,
            ) by {}
        }
        object(entries)
    }

    /// The contents of the state file: the checked state as an indented document that ends in a
    /// line break.
    pub fn to_pretty_bytes(&self) -> (outcome: Result<Vec<u8>, StateError>)
        ensures
            match state_issue(self.model()) {
                None => outcome is Ok && outcome->Ok_0@ == pretty_encoding(
                    state_json(self.model()),
                ).push(10u8) && holds_document(outcome->Ok_0@, state_json(self.model())),
                Some(issue) => outcome is Err && outcome->Err_0.reports(issue),
            },
            state_document(state_json(self.model())) == Some(self.model()),
            finite_records(self.model().targets),
    {
        proof {
            law_state_finite(*self);
            law_state_reads_back(self.model());
            lemma_state_nested(self.model());
        }
        match self.validate() {
            Ok(_) => {},
            Err(error) => {
                return Err(error);
            },
        }
        match self.to_json().to_pretty() {
            Ok(contents) => {
                let mut bytes = contents;
                bytes.push(10u8);
                Ok(bytes)
            },
            Err(source) => Err(StateError::Serialize(source)),
        }
    }
}

impl StateProblem {
    /// The message about the problem.
    pub open spec fn message(self) -> Seq<char> {
        match self {
            StateProblem::InvalidLocale { field, locale } => field@
                + " 不是有效且安全的 BCP-47 语言代码: "@ + locale@,
            StateProblem::InvalidPath { locale, path } => "目标语言 "@ + locale@
                + " 包含无效字段路径: "@ + quoted_form(path@),
            StateProblem::InvalidFingerprint { locale, path } => "目标语言 "@ + locale@ + " 的字段 "@
                + path@ + " 包含无效 SHA-256 指纹"@,
        }
    }

    /// The message about the problem.
    pub fn to_string(&self) -> (text: String)
        ensures
            text@ == self.message(),
    {
        match self {
            StateProblem::InvalidLocale { field, locale } => join3(
                *field,
                " 不是有效且安全的 BCP-47 语言代码: ",
                locale.as_str(),
            ),
            StateProblem::InvalidPath { locale, path } => {
                let shown = quoted(path.as_str());
                join4("目标语言 ", locale.as_str(), " 包含无效字段路径: ", shown.as_str())
            },
            StateProblem::InvalidFingerprint { locale, path } => join5(
                "目标语言 ",
                locale.as_str(),
                " 的字段 ",
                path.as_str(),
                " 包含无效 SHA-256 指纹",
            ),
        }
    }
}

impl StateError {
    /// The message about the error.
    pub open spec fn message(self) -> Seq<char> {
        match self {
            StateError::TooLarge { path, limit } => "状态文件 "@ + path@ + " 超过 "@ + decimal(
                limit as nat,
            ) + " 字节限制"@,
            StateError::Parse { path, source } => "状态文件 "@ + path@ + " 不是有效 JSON: "@
                + json_error_text(source),
            StateError::Malformed(path) => "状态文件 "@ + path@ + " 不是有效 JSON: 结构不符合要求"@,
            StateError::UnsupportedVersion(version) => "不支持的状态文件版本: "@ + decimal(
                version as nat,
            ),
            StateError::Invalid(problem) => "状态文件无效: "@ + problem.message(),
            StateError::Serialize(source) => "无法序列化状态文件: "@ + json_error_text(source),
        }
    }

    /// The message about the error.
    pub fn to_string(&self) -> (text: String)
        ensures
            text@ == self.message(),
    {
        match self {
            StateError::TooLarge { path, limit } => {
                let number = to_decimal(*limit);
                join5("状态文件 ", path.as_str(), " 超过 ", number.as_str(), " 字节限制")
            },
            StateError::Parse { path, source } => {
                let details = show_json_error(source);
                join4("状态文件 ", path.as_str(), " 不是有效 JSON: ", details.as_str())
            },
            StateError::Malformed(path) => join3(
                "状态文件 ",
                path.as_str(),
                " 不是有效 JSON: 结构不符合要求",
            ),
            StateError::UnsupportedVersion(version) => {
                let number = to_decimal(*version as u64);
                join2("不支持的状态文件版本: ", number.as_str())
            },
            StateError::Invalid(problem) => {
                let details = problem.to_string();
                join2("状态文件无效: ", details.as_str())
            },
            StateError::Serialize(source) => {
                let details = show_json_error(source);
                join2("无法序列化状态文件: ", details.as_str())
            },
        }
    }
}

/// The records that a document holds, where it is an object of objects of strings; a missing
/// document holds none.
pub open spec fn records_document(value: Option<JsonModel>) -> Option<
    Map<Seq<char>, Map<Seq<char>, Seq<char>>>,
> {
    match value {
        None => Some(Map::empty()),
        Some(JsonModel::Object(entries)) => if forall|i: int|
            0 <= i < entries.len() ==> text_members((#[trigger] entries[i]).1) is Some {
            Some(member_records(entries))
        } else {
            None
        },
        _ => None,
    }
}

/// The records that members hold, by their keys.
pub open spec fn member_records(entries: Seq<(Seq<char>, JsonModel)>) -> Map<
    Seq<char>,
    Map<Seq<char>, Seq<char>>,
> {
    zip_map(keys(entries), Seq::new(entries.len(), |i: int| text_members(entries[i].1)->0))
}

/// The source that a document holds: an object with a language code and a format.
pub open spec fn source_document(value: Option<JsonModel>) -> Option<(Seq<char>, CatalogFormat)> {
    match value {
        Some(JsonModel::Object(entries)) => match (
            text_member(lookup(entries, "locale"@)),
            text_member(lookup(entries, "format"@)),
        ) {
            (Some(locale), Some(format)) => if !only_keys(entries, seq!["locale"@, "format"@]) {
                None
            } else if format == "json"@ {
                Some((locale, CatalogFormat::Json))
            } else if format == "arb"@ {
                Some((locale, CatalogFormat::Arb))
            } else {
                None
            },
            _ => None,
        },
        _ => None,
    }
}

/// The state that a document holds: an object with a version, a source and the records of the
/// targets, and nothing else.
pub open spec fn state_document(document: JsonModel) -> Option<StateModel> {
    match document {
        JsonModel::Object(entries) => match (
            number_member(lookup(entries, "version"@), u32::MAX as nat),
            source_document(lookup(entries, "source"@)),
            records_document(lookup(entries, "targets"@)),
        ) {
            (Some(version), Some((source_locale, source_format)), Some(targets)) => if only_keys(
                entries,
                seq!["version"@, "source"@, "targets"@],
            ) {
                Some(
                    StateModel {
                        version: version as u32,
                        source_locale,
                        source_format,
                        targets,
                    },
                )
            } else {
                None
            },
            _ => None,
        },
        _ => None,
    }
}

fn read_records(value: Option<&Json>) -> (records: Option<StringMap<SourceFingerprints>>)
    requires
        value is Some ==> well_formed(value->0.model()),
    ensures
        match records_document(optional_model(value)) {
            Some(expected) => records is Some && text_maps(records->0@) == expected,
            None => records is None,
        },
{
    let mut records: StringMap<SourceFingerprints> = StringMap::new();
    assert(text_maps(records@) =~= Map::empty());
    let json = match value {
        Some(json) => json,
        None => {
            return Some(records);
        },
    };
    let list = match json.as_object() {
        Some(list) => list,
        None => {
            return None;
        },
    };
    let ghost entries = members(list@);
    assert(text_maps(records@) =~= member_records(entries.take(0)));
    for i in 0..list.len()
        invariant
            entries == members(list@),
            value == Some(json),
            json.model() == JsonModel::Object(entries),
            well_formed(json.model()),
            keys(entries).no_duplicates(),
            forall|j: int| 0 <= j < i ==> text_members((#[trigger] entries[j]).1) is Some,
            text_maps(records@) == member_records(entries.take(i as int)),
    {
        let ghost key = list@[i as int].0@;
        assert(entries[i as int] == (key, list@[i as int].1.model()));
        assert(well_formed(entries[i as int].1));
        match read_text_members(&list[i].1) {
            Some(record) => {
                let ghost before = text_maps(records@);
                let ghost model = text_map(record@);
                records.insert(list[i].0.clone(), record);
                proof {
                    lemma_member_records_push(entries, i as int);
                    assert(text_maps(records@) =~= before.insert(key, model));
                }
            },
            None => {
                return None;
            },
        }
    }
    assert(entries.take(entries.len() as int) =~= entries);
    Some(records)
}

proof fn lemma_member_records_push(entries: Seq<(Seq<char>, JsonModel)>, at: int)
    requires
        keys(entries).no_duplicates(),
        0 <= at < entries.len(),
    ensures
        member_records(entries.take(at + 1)) == member_records(entries.take(at)).insert(
            entries[at].0,
            text_members(entries[at].1)->0,
        ),
{
    let values = Seq::new(entries.len(), |i: int| text_members(entries[i].1)->0);
    let (shorter, longer) = (entries.take(at), entries.take(at + 1));
    lemma_zip_push(keys(entries), values, at);
    assert(keys(longer) =~= keys(entries).take(at + 1));
    assert(keys(shorter) =~= keys(entries).take(at));
    assert(Seq::new(longer.len(), |i: int| text_members(longer[i].1)->0) =~= values.take(at + 1));
    assert(Seq::new(shorter.len(), |i: int| text_members(shorter[i].1)->0) =~= values.take(at));
}

fn read_source(value: Option<&Json>) -> (source: Option<(String, CatalogFormat)>)
    ensures
        match source_document(optional_model(value)) {
            Some(expected) => match source {
                Some((locale, format)) => locale@ == expected.0 && format == expected.1,
                None => false,
            },
            None => source is None,
        },
{
    let entries = match value {
        Some(json) => match json.as_object() {
            Some(entries) => entries,
            None => {
                return None;
            },
        },
        None => {
            return None;
        },
    };
    let ghost model = members(entries@);
    let ghost allowed = seq!["locale"@, "format"@];
    assert(allowed[0] == "locale"@ && allowed[1] == "format"@);
    for i in 0..entries.len()
        invariant
            model == members(entries@),
            allowed == seq!["locale"@, "format"@],
            allowed[0] == "locale"@,
            allowed[1] == "format"@,
            optional_model(value) == Some(JsonModel::Object(model)),
            forall|j: int| 0 <= j < i ==> allowed.contains((#[trigger] model[j]).0),
    {
        assert(model[i as int].0 == entries@[i as int].0@);
        let key = entries[i].0.as_str();
        if !same_text(key, "locale") && !same_text(key, "format") {
            assert(!allowed.contains(model[i as int].0));
            return None;
        }
        assert(allowed.contains(model[i as int].0));
    }
    let locale = match read_text(find(entries, "locale")) {
        Some(locale) => locale,
        None => {
            return None;
        },
    };
    match read_text(find(entries, "format")) {
        Some(format) => if same_text(format.as_str(), "json") {
            Some((locale, CatalogFormat::Json))
        } else if same_text(format.as_str(), "arb") {
            Some((locale, CatalogFormat::Arb))
        } else {
            None
        },
        None => None,
    }
}

/// Whether an outcome of reading a state file is the one that its document calls for.
pub open spec fn read_outcome_is(
    outcome: Result<TranslationState, StateError>,
    found: Option<JsonModel>,
    path: Seq<char>,
) -> bool {
    match found {
        None => outcome is Err && outcome->Err_0 is Parse && outcome->Err_0->Parse_path@ == path,
        Some(document) => match state_document(document) {
            None => outcome is Err && outcome->Err_0 is Malformed
                && outcome->Err_0->Malformed_0@ == path,
            Some(state) => match state_issue(state) {
                Some(issue) => outcome is Err && outcome->Err_0.reports(issue),
                None => outcome is Ok && outcome->Ok_0.model() == state,
            },
        },
    }
}

impl TranslationState {
    /// The state that a document holds.
    pub fn from_json(document: &Json, path: &str) -> (outcome: Result<Self, StateError>)
        requires
            well_formed(document.model()),
        ensures
            read_outcome_is(outcome, Some(document.model()), path@),
    {
        let entries = match document.as_object() {
            Some(entries) => entries,
            None => {
                return Err(StateError::Malformed(path.to_owned()));
            },
        };
        let ghost model = members(entries@);
        let ghost allowed = seq!["version"@, "source"@, "targets"@];
        assert(allowed[0] == "version"@ && allowed[1] == "source"@ && allowed[2] == "targets"@);
        for i in 0..entries.len()
            invariant
                model == members(entries@),
                document.model() == JsonModel::Object(model),
                allowed == seq!["version"@, "source"@, "targets"@],
                allowed[0] == "version"@,
                allowed[1] == "source"@,
                allowed[2] == "targets"@,
                forall|j: int| 0 <= j < i ==> allowed.contains((#[trigger] model[j]).0),
        {
            assert(model[i as int].0 == entries@[i as int].0@);
            let key = entries[i].0.as_str();
            if !same_text(key, "version") && !same_text(key, "source") && !same_text(key, "targets") {
                assert(!allowed.contains(model[i as int].0));
                return Err(StateError::Malformed(path.to_owned()));
            }
            assert(allowed.contains(model[i as int].0));
        }
        let targets_value = find(entries, "targets");
        proof {
            if targets_value is Some {
                let at = lemma_lookup_position(model, "targets"@);
                assert(well_formed(model[at].1));
            }
        }
        let version = read_number(find(entries, "version"), u32::MAX as u64);
        let source = read_source(find(entries, "source"));
        let targets = read_records(targets_value);
        match (version, source, targets) {
            (Some(version), Some((source_locale, source_format)), Some(targets)) => {
                TranslationState::from_parts(version as u32, source_locale, source_format, targets)
            },
            _ => Err(StateError::Malformed(path.to_owned())),
        }
    }

    /// Reads the contents of the state file at a path.
    pub fn parse(contents: &str, path: &str) -> (outcome: Result<Self, StateError>)
        ensures
            read_outcome_is(outcome, json_document(contents@), path@),
    {
        match parse_json(contents) {
            Ok(document) => TranslationState::from_json(&document, path),
            Err(source) => Err(StateError::Parse { path: path.to_owned(), source }),
        }
    }
}

proof fn lemma_record_reads_back(entries: Map<Seq<char>, Seq<char>>)
    requires
        entries.dom().finite(),
    ensures
        text_members(record_json(entries)) == Some(entries),
{
    let paths = sorted_keys(entries.dom());
    let list = record_json(entries)->Object_0;
    law_sorted_keys(entries.dom());
    lemma_zip_sorted(entries);
    assert(keys(list) =~= paths);
    assert(Seq::new(list.len(), |i: int| list[i].1->Text_0) =~= Seq::new(
        paths.len(),
        |i: int| entries[paths[i]],
    ));
    assert(forall|i: int| 0 <= i < list.len() ==> (#[trigger] list[i]).1 is Text);
}

/// A state reads back from the document that it is written as.
pub proof fn law_state_reads_back(state: StateModel)
    requires
        finite_records(state.targets),
    ensures
        state_document(state_json(state)) == Some(state),
{
    let entries = state_json(state)->Object_0;
    let source = entries[1].1->Object_0;
    let list = entries[2].1->Object_0;
    let locales = sorted_keys(state.targets.dom());
    reveal_strlit("version");
    reveal_strlit("source");
    reveal_strlit("targets");
    reveal_strlit("locale");
    reveal_strlit("format");
    reveal_strlit("json");
    reveal_strlit("arb");
    assert("version"@[0] == 'v' && "targets"@[0] == 't');
    assert("locale"@[0] == 'l' && "format"@[0] == 'f');
    assert("json"@.len() == 4 && "arb"@.len() == 3);
    assert(entries[0].0 == "version"@ && entries[1].0 == "source"@ && entries[2].0 == "targets"@);
    lemma_keys_distinct(entries);
    lemma_lookup_distinct(entries, 0);
    lemma_lookup_distinct(entries, 1);
    lemma_lookup_distinct(entries, 2);
    law_decimal_parses(state.version as nat, u32::MAX as nat);
    assert(source[0].0 == "locale"@ && source[1].0 == "format"@);
    lemma_keys_distinct(source);
    lemma_lookup_distinct(source, 0);
    lemma_lookup_distinct(source, 1);
    let allowed = seq!["locale"@, "format"@];
    assert(allowed[0] == "locale"@ && allowed[1] == "format"@);
    assert(only_keys(source, allowed));
    let names = seq!["version"@, "source"@, "targets"@];
    assert(names[0] == "version"@ && names[1] == "source"@ && names[2] == "targets"@);
    assert(only_keys(entries, names));
    law_sorted_keys(state.targets.dom());
    assert forall|i: int| 0 <= i < list.len() implies text_members((#[trigger] list[i]).1) == Some(
        state.targets[locales[i]],
    ) by {
        assert(locales.to_set().contains(locales[i]));
        assert(state.targets.contains_key(locales[i]));
        lemma_record_reads_back(state.targets[locales[i]]);
    }
    lemma_zip_sorted(state.targets);
    assert(keys(list) =~= locales);
    assert(Seq::new(list.len(), |i: int| text_members(list[i].1)->0) =~= Seq::new(
        locales.len(),
        |i: int| state.targets[locales[i]],
    ));
    assert(state_document(state_json(state))->0 =~= state);
}

/// A state has finitely many records, each with finitely many entries.
pub proof fn law_state_finite(state: TranslationState)
    ensures
        finite_records(state.model().targets),
{
    law_map_finite(state.targets);
    let targets = state.model().targets;
    assert(targets.dom() =~= state.targets@.dom());
    assert forall|locale: Seq<char>| #[trigger]
        targets.contains_key(locale) implies targets[locale].dom().finite() by {
        let record = state.targets@[locale];
        law_map_finite(record);
        assert(text_map(record@).dom() =~= record@.dom());
    }
}

proof fn lemma_record_nested(entries: Map<Seq<char>, Seq<char>>)
    ensures
        nested_within(record_json(entries), 125),
{
    let list = record_json(entries)->Object_0;
    assert forall|i: int| 0 <= i < list.len() implies nested_within(
        (#[trigger] list[i]).1,
        124,
    ) by {
        lemma_not_nested(list[i].1, 124);
    }
    lemma_nested_object(list, 125);
}

proof fn lemma_state_nested(state: StateModel)
    ensures
        nested_within(state_json(state), 127),
{
    let entries = state_json(state)->Object_0;
    let source = entries[1].1->Object_0;
    let list = entries[2].1->Object_0;
    let locales = sorted_keys(state.targets.dom());
    assert forall|i: int| 0 <= i < source.len() implies nested_within(
        (#[trigger] source[i]).1,
        125,
    ) by {
        lemma_not_nested(source[i].1, 125);
    }
    lemma_nested_object(source, 126);
    assert forall|i: int| 0 <= i < list.len() implies nested_within(
        (#[trigger] list[i]).1,
        125,
    ) by {
        lemma_record_nested(state.targets[locales[i]]);
    }
    lemma_nested_object(list, 126);
    lemma_not_nested(entries[0].1, 126);
    assert forall|i: int| 0 <= i < entries.len() implies nested_within(
        (#[trigger] entries[i]).1,
        126,
    ) by {}
    lemma_nested_object(entries, 127);
}

/// Reading the file that a state was written to gives the state again.
pub proof fn law_saved_state_loads(
    state: TranslationState,
    bytes: Seq<u8>,
    text: Seq<char>,
    outcome: Result<TranslationState, StateError>,
    path: Seq<char>,
)
    requires
        state_issue(state.model()) is None,
        holds_document(bytes, state_json(state.model())),
        encode_utf8(text) == bytes,
        read_outcome_is(outcome, json_document(text), path),
    ensures
        outcome is Ok,
        outcome->Ok_0.model() == state.model(),
{
    law_state_finite(state);
    law_state_reads_back(state.model());
}

proof fn lemma_no_entries_issue(
    locale: Seq<char>,
    entries: Map<Seq<char>, Seq<char>>,
    count: nat,
    at: int,
)
    requires
        entries_issue(locale, entries, count) is None,
        0 <= at < count,
    ensures
        entry_issue(locale, entries, sorted_keys(entries.dom())[at]) is None,
    decreases count,
{
    if at < count - 1 {
        lemma_no_entries_issue(locale, entries, (count - 1) as nat, at);
    }
}

proof fn lemma_no_records_issue(
    targets: Map<Seq<char>, Map<Seq<char>, Seq<char>>>,
    count: nat,
    at: int,
)
    requires
        records_issue(targets, count) is None,
        0 <= at < count,
    ensures
        record_issue(
            sorted_keys(targets.dom())[at],
            targets[sorted_keys(targets.dom())[at]],
        ) is None,
    decreases count,
{
    if at < count - 1 {
        lemma_no_records_issue(targets, (count - 1) as nat, at);
    }
}

/// In a state with nothing wrong, every target has a valid language code, and every entry of every
/// record a valid path and fingerprint.
pub proof fn law_valid_state(state: StateModel, locale: Seq<char>, path: Seq<char>)
    requires
        finite_records(state.targets),
        state_issue(state) is None,
        state.targets.contains_key(locale),
    ensures
        language_of(state.source_locale) is Ok,
        language_of(locale) is Ok,
        state.targets[locale].contains_key(path) ==> valid_path(path) && valid_fingerprint(
            state.targets[locale][path],
        ),
{
    let locales = sorted_keys(state.targets.dom());
    law_sorted_keys(state.targets.dom());
    assert(locales.to_set().contains(locale));
    let i = locales.index_of(locale);
    assert(locales[i] == locale);
    lemma_no_records_issue(state.targets, state.targets.len(), i);
    let record = state.targets[locale];
    if record.contains_key(path) {
        let paths = sorted_keys(record.dom());
        law_sorted_keys(record.dom());
        assert(paths.to_set().contains(path));
        let j = paths.index_of(path);
        assert(paths[j] == path);
        lemma_no_entries_issue(locale, record, record.len(), j);
    }
}

proof fn lemma_entries_fine(locale: Seq<char>, entries: Map<Seq<char>, Seq<char>>, count: nat)
    requires
        entries.dom().finite(),
        count <= entries.len(),
        forall|path: Seq<char>| #[trigger]
            entries.contains_key(path) ==> path.len() > 0 && path[0] == '/' && valid_fingerprint(
                entries[path],
            ),
    ensures
        entries_issue(locale, entries, count) is None,
    decreases count,
{
    if count > 0 {
        lemma_entries_fine(locale, entries, (count - 1) as nat);
        let paths = sorted_keys(entries.dom());
        law_sorted_keys(entries.dom());
        assert(paths.to_set().contains(paths[count - 1]));
        assert(entries.contains_key(paths[count - 1]));
    }
}

proof fn lemma_records_fine(targets: Map<Seq<char>, Map<Seq<char>, Seq<char>>>, count: nat)
    requires
        finite_records(targets),
        count <= targets.len(),
        forall|locale: Seq<char>| #[trigger] targets.contains_key(locale) ==> record_fine(targets, locale),
    ensures
        records_issue(targets, count) is None,
    decreases count,
{
    if count > 0 {
        lemma_records_fine(targets, (count - 1) as nat);
        let locales = sorted_keys(targets.dom());
        law_sorted_keys(targets.dom());
        let locale = locales[count - 1];
        assert(locales.to_set().contains(locale));
        assert(targets.contains_key(locale));
        lemma_entries_fine(locale, targets[locale], targets[locale].len());
    }
}

/// Whether a record is as it has to be: it is one of a language, each of its paths begins with a
/// slash, and each of its entries is a fingerprint.
pub open spec fn record_fine(
    targets: Map<Seq<char>, Map<Seq<char>, Seq<char>>>,
    locale: Seq<char>,
) -> bool {
    language_of(locale) is Ok && forall|path: Seq<char>| #[trigger]
        targets[locale].contains_key(path) ==> path.len() > 0 && path[0] == '/'
            && valid_fingerprint(targets[locale][path])
}

/// A state is accepted exactly where its version is 1, its source has a language code, and every
/// record is as it has to be.
pub proof fn law_state_accepted(state: StateModel)
    requires
        finite_records(state.targets),
    ensures
        state_issue(state) is None <==> state.version == 1 && language_of(state.source_locale) is Ok
            && forall|locale: Seq<char>| #[trigger]
            state.targets.contains_key(locale) ==> record_fine(state.targets, locale),
{
    if state_issue(state) is None {
        assert forall|locale: Seq<char>| #[trigger] state.targets.contains_key(locale) implies record_fine(
            state.targets,
            locale,
        ) by {
            law_valid_state(state, locale, Seq::empty());
            assert forall|path: Seq<char>| #[trigger] state.targets[locale].contains_key(path) implies path.len()
                > 0 && path[0] == '/' && valid_fingerprint(state.targets[locale][path]) by {
                law_valid_state(state, locale, path);
            }
        }
    }
    if forall|locale: Seq<char>| #[trigger]
        state.targets.contains_key(locale) ==> record_fine(state.targets, locale) {
        lemma_records_fine(state.targets, state.targets.len());
    }
}

} // verus!
