//! Catalogs of localised strings: how a target differs from its source and how the two merge.
use arb::{document_issue, is_metadata, issue_text, translation_issue, validate_document, ArbIssue};
use crate::fingerprint::{fingerprint, fingerprint_text};
use crate::map::{text_map, StringMap};
use crate::order::precedes;
use crate::paths::{
    extension, extension_of, file_name, part_models, path_parts, reads_as, PartModel, PathPart,
};
use crate::text::{
    chars_of, decimal, join2, join4, join5, lowered, optional_text, same_text, text_of, texts,
    to_decimal, to_lower,
};
use crate::value::{
    holds_document, json_document, json_error_text, lemma_model, lookup, members, nested_within,
    parse_json, pretty_encoding, show_json_error, well_formed, Json, JsonModel,
};
use json::{
    diff_value, leaf_models, merge_issues, merged_value, text_leaves, text_of_value, translatable,
    MergeIssue,
};
use json_laws::law_merged_well_formed;
use message_laws::lemma_merged_document_well_formed;
use messages::{
    diff_arb, diff_document, lemma_document_texts, merge_arb, merged_document, message_fingerprints,
    message_leaves, message_path, optional_members, textless_messages, texts_in,
};
use used::left_over;
use vstd::prelude::*;

pub mod arb;
pub mod arb_meaning;
pub mod json;
pub mod json_laws;
pub mod json_meaning;
pub mod laws;
pub mod meaning;
pub mod message_laws;
pub mod message_meaning;
pub mod messages;
pub mod places;
pub mod pointer;
pub mod used;

verus! {

/// The file format of a catalog.
#[derive(Debug, Clone, Copy, PartialEq, Eq, Structural)]
pub enum CatalogFormat {
    Json,
    Arb,
}

/// The kind of message that a translation unit holds.
#[derive(Debug, Clone, Copy, PartialEq, Eq, Structural)]
pub enum TranslationKind {
    Json,
    Arb,
}

/// A string to be translated.
#[derive(Debug, PartialEq, Eq)]
pub struct TranslationUnit {
    pub path: String,
    pub source: String,
    pub description: Option<String>,
    pub placeholders: Vec<String>,
    pub kind: TranslationKind,
}

/// What a translation unit is.
#[verifier::ext_equal]
pub struct UnitModel {
    pub path: Seq<char>,
    pub source: Seq<char>,
    pub description: Option<Seq<char>>,
    pub placeholders: Seq<Seq<char>>,
    pub kind: TranslationKind,
}

impl TranslationUnit {
    /// What the unit is.
    pub open spec fn model(self) -> UnitModel {
        UnitModel {
            path: self.path@,
            source: self.source@,
            description: optional_text(self.description),
            placeholders: texts(self.placeholders@),
            kind: self.kind,
        }
    }
}

/// A place where source and target hold values of different types.
#[derive(Debug, PartialEq, Eq)]
pub struct TypeConflict {
    pub path: String,
    pub source_type: &'static str,
    pub target_type: &'static str,
}

/// What a type conflict is.
#[verifier::ext_equal]
pub struct ConflictModel {
    pub path: Seq<char>,
    pub source_type: Seq<char>,
    pub target_type: Seq<char>,
}

impl TypeConflict {
    /// What the conflict is.
    pub open spec fn model(self) -> ConflictModel {
        ConflictModel {
            path: self.path@,
            source_type: self.source_type@,
            target_type: self.target_type@,
        }
    }
}

/// How a target catalog differs from its source.
#[derive(Debug, PartialEq, Eq)]
pub struct DiffReport {
    pub locale: String,
    pub missing: Vec<String>,
    pub empty: Vec<String>,
    pub outdated: Vec<String>,
    pub changed: Vec<String>,
    pub extra: Vec<String>,
    pub conflicts: Vec<TypeConflict>,
    pub baseline_missing: bool,
}

/// The differences and the strings to be translated.
#[derive(Debug)]
pub struct CatalogDiff {
    pub report: DiffReport,
    pub units: Vec<TranslationUnit>,
}

/// The findings of a comparison, in the order in which they were made.
#[verifier::ext_equal]
pub struct DiffModel {
    pub missing: Seq<Seq<char>>,
    pub empty: Seq<Seq<char>>,
    pub outdated: Seq<Seq<char>>,
    pub changed: Seq<Seq<char>>,
    pub extra: Seq<Seq<char>>,
    pub conflicts: Seq<ConflictModel>,
    pub units: Seq<UnitModel>,
}

/// What each unit of a list is.
pub open spec fn unit_models(units: Seq<TranslationUnit>) -> Seq<UnitModel> {
    units.map_values(|unit: TranslationUnit| unit.model())
}

/// What each conflict of a list is.
pub open spec fn conflict_models(conflicts: Seq<TypeConflict>) -> Seq<ConflictModel> {
    conflicts.map_values(|conflict: TypeConflict| conflict.model())
}

impl DiffModel {
    /// No findings.
    pub open spec fn none() -> DiffModel {
        DiffModel {
            missing: Seq::empty(),
            empty: Seq::empty(),
            outdated: Seq::empty(),
            changed: Seq::empty(),
            extra: Seq::empty(),
            conflicts: Seq::empty(),
            units: Seq::empty(),
        }
    }

    /// The findings of one comparison followed by those of another.
    pub open spec fn join(self, other: DiffModel) -> DiffModel {
        DiffModel {
            missing: self.missing + other.missing,
            empty: self.empty + other.empty,
            outdated: self.outdated + other.outdated,
            changed: self.changed + other.changed,
            extra: self.extra + other.extra,
            conflicts: self.conflicts + other.conflicts,
            units: self.units + other.units,
        }
    }

    /// Nothing but a missing value.
    pub open spec fn missing_at(path: Seq<char>) -> DiffModel {
        DiffModel { missing: seq![path], ..DiffModel::none() }
    }

    /// Nothing but an empty string that ought to hold a translation.
    pub open spec fn empty_at(path: Seq<char>) -> DiffModel {
        DiffModel { empty: seq![path], ..DiffModel::none() }
    }

    /// Nothing but a translation of an earlier source text.
    pub open spec fn outdated_at(path: Seq<char>) -> DiffModel {
        DiffModel { outdated: seq![path], ..DiffModel::none() }
    }

    /// Nothing but a value that differs from the source.
    pub open spec fn changed_at(path: Seq<char>) -> DiffModel {
        DiffModel { changed: seq![path], ..DiffModel::none() }
    }

    /// Nothing but a type conflict.
    pub open spec fn conflict(conflict: ConflictModel) -> DiffModel {
        DiffModel { conflicts: seq![conflict], ..DiffModel::none() }
    }

    /// Nothing but values that the source does not have.
    pub open spec fn extras(paths: Seq<Seq<char>>) -> DiffModel {
        DiffModel { extra: paths, ..DiffModel::none() }
    }

    /// Nothing but strings to be translated.
    pub open spec fn only_units(units: Seq<UnitModel>) -> DiffModel {
        DiffModel { units, ..DiffModel::none() }
    }
}

/// Joining findings is associative, and no findings are its unit.
pub proof fn lemma_join(a: DiffModel, b: DiffModel, c: DiffModel)
    ensures
        a.join(b).join(c) == a.join(b.join(c)),
        a.join(DiffModel::none()) == a,
        DiffModel::none().join(a) == a,
{
    assert(a.join(b).join(c) =~= a.join(b.join(c)));
    assert(a.join(DiffModel::none()) =~= a);
    assert(DiffModel::none().join(a) =~= a);
}

impl DiffReport {
    /// Whether the target has no differences and a recorded baseline.
    pub fn is_clean(&self) -> (clean: bool)
        ensures
            clean == (self.missing@.len() == 0 && self.empty@.len() == 0 && self.outdated@.len() == 0
                && self.changed@.len() == 0 && self.extra@.len() == 0 && self.conflicts@.len() == 0
                && !self.baseline_missing),
    {
        self.missing.is_empty() && self.empty.is_empty() && self.outdated.is_empty()
            && self.changed.is_empty() && self.extra.is_empty() && self.conflicts.is_empty()
            && !self.baseline_missing
    }
}

impl CatalogDiff {
    /// The findings and the units.
    pub open spec fn model(self) -> DiffModel {
        DiffModel {
            missing: texts(self.report.missing@),
            empty: texts(self.report.empty@),
            outdated: texts(self.report.outdated@),
            changed: texts(self.report.changed@),
            extra: texts(self.report.extra@),
            conflicts: conflict_models(self.report.conflicts@),
            units: unit_models(self.units@),
        }
    }

    /// Whether two comparisons are for the same locale and agree on the baseline.
    pub open spec fn same_subject(self, other: CatalogDiff) -> bool {
        self.report.locale@ == other.report.locale@ && self.report.baseline_missing
            == other.report.baseline_missing
    }

    /// A comparison without findings.
    pub fn new(locale: String) -> (diff: CatalogDiff)
        ensures
            diff.model() == DiffModel::none(),
            diff.report.locale@ == locale@,
            !diff.report.baseline_missing,
    {
        let diff = CatalogDiff {
            report: DiffReport {
                locale,
                missing: Vec::new(),
                empty: Vec::new(),
                outdated: Vec::new(),
                changed: Vec::new(),
                extra: Vec::new(),
                conflicts: Vec::new(),
                baseline_missing: false,
            },
            units: Vec::new(),
        };
        assert(diff.model() =~= DiffModel::none());
        diff
    }

    fn push_missing(&mut self, path: String)
        ensures
            final(self).model() == old(self).model().join(DiffModel::missing_at(path@)),
            final(self).same_subject(*old(self)),
    {
        let ghost before = *self;
        self.report.missing.push(path);
        assert(self.model() =~= before.model().join(DiffModel::missing_at(path@)));
    }

    fn push_empty(&mut self, path: String)
        ensures
            final(self).model() == old(self).model().join(DiffModel::empty_at(path@)),
            final(self).same_subject(*old(self)),
    {
        let ghost before = *self;
        self.report.empty.push(path);
        assert(self.model() =~= before.model().join(DiffModel::empty_at(path@)));
    }

    fn push_outdated(&mut self, path: String)
        ensures
            final(self).model() == old(self).model().join(DiffModel::outdated_at(path@)),
            final(self).same_subject(*old(self)),
    {
        let ghost before = *self;
        self.report.outdated.push(path);
        assert(self.model() =~= before.model().join(DiffModel::outdated_at(path@)));
    }

    fn push_changed(&mut self, path: String)
        ensures
            final(self).model() == old(self).model().join(DiffModel::changed_at(path@)),
            final(self).same_subject(*old(self)),
    {
        let ghost before = *self;
        self.report.changed.push(path);
        assert(self.model() =~= before.model().join(DiffModel::changed_at(path@)));
    }

    fn push_extra(&mut self, path: String)
        ensures
            final(self).model() == old(self).model().join(DiffModel::extras(seq![path@])),
            final(self).same_subject(*old(self)),
    {
        let ghost before = *self;
        self.report.extra.push(path);
        assert(self.model() =~= before.model().join(DiffModel::extras(seq![path@])));
    }

    fn push_conflict(&mut self, conflict: TypeConflict)
        ensures
            final(self).model() == old(self).model().join(DiffModel::conflict(conflict.model())),
            final(self).same_subject(*old(self)),
    {
        let ghost before = *self;
        self.report.conflicts.push(conflict);
        assert(self.model() =~= before.model().join(DiffModel::conflict(conflict.model())));
    }

    fn push_unit(&mut self, unit: TranslationUnit)
        ensures
            final(self).model() == old(self).model().join(DiffModel::only_units(seq![unit.model()])),
            final(self).same_subject(*old(self)),
    {
        let ghost before = *self;
        self.units.push(unit);
        assert(self.model() =~= before.model().join(DiffModel::only_units(seq![unit.model()])));
    }
}

/// The name of a value's type.
pub open spec fn kind_name(value: JsonModel) -> Seq<char> {
    match value {
        JsonModel::Null => "null"@,
        JsonModel::Bool(_) => "boolean"@,
        JsonModel::Number(_) => "number"@,
        JsonModel::Text(_) => "string"@,
        JsonModel::Array(_) => "array"@,
        JsonModel::Object(_) => "object"@,
    }
}

/// Whether two values have the same type.
pub open spec fn same_kind(a: JsonModel, b: JsonModel) -> bool {
    match (a, b) {
        (JsonModel::Null, JsonModel::Null) => true,
        (JsonModel::Bool(_), JsonModel::Bool(_)) => true,
        (JsonModel::Number(_), JsonModel::Number(_)) => true,
        (JsonModel::Text(_), JsonModel::Text(_)) => true,
        (JsonModel::Array(_), JsonModel::Array(_)) => true,
        (JsonModel::Object(_), JsonModel::Object(_)) => true,
        _ => false,
    }
}

/// The name of a value's type.
fn value_kind(value: &Json) -> (name: &'static str)
    ensures
        name@ == kind_name(value.model()),
{
    match value {
        Json::Null => "null",
        Json::Bool(_) => "boolean",
        Json::Number(_) => "number",
        Json::Text(_) => "string",
        Json::Array(_) => "array",
        Json::Object(_) => "object",
    }
}

/// Whether two values have the same type.
fn kinds_agree(a: &Json, b: &Json) -> (same: bool)
    ensures
        same == same_kind(a.model(), b.model()),
{
    match (a, b) {
        (Json::Null, Json::Null) => true,
        (Json::Bool(_), Json::Bool(_)) => true,
        (Json::Number(_), Json::Number(_)) => true,
        (Json::Text(_), Json::Text(_)) => true,
        (Json::Array(_), Json::Array(_)) => true,
        (Json::Object(_), Json::Object(_)) => true,
        _ => false,
    }
}

/// How a source text and its translation compare; `units` is the request for a translation of
/// the source text.
pub open spec fn diff_text(
    source: Seq<char>,
    target: Option<Seq<char>>,
    path: Seq<char>,
    force: bool,
    outdated: Set<Seq<char>>,
    units: Seq<UnitModel>,
) -> DiffModel {
    match target {
        None => DiffModel::missing_at(path).join(DiffModel::only_units(units)),
        Some(text) => {
            if text.len() == 0 && source.len() > 0 {
                DiffModel::empty_at(path).join(DiffModel::only_units(units))
            } else if force && source.len() > 0 {
                DiffModel::only_units(units)
            } else if outdated.contains(path) {
                DiffModel::outdated_at(path).join(DiffModel::only_units(units))
            } else if source.len() == 0 && text.len() > 0 {
                DiffModel::changed_at(path)
            } else {
                DiffModel::none()
            }
        },
    }
}

/// What a comparison of a source text with its translation found.
#[derive(Debug, Clone, Copy, PartialEq, Eq, Structural)]
pub enum TextFinding {
    Missing,
    Empty,
    Forced,
    Outdated,
    Changed,
    Current,
}

/// Compares a source text with its translation.
fn compare_text(source: &str, target: Option<&String>, outdated: bool, force: bool) -> (finding:
    TextFinding)
    ensures
        finding == (match target {
            None => TextFinding::Missing,
            Some(text) => if text@.len() == 0 && source@.len() > 0 {
                TextFinding::Empty
            } else if force && source@.len() > 0 {
                TextFinding::Forced
            } else if outdated {
                TextFinding::Outdated
            } else if source@.len() == 0 && text@.len() > 0 {
                TextFinding::Changed
            } else {
                TextFinding::Current
            },
        }),
{
    match target {
        None => TextFinding::Missing,
        Some(text) => {
            let no_source = source.is_empty();
            let no_target = text.as_str().is_empty();
            if no_target && !no_source {
                TextFinding::Empty
            } else if force && !no_source {
                TextFinding::Forced
            } else if outdated {
                TextFinding::Outdated
            } else if no_source && !no_target {
                TextFinding::Changed
            } else {
                TextFinding::Current
            }
        },
    }
}

/// An error of reading, comparing or merging catalogs.
#[derive(Debug)]
pub enum CatalogError {
    InvalidJson { path: String, source: serde_json::Error },
    TooLarge { path: String, limit: u64 },
    UnsupportedFormat(String),
    FormatMismatch,
    ArbRootMustBeObject,
    Arb(arb::ArbError),
    EmptyTranslation(String),
    MissingTranslation(String),
    UnknownTranslation(String),
    MergeTypeConflict(String),
    Serialize(serde_json::Error),
}

impl CatalogError {
    /// Whether the error reports an obstacle to merging.
    pub open spec fn reports(self, issue: MergeIssue) -> bool {
        match (self, issue) {
            (CatalogError::MergeTypeConflict(path), MergeIssue::Conflict(at)) => path@ == at,
            (CatalogError::MissingTranslation(path), MergeIssue::Missing(at)) => path@ == at,
            _ => false,
        }
    }
}

/// Why a file name does not tell the format of a catalog.
#[derive(Debug, Clone, Copy, PartialEq, Eq, Structural)]
pub enum ExtensionProblem {
    Missing,
    Unsupported,
}

/// The format that the extension of a file name stands for; upper and lower case do not matter.
pub open spec fn format_of(extension: Option<Seq<char>>) -> Result<CatalogFormat, ExtensionProblem> {
    match extension {
        None => Err(ExtensionProblem::Missing),
        Some(text) => if lowered(text) == "json"@ {
            Ok(CatalogFormat::Json)
        } else if lowered(text) == "arb"@ {
            Ok(CatalogFormat::Arb)
        } else {
            Err(ExtensionProblem::Unsupported)
        },
    }
}

/// The format that a file name stands for, where there is a file name.
pub open spec fn format_of_name(name: Option<Seq<char>>) -> Result<CatalogFormat, ExtensionProblem> {
    match name {
        Some(text) => format_of(extension_of(text)),
        None => Err(ExtensionProblem::Missing),
    }
}

impl CatalogFormat {
    /// The format that a file name stands for, where there is a file name.
    pub fn from_name(name: Option<&String>) -> (outcome: Result<Self, ExtensionProblem>)
        ensures
            outcome == format_of_name(
                match name {
                    Some(text) => Some(text@),
                    None => None,
                },
            ),
    {
        let text: &String = match name {
            Some(text) => text,
            None => {
                return Err(ExtensionProblem::Missing);
            },
        };
        match extension(text.as_str()) {
            None => Err(ExtensionProblem::Missing),
            Some(found) => {
                let lower = to_lower(found.as_str());
                if same_text(lower.as_str(), "json") {
                    Ok(CatalogFormat::Json)
                } else if same_text(lower.as_str(), "arb") {
                    Ok(CatalogFormat::Arb)
                } else {
                    Err(ExtensionProblem::Unsupported)
                }
            },
        }
    }

    /// The format that the components of a path stand for.
    pub fn from_parts(parts: &Vec<PathPart>) -> (outcome: Result<Self, ExtensionProblem>)
        ensures
            outcome == format_of_name(file_name(part_models(parts@))),
    {
        let count: usize = parts.len();
        if count == 0 {
            return Err(ExtensionProblem::Missing);
        }
        assert(part_models(parts@).last() == parts@[count - 1].model());
        match &parts[count - 1] {
            PathPart::Normal(name) => CatalogFormat::from_name(Some(name)),
            _ => Err(ExtensionProblem::Missing),
        }
    }

    /// The format of the file at a path: the one that the components of the path stand for.
    pub fn from_path(path: &str) -> (outcome: Result<Self, CatalogError>)
        ensures
            outcome is Err ==> outcome->Err_0 is UnsupportedFormat
                && outcome->Err_0->UnsupportedFormat_0@ == path@,
            exists|parts: Seq<PartModel>| #[trigger]
                reads_as(parts, path@) && match format_of_name(file_name(parts)) {
                    Ok(format) => outcome == Ok::<CatalogFormat, CatalogError>(format),
                    Err(_) => outcome is Err,
                },
    {
        let parts = path_parts(path);
        assert(reads_as(part_models(parts@), path@));
        match CatalogFormat::from_parts(&parts) {
            Ok(format) => Ok(format),
            Err(_) => Err(CatalogError::UnsupportedFormat(path.to_owned())),
        }
    }
}

/// Checks the size of a catalog file before it is read.
pub fn check_size(path: &str, length: u64) -> (outcome: Result<(), CatalogError>)
    ensures
        outcome is Ok <==> length <= MAX_CATALOG_SIZE,
        outcome is Err ==> outcome->Err_0 is TooLarge && outcome->Err_0->TooLarge_path@ == path@
            && outcome->Err_0->limit == MAX_CATALOG_SIZE,
{
    if length > MAX_CATALOG_SIZE {
        return Err(CatalogError::TooLarge { path: path.to_owned(), limit: MAX_CATALOG_SIZE });
    }
    Ok(())
}

/// The fingerprints of source messages, by their paths.
pub type SourceFingerprints = StringMap<String>;

/// The largest catalog file that is read, in bytes.
pub const MAX_CATALOG_SIZE: u64 = 67108864;

/// A catalog of localised strings.
#[derive(Debug)]
pub struct Catalog {
    format: CatalogFormat,
    root: Json,
}

/// The members of a document whose root is an object.
pub open spec fn document(root: JsonModel) -> Seq<(Seq<char>, JsonModel)> {
    root->Object_0
}

/// Whether a value is the root of a catalog of a format.
pub open spec fn valid_root(format: CatalogFormat, root: JsonModel) -> bool {
    &&& well_formed(root)
    &&& format is Arb ==> root is Object && document_issue(document(root)) is None
}

/// What an optional catalog holds.
pub open spec fn optional_root(catalog: Option<Catalog>) -> Option<JsonModel> {
    match catalog {
        Some(found) => Some(found.content()),
        None => None,
    }
}

/// What an optional catalog holds.
pub open spec fn optional_root_ref(catalog: Option<&Catalog>) -> Option<JsonModel> {
    match catalog {
        Some(found) => Some(found.content()),
        None => None,
    }
}

/// How the root of a target compares with the root of its source.
pub open spec fn diff_roots(
    format: CatalogFormat,
    source: JsonModel,
    target: Option<JsonModel>,
    locale: Seq<char>,
    force: bool,
    outdated: Set<Seq<char>>,
) -> DiffModel {
    match format {
        CatalogFormat::Json => diff_value(source, target, Seq::empty(), force, outdated),
        CatalogFormat::Arb => diff_document(
            document(source),
            target_document(target),
            locale,
            force,
            outdated,
        ),
    }
}

/// The members of an optional document.
pub open spec fn target_document(target: Option<JsonModel>) -> Option<Seq<(Seq<char>, JsonModel)>> {
    match target {
        Some(root) => Some(document(root)),
        None => None,
    }
}

/// Whether merging accepts a translation for a path: it names a source string that is not empty.
pub open spec fn accepts(format: CatalogFormat, source: JsonModel, path: Seq<char>) -> bool {
    match format {
        CatalogFormat::Json => translatable(text_leaves(source, Seq::empty()), path),
        CatalogFormat::Arb => translatable(
            message_leaves(document(source), document(source).len()),
            path,
        ),
    }
}

/// Whether a path is the first, in the order of texts, that has a translation which merging does
/// not accept.
pub open spec fn first_unknown(
    format: CatalogFormat,
    source: JsonModel,
    translations: Map<Seq<char>, Seq<char>>,
    path: Seq<char>,
) -> bool {
    &&& translations.contains_key(path)
    &&& !accepts(format, source, path)
    &&& forall|other: Seq<char>| #[trigger]
        translations.contains_key(other) && !accepts(format, source, other) ==> other == path
            || precedes(path, other)
}

/// Whether merging accepts every translation.
pub open spec fn all_accepted(
    format: CatalogFormat,
    source: JsonModel,
    translations: Map<Seq<char>, Seq<char>>,
) -> bool {
    forall|path: Seq<char>| #[trigger]
        translations.contains_key(path) ==> accepts(format, source, path)
}

/// The root of the merged catalog.
pub open spec fn merged_root(
    format: CatalogFormat,
    source: JsonModel,
    target: Option<JsonModel>,
    translations: Map<Seq<char>, Seq<char>>,
    locale: Seq<char>,
) -> JsonModel {
    match format {
        CatalogFormat::Json => merged_value(source, target, Seq::empty(), translations),
        CatalogFormat::Arb => JsonModel::Object(
            merged_document(document(source), target_document(target), translations, locale),
        ),
    }
}

/// The obstacles to merging, in document order.
pub open spec fn root_issues(
    format: CatalogFormat,
    source: JsonModel,
    target: Option<JsonModel>,
    translations: Map<Seq<char>, Seq<char>>,
) -> Seq<MergeIssue> {
    match format {
        CatalogFormat::Json => merge_issues(source, target, Seq::empty(), translations),
        CatalogFormat::Arb => textless_messages(
            document(source),
            target_document(target),
            translations,
            document(source).len(),
        ).map_values(|path: Seq<char>| MergeIssue::Missing(path)),
    }
}

/// What is wrong with the merged catalog.
pub open spec fn merged_root_issue(
    format: CatalogFormat,
    source: JsonModel,
    target: Option<JsonModel>,
    translations: Map<Seq<char>, Seq<char>>,
    locale: Seq<char>,
) -> Option<ArbIssue> {
    match format {
        CatalogFormat::Json => None,
        CatalogFormat::Arb => document_issue(
            merged_document(document(source), target_document(target), translations, locale),
        ),
    }
}

/// Each source message with its fingerprint, in document order.
pub open spec fn fingerprint_entries(format: CatalogFormat, source: JsonModel) -> Seq<
    (Seq<char>, Seq<char>),
> {
    match format {
        CatalogFormat::Json => text_leaves(source, Seq::empty()).map_values(
            |leaf: (Seq<char>, Seq<char>)|
                (leaf.0, fingerprint_text(CatalogFormat::Json, leaf.1, None, Seq::empty())),
        ),
        CatalogFormat::Arb => message_fingerprints(document(source), document(source).len()),
    }
}

/// The map that entries give when each is inserted after the other.
pub open spec fn entries_map(entries: Seq<(Seq<char>, Seq<char>)>) -> Map<Seq<char>, Seq<char>>
    decreases entries.len(),
{
    if entries.len() == 0 {
        Map::empty()
    } else {
        entries_map(entries.drop_last()).insert(entries.last().0, entries.last().1)
    }
}

/// The first existing translation, among the first `count` messages, that does not fit its
/// source message. Ignored paths and empty translations are passed over.
pub open spec fn existing_issue(
    source: Seq<(Seq<char>, JsonModel)>,
    target: Seq<(Seq<char>, JsonModel)>,
    ignored: Set<Seq<char>>,
    count: nat,
) -> Option<ArbIssue>
    decreases count,
{
    if count == 0 {
        None
    } else {
        let before = existing_issue(source, target, ignored, (count - 1) as nat);
        if before is Some {
            before
        } else {
            message_existing_issue(source, target, ignored, count - 1)
        }
    }
}

/// Whether the existing translation of one message does not fit it.
pub open spec fn message_existing_issue(
    source: Seq<(Seq<char>, JsonModel)>,
    target: Seq<(Seq<char>, JsonModel)>,
    ignored: Set<Seq<char>>,
    at: int,
) -> Option<ArbIssue> {
    let (key, value) = source[at];
    match text_of_value(lookup(target, key)) {
        Some(text) => if is_metadata(key) || ignored.contains(message_path(key)) || text.len() == 0 {
            None
        } else {
            translation_issue(key, value->Text_0, text)
        },
        None => None,
    }
}

proof fn lemma_existing_issue_stays(
    source: Seq<(Seq<char>, JsonModel)>,
    target: Seq<(Seq<char>, JsonModel)>,
    ignored: Set<Seq<char>>,
    fewer: nat,
    count: nat,
)
    requires
        fewer <= count,
        existing_issue(source, target, ignored, fewer) is Some,
    ensures
        existing_issue(source, target, ignored, count) == existing_issue(
            source,
            target,
            ignored,
            fewer,
        ),
    decreases count,
{
    if fewer < count {
        lemma_existing_issue_stays(source, target, ignored, fewer, (count - 1) as nat);
    }
}

/// A text without the slashes that it starts with.
pub open spec fn without_slashes(text: Seq<char>) -> Seq<char>
    decreases text.len(),
{
    if text.len() > 0 && text[0] == '/' {
        without_slashes(text.drop_first())
    } else {
        text
    }
}

fn trim_slashes(text: &str) -> (result: String)
    ensures
        result@ == without_slashes(text@),
{
    let chars = chars_of(text);
    let mut from: usize = 0;
    assert(text@.subrange(0, text@.len() as int) =~= text@);
    while from < chars.len() && chars[from] == '/'
        invariant
            chars@ == text@,
            from <= chars@.len(),
            without_slashes(text@.subrange(from as int, text@.len() as int)) == without_slashes(
                text@,
            ),
        decreases chars@.len() - from,
    {
        assert(text@.subrange(from as int, text@.len() as int).drop_first() =~= text@.subrange(
            from + 1,
            text@.len() as int,
        ));
        from = from + 1;
    }
    text_of(&chars, from, chars.len())
}

/// The smallest path with a translation.
fn first_path(translations: &StringMap<String>) -> (first: Option<String>)
    ensures
        first is None ==> forall|path: Seq<char>| !#[trigger] translations@.contains_key(path),
        first is Some ==> translations@.contains_key(first->0@),
        first is Some ==> forall|path: Seq<char>| #[trigger]
            translations@.contains_key(path) ==> path == first->0@ || precedes(first->0@, path),
{
    let count: usize = translations.len();
    if count == 0 {
        assert forall|path: Seq<char>| !#[trigger] translations@.contains_key(path) by {
            if translations@.contains_key(path) {
                assert(translations.keys().to_set().contains(path));
            }
        }
        return None;
    }
    let key = translations.key_at(0);
    proof {
        assert forall|path: Seq<char>| #[trigger] translations@.contains_key(path) implies path == key@
            || precedes(key@, path) by {
            assert(translations.keys().to_set().contains(path));
            let j = translations.keys().index_of(path);
            assert(translations.keys()[j] == path);
            if j > 0 {
                assert(precedes(translations.keys()[0], translations.keys()[j]));
            }
        }
        assert(translations@.contains_key(translations.keys()[0]));
    }
    Some(key.clone())
}

impl Catalog {
    /// What the catalog holds.
    pub closed spec fn content(self) -> JsonModel {
        self.root.model()
    }

    /// The format of the catalog.
    pub closed spec fn kind(self) -> CatalogFormat {
        self.format
    }

    #[verifier::type_invariant]
    spec fn valid(self) -> bool {
        valid_root(self.format, self.root.model())
    }

    /// Makes a catalog of a value without repeated keys.
    pub fn from_json(root: Json, format: CatalogFormat) -> (outcome: Result<Self, CatalogError>)
        requires
            well_formed(root.model()),
        ensures
            match format {
                CatalogFormat::Json => outcome is Ok,
                CatalogFormat::Arb => match root.model() {
                    JsonModel::Object(entries) => match document_issue(entries) {
                        Some(issue) => outcome is Err && outcome->Err_0 is Arb
                            && outcome->Err_0->Arb_0.issue() == issue,
                        None => outcome is Ok,
                    },
                    _ => outcome == Err::<Catalog, CatalogError>(CatalogError::ArbRootMustBeObject),
                },
            },
            outcome is Ok ==> outcome->Ok_0.content() == root.model() && outcome->Ok_0.kind() == format,
    {
        if format == CatalogFormat::Arb {
            match root.as_object() {
                None => {
                    return Err(CatalogError::ArbRootMustBeObject);
                },
                Some(entries) => match validate_document(entries) {
                    Ok(_) => {},
                    Err(error) => {
                        return Err(CatalogError::Arb(error));
                    },
                },
            }
        }
        Ok(Catalog { format, root })
    }

    /// Reads a catalog; `name` is the file that an error names.
    pub fn parse_named(contents: &str, format: CatalogFormat, name: &str) -> (outcome: Result<
        Self,
        CatalogError,
    >)
        ensures
            parse_outcome_is(outcome, json_document(contents@), format, name@),
    {
        match parse_json(contents) {
            Ok(root) => Catalog::from_json(root, format),
            Err(source) => Err(CatalogError::InvalidJson { path: name.to_owned(), source }),
        }
    }

    /// Reads a catalog.
    pub fn parse(contents: &str, format: CatalogFormat) -> (outcome: Result<Self, CatalogError>)
        ensures
            parse_outcome_is(outcome, json_document(contents@), format, "<memory>"@),
    {
        Catalog::parse_named(contents, format, "<memory>")
    }

    /// The format of the catalog.
    pub fn format(&self) -> (format: CatalogFormat)
        ensures
            format == self.kind(),
            valid_root(self.kind(), self.content()),
    {
        proof {
            use_type_invariant(self);
        }
        self.format
    }

    /// Accepts a catalog that has the expected format.
    pub fn require_format(self, expected: CatalogFormat) -> (outcome: Result<Self, CatalogError>)
        ensures
            outcome == (if self.kind() == expected {
                Ok::<Catalog, CatalogError>(self)
            } else {
                Err(CatalogError::FormatMismatch)
            }),
    {
        if self.format != expected {
            return Err(CatalogError::FormatMismatch);
        }
        Ok(self)
    }

    /// Compares a target with this source.
    pub fn diff(&self, target: Option<&Catalog>, locale: &str, force: bool) -> (outcome: Result<
        CatalogDiff,
        CatalogError,
    >)
        ensures
            diff_outcome_is(outcome, *self, target, locale@, force, Set::empty()),
    {
        let outdated: StringMap<()> = StringMap::new();
        assert(outdated@.dom() =~= Set::<Seq<char>>::empty());
        self.diff_with_outdated(target, locale, force, &outdated)
    }

    /// Compares a target with this source; `outdated` names the strings whose translations are
    /// of an earlier source text.
    pub fn diff_with_outdated(
        &self,
        target: Option<&Catalog>,
        locale: &str,
        force: bool,
        outdated: &StringMap<()>,
    ) -> (outcome: Result<CatalogDiff, CatalogError>)
        ensures
            diff_outcome_is(outcome, *self, target, locale@, force, outdated@.dom()),
    {
        proof {
            use_type_invariant(self);
            lemma_model(self.root);
            reveal_strlit("");
            assert(""@ =~= Seq::<char>::empty());
        }
        if let Some(catalog) = target {
            proof {
                use_type_invariant(catalog);
                lemma_model(catalog.root);
            }
            if catalog.format != self.format {
                return Err(CatalogError::FormatMismatch);
            }
        }
        let mut result = CatalogDiff::new(locale.to_owned());
        proof {
            lemma_join(
                diff_roots(
                    self.format,
                    self.root.model(),
                    optional_root_ref(target),
                    locale@,
                    force,
                    outdated@.dom(),
                ),
                DiffModel::none(),
                DiffModel::none(),
            );
        }
        match self.format {
            CatalogFormat::Json => {
                let root: Option<&Json> = match target {
                    Some(catalog) => Some(&catalog.root),
                    None => None,
                };
                json::diff(&self.root, root, "", force, outdated, &mut result);
            },
            CatalogFormat::Arb => {
                let entries: Option<&Vec<(String, Json)>> = match target {
                    Some(catalog) => catalog.root.as_object(),
                    None => None,
                };
                if let Some(source) = self.root.as_object() {
                    proof {
                        lemma_document_texts(source@);
                    }
                    diff_arb(source, entries, force, outdated, &mut result);
                }
            },
        }
        Ok(result)
    }

    /// The fingerprint of each source message, by its path.
    pub fn source_fingerprints(&self) -> (fingerprints: SourceFingerprints)
        ensures
            text_map(fingerprints@) == entries_map(fingerprint_entries(self.kind(), self.content())),
    {
        proof {
            use_type_invariant(self);
            lemma_model(self.root);
        }
        let mut fingerprints: StringMap<String> = StringMap::new();
        let none: Option<String> = None;
        let no_names: Vec<String> = Vec::new();
        let ghost expected = fingerprint_entries(self.format, self.root.model());
        assert(text_map(fingerprints@) =~= entries_map(expected.take(0)));
        assert(texts(no_names@) =~= Seq::<Seq<char>>::empty());
        match self.format {
            CatalogFormat::Json => {
                let mut leaves: Vec<(String, String)> = Vec::new();
                assert(leaf_models(leaves@) =~= Seq::<(Seq<char>, Seq<char>)>::empty());
                json::collect_leaves(&self.root, "", &mut leaves);
                proof {
                    reveal_strlit("");
                    assert(""@ =~= Seq::<char>::empty());
                    assert(leaf_models(leaves@) =~= text_leaves(self.root.model(), Seq::empty()));
                }
                for i in 0..leaves.len()
                    invariant
                        self.format is Json,
                        none is None,
                        texts(no_names@) == Seq::<Seq<char>>::empty(),
                        expected == fingerprint_entries(self.format, self.root.model()),
                        leaf_models(leaves@) == text_leaves(self.root.model(), Seq::empty()),
                        text_map(fingerprints@) == entries_map(expected.take(i as int)),
                {
                    let ghost before = fingerprints@;
                    let print = fingerprint(CatalogFormat::Json, leaves[i].1.as_str(), &none, &no_names);
                    assert(leaf_models(leaves@)[i as int] == (leaves@[i as int].0@, leaves@[i as int].1@));
                    assert(expected[i as int] == (leaves@[i as int].0@, print@));
                    fingerprints.insert(leaves[i].0.clone(), print);
                    assert(expected.take(i + 1).drop_last() =~= expected.take(i as int));
                    assert(text_map(fingerprints@) =~= text_map(before).insert(
                        leaves@[i as int].0@,
                        print@,
                    ));
                }
                assert(expected.take(leaves@.len() as int) =~= expected);
            },
            CatalogFormat::Arb => {
                if let Some(source) = self.root.as_object() {
                    messages::fingerprint_messages(source, &mut fingerprints);
                }
            },
        }
        fingerprints
    }

    /// Checks the existing translations of a target against their source messages.
    pub fn validate_existing_translations(&self, target: &Catalog) -> (outcome: Result<
        (),
        CatalogError,
    >)
        ensures
            existing_outcome_is(outcome, *self, *target, Set::empty()),
    {
        let ignored: StringMap<()> = StringMap::new();
        assert(ignored@.dom() =~= Set::<Seq<char>>::empty());
        self.validate_existing_translations_except(target, &ignored)
    }

    /// Checks the existing translations of a target, but for some paths, against their source
    /// messages.
    pub fn validate_existing_translations_except(
        &self,
        target: &Catalog,
        ignored_paths: &StringMap<()>,
    ) -> (outcome: Result<(), CatalogError>)
        ensures
            existing_outcome_is(outcome, *self, *target, ignored_paths@.dom()),
    {
        proof {
            use_type_invariant(self);
            use_type_invariant(target);
            lemma_model(self.root);
            lemma_model(target.root);
        }
        if target.format != self.format {
            return Err(CatalogError::FormatMismatch);
        }
        if self.format != CatalogFormat::Arb {
            return Ok(());
        }
        if let (Some(source), Some(entries)) = (self.root.as_object(), target.root.as_object()) {
            proof {
                lemma_document_texts(source@);
            }
            let ghost ours = members(source@);
            let ghost theirs = members(entries@);
            let ghost ignored = ignored_paths@.dom();
            for i in 0..source.len()
                invariant
                    ours == members(source@),
                    theirs == members(entries@),
                    ours == document(self.content()),
                    theirs == document(target.content()),
                    self.kind() == CatalogFormat::Arb,
                    target.kind() == CatalogFormat::Arb,
                    ignored == ignored_paths@.dom(),
                    texts_in(source@),
                    existing_issue(ours, theirs, ignored, i as nat) is None,
            {
                let checked = messages::check_existing(source, entries, ignored_paths, i);
                proof {
                    if existing_issue(ours, theirs, ignored, (i + 1) as nat) is Some {
                        lemma_existing_issue_stays(
                            ours,
                            theirs,
                            ignored,
                            (i + 1) as nat,
                            ours.len(),
                        );
                    }
                }
                match checked {
                    Ok(_) => {},
                    Err(error) => {
                        return Err(CatalogError::Arb(error));
                    },
                }
            }
        }
        Ok(())
    }

    /// Checks a translation of a unit.
    pub fn validate_translation(&self, unit: &TranslationUnit, translation: &str) -> (outcome: Result<
        (),
        CatalogError,
    >)
        ensures
            translation_outcome_is(outcome, unit.model(), translation@),
    {
        if translation.is_empty() {
            return Err(CatalogError::EmptyTranslation(unit.path.clone()));
        }
        if unit.kind == TranslationKind::Arb {
            let key = trim_slashes(unit.path.as_str());
            return match arb::validate_translation(key.as_str(), unit.source.as_str(), translation) {
                Ok(_) => Ok(()),
                Err(error) => Err(CatalogError::Arb(error)),
            };
        }
        Ok(())
    }

    /// Merges a target with this source: the result has the structure of the source and the
    /// translations, or what the target had where there is none.
    pub fn merge(
        &self,
        target: Option<Catalog>,
        translations: StringMap<String>,
        target_locale: &str,
    ) -> (outcome: Result<Self, CatalogError>)
        ensures
            merge_result_is(outcome, *self, target, text_map(translations@), target_locale@),
    {
        proof {
            use_type_invariant(self);
            lemma_model(self.root);
            reveal_strlit("");
            assert(""@ =~= Seq::<char>::empty());
        }
        let ghost given = text_map(translations@);
        let ghost whole = self.root.model();
        let ghost other = optional_root(target);
        if let Some(catalog) = &target {
            proof {
                use_type_invariant(catalog);
                lemma_model(catalog.root);
            }
            if catalog.format != self.format {
                return Err(CatalogError::FormatMismatch);
            }
        }
        let mut translations = translations;
        let ghost leaves = match self.format {
            CatalogFormat::Json => text_leaves(whole, Seq::empty()),
            CatalogFormat::Arb => message_leaves(document(whole), document(whole).len()),
        };
        let root = match self.format {
            CatalogFormat::Json => {
                let old_root: Option<&Json> = match &target {
                    Some(catalog) => Some(&catalog.root),
                    None => None,
                };
                assert(json::optional_model(old_root) == other);
                proof {
                    law_merged_well_formed(whole, other, Seq::empty(), given);
                }
                match json::merge(&self.root, old_root, "", &mut translations) {
                    Ok(root) => root,
                    Err(error) => {
                        return Err(error);
                    },
                }
            },
            CatalogFormat::Arb => {
                let entries: Option<&Vec<(String, Json)>> = match &target {
                    Some(catalog) => catalog.root.as_object(),
                    None => None,
                };
                assert(optional_members(entries) == target_document(other));
                match self.root.as_object() {
                    None => Json::Null,
                    Some(source) => {
                        proof {
                            lemma_document_texts(source@);
                            if target is Some {
                                assert(well_formed(other->0));
                            }
                            lemma_merged_document_well_formed(
                                document(whole),
                                target_document(other),
                                given,
                                target_locale@,
                            );
                        }
                        match merge_arb(source, entries, &mut translations, target_locale) {
                            Ok(output) => {
                                let root = Json::Object(output);
                                proof {
                                    lemma_model(root);
                                }
                                root
                            },
                            Err(error) => {
                                return Err(error);
                            },
                        }
                    },
                }
            },
        };
        let ghost rest = text_map(translations@);
        assert(rest == left_over(given, leaves));
        assert forall|path: Seq<char>| #[trigger]
            rest.contains_key(path) <==> translations@.contains_key(path) by {}
        match first_path(&translations) {
            Some(path) => {
                proof {
                    assert(rest.contains_key(path@));
                    assert forall|other: Seq<char>| #[trigger]
                        given.contains_key(other) && !accepts(self.format, whole, other) implies other
                        == path@ || precedes(path@, other) by {
                        assert(rest.contains_key(other));
                    }
                    assert(first_unknown(self.format, whole, given, path@));
                }
                Err(CatalogError::UnknownTranslation(path))
            },
            None => {
                assert forall|path: Seq<char>| #[trigger] given.contains_key(path) implies accepts(
                    self.format,
                    whole,
                    path,
                ) by {
                    assert(!rest.contains_key(path));
                }
                assert(root.model() == merged_root(self.format, whole, other, given, target_locale@));
                Ok(Catalog { format: self.format, root })
            },
        }
    }

    /// The catalog as an indented document that ends in a line break.
    pub fn to_pretty_bytes(&self) -> (outcome: Result<Vec<u8>, CatalogError>)
        ensures
            outcome is Ok,
            outcome->Ok_0@ == pretty_encoding(self.content()).push(10u8),
            nested_within(self.content(), 127) ==> holds_document(outcome->Ok_0@, self.content()),
    {
        proof {
            use_type_invariant(self);
        }
        match self.root.to_pretty() {
            Ok(contents) => {
                let mut bytes = contents;
                bytes.push(10u8);
                Ok(bytes)
            },
            Err(error) => Err(CatalogError::Serialize(error)),
        }
    }
}

/// Whether an outcome of reading is the one that the document calls for.
pub open spec fn parse_outcome_is(
    outcome: Result<Catalog, CatalogError>,
    found: Option<JsonModel>,
    format: CatalogFormat,
    name: Seq<char>,
) -> bool {
    match found {
        None => outcome is Err && outcome->Err_0 is InvalidJson && outcome->Err_0->InvalidJson_path@
            == name,
        Some(root) => if format is Arb && !(root is Object) {
            outcome == Err::<Catalog, CatalogError>(CatalogError::ArbRootMustBeObject)
        } else if format is Arb && document_issue(document(root)) is Some {
            outcome is Err && outcome->Err_0 is Arb && Some(outcome->Err_0->Arb_0.issue())
                == document_issue(document(root))
        } else {
            outcome is Ok && outcome->Ok_0.content() == root && outcome->Ok_0.kind() == format
        },
    }
}

/// Whether an outcome of comparing is the one that the catalogs call for.
pub open spec fn diff_outcome_is(
    outcome: Result<CatalogDiff, CatalogError>,
    source: Catalog,
    target: Option<&Catalog>,
    locale: Seq<char>,
    force: bool,
    outdated: Set<Seq<char>>,
) -> bool {
    if target is Some && target->0.kind() != source.kind() {
        outcome == Err::<CatalogDiff, CatalogError>(CatalogError::FormatMismatch)
    } else {
        outcome is Ok && outcome->Ok_0.model() == diff_roots(
            source.kind(),
            source.content(),
            optional_root_ref(target),
            locale,
            force,
            outdated,
        ) && outcome->Ok_0.report.locale@ == locale && !outcome->Ok_0.report.baseline_missing
    }
}

/// Whether an outcome of checking existing translations is the one that the catalogs call for.
pub open spec fn existing_outcome_is(
    outcome: Result<(), CatalogError>,
    source: Catalog,
    target: Catalog,
    ignored: Set<Seq<char>>,
) -> bool {
    if target.kind() != source.kind() {
        outcome == Err::<(), CatalogError>(CatalogError::FormatMismatch)
    } else if source.kind() is Json {
        outcome is Ok
    } else {
        match existing_issue(
            document(source.content()),
            document(target.content()),
            ignored,
            document(source.content()).len(),
        ) {
            Some(issue) => outcome is Err && outcome->Err_0 is Arb && outcome->Err_0->Arb_0.issue()
                == issue,
            None => outcome is Ok,
        }
    }
}

/// Whether an outcome of checking a translation is the one that the unit calls for.
pub open spec fn translation_outcome_is(
    outcome: Result<(), CatalogError>,
    unit: UnitModel,
    translation: Seq<char>,
) -> bool {
    let issue = translation_issue(without_slashes(unit.path), unit.source, translation);
    if translation.len() == 0 {
        outcome is Err && outcome->Err_0 is EmptyTranslation && outcome->Err_0->EmptyTranslation_0@
            == unit.path
    } else if unit.kind is Arb && issue is Some {
        outcome is Err && outcome->Err_0 is Arb && Some(outcome->Err_0->Arb_0.issue()) == issue
    } else {
        outcome is Ok
    }
}

/// Whether an outcome of merging is the one that the catalogs call for.
pub open spec fn merge_result_is(
    outcome: Result<Catalog, CatalogError>,
    source: Catalog,
    target: Option<Catalog>,
    translations: Map<Seq<char>, Seq<char>>,
    locale: Seq<char>,
) -> bool {
    let (format, root, other) = (source.kind(), source.content(), optional_root(target));
    let issues = root_issues(format, root, other, translations);
    let invalid = merged_root_issue(format, root, other, translations, locale);
    if target is Some && target->0.kind() != format {
        outcome == Err::<Catalog, CatalogError>(CatalogError::FormatMismatch)
    } else if issues.len() > 0 {
        outcome is Err && outcome->Err_0.reports(issues[0])
    } else if invalid is Some {
        outcome is Err && outcome->Err_0 is Arb && Some(outcome->Err_0->Arb_0.issue()) == invalid
    } else if !all_accepted(format, root, translations) {
        outcome is Err && outcome->Err_0 is UnknownTranslation && first_unknown(
            format,
            root,
            translations,
            outcome->Err_0->UnknownTranslation_0@,
        )
    } else {
        outcome is Ok && outcome->Ok_0.kind() == format && outcome->Ok_0.content() == merged_root(
            format,
            root,
            other,
            translations,
            locale,
        )
    }
}

impl CatalogError {
    /// The message about the error.
    pub open spec fn message(self) -> Seq<char> {
        match self {
            CatalogError::InvalidJson { path, source } => "本地化文件 "@ + path@
                + " 不是有效 JSON: "@ + json_error_text(source),
            CatalogError::TooLarge { path, limit } => "本地化文件 "@ + path@ + " 超过 "@ + decimal(
                limit as nat,
            ) + " 字节限制"@,
            CatalogError::UnsupportedFormat(path) => "不支持的本地化文件格式: "@ + path@,
            CatalogError::FormatMismatch => "源文件与目标文件格式不一致"@,
            CatalogError::ArbRootMustBeObject => "ARB 文件根节点必须是对象"@,
            CatalogError::Arb(error) => issue_text(error.issue()),
            CatalogError::EmptyTranslation(path) => "翻译结果不能为空: "@ + path@,
            CatalogError::MissingTranslation(path) => "缺少字段的翻译结果: "@ + path@,
            CatalogError::UnknownTranslation(path) => "翻译结果包含未知字段: "@ + path@,
            CatalogError::MergeTypeConflict(path) => "合并时发现类型冲突: "@ + path@,
            CatalogError::Serialize(source) => "无法序列化本地化文件: "@ + json_error_text(source),
        }
    }

    /// The message about the error.
    pub fn to_string(&self) -> (text: String)
        ensures
            text@ == self.message(),
    {
        match self {
            CatalogError::InvalidJson { path, source } => {
                let details = show_json_error(source);
                join4("本地化文件 ", path.as_str(), " 不是有效 JSON: ", details.as_str())
            },
            CatalogError::TooLarge { path, limit } => {
                let number = to_decimal(*limit);
                join5("本地化文件 ", path.as_str(), " 超过 ", number.as_str(), " 字节限制")
            },
            CatalogError::UnsupportedFormat(path) => join2("不支持的本地化文件格式: ", path.as_str()),
            CatalogError::FormatMismatch => "源文件与目标文件格式不一致".to_owned(),
            CatalogError::ArbRootMustBeObject => "ARB 文件根节点必须是对象".to_owned(),
            CatalogError::Arb(error) => error.to_string(),
            CatalogError::EmptyTranslation(path) => join2("翻译结果不能为空: ", path.as_str()),
            CatalogError::MissingTranslation(path) => join2("缺少字段的翻译结果: ", path.as_str()),
            CatalogError::UnknownTranslation(path) => join2("翻译结果包含未知字段: ", path.as_str()),
            CatalogError::MergeTypeConflict(path) => join2("合并时发现类型冲突: ", path.as_str()),
            CatalogError::Serialize(source) => {
                let details = show_json_error(source);
                join2("无法序列化本地化文件: ", details.as_str())
            },
        }
    }
}

} // verus!
