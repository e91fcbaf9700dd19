//! The project configuration: its rules, and where its files are.
use crate::catalog::{format_of_name, CatalogFormat, ExtensionProblem};
use crate::catalog::json::optional_model;
use crate::locale::{language, language_of, LocaleProblem};
use crate::paths::{
    file_name, normal_file_name, parent, part_models, path_text, same_path, to_text, NormalModel,
    NormalPath, PartModel, PathPart,
};
use crate::paths::reader::{kept_in, located, readable, resolves, PathReader};
use crate::text::{
    blank, contains, decimal, is_blank, join2, join3, join4, law_decimal_parses, occurs,
    optional_text, replace_all, replaced, same_text,
};
use crate::value::{
    array, find, holds_document, items, json_document, json_error_text, lemma_keys_distinct,
    lemma_lookup_absent, lemma_lookup_distinct, lemma_model, lemma_nested_array,
    lemma_nested_object, lemma_not_nested, lookup, members, nested_within, number_member, object,
    optional_text_member, parse_json, pretty_encoding, push_member, read_number, read_optional_text,
    read_text, show_json_error, text_member, well_formed, Json, JsonModel,
};
use vstd::prelude::*;
use vstd::utf8::encode_utf8;

pub mod meaning;

verus! {

/// The largest configuration file that is read, in bytes.
pub const MAX_CONFIG_SIZE: u64 = 1048576;

/// The configuration of a project.
#[derive(Debug, PartialEq, Eq)]
pub struct ProjectConfig {
    pub source: SourceConfig,
    pub output: String,
    pub model: String,
    pub targets: Vec<TargetConfig>,
    pub translation: TranslationConfig,
}

/// The source catalog of a project.
#[derive(Debug, PartialEq, Eq)]
pub struct SourceConfig {
    pub locale: String,
    pub path: String,
}

/// A target catalog of a project.
#[derive(Debug, PartialEq, Eq)]
pub struct TargetConfig {
    pub locale: String,
    pub language: String,
    /// The file of the target, in place of the one that the output template gives.
    pub output: Option<String>,
    pub prompt: Option<String>,
}

/// How translations are requested.
#[derive(Debug, Clone, Copy, PartialEq, Eq, Structural)]
pub struct TranslationConfig {
    pub batch_size: usize,
    pub timeout_seconds: u64,
    pub max_retries: usize,
}

impl Default for TranslationConfig {
    fn default() -> (config: Self)
        ensures
            config.batch_size == 40,
            config.timeout_seconds == 120,
            config.max_retries == 2,
    {
        TranslationConfig { batch_size: 40, timeout_seconds: 120, max_retries: 2 }
    }
}

/// What is wrong with a configuration.
#[derive(Debug)]
pub enum ConfigProblem {
    TooLarge,
    UnsafeLocale { field: &'static str },
    InvalidLocale { field: &'static str, locale: String },
    EmptyModel,
    NoLocalePlaceholder,
    NoTargets,
    BatchSize,
    Timeout,
    Retries,
    MissingExtension(String),
    UnsupportedExtension(String),
    TargetIsSource(String),
    EmptyLanguage(String),
    DuplicateLocale(String),
    FormatsDiffer(String),
    OverwritesSource(String),
    SharedOutput(String),
}

/// What is wrong with a configuration.
pub enum ConfigIssue {
    TooLarge,
    UnsafeLocale { field: Seq<char> },
    InvalidLocale { field: Seq<char>, locale: Seq<char> },
    EmptyModel,
    NoLocalePlaceholder,
    NoTargets,
    BatchSize,
    Timeout,
    Retries,
    MissingExtension(Seq<char>),
    UnsupportedExtension(Seq<char>),
    TargetIsSource(Seq<char>),
    EmptyLanguage(Seq<char>),
    DuplicateLocale(Seq<char>),
    FormatsDiffer(Seq<char>),
    OverwritesSource(Seq<char>),
    SharedOutput(Seq<char>),
}

impl ConfigProblem {
    /// What the problem is.
    pub open spec fn issue(self) -> ConfigIssue {
        match self {
            ConfigProblem::TooLarge => ConfigIssue::TooLarge,
            ConfigProblem::UnsafeLocale { field } => ConfigIssue::UnsafeLocale { field: field@ },
            ConfigProblem::InvalidLocale { field, locale } => ConfigIssue::InvalidLocale {
                field: field@,
                locale: locale@,
            },
            ConfigProblem::EmptyModel => ConfigIssue::EmptyModel,
            ConfigProblem::NoLocalePlaceholder => ConfigIssue::NoLocalePlaceholder,
            ConfigProblem::NoTargets => ConfigIssue::NoTargets,
            ConfigProblem::BatchSize => ConfigIssue::BatchSize,
            ConfigProblem::Timeout => ConfigIssue::Timeout,
            ConfigProblem::Retries => ConfigIssue::Retries,
            ConfigProblem::MissingExtension(path) => ConfigIssue::MissingExtension(path@),
            ConfigProblem::UnsupportedExtension(path) => ConfigIssue::UnsupportedExtension(path@),
            ConfigProblem::TargetIsSource(locale) => ConfigIssue::TargetIsSource(locale@),
            ConfigProblem::EmptyLanguage(locale) => ConfigIssue::EmptyLanguage(locale@),
            ConfigProblem::DuplicateLocale(locale) => ConfigIssue::DuplicateLocale(locale@),
            ConfigProblem::FormatsDiffer(path) => ConfigIssue::FormatsDiffer(path@),
            ConfigProblem::OverwritesSource(path) => ConfigIssue::OverwritesSource(path@),
            ConfigProblem::SharedOutput(path) => ConfigIssue::SharedOutput(path@),
        }
    }
}

/// An error of the project configuration.
#[derive(Debug)]
pub enum ConfigError {
    Parse { path: String, source: serde_json::Error },
    Malformed(String),
    Invalid(ConfigProblem),
    Serialize { source: serde_json::Error },
}

/// Whether a result is success, or the failure that the problem calls for.
pub open spec fn config_outcome_is(
    outcome: Result<(), ConfigError>,
    issue: Option<ConfigIssue>,
) -> bool {
    match issue {
        None => outcome is Ok,
        Some(found) => outcome is Err && outcome->Err_0 is Invalid
            && outcome->Err_0->Invalid_0.issue() == found,
    }
}

/// What a check of a configuration finds out about it: the languages that its codes denote, and
/// where its files are.
#[derive(Debug)]
pub struct ProjectFacts {
    pub source_language: Result<String, LocaleProblem>,
    pub target_languages: Vec<Result<String, LocaleProblem>>,
    /// The components of the source path as it is written.
    pub source_parts: Vec<PathPart>,
    pub source: NormalPath,
    pub targets: Vec<NormalPath>,
}

/// What a check of a configuration finds out about it.
pub struct FactsModel {
    pub source_language: Result<Seq<char>, LocaleProblem>,
    pub target_languages: Seq<Result<Seq<char>, LocaleProblem>>,
    pub source_parts: Seq<PartModel>,
    pub source: NormalModel,
    pub targets: Seq<NormalModel>,
}

/// What each path of a list is.
pub open spec fn path_models(paths: Seq<NormalPath>) -> Seq<NormalModel> {
    Seq::new(paths.len(), |i: int| paths[i].model())
}

/// What a language code denotes.
pub open spec fn language_model(language: Result<String, LocaleProblem>) -> Result<
    Seq<char>,
    LocaleProblem,
> {
    match language {
        Ok(found) => Ok(found@),
        Err(problem) => Err(problem),
    }
}

/// What each language code of a list denotes.
pub open spec fn language_models(list: Seq<Result<String, LocaleProblem>>) -> Seq<
    Result<Seq<char>, LocaleProblem>,
> {
    Seq::new(list.len(), |i: int| language_model(list[i]))
}

impl ProjectFacts {
    /// What was found out.
    pub open spec fn model(self) -> FactsModel {
        FactsModel {
            source_language: language_model(self.source_language),
            target_languages: language_models(self.target_languages@),
            source_parts: part_models(self.source_parts@),
            source: self.source.model(),
            targets: path_models(self.targets@),
        }
    }
}

/// What is wrong with a language code, which denotes `language`.
pub open spec fn locale_issue(
    field: Seq<char>,
    locale: Seq<char>,
    language: Result<Seq<char>, LocaleProblem>,
) -> Option<ConfigIssue> {
    match language {
        Ok(_) => None,
        Err(LocaleProblem::Unsafe) => Some(ConfigIssue::UnsafeLocale { field }),
        Err(LocaleProblem::Invalid) => Some(ConfigIssue::InvalidLocale { field, locale }),
    }
}

/// Checks a language code, which denotes `language`.
fn validate_locale(
    field: &'static str,
    locale: &str,
    language: &Result<String, LocaleProblem>,
) -> (outcome: Result<(), ConfigError>)
    ensures
        config_outcome_is(
            outcome,
            locale_issue(field@, locale@, language_model(*language)),
        ),
{
    match language {
        Ok(_) => Ok(()),
        Err(LocaleProblem::Unsafe) => Err(
            ConfigError::Invalid(ConfigProblem::UnsafeLocale { field }),
        ),
        Err(LocaleProblem::Invalid) => Err(
            ConfigError::Invalid(ConfigProblem::InvalidLocale { field, locale: locale.to_owned() }),
        ),
    }
}

/// What is wrong with the extension of a file, whose path is shown as `shown`.
pub open spec fn extension_issue(name: Option<Seq<char>>, shown: Seq<char>) -> Option<ConfigIssue> {
    match format_of_name(name) {
        Ok(_) => None,
        Err(ExtensionProblem::Missing) => Some(ConfigIssue::MissingExtension(shown)),
        Err(ExtensionProblem::Unsupported) => Some(ConfigIssue::UnsupportedExtension(shown)),
    }
}

/// What is wrong with the settings that have nothing to do with targets.
pub open spec fn settings_issue(config: ProjectConfig, facts: FactsModel) -> Option<ConfigIssue> {
    let source = locale_issue("source.locale"@, config.source.locale@, facts.source_language);
    if source is Some {
        source
    } else if blank(config.model@) {
        Some(ConfigIssue::EmptyModel)
    } else if !occurs(config.output@, "{locale}"@) {
        Some(ConfigIssue::NoLocalePlaceholder)
    } else if config.targets@.len() == 0 {
        Some(ConfigIssue::NoTargets)
    } else if !(1 <= config.translation.batch_size <= 200) {
        Some(ConfigIssue::BatchSize)
    } else if !(1 <= config.translation.timeout_seconds <= 600) {
        Some(ConfigIssue::Timeout)
    } else if config.translation.max_retries > 10 {
        Some(ConfigIssue::Retries)
    } else {
        None
    }
}

/// What is wrong with a target, given that nothing is wrong with the targets before it.
pub open spec fn target_issue(
    config: ProjectConfig,
    facts: FactsModel,
    separator: char,
    at: int,
) -> Option<ConfigIssue> {
    let target = config.targets@[at];
    let locale = target.locale@;
    let language = facts.target_languages[at];
    let path = facts.targets[at];
    let shown = path_text(path, separator);
    let invalid = locale_issue("targets[].locale"@, locale, language);
    if invalid is Some {
        invalid
    } else if language == facts.source_language {
        Some(ConfigIssue::TargetIsSource(locale))
    } else if blank(target.language@) {
        Some(ConfigIssue::EmptyLanguage(locale))
    } else if exists|j: int| 0 <= j < at && (#[trigger] facts.target_languages[j]) == language {
        Some(ConfigIssue::DuplicateLocale(locale))
    } else if extension_issue(normal_file_name(path), shown) is Some {
        extension_issue(normal_file_name(path), shown)
    } else if format_of_name(normal_file_name(path)) != format_of_name(
        file_name(facts.source_parts),
    ) {
        Some(ConfigIssue::FormatsDiffer(shown))
    } else if path == facts.source {
        Some(ConfigIssue::OverwritesSource(shown))
    } else if exists|j: int| 0 <= j < at && (#[trigger] facts.targets[j]) == path {
        Some(ConfigIssue::SharedOutput(shown))
    } else {
        None
    }
}

/// The first thing that is wrong with the first `count` targets.
pub open spec fn first_target_issue(
    config: ProjectConfig,
    facts: FactsModel,
    separator: char,
    count: nat,
) -> Option<ConfigIssue>
    decreases count,
{
    if count == 0 {
        None
    } else {
        let before = first_target_issue(config, facts, separator, (count - 1) as nat);
        if before is Some {
            before
        } else {
            target_issue(config, facts, separator, count - 1)
        }
    }
}

/// The first thing that is wrong with a configuration about which these facts are known.
pub open spec fn config_issue(config: ProjectConfig, facts: FactsModel, separator: char) -> Option<
    ConfigIssue,
> {
    if settings_issue(config, facts) is Some {
        settings_issue(config, facts)
    } else if extension_issue(file_name(facts.source_parts), config.source.path@) is Some {
        extension_issue(file_name(facts.source_parts), config.source.path@)
    } else {
        first_target_issue(config, facts, separator, config.targets@.len())
    }
}

proof fn lemma_target_issue_stays(
    config: ProjectConfig,
    facts: FactsModel,
    separator: char,
    fewer: nat,
    count: nat,
)
    requires
        fewer <= count,
        first_target_issue(config, facts, separator, fewer) is Some,
    ensures
        first_target_issue(config, facts, separator, count) == first_target_issue(
            config,
            facts,
            separator,
            fewer,
        ),
    decreases count,
{
    if fewer < count {
        lemma_target_issue_stays(config, facts, separator, fewer, (count - 1) as nat);
    }
}

/// Checks the settings that have nothing to do with targets.
fn validate_settings(config: &ProjectConfig, facts: &ProjectFacts) -> (outcome: Result<
    (),
    ConfigError,
>)
    ensures
        config_outcome_is(outcome, settings_issue(*config, facts.model())),
{
    match validate_locale(
        "source.locale",
        config.source.locale.as_str(),
        &facts.source_language,
    ) {
        Ok(_) => {},
        Err(error) => {
            return Err(error);
        },
    }
    if is_blank(config.model.as_str()) {
        return Err(ConfigError::Invalid(ConfigProblem::EmptyModel));
    }
    if !contains(config.output.as_str(), "{locale}") {
        return Err(ConfigError::Invalid(ConfigProblem::NoLocalePlaceholder));
    }
    if config.targets.len() == 0 {
        return Err(ConfigError::Invalid(ConfigProblem::NoTargets));
    }
    if !(1 <= config.translation.batch_size && config.translation.batch_size <= 200) {
        return Err(ConfigError::Invalid(ConfigProblem::BatchSize));
    }
    if !(1 <= config.translation.timeout_seconds && config.translation.timeout_seconds <= 600) {
        return Err(ConfigError::Invalid(ConfigProblem::Timeout));
    }
    if config.translation.max_retries > 10 {
        return Err(ConfigError::Invalid(ConfigProblem::Retries));
    }
    Ok(())
}

/// The format that the file name of a normalised path stands for.
fn format_of_path(path: &NormalPath) -> (outcome: Result<CatalogFormat, ExtensionProblem>)
    ensures
        outcome == format_of_name(normal_file_name(path.model())),
{
    let count: usize = path.segments.len();
    if count == 0 {
        return Err(ExtensionProblem::Missing);
    }
    assert(path.model().segments.last() == path.segments@[count - 1]@);
    if same_text(path.segments[count - 1].as_str(), "..") {
        return Err(ExtensionProblem::Missing);
    }
    CatalogFormat::from_name(Some(&path.segments[count - 1]))
}

/// Whether one of the first `count` paths is the path.
fn path_used(paths: &Vec<NormalPath>, count: usize, path: &NormalPath) -> (used: bool)
    requires
        count <= paths@.len(),
    ensures
        used == exists|j: int| 0 <= j < count && (#[trigger] path_models(paths@)[j]) == path.model(),
{
    for i in 0..count
        invariant
            count <= paths@.len(),
            forall|j: int| 0 <= j < i ==> (#[trigger] path_models(paths@)[j]) != path.model(),
    {
        if same_path(&paths[i], path) {
            assert(path_models(paths@)[i as int] == path.model());
            return true;
        }
    }
    false
}

/// Whether two codes denote the same language.
fn same_language(
    a: &Result<String, LocaleProblem>,
    b: &Result<String, LocaleProblem>,
) -> (same: bool)
    ensures
        same == (language_model(*a) == language_model(*b)),
{
    match (a, b) {
        (Ok(x), Ok(y)) => same_text(x.as_str(), y.as_str()),
        (Err(x), Err(y)) => *x == *y,
        _ => false,
    }
}

/// Whether one of the first `count` languages is the language.
fn language_used(
    languages: &Vec<Result<String, LocaleProblem>>,
    count: usize,
    language: &Result<String, LocaleProblem>,
) -> (used: bool)
    requires
        count <= languages@.len(),
    ensures
        used == exists|j: int|
            0 <= j < count && (#[trigger] language_models(languages@)[j]) == language_model(*language),
{
    for i in 0..count
        invariant
            count <= languages@.len(),
            forall|j: int|
                0 <= j < i ==> (#[trigger] language_models(languages@)[j]) != language_model(*language),
    {
        if same_language(&languages[i], language) {
            assert(language_models(languages@)[i as int] == language_model(*language));
            return true;
        }
    }
    false
}

/// Whether facts are about a configuration: there is a language and a path for each target.
pub open spec fn facts_fit(config: ProjectConfig, facts: FactsModel) -> bool {
    facts.target_languages.len() == config.targets@.len() && facts.targets.len()
        == config.targets@.len()
}

/// Checks a target, given that nothing is wrong with the targets before it.
fn validate_target(
    config: &ProjectConfig,
    facts: &ProjectFacts,
    separator: char,
    at: usize,
    source_format: CatalogFormat,
) -> (outcome: Result<(), ConfigError>)
    requires
        at < config.targets@.len(),
        facts_fit(*config, facts.model()),
        format_of_name(file_name(facts.model().source_parts)) == Ok::<
            CatalogFormat,
            ExtensionProblem,
        >(source_format),
    ensures
        config_outcome_is(outcome, target_issue(*config, facts.model(), separator, at as int)),
{
    let target = &config.targets[at];
    let path = &facts.targets[at];
    let language = &facts.target_languages[at];
    assert(path.model() == facts.model().targets[at as int]);
    assert(language_model(*language) == facts.model().target_languages[at as int]);
    match validate_locale("targets[].locale", target.locale.as_str(), language) {
        Ok(_) => {},
        Err(error) => {
            return Err(error);
        },
    }
    if same_language(language, &facts.source_language) {
        return Err(ConfigError::Invalid(ConfigProblem::TargetIsSource(target.locale.clone())));
    }
    if is_blank(target.language.as_str()) {
        return Err(ConfigError::Invalid(ConfigProblem::EmptyLanguage(target.locale.clone())));
    }
    if language_used(&facts.target_languages, at, language) {
        return Err(ConfigError::Invalid(ConfigProblem::DuplicateLocale(target.locale.clone())));
    }
    let format = match format_of_path(path) {
        Ok(format) => format,
        Err(ExtensionProblem::Missing) => {
            return Err(ConfigError::Invalid(ConfigProblem::MissingExtension(to_text(path, separator))));
        },
        Err(ExtensionProblem::Unsupported) => {
            return Err(
                ConfigError::Invalid(ConfigProblem::UnsupportedExtension(to_text(path, separator))),
            );
        },
    };
    if format != source_format {
        return Err(ConfigError::Invalid(ConfigProblem::FormatsDiffer(to_text(path, separator))));
    }
    if same_path(path, &facts.source) {
        return Err(ConfigError::Invalid(ConfigProblem::OverwritesSource(to_text(path, separator))));
    }
    if path_used(&facts.targets, at, path) {
        return Err(ConfigError::Invalid(ConfigProblem::SharedOutput(to_text(path, separator))));
    }
    Ok(())
}

/// Checks a configuration about which these facts are known.
pub fn validate_with_facts(config: &ProjectConfig, facts: &ProjectFacts, separator: char) -> (outcome:
    Result<(), ConfigError>)
    requires
        facts_fit(*config, facts.model()),
    ensures
        config_outcome_is(outcome, config_issue(*config, facts.model(), separator)),
{
    match validate_settings(config, facts) {
        Ok(_) => {},
        Err(error) => {
            return Err(error);
        },
    }
    let source_format = match CatalogFormat::from_parts(&facts.source_parts) {
        Ok(format) => format,
        Err(ExtensionProblem::Missing) => {
            return Err(
                ConfigError::Invalid(ConfigProblem::MissingExtension(config.source.path.clone())),
            );
        },
        Err(ExtensionProblem::Unsupported) => {
            return Err(
                ConfigError::Invalid(ConfigProblem::UnsupportedExtension(config.source.path.clone())),
            );
        },
    };
    let ghost model = facts.model();
    for i in 0..config.targets.len()
        invariant
            model == facts.model(),
            facts_fit(*config, model),
            format_of_name(file_name(model.source_parts)) == Ok::<CatalogFormat, ExtensionProblem>(
                source_format,
            ),
            first_target_issue(*config, model, separator, i as nat) is None,
            config_issue(*config, model, separator) == first_target_issue(
                *config,
                model,
                separator,
                config.targets@.len(),
            ),
    {
        let checked = validate_target(config, facts, separator, i, source_format);
        proof {
            if first_target_issue(*config, model, separator, (i + 1) as nat) is Some {
                lemma_target_issue_stays(
                    *config,
                    model,
                    separator,
                    (i + 1) as nat,
                    config.targets@.len(),
                );
            }
        }
        match checked {
            Ok(_) => {},
            Err(error) => {
                return Err(error);
            },
        }
    }
    Ok(())
}

/// The file of a target as the configuration gives it.
pub open spec fn target_output(template: Seq<char>, target: TargetConfig) -> Seq<char> {
    match target.output {
        Some(output) => output@,
        None => replaced(template, "{locale}"@, target.locale@),
    }
}

fn output_of(template: &str, target: &TargetConfig) -> (output: String)
    ensures
        output@ == target_output(template@, *target),
{
    match &target.output {
        Some(output) => output.clone(),
        None => replace_all(template, "{locale}", target.locale.as_str()),
    }
}

/// The normalised path of a file that is given relative to a directory.
pub fn resolve(base_dir: &str, path: &str) -> (result: NormalPath)
    ensures
        resolves(result.model(), base_dir@, path@),
{
    let mut reader = PathReader::new();
    let result = reader.locate(base_dir, path);
    assert(readable(reader.reading()));
    result
}

/// The path of the file of a target.
pub fn resolve_target_path(base_dir: &str, output_template: &str, target: &TargetConfig) -> (result:
    NormalPath)
    ensures
        resolves(result.model(), base_dir@, target_output(output_template@, *target)),
{
    let output = output_of(output_template, target);
    resolve(base_dir, output.as_str())
}

/// Whether the directory and every path of a configuration were read.
pub open spec fn read_all(
    config: ProjectConfig,
    base_dir: Seq<char>,
    reading: Map<Seq<char>, Seq<PartModel>>,
) -> bool {
    &&& readable(reading)
    &&& reading.contains_key(base_dir)
    &&& reading.contains_key(config.source.path@)
    &&& forall|i: int|
        0 <= i < config.targets@.len() ==> reading.contains_key(
            target_output(config.output@, #[trigger] config.targets@[i]),
        )
}

/// The facts about a configuration in a directory, its paths read like this: its languages, and
/// where its files are.
pub open spec fn facts_of(
    config: ProjectConfig,
    base_dir: Seq<char>,
    reading: Map<Seq<char>, Seq<PartModel>>,
) -> FactsModel {
    FactsModel {
        source_language: language_of(config.source.locale@),
        target_languages: Seq::new(
            config.targets@.len(),
            |i: int| language_of(config.targets@[i].locale@),
        ),
        source_parts: reading[config.source.path@],
        source: located(reading, base_dir, config.source.path@),
        targets: Seq::new(
            config.targets@.len(),
            |i: int|
                located(reading, base_dir, target_output(config.output@, config.targets@[i])),
        ),
    }
}

/// Finds out what a check of a configuration needs to know.
pub fn project_facts(config: &ProjectConfig, base_dir: &str, reader: &mut PathReader) -> (facts:
    ProjectFacts)
    ensures
        kept_in(old(reader).reading(), final(reader).reading()),
        final(reader).mark() == old(reader).mark(),
        final(reader).faithful(),
        read_all(*config, base_dir@, final(reader).reading()),
        facts.model() == facts_of(*config, base_dir@, final(reader).reading()),
{
    let source = reader.locate(base_dir, config.source.path.as_str());
    let source_parts = reader.read(config.source.path.as_str());
    let source_language = language(config.source.locale.as_str());
    let mut target_languages: Vec<Result<String, LocaleProblem>> = Vec::new();
    let mut targets: Vec<NormalPath> = Vec::new();
    for i in 0..config.targets.len()
        invariant
            kept_in(old(reader).reading(), reader.reading()),
            reader.mark() == old(reader).mark(),
            reader.faithful(),
            reader.reading().contains_key(base_dir@),
            reader.reading().contains_key(config.source.path@),
            part_models(source_parts@) == reader.reading()[config.source.path@],
            source.model() == located(reader.reading(), base_dir@, config.source.path@),
            targets@.len() == i,
            target_languages@.len() == i,
            forall|j: int|
                0 <= j < i ==> language_model(#[trigger] target_languages@[j]) == language_of(
                    config.targets@[j].locale@,
                ),
            forall|j: int|
                0 <= j < i ==> reader.reading().contains_key(
                    target_output(config.output@, #[trigger] config.targets@[j]),
                ),
            forall|j: int|
                0 <= j < i ==> (#[trigger] targets@[j]).model() == located(
                    reader.reading(),
                    base_dir@,
                    target_output(config.output@, config.targets@[j]),
                ),
    {
        let ghost before = reader.reading();
        target_languages.push(language(config.targets[i].locale.as_str()));
        let output = output_of(config.output.as_str(), &config.targets[i]);
        let target = reader.locate(base_dir, output.as_str());
        proof {
            assert forall|j: int| 0 <= j < i implies reader.reading().contains_key(
                target_output(config.output@, #[trigger] config.targets@[j]),
            ) && reader.reading()[target_output(config.output@, config.targets@[j])]
                == before[target_output(config.output@, config.targets@[j])] by {
                assert(before.contains_key(target_output(config.output@, config.targets@[j])));
            }
            assert forall|j: int| 0 <= j < i implies (#[trigger] targets@[j]).model() == located(
                reader.reading(),
                base_dir@,
                target_output(config.output@, config.targets@[j]),
            ) by {
                assert(before.contains_key(target_output(config.output@, config.targets@[j])));
            }
        }
        targets.push(target);
    }
    let facts = ProjectFacts { source_language, target_languages, source_parts, source, targets };
    proof {
        let expected = facts_of(*config, base_dir@, reader.reading());
        assert(facts.model().targets =~= expected.targets);
        assert(facts.model().target_languages =~= expected.target_languages);
    }
    facts
}

/// What is wrong with a configuration in a directory, its paths read and shown like this.
pub open spec fn issue_in(
    config: ProjectConfig,
    base_dir: Seq<char>,
    reading: Map<Seq<char>, Seq<PartModel>>,
    separator: char,
) -> Option<ConfigIssue> {
    config_issue(config, facts_of(config, base_dir, reading), separator)
}

/// Whether an outcome is success with a property, or the failure that a configuration in a
/// directory calls for, however the platform reads its paths.
pub open spec fn checked_in(
    config: ProjectConfig,
    base_dir: Seq<char>,
    succeeded: bool,
    error: ConfigError,
) -> bool {
    exists|reading: Map<Seq<char>, Seq<PartModel>>, separator: char|
        (match #[trigger] issue_in(config, base_dir, reading, separator) {
            None => succeeded,
            Some(issue) => !succeeded && error is Invalid && error->Invalid_0.issue() == issue,
        }) && read_all(config, base_dir, reading) && (separator == '/' || separator == '\\')
}

/// Checks a configuration in a directory with a reader of its paths.
fn check_in(config: &ProjectConfig, base_dir: &str, reader: &mut PathReader) -> (outcome: Result<
    NormalPath,
    ConfigError,
>)
    ensures
        final(reader).faithful(),
        read_all(*config, base_dir@, final(reader).reading()),
        match issue_in(*config, base_dir@, final(reader).reading(), final(reader).mark()) {
            None => outcome is Ok && outcome->Ok_0.model() == located(
                final(reader).reading(),
                base_dir@,
                config.source.path@,
            ),
            Some(issue) => outcome is Err && outcome->Err_0 is Invalid
                && outcome->Err_0->Invalid_0.issue() == issue,
        },
{
    let facts = project_facts(config, base_dir, reader);
    match validate_with_facts(config, &facts, reader.separator()) {
        Ok(_) => Ok(facts.source),
        Err(error) => Err(error),
    }
}

/// Checks a configuration in a directory.
pub fn validate_project_config(config: &ProjectConfig, base_dir: &str) -> (outcome: Result<
    (),
    ConfigError,
>)
    ensures
        checked_in(*config, base_dir@, outcome is Ok, outcome->Err_0),
{
    let mut reader = PathReader::new();
    match check_in(config, base_dir, &mut reader) {
        Ok(_) => Ok(()),
        Err(error) => Err(error),
    }
}

/// Checks the size of a configuration file before it is read.
pub fn check_size(length: u64) -> (outcome: Result<(), ConfigError>)
    ensures
        config_outcome_is(
            outcome,
            if length > MAX_CONFIG_SIZE {
                Some(ConfigIssue::TooLarge)
            } else {
                None
            },
        ),
{
    if length > MAX_CONFIG_SIZE {
        return Err(ConfigError::Invalid(ConfigProblem::TooLarge));
    }
    Ok(())
}

/// The message about a problem.
pub open spec fn problem_text(issue: ConfigIssue) -> Seq<char> {
    match issue {
        ConfigIssue::TooLarge => "配置文件超过 1048576 字节限制"@,
        ConfigIssue::UnsafeLocale { field } => field + " 不是安全的语言代码"@,
        ConfigIssue::InvalidLocale { field, locale } => field + " 不是有效的 BCP-47 语言代码: "@
            + locale,
        ConfigIssue::EmptyModel => "model 不能为空"@,
        ConfigIssue::NoLocalePlaceholder => "output 必须包含 {locale} 占位符"@,
        ConfigIssue::NoTargets => "targets 至少需要一个目标语言"@,
        ConfigIssue::BatchSize => "translation.batch_size 必须在 1 到 200 之间"@,
        ConfigIssue::Timeout => "translation.timeout_seconds 必须在 1 到 600 之间"@,
        ConfigIssue::Retries => "translation.max_retries 不能大于 10"@,
        ConfigIssue::MissingExtension(path) => "文件 "@ + path + " 缺少扩展名"@,
        ConfigIssue::UnsupportedExtension(path) => "文件 "@ + path + " 仅支持 .json 或 .arb"@,
        ConfigIssue::TargetIsSource(locale) => "目标语言 "@ + locale + " 与源语言重复"@,
        ConfigIssue::EmptyLanguage(locale) => "目标语言 "@ + locale + " 的 language 不能为空"@,
        ConfigIssue::DuplicateLocale(locale) => "目标语言 "@ + locale + " 重复"@,
        ConfigIssue::FormatsDiffer(path) => "目标文件 "@ + path + " 与源文件格式不一致"@,
        ConfigIssue::OverwritesSource(path) => "目标文件 "@ + path + " 不能覆盖源文件"@,
        ConfigIssue::SharedOutput(path) => "多个目标语言生成了同一路径 "@ + path,
    }
}

impl ConfigProblem {
    /// The message about the problem.
    pub fn to_string(&self) -> (text: String)
        ensures
            text@ == problem_text(self.issue()),
    {
        match self {
            ConfigProblem::TooLarge => "配置文件超过 1048576 字节限制".to_owned(),
            ConfigProblem::UnsafeLocale { field } => join2(*field, " 不是安全的语言代码"),
            ConfigProblem::InvalidLocale { field, locale } => join3(
                *field,
                " 不是有效的 BCP-47 语言代码: ",
                locale.as_str(),
            ),
            ConfigProblem::EmptyModel => "model 不能为空".to_owned(),
            ConfigProblem::NoLocalePlaceholder => "output 必须包含 {locale} 占位符".to_owned(),
            ConfigProblem::NoTargets => "targets 至少需要一个目标语言".to_owned(),
            ConfigProblem::BatchSize => "translation.batch_size 必须在 1 到 200 之间".to_owned(),
            ConfigProblem::Timeout => "translation.timeout_seconds 必须在 1 到 600 之间".to_owned(),
            ConfigProblem::Retries => "translation.max_retries 不能大于 10".to_owned(),
            ConfigProblem::MissingExtension(path) => join3("文件 ", path.as_str(), " 缺少扩展名"),
            ConfigProblem::UnsupportedExtension(path) => join3(
                "文件 ",
                path.as_str(),
                " 仅支持 .json 或 .arb",
            ),
            ConfigProblem::TargetIsSource(locale) => join3(
                "目标语言 ",
                locale.as_str(),
                " 与源语言重复",
            ),
            ConfigProblem::EmptyLanguage(locale) => join3(
                "目标语言 ",
                locale.as_str(),
                " 的 language 不能为空",
            ),
            ConfigProblem::DuplicateLocale(locale) => join3("目标语言 ", locale.as_str(), " 重复"),
            ConfigProblem::FormatsDiffer(path) => join3(
                "目标文件 ",
                path.as_str(),
                " 与源文件格式不一致",
            ),
            ConfigProblem::OverwritesSource(path) => join3(
                "目标文件 ",
                path.as_str(),
                " 不能覆盖源文件",
            ),
            ConfigProblem::SharedOutput(path) => join2("多个目标语言生成了同一路径 ", path.as_str()),
        }
    }
}

impl ConfigError {
    /// The message about the error.
    pub open spec fn message(self) -> Seq<char> {
        match self {
            ConfigError::Parse { path, source } => "配置文件 "@ + path@ + " 不是有效 JSON: "@
                + json_error_text(source),
            ConfigError::Malformed(path) => "配置文件 "@ + path@ + " 不是有效 JSON: 结构不符合要求"@,
            ConfigError::Invalid(problem) => "配置无效: "@ + problem_text(problem.issue()),
            ConfigError::Serialize { source } => "无法序列化配置: "@ + json_error_text(source),
        }
    }

    /// The message about the error.
    pub fn to_string(&self) -> (text: String)
        ensures
            text@ == self.message(),
    {
        match self {
            ConfigError::Parse { path, source } => {
                let details = show_json_error(source);
                join4("配置文件 ", path.as_str(), " 不是有效 JSON: ", details.as_str())
            },
            ConfigError::Malformed(path) => join3(
                "配置文件 ",
                path.as_str(),
                " 不是有效 JSON: 结构不符合要求",
            ),
            ConfigError::Invalid(problem) => {
                let details = problem.to_string();
                join2("配置无效: ", details.as_str())
            },
            ConfigError::Serialize { source } => {
                let details = show_json_error(source);
                join2("无法序列化配置: ", details.as_str())
            },
        }
    }
}

/// Where a file is, and the directory that it is in.
#[derive(Debug)]
pub struct Located {
    pub path: String,
    pub directory: Option<String>,
}

/// Finds a file that is given relative to the current directory. The directory is missing for a
/// path without segments.
pub fn locate(current_dir: &str, path: &str) -> (found: Located)
    ensures
        exists|normal: NormalModel, separator: char|
            found.path@ == #[trigger] path_text(normal, separator) && (separator == '/' || separator
                == '\\') && (found.directory is Some <==> normal.segments.len() > 0) && (
            found.directory is Some ==> found.directory->0@ == path_text(
                (NormalModel { segments: normal.segments.drop_last(), ..normal }),
                separator,
            )) && resolves(normal, current_dir@, path@),
{
    let mut reader = PathReader::new();
    let normal = reader.locate(current_dir, path);
    let separator = reader.separator();
    assert(readable(reader.reading()));
    let directory = match parent(&normal) {
        Some(directory) => Some(to_text(&directory, separator)),
        None => None,
    };
    let found = Located { path: to_text(&normal, separator), directory };
    assert(found.path@ == path_text(normal.model(), separator));
    found
}

/// A checked configuration and where its files are.
#[derive(Debug)]
pub struct LoadedProjectConfig {
    pub config: ProjectConfig,
    pub config_path: String,
    pub base_dir: String,
    pub source_path: String,
    /// What was read when the configuration was checked.
    pub reader: PathReader,
}

impl LoadedProjectConfig {
    /// What the paths of the configuration were read as when it was checked.
    pub open spec fn reading(self) -> Map<Seq<char>, Seq<PartModel>> {
        self.reader.reading()
    }

    /// The separator of the paths.
    pub open spec fn mark(self) -> char {
        self.reader.mark()
    }

    /// Checks a configuration that was read from a file in a directory.
    pub fn new(config: ProjectConfig, config_path: String, base_dir: String) -> (outcome: Result<
        Self,
        ConfigError,
    >)
        ensures
            checked_in(config, base_dir@, outcome is Ok, outcome->Err_0),
            outcome is Ok ==> {
                let project = outcome->Ok_0;
                &&& project.config == config
                &&& project.config_path@ == config_path@
                &&& project.base_dir@ == base_dir@
                &&& project.mark() == '/' || project.mark() == '\\'
                &&& read_all(config, base_dir@, project.reading())
                &&& issue_in(config, base_dir@, project.reading(), project.mark()) is None
                &&& project.source_path@ == path_text(
                    located(project.reading(), base_dir@, config.source.path@),
                    project.mark(),
                )
            },
    {
        let mut reader = PathReader::new();
        match check_in(&config, base_dir.as_str(), &mut reader) {
            Ok(source) => {
                let source_path = to_text(&source, reader.separator());
                Ok(LoadedProjectConfig { config, config_path, base_dir, source_path, reader })
            },
            Err(error) => Err(error),
        }
    }

    /// The path of the file of a target. What was read when the configuration was checked is not
    /// read again.
    pub fn target_path(&self, target: &TargetConfig) -> (path: String)
        ensures
            exists|reading: Map<Seq<char>, Seq<PartModel>>|
                {
                    let output = target_output(self.config.output@, *target);
                    &&& #[trigger] kept_in(self.reading(), reading)
                    &&& readable(reading)
                    &&& reading.contains_key(self.base_dir@)
                    &&& reading.contains_key(output)
                    &&& path@ == path_text(located(reading, self.base_dir@, output), self.mark())
                },
    {
        let mut reader = self.reader.copy();
        let output = output_of(self.config.output.as_str(), target);
        let normal = reader.locate(self.base_dir.as_str(), output.as_str());
        assert(kept_in(self.reading(), reader.reading()));
        to_text(&normal, reader.separator())
    }
}

/// The files of a checked configuration are those that were checked: the path of a target of it
/// is the same however more paths are read.
pub proof fn law_checked_paths_stay(
    config: ProjectConfig,
    base_dir: Seq<char>,
    reading: Map<Seq<char>, Seq<PartModel>>,
    more: Map<Seq<char>, Seq<PartModel>>,
    at: int,
)
    requires
        read_all(config, base_dir, reading),
        kept_in(reading, more),
        0 <= at < config.targets@.len(),
    ensures
        located(more, base_dir, target_output(config.output@, config.targets@[at])) == facts_of(
            config,
            base_dir,
            reading,
        ).targets[at],
{
    assert(reading.contains_key(target_output(config.output@, config.targets@[at])));
}

/// An optional text as a member of an object: none where there is no text.
pub open spec fn optional_member(key: Seq<char>, text: Option<String>) -> Seq<
    (Seq<char>, JsonModel),
> {
    match text {
        Some(found) => seq![(key, JsonModel::Text(found@))],
        None => Seq::empty(),
    }
}

/// A target as JSON.
pub open spec fn target_json(target: TargetConfig) -> JsonModel {
    JsonModel::Object(
        seq![
            ("locale"@, JsonModel::Text(target.locale@)),
            ("language"@, JsonModel::Text(target.language@)),
        ] + optional_member("output"@, target.output) + optional_member("prompt"@, target.prompt),
    )
}

/// A configuration as JSON.
pub open spec fn config_json(config: ProjectConfig) -> JsonModel {
    JsonModel::Object(
        seq![
            (
                "source"@,
                JsonModel::Object(
                    seq![
                        ("locale"@, JsonModel::Text(config.source.locale@)),
                        ("path"@, JsonModel::Text(config.source.path@)),
                    ],
                ),
            ),
            ("output"@, JsonModel::Text(config.output@)),
            ("model"@, JsonModel::Text(config.model@)),
            (
                "targets"@,
                JsonModel::Array(
                    Seq::new(config.targets@.len(), |i: int| target_json(config.targets@[i])),
                ),
            ),
            (
                "translation"@,
                JsonModel::Object(
                    seq![
                        (
                            "batch_size"@,
                            JsonModel::Number(decimal(config.translation.batch_size as nat)),
                        ),
                        (
                            "timeout_seconds"@,
                            JsonModel::Number(decimal(config.translation.timeout_seconds as nat)),
                        ),
                        (
                            "max_retries"@,
                            JsonModel::Number(decimal(config.translation.max_retries as nat)),
                        ),
                    ],
                ),
            ),
        ],
    )
}

fn push_optional(entries: &mut Vec<(String, Json)>, key: &str, text: &Option<String>)
    ensures
        members(final(entries)@) == members(old(entries)@) + optional_member(key@, *text),
{
    let ghost before = members(entries@);
    if let Some(found) = text {
        push_member(entries, key, Json::text(found.as_str()));
    }
    assert(members(entries@) =~= before + optional_member(key@, *text));
}

fn target_to_json(target: &TargetConfig) -> (json: Json)
    ensures
        json.model() == target_json(*target),
{
    let mut entries: Vec<(String, Json)> = Vec::new();
    push_member(&mut entries, "locale", Json::text(target.locale.as_str()));
    push_member(&mut entries, "language", Json::text(target.language.as_str()));
    push_optional(&mut entries, "output", &target.output);
    push_optional(&mut entries, "prompt", &target.prompt);
    assert(members(entries@) =~= target_json(*target)->Object_0);
    object(entries)
}

proof fn lemma_target_json_well_formed(target: TargetConfig)
    ensures
        well_formed(target_json(target)),
{
    reveal_strlit("locale");
    reveal_strlit("language");
    reveal_strlit("output");
    reveal_strlit("prompt");
    let entries = target_json(target)->Object_0;
    assert("locale"@[1] == 'o' && "output"@[1] == 'u' && "prompt"@[1] == 'r');
    assert forall|i: int| 0 <= i < entries.len() implies well_formed((#[trigger] entries[i]).1) by {
        assert(entries[i].1 is Text);
    }
    assert(entries[0].0 == "locale"@ && entries[1].0 == "language"@);
    assert(entries.len() > 2 ==> entries[2].0 == "output"@ || entries[2].0 == "prompt"@);
    assert(entries.len() > 3 ==> entries[2].0 == "output"@ && entries[3].0 == "prompt"@);
    assert(entries.len() <= 4);
    lemma_keys_distinct(entries);
}

proof fn lemma_config_json_well_formed(config: ProjectConfig)
    ensures
        well_formed(config_json(config)),
{
    reveal_strlit("source");
    reveal_strlit("output");
    reveal_strlit("model");
    reveal_strlit("targets");
    reveal_strlit("translation");
    reveal_strlit("locale");
    reveal_strlit("path");
    reveal_strlit("batch_size");
    reveal_strlit("timeout_seconds");
    reveal_strlit("max_retries");
    let entries = config_json(config)->Object_0;
    assert("source"@[0] == 's' && "output"@[0] == 'o');
    assert(entries[0].0 == "source"@ && entries[1].0 == "output"@ && entries[2].0 == "model"@);
    assert(entries[3].0 == "targets"@ && entries[4].0 == "translation"@);
    lemma_keys_distinct(entries);
    let source = entries[0].1;
    assert(source->Object_0[0].0 == "locale"@ && source->Object_0[1].0 == "path"@);
    lemma_keys_distinct(source->Object_0);
    assert forall|i: int| 0 <= i < 2 implies well_formed((#[trigger] source->Object_0[i]).1) by {
        assert(source->Object_0[i].1 is Text);
    }
    assert(well_formed(source));
    let targets = entries[3].1;
    assert forall|i: int| 0 <= i < targets->Array_0.len() implies well_formed(
        #[trigger] targets->Array_0[i],
    ) by {
        lemma_target_json_well_formed(config.targets@[i]);
    }
    assert(well_formed(targets));
    let translation = entries[4].1;
    assert(translation->Object_0[0].0 == "batch_size"@);
    assert(translation->Object_0[1].0 == "timeout_seconds"@);
    assert(translation->Object_0[2].0 == "max_retries"@);
    lemma_keys_distinct(translation->Object_0);
    assert forall|i: int| 0 <= i < 3 implies well_formed((#[trigger] translation->Object_0[i]).1) by {
        assert(translation->Object_0[i].1 is Number);
    }
    assert(well_formed(translation));
    assert(entries[1].1 is Text && entries[2].1 is Text);
    assert(well_formed(entries[1].1) && well_formed(entries[2].1));
    assert forall|i: int| 0 <= i < entries.len() implies well_formed((#[trigger] entries[i]).1) by {}
}

impl ProjectConfig {
    /// The configuration as JSON.
    pub fn to_json(&self) -> (json: Json)
        ensures
            json.model() == config_json(*self),
            well_formed(json.model()),
    {
        let mut source: Vec<(String, Json)> = Vec::new();
        push_member(&mut source, "locale", Json::text(self.source.locale.as_str()));
        push_member(&mut source, "path", Json::text(self.source.path.as_str()));
        let mut targets: Vec<Json> = Vec::new();
        for i in 0..self.targets.len()
            invariant
                targets@.len() == i,
                forall|j: int|
                    0 <= j < i ==> (#[trigger] targets@[j]).model() == target_json(self.targets@[j]),
        {
            targets.push(target_to_json(&self.targets[i]));
        }
        let mut translation: Vec<(String, Json)> = Vec::new();
        let batch_size: u64 = self.translation.batch_size as u64;
        let max_retries: u64 = self.translation.max_retries as u64;
        push_member(&mut translation, "batch_size", Json::integer(batch_size));
        push_member(
            &mut translation,
            "timeout_seconds",
            Json::integer(self.translation.timeout_seconds),
        );
        push_member(&mut translation, "max_retries", Json::integer(max_retries));
        let mut entries: Vec<(String, Json)> = Vec::new();
        let ghost expected = config_json(*self)->Object_0;
        assert(members(source@) =~= expected[0].1->Object_0);
        assert(items(targets@) =~= expected[3].1->Array_0);
        assert(members(translation@) =~= expected[4].1->Object_0);
        push_member(&mut entries, "source", object(source));
        push_member(&mut entries, "output", Json::text(self.output.as_str()));
        push_member(&mut entries, "model", Json::text(self.model.as_str()));
        push_member(&mut entries, "targets", array(targets));
        push_member(&mut entries, "translation", object(translation));
        assert(members(entries@) =~= expected);
        proof {
            lemma_config_json_well_formed(*self);
        }
        object(entries)
    }
}

/// The contents of a new configuration file: the checked configuration as an indented document
/// that ends in a line break.
pub fn new_project_config(config: &ProjectConfig, base_dir: &str) -> (outcome: Result<
    Vec<u8>,
    ConfigError,
>)
    ensures
        checked_in(*config, base_dir@, outcome is Ok, outcome->Err_0),
        outcome is Ok ==> outcome->Ok_0@ == pretty_encoding(config_json(*config)).push(10u8)
            && holds_document(outcome->Ok_0@, config_json(*config)),
        config_document(config_json(*config)) == Some(config.settings()),
{
    proof {
        law_config_reads_back(*config);
        lemma_config_nested(*config);
    }
    match validate_project_config(config, base_dir) {
        Ok(_) => {},
        Err(error) => {
            return Err(error);
        },
    }
    match config.to_json().to_pretty() {
        Ok(contents) => {
            let mut bytes = contents;
            bytes.push(10u8);
            Ok(bytes)
        },
        Err(source) => Err(ConfigError::Serialize { source }),
    }
}

/// Uses another model configuration in a project; whether that is a change.
pub fn update_project_model(config: &mut ProjectConfig, name: &str) -> (changed: bool)
    ensures
        changed == (old(config).model@ != name@),
        final(config).model@ == name@,
        final(config).source == old(config).source,
        final(config).output == old(config).output,
        final(config).targets == old(config).targets,
        final(config).translation == old(config).translation,
{
    if same_text(config.model.as_str(), name) {
        return false;
    }
    config.model = name.to_owned();
    true
}

/// A valid configuration has targets and a model. Each target has a language code of its own, which
/// is not that of the source, and a language; its file is one of its own, is not the source file,
/// and has the format of the source file.
pub proof fn law_valid_config(
    config: ProjectConfig,
    base_dir: Seq<char>,
    reading: Map<Seq<char>, Seq<PartModel>>,
    separator: char,
)
    requires
        issue_in(config, base_dir, reading, separator) is None,
    ensures
        config.targets@.len() > 0,
        !blank(config.model@),
        language_of(config.source.locale@) is Ok,
        ({
            let facts = facts_of(config, base_dir, reading);
            let format = format_of_name(file_name(reading[config.source.path@]));
            &&& format is Ok
            &&& forall|i: int|
                0 <= i < config.targets@.len() ==> {
                    &&& (#[trigger] facts.targets[i]) != facts.source
                    &&& format_of_name(normal_file_name(facts.targets[i])) == format
                }
            &&& forall|i: int|
                0 <= i < config.targets@.len() ==> {
                    &&& !blank((#[trigger] config.targets@[i]).language@)
                    &&& language_of(config.targets@[i].locale@) is Ok
                    &&& language_of(config.targets@[i].locale@) != language_of(
                        config.source.locale@,
                    )
                }
            &&& forall|i: int, j: int|
                0 <= i < j < config.targets@.len() ==> (#[trigger] facts.targets[i])
                    != (#[trigger] facts.targets[j])
            &&& forall|i: int, j: int|
                0 <= i < j < config.targets@.len() ==> language_of(
                    (#[trigger] config.targets@[i]).locale@,
                ) != language_of((#[trigger] config.targets@[j]).locale@)
        }),
{
    let facts = facts_of(config, base_dir, reading);
    let count = config.targets@.len();
    assert forall|i: int| 0 <= i < count implies #[trigger] target_issue(
        config,
        facts,
        separator,
        i,
    ) is None by {
        lemma_no_target_issue(config, facts, separator, (i + 1) as nat, count);
    }
    assert forall|i: int| 0 <= i < count implies {
        &&& (#[trigger] facts.targets[i]) != facts.source
        &&& format_of_name(normal_file_name(facts.targets[i])) == format_of_name(
            file_name(reading[config.source.path@]),
        )
    } by {
        assert(target_issue(config, facts, separator, i) is None);
    }
    assert forall|i: int| 0 <= i < count implies {
        &&& !blank((#[trigger] config.targets@[i]).language@)
        &&& language_of(config.targets@[i].locale@) is Ok
        &&& language_of(config.targets@[i].locale@) != language_of(config.source.locale@)
    } by {
        assert(target_issue(config, facts, separator, i) is None);
        assert(facts.target_languages[i] == language_of(config.targets@[i].locale@));
    }
    assert forall|i: int, j: int| 0 <= i < j < count implies (#[trigger] facts.targets[i])
        != (#[trigger] facts.targets[j]) by {
        assert(target_issue(config, facts, separator, j) is None);
    }
    assert forall|i: int, j: int| 0 <= i < j < count implies language_of(
        (#[trigger] config.targets@[i]).locale@,
    ) != language_of((#[trigger] config.targets@[j]).locale@) by {
        assert(target_issue(config, facts, separator, j) is None);
        assert(facts.target_languages[i] == language_of(config.targets@[i].locale@));
        assert(facts.target_languages[j] == language_of(config.targets@[j].locale@));
    }
}

proof fn lemma_no_target_issue(
    config: ProjectConfig,
    facts: FactsModel,
    separator: char,
    fewer: nat,
    count: nat,
)
    requires
        fewer <= count,
        first_target_issue(config, facts, separator, count) is None,
    ensures
        first_target_issue(config, facts, separator, fewer) is None,
    decreases count,
{
    if fewer < count {
        lemma_no_target_issue(config, facts, separator, fewer, (count - 1) as nat);
    }
}

/// What a target is.
pub struct TargetModel {
    pub locale: Seq<char>,
    pub language: Seq<char>,
    pub output: Option<Seq<char>>,
    pub prompt: Option<Seq<char>>,
}

/// What a configuration is.
#[verifier::ext_equal]
pub struct ConfigModel {
    pub source_locale: Seq<char>,
    pub source_path: Seq<char>,
    pub output: Seq<char>,
    pub model: Seq<char>,
    pub targets: Seq<TargetModel>,
    pub translation: TranslationConfig,
}

impl TargetConfig {
    /// What the target is.
    pub open spec fn target(self) -> TargetModel {
        TargetModel {
            locale: self.locale@,
            language: self.language@,
            output: optional_text(self.output),
            prompt: optional_text(self.prompt),
        }
    }
}

/// What each target is.
pub open spec fn target_models(list: Seq<TargetConfig>) -> Seq<TargetModel> {
    Seq::new(list.len(), |i: int| list[i].target())
}

impl ProjectConfig {
    /// What the configuration is.
    pub open spec fn settings(self) -> ConfigModel {
        ConfigModel {
            source_locale: self.source.locale@,
            source_path: self.source.path@,
            output: self.output@,
            model: self.model@,
            targets: target_models(self.targets@),
            translation: self.translation,
        }
    }
}

/// The target that a document holds.
pub open spec fn target_document(value: JsonModel) -> Option<TargetModel> {
    match value {
        JsonModel::Object(entries) => match (
            text_member(lookup(entries, "locale"@)),
            text_member(lookup(entries, "language"@)),
            optional_text_member(lookup(entries, "output"@)),
            optional_text_member(lookup(entries, "prompt"@)),
        ) {
            (Some(locale), Some(language), Some(output), Some(prompt)) => Some(
                TargetModel { locale, language, output, prompt },
            ),
            _ => None,
        },
        _ => None,
    }
}

/// The targets that a document holds.
pub open spec fn targets_document(value: Option<JsonModel>) -> Option<Seq<TargetModel>> {
    match value {
        Some(JsonModel::Array(list)) => if forall|i: int|
            0 <= i < list.len() ==> target_document(#[trigger] list[i]) is Some {
            Some(Seq::new(list.len(), |i: int| target_document(list[i])->0))
        } else {
            None
        },
        _ => None,
    }
}

/// A number that may be missing: the default takes its place.
pub open spec fn number_or(value: Option<JsonModel>, limit: nat, default: nat) -> Option<nat> {
    if value is None {
        Some(default)
    } else {
        number_member(value, limit)
    }
}

/// How translations are requested, as a document gives it; what is missing has its default.
pub open spec fn translation_document(value: Option<JsonModel>) -> Option<TranslationConfig> {
    match value {
        None => Some(
            TranslationConfig { batch_size: 40, timeout_seconds: 120, max_retries: 2 },
        ),
        Some(JsonModel::Object(entries)) => match (
            number_or(lookup(entries, "batch_size"@), usize::MAX as nat, 40),
            number_or(lookup(entries, "timeout_seconds"@), u64::MAX as nat, 120),
            number_or(lookup(entries, "max_retries"@), usize::MAX as nat, 2),
        ) {
            (Some(batch_size), Some(timeout_seconds), Some(max_retries)) => Some(
                TranslationConfig {
                    batch_size: batch_size as usize,
                    timeout_seconds: timeout_seconds as u64,
                    max_retries: max_retries as usize,
                },
            ),
            _ => None,
        },
        _ => None,
    }
}

/// The language code and the path that the source of a document gives.
pub open spec fn source_document(value: Option<JsonModel>) -> Option<(Seq<char>, Seq<char>)> {
    match value {
        Some(JsonModel::Object(entries)) => match (
            text_member(lookup(entries, "locale"@)),
            text_member(lookup(entries, "path"@)),
        ) {
            (Some(locale), Some(path)) => Some((locale, path)),
            _ => None,
        },
        _ => None,
    }
}

/// The configuration that a document holds.
pub open spec fn config_document(document: JsonModel) -> Option<ConfigModel> {
    match document {
        JsonModel::Object(entries) => match (
            source_document(lookup(entries, "source"@)),
            text_member(lookup(entries, "output"@)),
            text_member(lookup(entries, "model"@)),
            targets_document(lookup(entries, "targets"@)),
            translation_document(lookup(entries, "translation"@)),
        ) {
            (Some(source), Some(output), Some(model), Some(targets), Some(translation)) => Some(
                ConfigModel {
                    source_locale: source.0,
                    source_path: source.1,
                    output,
                    model,
                    targets,
                    translation,
                },
            ),
            _ => None,
        },
        _ => None,
    }
}

fn read_target(value: &Json) -> (target: Option<TargetConfig>)
    ensures
        match target_document(value.model()) {
            Some(expected) => target is Some && target->0.target() == expected,
            None => target is None,
        },
{
    let entries = match value.as_object() {
        Some(entries) => entries,
        None => {
            return None;
        },
    };
    let locale = read_text(find(entries, "locale"));
    let language = read_text(find(entries, "language"));
    let output = read_optional_text(find(entries, "output"));
    let prompt = read_optional_text(find(entries, "prompt"));
    match (locale, language, output, prompt) {
        (Some(locale), Some(language), Some(output), Some(prompt)) => Some(
            TargetConfig { locale, language, output, prompt },
        ),
        _ => None,
    }
}

fn read_targets(value: Option<&Json>) -> (targets: Option<Vec<TargetConfig>>)
    ensures
        match targets_document(optional_model(value)) {
            Some(expected) => targets is Some && target_models(targets->0@) == expected,
            None => targets is None,
        },
{
    let json = match value {
        Some(json) => json,
        None => {
            return None;
        },
    };
    proof {
        lemma_model(*json);
    }
    match json {
        Json::Array(values) => {
            let ghost models = items(values@);
            let mut targets: Vec<TargetConfig> = Vec::new();
            for i in 0..values.len()
                invariant
                    models == items(values@),
                    optional_model(value) == Some(JsonModel::Array(models)),
                    targets@.len() == i,
                    forall|j: int|
                        0 <= j < i ==> target_document(#[trigger] models[j]) == Some(
                            targets@[j].target(),
                        ),
            {
                assert(models[i as int] == values@[i as int].model());
                match read_target(&values[i]) {
                    Some(target) => {
                        targets.push(target);
                    },
                    None => {
                        assert(target_document(models[i as int]) is None);
                        return None;
                    },
                }
            }
            assert(target_models(targets@) =~= targets_document(optional_model(value))->0);
            Some(targets)
        },
        _ => None,
    }
}

fn read_number_or(value: Option<&Json>, limit: u64, default: u64) -> (number: Option<u64>)
    ensures
        match number_or(optional_model(value), limit as nat, default as nat) {
            Some(expected) => number is Some && number->0 == expected,
            None => number is None,
        },
{
    if value.is_none() {
        return Some(default);
    }
    read_number(value, limit)
}

proof fn lemma_number_bound(value: Option<JsonModel>, limit: nat, default: nat)
    requires
        default <= limit,
    ensures
        number_or(value, limit, default) is Some ==> number_or(value, limit, default)->0 <= limit,
{
}

fn read_translation(value: Option<&Json>) -> (translation: Option<TranslationConfig>)
    ensures
        translation == translation_document(optional_model(value)),
{
    let json = match value {
        Some(json) => json,
        None => {
            return Some(
                TranslationConfig { batch_size: 40, timeout_seconds: 120, max_retries: 2 },
            );
        },
    };
    let entries = match json.as_object() {
        Some(entries) => entries,
        None => {
            return None;
        },
    };
    let batch_size = read_number_or(find(entries, "batch_size"), usize::MAX as u64, 40);
    let timeout_seconds = read_number_or(find(entries, "timeout_seconds"), u64::MAX, 120);
    let max_retries = read_number_or(find(entries, "max_retries"), usize::MAX as u64, 2);
    proof {
        let model = members(entries@);
        lemma_number_bound(lookup(model, "batch_size"@), usize::MAX as nat, 40);
        lemma_number_bound(lookup(model, "max_retries"@), usize::MAX as nat, 2);
    }
    match (batch_size, timeout_seconds, max_retries) {
        (Some(batch_size), Some(timeout_seconds), Some(max_retries)) => Some(
            TranslationConfig {
                batch_size: batch_size as usize,
                timeout_seconds,
                max_retries: max_retries as usize,
            },
        ),
        _ => None,
    }
}

fn read_source(value: Option<&Json>) -> (source: Option<SourceConfig>)
    ensures
        match source_document(optional_model(value)) {
            Some(expected) => source is Some && source->0.locale@ == expected.0 && source->0.path@
                == expected.1,
            None => source is None,
        },
{
    let entries = match value {
        Some(json) => match json.as_object() {
            Some(entries) => entries,
            None => {
                return None;
            },
        },
        None => {
            return None;
        },
    };
    let locale = read_text(find(entries, "locale"));
    let path = read_text(find(entries, "path"));
    match (locale, path) {
        (Some(locale), Some(path)) => Some(SourceConfig { locale, path }),
        _ => None,
    }
}

/// Whether an outcome of reading a configuration file is the one that its document calls for.
pub open spec fn read_outcome_is(
    outcome: Result<ProjectConfig, ConfigError>,
    found: Option<JsonModel>,
    path: Seq<char>,
) -> bool {
    match found {
        None => outcome is Err && outcome->Err_0 is Parse && outcome->Err_0->Parse_path@ == path,
        Some(document) => match config_document(document) {
            None => outcome is Err && outcome->Err_0 is Malformed
                && outcome->Err_0->Malformed_0@ == path,
            Some(config) => outcome is Ok && outcome->Ok_0.settings() == config,
        },
    }
}

impl ProjectConfig {
    /// The configuration that a document holds.
    pub fn from_json(document: &Json, path: &str) -> (outcome: Result<Self, ConfigError>)
        ensures
            read_outcome_is(outcome, Some(document.model()), path@),
    {
        let entries = match document.as_object() {
            Some(entries) => entries,
            None => {
                return Err(ConfigError::Malformed(path.to_owned()));
            },
        };
        let source = read_source(find(entries, "source"));
        let output = read_text(find(entries, "output"));
        let model = read_text(find(entries, "model"));
        let targets = read_targets(find(entries, "targets"));
        let translation = read_translation(find(entries, "translation"));
        match (source, output, model, targets, translation) {
            (Some(source), Some(output), Some(model), Some(targets), Some(translation)) => {
                let config = ProjectConfig { source, output, model, targets, translation };
                assert(config.settings() =~= config_document(document.model())->0);
                Ok(config)
            },
            _ => Err(ConfigError::Malformed(path.to_owned())),
        }
    }

    /// Reads the contents of the configuration file at a path.
    pub fn parse(contents: &str, path: &str) -> (outcome: Result<Self, ConfigError>)
        ensures
            read_outcome_is(outcome, json_document(contents@), path@),
    {
        match parse_json(contents) {
            Ok(document) => ProjectConfig::from_json(&document, path),
            Err(source) => Err(ConfigError::Parse { path: path.to_owned(), source }),
        }
    }
}

proof fn lemma_target_reads_back(target: TargetConfig)
    ensures
        target_document(target_json(target)) == Some(target.target()),
{
    reveal_strlit("locale");
    reveal_strlit("language");
    reveal_strlit("output");
    reveal_strlit("prompt");
    let entries = target_json(target)->Object_0;
    assert("locale"@[1] == 'o' && "output"@[1] == 'u' && "prompt"@[1] == 'r');
    assert(entries[0].0 == "locale"@ && entries[1].0 == "language"@);
    assert(entries.len() > 2 ==> entries[2].0 == "output"@ || entries[2].0 == "prompt"@);
    assert(entries.len() > 3 ==> entries[2].0 == "output"@ && entries[3].0 == "prompt"@);
    assert(entries.len() <= 4);
    lemma_keys_distinct(entries);
    lemma_lookup_distinct(entries, 0);
    lemma_lookup_distinct(entries, 1);
    if target.output is Some {
        assert(entries[2].0 == "output"@);
        lemma_lookup_distinct(entries, 2);
    } else {
        lemma_lookup_absent(entries, "output"@);
    }
    if target.prompt is Some {
        lemma_lookup_distinct(entries, entries.len() - 1);
        assert(entries[entries.len() - 1].0 == "prompt"@);
    } else {
        lemma_lookup_absent(entries, "prompt"@);
    }
}

/// A configuration reads back from the document that it is written as.
pub proof fn law_config_reads_back(config: ProjectConfig)
    ensures
        config_document(config_json(config)) == Some(config.settings()),
{
    reveal_strlit("source");
    reveal_strlit("output");
    reveal_strlit("model");
    reveal_strlit("targets");
    reveal_strlit("translation");
    reveal_strlit("locale");
    reveal_strlit("path");
    reveal_strlit("batch_size");
    reveal_strlit("timeout_seconds");
    reveal_strlit("max_retries");
    let entries = config_json(config)->Object_0;
    assert("source"@[0] == 's' && "output"@[0] == 'o');
    assert(entries[0].0 == "source"@ && entries[1].0 == "output"@ && entries[2].0 == "model"@);
    assert(entries[3].0 == "targets"@ && entries[4].0 == "translation"@);
    lemma_keys_distinct(entries);
    lemma_lookup_distinct(entries, 0);
    lemma_lookup_distinct(entries, 1);
    lemma_lookup_distinct(entries, 2);
    lemma_lookup_distinct(entries, 3);
    lemma_lookup_distinct(entries, 4);
    let source = entries[0].1->Object_0;
    assert(source[0].0 == "locale"@ && source[1].0 == "path"@);
    lemma_keys_distinct(source);
    lemma_lookup_distinct(source, 0);
    lemma_lookup_distinct(source, 1);
    let list = entries[3].1->Array_0;
    assert forall|i: int| 0 <= i < list.len() implies target_document(#[trigger] list[i]) == Some(
        config.targets@[i].target(),
    ) by {
        lemma_target_reads_back(config.targets@[i]);
    }
    assert(Seq::new(list.len(), |i: int| target_document(list[i])->0) =~= target_models(
        config.targets@,
    ));
    let translation = entries[4].1->Object_0;
    assert(translation[0].0 == "batch_size"@ && translation[1].0 == "timeout_seconds"@);
    assert(translation[2].0 == "max_retries"@);
    lemma_keys_distinct(translation);
    lemma_lookup_distinct(translation, 0);
    lemma_lookup_distinct(translation, 1);
    lemma_lookup_distinct(translation, 2);
    law_decimal_parses(config.translation.batch_size as nat, usize::MAX as nat);
    law_decimal_parses(config.translation.timeout_seconds as nat, u64::MAX as nat);
    law_decimal_parses(config.translation.max_retries as nat, usize::MAX as nat);
    assert(config_document(config_json(config))->0 =~= config.settings());
}

proof fn lemma_config_nested(config: ProjectConfig)
    ensures
        nested_within(config_json(config), 127),
{
    let entries = config_json(config)->Object_0;
    let source = entries[0].1->Object_0;
    let list = entries[3].1->Array_0;
    let translation = entries[4].1->Object_0;
    assert forall|i: int| 0 <= i < source.len() implies nested_within(
        (#[trigger] source[i]).1,
        125,
    ) by {
        lemma_not_nested(source[i].1, 125);
    }
    lemma_nested_object(source, 126);
    assert forall|i: int| 0 <= i < list.len() implies nested_within(#[trigger] list[i], 125) by {
        let target = target_json(config.targets@[i])->Object_0;
        assert forall|j: int| 0 <= j < target.len() implies nested_within(
            (#[trigger] target[j]).1,
            124,
        ) by {
            lemma_not_nested(target[j].1, 124);
        }
        lemma_nested_object(target, 125);
    }
    lemma_nested_array(list, 126);
    assert forall|i: int| 0 <= i < translation.len() implies nested_within(
        (#[trigger] translation[i]).1,
        125,
    ) by {
        lemma_not_nested(translation[i].1, 125);
    }
    lemma_nested_object(translation, 126);
    lemma_not_nested(entries[1].1, 126);
    lemma_not_nested(entries[2].1, 126);
    assert forall|i: int| 0 <= i < entries.len() implies nested_within(
        (#[trigger] entries[i]).1,
        126,
    ) by {}
    lemma_nested_object(entries, 127);
}

/// Reading the file that a configuration was written to gives the configuration again.
pub proof fn law_saved_config_loads(
    config: ProjectConfig,
    bytes: Seq<u8>,
    text: Seq<char>,
    outcome: Result<ProjectConfig, ConfigError>,
    path: Seq<char>,
)
    requires
        holds_document(bytes, config_json(config)),
        encode_utf8(text) == bytes,
        read_outcome_is(outcome, json_document(text), path),
    ensures
        outcome is Ok,
        outcome->Ok_0.settings() == config.settings(),
{
    law_config_reads_back(config);
}

} // verus!
