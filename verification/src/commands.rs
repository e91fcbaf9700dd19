//! What the commands decide and show.
use crate::agent::openai::{list_to_json, optional_entry, push_optional, texts_json};
use crate::catalog::{CatalogDiff, CatalogFormat, DiffReport, TypeConflict};
use crate::cli::{InitArgs, ModelSetArgs};
use crate::config::{ProjectConfig, SourceConfig, TargetConfig, TranslationConfig};
use crate::models::{ModelStore, ModelSummary};
use crate::models::remote::{AvailableModel, OfferModel};
use crate::terminal::{escape_text, shown};
use crate::text::{
    chars_of, clone_optional, contains_text, decimal, join2, join3, join4, join5, parse_usize,
    parsed_usize, push_decimal, same_text, text_of, texts, to_decimal, trim_bounds, trimmed,
};
use crate::value::{
    array, items, lemma_keys_distinct, members, object, push_member, well_formed, Json, JsonModel,
};
use vstd::prelude::*;

pub mod meaning;
pub mod models;
pub mod progress;
pub mod state;
pub mod state_meaning;
pub mod translate;

verus! {

/// Why a command is not carried out.
#[derive(Debug)]
pub enum CommandError {
    UnknownTarget(String),
    TypeConflicts(usize),
    NoModels,
    UnknownModel(String),
    NotANumber,
    OutOfRange(usize),
    ConflictingKeys,
    MissingModel(String),
    ModelRequired,
    KeyRequired,
}

impl CommandError {
    /// The message about the error.
    pub open spec fn message(self) -> Seq<char> {
        match self {
            CommandError::UnknownTarget(locale) => "目标语言未在 config.json 中配置: "@ + locale@,
            CommandError::TypeConflicts(count) => "存在 "@ + decimal(count as nat)
                + " 个类型冲突，请先修复目标文件"@,
            CommandError::NoModels => "远程接口未返回可用模型"@,
            CommandError::UnknownModel(id) => "远程模型列表中不存在: "@ + id@,
            CommandError::NotANumber => "请输入有效的模型编号"@,
            CommandError::OutOfRange(count) => "模型编号必须在 1 到 "@ + decimal(count as nat) + " 之间"@,
            CommandError::ConflictingKeys => "只能指定 --key、--key-stdin 或 --no-key 之一"@,
            CommandError::MissingModel(name) => "模型配置不存在: "@ + name@,
            CommandError::ModelRequired => "非交互环境必须指定模型 ID"@,
            CommandError::KeyRequired => "非交互环境必须指定 --key、--key-stdin 或 --no-key"@,
        }
    }

    /// The message about the error.
    pub fn to_string(&self) -> (text: String)
        ensures
            text@ == self.message(),
    {
        match self {
            CommandError::UnknownTarget(locale) => join2(
                "目标语言未在 config.json 中配置: ",
                locale.as_str(),
            ),
            CommandError::TypeConflicts(count) => {
                let number = to_decimal(*count as u64);
                join3("存在 ", number.as_str(), " 个类型冲突，请先修复目标文件")
            },
            CommandError::NoModels => "远程接口未返回可用模型".to_owned(),
            CommandError::UnknownModel(id) => join2("远程模型列表中不存在: ", id.as_str()),
            CommandError::NotANumber => "请输入有效的模型编号".to_owned(),
            CommandError::OutOfRange(count) => {
                let number = to_decimal(*count as u64);
                join3("模型编号必须在 1 到 ", number.as_str(), " 之间")
            },
            CommandError::ConflictingKeys => "只能指定 --key、--key-stdin 或 --no-key 之一".to_owned(),
            CommandError::MissingModel(name) => join2("模型配置不存在: ", name.as_str()),
            CommandError::ModelRequired => "非交互环境必须指定模型 ID".to_owned(),
            CommandError::KeyRequired => "非交互环境必须指定 --key、--key-stdin 或 --no-key".to_owned(),
        }
    }
}

/// Whether a target has a language code.
pub open spec fn has_target(targets: Seq<TargetConfig>, locale: Seq<char>) -> bool {
    exists|i: int| 0 <= i < targets.len() && (#[trigger] targets[i]).locale@ == locale
}

/// The targets among the first `count` whose language codes are listed, in their own order.
pub open spec fn listed_targets(
    targets: Seq<TargetConfig>,
    locales: Seq<Seq<char>>,
    count: nat,
) -> Seq<TargetConfig>
    decreases count,
{
    if count == 0 {
        Seq::empty()
    } else {
        let before = listed_targets(targets, locales, (count - 1) as nat);
        if locales.contains(targets[count - 1].locale@) {
            before.push(targets[count - 1])
        } else {
            before
        }
    }
}

/// The targets that references point to.
pub open spec fn pointed(list: Seq<&TargetConfig>) -> Seq<TargetConfig> {
    Seq::new(list.len(), |i: int| *list[i])
}

fn target_exists(targets: &Vec<TargetConfig>, locale: &str) -> (found: bool)
    ensures
        found == has_target(targets@, locale@),
{
    for i in 0..targets.len()
        invariant
            forall|j: int| 0 <= j < i ==> (#[trigger] targets@[j]).locale@ != locale@,
    {
        if same_text(targets[i].locale.as_str(), locale) {
            return true;
        }
    }
    false
}

/// The targets that a command is about: those whose language codes are listed, or all of them
/// where none is. A code without a target is an error.
pub fn select_targets<'a>(targets: &'a Vec<TargetConfig>, locales: &Vec<String>) -> (outcome: Result<
    Vec<&'a TargetConfig>,
    CommandError,
>)
    ensures
        ({
            let codes = texts(locales@);
            if codes.len() == 0 {
                outcome is Ok && pointed(outcome->Ok_0@) == targets@
            } else if forall|i: int| 0 <= i < codes.len() ==> has_target(targets@, #[trigger] codes[i]) {
                outcome is Ok && pointed(outcome->Ok_0@) == listed_targets(
                    targets@,
                    codes,
                    targets@.len(),
                )
            } else {
                outcome is Err && outcome->Err_0 is UnknownTarget && exists|i: int|
                    0 <= i < codes.len() && #[trigger] codes[i] == outcome->Err_0->UnknownTarget_0@
                        && !has_target(targets@, codes[i]) && forall|j: int|
                        0 <= j < i ==> has_target(targets@, #[trigger] codes[j])
            }
        }),
{
    let ghost codes = texts(locales@);
    let all = locales.len() == 0;
    for i in 0..locales.len()
        invariant
            codes == texts(locales@),
            forall|j: int| 0 <= j < i ==> has_target(targets@, #[trigger] codes[j]),
    {
        assert(codes[i as int] == locales@[i as int]@);
        if !target_exists(targets, locales[i].as_str()) {
            return Err(CommandError::UnknownTarget(locales[i].clone()));
        }
    }
    let mut list: Vec<&'a TargetConfig> = Vec::new();
    assert(pointed(list@) =~= targets@.take(0));
    assert(pointed(list@) =~= listed_targets(targets@, codes, 0));
    for i in 0..targets.len()
        invariant
            codes == texts(locales@),
            all == (codes.len() == 0),
            all ==> pointed(list@) == targets@.take(i as int),
            !all ==> pointed(list@) == listed_targets(targets@, codes, i as nat),
    {
        let ghost before = pointed(list@);
        if all || contains_text(locales, targets[i].locale.as_str()) {
            list.push(&targets[i]);
            assert(pointed(list@) =~= before.push(targets@[i as int]));
            assert(targets@.take(i + 1) =~= targets@.take(i as int).push(targets@[i as int]));
        }
    }
    assert(targets@.take(targets@.len() as int) =~= targets@);
    Ok(list)
}

/// The model that an input chooses among `count`, counted from one.
pub open spec fn selection(input: Seq<char>, count: int) -> Option<int> {
    match parsed_usize(trimmed(input)) {
        Some(number) => if 1 <= number <= count {
            Some(number - 1)
        } else {
            None
        },
        None => None,
    }
}

/// The position of the model that an input chooses.
pub fn parse_model_selection(input: &str, model_count: usize) -> (outcome: Result<usize, CommandError>)
    ensures
        match selection(input@, model_count as int) {
            Some(index) => outcome is Ok && outcome->Ok_0 == index,
            None => outcome is Err && (if parsed_usize(trimmed(input@)) is None {
                outcome->Err_0 is NotANumber
            } else {
                outcome->Err_0 == CommandError::OutOfRange(model_count)
            }),
        },
{
    let chars = chars_of(input);
    let (from, to) = trim_bounds(&chars);
    match parse_usize(&chars, from, to) {
        None => Err(CommandError::NotANumber),
        Some(number) => if 1 <= number && number <= model_count {
            Ok(number - 1)
        } else {
            Err(CommandError::OutOfRange(model_count))
        },
    }
}

/// The name of a format.
pub fn format_name(format: CatalogFormat) -> (name: &'static str)
    ensures
        name@ == (match format {
            CatalogFormat::Json => "JSON"@,
            CatalogFormat::Arb => "ARB"@,
        }),
{
    match format {
        CatalogFormat::Json => "JSON",
        CatalogFormat::Arb => "ARB",
    }
}

/// Whether a report shows no differences.
pub open spec fn clean(report: DiffReport) -> bool {
    report.missing@.len() == 0 && report.empty@.len() == 0 && report.outdated@.len() == 0
        && report.changed@.len() == 0 && report.extra@.len() == 0 && report.conflicts@.len() == 0
        && !report.baseline_missing
}

/// The exit code of a comparison: 2 where there are differences.
pub fn diff_exit_code(reports: &Vec<DiffReport>) -> (code: u8)
    ensures
        code == (if forall|i: int| 0 <= i < reports@.len() ==> clean(#[trigger] reports@[i]) {
            0u8
        } else {
            2u8
        }),
{
    for i in 0..reports.len()
        invariant
            forall|j: int| 0 <= j < i ==> clean(#[trigger] reports@[j]),
    {
        if !reports[i].is_clean() {
            assert(!clean(reports@[i as int]));
            return 2;
        }
    }
    0
}

/// The lines that show the first `count` paths.
pub open spec fn path_lines(paths: Seq<Seq<char>>, count: nat) -> Seq<char>
    decreases count,
{
    if count == 0 {
        Seq::empty()
    } else {
        path_lines(paths, (count - 1) as nat) + "    "@ + paths[count - 1] + "\n"@
    }
}

/// The lines that show paths under a label.
pub open spec fn labelled(label: Seq<char>, paths: Seq<Seq<char>>) -> Seq<char> {
    "  "@ + label + ": "@ + decimal(paths.len()) + "\n"@ + path_lines(paths, paths.len())
}

/// The lines that show the first `count` type conflicts.
pub open spec fn conflict_lines(conflicts: Seq<TypeConflict>, count: nat) -> Seq<char>
    decreases count,
{
    if count == 0 {
        Seq::empty()
    } else {
        let conflict = conflicts[count - 1];
        conflict_lines(conflicts, (count - 1) as nat) + "    "@ + conflict.path@ + ": "@
            + conflict.source_type@ + " -> "@ + conflict.target_type@ + "\n"@
    }
}

/// The lines that show a report.
pub open spec fn report_lines(report: DiffReport) -> Seq<char> {
    report.locale@ + ":\n"@ + labelled("缺失"@, texts(report.missing@)) + labelled(
        "空值"@,
        texts(report.empty@),
    ) + labelled("结构值变化"@, texts(report.changed@)) + labelled("额外"@, texts(report.extra@))
        + "  类型冲突: "@ + decimal(report.conflicts@.len()) + "\n"@ + conflict_lines(
        report.conflicts@,
        report.conflicts@.len(),
    )
}

fn push_paths(text: &mut String, label: &str, paths: &Vec<String>)
    ensures
        final(text)@ == old(text)@ + labelled(label@, texts(paths@)),
{
    let ghost before = text@;
    let ghost names = texts(paths@);
    text.append("  ");
    text.append(label);
    text.append(": ");
    push_decimal(text, paths.len());
    text.append("\n");
    let ghost head = text@;
    assert(text@ =~= head + path_lines(names, 0));
    for i in 0..paths.len()
        invariant
            names == texts(paths@),
            text@ == head + path_lines(names, i as nat),
    {
        text.append("    ");
        text.append(paths[i].as_str());
        text.append("\n");
        assert(names[i as int] == paths@[i as int]@);
        assert(text@ =~= head + path_lines(names, (i + 1) as nat));
    }
    assert(text@ =~= before + labelled(label@, names));
}

/// The lines that show a report.
pub fn show_report(report: &DiffReport) -> (text: String)
    ensures
        text@ == report_lines(*report),
{
    let mut text = String::new();
    text.append(report.locale.as_str());
    text.append(":\n");
    push_paths(&mut text, "缺失", &report.missing);
    push_paths(&mut text, "空值", &report.empty);
    push_paths(&mut text, "结构值变化", &report.changed);
    push_paths(&mut text, "额外", &report.extra);
    text.append("  类型冲突: ");
    push_decimal(&mut text, report.conflicts.len());
    text.append("\n");
    let ghost head = text@;
    assert(text@ =~= head + conflict_lines(report.conflicts@, 0));
    for i in 0..report.conflicts.len()
        invariant
            text@ == head + conflict_lines(report.conflicts@, i as nat),
    {
        let conflict = &report.conflicts[i];
        text.append("    ");
        text.append(conflict.path.as_str());
        text.append(": ");
        text.append(conflict.source_type);
        text.append(" -> ");
        text.append(conflict.target_type);
        text.append("\n");
        assert(text@ =~= head + conflict_lines(report.conflicts@, (i + 1) as nat));
    }
    assert(text@ =~= report_lines(*report));
    text
}

/// Whether a target has to be written.
#[derive(Debug, Clone, Copy, PartialEq, Eq, Structural)]
pub enum TargetPlan {
    Nothing,
    Translate,
}

/// Decides whether a target is translated: type conflicts come first, and a target that exists
/// and lacks nothing stays as it is.
pub fn plan_target(diff: &CatalogDiff, target_missing: bool) -> (outcome: Result<
    TargetPlan,
    CommandError,
>)
    ensures
        outcome == (if diff.report.conflicts@.len() > 0 {
            Err::<TargetPlan, CommandError>(
                CommandError::TypeConflicts(diff.report.conflicts@.len() as usize),
            )
        } else if !target_missing && diff.units@.len() == 0 && diff.report.missing@.len() == 0
            && diff.report.empty@.len() == 0 && diff.report.changed@.len() == 0 {
            Ok(TargetPlan::Nothing)
        } else {
            Ok(TargetPlan::Translate)
        }),
{
    let conflicts: usize = diff.report.conflicts.len();
    if conflicts > 0 {
        return Err(CommandError::TypeConflicts(conflicts));
    }
    if !target_missing && diff.units.len() == 0 && diff.report.missing.len() == 0
        && diff.report.empty.len() == 0 && diff.report.changed.len() == 0 {
        return Ok(TargetPlan::Nothing);
    }
    Ok(TargetPlan::Translate)
}

/// The exit code of a command on several targets: 1 where one of them failed.
pub fn failure_exit_code(failures: usize) -> (code: u8)
    ensures
        code == (if failures == 0 {
            0u8
        } else {
            1u8
        }),
{
    if failures == 0 {
        0
    } else {
        1
    }
}

/// The configuration of a new project: each target is named by its language code.
pub fn initial_config(arguments: InitArgs) -> (config: ProjectConfig)
    ensures
        config.source.locale@ == arguments.source_locale@,
        config.source.path@ == arguments.source@,
        config.output@ == arguments.output@,
        config.model@ == arguments.model@,
        config.translation == (TranslationConfig {
            batch_size: 40,
            timeout_seconds: 120,
            max_retries: 2,
        }),
        config.targets@.len() == arguments.targets@.len(),
        forall|i: int|
            0 <= i < config.targets@.len() ==> {
                let target = #[trigger] config.targets@[i];
                target.locale@ == arguments.targets@[i]@ && target.language@
                    == arguments.targets@[i]@ && target.output is None && target.prompt is None
            },
{
    let mut targets: Vec<TargetConfig> = Vec::new();
    for i in 0..arguments.targets.len()
        invariant
            targets@.len() == i,
            forall|j: int|
                0 <= j < i ==> {
                    let target = #[trigger] targets@[j];
                    target.locale@ == arguments.targets@[j]@ && target.language@
                        == arguments.targets@[j]@ && target.output is None && target.prompt is None
                },
    {
        targets.push(
            TargetConfig {
                locale: arguments.targets[i].clone(),
                language: arguments.targets[i].clone(),
                output: None,
                prompt: None,
            },
        );
    }
    ProjectConfig {
        source: SourceConfig { locale: arguments.source_locale, path: arguments.source },
        output: arguments.output,
        model: arguments.model,
        targets,
        translation: TranslationConfig { batch_size: 40, timeout_seconds: 120, max_retries: 2 },
    }
}

/// Where the key of a model configuration comes from.
#[derive(Debug)]
pub enum KeySource {
    Given(String),
    Input,
    NoKey,
    Prompt,
}

/// Decides where the key comes from; more than one way to give it is an error.
pub fn key_source(arguments: &ModelSetArgs) -> (outcome: Result<KeySource, CommandError>)
    ensures
        ({
            let (given, input, none) = (
                arguments.key is Some,
                arguments.key_stdin,
                arguments.no_key,
            );
            match outcome {
                Err(error) => error is ConflictingKeys && ((given && input) || (given && none) || (
                input && none)),
                Ok(KeySource::Given(key)) => given && !input && !none && key@ == arguments.key->0@,
                Ok(KeySource::Input) => !given && input && !none,
                Ok(KeySource::NoKey) => !given && !input && none,
                Ok(KeySource::Prompt) => !given && !input && !none,
            }
        }),
{
    match &arguments.key {
        Some(key) => if arguments.key_stdin || arguments.no_key {
            Err(CommandError::ConflictingKeys)
        } else {
            Ok(KeySource::Given(key.clone()))
        },
        None => if arguments.key_stdin && arguments.no_key {
            Err(CommandError::ConflictingKeys)
        } else if arguments.key_stdin {
            Ok(KeySource::Input)
        } else if arguments.no_key {
            Ok(KeySource::NoKey)
        } else {
            Ok(KeySource::Prompt)
        },
    }
}

/// Checks that a key can be had: without a terminal nobody can be asked for one.
pub fn check_key_source(source: &KeySource, interactive: bool) -> (outcome: Result<(), CommandError>)
    ensures
        outcome is Ok <==> interactive || !(*source is Prompt),
        outcome is Err ==> outcome->Err_0 is KeyRequired,
{
    match source {
        KeySource::Prompt => if interactive {
            Ok(())
        } else {
            Err(CommandError::KeyRequired)
        },
        _ => Ok(()),
    }
}

/// Checks that a model can be chosen: without a terminal it has to be given.
pub fn check_requested_model(requested: &Option<String>, interactive: bool) -> (outcome: Result<
    (),
    CommandError,
>)
    ensures
        outcome is Ok <==> interactive || *requested is Some,
        outcome is Err ==> outcome->Err_0 is ModelRequired,
{
    if requested.is_none() && !interactive {
        return Err(CommandError::ModelRequired);
    }
    Ok(())
}

/// A text without the line breaks that it ends with.
pub open spec fn without_line_ends(text: Seq<char>) -> Seq<char>
    decreases text.len(),
{
    if text.len() > 0 && (text.last() == '\n' || text.last() == '\r') {
        without_line_ends(text.drop_last())
    } else {
        text
    }
}

/// A text without the line breaks that it ends with.
pub fn trim_line_ends(text: &str) -> (result: String)
    ensures
        result@ == without_line_ends(text@),
{
    let chars = chars_of(text);
    let mut count: usize = chars.len();
    assert(text@.take(text@.len() as int) =~= text@);
    while count > 0 && (chars[count - 1] == '\n' || chars[count - 1] == '\r')
        invariant
            chars@ == text@,
            count <= chars@.len(),
            without_line_ends(text@.take(count as int)) == without_line_ends(text@),
        decreases count,
    {
        assert(text@.take(count as int).drop_last() =~= text@.take(count - 1));
        count = count - 1;
    }
    let result = text_of(&chars, 0, count);
    assert(result@ =~= text@.take(count as int));
    result
}

/// Which model is used.
#[derive(Debug)]
pub enum ModelChoice {
    Selected(AvailableModel),
    /// The user is asked to choose.
    Ask(Vec<AvailableModel>),
}

fn copy_offer(offer: &AvailableModel) -> (copy: AvailableModel)
    ensures
        copy.model() == offer.model(),
{
    AvailableModel { id: offer.id.clone(), owned_by: clone_optional(&offer.owned_by) }
}

/// Chooses among the offered models: the requested one, which must be offered, or the one that
/// the user is asked for.
pub fn choose_model(models: Vec<AvailableModel>, requested: Option<String>) -> (outcome: Result<
    ModelChoice,
    CommandError,
>)
    ensures
        if models@.len() == 0 {
            outcome is Err && outcome->Err_0 is NoModels
        } else {
            match requested {
                None => outcome == Ok::<ModelChoice, CommandError>(ModelChoice::Ask(models)),
                Some(id) => if exists|i: int|
                    0 <= i < models@.len() && (#[trigger] models@[i]).id@ == id@ {
                    outcome is Ok && outcome->Ok_0 is Selected && exists|i: int|
                        0 <= i < models@.len() && (#[trigger] models@[i]).id@ == id@
                            && outcome->Ok_0->Selected_0.model() == models@[i].model() && forall|
                            j: int,
                        | 0 <= j < i ==> (#[trigger] models@[j]).id@ != id@
                } else {
                    outcome is Err && outcome->Err_0 is UnknownModel
                        && outcome->Err_0->UnknownModel_0@ == id@
                },
            }
        },
{
    if models.len() == 0 {
        return Err(CommandError::NoModels);
    }
    match requested {
        None => Ok(ModelChoice::Ask(models)),
        Some(id) => {
            for i in 0..models.len()
                invariant
                    models@.len() > 0,
                    requested == Some(id),
                    forall|j: int| 0 <= j < i ==> (#[trigger] models@[j]).id@ != id@,
            {
                if same_text(models[i].id.as_str(), id.as_str()) {
                    let offer = copy_offer(&models[i]);
                    assert(models@[i as int].id@ == id@);
                    return Ok(ModelChoice::Selected(offer));
                }
            }
            Err(CommandError::UnknownModel(id))
        },
    }
}

/// The line that shows an offered model.
pub fn show_offer(offer: &AvailableModel) -> (line: String)
    ensures
        line@ == (match offer.owned_by {
            Some(owner) => shown(offer.id@) + "\t"@ + shown(owner@),
            None => shown(offer.id@),
        }),
{
    let id = escape_text(offer.id.as_str());
    match &offer.owned_by {
        Some(owner) => {
            let name = escape_text(owner.as_str());
            join3(id.as_str(), "\t", name.as_str())
        },
        None => id,
    }
}

/// The line of the menu that shows an offered model under its number.
pub fn show_choice(index: usize, offer: &AvailableModel) -> (line: String)
    requires
        index < usize::MAX,
    ensures
        line@ == "  "@ + decimal((index + 1) as nat) + ". "@ + shown(offer.id@),
{
    let number = to_decimal((index + 1) as u64);
    let id = escape_text(offer.id.as_str());
    join4("  ", number.as_str(), ". ", id.as_str())
}

/// The summary of a configuration as JSON.
pub open spec fn summary_json(summary: ModelSummary<'_>) -> JsonModel {
    JsonModel::Object(
        seq![
            ("name"@, JsonModel::Text(summary.name@)),
            ("url"@, JsonModel::Text(summary.url@)),
            ("model"@, JsonModel::Text(summary.model@)),
            ("has_key"@, JsonModel::Bool(summary.has_key)),
        ],
    )
}

/// The summary of a configuration as JSON.
pub fn summary_to_json(summary: &ModelSummary<'_>) -> (json: Json)
    ensures
        json.model() == summary_json(*summary),
        well_formed(json.model()),
{
    let mut entries: Vec<(String, Json)> = Vec::new();
    push_member(&mut entries, "name", Json::text(summary.name));
    push_member(&mut entries, "url", Json::text(summary.url));
    push_member(&mut entries, "model", Json::text(summary.model));
    push_member(&mut entries, "has_key", Json::Bool(summary.has_key));
    let ghost expected = summary_json(*summary)->Object_0;
    assert(members(entries@) =~= expected);
    proof {
        reveal_strlit("name");
        reveal_strlit("url");
        reveal_strlit("model");
        reveal_strlit("has_key");
        assert(expected[0].0 == "name"@ && expected[1].0 == "url"@);
        assert(expected[2].0 == "model"@ && expected[3].0 == "has_key"@);
        lemma_keys_distinct(expected);
        assert forall|i: int| 0 <= i < expected.len() implies well_formed((#[trigger] expected[i]).1) by {
            assert(expected[i].1 is Text || expected[i].1 is Bool);
        }
    }
    object(entries)
}

/// The message about a valid project.
pub open spec fn valid_text(locale: Seq<char>, target_count: nat, format: CatalogFormat) -> Seq<char> {
    "配置有效：源语言 "@ + locale + "，目标语言 "@ + decimal(target_count) + " 个，格式 "@ + (match format {
        CatalogFormat::Json => "JSON"@,
        CatalogFormat::Arb => "ARB"@,
    })
}

/// The message about a valid project.
pub fn valid_message(locale: &str, target_count: usize, format: CatalogFormat) -> (text: String)
    ensures
        text@ == valid_text(locale@, target_count as nat, format),
{
    let number = to_decimal(target_count as u64);
    let mut text = join5(
        "配置有效：源语言 ",
        locale,
        "，目标语言 ",
        number.as_str(),
        " 个，格式 ",
    );
    text.append(format_name(format));
    text
}

/// Checks that the model of a project is configured; the message is about a valid project.
pub fn check_model(store: &ModelStore, config: &ProjectConfig, format: CatalogFormat) -> (outcome:
    Result<String, CommandError>)
    ensures
        outcome is Ok <==> store.model().contains_key(config.model@),
        outcome is Ok ==> outcome->Ok_0@ == valid_text(
            config.source.locale@,
            config.targets@.len(),
            format,
        ),
        outcome is Err ==> outcome->Err_0 is MissingModel && outcome->Err_0->MissingModel_0@
            == config.model@,
{
    if !store.contains(config.model.as_str()) {
        return Err(CommandError::MissingModel(config.model.clone()));
    }
    Ok(valid_message(config.source.locale.as_str(), config.targets.len(), format))
}

/// A list of texts as JSON.
pub open spec fn paths_json(list: Seq<String>) -> JsonModel {
    texts_json(texts(list))
}

/// A type conflict as JSON.
pub open spec fn conflict_json(conflict: TypeConflict) -> JsonModel {
    JsonModel::Object(
        seq![
            ("path"@, JsonModel::Text(conflict.path@)),
            ("source_type"@, JsonModel::Text(conflict.source_type@)),
            ("target_type"@, JsonModel::Text(conflict.target_type@)),
        ],
    )
}

/// A report as JSON.
pub open spec fn report_json(report: DiffReport) -> JsonModel {
    JsonModel::Object(
        seq![
            ("locale"@, JsonModel::Text(report.locale@)),
            ("missing"@, paths_json(report.missing@)),
            ("empty"@, paths_json(report.empty@)),
            ("outdated"@, paths_json(report.outdated@)),
            ("changed"@, paths_json(report.changed@)),
            ("extra"@, paths_json(report.extra@)),
            (
                "conflicts"@,
                JsonModel::Array(
                    Seq::new(
                        report.conflicts@.len(),
                        |i: int| conflict_json(report.conflicts@[i]),
                    ),
                ),
            ),
            ("baseline_missing"@, JsonModel::Bool(report.baseline_missing)),
        ],
    )
}

/// Reports as JSON.
pub open spec fn reports_json(reports: Seq<DiffReport>) -> JsonModel {
    JsonModel::Array(Seq::new(reports.len(), |i: int| report_json(reports[i])))
}

fn conflict_to_json(conflict: &TypeConflict) -> (json: Json)
    ensures
        json.model() == conflict_json(*conflict),
        well_formed(json.model()),
{
    let mut entries: Vec<(String, Json)> = Vec::new();
    push_member(&mut entries, "path", Json::text(conflict.path.as_str()));
    push_member(&mut entries, "source_type", Json::text(conflict.source_type));
    push_member(&mut entries, "target_type", Json::text(conflict.target_type));
    let ghost expected = conflict_json(*conflict)->Object_0;
    assert(members(entries@) =~= expected);
    proof {
        reveal_strlit("path");
        reveal_strlit("source_type");
        reveal_strlit("target_type");
        assert("path"@.len() == 4 && "source_type"@.len() == 11);
        assert("source_type"@[0] == 's' && "target_type"@[0] == 't');
        assert(expected[0].0 == "path"@ && expected[1].0 == "source_type"@);
        assert(expected[2].0 == "target_type"@);
        lemma_keys_distinct(expected);
        assert forall|i: int| 0 <= i < expected.len() implies well_formed((#[trigger] expected[i]).1) by {
            assert(expected[i].1 is Text);
        }
    }
    object(entries)
}

fn report_to_json(report: &DiffReport) -> (json: Json)
    ensures
        json.model() == report_json(*report),
        well_formed(json.model()),
{
    let ghost expected = report_json(*report)->Object_0;
    let ghost inner = expected[6].1->Array_0;
    let mut conflicts: Vec<Json> = Vec::new();
    for i in 0..report.conflicts.len()
        invariant
            inner == report_json(*report)->Object_0[6].1->Array_0,
            conflicts@.len() == i,
            forall|j: int|
                0 <= j < i ==> (#[trigger] conflicts@[j]).model() == inner[j] && well_formed(inner[j]),
    {
        conflicts.push(conflict_to_json(&report.conflicts[i]));
    }
    assert(items(conflicts@) =~= inner);
    proof {
        assert forall|i: int| 0 <= i < inner.len() implies well_formed(#[trigger] inner[i]) by {
            assert(conflicts@[i].model() == inner[i]);
        }
    }
    let mut entries: Vec<(String, Json)> = Vec::new();
    push_member(&mut entries, "locale", Json::text(report.locale.as_str()));
    push_member(&mut entries, "missing", list_to_json(&report.missing));
    push_member(&mut entries, "empty", list_to_json(&report.empty));
    push_member(&mut entries, "outdated", list_to_json(&report.outdated));
    push_member(&mut entries, "changed", list_to_json(&report.changed));
    push_member(&mut entries, "extra", list_to_json(&report.extra));
    push_member(&mut entries, "conflicts", array(conflicts));
    push_member(&mut entries, "baseline_missing", Json::Bool(report.baseline_missing));
    assert(members(entries@) =~= expected);
    proof {
        reveal_strlit("locale");
        reveal_strlit("missing");
        reveal_strlit("empty");
        reveal_strlit("outdated");
        reveal_strlit("changed");
        reveal_strlit("extra");
        reveal_strlit("conflicts");
        reveal_strlit("baseline_missing");
        assert("locale"@.len() == 6 && "missing"@.len() == 7 && "empty"@.len() == 5);
        assert("outdated"@.len() == 8 && "changed"@.len() == 7 && "extra"@.len() == 5);
        assert("conflicts"@.len() == 9 && "baseline_missing"@.len() == 16);
        assert("missing"@[0] == 'm' && "changed"@[0] == 'c');
        assert("empty"@[1] == 'm' && "extra"@[1] == 'x');
        assert(expected[0].0 == "locale"@ && expected[1].0 == "missing"@ && expected[2].0 == "empty"@);
        assert(expected[3].0 == "outdated"@ && expected[4].0 == "changed"@ && expected[5].0 == "extra"@);
        assert(expected[6].0 == "conflicts"@ && expected[7].0 == "baseline_missing"@);
        lemma_keys_distinct(expected);
        assert(well_formed(expected[6].1));
        assert forall|i: int| 0 <= i < expected.len() implies well_formed((#[trigger] expected[i]).1) by {
            if i == 0 || i == 7 {
                assert(expected[i].1 is Text || expected[i].1 is Bool);
            }
        }
    }
    object(entries)
}

/// Reports as JSON.
pub fn reports_to_json(reports: &Vec<DiffReport>) -> (json: Json)
    ensures
        json.model() == reports_json(reports@),
        well_formed(json.model()),
{
    let ghost expected = reports_json(reports@)->Array_0;
    let mut values: Vec<Json> = Vec::new();
    for i in 0..reports.len()
        invariant
            expected == reports_json(reports@)->Array_0,
            values@.len() == i,
            forall|j: int|
                0 <= j < i ==> (#[trigger] values@[j]).model() == expected[j] && well_formed(
                    expected[j],
                ),
    {
        values.push(report_to_json(&reports[i]));
    }
    assert(items(values@) =~= expected);
    proof {
        assert forall|i: int| 0 <= i < expected.len() implies well_formed(#[trigger] expected[i]) by {
            assert(values@[i].model() == expected[i]);
        }
    }
    array(values)
}

/// An offered model as JSON; a missing owner is left out.
pub open spec fn offer_json(offer: OfferModel) -> JsonModel {
    JsonModel::Object(
        seq![("id"@, JsonModel::Text(offer.id))] + optional_entry("owned_by"@, offer.owned_by),
    )
}

/// Offered models as JSON.
pub open spec fn offers_json(list: Seq<AvailableModel>) -> JsonModel {
    JsonModel::Array(Seq::new(list.len(), |i: int| offer_json(list[i].model())))
}

fn offer_to_json(offer: &AvailableModel) -> (json: Json)
    ensures
        json.model() == offer_json(offer.model()),
        well_formed(json.model()),
{
    let mut entries: Vec<(String, Json)> = Vec::new();
    push_member(&mut entries, "id", Json::text(offer.id.as_str()));
    let owner: Option<&str> = match &offer.owned_by {
        Some(owner) => Some(owner.as_str()),
        None => None,
    };
    push_optional(&mut entries, "owned_by", owner);
    let ghost expected = offer_json(offer.model())->Object_0;
    assert(members(entries@) =~= expected);
    proof {
        reveal_strlit("id");
        reveal_strlit("owned_by");
        assert("id"@.len() == 2 && "owned_by"@.len() == 8);
        assert(expected[0].0 == "id"@ && (expected.len() > 1 ==> expected[1].0 == "owned_by"@));
        assert(expected.len() <= 2);
        lemma_keys_distinct(expected);
        assert forall|i: int| 0 <= i < expected.len() implies well_formed((#[trigger] expected[i]).1) by {
            assert(expected[i].1 is Text);
        }
    }
    object(entries)
}

/// Offered models as JSON.
pub fn offers_to_json(list: &Vec<AvailableModel>) -> (json: Json)
    ensures
        json.model() == offers_json(list@),
        well_formed(json.model()),
{
    let ghost expected = offers_json(list@)->Array_0;
    let mut values: Vec<Json> = Vec::new();
    for i in 0..list.len()
        invariant
            expected == offers_json(list@)->Array_0,
            values@.len() == i,
            forall|j: int|
                0 <= j < i ==> (#[trigger] values@[j]).model() == expected[j] && well_formed(
                    expected[j],
                ),
    {
        values.push(offer_to_json(&list[i]));
    }
    assert(items(values@) =~= expected);
    proof {
        assert forall|i: int| 0 <= i < expected.len() implies well_formed(#[trigger] expected[i]) by {
            assert(values@[i].model() == expected[i]);
        }
    }
    array(values)
}

} // verus!
