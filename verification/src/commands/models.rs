//! The commands on the model configurations.
use crate::cli::ModelCommand;
use crate::config::{update_project_model, ProjectConfig};
use crate::map::sorted_keys;
use crate::models::{
    service_issue, valid_name, ModelStore, ModelStoreError, ModelSummary, ServiceModel, StoreIssue,
    StoreProblem,
};
use crate::text::{blank, join2, join4, optional_text};
use crate::urls::parsed_url;
use crate::value::{Json, JsonModel};
use super::{key_source, summary_to_json, CommandError, KeySource};
use vstd::prelude::*;

verus! {

/// Why a command on the model configurations is not carried out.
#[derive(Debug)]
pub enum ModelCommandError {
    Store(ModelStoreError),
    Command(CommandError),
}

/// What is to be done for a command.
#[allow(inconsistent_fields)]
#[derive(Debug)]
pub enum ModelAction {
    /// The key is obtained, and the configuration stored with it.
    ReadKey { name: String, url: String, model: String, source: KeySource },
    /// The summaries are shown.
    Show(Vec<Json>),
    /// The models of the service are listed.
    ListModels { name: String, url: Option<String>, json: bool },
    /// A model of the service is selected; without one the user is asked.
    SelectModel { name: String, url: Option<String>, model: Option<String> },
    /// The project uses the configuration.
    Activate(String),
    /// The configurations are saved, and the message is shown.
    Save(String),
}

/// What each value of a list is.
pub open spec fn json_models(list: Seq<Json>) -> Seq<JsonModel> {
    Seq::new(list.len(), |i: int| list[i].model())
}

/// The summary of a configuration as JSON.
pub open spec fn shown_service(name: Seq<char>, service: ServiceModel) -> JsonModel {
    JsonModel::Object(
        seq![
            ("name"@, JsonModel::Text(name)),
            ("url"@, JsonModel::Text(service.url)),
            ("model"@, JsonModel::Text(service.model)),
            ("has_key"@, JsonModel::Bool(service.api_key is Some)),
        ],
    )
}

/// Whether an outcome is the one that a command calls for, given the configurations before and
/// after it.
pub open spec fn action_is(
    outcome: Result<ModelAction, ModelCommandError>,
    command: ModelCommand,
    before: Map<Seq<char>, ServiceModel>,
    after: Map<Seq<char>, ServiceModel>,
) -> bool {
    match command {
        ModelCommand::SetProfile(arguments) => after == before && (match outcome {
            Ok(ModelAction::ReadKey { name, url, model, source }) => name@ == arguments.name@ && url@
                == arguments.url@ && model@ == arguments.model@ && (match source {
                KeySource::Given(key) => arguments.key is Some && key@ == arguments.key->0@
                    && !arguments.key_stdin && !arguments.no_key,
                KeySource::Input => arguments.key is None && arguments.key_stdin && !arguments.no_key,
                KeySource::NoKey => arguments.key is None && !arguments.key_stdin && arguments.no_key,
                KeySource::Prompt => arguments.key is None && !arguments.key_stdin
                    && !arguments.no_key,
            }),
            Err(error) => error is Command && error->Command_0 is ConflictingKeys && (
            (arguments.key is Some && (arguments.key_stdin || arguments.no_key)) || (
            arguments.key_stdin && arguments.no_key)),
            _ => false,
        }),
        ModelCommand::List => after == before && (match outcome {
            Ok(ModelAction::Show(list)) => json_models(list@) == Seq::new(
                before.len(),
                |i: int|
                    shown_service(
                        sorted_keys(before.dom())[i],
                        before[sorted_keys(before.dom())[i]],
                    ),
            ),
            _ => false,
        }),
        ModelCommand::Available(arguments) => after == before && (match outcome {
            Ok(ModelAction::ListModels { name, url, json }) => name@ == arguments.name@
                && optional_text(url) == optional_text(arguments.url) && json == arguments.json,
            _ => false,
        }),
        ModelCommand::Select(arguments) => after == before && (match outcome {
            Ok(ModelAction::SelectModel { name, url, model }) => name@ == arguments.name@
                && optional_text(url) == optional_text(arguments.url) && optional_text(model)
                == optional_text(arguments.model),
            _ => false,
        }),
        ModelCommand::Activate { name } => after == before && (match outcome {
            Ok(ModelAction::Activate(found)) => before.contains_key(name@) && found@ == name@,
            Err(ModelCommandError::Command(CommandError::MissingModel(found))) => !before.contains_key(
                name@,
            ) && found@ == name@,
            _ => false,
        }),
        ModelCommand::Show { name } => after == before && (match outcome {
            Ok(ModelAction::Show(list)) => before.contains_key(name@) && json_models(list@) == seq![
                shown_service(name@, before[name@]),
            ],
            Err(ModelCommandError::Store(error)) => !before.contains_key(name@) && error.reports(
                StoreIssue::Missing(name@),
            ),
            _ => false,
        }),
        ModelCommand::Delete { name } => after == before.remove(name@) && (match outcome {
            Ok(ModelAction::Save(message)) => before.contains_key(name@) && message@
                == "已删除模型配置 "@ + name@,
            Err(ModelCommandError::Store(error)) => !before.contains_key(name@) && error.reports(
                StoreIssue::Missing(name@),
            ),
            _ => false,
        }),
    }
}

fn show_summary(summary: &ModelSummary<'_>, name: Ghost<Seq<char>>, service: Ghost<ServiceModel>) -> (json:
    Json)
    requires
        summary.is_of(name@, service@),
    ensures
        json.model() == shown_service(name@, service@),
{
    summary_to_json(summary)
}

/// Decides what is to be done for a command; a removal is carried out at once.
pub fn begin_model_command(command: ModelCommand, store: &mut ModelStore) -> (outcome: Result<
    ModelAction,
    ModelCommandError,
>)
    ensures
        action_is(outcome, command, old(store).model(), final(store).model()),
{
    match command {
        ModelCommand::SetProfile(arguments) => match key_source(&arguments) {
            Err(error) => Err(ModelCommandError::Command(error)),
            Ok(source) => Ok(
                ModelAction::ReadKey {
                    name: arguments.name,
                    url: arguments.url,
                    model: arguments.model,
                    source,
                },
            ),
        },
        ModelCommand::List => {
            let ghost map = store.model();
            let ghost names = sorted_keys(map.dom());
            let summaries = store.summaries();
            let mut list: Vec<Json> = Vec::new();
            for i in 0..summaries.len()
                invariant
                    summaries@.len() == map.len(),
                    names == sorted_keys(map.dom()),
                    forall|j: int|
                        0 <= j < summaries@.len() ==> (#[trigger] summaries@[j]).is_of(
                            names[j],
                            map[names[j]],
                        ),
                    list@.len() == i,
                    forall|j: int|
                        0 <= j < i ==> (#[trigger] list@[j]).model() == shown_service(
                            names[j],
                            map[names[j]],
                        ),
            {
                let ghost name = names[i as int];
                assert(summaries@[i as int].is_of(name, map[name]));
                list.push(show_summary(&summaries[i], Ghost(name), Ghost(map[name])));
            }
            assert(json_models(list@) =~= Seq::new(
                map.len(),
                |i: int| shown_service(sorted_keys(map.dom())[i], map[sorted_keys(map.dom())[i]]),
            ));
            Ok(ModelAction::Show(list))
        },
        ModelCommand::Available(arguments) => Ok(
            ModelAction::ListModels {
                name: arguments.name,
                url: arguments.url,
                json: arguments.json,
            },
        ),
        ModelCommand::Select(arguments) => Ok(
            ModelAction::SelectModel {
                name: arguments.name,
                url: arguments.url,
                model: arguments.model,
            },
        ),
        ModelCommand::Activate { name } => {
            if store.contains(name.as_str()) {
                Ok(ModelAction::Activate(name))
            } else {
                Err(ModelCommandError::Command(CommandError::MissingModel(name)))
            }
        },
        ModelCommand::Show { name } => {
            let ghost map = store.model();
            match store.summary(name.as_str()) {
                Err(error) => Err(ModelCommandError::Store(error)),
                Ok(summary) => {
                    let json = show_summary(&summary, Ghost(name@), Ghost(map[name@]));
                    let mut list: Vec<Json> = Vec::new();
                    list.push(json);
                    assert(json_models(list@) =~= seq![shown_service(name@, map[name@])]);
                    Ok(ModelAction::Show(list))
                },
            }
        },
        ModelCommand::Delete { name } => match store.delete(name.as_str()) {
            Err(error) => Err(ModelCommandError::Store(error)),
            Ok(_) => Ok(ModelAction::Save(join2("已删除模型配置 ", name.as_str()))),
        },
    }
}

/// Stores a configuration, and gives the message that is shown once it is saved.
pub fn store_profile(
    store: &mut ModelStore,
    name: String,
    url: String,
    model: String,
    api_key: Option<String>,
) -> (outcome: Result<String, ModelStoreError>)
    ensures
        ({
            let service = ServiceModel {
                url: url@,
                model: model@,
                api_key: optional_text(api_key),
            };
            let issue = if !valid_name(name@) {
                Some(StoreIssue::Invalid(StoreProblem::Name))
            } else {
                service_issue(service, parsed_url(url@))
            };
            match issue {
                None => outcome is Ok && outcome->Ok_0@ == "已保存模型配置 "@ + name@ && final(store).model() == old(store).model().insert(name@, service),
                Some(found) => outcome is Err && outcome->Err_0.reports(found) && final(store).model()
                    == old(store).model(),
            }
        }),
{
    let label = name.clone();
    match store.set(name, url, model, api_key) {
        Ok(_) => Ok(join2("已保存模型配置 ", label.as_str())),
        Err(error) => Err(error),
    }
}

/// Uses another model of a service, and gives the message that is shown once it is saved.
pub fn use_model(store: &mut ModelStore, name: &str, id: String) -> (outcome: Result<
    String,
    ModelStoreError,
>)
    ensures
        if blank(id@) {
            outcome is Err && outcome->Err_0.reports(StoreIssue::Invalid(StoreProblem::EmptyModel))
                && final(store).model() == old(store).model()
        } else if !old(store).model().contains_key(name@) {
            outcome is Err && outcome->Err_0.reports(StoreIssue::Missing(name@)) && final(store).model()
                == old(store).model()
        } else {
            outcome is Ok && outcome->Ok_0@ == "已将模型配置 "@ + name@ + " 切换为 "@ + id@ && final(store).model() == old(store).model().insert(
                name@,
                ServiceModel { model: id@, ..old(store).model()[name@] },
            )
        },
{
    let label = id.clone();
    match store.select_model(name, id) {
        Ok(_) => Ok(join4("已将模型配置 ", name, " 切换为 ", label.as_str())),
        Err(error) => Err(error),
    }
}

/// Uses a configuration in a project; whether that is a change, and the message that is shown.
pub fn activate(config: &mut ProjectConfig, name: &str) -> (result: (bool, String))
    ensures
        result.0 == (old(config).model@ != name@),
        result.1@ == (if result.0 {
            "已将项目配置切换为模型配置 "@ + name@
        } else {
            "项目配置已使用模型配置 "@ + name@
        }),
        final(config).model@ == name@,
        final(config).source == old(config).source,
        final(config).output == old(config).output,
        final(config).targets == old(config).targets,
        final(config).translation == old(config).translation,
{
    if update_project_model(config, name) {
        (true, join2("已将项目配置切换为模型配置 ", name))
    } else {
        (false, join2("项目配置已使用模型配置 ", name))
    }
}

} // verus!
