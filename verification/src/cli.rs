//! The commands of the program.
use vstd::prelude::*;

verus! {

/// What the program is asked to do.
#[derive(Debug)]
pub struct Cli {
    pub config: String,
    pub command: Command,
}

/// A command.
#[derive(Debug)]
pub enum Command {
    Init(InitArgs),
    Validate,
    Diff(DiffArgs),
    Translate(TranslateArgs),
    StateUpdate(StateUpdateArgs),
    Model { command: ModelCommand },
}

/// How a new project is configured.
#[derive(Debug)]
pub struct InitArgs {
    pub source: String,
    pub source_locale: String,
    pub output: String,
    pub model: String,
    pub targets: Vec<String>,
}

/// Which targets are compared, and how the differences are shown.
#[derive(Debug)]
pub struct DiffArgs {
    pub locales: Vec<String>,
    pub json: bool,
}

/// Which targets are translated, and whether existing translations are replaced.
#[derive(Debug)]
pub struct TranslateArgs {
    pub locales: Vec<String>,
    pub force: bool,
}

/// Which targets are accepted as they are.
#[derive(Debug)]
pub struct StateUpdateArgs {
    pub locales: Vec<String>,
}

/// A command on the model configurations.
#[derive(Debug)]
pub enum ModelCommand {
    SetProfile(ModelSetArgs),
    List,
    Available(ModelAvailableArgs),
    Select(ModelSelectArgs),
    Activate { name: String },
    Show { name: String },
    Delete { name: String },
}

/// A model configuration; at most one of the ways to give a key may be used.
#[derive(Debug)]
pub struct ModelSetArgs {
    pub name: String,
    pub url: String,
    pub model: String,
    pub key: Option<String>,
    pub key_stdin: bool,
    pub no_key: bool,
}

/// Which service is asked for its models.
#[derive(Debug)]
pub struct ModelAvailableArgs {
    pub name: String,
    pub url: Option<String>,
    pub json: bool,
}

/// Which model of a service is used; without one the user is asked.
#[derive(Debug)]
pub struct ModelSelectArgs {
    pub name: String,
    pub model: Option<String>,
    pub url: Option<String>,
}

} // verus!
