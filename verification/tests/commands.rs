use std::time::Duration;

use locale_forge::agent::progress::TranslationProgress;
use locale_forge::catalog::{Catalog, CatalogFormat};
use locale_forge::cli::{
    InitArgs, ModelAvailableArgs, ModelCommand, ModelSelectArgs, ModelSetArgs,
};
use locale_forge::commands::models::{
    activate, begin_model_command, store_profile, use_model, ModelAction, ModelCommandError,
};
use locale_forge::commands::progress::{format_duration, show_progress};
use locale_forge::commands::state::{update, TargetFile, TargetInput, TargetOutcome};
use locale_forge::commands::translate::{begin_target, finish_target, TargetWork};
use locale_forge::commands::{
    check_key_source, check_model, check_requested_model, choose_model, diff_exit_code,
    failure_exit_code, format_name, initial_config, key_source, offers_to_json,
    parse_model_selection, reports_to_json, select_targets, show_choice, show_offer, show_report,
    trim_line_ends, valid_message, CommandError, KeySource, ModelChoice,
};
use locale_forge::config::{validate_project_config, TargetConfig, TranslationConfig};
use locale_forge::map::StringMap;
use locale_forge::models::remote::AvailableModel;
use locale_forge::models::ModelStore;
use locale_forge::state::TranslationState;

fn target(locale: &str) -> TargetConfig {
    TargetConfig {
        locale: locale.into(),
        language: locale.into(),
        output: None,
        prompt: None,
    }
}

fn offer(id: &str) -> AvailableModel {
    AvailableModel {
        id: id.into(),
        owned_by: None,
    }
}

fn set_arguments(key: Option<&str>, key_stdin: bool, no_key: bool) -> ModelSetArgs {
    ModelSetArgs {
        name: "default".into(),
        url: "https://example.com/v1/chat/completions".into(),
        model: "example".into(),
        key: key.map(str::to_owned),
        key_stdin,
        no_key,
    }
}

#[test]
fn parses_one_based_model_selection() {
    assert_eq!(parse_model_selection("2\n", 3).unwrap(), 1);
    assert!(parse_model_selection("0", 3).is_err());
    assert!(parse_model_selection("4", 3).is_err());
    assert!(parse_model_selection("invalid", 3).is_err());
}

#[test]
fn reports_each_selection_error() {
    assert_eq!(parse_model_selection(" \u{3000}+03\r\n", 3).unwrap(), 2);
    assert_eq!(
        parse_model_selection("4", 3).unwrap_err().to_string(),
        "模型编号必须在 1 到 3 之间"
    );
    for input in ["", "+", "-1", "1 2", "1.0", "18446744073709551616", "99999999999999999999"] {
        assert_eq!(
            parse_model_selection(input, 3).unwrap_err().to_string(),
            "请输入有效的模型编号"
        );
    }
}

#[test]
fn formats_short_and_long_durations() {
    assert_eq!(format_duration(Duration::from_millis(250)), "250 毫秒");
    assert_eq!(format_duration(Duration::from_millis(1_250)), "1.2 秒");
}

#[test]
fn rejects_conflicting_key_inputs() {
    let result = key_source(&set_arguments(Some("secret"), false, true));

    assert!(result.is_err());
}

#[test]
fn tells_where_the_key_comes_from() {
    assert!(matches!(
        key_source(&set_arguments(Some("k"), false, false)).unwrap(),
        KeySource::Given(key) if key == "k"
    ));
    assert!(matches!(
        key_source(&set_arguments(None, true, false)).unwrap(),
        KeySource::Input
    ));
    assert!(matches!(
        key_source(&set_arguments(None, false, true)).unwrap(),
        KeySource::NoKey
    ));
    assert!(matches!(
        key_source(&set_arguments(None, false, false)).unwrap(),
        KeySource::Prompt
    ));
    assert!(key_source(&set_arguments(None, true, true)).is_err());
    assert!(key_source(&set_arguments(Some("k"), true, false)).is_err());
    assert_eq!(trim_line_ends("a b\r\n\n"), "a b");
    assert_eq!(trim_line_ends("\n"), "");
}

#[test]
fn shows_the_course_of_a_translation() {
    let elapsed = Duration::from_millis(999);
    for (event, line) in [
        (
            TranslationProgress::Started {
                locale: "en",
                total_units: 12,
                total_batches: 3,
            },
            "en: 待翻译 12 个字段，共 3 批",
        ),
        (
            TranslationProgress::BatchAttemptStarted {
                locale: "en",
                batch_index: 1,
                total_batches: 3,
                attempt: 2,
                max_attempts: 4,
                unit_count: 5,
            },
            "en: [1/3] 第 2/4 次请求，包含 5 个字段",
        ),
        (
            TranslationProgress::BatchAttemptFailed {
                locale: "en",
                batch_index: 1,
                total_batches: 3,
                attempt: 2,
                max_attempts: 4,
                elapsed,
                reason: "a\tb",
                retry_delay: Some(Duration::from_millis(2000)),
            },
            "en: [1/3] 第 2/4 次请求失败（999 毫秒），2.0 秒 后重试：a\\tb",
        ),
        (
            TranslationProgress::BatchAttemptFailed {
                locale: "en",
                batch_index: 1,
                total_batches: 3,
                attempt: 4,
                max_attempts: 4,
                elapsed,
                reason: "x",
                retry_delay: None,
            },
            "en: [1/3] 第 4/4 次请求失败（999 毫秒），不再重试：x",
        ),
        (
            TranslationProgress::BatchCompleted {
                locale: "en",
                batch_index: 1,
                total_batches: 3,
                completed_units: 5,
                total_units: 12,
                elapsed,
            },
            "en: [1/3] 已完成 5/12 个字段，本批耗时 999 毫秒",
        ),
    ] {
        assert_eq!(show_progress(&event), line);
    }
}

#[test]
fn selects_listed_targets_in_their_own_order() {
    let targets = vec![target("en"), target("fr"), target("de")];
    let locales = |list: &[&str]| list.iter().map(|code| (*code).to_owned()).collect::<Vec<_>>();
    let names = |list: Vec<&TargetConfig>| {
        list.iter().map(|target| target.locale.clone()).collect::<Vec<_>>()
    };

    assert_eq!(names(select_targets(&targets, &locales(&[])).unwrap()), ["en", "fr", "de"]);
    assert_eq!(names(select_targets(&targets, &locales(&["de", "en"])).unwrap()), ["en", "de"]);
    assert_eq!(
        select_targets(&targets, &locales(&["en", "ja", "ko"])).unwrap_err().to_string(),
        "目标语言未在 config.json 中配置: ja"
    );
}

#[test]
fn shows_reports() {
    let source = Catalog::parse(r#"{"a":"甲","b":{},"c":1,"d":"丁"}"#, CatalogFormat::Json).unwrap();
    let target = Catalog::parse(r#"{"b":[],"c":2,"d":"","e":0}"#, CatalogFormat::Json).unwrap();
    let report = source.diff(Some(&target), "en", false).unwrap().report;
    assert_eq!(
        show_report(&report),
        "en:\n  缺失: 1\n    /a\n  空值: 1\n    /d\n  结构值变化: 1\n    /c\n  额外: 1\n    /e\n  类型冲突: 1\n    /b: object -> array\n"
    );
    assert_eq!(
        reports_to_json(&vec![source.diff(Some(&target), "en", false).unwrap().report]).to_compact(),
        r#"[{"locale":"en","missing":["/a"],"empty":["/d"],"outdated":[],"changed":["/c"],"extra":["/e"],"conflicts":[{"path":"/b","source_type":"object","target_type":"array"}],"baseline_missing":false}]"#
    );
    let clean = source.diff(Some(&source), "en", false).unwrap().report;
    assert_eq!(diff_exit_code(&vec![]), 0);
    assert_eq!(diff_exit_code(&vec![clean, report]), 2);
    assert_eq!(failure_exit_code(0), 0);
    assert_eq!(failure_exit_code(3), 1);
    assert_eq!(
        valid_message("zh-CN", 2, CatalogFormat::Json),
        "配置有效：源语言 zh-CN，目标语言 2 个，格式 JSON"
    );
    assert_eq!(format_name(CatalogFormat::Arb), "ARB");
}

#[test]
fn begins_and_finishes_targets() {
    let source = Catalog::parse(r#"{"home":"首页"}"#, CatalogFormat::Json).unwrap();
    let current = Catalog::parse(r#"{"home":"Home"}"#, CatalogFormat::Json).unwrap();
    assert!(matches!(
        begin_target(&source, Some(&current), "en", false).unwrap(),
        TargetWork::Nothing
    ));
    let TargetWork::Translate(units) = begin_target(&source, Some(&current), "en", true).unwrap()
    else {
        panic!("a forced translation asks for every string");
    };
    assert_eq!(units.len(), 1);
    let conflicting = Catalog::parse(r#"{"home":1}"#, CatalogFormat::Json).unwrap();
    assert_eq!(
        begin_target(&source, Some(&conflicting), "en", false).unwrap_err().to_string(),
        "存在 1 个类型冲突，请先修复目标文件"
    );
    let empty = Catalog::parse("{}", CatalogFormat::Json).unwrap();
    assert!(matches!(
        begin_target(&empty, None, "en", false).unwrap(),
        TargetWork::Translate(units) if units.is_empty()
    ));
    assert_eq!(finish_target(&empty, None, StringMap::new(), "en").unwrap(), b"{}\n");

    let mut translations = StringMap::new();
    translations.insert("/home".into(), "Start".into());
    assert_eq!(
        finish_target(&source, Some(current), translations, "en").unwrap(),
        b"{\n  \"home\": \"Start\"\n}\n"
    );
    assert!(finish_target(&source, None, StringMap::new(), "en").is_err());
}

#[test]
fn configures_new_projects() {
    let config = initial_config(InitArgs {
        source: "locales/zh.json".into(),
        source_locale: "zh-CN".into(),
        output: "locales/{locale}.json".into(),
        model: "default".into(),
        targets: vec!["en-US".into(), "ja-JP".into()],
    });
    assert_eq!(config.targets[1].language, "ja-JP");
    assert_eq!(config.translation, TranslationConfig::default());
    assert!(validate_project_config(&config, "/p").is_ok());
}

#[test]
fn chooses_offered_models() {
    assert!(matches!(
        choose_model(vec![], Some("a".into())).unwrap_err(),
        CommandError::NoModels
    ));
    assert_eq!(
        choose_model(vec![offer("a")], Some("b".into())).unwrap_err().to_string(),
        "远程模型列表中不存在: b"
    );
    assert!(matches!(
        choose_model(vec![offer("a"), offer("b")], Some("b".into())).unwrap(),
        ModelChoice::Selected(found) if found == offer("b")
    ));
    assert!(matches!(
        choose_model(vec![offer("a")], None).unwrap(),
        ModelChoice::Ask(list) if list.len() == 1
    ));
    let mut owned = offer("a\n");
    assert_eq!(show_choice(0, &owned), "  1. a\\n");
    assert_eq!(show_offer(&owned), "a\\n");
    owned.owned_by = Some("o\u{1b}".into());
    assert_eq!(show_offer(&owned), "a\\n\to\\u{1b}");
    assert_eq!(
        offers_to_json(&vec![offer("b"), owned]).to_compact(),
        r#"[{"id":"b"},{"id":"a\n","owned_by":"o\u001b"}]"#
    );
}

#[test]
fn carries_out_model_commands() {
    let mut store = ModelStore::default();
    let message = store_profile(
        &mut store,
        "default".into(),
        "https://example.com/".into(),
        "old".into(),
        Some("secret".into()),
    )
    .unwrap();
    assert_eq!(message, "已保存模型配置 default");
    assert_eq!(
        use_model(&mut store, "default", "new".into()).unwrap(),
        "已将模型配置 default 切换为 new"
    );
    assert!(use_model(&mut store, "other", "new".into()).is_err());

    let ModelAction::Show(list) = begin_model_command(ModelCommand::List, &mut store).unwrap() else {
        panic!("the configurations are shown");
    };
    assert_eq!(
        list[0].to_compact(),
        r#"{"name":"default","url":"https://example.com/","model":"new","has_key":true}"#
    );
    let show = ModelCommand::Show { name: "default".into() };
    assert!(matches!(
        begin_model_command(show, &mut store).unwrap(),
        ModelAction::Show(list) if list.len() == 1
    ));
    let show = ModelCommand::Show { name: "x".into() };
    assert!(matches!(
        begin_model_command(show, &mut store).unwrap_err(),
        ModelCommandError::Store(_)
    ));
    assert!(matches!(
        begin_model_command(
            ModelCommand::SetProfile(set_arguments(None, false, true)),
            &mut store
        )
        .unwrap(),
        ModelAction::ReadKey { source: KeySource::NoKey, .. }
    ));
    assert!(matches!(
        begin_model_command(
            ModelCommand::Available(ModelAvailableArgs {
                name: "default".into(),
                url: None,
                json: true,
            }),
            &mut store
        )
        .unwrap(),
        ModelAction::ListModels { json: true, .. }
    ));
    assert!(matches!(
        begin_model_command(
            ModelCommand::Select(ModelSelectArgs {
                name: "default".into(),
                model: Some("m".into()),
                url: None,
            }),
            &mut store
        )
        .unwrap(),
        ModelAction::SelectModel { model: Some(model), .. } if model == "m"
    ));
    let begin = |store: &mut ModelStore, name: &str| {
        begin_model_command(ModelCommand::Activate { name: name.into() }, store)
    };
    assert!(matches!(
        begin(&mut store, "default").unwrap(),
        ModelAction::Activate(name) if name == "default"
    ));
    assert!(matches!(
        begin(&mut store, "x").unwrap_err(),
        ModelCommandError::Command(CommandError::MissingModel(_))
    ));
    let delete = ModelCommand::Delete { name: "default".into() };
    assert!(matches!(
        begin_model_command(delete, &mut store).unwrap(),
        ModelAction::Save(message) if message == "已删除模型配置 default"
    ));
    assert!(store.summaries().is_empty());
}

#[test]
fn activates_project_models() {
    let mut config = initial_config(InitArgs {
        source: "zh.json".into(),
        source_locale: "zh".into(),
        output: "{locale}.json".into(),
        model: "a".into(),
        targets: vec![],
    });
    assert_eq!(activate(&mut config, "a"), (false, "项目配置已使用模型配置 a".to_owned()));
    assert_eq!(activate(&mut config, "b"), (true, "已将项目配置切换为模型配置 b".to_owned()));
    assert_eq!(config.model, "b");
}

fn input(locale: &str, file: TargetFile) -> TargetInput {
    TargetInput {
        locale: locale.into(),
        file,
    }
}

fn loaded(text: &str) -> TargetFile {
    TargetFile::Loaded(Catalog::parse(text, CatalogFormat::Json).unwrap())
}

#[test]
fn accepts_existing_translations() {
    let source = Catalog::parse(r#"{"home":"首页"}"#, CatalogFormat::Json).unwrap();
    let locales = vec!["en".to_owned(), "fr".to_owned(), "de".to_owned()];
    let inputs = vec![
        input("en", loaded(r#"{"home":"Home"}"#)),
        input("fr", TargetFile::Missing),
        input("de", loaded(r#"{"home":1}"#)),
        input("it", TargetFile::Unreadable("broken".into())),
    ];

    let first = update(&source, "zh", None, &inputs, &locales);

    assert!(first.relevant && first.changed);
    assert!(matches!(first.outcomes[0], TargetOutcome::Accepted));
    assert!(matches!(first.outcomes[1], TargetOutcome::Skipped));
    assert!(matches!(
        &first.outcomes[2],
        TargetOutcome::Refused(text) if text == "合并时发现类型冲突: /home"
    ));
    assert!(matches!(&first.outcomes[3], TargetOutcome::Refused(text) if text == "broken"));
    assert_eq!(first.state.target("en").unwrap(), &source.source_fingerprints());
    assert!(first.state.target("fr").is_none());

    let second = update(&source, "zh", Some(first.state), &inputs, &locales);
    assert!(second.relevant && !second.changed);

    let third = update(&source, "zh", Some(second.state), &Vec::new(), &vec!["fr".to_owned()]);
    assert!(third.changed);
    assert!(third.state.target("en").is_none());
    let other = update(&source, "ja", Some(third.state), &Vec::new(), &locales);
    assert!(other.changed);
    assert!(other.state.matches_source("ja", CatalogFormat::Json));

    let none = update(&source, "zh", None, &vec![input("fr", TargetFile::Missing)], &locales);
    assert!(!none.relevant && !none.changed);
    assert_eq!(none.state, TranslationState::new("zh", CatalogFormat::Json));
}

#[test]
fn asks_only_at_a_terminal() {
    assert!(check_key_source(&KeySource::Prompt, true).is_ok());
    assert!(check_key_source(&KeySource::NoKey, false).is_ok());
    assert_eq!(
        check_key_source(&KeySource::Prompt, false).unwrap_err().to_string(),
        "非交互环境必须指定 --key、--key-stdin 或 --no-key"
    );
    assert!(check_requested_model(&None, true).is_ok());
    assert!(check_requested_model(&Some("m".into()), false).is_ok());
    assert_eq!(
        check_requested_model(&None, false).unwrap_err().to_string(),
        "非交互环境必须指定模型 ID"
    );
}

#[test]
fn validates_the_model_of_a_project() {
    let config = initial_config(InitArgs {
        source: "locales/zh.json".into(),
        source_locale: "zh-CN".into(),
        output: "locales/{locale}.json".into(),
        model: "default".into(),
        targets: vec!["en-US".into()],
    });
    let mut store = ModelStore::default();
    assert_eq!(
        check_model(&store, &config, CatalogFormat::Json).unwrap_err().to_string(),
        "模型配置不存在: default"
    );
    store
        .set("default".into(), "https://example.com/v1".into(), "m".into(), None)
        .unwrap();
    assert_eq!(
        check_model(&store, &config, CatalogFormat::Json).unwrap(),
        "配置有效：源语言 zh-CN，目标语言 1 个，格式 JSON"
    );
}
