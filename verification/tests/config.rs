use locale_forge::config::{
    check_size, locate, new_project_config, resolve, update_project_model, validate_project_config,
    validate_with_facts, ConfigError, ConfigProblem, LoadedProjectConfig, ProjectConfig, ProjectFacts,
    SourceConfig, TargetConfig, TranslationConfig, MAX_CONFIG_SIZE,
};
use locale_forge::locale::LocaleProblem;
use locale_forge::paths::reader::PathReader;
use locale_forge::paths::{entry_of, NormalPath, PathPart};

fn valid_config() -> ProjectConfig {
    ProjectConfig {
        source: SourceConfig {
            locale: "zh-CN".into(),
            path: "locales/zh.json".into(),
        },
        output: "locales/{locale}.json".into(),
        model: "default".into(),
        targets: vec![target("en-US", "English (United States)")],
        translation: TranslationConfig::default(),
    }
}

fn target(locale: &str, language: &str) -> TargetConfig {
    TargetConfig {
        locale: locale.into(),
        language: language.into(),
        output: None,
        prompt: None,
    }
}

#[test]
fn resolves_paths_relative_to_config_file() {
    let found = locate("/work", "project/config.json");
    assert_eq!(found.path, "/work/project/config.json");
    let base_dir = found.directory.unwrap();

    let loaded = LoadedProjectConfig::new(valid_config(), found.path, base_dir).unwrap();

    assert_eq!(loaded.base_dir, "/work/project");
    assert_eq!(loaded.source_path, "/work/project/locales/zh.json");
    assert_eq!(
        loaded.target_path(&loaded.config.targets[0]),
        "/work/project/locales/en-US.json"
    );
}

#[test]
fn target_output_overrides_global_template() {
    let mut config = valid_config();
    config.targets[0].output = Some("locales/en.json".into());

    let loaded =
        LoadedProjectConfig::new(config, "/work/config.json".into(), "/work".into()).unwrap();

    assert_eq!(
        loaded.target_path(&loaded.config.targets[0]),
        "/work/locales/en.json"
    );
    assert_eq!(loaded.config.targets[0].locale, "en-US");
}

#[test]
fn rejects_output_without_locale_placeholder() {
    let mut config = valid_config();
    config.output = "locales/output.json".into();

    let error = validate_project_config(&config, ".").unwrap_err();

    assert!(error.to_string().contains("{locale}"));
}

#[test]
fn rejects_duplicate_target_locale() {
    let mut config = valid_config();
    config.targets.push(target("en-US", "English (United States)"));

    let error = validate_project_config(&config, ".").unwrap_err();

    assert!(error.to_string().contains("重复"));
}

#[test]
fn rejects_equivalent_locale_spellings() {
    let mut config = valid_config();
    config.targets.push(target("en-us", "English"));

    let error = validate_project_config(&config, ".").unwrap_err();

    assert!(error.to_string().contains("重复"));
}

#[test]
fn rejects_mixed_source_and_target_formats() {
    let mut config = valid_config();
    config.output = "locales/{locale}.arb".into();

    let error = validate_project_config(&config, ".").unwrap_err();

    assert!(error.to_string().contains("格式不一致"));
}

#[test]
fn rejects_target_output_with_different_format() {
    let mut config = valid_config();
    config.targets[0].output = Some("locales/en.arb".into());

    let error = validate_project_config(&config, ".").unwrap_err();

    assert!(error.to_string().contains("格式不一致"));
}

#[test]
fn rejects_paths_that_collide_after_normalization() {
    let mut config = valid_config();
    config.output = "locales/{locale}/../output.json".into();
    config.targets.push(target("ja-JP", "Japanese"));

    let error = validate_project_config(&config, "C:/project").unwrap_err();

    assert!(error.to_string().contains("同一路径"));
}

#[test]
fn rejects_duplicate_target_specific_outputs() {
    let mut config = valid_config();
    config.targets[0].output = Some("locales/shared.json".into());
    let mut japanese = target("ja-JP", "Japanese");
    japanese.output = Some("locales/shared.json".into());
    config.targets.push(japanese);

    let error = validate_project_config(&config, ".").unwrap_err();

    assert!(error.to_string().contains("同一路径"));
}

fn message(change: impl Fn(&mut ProjectConfig)) -> String {
    let mut config = valid_config();
    change(&mut config);
    validate_project_config(&config, "/p").unwrap_err().to_string()
}

#[test]
fn reports_each_problem() {
    assert!(validate_project_config(&valid_config(), "/p").is_ok());
    for (found, expected) in [
        (
            message(|config| config.source.locale = "zh CN".into()),
            "source.locale 不是安全的语言代码",
        ),
        (
            message(|config| config.source.locale = "zh--CN".into()),
            "source.locale 不是有效的 BCP-47 语言代码: zh--CN",
        ),
        (message(|config| config.model = " \u{3000}".into()), "model 不能为空"),
        (
            message(|config| config.output = "{Locale}.json".into()),
            "output 必须包含 {locale} 占位符",
        ),
        (message(|config| config.targets.clear()), "targets 至少需要一个目标语言"),
        (
            message(|config| config.translation.batch_size = 201),
            "translation.batch_size 必须在 1 到 200 之间",
        ),
        (
            message(|config| config.translation.timeout_seconds = 0),
            "translation.timeout_seconds 必须在 1 到 600 之间",
        ),
        (
            message(|config| config.translation.max_retries = 11),
            "translation.max_retries 不能大于 10",
        ),
        (message(|config| config.source.path = "zh".into()), "文件 zh 缺少扩展名"),
        (
            message(|config| config.source.path = "zh.txt".into()),
            "文件 zh.txt 仅支持 .json 或 .arb",
        ),
        (
            message(|config| config.targets[0].locale = "a".into()),
            "targets[].locale 不是有效的 BCP-47 语言代码: a",
        ),
        (
            message(|config| config.targets[0].locale = "ZH_cn".into()),
            "目标语言 ZH_cn 与源语言重复",
        ),
        (
            message(|config| config.targets[0].language = "\t".into()),
            "目标语言 en-US 的 language 不能为空",
        ),
        (
            message(|config| config.targets[0].output = Some("x/..".into())),
            "文件 /p 缺少扩展名",
        ),
        (
            message(|config| config.targets[0].output = Some("../en.txt".into())),
            "文件 /en.txt 仅支持 .json 或 .arb",
        ),
        (
            message(|config| config.targets[0].output = Some("./locales//zh.json".into())),
            "目标文件 /p/locales/zh.json 不能覆盖源文件",
        ),
    ] {
        assert_eq!(found, format!("配置无效: {expected}"));
    }
}

#[test]
fn checks_configs_against_given_facts() {
    let mut config = valid_config();
    config.targets.push(target("fr", "French"));
    let path = |name: &str| NormalPath {
        prefix: Some("C:".into()),
        rooted: true,
        segments: vec!["p".into(), name.into()],
    };
    let facts = |languages: [&str; 3], names: [&str; 3]| ProjectFacts {
        source_language: Ok(languages[0].into()),
        target_languages: vec![Ok(languages[1].into()), Ok(languages[2].into())],
        source_parts: vec![PathPart::Normal(names[0].into())],
        source: path(names[0]),
        targets: vec![path(names[1]), path(names[2])],
    };
    let check = |languages, names| {
        validate_with_facts(&config, &facts(languages, names), '\\')
            .err()
            .map(|error| error.to_string())
    };

    let names = ["a.json", "b.json", "c.JSON"];
    assert_eq!(check(["x", "y", "z"], names), None);
    assert_eq!(
        check(["x", "y", "y"], names).unwrap(),
        "配置无效: 目标语言 fr 重复"
    );
    assert_eq!(
        check(["x", "x", "y"], names).unwrap(),
        "配置无效: 目标语言 en-US 与源语言重复"
    );
    assert_eq!(
        check(["x", "y", "z"], ["a.json", "b.json", "a.json"]).unwrap(),
        "配置无效: 目标文件 C:\\p\\a.json 不能覆盖源文件"
    );
    assert_eq!(
        check(["x", "y", "z"], ["a.json", "b.json", "b.json"]).unwrap(),
        "配置无效: 多个目标语言生成了同一路径 C:\\p\\b.json"
    );
    let mut invalid = facts(["x", "y", "z"], names);
    invalid.target_languages[1] = Err(LocaleProblem::Unsafe);
    assert_eq!(
        validate_with_facts(&config, &invalid, '/').unwrap_err().to_string(),
        "配置无效: targets[].locale 不是安全的语言代码"
    );
}

#[test]
fn normalizes_paths_once_and_for_all() {
    let path = resolve("/a/b", "../c/./d//e/../f.json");
    assert!(path.rooted);
    assert_eq!(path.segments, ["a", "c", "d", "f.json"]);
    let path = resolve("a", "../../x");
    assert!(!path.rooted);
    assert_eq!(path.segments, ["..", "x"]);
    assert_eq!(resolve("", "../x"), resolve("", "./../y/../x/"));
    let path = resolve("/a", "/../../x");
    assert_eq!(path.segments, ["x"]);
    assert_eq!(resolve("/", "/x"), path);
    assert!(locate("/", ".").directory.is_none());
}

#[test]
fn written_config_reads_back() {
    let mut config = valid_config();
    config.targets[0].prompt = Some("Use concise \"UI\" language".into());
    config.targets.push(target("ja-JP", "Japanese"));
    config.targets[1].output = Some("locales/ja.json".into());
    config.translation.max_retries = 0;

    let contents = String::from_utf8(new_project_config(&config, "/p").unwrap()).unwrap();

    assert!(contents.starts_with("{\n  \"source\": {\n    \"locale\": \"zh-CN\","));
    assert!(contents.ends_with("}\n"));
    assert_eq!(ProjectConfig::parse(&contents, "config.json").unwrap(), config);
    config.model = String::new();
    assert!(matches!(
        new_project_config(&config, "/p").unwrap_err(),
        ConfigError::Invalid(ConfigProblem::EmptyModel)
    ));
}

#[test]
fn reads_configs_with_defaults() {
    let text = r#"{"source":{"locale":"zh","path":"zh.json"},"output":"{locale}.json","model":"m","targets":[{"locale":"en","language":"English","prompt":null}],"other":1}"#;
    let config = ProjectConfig::parse(text, "c").unwrap();
    assert_eq!(config.translation, TranslationConfig::default());
    assert!(config.targets[0].prompt.is_none());
    let text = text.replace("\"other\":1", "\"translation\":{\"batch_size\":7}");
    let config = ProjectConfig::parse(&text, "c").unwrap();
    assert_eq!(config.translation.batch_size, 7);
    assert_eq!(config.translation.timeout_seconds, 120);

    let error = ProjectConfig::parse("{", "c.json").unwrap_err();
    assert!(error.to_string().starts_with("配置文件 c.json 不是有效 JSON: EOF"));
    for text in [
        "[]".to_owned(),
        text.replace("7", "-7"),
        text.replace("7", "7.0"),
        text.replace("7", "18446744073709551616"),
        text.replace("\"m\"", "1"),
        text.replace("[{", "{\"x\":{").replace("}],", "}},"),
    ] {
        assert!(matches!(
            ProjectConfig::parse(&text, "c").unwrap_err(),
            ConfigError::Malformed(path) if path == "c"
        ));
    }
}

#[test]
fn activates_a_model_configuration() {
    let mut config = valid_config();
    assert!(!update_project_model(&mut config, "default"));
    assert!(update_project_model(&mut config, "other"));
    assert_eq!(config.model, "other");
    config.model = "default".into();
    assert_eq!(config, valid_config());
}

#[test]
fn refuses_large_configs() {
    assert!(check_size(MAX_CONFIG_SIZE).is_ok());
    let error = check_size(MAX_CONFIG_SIZE + 1).unwrap_err();
    assert_eq!(error.to_string(), "配置无效: 配置文件超过 1048576 字节限制");
}

#[test]
fn joins_entries_to_directories() {
    assert_eq!(entry_of("/a", "x", '/'), "/a/x");
    assert_eq!(entry_of("", "x", '/'), "x");
    assert_eq!(entry_of("C:", "x", '\\'), "C:x");
    assert_eq!(entry_of("C:", "x", '/'), "C:/x");
    assert_eq!(entry_of("C:\\", "x", '\\'), "C:\\x");
    assert_eq!(entry_of("1:", "x", '\\'), "1:\\x");
}

#[test]
fn reads_each_path_once() {
    let mut reader = PathReader::new();
    let first = reader.locate("C:/project", "a/../x.json");
    let copy = reader.copy().locate("C:/project", "a/../x.json");
    assert_eq!(first, copy);
    assert_eq!(first, resolve("C:/project", "b/../x.json"));
    assert_eq!(first.segments.last().unwrap(), "x.json");
    assert_eq!(reader.read("a/../x.json").len(), 3);
}

#[test]
fn loaded_paths_are_those_that_were_checked() {
    let mut config = valid_config();
    config.targets.push(target("ja-JP", "Japanese"));
    let loaded =
        LoadedProjectConfig::new(config, "C:/project/config.json".into(), "C:/project".into())
            .unwrap();
    let targets = &loaded.config.targets;
    let paths: Vec<String> = targets.iter().map(|found| loaded.target_path(found)).collect();
    assert_eq!(paths[0].replace('\\', "/"), "C:/project/locales/en-US.json");
    assert_eq!(paths[1].replace('\\', "/"), "C:/project/locales/ja-JP.json");
    assert_eq!(loaded.source_path.replace('\\', "/"), "C:/project/locales/zh.json");
}

#[test]
fn refuses_the_same_unportable_output_twice() {
    let mut config = valid_config();
    config.targets.push(target("ja-JP", "Japanese"));
    for found in &mut config.targets {
        found.output = Some("C:\\out.json".into());
    }
    let error = validate_project_config(&config, "C:/project").unwrap_err();
    assert!(error.to_string().contains("同一路径"));
    config.targets[0].output = Some(config.source.path.clone());
    let error = validate_project_config(&config, "C:/project").unwrap_err();
    assert!(error.to_string().contains("不能覆盖源文件"));
}
