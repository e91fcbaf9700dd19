use locale_forge::catalog::CatalogFormat;
use locale_forge::fingerprint::{
    fingerprint, fingerprint_of, is_valid_fingerprint, message_bytes,
};
use locale_forge::map::StringMap;
use locale_forge::state::{
    check_size, is_valid_path, state_path, validate_entries, StateError, TranslationState, MAX_STATE_SIZE,
};

fn record(entries: &[(&str, &str)]) -> StringMap<String> {
    let mut map = StringMap::new();
    for (path, text) in entries {
        map.insert(
            (*path).to_owned(),
            fingerprint(CatalogFormat::Json, text, &None, &Vec::new()),
        );
    }
    map
}

fn written(state: &TranslationState) -> String {
    String::from_utf8(state.to_pretty_bytes().unwrap()).unwrap()
}

#[test]
fn saves_and_loads_state_without_source_text() {
    let path = state_path("/project");
    let source_text = "不应写入状态文件";
    let mut state = TranslationState::new("zh-CN", CatalogFormat::Json);
    state.set_target("en-US", record(&[("/home", source_text)]));

    let contents = written(&state);
    let loaded = TranslationState::parse(&contents, &path).unwrap();

    assert_eq!(path, "/project/locale-forge.lock.json");
    assert!(!contents.contains(source_text));
    assert_eq!(loaded, state);
}

#[test]
fn rejects_unknown_version_without_overwriting_file() {
    let contents = r#"{"version":2,"source":{"locale":"zh-CN","format":"json"},"targets":{}}"#;

    let error = TranslationState::parse(contents, "s").unwrap_err();

    assert!(matches!(error, StateError::UnsupportedVersion(2)));
    assert_eq!(error.to_string(), "不支持的状态文件版本: 2");
}

#[test]
fn rejects_invalid_json_without_overwriting_file() {
    let error = TranslationState::parse("{invalid", "s").unwrap_err();

    assert!(matches!(error, StateError::Parse { .. }));
    assert!(error.to_string().starts_with("状态文件 s 不是有效 JSON: key must be a string"));
}

#[test]
fn rejects_invalid_fingerprint() {
    let error = TranslationState::parse(
        r#"{"version":1,"source":{"locale":"zh-CN","format":"json"},"targets":{"en":{"/home":"sha256:not-a-hash"}}}"#,
        "s",
    )
    .unwrap_err();

    assert!(error.to_string().contains("无效 SHA-256"));
}

#[test]
fn reset_source_clears_old_target_baselines() {
    let mut state = TranslationState::new("zh-CN", CatalogFormat::Json);
    state.set_target("en", StringMap::new());

    state.reset_source("zh-CN", CatalogFormat::Arb);

    assert!(state.matches_source("zh-CN", CatalogFormat::Arb));
    assert!(state.target("en").is_none());
}

#[test]
fn atomically_replaces_existing_state() {
    let mut state = TranslationState::new("zh-CN", CatalogFormat::Json);
    state.set_target("en", StringMap::new());
    let first = written(&state);
    assert!(TranslationState::parse(&first, "s").unwrap().target("ja").is_none());

    state.set_target("ja", record(&[("/home", "首页")]));

    let loaded = TranslationState::parse(&written(&state), "s").unwrap();
    assert!(loaded.target("en").is_some());
    assert!(loaded.target("ja").is_some());
}

#[test]
fn rejects_oversized_state_before_reading_contents() {
    let error = check_size("s", MAX_STATE_SIZE + 1).unwrap_err();

    assert!(matches!(error, StateError::TooLarge { .. }));
    assert_eq!(error.to_string(), "状态文件 s 超过 67108864 字节限制");
    assert!(check_size("s", MAX_STATE_SIZE).is_ok());
}

#[test]
fn tells_changes_of_records() {
    let mut state = TranslationState::new("zh", CatalogFormat::Json);
    assert!(state.set_target("en", record(&[("/a", "甲")])));
    assert!(!state.set_target("en", record(&[("/a", "甲")])));
    assert!(state.set_target("en", record(&[("/a", "乙")])));
    assert!(state.set_target("fr", StringMap::new()));
    assert_eq!(state.target("en").unwrap(), &record(&[("/a", "乙")]));

    assert!(!state.retain_targets(&vec!["fr".into(), "en".into(), "de".into()]));
    assert!(state.retain_targets(&vec!["fr".into()]));
    assert!(state.target("en").is_none());
    assert!(state.target("fr").is_some());
    assert!(!state.matches_source("zh-CN", CatalogFormat::Json));
}

#[test]
fn state_has_a_fixed_form() {
    let mut state = TranslationState::new("zh", CatalogFormat::Arb);
    state.set_target("fr", StringMap::new());
    state.set_target("en", record(&[("/b", "乙"), ("/a", "甲")]));
    let contents = written(&state);
    assert!(contents.starts_with(
        "{\n  \"version\": 1,\n  \"source\": {\n    \"locale\": \"zh\",\n    \"format\": \"arb\"\n  },\n  \"targets\": {\n    \"en\": {\n      \"/a\": \"sha256:"
    ));
    assert!(contents.ends_with("\n    \"fr\": {}\n  }\n}\n"));
}

#[test]
fn reports_each_state_problem() {
    let ok = r#"{"version":1,"source":{"locale":"zh","format":"json"},"targets":{"en":{}}}"#;
    assert!(TranslationState::parse(ok, "s").is_ok());
    assert!(TranslationState::parse(&ok.replace(",\"targets\":{\"en\":{}}", ""), "s").is_ok());
    for (text, message) in [
        (
            ok.replace("\"zh\"", "\"z h\""),
            "状态文件无效: source.locale 不是有效且安全的 BCP-47 语言代码: z h",
        ),
        (
            ok.replace("\"en\"", "\"e\""),
            "状态文件无效: targets 的语言代码 不是有效且安全的 BCP-47 语言代码: e",
        ),
        (
            ok.replace("{}", "{\"a\\tb\":\"\"}"),
            "状态文件无效: 目标语言 en 包含无效字段路径: \"a\\tb\"",
        ),
        (
            ok.replace("{}", "{\"/a\":\"sha256:\"}"),
            "状态文件无效: 目标语言 en 的字段 /a 包含无效 SHA-256 指纹",
        ),
        (ok.replace("\"version\":1", "\"version\":-1"), "状态文件 s 不是有效 JSON: 结构不符合要求"),
        (ok.replace("\"version\"", "\"Version\""), "状态文件 s 不是有效 JSON: 结构不符合要求"),
        (ok.replace("\"json\"", "\"JSON\""), "状态文件 s 不是有效 JSON: 结构不符合要求"),
        (ok.replace("{\"en\"", "{\"x\":1,\"en\""), "状态文件 s 不是有效 JSON: 结构不符合要求"),
        (ok.replace("{\"locale\"", "{\"x\":1,\"locale\""), "状态文件 s 不是有效 JSON: 结构不符合要求"),
        ("[]".to_owned(), "状态文件 s 不是有效 JSON: 结构不符合要求"),
    ] {
        assert_eq!(TranslationState::parse(&text, "s").unwrap_err().to_string(), message);
    }
    let invalid = TranslationState::new("", CatalogFormat::Json);
    assert!(invalid.to_pretty_bytes().is_err());
}

#[test]
fn recognizes_fingerprints_and_paths() {
    let print = fingerprint(CatalogFormat::Json, "首页", &None, &Vec::new());
    assert!(is_valid_fingerprint(&print));
    assert!(!is_valid_fingerprint(&print.to_uppercase()));
    assert!(!is_valid_fingerprint(&print[..70]));
    assert!(!is_valid_fingerprint(&format!("{}é", &print[..69])));
    assert!(is_valid_path("/"));
    assert!(!is_valid_path(""));
    assert!(!is_valid_path("a/"));
}

#[test]
fn frames_what_is_digested() {
    let bytes = message_bytes(
        CatalogFormat::Arb,
        "é",
        &Some("d".into()),
        &vec!["x".into()],
    );
    let mut expected = Vec::new();
    for part in ["locale-forge-source-v1", "arb", "é", "description:some", "d", "x"] {
        expected.extend_from_slice(&(part.len() as u64).to_be_bytes());
        expected.extend_from_slice(part.as_bytes());
    }
    assert_eq!(bytes, expected);
    assert_eq!(fingerprint_of(&vec![0, 10, 255]), "sha256:000aff");
}

#[test]
fn checks_entries_in_order() {
    let mut entries = record(&[("/a", "甲")]);
    assert!(validate_entries("en", &entries).is_ok());
    entries.insert("/b".into(), "x".into());
    entries.insert("0".into(), "x".into());
    assert_eq!(
        validate_entries("en", &entries).unwrap_err().to_string(),
        "状态文件无效: 目标语言 en 的字段 /b 包含无效 SHA-256 指纹"
    );
}

#[test]
fn fingerprints_tell_every_part_apart() {
    let none = Vec::new();
    let names = |list: &[&str]| list.iter().map(|name| (*name).to_owned()).collect::<Vec<_>>();
    let prints = [
        fingerprint(CatalogFormat::Json, "a", &None, &none),
        fingerprint(CatalogFormat::Arb, "a", &None, &none),
        fingerprint(CatalogFormat::Arb, "b", &None, &none),
        fingerprint(CatalogFormat::Arb, "a", &Some(String::new()), &none),
        fingerprint(CatalogFormat::Arb, "a", &Some("d".into()), &none),
        fingerprint(CatalogFormat::Arb, "a", &None, &names(&["d"])),
        fingerprint(CatalogFormat::Arb, "a", &None, &names(&["x", "y"])),
        fingerprint(CatalogFormat::Arb, "a", &None, &names(&["xy"])),
    ];
    for (index, print) in prints.iter().enumerate() {
        assert!(!prints[..index].contains(print));
    }
}

#[test]
fn joins_the_state_path_as_it_is() {
    assert_eq!(state_path("/project"), "/project/locale-forge.lock.json");
    assert_eq!(state_path("/project/"), "/project/locale-forge.lock.json");
    assert_eq!(state_path("."), "./locale-forge.lock.json");
    assert_eq!(state_path("/a/../b"), "/a/../b/locale-forge.lock.json");
}

#[test]
fn loads_what_was_saved() {
    let mut state = TranslationState::new("zh-CN", CatalogFormat::Arb);
    state.set_target("en-US", record(&[("/home", "首页"), ("/a~1b", "甲")]));
    state.set_target("ja-JP", record(&[]));
    let loaded = TranslationState::parse(&written(&state), "lock").unwrap();
    assert_eq!(written(&loaded), written(&state));
    assert!(loaded.validate().is_ok());
}
