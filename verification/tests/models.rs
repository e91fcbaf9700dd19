use std::collections::HashSet;

use locale_forge::map::StringMap;
use locale_forge::models::remote::{
    exceeds_limit, http_error, parse_models, reject_echo, resolve_models_url, AvailableModel,
    RemoteModelsError, MAX_RESPONSE_BYTES,
};
use locale_forge::models::{
    check_service, check_size, model_store_path, validate_name, validate_url, ModelConnection, ModelStore,
    ModelStoreError, StoredModelProfile, MAX_MODEL_STORE_SIZE,
};
use locale_forge::urls::{url_parts, UrlHost};

fn connection(url: &str) -> ModelConnection<'_> {
    ModelConnection {
        url: url.parse().unwrap(),
        api_key: None,
    }
}

fn store(key: Option<&str>) -> ModelStore {
    let mut store = ModelStore::default();
    store
        .set(
            "default".into(),
            "https://example.com/v1/chat/completions".into(),
            "example-model".into(),
            key.map(str::to_owned),
        )
        .unwrap();
    store
}

#[test]
fn accepts_https_and_loopback_http_only() {
    assert!(validate_url("https://example.com/v1/chat/completions").is_ok());
    assert!(validate_url("http://localhost:11434/v1/chat/completions").is_ok());
    assert!(validate_url("http://127.0.0.1:8080/v1/chat/completions").is_ok());
    assert!(validate_url("http://192.168.1.5/v1/chat/completions").is_err());
}

#[test]
fn stores_models_under_locale_forge_in_home_directory() {
    let path = model_store_path("/home/example");

    assert_eq!(path, "/home/example/.locale-forge/models.json");
}

#[test]
fn stores_and_resolves_secret_without_exposing_it_in_summary() {
    let store = store(Some("top-secret"));
    let contents = String::from_utf8(store.to_pretty_bytes().unwrap()).unwrap();

    let loaded = ModelStore::parse(&contents, "models.json").unwrap();
    let summary = loaded.summary("default").unwrap();
    assert!(summary.has_key);
    let profile = loaded.into_profile("default").unwrap();
    assert_eq!(profile.api_key.unwrap(), "top-secret");
}

#[test]
fn supports_explicit_no_key_profile() {
    let mut store = ModelStore::default();
    store
        .set(
            "local".into(),
            "http://[::1]:8080/v1/chat/completions".into(),
            "local-model".into(),
            None,
        )
        .unwrap();

    assert!(!store.summary("local").unwrap().has_key);
}

#[test]
fn selects_model_without_changing_connection_or_key() {
    let mut store = ModelStore::default();
    store
        .set(
            "default".into(),
            "https://example.com/v1/chat/completions".into(),
            "old-model".into(),
            Some("top-secret".into()),
        )
        .unwrap();

    store.select_model("default", "new-model".into()).unwrap();

    let summary = store.summary("default").unwrap();
    assert_eq!(summary.url, "https://example.com/v1/chat/completions");
    assert_eq!(summary.model, "new-model");
    assert!(summary.has_key);
    let profile = store.into_profile("default").unwrap();
    assert_eq!(profile.api_key.unwrap(), "top-secret");
}

#[test]
fn derives_models_url_from_chat_completions_path() {
    let chat_connection =
        connection("https://example.com/openai/v1/chat/completions?unsupported=query");

    let url = resolve_models_url(&chat_connection, None).unwrap();

    assert_eq!(url.as_str(), "https://example.com/openai/v1/models");

    let chat_connection = connection("https://example.com/v1/chat/completions/");
    let url = resolve_models_url(&chat_connection, None).unwrap();
    assert_eq!(url.as_str(), "https://example.com/v1/models");
}

#[test]
fn accepts_same_origin_override_and_rejects_cross_origin() {
    let connection = connection("https://example.com/v1/chat/completions");

    let url = resolve_models_url(
        &connection,
        Some("https://example.com/custom/models?group=one"),
    )
    .unwrap();

    assert_eq!(url.as_str(), "https://example.com/custom/models?group=one");
    assert!(resolve_models_url(&connection, Some("https://other.example/v1/models")).is_err());
}

#[test]
fn fetches_authenticated_models_sorted_and_deduplicated() {
    let models = parse_models(
        br#"{"data": [
            {"id": "z-model", "owned_by": "provider-z"},
            {"id": "a-model"},
            {"id": "z-model", "owned_by": "duplicate"}
        ]}"#,
    )
    .unwrap();

    assert_eq!(
        models,
        [
            AvailableModel {
                id: "a-model".into(),
                owned_by: None,
            },
            AvailableModel {
                id: "z-model".into(),
                owned_by: Some("provider-z".into()),
            }
        ]
    );
}

#[test]
fn rejects_invalid_model_ids() {
    for response in [
        br#"{"data":[{"id":"  "}]}"#.as_slice(),
        br#"{"data":[{"id":"model\nname"}]}"#.as_slice(),
    ] {
        let error = parse_models(response).unwrap_err();

        assert!(matches!(error, RemoteModelsError::InvalidModelId));
    }
}

#[test]
fn rejects_malformed_and_oversized_responses() {
    for response in ["{}", "[]", r#"{"data":[{}]}"#, r#"{"data":[{"id":"a","owned_by":1}]}"#] {
        let error = parse_models(response.as_bytes()).unwrap_err();
        assert!(error.to_string().contains("不是有效的 OpenAI 模型列表"));
    }
    let error = parse_models(b"{").unwrap_err();
    assert!(error.to_string().starts_with("模型列表响应不是有效的 OpenAI 模型列表: EOF"));
    assert!(!exceeds_limit(0, MAX_RESPONSE_BYTES));
    assert!(exceeds_limit(1, MAX_RESPONSE_BYTES));
    assert!(exceeds_limit(usize::MAX, 1));
    assert!(RemoteModelsError::ResponseTooLarge.to_string().contains("超过 8 MiB"));
}

#[test]
fn redacts_key_from_error_and_rejects_echoed_key() {
    let error = http_error("401 Unauthorized", "bad secret\u{7f}", Some("secret"));
    assert_eq!(
        error.to_string(),
        "模型列表接口返回 HTTP 401 Unauthorized: bad [REDACTED]\\u{7f}"
    );
    for body in [
        r#"{"data":[{"id":"a"},{"id":"x-secret-y"}]}"#,
        r#"{"data":[{"id":"a","owned_by":"secret"}]}"#,
    ] {
        let models = parse_models(body.as_bytes()).unwrap();
        assert!(matches!(
            reject_echo(models, Some("secret")).unwrap_err(),
            RemoteModelsError::SensitiveDataEcho
        ));
        let models = parse_models(body.as_bytes()).unwrap();
        assert!(reject_echo(models, None).is_ok());
    }
}

#[test]
fn reports_each_url_problem() {
    for (url, message) in [
        ("https://user@example.com/", "模型配置无效: 模型 URL 不能包含用户名或密码"),
        ("https://:pw@example.com/", "模型配置无效: 模型 URL 不能包含用户名或密码"),
        ("https://example.com/#a", "模型配置无效: 模型 URL 不能包含 fragment"),
        ("http://example.com/", "模型配置无效: HTTP 模型 URL 仅允许 localhost 或回环 IP"),
        ("http://[::2]/", "模型配置无效: HTTP 模型 URL 仅允许 localhost 或回环 IP"),
        ("ftp://localhost/", "模型配置无效: 模型 URL 必须使用 HTTPS，或对回环地址使用 HTTP"),
        ("example", "模型 URL 无效 example: relative URL without a base"),
    ] {
        assert_eq!(validate_url(url).unwrap_err().to_string(), message);
    }
    assert!(validate_url("http://LOCALHOST/").is_ok());
    assert!(validate_url("http://127.255.0.1/").is_ok());
}

#[test]
fn refuses_urls_that_do_not_lead_to_models() {
    for url in [
        "https://example.com/v1/completions",
        "https://example.com/chat",
        "https://example.com/chat/completions//",
        "mailto:a@example.com",
    ] {
        assert!(matches!(
            resolve_models_url(&connection(url), None).unwrap_err(),
            RemoteModelsError::CannotDeriveUrl
        ));
    }
    let chat = connection("https://example.com/chat/completions");
    assert_eq!(
        resolve_models_url(&chat, None).unwrap().as_str(),
        "https://example.com/models"
    );
    assert!(matches!(
        resolve_models_url(&chat, Some("http://example.com/models")).unwrap_err(),
        RemoteModelsError::InvalidUrl(ModelStoreError::Invalid(_))
    ));
    for other in ["https://example.com:444/models", "https://www.example.com/models"] {
        assert!(matches!(
            resolve_models_url(&chat, Some(other)).unwrap_err(),
            RemoteModelsError::CrossOrigin
        ));
    }
    assert!(resolve_models_url(&chat, Some("https://EXAMPLE.com:443/models")).is_ok());
}

#[test]
fn derived_url_has_the_same_origin() {
    let chat = connection("https://Example.com:8443/a//chat/completions?x=1");
    let url = resolve_models_url(&chat, None).unwrap();
    assert_eq!(url.origin(), chat.url.origin());
    assert_eq!(url.as_str(), "https://example.com:8443/a//models");
}

#[test]
fn reports_each_profile_problem() {
    let mut store = ModelStore::default();
    let url = "https://example.com/";
    for (name, url, model, key, message) in [
        ("a b", url, "m", None, "模型配置无效: 模型配置名称只能包含字母、数字、点、短横线和下划线"),
        ("", url, "m", None, "模型配置无效: 模型配置名称只能包含字母、数字、点、短横线和下划线"),
        ("a", url, " ", None, "模型配置无效: 模型名称不能为空"),
        ("a", url, "m", Some(""), "模型配置无效: API key 不能为空；无鉴权服务请使用 --no-key"),
        ("a", "x", "m", None, "模型 URL 无效 x: relative URL without a base"),
    ] {
        let error = store
            .set(name.into(), url.into(), model.into(), key.map(str::to_owned))
            .unwrap_err();
        assert_eq!(error.to_string(), message);
    }
    assert!(store.summaries().is_empty());
    assert!(validate_name("A-z_0.9").is_ok());
    assert_eq!(
        store.delete("a").unwrap_err().to_string(),
        "模型配置不存在: a"
    );
    assert!(matches!(
        store.select_model("a", "m".into()).unwrap_err(),
        ModelStoreError::Missing(_)
    ));
    assert!(matches!(store.summary("a").unwrap_err(), ModelStoreError::Missing(_)));
    assert!(store.connection("a").is_err());
    assert!(store.into_profile("a").is_err());
}

#[test]
fn checks_services_by_the_parts_of_their_urls() {
    let parts = |text: &str| url_parts(&text.parse().unwrap());
    let key = Some("k".to_owned());
    assert!(check_service(&parts("https://example.com/"), "m", &key).is_ok());
    assert_eq!(
        check_service(&parts("https://example.com/#"), "", &key).unwrap_err().to_string(),
        "模型配置无效: 模型 URL 不能包含 fragment"
    );
    assert_eq!(
        check_service(&parts("https://example.com/"), "", &Some(String::new()))
            .unwrap_err()
            .to_string(),
        "模型配置无效: 模型名称不能为空"
    );
    let parts = parts("http://u:p@[::1]:81/a/b?q#f");
    assert_eq!(parts.text, "http://u:p@[::1]:81/a/b?q#f");
    assert_eq!(parts.scheme, "http");
    assert_eq!(parts.username, "u");
    assert_eq!(parts.password.as_deref(), Some("p"));
    assert!(matches!(parts.host, Some(UrlHost::Ipv6(1))));
    assert_eq!(parts.host_text.as_deref(), Some("[::1]"));
    assert_eq!(parts.port, Some(81));
    assert_eq!(parts.segments.unwrap(), ["a", "b"]);
    assert_eq!(parts.fragment.as_deref(), Some("f"));
}

#[test]
fn keeps_configurations_in_order() {
    let mut store = store(Some("k"));
    for name in ["z", "B", "a"] {
        store
            .set(name.into(), "https://example.com/".into(), "m".into(), None)
            .unwrap();
    }
    let names: Vec<&str> = store.summaries().iter().map(|summary| summary.name).collect();
    assert_eq!(names, ["B", "a", "default", "z"]);
    assert!(store.contains("z"));
    store.delete("z").unwrap();
    assert!(!store.contains("z"));
    let connection = store.connection("default").unwrap();
    assert_eq!(connection.api_key, Some("k"));
    assert_eq!(connection.url.as_str(), "https://example.com/v1/chat/completions");
    let found: HashSet<bool> = store.summaries().iter().map(|summary| summary.has_key).collect();
    assert_eq!(found.len(), 2);
}

#[test]
fn written_store_has_a_fixed_form() {
    let mut store = store(None);
    assert_eq!(
        String::from_utf8(store.to_pretty_bytes().unwrap()).unwrap(),
        "{\n  \"profiles\": {\n    \"default\": {\n      \"url\": \"https://example.com/v1/chat/completions\",\n      \"model\": \"example-model\"\n    }\n  }\n}\n"
    );
    store.delete("default").unwrap();
    assert_eq!(
        String::from_utf8(store.to_pretty_bytes().unwrap()).unwrap(),
        "{\n  \"profiles\": {}\n}\n"
    );
}

#[test]
fn reports_what_is_wrong_with_a_store_file() {
    assert!(ModelStore::parse("{}", "m").unwrap().summaries().is_empty());
    let error = ModelStore::parse("", "m.json").err().unwrap();
    assert!(error.to_string().starts_with("模型配置 m.json 不是有效 JSON: EOF"));
    for text in [
        "[]",
        r#"{"profiles":[]}"#,
        r#"{"profiles":{"a":{"url":"https://example.com/"}}}"#,
        r#"{"profiles":{"a":{"url":"https://example.com/","model":"m","api_key":1}}}"#,
    ] {
        assert_eq!(
            ModelStore::parse(text, "m.json").err().unwrap().to_string(),
            "模型配置 m.json 不是有效 JSON: 结构不符合要求"
        );
    }
    let text = r#"{"profiles":{"a":{"url":"https://example.com/","model":"m","api_key":null,"x":1}}}"#;
    assert!(!ModelStore::parse(text, "m").unwrap().summary("a").unwrap().has_key);
    let text = r#"{"profiles":{"a":{"url":"http://example.com/","model":"m"}}}"#;
    assert!(matches!(
        ModelStore::parse(text, "m").err().unwrap(),
        ModelStoreError::Invalid(_)
    ));
    let mut profiles = StringMap::new();
    profiles.insert(
        "a b".into(),
        StoredModelProfile {
            url: "https://example.com/".into(),
            model: "m".into(),
            api_key: None,
        },
    );
    assert!(ModelStore::from_profiles(profiles).is_err());
}

#[test]
fn refuses_large_store_files() {
    assert!(check_size(MAX_MODEL_STORE_SIZE).is_ok());
    assert_eq!(
        check_size(MAX_MODEL_STORE_SIZE + 1).unwrap_err().to_string(),
        "模型配置无效: 模型配置文件超过 1048576 字节限制"
    );
    assert_eq!(model_store_path("/"), "/.locale-forge/models.json");
}

#[test]
fn derives_the_models_endpoint_of_an_empty_leading_segment() {
    let chat = connection("https://example.com//chat/completions");
    assert_eq!(resolve_models_url(&chat, None).unwrap().as_str(), "https://example.com/models");
    let chat = connection("https://u:p@example.com:8443/v1/chat/completions/?x=1");
    assert_eq!(
        resolve_models_url(&chat, None).unwrap().as_str(),
        "https://u:p@example.com:8443/v1/models"
    );
}

#[test]
fn summaries_do_not_depend_on_the_keys() {
    let mut first = ModelStore::default();
    let mut second = ModelStore::default();
    for (store, key) in [(&mut first, "one"), (&mut second, "two")] {
        for name in ["b", "a", "c"] {
            let url = format!("https://example.com/{name}");
            store.set(name.into(), url, "m".into(), Some(key.into())).unwrap();
        }
    }
    let shown = |store: &ModelStore| -> Vec<(String, String, bool)> {
        let list = store.summaries();
        list.iter().map(|found| (found.name.into(), found.url.into(), found.has_key)).collect()
    };
    assert_eq!(shown(&first), shown(&second));
    assert_eq!(shown(&first)[0], ("a".into(), "https://example.com/a".into(), true));
    assert_eq!(shown(&first).len(), 3);
}

#[test]
fn loads_what_a_store_was_written_to() {
    for key in [None, Some("top-secret")] {
        let bytes = store(key).to_pretty_bytes().unwrap();
        let loaded = ModelStore::parse(std::str::from_utf8(&bytes).unwrap(), "m").unwrap();
        assert_eq!(loaded.to_pretty_bytes().unwrap(), bytes);
    }
}
