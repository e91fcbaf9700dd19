use std::collections::VecDeque;
use std::time::Duration;

use locale_forge::agent::openai::{
    classify_transport_error, oversized_failure, parse_response, request_body, sanitize_error_text,
    status_failure, with_status, TransportFailure,
};
use locale_forge::agent::progress::{
    NoopTranslationProgress, TranslationProgress, TranslationProgressReporter,
};
use locale_forge::agent::run::{delay_after, plan_batches, BatchEvent, RunStep};
use locale_forge::agent::{
    batch_end, validate_batch, AgentError, ModelClientError, ModelRequest, TranslationAgent,
    MAX_UNIT_BYTES,
};
use locale_forge::catalog::{Catalog, CatalogFormat, TranslationKind, TranslationUnit};
use locale_forge::config::TargetConfig;
use locale_forge::map::StringMap;
use serde_json::Value;

fn map(entries: &[(&str, &str)]) -> StringMap<String> {
    let mut map = StringMap::new();
    for (key, text) in entries {
        map.insert((*key).to_owned(), (*text).to_owned());
    }
    map
}

fn unit(path: &str, source: &str) -> TranslationUnit {
    TranslationUnit {
        path: path.into(),
        source: source.into(),
        description: None,
        placeholders: Vec::new(),
        kind: TranslationKind::Json,
    }
}

fn target() -> TargetConfig {
    TargetConfig {
        locale: "en-US".into(),
        language: "English (United States)".into(),
        output: None,
        prompt: None,
    }
}

fn translate(
    agent: &TranslationAgent<()>,
    catalog: &Catalog,
    units: &[TranslationUnit],
    replies: Vec<BatchEvent>,
) -> (Result<StringMap<String>, AgentError>, Vec<u64>) {
    let mut replies = VecDeque::from(replies);
    let mut delays = Vec::new();
    let mut run = match agent.start(units) {
        Ok(run) => run,
        Err(error) => return (Err(error), delays),
    };
    while run.request().is_some() {
        match run.handle(catalog, units, replies.pop_front().unwrap()) {
            RunStep::Completed => {}
            RunStep::Retry { delay_millis, .. } => delays.push(delay_millis),
            RunStep::Failed(error) => return (Err(error), delays),
        }
    }
    (Ok(run.into_translations()), delays)
}

#[test]
fn translates_units_in_batches() {
    let catalog = Catalog::parse(r#"{"a":"甲","b":"乙"}"#, CatalogFormat::Json).unwrap();
    let diff = catalog.diff(None, "en-US", false).unwrap();
    let agent = TranslationAgent::new((), 1, 0);

    let (result, _) = translate(
        &agent,
        &catalog,
        &diff.units,
        vec![
            BatchEvent::Response(map(&[("t0", "A")])),
            BatchEvent::Response(map(&[("t0", "B")])),
        ],
    );
    let result = result.unwrap();

    assert_eq!(result.get("/a").unwrap(), "A");
    assert_eq!(result.get("/b").unwrap(), "B");
}

#[test]
fn retries_semantically_invalid_arb_translation() {
    let catalog = Catalog::parse(
        r#"{"hello":"你好 {name}","@hello":{"placeholders":{"name":{}}}}"#,
        CatalogFormat::Arb,
    )
    .unwrap();
    let diff = catalog.diff(None, "en-US", false).unwrap();
    let agent = TranslationAgent::new((), 40, 1);

    let (result, delays) = translate(
        &agent,
        &catalog,
        &diff.units,
        vec![
            BatchEvent::Response(map(&[("t0", "Hello {user}")])),
            BatchEvent::Response(map(&[("t0", "Hello {name}")])),
        ],
    );

    assert_eq!(result.unwrap().get("/hello").unwrap(), "Hello {name}");
    assert_eq!(delays, [250]);
}

#[test]
fn retries_retryable_client_failures() {
    let catalog = Catalog::parse(r#"{"home":"首页"}"#, CatalogFormat::Json).unwrap();
    let diff = catalog.diff(None, "en-US", false).unwrap();
    let agent = TranslationAgent::new((), 40, 1);

    let (result, _) = translate(
        &agent,
        &catalog,
        &diff.units,
        vec![
            BatchEvent::Failed(ModelClientError::retryable("HTTP 429")),
            BatchEvent::Response(map(&[("t0", "Home")])),
        ],
    );

    assert_eq!(result.unwrap().get("/home").unwrap(), "Home");
}

#[test]
fn splits_batch_by_source_size() {
    let units = [
        unit("/a", &"a".repeat(300_000)),
        unit("/b", &"b".repeat(300_000)),
    ];

    assert_eq!(batch_end(&units, 0, 40), 1);
}

#[test]
fn plans_batches_by_count_and_size() {
    let units = [
        unit("/a", "a"),
        unit("/b", &"中".repeat(180_000)),
        unit("/c", "c"),
        unit("/d", "d"),
        unit("/e", "e"),
    ];
    assert_eq!(plan_batches(&units, 2), [1, 2, 4, 5]);
    assert_eq!(plan_batches(&units, 0), [1, 2, 3, 4, 5]);
    assert_eq!(plan_batches(&[], 3), [0usize; 0]);
    assert_eq!(batch_end(&units, 9, 3), 10);
    let small = [unit("/a", "a"), unit("/b", "b"), unit("/c", "c")];
    assert_eq!(plan_batches(&small, 40), [3]);
}

#[test]
fn stops_on_permanent_failures_and_when_attempts_are_used_up() {
    let catalog = Catalog::parse(r#"{"home":"首页"}"#, CatalogFormat::Json).unwrap();
    let diff = catalog.diff(None, "en-US", false).unwrap();

    let (result, _) = translate(
        &TranslationAgent::new((), 40, 5),
        &catalog,
        &diff.units,
        vec![BatchEvent::Failed(ModelClientError::permanent("HTTP 400"))],
    );
    assert_eq!(result.err().unwrap().to_string(), "模型请求失败: HTTP 400");

    let (result, delays) = translate(
        &TranslationAgent::new((), 40, 2),
        &catalog,
        &diff.units,
        vec![
            BatchEvent::Failed(ModelClientError::retryable("x")),
            BatchEvent::Response(map(&[])),
            BatchEvent::Response(map(&[("t1", "Home")])),
        ],
    );
    assert_eq!(
        result.err().unwrap().to_string(),
        "模型重试次数耗尽: 模型批次无效: 模型缺少结果 t0"
    );
    assert_eq!(delays, [250, 500]);
}

#[test]
fn tells_the_model_what_was_wrong() {
    let catalog = Catalog::parse(r#"{"a":"甲","b":"乙"}"#, CatalogFormat::Json).unwrap();
    let units = catalog.diff(None, "en", false).unwrap().units;
    let mut run = TranslationAgent::new((), 1, 3).start(&units).ok().unwrap();
    assert!(run.correction().is_none());
    let request = run.request().unwrap();
    assert_eq!((request.start, request.end), (0, 1));
    assert_eq!((request.batch_index, request.total_batches), (1, 2));
    assert_eq!((request.attempt, request.max_attempts), (1, 4));

    run.handle(&catalog, &units, BatchEvent::Response(map(&[("t0", "")])));
    assert_eq!(run.correction(), Some("翻译结果不能为空: /a"));
    assert_eq!(run.request().unwrap().attempt, 2);

    run.handle(&catalog, &units, BatchEvent::Response(map(&[("t0", "A")])));
    assert!(run.correction().is_none());
    assert_eq!(run.request().unwrap().start, 1);
    assert_eq!(run.request().unwrap().attempt, 1);
    run.handle(&catalog, &units, BatchEvent::Response(map(&[("t0", "B")])));
    assert!(run.request().is_none());
}

#[test]
fn refuses_large_units() {
    let units = [unit("/a", "a"), unit("/b", &"b".repeat(MAX_UNIT_BYTES + 1))];
    let error = TranslationAgent::new((), 1, 0).start(&units).err().unwrap();
    assert_eq!(error.to_string(), "翻译单元超过大小限制: /b");
}

#[test]
fn refuses_replies_of_another_size() {
    let catalog = Catalog::parse("{}", CatalogFormat::Json).unwrap();
    let units = [unit("/a", "a"), unit("/b", "b")];
    let error = validate_batch(&catalog, &units, &map(&[("t0", "x")])).unwrap_err();
    assert_eq!(error.to_string(), "模型批次无效: 模型返回 1 个结果，预期 2 个");
    let result = validate_batch(&catalog, &units, &map(&[("t0", "x"), ("t1", "y")])).unwrap();
    assert_eq!(result.get("/b").unwrap(), "y");
}

#[test]
fn pauses_longer_with_each_attempt() {
    let delays: Vec<u64> = (0..8).map(delay_after).collect();
    assert_eq!(delays, [250, 500, 1000, 2000, 4000, 8000, 8000, 8000]);
}

#[test]
fn ignores_progress_on_request() {
    NoopTranslationProgress.report(TranslationProgress::Started {
        locale: "en",
        total_units: 1,
        total_batches: 1,
    });
}

#[test]
fn sanitizes_remote_error_text_before_display() {
    let sanitized = sanitize_error_text("rejected secret\nnext", Some("secret"));

    assert_eq!(sanitized, "rejected [REDACTED]\\nnext");
}

#[test]
fn builds_the_request_body() {
    let mut first = unit("/home", "首页");
    first.description = Some("标题".into());
    first.placeholders = vec!["name".into()];
    first.kind = TranslationKind::Arb;
    let units = [first, unit("/b", "乙")];
    let mut target = target();
    target.prompt = Some("short".into());
    let body = request_body(
        "example-model",
        &ModelRequest {
            source_locale: "zh-CN",
            target: &target,
            units: &units,
            correction: Some("again"),
        },
    );

    let value: Value = serde_json::from_str(&body.to_compact()).unwrap();

    assert_eq!(value["model"], "example-model");
    assert_eq!(value["response_format"]["type"], "json_schema");
    let schema = &value["response_format"]["json_schema"];
    assert_eq!(schema["strict"], true);
    assert_eq!(schema["name"], "locale_forge_translations");
    assert_eq!(
        serde_json::to_string(&schema["schema"]).unwrap(),
        concat_lines(&[
            r#"{"type":"object","properties":{"translations":{"type":"object","#,
            r#""properties":{"t0":{"type":"string"},"t1":{"type":"string"}},"#,
            r#""required":["t0","t1"],"additionalProperties":false}},"#,
            r#""required":["translations"],"additionalProperties":false}"#,
        ])
    );
    assert_eq!(value["messages"][0]["role"], "system");
    assert!(value["messages"][0]["content"]
        .as_str()
        .unwrap()
        .starts_with("You are Locale Forge's translation agent."));
    assert_eq!(value["messages"][1]["role"], "user");
    assert_eq!(
        value["messages"][1]["content"].as_str().unwrap(),
        concat_lines(&[
            r#"{"source_locale":"zh-CN","target_locale":"en-US","target_language":"English (United States)","#,
            r#""target_instructions":"short","correction":"again","entries":["#,
            r#"{"id":"t0","path":"/home","source":"首页","description":"标题","placeholders":["name"],"format":"arb_icu"},"#,
            r#"{"id":"t1","path":"/b","source":"乙","placeholders":[],"format":"json"}]}"#,
        ])
    );
}

fn concat_lines(lines: &[&str]) -> String {
    lines.concat()
}

#[test]
fn reads_translations_from_a_reply() {
    let reply = br#"{"id":1,"choices":[{"index":0,"message":{"content":"{\"translations\":{\"t0\":\"Home\"}}","refusal":null}}]}"#;
    let result = parse_response(reply, None).unwrap();
    assert_eq!(result.get("t0").unwrap(), "Home");
    assert_eq!(result.len(), 1);
}

#[test]
fn classifies_replies_without_translations() {
    for (reply, message, retryable) in [
        ("{}", "模型响应不是有效 JSON: choices 结构不符合要求", true),
        (r#"{"choices":[{}]}"#, "模型响应不是有效 JSON: choices 结构不符合要求", true),
        (r#"{"choices":[]}"#, "模型响应不包含 choices[0]", true),
        (
            r#"{"choices":[{"message":{"content":null,"refusal":"no key\n"}}]}"#,
            "模型拒绝翻译请求: no [REDACTED]\\n",
            false,
        ),
        (r#"{"choices":[{"message":{}}]}"#, "模型响应缺少 message.content", true),
        (
            r#"{"choices":[{"message":{"content":"{}"}}]}"#,
            "结构化翻译结果不是有效 JSON: translations 结构不符合要求",
            true,
        ),
        (
            r#"{"choices":[{"message":{"content":"{\"translations\":{\"t0\":1}}"}}]}"#,
            "结构化翻译结果不是有效 JSON: translations 结构不符合要求",
            true,
        ),
    ] {
        let error = parse_response(reply.as_bytes(), Some("key")).unwrap_err();
        assert_eq!(error.message, message);
        assert_eq!(error.retryable, retryable);
    }
    let error = parse_response(b"\xff", None).unwrap_err();
    assert!(error.message.starts_with("模型响应不是有效 JSON: "));
    assert!(error.retryable);
    let error =
        parse_response(br#"{"choices":[{"message":{"content":"x"}}]}"#, None).unwrap_err();
    assert!(error.message.starts_with("结构化翻译结果不是有效 JSON: expected value"));
}

#[test]
fn classifies_failed_requests() {
    for status in [429u16, 500, 599] {
        assert!(status_failure(status, "", "", None).retryable);
        assert!(oversized_failure(status).retryable);
    }
    for status in [302u16, 400, 499, 600] {
        assert!(!status_failure(status, "", "", None).retryable);
        assert!(!oversized_failure(status).retryable);
    }
    let error = status_failure(302, "302 Found", &"k".repeat(3000), Some("kkkk"));
    assert_eq!(
        error.message,
        format!("模型接口返回 HTTP 302 Found: {}", "[REDACTED]".repeat(512))
    );

    let error = classify_transport_error("发送模型请求", TransportFailure::Timeout, "d", 1);
    assert_eq!(error.message, "发送模型请求超时（配置上限 1 秒）");
    assert!(error.retryable);
    let error = classify_transport_error("读取模型响应", TransportFailure::Connect, "d", 1);
    assert_eq!(error.message, "读取模型响应失败: 无法连接模型接口: d");
    assert!(!error.retryable);
    let error = classify_transport_error("读取模型响应", TransportFailure::Other, "d", 1);
    assert_eq!(error.message, "读取模型响应失败: d");
    assert!(with_status(error, 503).retryable);
    let _ = Duration::from_millis(1);
}
