use locale_forge::catalog::arb::{context, validate_document, validate_translation, ArbError};
use locale_forge::icu::guard::is_icu_parsable;
use locale_forge::icu::{read_message, ElementKind};
use locale_forge::value::{parse_json, Json};

fn members(text: &str) -> Vec<(String, Json)> {
    match parse_json(text).unwrap() {
        Json::Object(members) => members,
        other => panic!("{other:?} is not an object"),
    }
}

#[test]
fn validates_document_metadata_and_icu_message() {
    let document = members(
        r#"{
            "hello": "Hello {name}",
            "@hello": {
                "description": "Greeting",
                "placeholders": {"name": {"type": "String"}}
            },
            "count": "{count, plural, =0{None} one{One} other{# items}}"
        }"#,
    );

    validate_document(&document).unwrap();
}

#[test]
fn allows_locale_specific_plural_categories() {
    validate_translation(
        "count",
        "{count, plural, =0{None} one{One} other{# items}}",
        "{count, plural, =0{Нет} one{# элемент} few{# элемента} many{# элементов} other{# элемента}}",
    )
    .unwrap();
}

#[test]
fn rejects_changed_exact_plural_branch() {
    let error = validate_translation(
        "count",
        "{count, plural, =0{None} other{# items}}",
        "{count, plural, =1{Один} other{# элементов}}",
    )
    .unwrap_err();

    assert!(matches!(error, ArbError::PluralMismatch(_)));
}

#[test]
fn rejects_changed_select_keys() {
    let error = validate_translation(
        "pronoun",
        "{gender, select, male{he} female{she} other{they}}",
        "{gender, select, man{他} female{她} other{他们}}",
    )
    .unwrap_err();

    assert!(matches!(error, ArbError::SelectMismatch(_)));
}

#[test]
fn rejects_placeholder_metadata_mismatch() {
    let document = members(
        r#"{
            "hello": "Hello {name}",
            "@hello": {"placeholders": {"user": {"type": "String"}}}
        }"#,
    );

    let error = validate_document(&document).unwrap_err();

    assert!(matches!(error, ArbError::PlaceholderMetadataMismatch(_)));
}

#[test]
fn allows_placeholder_metadata_for_empty_pending_translation() {
    let document = members(
        r#"{
            "hello": "",
            "@hello": {"placeholders": {"name": {"type": "String"}}}
        }"#,
    );

    validate_document(&document).unwrap();
}

#[test]
fn rejects_non_string_locale_metadata() {
    let document = members(r#"{"@@locale": 42, "hello": "Hello"}"#);

    let error = validate_document(&document).unwrap_err();

    assert!(matches!(error, ArbError::LocaleMustBeString));
}

#[test]
fn reports_each_document_error() {
    for (text, message) in [
        (r#"{"@@locale":1}"#, "ARB 的 @@locale 必须是字符串"),
        (r#"{"a":1}"#, "ARB 消息 a 必须是字符串"),
        (r#"{"@":{}}"#, "ARB 元数据键无对应消息: @"),
        (r#"{"@a":{}}"#, "ARB 元数据键无对应消息: @a"),
        (r#"{"a":"","@a":1}"#, "ARB 元数据 @a 必须是对象"),
        (r#"{"a":"","@a":{"description":1}}"#, "ARB 元数据 @a 的 description 必须是字符串"),
        (r#"{"a":"","@a":{"placeholders":[]}}"#, "ARB 元数据 @a 的 placeholders 必须是对象"),
        (
            r#"{"a":"x","@a":{"placeholders":{"y":{}}}}"#,
            "ARB 消息 a 的 placeholders 元数据与实际变量不一致",
        ),
        (
            r#"{"a":"{n}{n, number}","@a":{"placeholders":{"n":{}}}}"#,
            "ICU 变量 n 同时使用了 argument 和 number 类型",
        ),
        (
            r#"{"a":"{"}"#,
            "ARB 消息 a 的 ICU 语法无效: EXPECT_ARGUMENT_CLOSING_BRACE at line 1, column 2: {",
        ),
    ] {
        assert_eq!(validate_document(&members(text)).unwrap_err().to_string(), message);
    }
    assert!(validate_document(&members(r#"{"@@anything":1,"a":"x","@a":{}}"#)).is_ok());
}

#[test]
fn reads_the_context_of_a_message() {
    let document = members(
        r#"{"a":"{y}{x}","@a":{"description":"d","placeholders":{"y":{},"x":{}}},"b":"t","@b":{"description":1}}"#,
    );

    let found = context(&document, "a");
    assert_eq!(found.description.as_deref(), Some("d"));
    assert_eq!(found.placeholders, ["y", "x"]);
    let none = context(&document, "b");
    assert!(none.description.is_none());
    assert!(none.placeholders.is_empty());
    assert!(context(&document, "c").placeholders.is_empty());
}

#[test]
fn compares_variables_selects_and_plurals() {
    assert!(validate_translation("k", "{a} and {b}", "{b}{a}{a}").is_ok());
    assert!(validate_translation("k", "{d, date} {t, time, short}", "{t, time}{d, date, ::yMd}").is_ok());
    let error = validate_translation("k", "{a}", "{a, number}").unwrap_err();
    assert_eq!(
        error.to_string(),
        "ARB 翻译 k 的变量不一致: source={\"a\": \"argument\"}, target={\"a\": \"number\"}"
    );
    assert!(matches!(
        validate_translation("k", "{a", "").unwrap_err(),
        ArbError::InvalidMessage { .. }
    ));
    assert!(matches!(
        validate_translation("k", "{a}{a, number}", "{a}").unwrap_err(),
        ArbError::ConflictingVariableType { .. }
    ));
    let nested = "{g, select, a{{n, plural, offset:1 =0{x} other{#}}} other{y}}";
    assert!(validate_translation("k", nested, nested).is_ok());
    assert!(matches!(
        validate_translation(
            "k",
            nested,
            "{g, select, a{{n, plural, =0{x} other{#}}} other{y}}"
        )
        .unwrap_err(),
        ArbError::PluralMismatch(_)
    ));
    assert!(matches!(
        validate_translation(
            "k",
            "{n, plural, other{#}}",
            "{n, selectordinal, other{#}}"
        )
        .unwrap_err(),
        ArbError::PluralMismatch(_)
    ));
    assert!(matches!(
        validate_translation(
            "k",
            "{g, select, other{x}}{g, select, other{x}}",
            "{g, select, other{x}}"
        )
        .unwrap_err(),
        ArbError::SelectMismatch(_)
    ));
}

#[test]
fn translations_relate_messages_both_ways() {
    let (a, b, c) = ("{x} {n, plural, =1{a} other{b}}", "{n, plural, =1{c} other{d}}{x}", "{x}{n, plural, =1{} one{} other{}}");
    for (from, to) in [(a, b), (b, a), (b, c), (a, c), (a, a)] {
        assert!(validate_translation("k", from, to).is_ok());
    }
}

#[test]
fn reads_the_elements_of_a_message() {
    let elements = read_message("a <b> {n, plural, offset:2 one{# {x}} other{}}").unwrap();
    assert_eq!(elements.len(), 2);
    assert_eq!(elements[0].kind, ElementKind::Literal);
    assert_eq!(elements[1].kind, ElementKind::Plural);
    assert_eq!(elements[1].name, "n");
    assert_eq!(elements[1].offset, Some(2));
    assert_eq!(elements[1].branches[0].key, "one");
    assert_eq!(elements[1].branches[0].elements.len(), 3);
    assert_eq!(elements[1].branches[0].elements[2].name, "x");
    assert!(read_message("{g, select, a{}}").is_err());
}

#[test]
fn refuses_messages_that_the_parser_cannot_take() {
    assert!(!is_icu_parsable("日日日{d,date,'x'}"));
    assert!(!is_icu_parsable("日{d,date,éx'a'}"));
    assert!(!is_icu_parsable("{n, plural, =12345678901234567890{} other{}}"));
    assert!(!is_icu_parsable("{n, plural, one{a} =-12345678901234567890{} other{}}"));
    assert!(!is_icu_parsable("{n, plural, offset: 12345678901234567890 other{}}"));
    assert!(!is_icu_parsable("{g, select, other{'{' {n, plural, =12345678901234567890{}}}}"));
    assert!(!is_icu_parsable("{n, selectordinal, one{{x}} =12345678901234567890{} other{}}"));
    assert_eq!(read_message("日日日{d,date,'x'}").unwrap_err(), "UNSUPPORTED_MESSAGE");
}

#[test]
fn takes_messages_with_quoted_styles_and_long_numbers() {
    for text in [
        "{n, number, 'x'}",
        "{d,date,'a'}é",
        "d'été {n, number, percent} d'été, l'an",
        "12345678901234567890",
        "{n,plural,other{x 1234567890123456789}}",
        "{n,plural,other{x 12345678901234567890}}",
        "{n,plural,other{x}} =12345678901234567890",
        "é, date, 'x'",
        "'{n,plural,=12345678901234567890{x} other{y}}'",
        "it''s '{n,plural,=12345678901234567890{x} other{y}}",
        "{g,select,other{'{n,plural,=12345678901234567890{}}'}}",
        "{n,plural,other{'#' =12345678901234567890}}",
        "{n,plural,offset:1 =2{'}'} other{#}} offset:12345678901234567890",
        "日日日'{d,date,'x",
    ] {
        assert!(is_icu_parsable(text), "{text}");
        assert!(read_message(text).is_ok(), "{text}");
    }
    for text in [
        "é {n, number, 'x'}",
        "{d,date,'x}",
        "{n, plural, =9223372036854775807{} other{}}",
        "{n, plural, offset:9223372036854775807 other{}}",
    ] {
        assert!(is_icu_parsable(text), "{text}");
        assert_ne!(read_message(text).unwrap_err(), "UNSUPPORTED_MESSAGE", "{text}");
    }
}
