use locale_forge::catalog::arb::ArbError;
use locale_forge::catalog::{
    check_size, Catalog, CatalogError, CatalogFormat, TranslationKind, TranslationUnit, TypeConflict,
    MAX_CATALOG_SIZE,
};
use locale_forge::catalog::json;
use locale_forge::catalog::messages::merge_arb;
use locale_forge::map::StringMap;
use locale_forge::value::{parse_json, Json};
use serde_json::Value;

fn translations(entries: &[(&str, &str)]) -> StringMap<String> {
    let mut map = StringMap::new();
    for (path, text) in entries {
        map.insert((*path).to_owned(), (*text).to_owned());
    }
    map
}

fn paths(list: &[&str]) -> StringMap<()> {
    let mut set = StringMap::new();
    for path in list {
        set.insert((*path).to_owned(), ());
    }
    set
}

fn written(catalog: &Catalog) -> Value {
    serde_json::from_slice(&catalog.to_pretty_bytes().unwrap()).unwrap()
}

fn value(text: &str) -> Value {
    serde_json::from_str(text).unwrap()
}

#[test]
fn diffs_and_merges_nested_json_incrementally() {
    let source = Catalog::parse(
        r#"{"home":"首页","chat":{"list":"列表"},"enabled":true,"items":["一","二"]}"#,
        CatalogFormat::Json,
    )
    .unwrap();
    let target = Catalog::parse(
        r#"{"home":"Home","chat":{"list":""},"legacy":"keep","enabled":true,"items":["One"]}"#,
        CatalogFormat::Json,
    )
    .unwrap();

    let diff = source.diff(Some(&target), "en-US", false).unwrap();

    assert_eq!(diff.report.empty, ["/chat/list"]);
    assert_eq!(diff.report.missing, ["/items/1"]);
    assert_eq!(diff.report.extra, ["/legacy"]);
    assert_eq!(
        diff.units
            .iter()
            .map(|unit| unit.path.as_str())
            .collect::<Vec<_>>(),
        ["/chat/list", "/items/1"]
    );

    let merged = source
        .merge(
            Some(target),
            translations(&[("/chat/list", "List"), ("/items/1", "Two")]),
            "en-US",
        )
        .unwrap();
    let value = written(&merged);

    assert_eq!(value["home"], "Home");
    assert_eq!(value["chat"]["list"], "List");
    assert_eq!(value["items"], self::value(r#"["One","Two"]"#));
    assert!(value.get("legacy").is_none());
}

#[test]
fn reports_type_conflict_without_descending() {
    let source = Catalog::parse(r#"{"chat":{"list":"列表"}}"#, CatalogFormat::Json).unwrap();
    let target = Catalog::parse(r#"{"chat":"Chat"}"#, CatalogFormat::Json).unwrap();

    let diff = source.diff(Some(&target), "en-US", false).unwrap();

    assert_eq!(
        diff.report.conflicts,
        [TypeConflict {
            path: "/chat".into(),
            source_type: "object",
            target_type: "string",
        }]
    );
    assert!(diff.units.is_empty());
}

#[test]
fn force_retranslates_non_empty_strings_only() {
    let source = Catalog::parse(r#"{"title":"标题","empty":""}"#, CatalogFormat::Json).unwrap();
    let target = Catalog::parse(r#"{"title":"Title","empty":""}"#, CatalogFormat::Json).unwrap();

    let diff = source.diff(Some(&target), "en-US", true).unwrap();

    assert_eq!(diff.units.len(), 1);
    assert_eq!(diff.units[0].path, "/title");
}

#[test]
fn synchronizes_changed_non_string_values_without_model_output() {
    let source = Catalog::parse(r#"{"enabled":true,"limit":10}"#, CatalogFormat::Json).unwrap();
    let target = Catalog::parse(r#"{"enabled":false,"limit":5}"#, CatalogFormat::Json).unwrap();

    let diff = source.diff(Some(&target), "en-US", false).unwrap();

    assert_eq!(diff.report.changed, ["/enabled", "/limit"]);
    assert!(diff.units.is_empty());
    let merged = source
        .merge(Some(target), StringMap::new(), "en-US")
        .unwrap();
    let value = written(&merged);
    assert_eq!(value["enabled"], true);
    assert_eq!(value["limit"], 10);
}

#[test]
fn merges_arb_metadata_and_target_locale() {
    let source = Catalog::parse(
        r#"{"@@locale":"zh","hello":"你好 {name}","@hello":{"description":"问候","placeholders":{"name":{"type":"String"}}}}"#,
        CatalogFormat::Arb,
    )
    .unwrap();
    let diff = source.diff(None, "en", false).unwrap();
    assert_eq!(diff.units[0].description.as_deref(), Some("问候"));
    assert_eq!(diff.units[0].placeholders, ["name"]);

    source
        .validate_translation(&diff.units[0], "Hello {name}")
        .unwrap();
    let merged = source
        .merge(None, translations(&[("/hello", "Hello {name}")]), "en")
        .unwrap();
    let value = written(&merged);

    assert_eq!(value["@@locale"], "en");
    assert_eq!(value["hello"], "Hello {name}");
    assert_eq!(value["@hello"]["description"], "问候");
}

#[test]
fn refuses_to_fill_missing_translation_with_source_text() {
    let source = Catalog::parse(r#"{"home":"首页"}"#, CatalogFormat::Json).unwrap();

    let error = source.merge(None, StringMap::new(), "en-US").unwrap_err();

    assert!(matches!(error, CatalogError::MissingTranslation(_)));
}

#[test]
fn retranslates_only_outdated_source_strings() {
    let source = Catalog::parse(r#"{"home":"新首页","chat":"聊天"}"#, CatalogFormat::Json).unwrap();
    let target =
        Catalog::parse(r#"{"home":"Old home","chat":"Chat"}"#, CatalogFormat::Json).unwrap();
    let outdated = paths(&["/home"]);

    let diff = source
        .diff_with_outdated(Some(&target), "en-US", false, &outdated)
        .unwrap();

    assert_eq!(diff.report.outdated, ["/home"]);
    assert_eq!(diff.units.len(), 1);
    assert_eq!(diff.units[0].path, "/home");
}

#[test]
fn mirrors_json_structure_and_clears_empty_source_strings() {
    let source = Catalog::parse(r#"{"title":"","items":["一"]}"#, CatalogFormat::Json).unwrap();
    let target = Catalog::parse(
        r#"{"title":"Title","items":["One","Two"],"legacy":"keep"}"#,
        CatalogFormat::Json,
    )
    .unwrap();

    let diff = source.diff(Some(&target), "en-US", false).unwrap();
    assert_eq!(diff.report.changed, ["/title"]);
    assert_eq!(diff.report.extra, ["/items/1", "/legacy"]);

    let merged = source
        .merge(Some(target), StringMap::new(), "en-US")
        .unwrap();
    assert_eq!(written(&merged), value(r#"{"title":"","items":["One"]}"#));
}

#[test]
fn arb_merge_removes_deleted_messages_and_preserves_global_metadata() {
    let source = Catalog::parse(
        r#"{"@@locale":"zh","hello":"你好","@hello":{"description":"问候"}}"#,
        CatalogFormat::Arb,
    )
    .unwrap();
    let target = Catalog::parse(
        r#"{"@@locale":"en","@@context":"keep","hello":"Hello","@hello":{"description":"old"},"legacy":"Legacy","@legacy":{"description":"remove"}}"#,
        CatalogFormat::Arb,
    )
    .unwrap();

    let diff = source.diff(Some(&target), "en", false).unwrap();
    assert_eq!(diff.report.extra, ["/legacy", "/@legacy"]);
    let merged = source.merge(Some(target), StringMap::new(), "en").unwrap();
    let value = written(&merged);

    assert_eq!(value["@@context"], "keep");
    assert_eq!(value["hello"], "Hello");
    assert_eq!(value["@hello"]["description"], "问候");
    assert!(value.get("legacy").is_none());
    assert!(value.get("@legacy").is_none());
}

#[test]
fn arb_fingerprint_changes_with_description_or_placeholders() {
    let first = Catalog::parse(
        r#"{"hello":"你好 {name}","@hello":{"description":"问候","placeholders":{"name":{}}}}"#,
        CatalogFormat::Arb,
    )
    .unwrap();
    let changed_description = Catalog::parse(
        r#"{"hello":"你好 {name}","@hello":{"description":"正式问候","placeholders":{"name":{}}}}"#,
        CatalogFormat::Arb,
    )
    .unwrap();

    assert_ne!(
        first.source_fingerprints().get("/hello").unwrap(),
        changed_description.source_fingerprints().get("/hello").unwrap()
    );
}

#[test]
fn arb_merge_removes_metadata_deleted_from_source_message() {
    let source = Catalog::parse(r#"{"hello":"你好"}"#, CatalogFormat::Arb).unwrap();
    let target = Catalog::parse(
        r#"{"@@locale":"en","hello":"Hello","@hello":{"description":"old"}}"#,
        CatalogFormat::Arb,
    )
    .unwrap();

    let diff = source.diff(Some(&target), "en", false).unwrap();

    assert_eq!(diff.report.extra, ["/@hello"]);
    let merged = source.merge(Some(target), StringMap::new(), "en").unwrap();
    assert!(written(&merged).get("@hello").is_none());
}

#[test]
fn arb_merge_copies_new_source_global_metadata_without_overwriting_target_values() {
    let source = Catalog::parse(
        r#"{"@@locale":"zh","@@context":"source","@@new":"copy","hello":"你好"}"#,
        CatalogFormat::Arb,
    )
    .unwrap();
    let target = Catalog::parse(
        r#"{"@@locale":"en","@@context":"target","hello":"Hello"}"#,
        CatalogFormat::Arb,
    )
    .unwrap();

    let diff = source.diff(Some(&target), "en", false).unwrap();
    assert_eq!(diff.report.changed, ["/@@new"]);
    let merged = source.merge(Some(target), StringMap::new(), "en").unwrap();
    let value = written(&merged);
    assert_eq!(value["@@context"], "target");
    assert_eq!(value["@@new"], "copy");
}

#[test]
fn merged_json_shows_no_difference_and_merges_again_unchanged() {
    let source = Catalog::parse(
        r#"{"a":"甲","b":["乙",1,null],"c/d":{"~e":"戊"},"f":""}"#,
        CatalogFormat::Json,
    )
    .unwrap();
    let diff = source.diff(None, "en", false).unwrap();
    assert_eq!(
        diff.units.iter().map(|unit| unit.path.as_str()).collect::<Vec<_>>(),
        ["/a", "/b/0", "/c~1d/~0e"]
    );
    assert_eq!(
        diff.report.missing,
        ["/a", "/b/0", "/b/1", "/b/2", "/c~1d/~0e", "/f"]
    );
    let merged = source
        .merge(
            None,
            translations(&[("/a", "A"), ("/b/0", "B"), ("/c~1d/~0e", "E")]),
            "en",
        )
        .unwrap();
    assert!(source.diff(Some(&merged), "en", false).unwrap().report.is_clean());

    let first = written(&merged);
    let again = source.merge(Some(merged), StringMap::new(), "en").unwrap();
    assert_eq!(written(&again), first);
    assert_eq!(
        first,
        value(r#"{"a":"A","b":["B",1,null],"c/d":{"~e":"E"},"f":""}"#)
    );
}

#[test]
fn merged_arb_shows_no_difference() {
    let source = Catalog::parse(
        r#"{"@@locale":"zh","hello":"你好 {name}","@hello":{"placeholders":{"name":{"a":1,"b":2}}},"gone":""}"#,
        CatalogFormat::Arb,
    )
    .unwrap();
    let merged = source
        .merge(None, translations(&[("/hello", "Hello {name}")]), "en")
        .unwrap();

    let diff = source.diff(Some(&merged), "en", false).unwrap();

    assert!(diff.report.is_clean());
    assert!(diff.units.is_empty());
    let reordered = Catalog::parse(
        r#"{"gone":"","@hello":{"placeholders":{"name":{"b":2,"a":1}}},"hello":"Hello {name}","@@locale":"en"}"#,
        CatalogFormat::Arb,
    )
    .unwrap();
    assert!(source.diff(Some(&reordered), "en", false).unwrap().report.is_clean());
}

#[test]
fn written_catalog_reads_back() {
    let text = r#"{"big":18446744073709551615,"neg":-7,"half":0.5,"text":"中\n文","list":[{"x":null},[]]}"#;
    let catalog = Catalog::parse(text, CatalogFormat::Json).unwrap();
    let bytes = catalog.to_pretty_bytes().unwrap();
    let contents = String::from_utf8(bytes).unwrap();

    assert!(contents.starts_with("{\n  \"big\": 18446744073709551615,"));
    assert!(contents.ends_with("}\n"));
    let again = Catalog::parse(&contents, CatalogFormat::Json).unwrap();
    assert_eq!(written(&again), value(text));
}

#[test]
fn reports_each_merge_error() {
    let source = Catalog::parse(r#"{"a":"甲","b":{"c":"丙"}}"#, CatalogFormat::Json).unwrap();
    let arb = Catalog::parse(r#"{"a":"A"}"#, CatalogFormat::Arb).unwrap();
    assert!(matches!(
        source.merge(Some(arb), StringMap::new(), "en").unwrap_err(),
        CatalogError::FormatMismatch
    ));

    let conflicting = Catalog::parse(r#"{"a":"A","b":1}"#, CatalogFormat::Json).unwrap();
    let error = source
        .merge(Some(conflicting), StringMap::new(), "en")
        .unwrap_err();
    assert_eq!(error.to_string(), "合并时发现类型冲突: /b");

    let error = source
        .merge(
            None,
            translations(&[("/z", "Z"), ("/a", "A"), ("/b/c", "C"), ("/k", "K")]),
            "en",
        )
        .unwrap_err();
    assert_eq!(error.to_string(), "翻译结果包含未知字段: /k");

    let error = source
        .merge(None, translations(&[("/a", "A")]), "en")
        .unwrap_err();
    assert_eq!(error.to_string(), "缺少字段的翻译结果: /b/c");

    let empty = Catalog::parse(r#"{"a":""}"#, CatalogFormat::Json).unwrap();
    let error = empty
        .merge(None, translations(&[("/a", "A")]), "en")
        .unwrap_err();
    assert!(matches!(error, CatalogError::UnknownTranslation(path) if path == "/a"));
}

#[test]
fn reports_each_parse_error() {
    let error = Catalog::parse("{", CatalogFormat::Json).unwrap_err();
    assert!(error.to_string().starts_with("本地化文件 <memory> 不是有效 JSON: EOF"));
    let error = Catalog::parse_named("{", CatalogFormat::Json, "a.json").unwrap_err();
    assert!(matches!(error, CatalogError::InvalidJson { path, .. } if path == "a.json"));
    assert!(matches!(
        Catalog::parse("[]", CatalogFormat::Arb).unwrap_err(),
        CatalogError::ArbRootMustBeObject
    ));
    let error = Catalog::parse(r#"{"a":1}"#, CatalogFormat::Arb).unwrap_err();
    assert!(matches!(error, CatalogError::Arb(ArbError::MessageMustBeString(key)) if key == "a"));
    assert!(Catalog::parse("[]", CatalogFormat::Json).is_ok());
}

#[test]
fn compares_numbers_and_zeros_as_values() {
    let source = Catalog::parse(r#"{"a":0.0,"b":1,"c":1.0}"#, CatalogFormat::Json).unwrap();
    let target = Catalog::parse(r#"{"a":-0.0,"b":1.0,"c":1.00}"#, CatalogFormat::Json).unwrap();

    let diff = source.diff(Some(&target), "en", false).unwrap();

    assert_eq!(diff.report.changed, ["/b"]);
}

#[test]
fn names_the_root_path() {
    let source = Catalog::parse(r#""文""#, CatalogFormat::Json).unwrap();
    let diff = source.diff(None, "en", false).unwrap();
    assert_eq!(diff.report.missing, ["/"]);
    let merged = source
        .merge(None, translations(&[("/", "Text")]), "en")
        .unwrap();
    assert_eq!(written(&merged), "Text");
}

#[test]
fn arb_diff_reports_each_finding() {
    let source = Catalog::parse(
        r#"{"@@locale":"zh","a":"甲","@a":{"description":"d"},"b":"乙","c":"丙","d":"","e":"戊"}"#,
        CatalogFormat::Arb,
    )
    .unwrap();
    let target = Catalog::parse(
        r#"{"@@locale":"fr","a":"A","@a":{"description":"x"},"b":"","d":"D","e":"E"}"#,
        CatalogFormat::Arb,
    )
    .unwrap();

    let diff = source
        .diff_with_outdated(Some(&target), "en", false, &paths(&["/e", "/d"]))
        .unwrap();

    assert_eq!(diff.report.changed, ["/@@locale", "/@a"]);
    assert_eq!(diff.report.empty, ["/b"]);
    assert_eq!(diff.report.missing, ["/c"]);
    assert_eq!(diff.report.outdated, ["/d", "/e"]);
    assert_eq!(
        diff.units.iter().map(|unit| unit.path.as_str()).collect::<Vec<_>>(),
        ["/b", "/c", "/e"]
    );
    assert_eq!(diff.report.locale, "en");
    assert!(!diff.report.is_clean());
    let diff = source.diff(Some(&target), "en", false).unwrap();
    assert_eq!(diff.report.changed, ["/@@locale", "/@a", "/d"]);
}

#[test]
fn checks_existing_translations_but_for_ignored_ones() {
    let source = Catalog::parse(r#"{"a":"{x}","b":"{y}"}"#, CatalogFormat::Arb).unwrap();
    let target = Catalog::parse(r#"{"a":"{z}","b":""}"#, CatalogFormat::Arb).unwrap();

    let error = source.validate_existing_translations(&target).unwrap_err();

    assert_eq!(
        error.to_string(),
        "ARB 翻译 a 的变量不一致: source={\"x\": \"argument\"}, target={\"z\": \"argument\"}"
    );
    assert!(source
        .validate_existing_translations_except(&target, &paths(&["/a"]))
        .is_ok());
    let json = Catalog::parse("{}", CatalogFormat::Json).unwrap();
    assert!(matches!(
        source.validate_existing_translations(&json).unwrap_err(),
        CatalogError::FormatMismatch
    ));
    assert!(json.validate_existing_translations(&json).is_ok());
}

#[test]
fn refuses_empty_translations() {
    let catalog = Catalog::parse("{}", CatalogFormat::Json).unwrap();
    let unit = TranslationUnit {
        path: "/home".into(),
        source: "首页".into(),
        description: None,
        placeholders: Vec::new(),
        kind: TranslationKind::Json,
    };

    let error = catalog.validate_translation(&unit, "").unwrap_err();

    assert_eq!(error.to_string(), "翻译结果不能为空: /home");
    assert!(catalog.validate_translation(&unit, "{").is_ok());
}

#[test]
fn fingerprints_have_a_fixed_form() {
    let catalog = Catalog::parse(r#"{"home":"首页","list":["",true]}"#, CatalogFormat::Json).unwrap();

    let fingerprints = catalog.source_fingerprints();

    assert_eq!(fingerprints.len(), 2);
    assert_eq!(
        fingerprints.get("/home").unwrap(),
        "sha256:b4e4b6b1486fbcda6195c0cf6531d31cdb56f15398bbb7eb4c759626552caa9c"
    );
    assert_eq!(fingerprints.key_at(1), "/list/0");
    let arb = Catalog::parse(
        r#"{"hello":"你好 {name}","@hello":{"description":"问候","placeholders":{"name":{}}}}"#,
        CatalogFormat::Arb,
    )
    .unwrap();
    assert_eq!(
        arb.source_fingerprints().get("/hello").unwrap(),
        "sha256:c10d5188a1d5d1b689ba301a8a1f651a7130ca400262669264be898dd39923fc"
    );
}

#[test]
fn tells_formats_by_extension() {
    assert_eq!(CatalogFormat::from_path("a/b.JSON").unwrap(), CatalogFormat::Json);
    assert_eq!(CatalogFormat::from_path("app_zh.arb").unwrap(), CatalogFormat::Arb);
    assert_eq!(CatalogFormat::from_path("x.json/").unwrap(), CatalogFormat::Json);
    for path in ["", "a", ".json", "a.txt", "a.json/..", "a.json.", "/"] {
        let error = CatalogFormat::from_path(path).unwrap_err();
        assert_eq!(error.to_string(), format!("不支持的本地化文件格式: {path}"));
    }
}

#[test]
fn refuses_large_catalogs() {
    assert!(check_size("a.json", MAX_CATALOG_SIZE).is_ok());
    let error = check_size("a.json", MAX_CATALOG_SIZE + 1).unwrap_err();
    assert_eq!(error.to_string(), "本地化文件 a.json 超过 67108864 字节限制");
}

#[test]
fn requires_the_expected_format() {
    let catalog = Catalog::parse("{}", CatalogFormat::Json).unwrap();
    assert_eq!(catalog.format(), CatalogFormat::Json);
    let catalog = catalog.require_format(CatalogFormat::Json).unwrap();
    let error = catalog.require_format(CatalogFormat::Arb).unwrap_err();
    assert_eq!(error.to_string(), "源文件与目标文件格式不一致");
}

fn left(map: &StringMap<String>) -> Vec<&str> {
    (0..map.len()).map(|at| map.key_at(at).as_str()).collect()
}

#[test]
fn merging_takes_out_the_translations_that_it_uses() {
    let source = parse_json(r#"{"a":"甲","b":["乙",""],"c":{"d":"丁"}}"#).unwrap();
    let given = [("/a", "A"), ("/b/0", "B"), ("/b/1", "x"), ("/c/d", "D"), ("/e", "E")];
    let mut map = translations(&given);
    let merged = json::merge(&source, None, "", &mut map).unwrap();
    assert_eq!(merged.to_compact(), r#"{"a":"A","b":["B",""],"c":{"d":"D"}}"#);
    assert_eq!(left(&map), ["/b/1", "/e"]);

    let mut map = translations(&[("/a", "A"), ("/c/d", "D"), ("/e", "E")]);
    assert!(matches!(
        json::merge(&source, None, "", &mut map),
        Err(CatalogError::MissingTranslation(path)) if path == "/b/0"
    ));
    assert_eq!(left(&map), ["/c/d", "/e"]);
}

#[test]
fn merging_messages_takes_out_the_translations_that_it_uses() {
    let members = match parse_json(r#"{"a":"甲","@a":{},"b":"","c":"丙"}"#).unwrap() {
        Json::Object(members) => members,
        other => panic!("{other:?} is not an object"),
    };
    let mut map = translations(&[("/@a", "x"), ("/a", "A"), ("/b", "y"), ("/c", "C")]);
    assert!(merge_arb(&members, None, &mut map, "en").is_ok());
    assert_eq!(left(&map), ["/@a", "/b"]);
}

#[test]
fn merging_refuses_translations_of_other_paths() {
    let source = Catalog::parse(r#"{"a":"甲","b":""}"#, CatalogFormat::Json).unwrap();
    for extra in ["/b", "/c"] {
        let error = source
            .merge(None, translations(&[("/a", "A"), (extra, "x")]), "en")
            .unwrap_err();
        assert!(matches!(error, CatalogError::UnknownTranslation(path) if path == extra));
    }
}

#[test]
fn merging_gives_the_same_whatever_other_paths_are_translated_to() {
    let source = parse_json(r#"{"a":"甲","b":{"c":"丙","d":""}}"#).unwrap();
    let target = parse_json(r#"{"b":{"c":"C"}}"#).unwrap();
    let mut found = Vec::new();
    for extra in [&[][..], &[("/b/d", "D")][..], &[("/x", "X"), ("/b", "B")][..]] {
        let mut map = translations(extra);
        map.insert("/a".into(), "A".into());
        found.push(json::merge(&source, Some(&target), "", &mut map).unwrap().to_compact());
    }
    assert_eq!(found, [r#"{"a":"A","b":{"c":"C","d":""}}"#; 3]);
}
