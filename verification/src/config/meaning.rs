//! What the rules of the project configuration mean, setting by setting.
use crate::catalog::format_of_name;
use crate::locale::{canonical_language, language_of};
use crate::paths::{extension_of, file_name, last_dot, normal_file_name, PartModel};
use crate::paths::reader::located;
use crate::text::{
    blank, law_replaced_absent, law_replaced_first, lowered, occurs, occurs_at, parsed_number,
};
use crate::value::{lookup, JsonModel};
use super::{
    config_document, facts_of, first_target_issue, issue_in, read_outcome_is, target_document,
    target_issue, target_output, ConfigError, ProjectConfig, TargetConfig,
};
use vstd::prelude::*;

verus! {

/// Whether a file name ends in a dot and an extension, upper and lower case alike, and has
/// something before the dot.
pub open spec fn ends_in(name: Seq<char>, extension: Seq<char>) -> bool {
    exists|stem: Seq<char>, end: Seq<char>|
        name == #[trigger] (stem + seq!['.'] + end) && stem.len() > 0 && lowered(end) == extension
            && forall|i: int| 0 <= i < end.len() ==> end[i] != '.'
}

proof fn lemma_last_dot(name: Seq<char>, count: int)
    requires
        0 <= count <= name.len(),
    ensures
        last_dot(name, count) < count,
        last_dot(name, count) >= 0 ==> name[last_dot(name, count)] == '.',
        last_dot(name, count) >= -1,
        forall|i: int| last_dot(name, count) < i < count ==> name[i] != '.',
    decreases count,
{
    if count > 0 && name[count - 1] != '.' {
        lemma_last_dot(name, count - 1);
    }
}

/// A file name stands for the format whose extension it ends in.
#[verifier::rlimit(60)]
pub proof fn law_format_of_name(name: Seq<char>)
    ensures
        format_of_name(Some(name)) is Ok && format_of_name(Some(name))->Ok_0 is Json <==> ends_in(
            name,
            "json"@,
        ),
        format_of_name(Some(name)) is Ok && format_of_name(Some(name))->Ok_0 is Arb <==> ends_in(
            name,
            "arb"@,
        ),
        format_of_name(None) is Err,
{
    reveal_strlit("json");
    reveal_strlit("arb");
    assert("json"@.len() == 4 && "arb"@.len() == 3);
    let dot = last_dot(name, name.len() as int);
    lemma_last_dot(name, name.len() as int);
    if dot > 0 {
        let (stem, end) = (name.take(dot), name.skip(dot + 1));
        assert(name =~= stem + seq!['.'] + end);
        assert forall|i: int| 0 <= i < end.len() implies end[i] != '.' by {
            assert(end[i] == name[dot + 1 + i]);
        }
        assert(lowered(end) == "json"@ ==> ends_in(name, "json"@));
        assert(lowered(end) == "arb"@ ==> ends_in(name, "arb"@));
    }
    assert forall|stem: Seq<char>, end: Seq<char>|
        name == #[trigger] (stem + seq!['.'] + end) && stem.len() > 0 && (forall|i: int|
            0 <= i < end.len() ==> end[i] != '.') implies extension_of(name) == Some(end) by {
        assert(name[stem.len() as int] == '.');
        if dot > stem.len() {
            assert(name[dot] == end[dot - stem.len() - 1]);
        }
        assert(name.skip(dot + 1) =~= end);
    }
}

/// A language code has only letters, digits, hyphens and underscores, and at least one of them;
/// hyphens and underscores mean the same.
#[verifier::rlimit(60)]
pub proof fn law_language_codes(locale: Seq<char>, other: Seq<char>)
    ensures
        language_of(locale) is Ok ==> locale.len() > 0 && forall|i: int|
            0 <= i < locale.len() ==> {
                let c = #[trigger] locale[i];
                ('a' <= c && c <= 'z') || ('A' <= c && c <= 'Z') || ('0' <= c && c <= '9') || c == '-'
                    || c == '_'
            },
        locale.len() == other.len() && (forall|i: int|
            0 <= i < locale.len() ==> (#[trigger] locale[i] == other[i] || (locale[i] == '-'
                && other[i] == '_') || (locale[i] == '_' && other[i] == '-'))) ==> language_of(locale)
            == language_of(other),
        language_of(locale) is Ok && (forall|i: int|
            0 <= i < locale.len() ==> #[trigger] locale[i] != '_') ==> canonical_language(locale)
            == Some(language_of(locale)->Ok_0),
{
    let (a, b) = (crate::locale::hyphenated(locale), crate::locale::hyphenated(other));
    if locale.len() == other.len() && (forall|i: int|
        0 <= i < locale.len() ==> (#[trigger] locale[i] == other[i] || (locale[i] == '-' && other[i]
            == '_') || (locale[i] == '_' && other[i] == '-'))) {
        assert(a =~= b);
        assert forall|i: int| 0 <= i < locale.len() implies (crate::locale::safe_char(
            #[trigger] locale[i],
        ) <==> crate::locale::safe_char(other[i])) by {}
        if crate::locale::safe_locale(locale) {
            assert forall|i: int| 0 <= i < other.len() implies crate::locale::safe_char(
                #[trigger] other[i],
            ) by {
                assert(crate::locale::safe_char(locale[i]));
            }
        }
        if crate::locale::safe_locale(other) {
            assert forall|i: int| 0 <= i < locale.len() implies crate::locale::safe_char(
                #[trigger] locale[i],
            ) by {
                assert(crate::locale::safe_char(other[i]));
            }
        }
    }
    if forall|i: int| 0 <= i < locale.len() ==> #[trigger] locale[i] != '_' {
        assert(a =~= locale);
    }
    if language_of(locale) is Ok {
        assert forall|i: int| 0 <= i < locale.len() implies {
            let c = #[trigger] locale[i];
            ('a' <= c && c <= 'z') || ('A' <= c && c <= 'Z') || ('0' <= c && c <= '9') || c == '-'
                || c == '_'
        } by {
            assert(crate::locale::safe_char(locale[i]));
        }
    }
}

/// The file of a target is the one that the target gives; else the template with the language code
/// in place of `{locale}`.
pub proof fn law_target_output(
    before: Seq<char>,
    after: Seq<char>,
    target: TargetConfig,
)
    requires
        target.output is None ==> !occurs(after, "{locale}"@),
        target.output is None ==> forall|at: int|
            0 <= at < before.len() ==> !#[trigger] occurs_at(
                before + "{locale}"@ + after,
                "{locale}"@,
                at,
            ),
    ensures
        target_output(before + "{locale}"@ + after, target) == (match target.output {
            Some(output) => output@,
            None => before + target.locale@ + after,
        }),
{
    reveal_strlit("{locale}");
    if target.output is None {
        law_replaced_first(before, "{locale}"@, after, target.locale@);
        law_replaced_absent(after, "{locale}"@, target.locale@);
    }
}

/// Whether a target of a configuration is as it has to be: it has a language code that none before
/// it and not the source has, a language, and a file of the format of the source that none before
/// it and not the source has.
pub open spec fn target_fine(
    config: ProjectConfig,
    base_dir: Seq<char>,
    reading: Map<Seq<char>, Seq<PartModel>>,
    at: int,
) -> bool {
    let target = config.targets@[at];
    let language = language_of(target.locale@);
    let path = located(reading, base_dir, target_output(config.output@, target));
    &&& language is Ok
    &&& language != language_of(config.source.locale@)
    &&& !blank(target.language@)
    &&& format_of_name(normal_file_name(path)) is Ok
    &&& format_of_name(normal_file_name(path)) == format_of_name(
        file_name(reading[config.source.path@]),
    )
    &&& path != located(reading, base_dir, config.source.path@)
    &&& forall|j: int|
        0 <= j < at ==> language_of((#[trigger] config.targets@[j]).locale@) != language && located(
            reading,
            base_dir,
            target_output(config.output@, config.targets@[j]),
        ) != path
}

/// A configuration is accepted exactly where the source has a language code and a file of a known
/// format, there is a model, the output has a place for the language code, there is a target, the
/// numbers are within their ranges, and every target is as it has to be.
#[verifier::rlimit(60)]
pub proof fn law_config_accepted(
    config: ProjectConfig,
    base_dir: Seq<char>,
    reading: Map<Seq<char>, Seq<PartModel>>,
    separator: char,
)
    ensures
        issue_in(config, base_dir, reading, separator) is None <==> {
            &&& language_of(config.source.locale@) is Ok
            &&& !blank(config.model@)
            &&& occurs(config.output@, "{locale}"@)
            &&& config.targets@.len() > 0
            &&& 1 <= config.translation.batch_size <= 200
            &&& 1 <= config.translation.timeout_seconds <= 600
            &&& config.translation.max_retries <= 10
            &&& format_of_name(file_name(reading[config.source.path@])) is Ok
            &&& forall|i: int|
                0 <= i < config.targets@.len() ==> #[trigger] target_fine(
                    config,
                    base_dir,
                    reading,
                    i,
                )
        },
{
    lemma_targets_fine(config, base_dir, reading, separator, config.targets@.len());
}

#[verifier::rlimit(60)]
proof fn lemma_target_fine(
    config: ProjectConfig,
    base_dir: Seq<char>,
    reading: Map<Seq<char>, Seq<PartModel>>,
    separator: char,
    at: int,
)
    requires
        0 <= at < config.targets@.len(),
    ensures
        target_issue(config, facts_of(config, base_dir, reading), separator, at) is None
            <==> target_fine(config, base_dir, reading, at),
{
    let facts = facts_of(config, base_dir, reading);
    let language = language_of(config.targets@[at].locale@);
    let path = facts.targets[at];
    assert(facts.target_languages[at] == language);
    assert forall|j: int| 0 <= j < at implies (#[trigger] facts.target_languages[j]) == language_of(
        config.targets@[j].locale@,
    ) by {}
    if target_issue(config, facts, separator, at) is None {
        assert forall|j: int| 0 <= j < at implies language_of((#[trigger] config.targets@[j]).locale@)
            != language && located(
            reading,
            base_dir,
            target_output(config.output@, config.targets@[j]),
        ) != path by {
            assert(facts.target_languages[j] != language);
            assert(facts.targets[j] != path);
        }
    }
    if target_fine(config, base_dir, reading, at) {
        assert forall|j: int| 0 <= j < at implies (#[trigger] facts.target_languages[j]) != language by {
            assert(language_of(config.targets@[j].locale@) != language);
        }
        assert forall|j: int| 0 <= j < at implies (#[trigger] facts.targets[j]) != path by {
            assert(language_of(config.targets@[j].locale@) != language);
        }
    }
}

proof fn lemma_targets_fine(
    config: ProjectConfig,
    base_dir: Seq<char>,
    reading: Map<Seq<char>, Seq<PartModel>>,
    separator: char,
    count: nat,
)
    requires
        count <= config.targets@.len(),
    ensures
        first_target_issue(config, facts_of(config, base_dir, reading), separator, count) is None
            <==> forall|i: int|
            0 <= i < count ==> #[trigger] target_fine(config, base_dir, reading, i),
    decreases count,
{
    if count > 0 {
        lemma_targets_fine(config, base_dir, reading, separator, (count - 1) as nat);
        lemma_target_fine(config, base_dir, reading, separator, count - 1);
    }
}

/// Whether a member is a text.
pub open spec fn is_text(value: Option<JsonModel>) -> bool {
    value is Some && value->0 is Text
}

/// Whether a member is a text or, by being missing or null, none.
pub open spec fn is_optional(value: Option<JsonModel>) -> bool {
    value is None || value == Some(JsonModel::Null) || value->0 is Text
}

/// The text that an optional member gives.
pub open spec fn optional_value(value: Option<JsonModel>) -> Option<Seq<char>> {
    match value {
        Some(JsonModel::Text(text)) => Some(text),
        _ => None,
    }
}

/// Whether a member is missing or a number up to a limit.
pub open spec fn is_number(value: Option<JsonModel>, limit: nat) -> bool {
    value is None || (value->0 is Number && parsed_number(value->0->Number_0, limit) is Some)
}

/// The number that a member gives: the default where it is missing.
pub open spec fn number_value(value: Option<JsonModel>, limit: nat, default: nat) -> nat {
    match value {
        Some(JsonModel::Number(text)) => parsed_number(text, limit)->0,
        _ => default,
    }
}

/// Whether a value describes a target.
pub open spec fn describes_target(value: JsonModel) -> bool {
    &&& value is Object
    &&& is_text(lookup(value->Object_0, "locale"@))
    &&& is_text(lookup(value->Object_0, "language"@))
    &&& is_optional(lookup(value->Object_0, "output"@))
    &&& is_optional(lookup(value->Object_0, "prompt"@))
}

/// The members of a member that is an object.
pub open spec fn inner(entries: Seq<(Seq<char>, JsonModel)>, key: Seq<char>) -> Seq<
    (Seq<char>, JsonModel),
> {
    match lookup(entries, key) {
        Some(JsonModel::Object(found)) => found,
        _ => Seq::empty(),
    }
}

/// Whether a document describes a configuration.
pub open spec fn describes_config(document: JsonModel) -> bool {
    let entries = document->Object_0;
    let translation = lookup(entries, "translation"@);
    &&& document is Object
    &&& lookup(entries, "source"@) is Some
    &&& lookup(entries, "source"@)->0 is Object
    &&& is_text(lookup(inner(entries, "source"@), "locale"@))
    &&& is_text(lookup(inner(entries, "source"@), "path"@))
    &&& is_text(lookup(entries, "output"@))
    &&& is_text(lookup(entries, "model"@))
    &&& lookup(entries, "targets"@) is Some
    &&& lookup(entries, "targets"@)->0 is Array
    &&& forall|i: int|
        0 <= i < lookup(entries, "targets"@)->0->Array_0.len() ==> describes_target(
            #[trigger] lookup(entries, "targets"@)->0->Array_0[i],
        )
    &&& translation is None || translation->0 is Object
    &&& is_number(lookup(inner(entries, "translation"@), "batch_size"@), usize::MAX as nat)
    &&& is_number(lookup(inner(entries, "translation"@), "timeout_seconds"@), u64::MAX as nat)
    &&& is_number(lookup(inner(entries, "translation"@), "max_retries"@), usize::MAX as nat)
}

/// A configuration is read from exactly the documents that describe one, and has what they say;
/// the numbers that a document leaves out are 40 units to a batch, 120 seconds and 2 retries.
#[verifier::rlimit(60)]
pub proof fn law_config_read(
    outcome: Result<ProjectConfig, ConfigError>,
    document: JsonModel,
    path: Seq<char>,
)
    requires
        read_outcome_is(outcome, Some(document), path),
    ensures
        outcome is Ok <==> describes_config(document),
        outcome is Ok ==> {
            let config = outcome->Ok_0;
            let entries = document->Object_0;
            let targets = lookup(entries, "targets"@)->0->Array_0;
            let translation = inner(entries, "translation"@);
            &&& lookup(inner(entries, "source"@), "locale"@) == Some(
                JsonModel::Text(config.source.locale@),
            )
            &&& lookup(inner(entries, "source"@), "path"@) == Some(
                JsonModel::Text(config.source.path@),
            )
            &&& lookup(entries, "output"@) == Some(JsonModel::Text(config.output@))
            &&& lookup(entries, "model"@) == Some(JsonModel::Text(config.model@))
            &&& config.targets@.len() == targets.len()
            &&& forall|i: int|
                0 <= i < targets.len() ==> {
                    let target = #[trigger] config.targets@[i];
                    let members = targets[i]->Object_0;
                    &&& lookup(members, "locale"@) == Some(JsonModel::Text(target.locale@))
                    &&& lookup(members, "language"@) == Some(JsonModel::Text(target.language@))
                    &&& crate::text::optional_text(target.output) == optional_value(
                        lookup(members, "output"@),
                    )
                    &&& crate::text::optional_text(target.prompt) == optional_value(
                        lookup(members, "prompt"@),
                    )
                }
            &&& config.translation.batch_size == number_value(
                lookup(translation, "batch_size"@),
                usize::MAX as nat,
                40,
            )
            &&& config.translation.timeout_seconds == number_value(
                lookup(translation, "timeout_seconds"@),
                u64::MAX as nat,
                120,
            )
            &&& config.translation.max_retries == number_value(
                lookup(translation, "max_retries"@),
                usize::MAX as nat,
                2,
            )
        },
{
    if document is Object {
        let entries = document->Object_0;
        let listed = lookup(entries, "targets"@);
        if listed is Some && listed->0 is Array {
            let targets = listed->0->Array_0;
            assert forall|i: int| 0 <= i < targets.len() implies (target_document(
                #[trigger] targets[i],
            ) is Some <==> describes_target(targets[i])) by {}
            if describes_config(document) {
                assert forall|i: int| 0 <= i < targets.len() implies target_document(
                    #[trigger] targets[i],
                ) is Some by {
                    assert(describes_target(lookup(entries, "targets"@)->0->Array_0[i]));
                }
            }
            if config_document(document) is Some {
                assert forall|i: int| 0 <= i < targets.len() implies describes_target(
                    #[trigger] lookup(entries, "targets"@)->0->Array_0[i],
                ) by {
                    assert(target_document(targets[i]) is Some);
                }
            }
        }
        if outcome is Ok {
            let config = outcome->Ok_0;
            let targets = listed->0->Array_0;
            let models = config.settings().targets;
            assert(models.len() == targets.len());
            assert forall|i: int| 0 <= i < targets.len() implies {
                let target = #[trigger] config.targets@[i];
                let members = targets[i]->Object_0;
                &&& lookup(members, "locale"@) == Some(JsonModel::Text(target.locale@))
                &&& lookup(members, "language"@) == Some(JsonModel::Text(target.language@))
                &&& crate::text::optional_text(target.output) == optional_value(
                    lookup(members, "output"@),
                )
                &&& crate::text::optional_text(target.prompt) == optional_value(
                    lookup(members, "prompt"@),
                )
            } by {
                assert(models[i] == config.targets@[i].target());
                assert(target_document(targets[i]) == Some(models[i]));
            }
        }
    }
}

} // verus!
