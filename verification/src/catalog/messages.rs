//! Comparing and merging ARB catalogs.
use crate::fingerprint::{fingerprint, fingerprint_text};
use crate::map::{text_map, StringMap};
use crate::text::same_text;
use crate::value::{find, has_key, keys, lookup, members, same_value, Json, JsonModel};
use super::{
    compare_text, diff_text, entries_map, kind_name, lemma_join, message_existing_issue, value_kind,
    CatalogDiff, CatalogError, CatalogFormat, ConflictModel, DiffModel, TextFinding,
    TranslationKind, TranslationUnit, TypeConflict, UnitModel,
};
use super::arb::{
    context, description_of, document_issue, is_global, is_metadata, key_is_global, key_is_metadata,
    lemma_messages_are_texts, outcome_is, placeholders_of, validate_document, validate_translation,
    ArbError,
};
use super::json::{merge_text, merged_text, text_of_value, translatable, MergeIssue};
use super::message_laws::law_message_paths_distinct;
use super::pointer::{child_path, pointer_child};
use super::used::{left_over, lemma_translatable_joined, partly_used};
use vstd::prelude::*;

verus! {

/// The key that holds the language code of a document.
pub open spec fn locale_key() -> Seq<char> {
    "@@locale"@
}

/// The path of a member of an ARB document.
pub open spec fn message_path(key: Seq<char>) -> Seq<char> {
    child_path(Seq::empty(), key)
}

/// The value that a document has for a key, where there is a document.
pub open spec fn member_in(document: Option<Seq<(Seq<char>, JsonModel)>>, key: Seq<char>) -> Option<
    JsonModel,
> {
    match document {
        Some(entries) => lookup(entries, key),
        None => None,
    }
}

/// The request to translate a message; an empty message is not translated.
pub open spec fn message_units(
    source: Seq<(Seq<char>, JsonModel)>,
    key: Seq<char>,
    text: Seq<char>,
) -> Seq<UnitModel> {
    if text.len() == 0 {
        Seq::empty()
    } else {
        seq![
            UnitModel {
                path: message_path(key),
                source: text,
                description: description_of(source, key),
                placeholders: placeholders_of(source, key),
                kind: TranslationKind::Arb,
            },
        ]
    }
}

/// How a member of the source compares with the target document.
pub open spec fn diff_member(
    source: Seq<(Seq<char>, JsonModel)>,
    target: Option<Seq<(Seq<char>, JsonModel)>>,
    at: int,
    force: bool,
    outdated: Set<Seq<char>>,
) -> DiffModel {
    let (key, value) = source[at];
    let path = message_path(key);
    let found = member_in(target, key);
    if is_global(key) {
        if key != locale_key() && target is Some && found is None {
            DiffModel::changed_at(path)
        } else {
            DiffModel::none()
        }
    } else if is_metadata(key) {
        if found is Some && same_value(found->0, value) {
            DiffModel::none()
        } else {
            DiffModel::changed_at(path)
        }
    } else if found is Some && !(found->0 is Text) {
        DiffModel::conflict(
            ConflictModel {
                path,
                source_type: "string"@,
                target_type: kind_name(found->0),
            },
        )
    } else {
        let text = value->Text_0;
        diff_text(
            text,
            text_of_value(found),
            path,
            force,
            outdated,
            message_units(source, key, text),
        )
    }
}

/// How the first `count` members of the source compare with the target document.
pub open spec fn diff_members(
    source: Seq<(Seq<char>, JsonModel)>,
    target: Option<Seq<(Seq<char>, JsonModel)>>,
    force: bool,
    outdated: Set<Seq<char>>,
    count: nat,
) -> DiffModel
    decreases count,
{
    if count == 0 {
        DiffModel::none()
    } else {
        diff_members(source, target, force, outdated, (count - 1) as nat).join(
            diff_member(source, target, count - 1, force, outdated),
        )
    }
}

/// The paths of the messages and their metadata that only the target has, among its first
/// `count` members.
pub open spec fn extra_messages(
    source: Seq<(Seq<char>, JsonModel)>,
    target: Seq<(Seq<char>, JsonModel)>,
    count: nat,
) -> Seq<Seq<char>>
    decreases count,
{
    if count == 0 {
        Seq::empty()
    } else {
        let before = extra_messages(source, target, (count - 1) as nat);
        let key = target[count - 1].0;
        if !is_global(key) && !has_key(source, key) {
            before.push(message_path(key))
        } else {
            before
        }
    }
}

/// How a target document compares with its source.
pub open spec fn diff_document(
    source: Seq<(Seq<char>, JsonModel)>,
    target: Option<Seq<(Seq<char>, JsonModel)>>,
    locale: Seq<char>,
    force: bool,
    outdated: Set<Seq<char>>,
) -> DiffModel {
    let declared = text_of_value(member_in(target, locale_key()));
    (if declared == Some(locale) {
        DiffModel::none()
    } else {
        DiffModel::changed_at("/@@locale"@)
    }).join(diff_members(source, target, force, outdated, source.len())).join(
        DiffModel::extras(
            match target {
                Some(entries) => extra_messages(source, entries, entries.len()),
                None => Seq::empty(),
            },
        ),
    )
}

/// The members of an optional document.
pub open spec fn optional_members(document: Option<&Vec<(String, Json)>>) -> Option<
    Seq<(Seq<char>, JsonModel)>,
> {
    match document {
        Some(entries) => Some(members(entries@)),
        None => None,
    }
}

fn find_in<'a>(document: Option<&'a Vec<(String, Json)>>, key: &str) -> (value: Option<&'a Json>)
    ensures
        value is Some <==> member_in(optional_members(document), key@) is Some,
        value is Some ==> member_in(optional_members(document), key@) == Some(value->0.model()),
{
    match document {
        Some(entries) => find(entries, key),
        None => None,
    }
}

/// Requests a translation of a message.
fn push_message_unit(
    source: &Vec<(String, Json)>,
    key: &str,
    text: &str,
    path: String,
    diff: &mut CatalogDiff,
)
    requires
        path@ == message_path(key@),
    ensures
        final(diff).model() == old(diff).model().join(
            DiffModel::only_units(message_units(members(source@), key@, text@)),
        ),
        final(diff).same_subject(*old(diff)),
{
    let ghost units = message_units(members(source@), key@, text@);
    if text.is_empty() {
        assert(diff.model().join(DiffModel::only_units(units)) =~= diff.model());
        return ;
    }
    let found = context(source, key);
    let unit = TranslationUnit {
        path,
        source: text.to_owned(),
        description: found.description,
        placeholders: found.placeholders,
        kind: TranslationKind::Arb,
    };
    assert(units =~= seq![unit.model()]);
    diff.push_unit(unit);
}

/// Compares a member of the source with the target document and records what it found.
fn diff_one(
    source: &Vec<(String, Json)>,
    target: Option<&Vec<(String, Json)>>,
    at: usize,
    force: bool,
    outdated: &StringMap<()>,
    diff: &mut CatalogDiff,
)
    requires
        at < source@.len(),
        !is_metadata(source@[at as int].0@) ==> source@[at as int].1.model() is Text,
    ensures
        final(diff).model() == old(diff).model().join(
            diff_member(
                members(source@),
                optional_members(target),
                at as int,
                force,
                outdated@.dom(),
            ),
        ),
        final(diff).same_subject(*old(diff)),
{
    let key: &str = source[at].0.as_str();
    let value: &Json = &source[at].1;
    let ghost ours = members(source@);
    let ghost before = diff.model();
    assert(ours[at as int] == (key@, value.model()));
    proof {
        lemma_join(before, DiffModel::none(), DiffModel::none());
    }
    let found = find_in(target, key);
    if key_is_global(key) {
        if !same_text(key, "@@locale") && target.is_some() && found.is_none() {
            diff.push_changed(pointer_child("", key));
        }
        proof {
            reveal_strlit("");
            assert(""@ =~= Seq::<char>::empty());
        }
        return ;
    }
    let path = pointer_child("", key);
    proof {
        reveal_strlit("");
        assert(""@ =~= Seq::<char>::empty());
    }
    if key_is_metadata(key) {
        let same = match found {
            Some(other) => other.same(value),
            None => false,
        };
        if !same {
            diff.push_changed(path);
        }
        return ;
    }
    let mut other_text: Option<&String> = None;
    if let Some(other) = found {
        match other.as_text() {
            Some(text) => {
                other_text = Some(text);
            },
            None => {
                diff.push_conflict(
                    TypeConflict { path, source_type: "string", target_type: value_kind(other) },
                );
                return ;
            },
        }
    }
    if let Some(text) = value.as_text() {
        let ghost units = DiffModel::only_units(message_units(ours, key@, text@));
        proof {
            lemma_join(before, DiffModel::missing_at(path@), units);
            lemma_join(before, DiffModel::empty_at(path@), units);
            lemma_join(before, DiffModel::outdated_at(path@), units);
        }
        let stale = outdated.contains_key(path.as_str());
        match compare_text(text.as_str(), other_text, stale, force) {
            TextFinding::Missing => {
                diff.push_missing(path.clone());
                push_message_unit(source, key, text.as_str(), path, diff);
            },
            TextFinding::Empty => {
                diff.push_empty(path.clone());
                push_message_unit(source, key, text.as_str(), path, diff);
            },
            TextFinding::Forced => {
                push_message_unit(source, key, text.as_str(), path, diff);
            },
            TextFinding::Outdated => {
                diff.push_outdated(path.clone());
                push_message_unit(source, key, text.as_str(), path, diff);
            },
            TextFinding::Changed => {
                diff.push_changed(path);
            },
            TextFinding::Current => {},
        }
    }
}

/// Compares a target document with its source and appends the findings.
pub fn diff_arb(
    source: &Vec<(String, Json)>,
    target: Option<&Vec<(String, Json)>>,
    force: bool,
    outdated: &StringMap<()>,
    diff: &mut CatalogDiff,
)
    requires
        forall|i: int|
            0 <= i < source@.len() && !is_metadata((#[trigger] source@[i]).0@) ==> source@[i].1.model()
                is Text,
    ensures
        final(diff).model() == old(diff).model().join(
            diff_document(
                members(source@),
                optional_members(target),
                old(diff).report.locale@,
                force,
                outdated@.dom(),
            ),
        ),
        final(diff).same_subject(*old(diff)),
{
    let ghost before = *diff;
    let ghost ours = members(source@);
    let ghost theirs = optional_members(target);
    let ghost stale = outdated@.dom();
    let ghost declared = text_of_value(member_in(theirs, locale_key()));
    let ghost head = if declared == Some(before.report.locale@) {
        DiffModel::none()
    } else {
        DiffModel::changed_at("/@@locale"@)
    };
    let same_locale = match find_in(target, "@@locale") {
        Some(value) => match value.as_text() {
            Some(text) => same_text(text.as_str(), diff.report.locale.as_str()),
            None => false,
        },
        None => false,
    };
    proof {
        lemma_join(before.model(), DiffModel::none(), DiffModel::none());
    }
    if !same_locale {
        diff.push_changed("/@@locale".to_owned());
    }
    assert(diff.model() == before.model().join(head));
    proof {
        lemma_join(before.model().join(head), DiffModel::none(), DiffModel::none());
    }
    for i in 0..source.len()
        invariant
            forall|j: int|
                0 <= j < source@.len() && !is_metadata((#[trigger] source@[j]).0@)
                    ==> source@[j].1.model() is Text,
            ours == members(source@),
            theirs == optional_members(target),
            stale == outdated@.dom(),
            diff.model() == before.model().join(head).join(
                diff_members(ours, theirs, force, stale, i as nat),
            ),
            diff.same_subject(before),
    {
        assert(!is_metadata(source@[i as int].0@) ==> source@[i as int].1.model() is Text);
        diff_one(source, target, i, force, outdated, diff);
        proof {
            lemma_join(
                before.model().join(head),
                diff_members(ours, theirs, force, stale, i as nat),
                diff_member(ours, theirs, i as int, force, stale),
            );
        }
    }
    let ghost inside = diff_members(ours, theirs, force, stale, ours.len());
    let ghost so_far = *diff;
    proof {
        lemma_join(before.model(), head, inside);
        lemma_join(so_far.model(), DiffModel::none(), DiffModel::none());
    }
    if let Some(entries) = target {
        let ghost others = members(entries@);
        for i in 0..entries.len()
            invariant
                ours == members(source@),
                others == members(entries@),
                diff.model() == so_far.model().join(
                    DiffModel::extras(extra_messages(ours, others, i as nat)),
                ),
                diff.same_subject(so_far),
        {
            let key: &str = entries[i].0.as_str();
            assert(others[i as int].0 == key@);
            if !key_is_global(key) && find(source, key).is_none() {
                let ghost seen = extra_messages(ours, others, i as nat);
                diff.push_extra(pointer_child("", key));
                proof {
                    reveal_strlit("");
                    assert(""@ =~= Seq::<char>::empty());
                    assert(diff.model() =~= so_far.model().join(
                        DiffModel::extras(seen.push(message_path(key@))),
                    ));
                }
            }
        }
    }
    proof {
        let extra = DiffModel::extras(
            match theirs {
                Some(entries) => extra_messages(ours, entries, entries.len()),
                None => Seq::empty(),
            },
        );
        lemma_join(before.model(), head.join(inside), extra);
    }
}

/// The value of a member of the merged document, for a key of the source.
pub open spec fn merged_member(
    source: Seq<(Seq<char>, JsonModel)>,
    target: Option<Seq<(Seq<char>, JsonModel)>>,
    translations: Map<Seq<char>, Seq<char>>,
    at: int,
) -> JsonModel {
    let (key, value) = source[at];
    let found = member_in(target, key);
    if is_global(key) {
        match found {
            Some(kept) => kept,
            None => value,
        }
    } else if is_metadata(key) {
        value
    } else {
        match merged_text(value->Text_0, text_of_value(found), message_path(key), translations) {
            Some(text) => JsonModel::Text(text),
            None => JsonModel::Text(Seq::empty()),
        }
    }
}

/// The merged members for the first `count` members of the source, but for the language code.
pub open spec fn merged_members(
    source: Seq<(Seq<char>, JsonModel)>,
    target: Option<Seq<(Seq<char>, JsonModel)>>,
    translations: Map<Seq<char>, Seq<char>>,
    count: nat,
) -> Seq<(Seq<char>, JsonModel)>
    decreases count,
{
    if count == 0 {
        Seq::empty()
    } else {
        let at = count - 1;
        let before = merged_members(source, target, translations, at as nat);
        if source[at].0 == locale_key() {
            before
        } else {
            before.push((source[at].0, merged_member(source, target, translations, at)))
        }
    }
}

/// The metadata of the whole document that only the target has, among its first `count` members,
/// but for the language code.
pub open spec fn kept_members(
    source: Seq<(Seq<char>, JsonModel)>,
    target: Seq<(Seq<char>, JsonModel)>,
    count: nat,
) -> Seq<(Seq<char>, JsonModel)>
    decreases count,
{
    if count == 0 {
        Seq::empty()
    } else {
        let before = kept_members(source, target, (count - 1) as nat);
        let (key, value) = target[count - 1];
        if is_global(key) && key != locale_key() && !has_key(source, key) {
            before.push((key, value))
        } else {
            before
        }
    }
}

/// The merged document: the language code, the members of the source, and the metadata of the
/// whole document that only the target has.
pub open spec fn merged_document(
    source: Seq<(Seq<char>, JsonModel)>,
    target: Option<Seq<(Seq<char>, JsonModel)>>,
    translations: Map<Seq<char>, Seq<char>>,
    locale: Seq<char>,
) -> Seq<(Seq<char>, JsonModel)> {
    seq![(locale_key(), JsonModel::Text(locale))] + merged_members(
        source,
        target,
        translations,
        source.len(),
    ) + (match target {
        Some(entries) => kept_members(source, entries, entries.len()),
        None => Seq::empty(),
    })
}

/// Whether a message of the source has a text in the merged document.
pub open spec fn message_has_text(
    source: Seq<(Seq<char>, JsonModel)>,
    target: Option<Seq<(Seq<char>, JsonModel)>>,
    translations: Map<Seq<char>, Seq<char>>,
    at: int,
) -> bool {
    let (key, value) = source[at];
    is_metadata(key) || merged_text(
        value->Text_0,
        text_of_value(member_in(target, key)),
        message_path(key),
        translations,
    ) is Some
}

/// The paths of the messages without a text, among the first `count` members of the source.
pub open spec fn textless_messages(
    source: Seq<(Seq<char>, JsonModel)>,
    target: Option<Seq<(Seq<char>, JsonModel)>>,
    translations: Map<Seq<char>, Seq<char>>,
    count: nat,
) -> Seq<Seq<char>>
    decreases count,
{
    if count == 0 {
        Seq::empty()
    } else {
        let before = textless_messages(source, target, translations, (count - 1) as nat);
        if message_has_text(source, target, translations, count - 1) {
            before
        } else {
            before.push(message_path(source[count - 1].0))
        }
    }
}

proof fn lemma_textless_grow(
    source: Seq<(Seq<char>, JsonModel)>,
    target: Option<Seq<(Seq<char>, JsonModel)>>,
    translations: Map<Seq<char>, Seq<char>>,
    fewer: nat,
    count: nat,
)
    requires
        fewer <= count,
    ensures
        textless_messages(source, target, translations, fewer).is_prefix_of(
            textless_messages(source, target, translations, count),
        ),
    decreases count,
{
    if fewer < count {
        lemma_textless_grow(source, target, translations, fewer, (count - 1) as nat);
    }
}

/// Merges a member of the source with the target document; `None` where a message has no text.
/// The translation of a message that is not empty is taken out.
fn merge_one(
    source: &Vec<(String, Json)>,
    target: Option<&Vec<(String, Json)>>,
    translations: &mut StringMap<String>,
    at: usize,
) -> (outcome: Option<Json>)
    requires
        at < source@.len(),
        !is_metadata(source@[at as int].0@) ==> source@[at as int].1.model() is Text,
    ensures
        outcome is Some <==> message_has_text(
            members(source@),
            optional_members(target),
            text_map(old(translations)@),
            at as int,
        ),
        outcome is Some ==> outcome->0.model() == merged_member(
            members(source@),
            optional_members(target),
            text_map(old(translations)@),
            at as int,
        ),
        text_map(final(translations)@) == if is_metadata(source@[at as int].0@)
            || source@[at as int].1.model()->Text_0.len() == 0 {
            text_map(old(translations)@)
        } else {
            text_map(old(translations)@).remove(message_path(source@[at as int].0@))
        },
{
    let key: &str = source[at].0.as_str();
    let value: &Json = &source[at].1;
    assert(members(source@)[at as int] == (key@, value.model()));
    let found = find_in(target, key);
    if key_is_global(key) {
        return match found {
            Some(kept) => Some(kept.copy()),
            None => Some(value.copy()),
        };
    }
    if key_is_metadata(key) {
        return Some(value.copy());
    }
    let other_text: Option<&String> = match found {
        Some(other) => other.as_text(),
        None => None,
    };
    let path = pointer_child("", key);
    proof {
        reveal_strlit("");
        assert(""@ =~= Seq::<char>::empty());
    }
    match value.as_text() {
        Some(text) => match merge_text(text.as_str(), other_text, path.as_str(), translations) {
            Some(merged) => Some(Json::Text(merged)),
            None => None,
        },
        None => None,
    }
}

/// Whether an outcome of merging is the one that the documents call for.
pub open spec fn merge_outcome_is(
    outcome: Result<Vec<(String, Json)>, CatalogError>,
    source: Seq<(Seq<char>, JsonModel)>,
    target: Option<Seq<(Seq<char>, JsonModel)>>,
    translations: Map<Seq<char>, Seq<char>>,
    locale: Seq<char>,
) -> bool {
    let textless = textless_messages(source, target, translations, source.len());
    let merged = merged_document(source, target, translations, locale);
    if textless.len() > 0 {
        outcome is Err && outcome->Err_0.reports(MergeIssue::Missing(textless[0]))
    } else {
        match document_issue(merged) {
            Some(issue) => outcome is Err && outcome->Err_0 is Arb && outcome->Err_0->Arb_0.issue()
                == issue,
            None => outcome is Ok && members(outcome->Ok_0@) == merged,
        }
    }
}

/// Merging a member with what the members before it left over is merging it with all the
/// translations.
proof fn lemma_member_uses(
    source: Seq<(Seq<char>, JsonModel)>,
    target: Option<Seq<(Seq<char>, JsonModel)>>,
    translations: Map<Seq<char>, Seq<char>>,
    at: nat,
)
    requires
        keys(source).no_duplicates(),
        at < source.len(),
    ensures
        ({
            let (key, value) = source[at as int];
            let rest = left_over(translations, message_leaves(source, at));
            let more = left_over(translations, message_leaves(source, at + 1));
            &&& message_has_text(source, target, rest, at as int) == message_has_text(
                source,
                target,
                translations,
                at as int,
            )
            &&& merged_member(source, target, rest, at as int) == merged_member(
                source,
                target,
                translations,
                at as int,
            )
            &&& more == if is_metadata(key) || value->Text_0.len() == 0 {
                rest
            } else {
                rest.remove(message_path(key))
            }
            &&& partly_used(translations, more, message_leaves(source, source.len()))
        }),
{
    let (key, value) = source[at as int];
    let before = message_leaves(source, at);
    let joined = message_leaves(source, at + 1);
    let rest = left_over(translations, before);
    assert(!translatable(before, message_path(key))) by {
        if translatable(before, message_path(key)) {
            let i = choose|i: int|
                0 <= i < before.len() && (#[trigger] before[i]).0 == message_path(key)
                    && before[i].1.len() > 0;
            let j = lemma_leaf_of_message(source, at, i);
            law_message_paths_distinct(source, j, at as int);
        }
    }
    let own = if is_metadata(key) {
        Seq::empty()
    } else {
        seq![(message_path(key), value->Text_0)]
    };
    assert(joined =~= before + own);
    assert forall|path: Seq<char>| #[trigger]
        translatable(joined, path) == (translatable(before, path) || (!is_metadata(key) && path
            == message_path(key) && value->Text_0.len() > 0)) by {
        lemma_translatable_joined(before, own, path);
        if !is_metadata(key) && path == message_path(key) && value->Text_0.len() > 0 {
            assert(own[0].0 == path);
        }
    }
    let more = left_over(translations, joined);
    if is_metadata(key) || value->Text_0.len() == 0 {
        assert(more =~= rest);
    } else {
        assert(more =~= rest.remove(message_path(key)));
    }
    assert forall|path: Seq<char>| #[trigger]
        translations.contains_key(path) && !translatable(
            message_leaves(source, source.len()),
            path,
        ) implies more.contains_key(path) by {
        if translatable(joined, path) {
            lemma_fewer_messages(source, at + 1, source.len(), path);
        }
    }
}

/// The message that a leaf comes from.
proof fn lemma_leaf_of_message(source: Seq<(Seq<char>, JsonModel)>, count: nat, at: int) -> (found:
    int)
    requires
        count <= source.len(),
        0 <= at < message_leaves(source, count).len(),
    ensures
        0 <= found < count,
        message_leaves(source, count)[at].0 == message_path(source[found].0),
    decreases count,
{
    if !is_metadata(source[count - 1].0) && at == message_leaves(source, count).len() - 1 {
        count - 1
    } else {
        lemma_leaf_of_message(source, (count - 1) as nat, at)
    }
}

proof fn lemma_fewer_messages(
    source: Seq<(Seq<char>, JsonModel)>,
    fewer: nat,
    count: nat,
    path: Seq<char>,
)
    requires
        fewer <= count <= source.len(),
        translatable(message_leaves(source, fewer), path),
    ensures
        translatable(message_leaves(source, count), path),
    decreases count,
{
    if fewer < count {
        lemma_fewer_messages(source, fewer, (count - 1) as nat, path);
        let before = message_leaves(source, (count - 1) as nat);
        let i = choose|i: int|
            0 <= i < before.len() && (#[trigger] before[i]).0 == path && before[i].1.len() > 0;
        assert(message_leaves(source, count)[i] == before[i]);
    }
}

/// Merges a target document with its source. Each translation that is used is taken out.
pub fn merge_arb(
    source: &Vec<(String, Json)>,
    target: Option<&Vec<(String, Json)>>,
    translations: &mut StringMap<String>,
    target_locale: &str,
) -> (outcome: Result<Vec<(String, Json)>, CatalogError>)
    requires
        forall|i: int|
            0 <= i < source@.len() && !is_metadata((#[trigger] source@[i]).0@) ==> source@[i].1.model()
                is Text,
        keys(members(source@)).no_duplicates(),
    ensures
        merge_outcome_is(
            outcome,
            members(source@),
            optional_members(target),
            text_map(old(translations)@),
            target_locale@,
        ),
        outcome is Ok ==> text_map(final(translations)@) == left_over(
            text_map(old(translations)@),
            message_leaves(members(source@), members(source@).len()),
        ),
        outcome is Err ==> partly_used(
            text_map(old(translations)@),
            text_map(final(translations)@),
            message_leaves(members(source@), members(source@).len()),
        ),
{
    let ghost ours = members(source@);
    let ghost theirs = optional_members(target);
    let ghost given = text_map(translations@);
    let ghost head = seq![(locale_key(), JsonModel::Text(target_locale@))];
    let mut output: Vec<(String, Json)> = Vec::new();
    output.push(("@@locale".to_owned(), Json::Text(target_locale.to_owned())));
    assert(members(output@) =~= head + merged_members(ours, theirs, given, 0));
    assert(given =~= left_over(given, message_leaves(ours, 0)));
    for i in 0..source.len()
        invariant
            forall|j: int|
                0 <= j < source@.len() && !is_metadata((#[trigger] source@[j]).0@)
                    ==> source@[j].1.model() is Text,
            ours == members(source@),
            theirs == optional_members(target),
            given == text_map(old(translations)@),
            keys(ours).no_duplicates(),
            text_map(translations@) == left_over(given, message_leaves(ours, i as nat)),
            textless_messages(ours, theirs, given, i as nat).len() == 0,
            members(output@) == head + merged_members(ours, theirs, given, i as nat),
    {
        let key: &String = &source[i].0;
        assert(ours[i as int] == (key@, source@[i as int].1.model()));
        proof {
            reveal_strlit("@@locale");
            lemma_textless_grow(ours, theirs, given, (i + 1) as nat, ours.len());
            lemma_member_uses(ours, theirs, given, i as nat);
        }
        if !same_text(key.as_str(), "@@locale") {
            assert(!is_metadata(source@[i as int].0@) ==> source@[i as int].1.model() is Text);
            match merge_one(source, target, translations, i) {
                Some(value) => {
                    let ghost before = members(output@);
                    output.push((key.clone(), value));
                    assert(members(output@) =~= before.push((key@, value.model())));
                    assert(members(output@) =~= head + merged_members(
                        ours,
                        theirs,
                        given,
                        (i + 1) as nat,
                    ));
                },
                None => {
                    let path = pointer_child("", key.as_str());
                    proof {
                        reveal_strlit("");
                        assert(""@ =~= Seq::<char>::empty());
                        let found = textless_messages(ours, theirs, given, (i + 1) as nat);
                        assert(found[0] == path@);
                    }
                    return Err(CatalogError::MissingTranslation(path));
                },
            }
        }
    }
    let ghost body = members(output@);
    if let Some(entries) = target {
        let ghost others = members(entries@);
        assert(members(output@) =~= body + kept_members(ours, others, 0));
        for i in 0..entries.len()
            invariant
                ours == members(source@),
                others == members(entries@),
                members(output@) == body + kept_members(ours, others, i as nat),
        {
            let key: &String = &entries[i].0;
            assert(others[i as int] == (key@, entries@[i as int].1.model()));
            if key_is_global(key.as_str()) && !same_text(key.as_str(), "@@locale") && find(
                source,
                key.as_str(),
            ).is_none() {
                let ghost before = members(output@);
                let value = entries[i].1.copy();
                output.push((key.clone(), value));
                assert(members(output@) =~= before.push((key@, value.model())));
                assert(members(output@) =~= body + kept_members(ours, others, (i + 1) as nat));
            }
        }
    } else {
        assert(body + Seq::<(Seq<char>, JsonModel)>::empty() =~= body);
    }
    assert(members(output@) == merged_document(ours, theirs, given, target_locale@));
    match validate_document(&output) {
        Ok(_) => Ok(output),
        Err(error) => Err(CatalogError::Arb(error)),
    }
}

/// Every message among the members is a string.
pub open spec fn texts_in(entries: Seq<(String, Json)>) -> bool {
    forall|i: int|
        0 <= i < entries.len() && !is_metadata((#[trigger] entries[i]).0@) ==> entries[i].1.model()
            is Text
}

/// In a valid document every message is a string.
pub proof fn lemma_document_texts(entries: Seq<(String, Json)>)
    requires
        document_issue(members(entries)) is None,
    ensures
        texts_in(entries),
{
    lemma_messages_are_texts(members(entries));
    assert forall|i: int|
        0 <= i < entries.len() && !is_metadata((#[trigger] entries[i]).0@) implies entries[i].1.model()
        is Text by {
        assert(members(entries)[i] == (entries[i].0@, entries[i].1.model()));
        assert(!is_metadata(members(entries)[i].0));
    }
}

/// The messages among the first `count` members, each with its path.
pub open spec fn message_leaves(source: Seq<(Seq<char>, JsonModel)>, count: nat) -> Seq<
    (Seq<char>, Seq<char>),
>
    decreases count,
{
    if count == 0 {
        Seq::empty()
    } else {
        let before = message_leaves(source, (count - 1) as nat);
        let (key, value) = source[count - 1];
        if is_metadata(key) {
            before
        } else {
            before.push((message_path(key), value->Text_0))
        }
    }
}

/// The messages among the first `count` members, each with its path and its fingerprint.
pub open spec fn message_fingerprints(source: Seq<(Seq<char>, JsonModel)>, count: nat) -> Seq<
    (Seq<char>, Seq<char>),
>
    decreases count,
{
    if count == 0 {
        Seq::empty()
    } else {
        let before = message_fingerprints(source, (count - 1) as nat);
        let (key, value) = source[count - 1];
        if is_metadata(key) {
            before
        } else {
            before.push(
                (
                    message_path(key),
                    fingerprint_text(
                        CatalogFormat::Arb,
                        value->Text_0,
                        description_of(source, key),
                        placeholders_of(source, key),
                    ),
                ),
            )
        }
    }
}

/// Records the fingerprints of the messages of a document.
pub fn fingerprint_messages(source: &Vec<(String, Json)>, fingerprints: &mut StringMap<String>)
    requires
        document_issue(members(source@)) is None,
        old(fingerprints)@ == Map::<Seq<char>, String>::empty(),
    ensures
        text_map(final(fingerprints)@) == entries_map(
            message_fingerprints(members(source@), members(source@).len()),
        ),
{
    let ghost ours = members(source@);
    proof {
        lemma_document_texts(source@);
    }
    assert(text_map(fingerprints@) =~= entries_map(message_fingerprints(ours, 0)));
    for i in 0..source.len()
        invariant
            texts_in(source@),
            ours == members(source@),
            text_map(fingerprints@) == entries_map(message_fingerprints(ours, i as nat)),
    {
        let key: &str = source[i].0.as_str();
        assert(ours[i as int] == (key@, source@[i as int].1.model()));
        if !key_is_metadata(key) {
            assert(source@[i as int].1.model() is Text);
            if let Some(text) = source[i].1.as_text() {
                let found = context(source, key);
                let path = pointer_child("", key);
                proof {
                    reveal_strlit("");
                    assert(""@ =~= Seq::<char>::empty());
                }
                let ghost before = fingerprints@;
                let print = fingerprint(
                    CatalogFormat::Arb,
                    text.as_str(),
                    &found.description,
                    &found.placeholders,
                );
                let ghost longer = message_fingerprints(ours, (i + 1) as nat);
                assert(longer.last() == (path@, print@));
                assert(longer.drop_last() =~= message_fingerprints(ours, i as nat));
                fingerprints.insert(path, print);
                assert(text_map(fingerprints@) =~= text_map(before).insert(
                    longer.last().0,
                    longer.last().1,
                ));
            }
        }
    }
}

/// Checks the existing translation of one message.
pub fn check_existing(
    source: &Vec<(String, Json)>,
    target: &Vec<(String, Json)>,
    ignored_paths: &StringMap<()>,
    at: usize,
) -> (outcome: Result<(), ArbError>)
    requires
        at < source@.len(),
        texts_in(source@),
    ensures
        outcome_is(
            outcome,
            message_existing_issue(
                members(source@),
                members(target@),
                ignored_paths@.dom(),
                at as int,
            ),
        ),
{
    let key: &str = source[at].0.as_str();
    assert(members(source@)[at as int] == (key@, source@[at as int].1.model()));
    if key_is_metadata(key) {
        return Ok(());
    }
    let path = pointer_child("", key);
    proof {
        reveal_strlit("");
        assert(""@ =~= Seq::<char>::empty());
        assert(source@[at as int].1.model() is Text);
    }
    if ignored_paths.contains_key(path.as_str()) {
        return Ok(());
    }
    if let Some(value) = find(target, key) {
        if let Some(text) = value.as_text() {
            if !text.as_str().is_empty() {
                if let Some(source_text) = source[at].1.as_text() {
                    return validate_translation(key, source_text.as_str(), text.as_str());
                }
            }
        }
    }
    Ok(())
}

} // verus!
