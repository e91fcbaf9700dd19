//! Comparing and merging plain JSON catalogs.
use crate::map::{text_map, StringMap};
use crate::text::{decimal, optional_text};
use crate::value::{
    find, has_key, items, lemma_model, lookup, members, same_value, well_formed, Json, JsonModel,
};
use super::{
    compare_text, diff_text, kind_name, kinds_agree, lemma_join, same_kind, value_kind, CatalogDiff,
    CatalogError, ConflictModel, DiffModel, TextFinding, TranslationKind, TranslationUnit,
    TypeConflict, UnitModel,
};
use super::pointer::{child_path, label, path_label, pointer_child, pointer_item};
use super::used::{left_over, lemma_child_uses, partly_used};
use vstd::prelude::*;

verus! {

/// The number of values directly inside an array or an object.
pub open spec fn child_count(value: JsonModel) -> nat {
    match value {
        JsonModel::Array(list) => list.len(),
        JsonModel::Object(entries) => entries.len(),
        _ => 0,
    }
}

/// A value directly inside an array or an object.
pub open spec fn child(value: JsonModel, at: int) -> JsonModel {
    match value {
        JsonModel::Array(list) => list[at],
        JsonModel::Object(entries) => entries[at].1,
        _ => JsonModel::Null,
    }
}

/// The path segment of a value directly inside an array or an object.
pub open spec fn child_segment(value: JsonModel, at: int) -> Seq<char> {
    match value {
        JsonModel::Object(entries) => entries[at].0,
        _ => decimal(at as nat),
    }
}

/// The value of the target that stands for a child of the source: the one with the same key,
/// or the one at the same position of an array.
pub open spec fn counterpart(source: JsonModel, target: Option<JsonModel>, at: int) -> Option<
    JsonModel,
> {
    match (source, target) {
        (JsonModel::Object(entries), Some(JsonModel::Object(others))) => lookup(
            others,
            entries[at].0,
        ),
        (JsonModel::Array(_), Some(JsonModel::Array(others))) => if at < others.len() {
            Some(others[at])
        } else {
            None
        },
        _ => None,
    }
}

/// The request to translate a source text; an empty text is not translated.
pub open spec fn json_units(source: Seq<char>, path: Seq<char>) -> Seq<UnitModel> {
    if source.len() == 0 {
        Seq::empty()
    } else {
        seq![
            UnitModel {
                path,
                source,
                description: None,
                placeholders: Seq::empty(),
                kind: TranslationKind::Json,
            },
        ]
    }
}

/// How a source value without children compares with a target of the same type.
pub open spec fn diff_leaf(
    source: JsonModel,
    target: Option<JsonModel>,
    path: Seq<char>,
    force: bool,
    outdated: Set<Seq<char>>,
) -> DiffModel {
    match source {
        JsonModel::Text(text) => diff_text(
            text,
            match target {
                Some(JsonModel::Text(other)) => Some(other),
                _ => None,
            },
            label(path),
            force,
            outdated,
            json_units(text, label(path)),
        ),
        JsonModel::Array(_) | JsonModel::Object(_) => DiffModel::none(),
        _ => match target {
            None => DiffModel::missing_at(label(path)),
            Some(other) => if same_value(other, source) {
                DiffModel::none()
            } else {
                DiffModel::changed_at(label(path))
            },
        },
    }
}

/// The paths of the members that only the target has.
pub open spec fn extra_members(
    source: Seq<(Seq<char>, JsonModel)>,
    target: Seq<(Seq<char>, JsonModel)>,
    path: Seq<char>,
) -> Seq<Seq<char>> {
    target.filter(|entry: (Seq<char>, JsonModel)| !has_key(source, entry.0)).map_values(
        |entry: (Seq<char>, JsonModel)| child_path(path, entry.0),
    )
}

/// The paths of the values that only the target has, directly inside an array or an object.
pub open spec fn extra_children(source: JsonModel, target: Option<JsonModel>, path: Seq<char>) -> Seq<
    Seq<char>,
> {
    match (source, target) {
        (JsonModel::Object(entries), Some(JsonModel::Object(others))) => extra_members(
            entries,
            others,
            path,
        ),
        (JsonModel::Array(list), Some(JsonModel::Array(others))) => if others.len() > list.len() {
            Seq::new(
                (others.len() - list.len()) as nat,
                |i: int| child_path(path, decimal((list.len() + i) as nat)),
            )
        } else {
            Seq::empty()
        },
        _ => Seq::empty(),
    }
}

/// How a source value compares with the target value at the same path. A missing target is
/// `None`; values of different types conflict and are not compared further.
pub open spec fn diff_value(
    source: JsonModel,
    target: Option<JsonModel>,
    path: Seq<char>,
    force: bool,
    outdated: Set<Seq<char>>,
) -> DiffModel
    decreases source, child_count(source) + 1,
{
    if target is Some && !same_kind(source, target->0) {
        DiffModel::conflict(
            ConflictModel {
                path: label(path),
                source_type: kind_name(source),
                target_type: kind_name(target->0),
            },
        )
    } else if source is Array || source is Object {
        diff_children(source, target, path, force, outdated, child_count(source)).join(
            DiffModel::extras(extra_children(source, target, path)),
        )
    } else {
        diff_leaf(source, target, path, force, outdated)
    }
}

/// How the first `count` children of a source value compare with their counterparts.
pub open spec fn diff_children(
    source: JsonModel,
    target: Option<JsonModel>,
    path: Seq<char>,
    force: bool,
    outdated: Set<Seq<char>>,
    count: nat,
) -> DiffModel
    decreases source, count,
{
    if count == 0 || count > child_count(source) {
        DiffModel::none()
    } else {
        let at = count - 1;
        diff_children(source, target, path, force, outdated, at as nat).join(
            diff_value(
                child(source, at),
                counterpart(source, target, at),
                child_path(path, child_segment(source, at)),
                force,
                outdated,
            ),
        )
    }
}

/// What each optional value is.
pub open spec fn optional_model(value: Option<&Json>) -> Option<JsonModel> {
    match value {
        Some(json) => Some(json.model()),
        None => None,
    }
}

/// Requests a translation of a source text.
fn push_unit(path: &str, source: &str, diff: &mut CatalogDiff)
    ensures
        final(diff).model() == old(diff).model().join(
            DiffModel::only_units(json_units(source@, path@)),
        ),
        final(diff).same_subject(*old(diff)),
{
    if !source.is_empty() {
        let unit = TranslationUnit {
            path: path.to_owned(),
            source: source.to_owned(),
            description: None,
            placeholders: Vec::new(),
            kind: TranslationKind::Json,
        };
        assert(unit.model() =~= json_units(source@, path@)[0]);
        assert(json_units(source@, path@) =~= seq![unit.model()]);
        diff.push_unit(unit);
    } else {
        assert(diff.model().join(DiffModel::only_units(json_units(source@, path@)))
            =~= diff.model());
    }
}

/// Compares a source text with its translation and records what it found.
fn diff_string(
    source: &str,
    target: Option<&String>,
    path: &str,
    force: bool,
    outdated: &StringMap<()>,
    diff: &mut CatalogDiff,
)
    ensures
        final(diff).model() == old(diff).model().join(
            diff_text(
                source@,
                match target {
                    Some(text) => Some(text@),
                    None => None,
                },
                path@,
                force,
                outdated@.dom(),
                json_units(source@, path@),
            ),
        ),
        final(diff).same_subject(*old(diff)),
{
    let ghost before = diff.model();
    let ghost units = DiffModel::only_units(json_units(source@, path@));
    proof {
        lemma_join(before, DiffModel::missing_at(path@), units);
        lemma_join(before, DiffModel::empty_at(path@), units);
        lemma_join(before, DiffModel::outdated_at(path@), units);
    }
    match compare_text(source, target, outdated.contains_key(path), force) {
        TextFinding::Missing => {
            diff.push_missing(path.to_owned());
            push_unit(path, source, diff);
        },
        TextFinding::Empty => {
            diff.push_empty(path.to_owned());
            push_unit(path, source, diff);
        },
        TextFinding::Forced => {
            push_unit(path, source, diff);
        },
        TextFinding::Outdated => {
            diff.push_outdated(path.to_owned());
            push_unit(path, source, diff);
        },
        TextFinding::Changed => {
            diff.push_changed(path.to_owned());
        },
        TextFinding::Current => {},
    }
}

/// Records the members that only the target has.
fn diff_extra_members(
    source: &Vec<(String, Json)>,
    target: &Vec<(String, Json)>,
    path: &str,
    diff: &mut CatalogDiff,
)
    ensures
        final(diff).model() == old(diff).model().join(
            DiffModel::extras(extra_members(members(source@), members(target@), path@)),
        ),
        final(diff).same_subject(*old(diff)),
{
    let ghost before = *diff;
    let ghost ours = members(source@);
    let ghost theirs = members(target@);
    let ghost extra = |entry: (Seq<char>, JsonModel)| !has_key(ours, entry.0);
    let ghost show = |entry: (Seq<char>, JsonModel)| child_path(path@, entry.0);
    proof {
        reveal(Seq::filter);
        assert(theirs.take(0).filter(extra).map_values(show) =~= Seq::<Seq<char>>::empty());
        lemma_join(diff.model(), DiffModel::none(), DiffModel::none());
    }
    for i in 0..target.len()
        invariant
            ours == members(source@),
            theirs == members(target@),
            extra == (|entry: (Seq<char>, JsonModel)| !has_key(ours, entry.0)),
            show == (|entry: (Seq<char>, JsonModel)| child_path(path@, entry.0)),
            diff.model() == before.model().join(
                DiffModel::extras(theirs.take(i as int).filter(extra).map_values(show)),
            ),
            diff.same_subject(before),
    {
        let ghost seen = theirs.take(i as int);
        let ghost entry = theirs[i as int];
        proof {
            reveal(Seq::filter);
            assert(theirs.take(i + 1).drop_last() =~= seen);
            assert(theirs.take(i + 1).last() == entry);
            assert(entry.0 == target@[i as int].0@);
        }
        match find(source, target[i].0.as_str()) {
            Some(_) => {},
            None => {
                diff.push_extra(pointer_child(path, target[i].0.as_str()));
                proof {
                    let listed = seen.filter(extra).map_values(show);
                    assert(theirs.take(i + 1).filter(extra).map_values(show) =~= listed.push(
                        show(entry),
                    ));
                    assert(diff.model() =~= before.model().join(
                        DiffModel::extras(listed.push(show(entry))),
                    ));
                }
            },
        }
    }
    assert(theirs.take(theirs.len() as int) =~= theirs);
}

/// Records the items by which the target array is longer.
fn diff_extra_items(source: &Vec<Json>, target: &Vec<Json>, path: &str, diff: &mut CatalogDiff)
    ensures
        final(diff).model() == old(diff).model().join(
            DiffModel::extras(
                extra_children(
                    JsonModel::Array(items(source@)),
                    Some(JsonModel::Array(items(target@))),
                    path@,
                ),
            ),
        ),
        final(diff).same_subject(*old(diff)),
{
    let ghost before = *diff;
    let start: usize = source.len();
    let ghost extra = extra_children(
        JsonModel::Array(items(source@)),
        Some(JsonModel::Array(items(target@))),
        path@,
    );
    proof {
        assert(extra.take(0) =~= Seq::<Seq<char>>::empty());
        lemma_join(diff.model(), DiffModel::none(), DiffModel::none());
    }
    if target.len() > start {
        for i in start..target.len()
            invariant
                start == source@.len() < target@.len(),
                extra == extra_children(
                    JsonModel::Array(items(source@)),
                    Some(JsonModel::Array(items(target@))),
                    path@,
                ),
                diff.model() == before.model().join(DiffModel::extras(extra.take(i - start))),
                diff.same_subject(before),
        {
            let ghost seen = extra.take(i - start);
            diff.push_extra(pointer_item(path, i));
            proof {
                assert(extra.take(i + 1 - start) =~= seen.push(child_path(path@, decimal(i as nat))));
                assert(diff.model() =~= before.model().join(
                    DiffModel::extras(extra.take(i + 1 - start)),
                ));
            }
        }
        assert(extra.take(target@.len() - start) =~= extra);
    } else {
        assert(extra =~= Seq::<Seq<char>>::empty());
    }
}

/// Compares a source value with the target value at the same path and appends the findings.
pub fn diff(
    source: &Json,
    target: Option<&Json>,
    path: &str,
    force: bool,
    outdated: &StringMap<()>,
    catalog_diff: &mut CatalogDiff,
)
    ensures
        final(catalog_diff).model() == old(catalog_diff).model().join(
            diff_value(source.model(), optional_model(target), path@, force, outdated@.dom()),
        ),
        final(catalog_diff).same_subject(*old(catalog_diff)),
    decreases source,
{
    let ghost before = *catalog_diff;
    let ghost whole = source.model();
    let ghost other = optional_model(target);
    let ghost stale = outdated@.dom();
    proof {
        lemma_model(*source);
        lemma_join(before.model(), DiffModel::none(), DiffModel::none());
    }
    if let Some(value) = target {
        proof {
            lemma_model(*value);
        }
        if !kinds_agree(source, value) {
            catalog_diff.push_conflict(
                TypeConflict {
                    path: path_label(path),
                    source_type: value_kind(source),
                    target_type: value_kind(value),
                },
            );
            return ;
        }
    }
    match source {
        Json::Object(entries) => {
            let others: Option<&Vec<(String, Json)>> = match target {
                Some(Json::Object(list)) => Some(list),
                _ => None,
            };
            for i in 0..entries.len()
                invariant
                    *source == Json::Object(*entries),
                    whole == JsonModel::Object(members(entries@)),
                    stale == outdated@.dom(),
                    others is Some ==> other == Some(JsonModel::Object(members(others->0@))),
                    others is None ==> other is None,
                    catalog_diff.model() == before.model().join(
                        diff_children(whole, other, path@, force, stale, i as nat),
                    ),
                    catalog_diff.same_subject(before),
            {
                assert(decreases_to!(source->Object_0 => entries@[i as int]));
                assert(members(entries@)[i as int] == (
                    entries@[i as int].0@,
                    entries@[i as int].1.model(),
                ));
                let child_path = pointer_child(path, entries[i].0.as_str());
                let counter: Option<&Json> = match others {
                    Some(list) => find(list, entries[i].0.as_str()),
                    None => None,
                };
                assert(optional_model(counter) == counterpart(whole, other, i as int));
                let ghost so_far = catalog_diff.model();
                diff(&entries[i].1, counter, child_path.as_str(), force, outdated, catalog_diff);
                proof {
                    let step = diff_value(
                        child(whole, i as int),
                        counterpart(whole, other, i as int),
                        child_path@,
                        force,
                        stale,
                    );
                    lemma_join(
                        before.model(),
                        diff_children(whole, other, path@, force, stale, i as nat),
                        step,
                    );
                }
            }
            proof {
                lemma_join(
                    before.model(),
                    diff_children(whole, other, path@, force, stale, child_count(whole)),
                    DiffModel::extras(extra_children(whole, other, path@)),
                );
            }
            match others {
                Some(list) => {
                    diff_extra_members(entries, list, path, catalog_diff);
                },
                None => {
                    proof {
                        lemma_join(
                            diff_children(whole, other, path@, force, stale, child_count(whole)),
                            DiffModel::none(),
                            DiffModel::none(),
                        );
                    }
                },
            }
        },
        Json::Array(list) => {
            let others: Option<&Vec<Json>> = match target {
                Some(Json::Array(values)) => Some(values),
                _ => None,
            };
            for i in 0..list.len()
                invariant
                    *source == Json::Array(*list),
                    whole == JsonModel::Array(items(list@)),
                    stale == outdated@.dom(),
                    others is Some ==> other == Some(JsonModel::Array(items(others->0@))),
                    others is None ==> other is None,
                    catalog_diff.model() == before.model().join(
                        diff_children(whole, other, path@, force, stale, i as nat),
                    ),
                    catalog_diff.same_subject(before),
            {
                assert(decreases_to!(source->Array_0 => list@[i as int]));
                assert(items(list@)[i as int] == list@[i as int].model());
                let child_path = pointer_item(path, i);
                let counter: Option<&Json> = match others {
                    Some(values) => if i < values.len() {
                        Some(&values[i])
                    } else {
                        None
                    },
                    None => None,
                };
                assert(optional_model(counter) == counterpart(whole, other, i as int));
                diff(&list[i], counter, child_path.as_str(), force, outdated, catalog_diff);
                proof {
                    let step = diff_value(
                        child(whole, i as int),
                        counterpart(whole, other, i as int),
                        child_path@,
                        force,
                        stale,
                    );
                    lemma_join(
                        before.model(),
                        diff_children(whole, other, path@, force, stale, i as nat),
                        step,
                    );
                }
            }
            proof {
                lemma_join(
                    before.model(),
                    diff_children(whole, other, path@, force, stale, child_count(whole)),
                    DiffModel::extras(extra_children(whole, other, path@)),
                );
            }
            match others {
                Some(values) => {
                    diff_extra_items(list, values, path, catalog_diff);
                },
                None => {
                    proof {
                        lemma_join(
                            diff_children(whole, other, path@, force, stale, child_count(whole)),
                            DiffModel::none(),
                            DiffModel::none(),
                        );
                    }
                },
            }
        },
        Json::Text(text) => {
            let name = path_label(path);
            let other_text: Option<&String> = match target {
                Some(Json::Text(value)) => Some(value),
                _ => None,
            };
            diff_string(text.as_str(), other_text, name.as_str(), force, outdated, catalog_diff);
        },
        _ => match target {
            None => {
                catalog_diff.push_missing(path_label(path));
            },
            Some(value) => {
                if !value.same(source) {
                    catalog_diff.push_changed(path_label(path));
                }
            },
        },
    }
}

/// A reason why a target cannot be merged with its source.
pub enum MergeIssue {
    /// The values at the path have different types.
    Conflict(Seq<char>),
    /// The text at the path has neither a translation nor a target text.
    Missing(Seq<char>),
}

/// The merged text of a source text: empty where the source is, else its translation, else the
/// text that the target has.
pub open spec fn merged_text(
    source: Seq<char>,
    target: Option<Seq<char>>,
    path: Seq<char>,
    translations: Map<Seq<char>, Seq<char>>,
) -> Option<Seq<char>> {
    if source.len() == 0 {
        Some(source)
    } else if translations.contains_key(path) {
        Some(translations[path])
    } else {
        target
    }
}

/// The characters of a value that is a string.
pub open spec fn text_of_value(value: Option<JsonModel>) -> Option<Seq<char>> {
    match value {
        Some(JsonModel::Text(text)) => Some(text),
        _ => None,
    }
}

/// The reasons why a target value cannot be merged with its source, in document order.
pub open spec fn merge_issues(
    source: JsonModel,
    target: Option<JsonModel>,
    path: Seq<char>,
    translations: Map<Seq<char>, Seq<char>>,
) -> Seq<MergeIssue>
    decreases source, child_count(source) + 1,
{
    if target is Some && !same_kind(source, target->0) {
        seq![MergeIssue::Conflict(label(path))]
    } else {
        match source {
            JsonModel::Array(_) | JsonModel::Object(_) => child_issues(
                source,
                target,
                path,
                translations,
                child_count(source),
            ),
            JsonModel::Text(text) => if merged_text(
                text,
                text_of_value(target),
                label(path),
                translations,
            ) is Some {
                Seq::empty()
            } else {
                seq![MergeIssue::Missing(label(path))]
            },
            _ => Seq::empty(),
        }
    }
}

/// The reasons why the first `count` children of a source value cannot be merged.
pub open spec fn child_issues(
    source: JsonModel,
    target: Option<JsonModel>,
    path: Seq<char>,
    translations: Map<Seq<char>, Seq<char>>,
    count: nat,
) -> Seq<MergeIssue>
    decreases source, count,
{
    if count == 0 || count > child_count(source) {
        Seq::empty()
    } else {
        let at = count - 1;
        child_issues(source, target, path, translations, at as nat) + merge_issues(
            child(source, at),
            counterpart(source, target, at),
            child_path(path, child_segment(source, at)),
            translations,
        )
    }
}

/// The merged value: it has the structure and the non-text values of the source and the texts
/// that `merged_text` gives.
pub open spec fn merged_value(
    source: JsonModel,
    target: Option<JsonModel>,
    path: Seq<char>,
    translations: Map<Seq<char>, Seq<char>>,
) -> JsonModel
    decreases source,
{
    match source {
        JsonModel::Object(entries) => JsonModel::Object(
            Seq::new(
                entries.len(),
                |i: int|
                    if 0 <= i < entries.len() {
                        (
                            entries[i].0,
                            merged_value(
                                entries[i].1,
                                counterpart(source, target, i),
                                child_path(path, entries[i].0),
                                translations,
                            ),
                        )
                    } else {
                        (Seq::empty(), JsonModel::Null)
                    },
            ),
        ),
        JsonModel::Array(list) => JsonModel::Array(
            Seq::new(
                list.len(),
                |i: int|
                    if 0 <= i < list.len() {
                        merged_value(
                            list[i],
                            counterpart(source, target, i),
                            child_path(path, decimal(i as nat)),
                            translations,
                        )
                    } else {
                        JsonModel::Null
                    },
            ),
        ),
        JsonModel::Text(text) => match merged_text(
            text,
            text_of_value(target),
            label(path),
            translations,
        ) {
            Some(merged) => JsonModel::Text(merged),
            None => JsonModel::Text(Seq::empty()),
        },
        _ => source,
    }
}

proof fn lemma_child_issues_grow(
    source: JsonModel,
    target: Option<JsonModel>,
    path: Seq<char>,
    translations: Map<Seq<char>, Seq<char>>,
    fewer: nat,
    count: nat,
)
    requires
        fewer <= count <= child_count(source),
    ensures
        child_issues(source, target, path, translations, fewer).is_prefix_of(
            child_issues(source, target, path, translations, count),
        ),
    decreases count,
{
    if fewer < count {
        lemma_child_issues_grow(source, target, path, translations, fewer, (count - 1) as nat);
    }
}

/// The text of a merged string, where it has one. The translation of a string that is not empty
/// is taken out.
pub fn merge_text(
    source: &str,
    target: Option<&String>,
    path: &str,
    translations: &mut StringMap<String>,
) -> (outcome: Option<String>)
    ensures
        optional_text(outcome) == merged_text(
            source@,
            match target {
                Some(text) => Some(text@),
                None => None,
            },
            path@,
            text_map(old(translations)@),
        ),
        text_map(final(translations)@) == if source@.len() == 0 {
            text_map(old(translations)@)
        } else {
            text_map(old(translations)@).remove(path@)
        },
{
    if source.is_empty() {
        let empty = String::new();
        assert(empty@ =~= source@);
        return Some(empty);
    }
    let ghost given = translations@;
    let translation = translations.remove(path);
    assert(text_map(translations@) =~= text_map(given).remove(path@));
    match translation {
        Some(text) => Some(text),
        None => match target {
            Some(text) => Some(text.clone()),
            None => None,
        },
    }
}

/// Merges a target value with its source. Each translation that is used is taken out.
pub fn merge(
    source: &Json,
    target: Option<&Json>,
    path: &str,
    translations: &mut StringMap<String>,
) -> (outcome: Result<Json, CatalogError>)
    requires
        well_formed(source.model()),
    ensures
        outcome is Ok <==> merge_issues(
            source.model(),
            optional_model(target),
            path@,
            text_map(old(translations)@),
        ).len() == 0,
        outcome is Ok ==> outcome->Ok_0.model() == merged_value(
            source.model(),
            optional_model(target),
            path@,
            text_map(old(translations)@),
        ),
        outcome is Err ==> outcome->Err_0.reports(
            merge_issues(
                source.model(),
                optional_model(target),
                path@,
                text_map(old(translations)@),
            )[0],
        ),
        outcome is Ok ==> text_map(final(translations)@) == left_over(
            text_map(old(translations)@),
            text_leaves(source.model(), path@),
        ),
        outcome is Err ==> partly_used(
            text_map(old(translations)@),
            text_map(final(translations)@),
            text_leaves(source.model(), path@),
        ),
    decreases source,
{
    let ghost whole = source.model();
    let ghost other = optional_model(target);
    let ghost given = text_map(translations@);
    proof {
        lemma_model(*source);
    }
    if let Some(value) = target {
        proof {
            lemma_model(*value);
        }
        if !kinds_agree(source, value) {
            return Err(CatalogError::MergeTypeConflict(path_label(path)));
        }
    }
    match source {
        Json::Object(entries) => {
            assert(given =~= left_over(given, child_leaves(whole, path@, 0)));
            let others: Option<&Vec<(String, Json)>> = match target {
                Some(Json::Object(list)) => Some(list),
                _ => None,
            };
            let mut output: Vec<(String, Json)> = Vec::new();
            for i in 0..entries.len()
                invariant
                    *source == Json::Object(*entries),
                    whole == source.model(),
                    whole == JsonModel::Object(members(entries@)),
                    other == optional_model(target),
                    other is Some ==> same_kind(whole, other->0),
                    given == text_map(old(translations)@),
                    well_formed(whole),
                    text_map(translations@) == left_over(
                        given,
                        child_leaves(whole, path@, i as nat),
                    ),
                    others is Some ==> other == Some(JsonModel::Object(members(others->0@))),
                    others is None ==> other is None,
                    child_issues(whole, other, path@, given, i as nat).len() == 0,
                    output@.len() == i,
                    forall|j: int|
                        0 <= j < i ==> (#[trigger] members(output@)[j]) == merged_value(
                            whole,
                            other,
                            path@,
                            given,
                        )->Object_0[j],
            {
                let ghost so_far = output@;
                assert(decreases_to!(source->Object_0 => entries@[i as int]));
                assert(members(entries@)[i as int] == (
                    entries@[i as int].0@,
                    entries@[i as int].1.model(),
                ));
                let child_path = pointer_child(path, entries[i].0.as_str());
                let counter: Option<&Json> = match others {
                    Some(list) => find(list, entries[i].0.as_str()),
                    None => None,
                };
                assert(optional_model(counter) == counterpart(whole, other, i as int));
                proof {
                    lemma_child_uses(whole, other, path@, given, i as nat);
                }
                let merged = merge(&entries[i].1, counter, child_path.as_str(), translations);
                proof {
                    lemma_child_issues_grow(
                        whole,
                        other,
                        path@,
                        given,
                        (i + 1) as nat,
                        child_count(whole),
                    );
                }
                match merged {
                    Ok(value) => {
                        output.push((entries[i].0.clone(), value));
                        assert forall|j: int| 0 <= j < i + 1 implies (#[trigger] members(output@)[j])
                            == merged_value(whole, other, path@, given)->Object_0[j] by {
                            if j < i {
                                assert(members(output@)[j] == members(so_far)[j]);
                            }
                        }
                    },
                    Err(error) => {
                        return Err(error);
                    },
                }
            }
            let json = Json::Object(output);
            proof {
                lemma_model(json);
                assert(members(output@) =~= merged_value(whole, other, path@, given)->Object_0);
            }
            Ok(json)
        },
        Json::Array(list) => {
            assert(given =~= left_over(given, child_leaves(whole, path@, 0)));
            let others: Option<&Vec<Json>> = match target {
                Some(Json::Array(values)) => Some(values),
                _ => None,
            };
            let mut output: Vec<Json> = Vec::new();
            for i in 0..list.len()
                invariant
                    *source == Json::Array(*list),
                    whole == source.model(),
                    whole == JsonModel::Array(items(list@)),
                    other == optional_model(target),
                    other is Some ==> same_kind(whole, other->0),
                    given == text_map(old(translations)@),
                    well_formed(whole),
                    text_map(translations@) == left_over(
                        given,
                        child_leaves(whole, path@, i as nat),
                    ),
                    others is Some ==> other == Some(JsonModel::Array(items(others->0@))),
                    others is None ==> other is None,
                    child_issues(whole, other, path@, given, i as nat).len() == 0,
                    output@.len() == i,
                    forall|j: int|
                        0 <= j < i ==> (#[trigger] items(output@)[j]) == merged_value(
                            whole,
                            other,
                            path@,
                            given,
                        )->Array_0[j],
            {
                let ghost so_far = output@;
                assert(decreases_to!(source->Array_0 => list@[i as int]));
                assert(items(list@)[i as int] == list@[i as int].model());
                let child_path = pointer_item(path, i);
                let counter: Option<&Json> = match others {
                    Some(values) => if i < values.len() {
                        Some(&values[i])
                    } else {
                        None
                    },
                    None => None,
                };
                assert(optional_model(counter) == counterpart(whole, other, i as int));
                proof {
                    lemma_child_uses(whole, other, path@, given, i as nat);
                }
                let merged = merge(&list[i], counter, child_path.as_str(), translations);
                proof {
                    lemma_child_issues_grow(
                        whole,
                        other,
                        path@,
                        given,
                        (i + 1) as nat,
                        child_count(whole),
                    );
                }
                match merged {
                    Ok(value) => {
                        output.push(value);
                        assert forall|j: int| 0 <= j < i + 1 implies (#[trigger] items(output@)[j])
                            == merged_value(whole, other, path@, given)->Array_0[j] by {
                            if j < i {
                                assert(items(output@)[j] == items(so_far)[j]);
                            }
                        }
                    },
                    Err(error) => {
                        return Err(error);
                    },
                }
            }
            let json = Json::Array(output);
            proof {
                lemma_model(json);
                assert(items(output@) =~= merged_value(whole, other, path@, given)->Array_0);
            }
            Ok(json)
        },
        Json::Text(text) => {
            assert(text_leaves(whole, path@) =~= seq![(label(path@), text@)]);
            let name = path_label(path);
            let other_text: Option<&String> = match target {
                Some(Json::Text(value)) => Some(value),
                _ => None,
            };
            let merged = merge_text(text.as_str(), other_text, name.as_str(), translations);
            proof {
                let leaves = text_leaves(whole, path@);
                assert(leaves[0] == (name@, text@));
                assert forall|found: Seq<char>| #[trigger] translatable(leaves, found) <==> (found
                    == name@ && text@.len() > 0) by {
                    if found == name@ && text@.len() > 0 {
                        assert(leaves[0].0 == found);
                    }
                }
                assert(text_map(translations@) =~= left_over(given, leaves));
            }
            match merged {
                Some(merged) => Ok(Json::Text(merged)),
                None => Err(CatalogError::MissingTranslation(name)),
            }
        },
        _ => {
            assert(given =~= left_over(given, text_leaves(whole, path@)));
            Ok(source.copy())
        },
    }
}

/// The strings of a value in document order, each with the name of its path.
pub open spec fn text_leaves(value: JsonModel, path: Seq<char>) -> Seq<(Seq<char>, Seq<char>)>
    decreases value, child_count(value) + 1,
{
    match value {
        JsonModel::Text(text) => seq![(label(path), text)],
        JsonModel::Array(_) | JsonModel::Object(_) => child_leaves(value, path, child_count(value)),
        _ => Seq::empty(),
    }
}

/// The strings of the first `count` children of a value.
pub open spec fn child_leaves(value: JsonModel, path: Seq<char>, count: nat) -> Seq<
    (Seq<char>, Seq<char>),
>
    decreases value, count,
{
    if count == 0 || count > child_count(value) {
        Seq::empty()
    } else {
        let at = count - 1;
        child_leaves(value, path, at as nat) + text_leaves(
            child(value, at),
            child_path(path, child_segment(value, at)),
        )
    }
}

/// The characters of a list of paths and texts.
pub open spec fn leaf_models(leaves: Seq<(String, String)>) -> Seq<(Seq<char>, Seq<char>)> {
    leaves.map_values(|leaf: (String, String)| (leaf.0@, leaf.1@))
}

/// Appends the strings of a value in document order, each with the name of its path.
pub fn collect_leaves(value: &Json, path: &str, leaves: &mut Vec<(String, String)>)
    ensures
        leaf_models(final(leaves)@) == leaf_models(old(leaves)@) + text_leaves(value.model(), path@),
    decreases value,
{
    let ghost before = leaf_models(leaves@);
    let ghost whole = value.model();
    proof {
        lemma_model(*value);
    }
    match value {
        Json::Text(text) => {
            leaves.push((path_label(path), text.clone()));
            assert(leaf_models(leaves@) =~= before + text_leaves(whole, path@));
        },
        Json::Object(entries) => {
            assert(leaf_models(leaves@) =~= before + child_leaves(whole, path@, 0));
            for i in 0..entries.len()
                invariant
                    *value == Json::Object(*entries),
                    whole == JsonModel::Object(members(entries@)),
                    leaf_models(leaves@) == before + child_leaves(whole, path@, i as nat),
            {
                assert(decreases_to!(value->Object_0 => entries@[i as int]));
                assert(members(entries@)[i as int] == (
                    entries@[i as int].0@,
                    entries@[i as int].1.model(),
                ));
                let child_path = pointer_child(path, entries[i].0.as_str());
                collect_leaves(&entries[i].1, child_path.as_str(), leaves);
                assert(leaf_models(leaves@) =~= before + child_leaves(whole, path@, (i + 1) as nat));
            }
        },
        Json::Array(list) => {
            assert(leaf_models(leaves@) =~= before + child_leaves(whole, path@, 0));
            for i in 0..list.len()
                invariant
                    *value == Json::Array(*list),
                    whole == JsonModel::Array(items(list@)),
                    leaf_models(leaves@) == before + child_leaves(whole, path@, i as nat),
            {
                assert(decreases_to!(value->Array_0 => list@[i as int]));
                assert(items(list@)[i as int] == list@[i as int].model());
                let child_path = pointer_item(path, i);
                collect_leaves(&list[i], child_path.as_str(), leaves);
                assert(leaf_models(leaves@) =~= before + child_leaves(whole, path@, (i + 1) as nat));
            }
        },
        _ => {
            assert(leaf_models(leaves@) =~= before + text_leaves(whole, path@));
        },
    }
}

/// Whether a path names a string of the source that is not empty.
pub open spec fn translatable(leaves: Seq<(Seq<char>, Seq<char>)>, path: Seq<char>) -> bool {
    exists|i: int| 0 <= i < leaves.len() && (#[trigger] leaves[i]).0 == path && leaves[i].1.len() > 0
}

} // verus!
