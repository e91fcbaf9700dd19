//! What the outcomes of comparing and merging catalogs mean for their contents.
use crate::fingerprint::fingerprint_text;
use crate::icu::read_result;
use crate::text::texts;
use crate::value::{keys, lookup, JsonModel};
use super::{
    accepts, conflict_models, diff_outcome_is, document, entries_map, existing_issue,
    existing_outcome_is, fingerprint_entries, merge_result_is, optional_root, optional_root_ref,
    root_issues, target_document, translation_outcome_is, unit_models, valid_root, without_slashes,
    Catalog, CatalogDiff, CatalogError, CatalogFormat, ConflictModel, UnitModel,
};
use super::arb::lemma_messages_are_texts;
use super::arb_meaning::{fit, law_translation_accepted};
use super::json::{text_leaves, translatable, MergeIssue};
use super::json_laws::law_leaf_paths_distinct;
use super::json_meaning::{
    law_findings_at, law_merge_issues_at, law_merged_at, law_texts_at, leads_to, leads_to_issue,
    leads_to_text, lists, merged_from, Finding,
};
use super::message_laws::law_message_paths_distinct;
use super::message_meaning::{
    asks, blanks, changes, clashes, described, found_in, lacks_text, law_document_findings,
    law_merged_values, law_message_fingerprints, law_messages_at, law_textless_messages, misses,
    named, names_global, names_message, outdates, path_of,
};
use super::messages::{message_leaves, textless_messages};
use super::places::{law_paths, spot};
use vstd::prelude::*;

verus! {

/// Whether a report, or the list of what is to be translated, holds a finding.
pub open spec fn shows(diff: CatalogDiff, finding: Finding) -> bool {
    match finding {
        Finding::Missing(path) => texts(diff.report.missing@).contains(path),
        Finding::Empty(path) => texts(diff.report.empty@).contains(path),
        Finding::Outdated(path) => texts(diff.report.outdated@).contains(path),
        Finding::Changed(path) => texts(diff.report.changed@).contains(path),
        Finding::Extra(path) => texts(diff.report.extra@).contains(path),
        Finding::Conflict(conflict) => conflict_models(diff.report.conflicts@).contains(conflict),
        Finding::Unit(unit) => unit_models(diff.units@).contains(unit),
    }
}

/// The comparison of two JSON catalogs shows a finding exactly where a spot gives reason for it.
pub proof fn law_json_report(
    outcome: Result<CatalogDiff, CatalogError>,
    source: Catalog,
    target: Option<&Catalog>,
    locale: Seq<char>,
    force: bool,
    outdated: Set<Seq<char>>,
    finding: Finding,
)
    requires
        diff_outcome_is(outcome, source, target, locale, force, outdated),
        source.kind() is Json,
        target is Some ==> target->0.kind() is Json,
    ensures
        outcome is Ok,
        outcome->Ok_0.report.locale@ == locale,
        !outcome->Ok_0.report.baseline_missing,
        shows(outcome->Ok_0, finding) <==> exists|steps: Seq<int>| #[trigger]
            leads_to(
                source.content(),
                optional_root_ref(target),
                Seq::empty(),
                steps,
                finding,
                force,
                outdated,
            ),
{
    law_findings_at(
        source.content(),
        optional_root_ref(target),
        Seq::empty(),
        force,
        outdated,
        finding,
    );
    assert(shows(outcome->Ok_0, finding) <==> lists(outcome->Ok_0.model(), finding));
}

/// A JSON source and target without differences have the same keys and as many items at every
/// spot, the same numbers, booleans and nulls, and a text in the target for every text.
#[verifier::rlimit(60)]
pub proof fn law_clean_json_report(
    outcome: Result<CatalogDiff, CatalogError>,
    source: Catalog,
    target: &Catalog,
    locale: Seq<char>,
    force: bool,
    outdated: Set<Seq<char>>,
    steps: Seq<int>,
)
    requires
        diff_outcome_is(outcome, source, Some(target), locale, force, outdated),
        source.kind() is Json,
        target.kind() is Json,
        outcome->Ok_0.report.missing@.len() == 0,
        outcome->Ok_0.report.empty@.len() == 0,
        outcome->Ok_0.report.changed@.len() == 0,
        outcome->Ok_0.report.extra@.len() == 0,
        outcome->Ok_0.report.conflicts@.len() == 0,
        spot(source.content(), Some(target.content()), Seq::empty(), steps) is Some,
    ensures
        ({
            let at = spot(source.content(), Some(target.content()), Seq::empty(), steps)->0;
            match (at.source, at.target) {
                (JsonModel::Object(entries), Some(JsonModel::Object(others))) => forall|
                    key: Seq<char>,
                | #[trigger] lookup(others, key) is Some ==> lookup(entries, key) is Some,
                (JsonModel::Array(list), Some(JsonModel::Array(others))) => others.len() <= list.len(),
                (JsonModel::Text(text), Some(JsonModel::Text(other))) => text.len() > 0
                    ==> other.len() > 0,
                (JsonModel::Bool(a), Some(JsonModel::Bool(b))) => a == b,
                (JsonModel::Null, Some(JsonModel::Null)) => true,
                (JsonModel::Number(a), Some(JsonModel::Number(b))) => super::places::equal_numbers(
                    b,
                    a,
                ),
                (JsonModel::Object(_), None) => true,
                (JsonModel::Array(_), None) => true,
                _ => false,
            }
        }),
{
    let (ours, theirs) = (source.content(), Some(target.content()));
    let at = spot(ours, theirs, Seq::empty(), steps)->0;
    let name = super::places::path_name(at.path);
    assert forall|finding: Finding| #[trigger]
        leads_to(ours, theirs, Seq::empty(), steps, finding, force, outdated) implies shows(
        outcome->Ok_0,
        finding,
    ) by {
        law_json_report(outcome, source, Some(target), locale, force, outdated, finding);
    }
    assert(!leads_to(ours, theirs, Seq::empty(), steps, Finding::Missing(name), force, outdated));
    assert(!leads_to(ours, theirs, Seq::empty(), steps, Finding::Empty(name), force, outdated));
    assert(!leads_to(ours, theirs, Seq::empty(), steps, Finding::Changed(name), force, outdated));
    if at.target is Some {
        let conflict = ConflictModel {
            path: name,
            source_type: super::places::json_type(at.source),
            target_type: super::places::json_type(at.target->0),
        };
        assert(!leads_to(
            ours,
            theirs,
            Seq::empty(),
            steps,
            Finding::Conflict(conflict),
            force,
            outdated,
        ));
    }
    match (at.source, at.target) {
        (JsonModel::Object(entries), Some(JsonModel::Object(others))) => {
            assert forall|key: Seq<char>| #[trigger] lookup(others, key) is Some implies lookup(
                entries,
                key,
            ) is Some by {
                let path = super::places::inside(at.path, key);
                assert(!leads_to(
                    ours,
                    theirs,
                    Seq::empty(),
                    steps,
                    Finding::Extra(path),
                    force,
                    outdated,
                ));
            }
        },
        (JsonModel::Array(list), Some(JsonModel::Array(others))) => {
            if others.len() > list.len() {
                let i: int = list.len() as int;
                let path = super::places::inside(at.path, crate::text::decimal(i as nat));
                assert(super::json_meaning::extra_inside(at, path));
                assert(!leads_to(
                    ours,
                    theirs,
                    Seq::empty(),
                    steps,
                    Finding::Extra(path),
                    force,
                    outdated,
                ));
            }
        },
        (JsonModel::Text(text), Some(JsonModel::Text(other))) => {
            if other.len() == 0 {
                assert(other =~= Seq::empty());
            }
        },
        _ => {},
    }
}

/// The comparison of two ARB catalogs shows a path, a conflict or a unit exactly where a key of
/// the source or of the target gives reason to.
#[verifier::rlimit(60)]
pub proof fn law_arb_report(
    outcome: Result<CatalogDiff, CatalogError>,
    source: Catalog,
    target: Option<&Catalog>,
    locale: Seq<char>,
    force: bool,
    outdated: Set<Seq<char>>,
)
    requires
        diff_outcome_is(outcome, source, target, locale, force, outdated),
        source.kind() is Arb,
        target is Some ==> target->0.kind() is Arb,
        valid_root(CatalogFormat::Arb, source.content()),
    ensures
        outcome is Ok,
        outcome->Ok_0.report.locale@ == locale,
        !outcome->Ok_0.report.baseline_missing,
        ({
            let ours = document(source.content());
            let theirs = target_document(optional_root_ref(target));
            let report = outcome->Ok_0.report;
            &&& forall|p: Seq<char>| #[trigger]
                texts(report.missing@).contains(p) <==> exists|i: int|
                    0 <= i < ours.len() && misses(ours, theirs, i, p)
            &&& forall|p: Seq<char>| #[trigger]
                texts(report.empty@).contains(p) <==> exists|i: int|
                    0 <= i < ours.len() && blanks(ours, theirs, i, p)
            &&& forall|p: Seq<char>| #[trigger]
                texts(report.outdated@).contains(p) <==> exists|i: int|
                    0 <= i < ours.len() && outdates(ours, theirs, force, outdated, i, p)
            &&& forall|p: Seq<char>| #[trigger]
                texts(report.changed@).contains(p) <==> (p == "/@@locale"@ && found_in(
                    theirs,
                    "@@locale"@,
                ) != Some(JsonModel::Text(locale))) || exists|i: int|
                    0 <= i < ours.len() && changes(ours, theirs, outdated, i, p)
            &&& forall|p: Seq<char>| #[trigger]
                texts(report.extra@).contains(p) <==> theirs is Some && exists|j: int|
                    0 <= j < theirs->0.len() && !names_global((#[trigger] theirs->0[j]).0)
                        && lookup(ours, theirs->0[j].0) is None && p == path_of(theirs->0[j].0)
            &&& forall|c: ConflictModel| #[trigger]
                conflict_models(report.conflicts@).contains(c) <==> exists|i: int|
                    0 <= i < ours.len() && clashes(ours, theirs, i, c)
            &&& forall|u: UnitModel| #[trigger]
                unit_models(outcome->Ok_0.units@).contains(u) <==> exists|i: int|
                    0 <= i < ours.len() && asks(ours, theirs, force, outdated, i, u)
        }),
{
    let ours = document(source.content());
    lemma_messages_are_texts(ours);
    assert forall|i: int| 0 <= i < ours.len() && names_message((#[trigger] ours[i]).0) implies ours[i].1 is Text by {
        assert(!super::arb::is_metadata(ours[i].0));
    }
    assert(keys(ours).no_duplicates());
    law_document_findings(
        ours,
        target_document(optional_root_ref(target)),
        locale,
        force,
        outdated,
    );
    let found = outcome->Ok_0.model();
    assert(found == super::messages::diff_document(
        ours,
        target_document(optional_root_ref(target)),
        locale,
        force,
        outdated,
    ));
    assert(found.missing == texts(outcome->Ok_0.report.missing@));
    assert(found.empty == texts(outcome->Ok_0.report.empty@));
    assert(found.outdated == texts(outcome->Ok_0.report.outdated@));
    assert(found.changed == texts(outcome->Ok_0.report.changed@));
    assert(found.extra == texts(outcome->Ok_0.report.extra@));
    assert(found.conflicts == conflict_models(outcome->Ok_0.report.conflicts@));
    assert(found.units == unit_models(outcome->Ok_0.units@));
}

/// Merging accepts a translation exactly for the name of a text of the source that is not empty.
#[verifier::rlimit(60)]
pub proof fn law_accepted_paths(format: CatalogFormat, source: JsonModel, path: Seq<char>)
    requires
        valid_root(format, source),
    ensures
        format is Json ==> (accepts(format, source, path) <==> exists|steps: Seq<int>, text: Seq<char>|
            #[trigger] leads_to_text(source, Seq::empty(), steps, path, text) && text.len() > 0),
        format is Arb ==> (accepts(format, source, path) <==> exists|i: int|
            0 <= i < document(source).len() && names_message((#[trigger] document(source)[i]).0)
                && path == path_of(document(source)[i].0) && document(source)[i].1->Text_0.len() > 0),
{
    match format {
        CatalogFormat::Json => {
            let leaves = text_leaves(source, Seq::empty());
            if translatable(leaves, path) {
                let i = choose|i: int|
                    0 <= i < leaves.len() && (#[trigger] leaves[i]).0 == path && leaves[i].1.len()
                        > 0;
                assert(leaves.contains((path, leaves[i].1)));
                law_texts_at(source, Seq::empty(), path, leaves[i].1);
                let steps = choose|steps: Seq<int>| #[trigger]
                    leads_to_text(source, Seq::empty(), steps, path, leaves[i].1);
                assert(leads_to_text(source, Seq::empty(), steps, path, leaves[i].1));
            }
            assert forall|steps: Seq<int>, text: Seq<char>| #[trigger]
                leads_to_text(source, Seq::empty(), steps, path, text) && text.len() > 0 implies translatable(
            leaves, path) by {
                law_texts_at(source, Seq::empty(), path, text);
                let i = leaves.index_of((path, text));
                assert(leaves[i].0 == path);
            }
        },
        CatalogFormat::Arb => {
            let ours = document(source);
            let leaves = message_leaves(ours, ours.len());
            lemma_messages_are_texts(ours);
            assert forall|i: int|
                0 <= i < ours.len() && names_message((#[trigger] ours[i]).0) implies ours[i].1 is Text by {
                assert(!super::arb::is_metadata(ours[i].0));
            }
            if translatable(leaves, path) {
                let i = choose|i: int|
                    0 <= i < leaves.len() && (#[trigger] leaves[i]).0 == path && leaves[i].1.len()
                        > 0;
                assert(leaves.contains((path, leaves[i].1)));
                law_messages_at(ours, ours.len(), path, leaves[i].1);
            }
            assert forall|i: int|
                0 <= i < ours.len() && names_message((#[trigger] ours[i]).0) && path == path_of(
                    ours[i].0,
                ) && ours[i].1->Text_0.len() > 0 implies translatable(leaves, path) by {
                let text = ours[i].1->Text_0;
                law_messages_at(ours, ours.len(), path, text);
                let j = leaves.index_of((path, text));
                assert(leaves[j].0 == path);
            }
        },
    }
}

/// The outcome of merging JSON catalogs. It is an error where source and target have different
/// types or a text has neither a translation nor a text in the target, and the error names such a
/// path; and where there is a translation for something that is no text of the source, or an empty
/// one. Otherwise the merged catalog has at every spot what merging makes of it.
#[verifier::rlimit(60)]
pub proof fn law_json_merge_outcome(
    outcome: Result<Catalog, CatalogError>,
    source: Catalog,
    target: Option<Catalog>,
    translations: Map<Seq<char>, Seq<char>>,
    locale: Seq<char>,
    steps: Seq<int>,
)
    requires
        merge_result_is(outcome, source, target, translations, locale),
        source.kind() is Json,
        target is Some ==> target->0.kind() is Json,
        valid_root(CatalogFormat::Json, source.content()),
    ensures
        ({
            let (ours, theirs) = (source.content(), optional_root(target));
            let hindered = |issue: MergeIssue|
                exists|steps: Seq<int>| #[trigger]
                    leads_to_issue(ours, theirs, Seq::empty(), steps, issue, translations);
            let known = |path: Seq<char>|
                exists|steps: Seq<int>, text: Seq<char>| #[trigger]
                    leads_to_text(ours, Seq::empty(), steps, path, text) && text.len() > 0;
            &&& outcome is Ok ==> {
                &&& forall|issue: MergeIssue| !#[trigger] hindered(issue)
                &&& forall|path: Seq<char>| #[trigger] translations.contains_key(path) ==> known(path)
                &&& outcome->Ok_0.kind() is Json
                &&& spot(ours, theirs, Seq::empty(), steps) is Some ==> {
                    let there = spot(ours, Some(outcome->Ok_0.content()), Seq::empty(), steps);
                    &&& there is Some
                    &&& there->0.target is Some
                    &&& merged_from(
                        spot(ours, theirs, Seq::empty(), steps)->0,
                        there->0.target->0,
                        translations,
                    )
                }
            }
            &&& outcome is Err ==> match outcome->Err_0 {
                CatalogError::MergeTypeConflict(path) => hindered(MergeIssue::Conflict(path@)),
                CatalogError::MissingTranslation(path) => hindered(MergeIssue::Missing(path@)),
                CatalogError::UnknownTranslation(path) => translations.contains_key(path@) && !known(
                    path@,
                ),
                _ => false,
            }
        }),
{
    let (ours, theirs) = (source.content(), optional_root(target));
    let issues = root_issues(CatalogFormat::Json, ours, theirs, translations);
    let hindered = |issue: MergeIssue|
        exists|steps: Seq<int>| #[trigger]
            leads_to_issue(ours, theirs, Seq::empty(), steps, issue, translations);
    assert forall|issue: MergeIssue| #[trigger] hindered(issue) <==> issues.contains(issue) by {
        law_merge_issues_at(ours, theirs, Seq::empty(), translations, issue);
    }
    if issues.len() > 0 {
        assert(issues.contains(issues[0]));
        assert(hindered(issues[0]));
    } else {
        assert forall|path: Seq<char>| #[trigger] accepts(CatalogFormat::Json, ours, path) <==> exists|
            steps: Seq<int>,
            text: Seq<char>,
        | #[trigger] leads_to_text(ours, Seq::empty(), steps, path, text) && text.len() > 0 by {
            law_accepted_paths(CatalogFormat::Json, ours, path);
        }
        if spot(ours, theirs, Seq::empty(), steps) is Some {
            law_merged_at(ours, theirs, Seq::empty(), translations, steps);
        }
    }
}

/// The outcome of merging ARB catalogs. It is an error where a message with a text has neither a
/// translation nor a text in the target, and the error names such a path; where there is a
/// translation for something that is no message or an empty one; and where the merged document is
/// not as it has to be. Otherwise the merged document has for every key: the language code that was
/// asked for; of what is said of the whole document what the target says, else the source; of what
/// is said of a message what the source says; and of a message nothing where it is empty, else the
/// translation, else the text of the target.
#[verifier::rlimit(60)]
pub proof fn law_arb_merge_outcome(
    outcome: Result<Catalog, CatalogError>,
    source: Catalog,
    target: Option<Catalog>,
    translations: Map<Seq<char>, Seq<char>>,
    locale: Seq<char>,
    key: Seq<char>,
)
    requires
        merge_result_is(outcome, source, target, translations, locale),
        source.kind() is Arb,
        target is Some ==> target->0.kind() is Arb,
        valid_root(CatalogFormat::Arb, source.content()),
        target is Some ==> valid_root(CatalogFormat::Arb, target->0.content()),
    ensures
        ({
            let (ours, theirs) = (document(source.content()), target_document(optional_root(target)));
            let lacking = |path: Seq<char>|
                exists|i: int| 0 <= i < ours.len() && lacks_text(ours, theirs, translations, i, path);
            let known = |path: Seq<char>|
                exists|i: int|
                    0 <= i < ours.len() && names_message((#[trigger] ours[i]).0) && path == path_of(
                        ours[i].0,
                    ) && ours[i].1->Text_0.len() > 0;
            let merged = lookup(document(outcome->Ok_0.content()), key);
            let found = found_in(theirs, key);
            &&& outcome is Ok ==> {
                &&& forall|path: Seq<char>| !#[trigger] lacking(path)
                &&& forall|path: Seq<char>| #[trigger] translations.contains_key(path) ==> known(path)
                &&& outcome->Ok_0.kind() is Arb
                &&& outcome->Ok_0.content() is Object
                &&& if key == "@@locale"@ {
                    merged == Some(JsonModel::Text(locale))
                } else if names_global(key) {
                    merged == (if found is Some {
                        found
                    } else {
                        lookup(ours, key)
                    })
                } else if names_message(key) {
                    match lookup(ours, key) {
                        None => merged is None,
                        Some(JsonModel::Text(text)) => if text.len() == 0 {
                            merged == Some(JsonModel::Text(text))
                        } else if translations.contains_key(path_of(key)) {
                            merged == Some(JsonModel::Text(translations[path_of(key)]))
                        } else {
                            merged == found && found is Some && found->0 is Text
                        },
                        _ => false,
                    }
                } else {
                    merged == lookup(ours, key)
                }
            }
            &&& outcome is Err ==> match outcome->Err_0 {
                CatalogError::MissingTranslation(path) => lacking(path@),
                CatalogError::UnknownTranslation(path) => translations.contains_key(path@) && !known(
                    path@,
                ),
                CatalogError::Arb(_) => true,
                _ => false,
            }
        }),
{
    let (ours, theirs) = (document(source.content()), target_document(optional_root(target)));
    let lacking = |path: Seq<char>|
        exists|i: int| 0 <= i < ours.len() && lacks_text(ours, theirs, translations, i, path);
    lemma_messages_are_texts(ours);
    assert forall|i: int| 0 <= i < ours.len() && names_message((#[trigger] ours[i]).0) implies ours[i].1 is Text by {
        assert(!super::arb::is_metadata(ours[i].0));
    }
    assert(keys(ours).no_duplicates());
    let textless = textless_messages(ours, theirs, translations, ours.len());
    let issues = root_issues(CatalogFormat::Arb, source.content(), optional_root(target), translations);
    assert(issues.len() == textless.len());
    assert forall|path: Seq<char>| #[trigger] lacking(path) <==> textless.contains(path) by {
        law_textless_messages(ours, theirs, translations, ours.len(), path);
    }
    if textless.len() > 0 {
        assert(issues[0] == MergeIssue::Missing(textless[0]));
        assert(textless.contains(textless[0]));
        assert(lacking(textless[0]));
    } else {
        assert forall|path: Seq<char>| #[trigger]
            accepts(CatalogFormat::Arb, source.content(), path) <==> exists|i: int|
                0 <= i < ours.len() && names_message((#[trigger] ours[i]).0) && path == path_of(
                    ours[i].0,
                ) && ours[i].1->Text_0.len() > 0 by {
            law_accepted_paths(CatalogFormat::Arb, source.content(), path);
        }
        law_merged_values(ours, theirs, translations, locale, key);
        if names_message(key) && lookup(ours, key) is Some {
            let i = crate::value::lemma_lookup_position(ours, key);
            assert(ours[i].0 == key && ours[i].1 is Text);
            assert(!lacking(path_of(key)));
            assert(!lacks_text(ours, theirs, translations, i, path_of(key)));
        }
    }
}

proof fn lemma_entries_map(entries: Seq<(Seq<char>, Seq<char>)>)
    requires
        forall|i: int, j: int|
            0 <= i < entries.len() && 0 <= j < entries.len() && (#[trigger] entries[i]).0
                == (#[trigger] entries[j]).0 ==> entries[i].1 == entries[j].1,
    ensures
        forall|k: Seq<char>, v: Seq<char>| #[trigger]
            entries.contains((k, v)) ==> entries_map(entries).contains_key(k) && entries_map(
                entries,
            )[k] == v,
        forall|k: Seq<char>| #[trigger]
            entries_map(entries).contains_key(k) ==> entries.contains((k, entries_map(entries)[k])),
    decreases entries.len(),
{
    if entries.len() > 0 {
        let (before, last) = (entries.drop_last(), entries.last());
        let (n, map) = (entries.len() - 1, entries_map(entries));
        assert forall|i: int, j: int|
            0 <= i < before.len() && 0 <= j < before.len() && (#[trigger] before[i]).0
                == (#[trigger] before[j]).0 implies before[i].1 == before[j].1 by {
            assert(before[i] == entries[i] && before[j] == entries[j]);
        }
        lemma_entries_map(before);
        assert forall|k: Seq<char>, v: Seq<char>| #[trigger] entries.contains((k, v)) implies map.contains_key(
            k,
        ) && map[k] == v by {
            let i = entries.index_of((k, v));
            assert(entries[i].0 == k && entries[n] == last);
            if k != last.0 {
                assert(before[i] == (k, v));
                assert(before.contains((k, v)));
            }
        }
        assert forall|k: Seq<char>| #[trigger] map.contains_key(k) implies entries.contains(
            (k, map[k]),
        ) by {
            if k == last.0 {
                assert(entries[n] == (k, map[k]));
            } else {
                assert(entries_map(before).contains_key(k));
                assert(entries_map(before)[k] == map[k]);
                assert(before.contains((k, map[k])));
                let i = before.index_of((k, map[k]));
                assert(entries[i] == (k, map[k]));
            }
        }
    }
}

/// The fingerprints of a JSON source are those of its texts, by their names.
pub proof fn law_json_fingerprints(source: JsonModel, path: Seq<char>)
    requires
        valid_root(CatalogFormat::Json, source),
    ensures
        ({
            let map = entries_map(fingerprint_entries(CatalogFormat::Json, source));
            &&& forall|steps: Seq<int>, text: Seq<char>| #[trigger]
                leads_to_text(source, Seq::empty(), steps, path, text) ==> map.contains_key(path)
                    && map[path] == fingerprint_text(
                    CatalogFormat::Json,
                    text,
                    None,
                    Seq::empty(),
                )
            &&& map.contains_key(path) ==> exists|steps: Seq<int>, text: Seq<char>| #[trigger]
                leads_to_text(source, Seq::empty(), steps, path, text)
        }),
{
    let leaves = text_leaves(source, Seq::empty());
    let entries = fingerprint_entries(CatalogFormat::Json, source);
    let map = entries_map(entries);
    law_leaf_paths_distinct(source, Seq::empty());
    assert forall|i: int, j: int|
        0 <= i < entries.len() && 0 <= j < entries.len() && (#[trigger] entries[i]).0
            == (#[trigger] entries[j]).0 implies entries[i].1 == entries[j].1 by {
        assert(entries[i].0 == leaves[i].0 && entries[j].0 == leaves[j].0);
        if i < j {
            assert(leaves[i].0 != leaves[j].0);
        } else if j < i {
            assert(leaves[j].0 != leaves[i].0);
        }
    }
    lemma_entries_map(entries);
    assert forall|steps: Seq<int>, text: Seq<char>| #[trigger]
        leads_to_text(source, Seq::empty(), steps, path, text) implies map.contains_key(path)
        && map[path] == fingerprint_text(CatalogFormat::Json, text, None, Seq::empty()) by {
        law_texts_at(source, Seq::empty(), path, text);
        let i = leaves.index_of((path, text));
        let print = fingerprint_text(CatalogFormat::Json, text, None, Seq::empty());
        assert(leaves[i] == (path, text));
        assert(entries[i] == (path, print));
        assert(entries.contains((path, print)));
    }
    if map.contains_key(path) {
        assert(entries.contains((path, map[path])));
        let i = entries.index_of((path, map[path]));
        assert(entries[i].0 == leaves[i].0);
        assert(leaves.contains((path, leaves[i].1)));
        law_texts_at(source, Seq::empty(), path, leaves[i].1);
        let steps = choose|steps: Seq<int>| #[trigger]
            leads_to_text(source, Seq::empty(), steps, path, leaves[i].1);
        assert(leads_to_text(source, Seq::empty(), steps, path, leaves[i].1));
    }
}

/// The fingerprints of an ARB source are those of its messages, by their paths: each of the text
/// and of what the metadata says of it.
#[verifier::rlimit(60)]
pub proof fn law_arb_fingerprints(source: JsonModel, path: Seq<char>)
    requires
        valid_root(CatalogFormat::Arb, source),
    ensures
        ({
            let ours = document(source);
            let map = entries_map(fingerprint_entries(CatalogFormat::Arb, source));
            &&& forall|i: int|
                0 <= i < ours.len() && names_message((#[trigger] ours[i]).0) && path == path_of(
                    ours[i].0,
                ) ==> map.contains_key(path) && map[path] == fingerprint_text(
                    CatalogFormat::Arb,
                    ours[i].1->Text_0,
                    described(ours, ours[i].0),
                    named(ours, ours[i].0),
                )
            &&& map.contains_key(path) ==> exists|i: int|
                0 <= i < ours.len() && names_message((#[trigger] ours[i]).0) && path == path_of(
                    ours[i].0,
                )
        }),
{
    let ours = document(source);
    let entries = fingerprint_entries(CatalogFormat::Arb, source);
    let map = entries_map(entries);
    assert(keys(ours).no_duplicates());
    assert forall|i: int, j: int|
        0 <= i < entries.len() && 0 <= j < entries.len() && (#[trigger] entries[i]).0
            == (#[trigger] entries[j]).0 implies entries[i].1 == entries[j].1 by {
        assert(entries.contains(entries[i]) && entries.contains(entries[j]));
        law_message_fingerprints(ours, ours.len(), entries[i].0, entries[i].1);
        law_message_fingerprints(ours, ours.len(), entries[j].0, entries[j].1);
        let a = choose|a: int|
            0 <= a < ours.len() && names_message((#[trigger] ours[a]).0) && entries[i].0 == path_of(
                ours[a].0,
            ) && entries[i].1 == fingerprint_text(
                CatalogFormat::Arb,
                ours[a].1->Text_0,
                described(ours, ours[a].0),
                named(ours, ours[a].0),
            );
        let b = choose|b: int|
            0 <= b < ours.len() && names_message((#[trigger] ours[b]).0) && entries[j].0 == path_of(
                ours[b].0,
            ) && entries[j].1 == fingerprint_text(
                CatalogFormat::Arb,
                ours[b].1->Text_0,
                described(ours, ours[b].0),
                named(ours, ours[b].0),
            );
        law_paths(Seq::empty(), ours[a].0);
        law_paths(Seq::empty(), ours[b].0);
        if a < b {
            law_message_paths_distinct(ours, a, b);
        } else if b < a {
            law_message_paths_distinct(ours, b, a);
        }
    }
    lemma_entries_map(entries);
    assert forall|i: int|
        0 <= i < ours.len() && names_message((#[trigger] ours[i]).0) && path == path_of(
            ours[i].0,
        ) implies map.contains_key(path) && map[path] == fingerprint_text(
        CatalogFormat::Arb,
        ours[i].1->Text_0,
        described(ours, ours[i].0),
        named(ours, ours[i].0),
    ) by {
        let print = fingerprint_text(
            CatalogFormat::Arb,
            ours[i].1->Text_0,
            described(ours, ours[i].0),
            named(ours, ours[i].0),
        );
        law_message_fingerprints(ours, ours.len(), path, print);
        assert(entries.contains((path, print)));
    }
    if map.contains_key(path) {
        assert(entries.contains((path, map[path])));
        law_message_fingerprints(ours, ours.len(), path, map[path]);
    }
}

/// The existing translations of an ARB target are accepted exactly where each that is not empty
/// and not to be passed over is one of its message.
pub proof fn law_existing_accepted(
    outcome: Result<(), CatalogError>,
    source: Catalog,
    target: Catalog,
    ignored: Set<Seq<char>>,
)
    requires
        existing_outcome_is(outcome, source, target, ignored),
        source.kind() == target.kind(),
    ensures
        source.kind() is Json ==> outcome is Ok,
        source.kind() is Arb ==> (outcome is Ok <==> forall|i: int|
            0 <= i < document(source.content()).len() ==> #[trigger] existing_fine(
                document(source.content()),
                document(target.content()),
                ignored,
                i,
            )),
{
    let (ours, theirs) = (document(source.content()), document(target.content()));
    lemma_existing_fine(ours, theirs, ignored, ours.len());
}

/// Whether the existing translation of a message, where it has one that is not empty and is not to
/// be passed over, is one.
pub open spec fn existing_fine(
    source: Seq<(Seq<char>, JsonModel)>,
    target: Seq<(Seq<char>, JsonModel)>,
    ignored: Set<Seq<char>>,
    at: int,
) -> bool {
    let (key, value) = source[at];
    names_message(key) && !ignored.contains(path_of(key)) ==> match lookup(target, key) {
        Some(JsonModel::Text(text)) => text.len() > 0 ==> read_result(value->Text_0) is Ok
            && read_result(text) is Ok && fit(
            read_result(value->Text_0)->Ok_0,
            read_result(text)->Ok_0,
        ),
        _ => true,
    }
}

/// The existing translations of the first messages are fine where nothing is wrong with them.
pub proof fn lemma_existing_fine(
    source: Seq<(Seq<char>, JsonModel)>,
    target: Seq<(Seq<char>, JsonModel)>,
    ignored: Set<Seq<char>>,
    count: nat,
)
    requires
        count <= source.len(),
    ensures
        existing_issue(source, target, ignored, count) is None <==> forall|i: int|
            0 <= i < count ==> #[trigger] existing_fine(source, target, ignored, i),
    decreases count,
{
    if count > 0 {
        let at = count - 1;
        let (key, value) = source[at];
        lemma_existing_fine(source, target, ignored, at as nat);
        law_paths(Seq::empty(), key);
        let found = lookup(target, key);
        if found is Some && found->0 is Text {
            law_translation_accepted(key, value->Text_0, found->0->Text_0);
        }
        assert(existing_fine(source, target, ignored, at) <==> super::message_existing_issue(
            source,
            target,
            ignored,
            at,
        ) is None);
    }
}

/// A translation of a unit is accepted exactly where it is not empty and, for an ARB message, is
/// one of the message.
pub proof fn law_unit_translation_accepted(
    outcome: Result<(), CatalogError>,
    unit: UnitModel,
    translation: Seq<char>,
)
    requires
        translation_outcome_is(outcome, unit, translation),
    ensures
        outcome is Ok <==> translation.len() > 0 && (unit.kind is Arb ==> read_result(
            unit.source,
        ) is Ok && read_result(translation) is Ok && fit(
            read_result(unit.source)->Ok_0,
            read_result(translation)->Ok_0,
        )),
{
    law_translation_accepted(without_slashes(unit.path), unit.source, translation);
}

} // verus!
