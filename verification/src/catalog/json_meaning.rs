//! What comparing and merging JSON catalogs mean for each place in them.
use crate::text::decimal;
use crate::value::{
    has_key, keys, lemma_lookup_position, lemma_present, lookup, well_formed, JsonModel,
};
use super::json::{
    child, child_count, child_issues, child_leaves, child_segment, counterpart, diff_children,
    diff_leaf, diff_value, extra_children, extra_members, merge_issues, merged_value, text_leaves,
    MergeIssue,
};
use super::json_laws::{lemma_child_well_formed, lemma_merged_counterpart};
use super::{kind_name, same_kind, ConflictModel, DiffModel, TranslationKind, UnitModel};
use super::places::{
    alike, equal_numbers, in_order, inside, is_due, is_outdated, json_type, law_paths,
    lemma_contains_joined, lemma_in_order_ends, lemma_in_order_joined, lemma_single, path_name,
    spot, Spot,
};
use super::pointer::child_path;
use vstd::prelude::*;

verus! {

/// Something that a comparison reports or asks for.
pub enum Finding {
    Missing(Seq<char>),
    Empty(Seq<char>),
    Outdated(Seq<char>),
    Changed(Seq<char>),
    Extra(Seq<char>),
    Conflict(ConflictModel),
    Unit(UnitModel),
}

/// Whether a comparison lists a finding.
pub open spec fn lists(found: DiffModel, finding: Finding) -> bool {
    match finding {
        Finding::Missing(path) => found.missing.contains(path),
        Finding::Empty(path) => found.empty.contains(path),
        Finding::Outdated(path) => found.outdated.contains(path),
        Finding::Changed(path) => found.changed.contains(path),
        Finding::Extra(path) => found.extra.contains(path),
        Finding::Conflict(conflict) => found.conflicts.contains(conflict),
        Finding::Unit(unit) => found.units.contains(unit),
    }
}

/// Whether the target has something inside a spot that the source does not have: a key that is
/// not a key of the source, or an item beyond the last of the source.
pub open spec fn extra_inside(at: Spot, path: Seq<char>) -> bool {
    match (at.source, at.target) {
        (JsonModel::Object(entries), Some(JsonModel::Object(others))) => exists|key: Seq<char>|
            #[trigger] lookup(others, key) is Some && lookup(entries, key) is None && path == inside(
                at.path,
                key,
            ),
        (JsonModel::Array(list), Some(JsonModel::Array(others))) => exists|i: int|
            list.len() <= i < others.len() && path == inside(at.path, #[trigger] decimal(i as nat)),
        _ => false,
    }
}

/// Whether a spot gives reason for a finding.
pub open spec fn gives(at: Spot, finding: Finding, force: bool, outdated: Set<Seq<char>>) -> bool {
    let name = path_name(at.path);
    match finding {
        Finding::Missing(path) => path == name && at.target is None && !(at.source is Array) && !(
        at.source is Object),
        Finding::Empty(path) => path == name && at.source is Text && at.source->Text_0.len() > 0
            && at.target == Some(JsonModel::Text(Seq::empty())),
        Finding::Outdated(path) => path == name && at.source is Text && is_outdated(
            at.source->Text_0,
            at.target,
            name,
            force,
            outdated,
        ),
        Finding::Changed(path) => path == name && match (at.source, at.target) {
            (JsonModel::Text(text), Some(JsonModel::Text(other))) => text.len() == 0 && other.len()
                > 0 && !outdated.contains(name),
            (JsonModel::Bool(flag), Some(JsonModel::Bool(other))) => flag != other,
            (JsonModel::Number(number), Some(JsonModel::Number(other))) => !equal_numbers(
                other,
                number,
            ),
            _ => false,
        },
        Finding::Extra(path) => extra_inside(at, path),
        Finding::Conflict(conflict) => at.target is Some && !alike(at.source, at.target->0)
            && conflict.path == name && conflict.source_type == json_type(at.source)
            && conflict.target_type == json_type(at.target->0),
        Finding::Unit(unit) => at.source is Text && at.source->Text_0.len() > 0 && is_due(
            at.target,
            name,
            force,
            outdated,
        ) && unit.path == name && unit.source == at.source->Text_0 && unit.description is None
            && unit.placeholders.len() == 0 && unit.kind == TranslationKind::Json,
    }
}

/// Whether steps lead to a spot that gives reason for a finding.
pub open spec fn leads_to(
    source: JsonModel,
    target: Option<JsonModel>,
    path: Seq<char>,
    steps: Seq<int>,
    finding: Finding,
    force: bool,
    outdated: Set<Seq<char>>,
) -> bool {
    match spot(source, target, path, steps) {
        Some(found) => gives(found, finding, force, outdated),
        None => false,
    }
}

proof fn lemma_lists_joined(a: DiffModel, b: DiffModel, finding: Finding)
    ensures
        lists(a.join(b), finding) <==> lists(a, finding) || lists(b, finding),
{
    match finding {
        Finding::Missing(p) => lemma_contains_joined(a.missing, b.missing, p),
        Finding::Empty(p) => lemma_contains_joined(a.empty, b.empty, p),
        Finding::Outdated(p) => lemma_contains_joined(a.outdated, b.outdated, p),
        Finding::Changed(p) => lemma_contains_joined(a.changed, b.changed, p),
        Finding::Extra(p) => lemma_contains_joined(a.extra, b.extra, p),
        Finding::Conflict(c) => lemma_contains_joined(a.conflicts, b.conflicts, c),
        Finding::Unit(u) => lemma_contains_joined(a.units, b.units, u),
    }
}

proof fn lemma_kinds(a: JsonModel, b: JsonModel)
    ensures
        same_kind(a, b) <==> alike(a, b),
        kind_name(a) == json_type(a),
{
}

#[verifier::rlimit(60)]
proof fn lemma_leaf_gives(
    source: JsonModel,
    target: Option<JsonModel>,
    path: Seq<char>,
    force: bool,
    outdated: Set<Seq<char>>,
    finding: Finding,
)
    requires
        !(source is Array),
        !(source is Object),
        target is Some ==> alike(source, target->0),
    ensures
        lists(diff_leaf(source, target, path, force, outdated), finding) <==> gives(
            (Spot { source, target, path }),
            finding,
            force,
            outdated,
        ),
{
    law_paths(path, path);
    let name = path_name(path);
    let found = diff_leaf(source, target, path, force, outdated);
    let empty = Seq::<Seq<char>>::empty();
    assert(empty + seq![name] =~= seq![name]);
    assert(seq![name] + empty =~= seq![name]);
    assert(empty + empty =~= empty);
    assert(Seq::<ConflictModel>::empty() + Seq::<ConflictModel>::empty()
        =~= Seq::<ConflictModel>::empty());
    if target is Some && target->0 is Text && target->0->Text_0.len() == 0 {
        assert(target->0->Text_0 =~= Seq::empty());
    }
    match finding {
        Finding::Missing(p) => lemma_single(name, p),
        Finding::Empty(p) => lemma_single(name, p),
        Finding::Outdated(p) => lemma_single(name, p),
        Finding::Changed(p) => lemma_single(name, p),
        Finding::Unit(u) => {
            if source is Text {
                let units = super::json::json_units(source->Text_0, name);
                assert(Seq::<UnitModel>::empty() + units =~= units);
                if source->Text_0.len() > 0 {
                    lemma_single(units[0], u);
                    if u.placeholders.len() == 0 {
                        assert(u.placeholders =~= Seq::empty());
                    }
                    if gives(Spot { source, target, path }, finding, force, outdated) {
                        assert(u =~= units[0]);
                    }
                }
            }
        },
        _ => {},
    }
}

proof fn lemma_extra_members(
    source: Seq<(Seq<char>, JsonModel)>,
    target: Seq<(Seq<char>, JsonModel)>,
    path: Seq<char>,
    p: Seq<char>,
)
    ensures
        extra_members(source, target, path).contains(p) <==> exists|j: int|
            0 <= j < target.len() && lookup(source, (#[trigger] target[j]).0) is None && p == inside(
                path,
                target[j].0,
            ),
    decreases target.len(),
{
    reveal(Seq::filter);
    let extra = |entry: (Seq<char>, JsonModel)| !has_key(source, entry.0);
    let show = |entry: (Seq<char>, JsonModel)| child_path(path, entry.0);
    if target.len() > 0 {
        let (before, last) = (target.drop_last(), target.last());
        lemma_extra_members(source, before, path, p);
        law_paths(path, last.0);
        let shorter = extra_members(source, before, path);
        if extra(last) {
            assert(extra_members(source, target, path) =~= shorter + seq![show(last)]);
            lemma_contains_joined(shorter, seq![show(last)], p);
            lemma_single(show(last), p);
        } else {
            assert(extra_members(source, target, path) =~= shorter);
        }
        if shorter.contains(p) {
            let j = choose|j: int|
                0 <= j < before.len() && lookup(source, (#[trigger] before[j]).0) is None && p
                    == inside(path, before[j].0);
            assert(target[j] == before[j]);
        }
        assert forall|j: int|
            0 <= j < target.len() && lookup(source, (#[trigger] target[j]).0) is None && p == inside(
                path,
                target[j].0,
            ) implies extra_members(source, target, path).contains(p) by {
            if j < before.len() {
                assert(before[j] == target[j]);
            }
        }
        if extra(last) && p == show(last) {
            assert(target[target.len() - 1] == last);
        }
    }
}

proof fn lemma_extra_gives(
    source: JsonModel,
    target: Option<JsonModel>,
    path: Seq<char>,
    p: Seq<char>,
)
    requires
        source is Array || source is Object,
    ensures
        extra_children(source, target, path).contains(p) <==> extra_inside(
            (Spot { source, target, path }),
            p,
        ),
{
    let at = Spot { source, target, path };
    let extra = extra_children(source, target, path);
    match (source, target) {
        (JsonModel::Object(entries), Some(JsonModel::Object(others))) => {
            lemma_extra_members(entries, others, path, p);
            if extra.contains(p) {
                let j = choose|j: int|
                    0 <= j < others.len() && lookup(entries, (#[trigger] others[j]).0) is None && p
                        == inside(path, others[j].0);
                lemma_present(others, others[j].0, j);
                assert(lookup(others, others[j].0) is Some);
            }
            if extra_inside(at, p) {
                let key = choose|key: Seq<char>| #[trigger]
                    lookup(others, key) is Some && lookup(entries, key) is None && p == inside(
                        path,
                        key,
                    );
                let j = lemma_lookup_position(others, key);
                assert(others[j].0 == key);
            }
        },
        (JsonModel::Array(list), Some(JsonModel::Array(others))) => {
            if extra.contains(p) {
                let j = extra.index_of(p);
                law_paths(path, decimal((list.len() + j) as nat));
                assert(p == inside(path, decimal((list.len() + j) as nat)));
            }
            if extra_inside(at, p) {
                let i = choose|i: int|
                    list.len() <= i < others.len() && p == inside(path, #[trigger] decimal(i as nat));
                law_paths(path, decimal(i as nat));
                assert(extra[i - list.len()] == p);
            }
        },
        _ => {},
    }
}

/// The spot inside a child is a spot inside the value.
proof fn lemma_spot_inside(
    source: JsonModel,
    target: Option<JsonModel>,
    path: Seq<char>,
    at: int,
    rest: Seq<int>,
)
    requires
        source is Array || source is Object,
        0 <= at < child_count(source),
        target is Some ==> alike(source, target->0),
    ensures
        spot(source, target, path, seq![at] + rest) == spot(
            child(source, at),
            counterpart(source, target, at),
            child_path(path, child_segment(source, at)),
            rest,
        ),
{
    law_paths(path, child_segment(source, at));
    let steps = seq![at] + rest;
    assert(steps[0] == at);
    assert(steps.drop_first() =~= rest);
}

/// A comparison lists a finding exactly where a spot gives reason for it.
#[verifier::rlimit(60)]
pub proof fn law_findings_at(
    source: JsonModel,
    target: Option<JsonModel>,
    path: Seq<char>,
    force: bool,
    outdated: Set<Seq<char>>,
    finding: Finding,
)
    ensures
        lists(diff_value(source, target, path, force, outdated), finding) <==> exists|steps: Seq<int>|
            #[trigger] leads_to(source, target, path, steps, finding, force, outdated),
    decreases source, child_count(source) + 1,
{
    law_paths(path, path);
    let here = Spot { source, target, path };
    let none = Seq::<int>::empty();
    assert(spot(source, target, path, none) == Some(here));
    assert(leads_to(source, target, path, none, finding, force, outdated) <==> gives(
        here,
        finding,
        force,
        outdated,
    ));
    let found = diff_value(source, target, path, force, outdated);
    if target is Some {
        lemma_kinds(source, target->0);
        lemma_kinds(target->0, source);
    }
    if target is Some && !alike(source, target->0) {
        assert forall|steps: Seq<int>| #[trigger]
            leads_to(source, target, path, steps, finding, force, outdated) implies steps =~= none by {}
        if let Finding::Conflict(c) = finding {
            let made = ConflictModel {
                path: path_name(path),
                source_type: json_type(source),
                target_type: json_type(target->0),
            };
            lemma_single(made, c);
            if gives(here, finding, force, outdated) {
                assert(c =~= made);
            }
        }
    } else if source is Array || source is Object {
        let inner = diff_children(source, target, path, force, outdated, child_count(source));
        let extra = DiffModel::extras(extra_children(source, target, path));
        lemma_children_findings(
            source,
            target,
            path,
            force,
            outdated,
            finding,
            child_count(source),
        );
        lemma_lists_joined(inner, extra, finding);
        if let Finding::Extra(p) = finding {
            lemma_extra_gives(source, target, path, p);
        }
        assert(lists(extra, finding) <==> gives(here, finding, force, outdated));
        if lists(inner, finding) {
            let (at, rest) = choose|at: int, rest: Seq<int>|
                0 <= at < child_count(source) && #[trigger] leads_to(
                    source,
                    target,
                    path,
                    seq![at] + rest,
                    finding,
                    force,
                    outdated,
                );
            assert(leads_to(source, target, path, seq![at] + rest, finding, force, outdated));
        }
        assert forall|steps: Seq<int>| #[trigger]
            leads_to(source, target, path, steps, finding, force, outdated) implies lists(
            found,
            finding,
        ) by {
            if steps.len() == 0 {
                assert(steps =~= none);
            } else {
                let rest = steps.drop_first();
                assert(steps =~= seq![steps[0]] + rest);
                assert(0 <= steps[0] < child_count(source));
                assert(leads_to(
                    source,
                    target,
                    path,
                    seq![steps[0]] + rest,
                    finding,
                    force,
                    outdated,
                ));
            }
        }
    } else {
        lemma_leaf_gives(source, target, path, force, outdated, finding);
        assert forall|steps: Seq<int>| #[trigger]
            leads_to(source, target, path, steps, finding, force, outdated) implies steps =~= none by {}
    }
}

#[verifier::rlimit(60)]
proof fn lemma_children_findings(
    source: JsonModel,
    target: Option<JsonModel>,
    path: Seq<char>,
    force: bool,
    outdated: Set<Seq<char>>,
    finding: Finding,
    count: nat,
)
    requires
        source is Array || source is Object,
        count <= child_count(source),
        target is Some ==> alike(source, target->0),
    ensures
        lists(diff_children(source, target, path, force, outdated, count), finding) <==> exists|
            at: int,
            rest: Seq<int>,
        |
            0 <= at < count && #[trigger] leads_to(
                source,
                target,
                path,
                seq![at] + rest,
                finding,
                force,
                outdated,
            ),
    decreases source, count,
{
    if count > 0 {
        let last = count - 1;
        let before = diff_children(source, target, path, force, outdated, last as nat);
        let (value, other) = (child(source, last), counterpart(source, target, last));
        let inner = child_path(path, child_segment(source, last));
        let step = diff_value(value, other, inner, force, outdated);
        lemma_children_findings(source, target, path, force, outdated, finding, last as nat);
        law_findings_at(value, other, inner, force, outdated, finding);
        lemma_lists_joined(before, step, finding);
        let found = diff_children(source, target, path, force, outdated, count);
        assert(found == before.join(step));
        assert forall|rest: Seq<int>|
            leads_to(value, other, inner, rest, finding, force, outdated) <==> #[trigger] leads_to(
                source,
                target,
                path,
                seq![last] + rest,
                finding,
                force,
                outdated,
            ) by {
            lemma_spot_inside(source, target, path, last, rest);
        }
        if lists(step, finding) {
            let rest = choose|rest: Seq<int>| #[trigger]
                leads_to(value, other, inner, rest, finding, force, outdated);
            assert(leads_to(source, target, path, seq![last] + rest, finding, force, outdated));
        }
        assert forall|at: int, rest: Seq<int>|
            0 <= at < count && #[trigger] leads_to(
                source,
                target,
                path,
                seq![at] + rest,
                finding,
                force,
                outdated,
            ) implies lists(found, finding) by {
            if at == last {
                assert(leads_to(value, other, inner, rest, finding, force, outdated));
            }
        }
        if lists(before, finding) {
            let (at, rest) = choose|at: int, rest: Seq<int>|
                0 <= at < last && #[trigger] leads_to(
                    source,
                    target,
                    path,
                    seq![at] + rest,
                    finding,
                    force,
                    outdated,
                );
            assert(0 <= at < count && leads_to(
                source,
                target,
                path,
                seq![at] + rest,
                finding,
                force,
                outdated,
            ));
        }
    }
}

/// Whether a spot stands in the way of merging.
pub open spec fn hinders(
    at: Spot,
    issue: MergeIssue,
    translations: Map<Seq<char>, Seq<char>>,
) -> bool {
    let name = path_name(at.path);
    match issue {
        MergeIssue::Conflict(path) => path == name && at.target is Some && !alike(
            at.source,
            at.target->0,
        ),
        MergeIssue::Missing(path) => path == name && at.source is Text && at.source->Text_0.len() > 0
            && at.target is None && !translations.contains_key(name),
    }
}

/// Whether steps lead to a spot that stands in the way of merging.
pub open spec fn leads_to_issue(
    source: JsonModel,
    target: Option<JsonModel>,
    path: Seq<char>,
    steps: Seq<int>,
    issue: MergeIssue,
    translations: Map<Seq<char>, Seq<char>>,
) -> bool {
    match spot(source, target, path, steps) {
        Some(found) => hinders(found, issue, translations),
        None => false,
    }
}

/// What stands in the way of merging are exactly the spots where source and target have different
/// types, and the texts that have neither a translation nor a text in the target.
#[verifier::rlimit(60)]
pub proof fn law_merge_issues_at(
    source: JsonModel,
    target: Option<JsonModel>,
    path: Seq<char>,
    translations: Map<Seq<char>, Seq<char>>,
    issue: MergeIssue,
)
    ensures
        merge_issues(source, target, path, translations).contains(issue) <==> exists|
            steps: Seq<int>,
        | #[trigger]
            leads_to_issue(source, target, path, steps, issue, translations),
    decreases source, child_count(source) + 1,
{
    law_paths(path, path);
    let here = Spot { source, target, path };
    let none = Seq::<int>::empty();
    let issues = merge_issues(source, target, path, translations);
    assert(spot(source, target, path, none) == Some(here));
    assert(leads_to_issue(source, target, path, none, issue, translations) <==> hinders(
        here,
        issue,
        translations,
    ));
    if target is Some {
        lemma_kinds(source, target->0);
    }
    if target is Some && !alike(source, target->0) {
        assert forall|steps: Seq<int>| #[trigger]
            leads_to_issue(source, target, path, steps, issue, translations) implies steps =~= none by {}
        lemma_single(MergeIssue::Conflict(path_name(path)), issue);
    } else if source is Array || source is Object {
        lemma_child_issues_at(source, target, path, translations, issue, child_count(source));
        if issues.contains(issue) {
            let (at, rest) = choose|at: int, rest: Seq<int>|
                0 <= at < child_count(source) && #[trigger] leads_to_issue(
                    source,
                    target,
                    path,
                    seq![at] + rest,
                    issue,
                    translations,
                );
            assert(leads_to_issue(source, target, path, seq![at] + rest, issue, translations));
        }
        assert forall|steps: Seq<int>| #[trigger]
            leads_to_issue(source, target, path, steps, issue, translations) implies issues.contains(
            issue,
        ) by {
            if steps.len() == 0 {
                assert(steps =~= none);
            } else {
                let rest = steps.drop_first();
                assert(steps =~= seq![steps[0]] + rest);
                assert(0 <= steps[0] < child_count(source));
                assert(leads_to_issue(
                    source,
                    target,
                    path,
                    seq![steps[0]] + rest,
                    issue,
                    translations,
                ));
            }
        }
    } else {
        assert forall|steps: Seq<int>| #[trigger]
            leads_to_issue(source, target, path, steps, issue, translations) implies steps =~= none by {}
        lemma_single(MergeIssue::Missing(path_name(path)), issue);
    }
}

proof fn lemma_child_issues_at(
    source: JsonModel,
    target: Option<JsonModel>,
    path: Seq<char>,
    translations: Map<Seq<char>, Seq<char>>,
    issue: MergeIssue,
    count: nat,
)
    requires
        source is Array || source is Object,
        count <= child_count(source),
        target is Some ==> alike(source, target->0),
    ensures
        child_issues(source, target, path, translations, count).contains(issue) <==> exists|
            at: int,
            rest: Seq<int>,
        |
            0 <= at < count && #[trigger] leads_to_issue(
                source,
                target,
                path,
                seq![at] + rest,
                issue,
                translations,
            ),
    decreases source, count,
{
    if count > 0 {
        let last = count - 1;
        let before = child_issues(source, target, path, translations, last as nat);
        let (value, other) = (child(source, last), counterpart(source, target, last));
        let inner = child_path(path, child_segment(source, last));
        let step = merge_issues(value, other, inner, translations);
        let found = child_issues(source, target, path, translations, count);
        lemma_child_issues_at(source, target, path, translations, issue, last as nat);
        law_merge_issues_at(value, other, inner, translations, issue);
        lemma_contains_joined(before, step, issue);
        assert(found == before + step);
        assert forall|rest: Seq<int>|
            leads_to_issue(value, other, inner, rest, issue, translations)
                <==> #[trigger] leads_to_issue(
                source,
                target,
                path,
                seq![last] + rest,
                issue,
                translations,
            ) by {
            lemma_spot_inside(source, target, path, last, rest);
        }
        if step.contains(issue) {
            let rest = choose|rest: Seq<int>| #[trigger]
                leads_to_issue(value, other, inner, rest, issue, translations);
            assert(leads_to_issue(source, target, path, seq![last] + rest, issue, translations));
        }
        if before.contains(issue) {
            let (at, rest) = choose|at: int, rest: Seq<int>|
                0 <= at < last && #[trigger] leads_to_issue(
                    source,
                    target,
                    path,
                    seq![at] + rest,
                    issue,
                    translations,
                );
            assert(0 <= at < count && leads_to_issue(
                source,
                target,
                path,
                seq![at] + rest,
                issue,
                translations,
            ));
        }
        assert forall|at: int, rest: Seq<int>|
            0 <= at < count && #[trigger] leads_to_issue(
                source,
                target,
                path,
                seq![at] + rest,
                issue,
                translations,
            ) implies found.contains(issue) by {
            if at == last {
                assert(leads_to_issue(value, other, inner, rest, issue, translations));
            }
        }
    }
}

/// Whether a value is what merging makes of a spot: an empty text stays empty, another is its
/// translation, and where it has none the text of the target; an object has the keys of the
/// source in their order, an array as many items; any other value is that of the source.
pub open spec fn merged_from(
    at: Spot,
    merged: JsonModel,
    translations: Map<Seq<char>, Seq<char>>,
) -> bool {
    let name = path_name(at.path);
    match at.source {
        JsonModel::Text(text) => if text.len() == 0 {
            merged == at.source
        } else if translations.contains_key(name) {
            merged == JsonModel::Text(translations[name])
        } else {
            at.target == Some(merged) && merged is Text
        },
        JsonModel::Object(entries) => merged is Object && keys(merged->Object_0) == keys(entries),
        JsonModel::Array(list) => merged is Array && merged->Array_0.len() == list.len(),
        _ => merged == at.source,
    }
}

proof fn lemma_child_merges(
    source: JsonModel,
    target: Option<JsonModel>,
    path: Seq<char>,
    translations: Map<Seq<char>, Seq<char>>,
    count: nat,
    at: int,
)
    requires
        child_issues(source, target, path, translations, count).len() == 0,
        0 <= at < count <= child_count(source),
    ensures
        merge_issues(
            child(source, at),
            counterpart(source, target, at),
            child_path(path, child_segment(source, at)),
            translations,
        ).len() == 0,
    decreases count,
{
    if at < count - 1 {
        lemma_child_merges(source, target, path, translations, (count - 1) as nat, at);
    }
}

/// At every spot the merged value has what merging makes of the spot.
#[verifier::rlimit(60)]
pub proof fn law_merged_at(
    source: JsonModel,
    target: Option<JsonModel>,
    path: Seq<char>,
    translations: Map<Seq<char>, Seq<char>>,
    steps: Seq<int>,
)
    requires
        well_formed(source),
        merge_issues(source, target, path, translations).len() == 0,
        spot(source, target, path, steps) is Some,
    ensures
        ({
            let merged = merged_value(source, target, path, translations);
            let at = spot(source, target, path, steps)->0;
            let there = spot(source, Some(merged), path, steps);
            &&& there is Some
            &&& there->0.source == at.source
            &&& there->0.path == at.path
            &&& there->0.target is Some
            &&& merged_from(at, there->0.target->0, translations)
        }),
    decreases steps.len(),
{
    law_paths(path, path);
    let merged = merged_value(source, target, path, translations);
    if target is Some {
        lemma_kinds(source, target->0);
    }
    if steps.len() == 0 {
        match source {
            JsonModel::Object(entries) => {
                assert(keys(merged->Object_0) =~= keys(entries));
            },
            _ => {},
        }
    } else {
        let (at, rest) = (steps[0], steps.drop_first());
        let inner = child_path(path, child_segment(source, at));
        let (value, other) = (child(source, at), counterpart(source, target, at));
        assert(steps =~= seq![at] + rest);
        assert(0 <= at < child_count(source));
        lemma_spot_inside(source, target, path, at, rest);
        lemma_child_merges(source, target, path, translations, child_count(source), at);
        lemma_child_well_formed(source, at);
        law_merged_at(value, other, inner, translations, rest);
        lemma_merged_counterpart(source, target, path, translations, at);
        lemma_spot_inside(source, Some(merged), path, at, rest);
    }
}

/// Whether steps lead to a text of the source with a name.
pub open spec fn leads_to_text(
    source: JsonModel,
    path: Seq<char>,
    steps: Seq<int>,
    name: Seq<char>,
    text: Seq<char>,
) -> bool {
    match spot(source, None, path, steps) {
        Some(found) => found.source == JsonModel::Text(text) && path_name(found.path) == name,
        None => false,
    }
}

/// The texts of a catalog are those that steps lead to.
pub proof fn law_texts_at(value: JsonModel, path: Seq<char>, name: Seq<char>, text: Seq<char>)
    ensures
        text_leaves(value, path).contains((name, text)) <==> exists|steps: Seq<int>| #[trigger]
            leads_to_text(value, path, steps, name, text),
    decreases value, child_count(value) + 1,
{
    law_paths(path, path);
    let none = Seq::<int>::empty();
    let leaves = text_leaves(value, path);
    assert(spot(value, None, path, none) == Some(Spot { source: value, target: None, path }));
    if value is Array || value is Object {
        lemma_child_texts_at(value, path, name, text, child_count(value));
        if leaves.contains((name, text)) {
            let (at, rest) = choose|at: int, rest: Seq<int>|
                0 <= at < child_count(value) && #[trigger] leads_to_text(
                    value,
                    path,
                    seq![at] + rest,
                    name,
                    text,
                );
            assert(leads_to_text(value, path, seq![at] + rest, name, text));
        }
        assert forall|steps: Seq<int>| #[trigger] leads_to_text(value, path, steps, name, text) implies leaves.contains(
        (name, text)) by {
            if steps.len() > 0 {
                let rest = steps.drop_first();
                assert(steps =~= seq![steps[0]] + rest);
                assert(0 <= steps[0] < child_count(value));
                assert(leads_to_text(value, path, seq![steps[0]] + rest, name, text));
            }
        }
    } else {
        assert forall|steps: Seq<int>| #[trigger] leads_to_text(value, path, steps, name, text) implies steps
            =~= none by {}
        if value is Text {
            lemma_single((path_name(path), value->Text_0), (name, text));
            assert(leads_to_text(value, path, none, name, text) <==> name == path_name(path) && text
                == value->Text_0);
        }
    }
}

proof fn lemma_child_texts_at(
    value: JsonModel,
    path: Seq<char>,
    name: Seq<char>,
    text: Seq<char>,
    count: nat,
)
    requires
        value is Array || value is Object,
        count <= child_count(value),
    ensures
        child_leaves(value, path, count).contains((name, text)) <==> exists|
            at: int,
            rest: Seq<int>,
        | 0 <= at < count && #[trigger] leads_to_text(value, path, seq![at] + rest, name, text),
    decreases value, count,
{
    if count > 0 {
        let last = count - 1;
        let inner = child_path(path, child_segment(value, last));
        let before = child_leaves(value, path, last as nat);
        let step = text_leaves(child(value, last), inner);
        let found = child_leaves(value, path, count);
        lemma_child_texts_at(value, path, name, text, last as nat);
        law_texts_at(child(value, last), inner, name, text);
        lemma_contains_joined(before, step, (name, text));
        assert(found == before + step);
        assert forall|rest: Seq<int>|
            leads_to_text(child(value, last), inner, rest, name, text) <==> #[trigger] leads_to_text(
                value,
                path,
                seq![last] + rest,
                name,
                text,
            ) by {
            lemma_spot_inside(value, None, path, last, rest);
        }
        if step.contains((name, text)) {
            let rest = choose|rest: Seq<int>| #[trigger]
                leads_to_text(child(value, last), inner, rest, name, text);
            assert(leads_to_text(value, path, seq![last] + rest, name, text));
        }
        if before.contains((name, text)) {
            let (at, rest) = choose|at: int, rest: Seq<int>|
                0 <= at < last && #[trigger] leads_to_text(value, path, seq![at] + rest, name, text);
            assert(0 <= at < count && leads_to_text(value, path, seq![at] + rest, name, text));
        }
        assert forall|at: int, rest: Seq<int>|
            0 <= at < count && #[trigger] leads_to_text(value, path, seq![at] + rest, name, text) implies found.contains(
        (name, text)) by {
            if at == last {
                assert(leads_to_text(child(value, last), inner, rest, name, text));
            }
        }
    }
}

/// The names of all values of a document that have no values inside them, in the order of the
/// document.
pub open spec fn names_in(value: JsonModel, path: Seq<char>) -> Seq<Seq<char>>
    decreases value, child_count(value) + 1,
{
    match value {
        JsonModel::Array(list) => names_of_children(value, path, list.len()),
        JsonModel::Object(entries) => names_of_children(value, path, entries.len()),
        _ => seq![path_name(path)],
    }
}

/// The names inside the first `count` members or items of a value.
pub open spec fn names_of_children(value: JsonModel, path: Seq<char>, count: nat) -> Seq<Seq<char>>
    decreases value, count,
{
    if count == 0 {
        Seq::empty()
    } else {
        match value {
            JsonModel::Array(list) => if count <= list.len() {
                names_of_children(value, path, (count - 1) as nat) + names_in(
                    list[count - 1],
                    inside(path, decimal((count - 1) as nat)),
                )
            } else {
                Seq::empty()
            },
            JsonModel::Object(entries) => if count <= entries.len() {
                names_of_children(value, path, (count - 1) as nat) + names_in(
                    entries[count - 1].1,
                    inside(path, entries[count - 1].0),
                )
            } else {
                Seq::empty()
            },
            _ => Seq::empty(),
        }
    }
}

/// The paths of units.
pub open spec fn unit_paths(units: Seq<UnitModel>) -> Seq<Seq<char>> {
    Seq::new(units.len(), |i: int| units[i].path)
}

/// Whether what a comparison found comes in the order of names.
pub open spec fn ordered_by(found: DiffModel, names: Seq<Seq<char>>) -> bool {
    &&& in_order(found.missing, names)
    &&& in_order(found.empty, names)
    &&& in_order(found.outdated, names)
    &&& in_order(found.changed, names)
    &&& in_order(unit_paths(found.units), names)
}

/// What a comparison lists, and what it asks for, comes in the order of the source document, and
/// nothing more often than it stands there.
#[verifier::rlimit(60)]
pub proof fn law_findings_in_order(
    source: JsonModel,
    target: Option<JsonModel>,
    path: Seq<char>,
    force: bool,
    outdated: Set<Seq<char>>,
)
    ensures
        ordered_by(diff_value(source, target, path, force, outdated), names_in(source, path)),
    decreases source, child_count(source) + 1,
{
    law_paths(path, path);
    let found = diff_value(source, target, path, force, outdated);
    let names = names_in(source, path);
    lemma_in_order_ends(names);
    if target is Some && !same_kind(source, target->0) {
        assert(unit_paths(found.units) =~= Seq::empty());
    } else if source is Array || source is Object {
        let inner = diff_children(source, target, path, force, outdated, child_count(source));
        lemma_children_in_order(source, target, path, force, outdated, child_count(source));
        assert(found.missing =~= inner.missing);
        assert(found.empty =~= inner.empty);
        assert(found.outdated =~= inner.outdated);
        assert(found.changed =~= inner.changed);
        assert(found.units =~= inner.units);
    } else {
        let name = path_name(path);
        let empty = Seq::<Seq<char>>::empty();
        lemma_in_order_ends(seq![name]);
        assert(names == seq![name]);
        assert(empty + seq![name] =~= seq![name]);
        assert(seq![name] + empty =~= seq![name]);
        assert(empty + empty =~= empty);
        if source is Text {
            let units = super::json::json_units(source->Text_0, name);
            assert(Seq::<UnitModel>::empty() + units =~= units);
            assert(unit_paths(units) =~= if source->Text_0.len() == 0 {
                empty
            } else {
                seq![name]
            });
            assert(unit_paths(Seq::empty()) =~= empty);
        } else {
            assert(unit_paths(found.units) =~= empty);
        }
    }
}

#[verifier::rlimit(60)]
proof fn lemma_children_in_order(
    source: JsonModel,
    target: Option<JsonModel>,
    path: Seq<char>,
    force: bool,
    outdated: Set<Seq<char>>,
    count: nat,
)
    requires
        source is Array || source is Object,
        count <= child_count(source),
    ensures
        ordered_by(
            diff_children(source, target, path, force, outdated, count),
            names_of_children(source, path, count),
        ),
    decreases source, count,
{
    if count == 0 {
        lemma_in_order_ends(Seq::<Seq<char>>::empty());
        assert(unit_paths(Seq::empty()) =~= Seq::empty());
    } else {
        let last = count - 1;
        let segment = child_segment(source, last);
        let inner = child_path(path, segment);
        law_paths(path, segment);
        let (value, other) = (child(source, last), counterpart(source, target, last));
        lemma_children_in_order(source, target, path, force, outdated, last as nat);
        law_findings_in_order(value, other, inner, force, outdated);
        let before = diff_children(source, target, path, force, outdated, last as nat);
        let step = diff_value(value, other, inner, force, outdated);
        let (x, y) = (names_of_children(source, path, last as nat), names_in(value, inner));
        assert(names_of_children(source, path, count) == x + y);
        lemma_in_order_joined(before.missing, x, step.missing, y);
        lemma_in_order_joined(before.empty, x, step.empty, y);
        lemma_in_order_joined(before.outdated, x, step.outdated, y);
        lemma_in_order_joined(before.changed, x, step.changed, y);
        lemma_in_order_joined(unit_paths(before.units), x, unit_paths(step.units), y);
        assert(unit_paths(before.units + step.units) =~= unit_paths(before.units) + unit_paths(
            step.units,
        ));
    }
}

} // verus!
