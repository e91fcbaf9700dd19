//! What the commands decide and show, item by item.
use crate::catalog::{
    diff_roots, document, optional_root_ref, target_document, unit_models, valid_root, Catalog,
    DiffReport, TypeConflict, UnitModel,
};
use crate::catalog::json_meaning::{law_findings_at, leads_to, lists, Finding};
use crate::catalog::message_meaning::{
    asks, blanks, changes, clashes, found_in, law_document_findings, misses, names_message,
};
use crate::config::TargetConfig;
use crate::models::remote::OfferModel;
use crate::text::{
    blank, decimal, is_digit, is_white_space, law_decimal_parses, law_decimal_reads_back, occurs,
    occurs_at, texts, trimmed,
};
use crate::value::{
    keys, lemma_keys_distinct, lemma_lookup_absent, lemma_lookup_distinct, lookup, JsonModel,
};
use super::{
    clean, conflict_json, conflict_lines, labelled, listed_targets, offer_json, path_lines,
    report_json, report_lines, selection,
};
use super::models::shown_service;
use super::translate::{work_is, TargetError, TargetWork};
use vstd::prelude::*;

verus! {

/// Whether a comparison of two catalogs finds something, in either format.
pub open spec fn finds(
    source: Catalog,
    target: Option<&Catalog>,
    locale: Seq<char>,
    force: bool,
    finding: Finding,
) -> bool {
    let (root, other) = (source.content(), optional_root_ref(target));
    let (ours, theirs) = (document(root), target_document(other));
    let none = Set::<Seq<char>>::empty();
    if source.kind() is Json {
        exists|steps: Seq<int>| #[trigger]
            leads_to(root, other, Seq::empty(), steps, finding, force, none)
    } else {
        match finding {
            Finding::Missing(path) => exists|i: int|
                0 <= i < ours.len() && misses(ours, theirs, i, path),
            Finding::Empty(path) => exists|i: int|
                0 <= i < ours.len() && blanks(ours, theirs, i, path),
            Finding::Changed(path) => (path == "/@@locale"@ && found_in(theirs, "@@locale"@) != Some(
                JsonModel::Text(locale),
            )) || exists|i: int| 0 <= i < ours.len() && changes(ours, theirs, none, i, path),
            Finding::Conflict(conflict) => exists|i: int|
                0 <= i < ours.len() && clashes(ours, theirs, i, conflict),
            Finding::Unit(unit) => exists|i: int|
                0 <= i < ours.len() && asks(ours, theirs, force, none, i, unit),
            _ => false,
        }
    }
}

/// What a target needs. Type conflicts come first. A target that exists and has nothing missing,
/// empty or changed, and nothing to be translated, needs nothing; any other is written anew, with
/// translations of what the comparison asks for.
#[verifier::rlimit(60)]
pub proof fn law_target_work(
    outcome: Result<TargetWork, TargetError>,
    source: Catalog,
    target: Option<&Catalog>,
    locale: Seq<char>,
    force: bool,
)
    requires
        work_is(outcome, source, target, locale, force),
        target is Some ==> target->0.kind() == source.kind(),
        valid_root(source.kind(), source.content()),
    ensures
        outcome is Err <==> exists|finding: Finding| #[trigger]
            finds(source, target, locale, force, finding) && finding is Conflict,
        outcome is Ok && outcome->Ok_0 is Nothing ==> target is Some && forall|finding: Finding|
            #[trigger] finds(source, target, locale, force, finding) ==> !calls_for_work(finding),
        outcome is Ok && outcome->Ok_0 is Translate ==> {
            &&& forall|unit: UnitModel| #[trigger]
                unit_models(outcome->Ok_0->Translate_0@).contains(unit) <==> finds(
                    source,
                    target,
                    locale,
                    force,
                    Finding::Unit(unit),
                )
            &&& target is None || exists|finding: Finding| #[trigger]
                finds(source, target, locale, force, finding) && calls_for_work(finding)
        },
{
    let found = diff_roots(
        source.kind(),
        source.content(),
        optional_root_ref(target),
        locale,
        force,
        Set::empty(),
    );
    assert forall|finding: Finding|
        !(finding is Extra || finding is Outdated) implies (#[trigger] finds(
        source,
        target,
        locale,
        force,
        finding,
    ) <==> lists(found, finding)) by {
        lemma_finds(source, target, locale, force, finding);
    }
    if found.conflicts.len() > 0 {
        assert(found.conflicts.contains(found.conflicts[0]));
        assert(lists(found, Finding::Conflict(found.conflicts[0])));
        assert(finds(source, target, locale, force, Finding::Conflict(found.conflicts[0])));
    }
    if found.missing.len() > 0 {
        assert(found.missing.contains(found.missing[0]));
        assert(lists(found, Finding::Missing(found.missing[0])));
        assert(finds(source, target, locale, force, Finding::Missing(found.missing[0])));
    }
    if found.empty.len() > 0 {
        assert(found.empty.contains(found.empty[0]));
        assert(lists(found, Finding::Empty(found.empty[0])));
        assert(finds(source, target, locale, force, Finding::Empty(found.empty[0])));
    }
    if found.changed.len() > 0 {
        assert(found.changed.contains(found.changed[0]));
        assert(lists(found, Finding::Changed(found.changed[0])));
        assert(finds(source, target, locale, force, Finding::Changed(found.changed[0])));
    }
    if found.units.len() > 0 {
        assert(found.units.contains(found.units[0]));
        assert(lists(found, Finding::Unit(found.units[0])));
        assert(finds(source, target, locale, force, Finding::Unit(found.units[0])));
    }
    if outcome is Ok && outcome->Ok_0 is Translate {
        assert forall|unit: UnitModel| #[trigger]
            unit_models(outcome->Ok_0->Translate_0@).contains(unit) <==> finds(
                source,
                target,
                locale,
                force,
                Finding::Unit(unit),
            ) by {
            assert(lists(found, Finding::Unit(unit)) <==> found.units.contains(unit));
        }
    }
}

/// Whether a finding calls for a target to be written anew.
pub open spec fn calls_for_work(finding: Finding) -> bool {
    finding is Missing || finding is Empty || finding is Changed || finding is Unit
}

#[verifier::rlimit(60)]
proof fn lemma_finds(
    source: Catalog,
    target: Option<&Catalog>,
    locale: Seq<char>,
    force: bool,
    finding: Finding,
)
    requires
        valid_root(source.kind(), source.content()),
        !(finding is Extra || finding is Outdated),
    ensures
        finds(source, target, locale, force, finding) <==> lists(
            diff_roots(
                source.kind(),
                source.content(),
                optional_root_ref(target),
                locale,
                force,
                Set::empty(),
            ),
            finding,
        ),
{
    if source.kind() is Json {
        law_findings_at(
            source.content(),
            optional_root_ref(target),
            Seq::empty(),
            force,
            Set::empty(),
            finding,
        );
    } else {
        let ours = document(source.content());
        crate::catalog::arb::lemma_messages_are_texts(ours);
        assert(keys(ours).no_duplicates());
        assert forall|i: int| 0 <= i < ours.len() && names_message((#[trigger] ours[i]).0) implies ours[i].1 is Text by {
            assert(!crate::catalog::arb::is_metadata(ours[i].0));
        }
        law_document_findings(
            ours,
            target_document(optional_root_ref(target)),
            locale,
            force,
            Set::empty(),
        );
        let found = crate::catalog::messages::diff_document(
            ours,
            target_document(optional_root_ref(target)),
            locale,
            force,
            Set::empty(),
        );
        assert(lists(found, finding) == (match finding {
            Finding::Missing(p) => found.missing.contains(p),
            Finding::Empty(p) => found.empty.contains(p),
            Finding::Changed(p) => found.changed.contains(p),
            Finding::Conflict(c) => found.conflicts.contains(c),
            Finding::Unit(u) => found.units.contains(u),
            _ => lists(found, finding),
        }));
    }
}

/// The targets that are listed are those whose language codes are asked for, in their own order.
pub proof fn law_listed_targets(
    targets: Seq<TargetConfig>,
    locales: Seq<Seq<char>>,
    count: nat,
)
    requires
        count <= targets.len(),
    ensures
        listed_targets(targets, locales, count) == targets.take(count as int).filter(
            |target: TargetConfig| locales.contains(target.locale@),
        ),
    decreases count,
{
    reveal(Seq::filter);
    if count > 0 {
        law_listed_targets(targets, locales, (count - 1) as nat);
        assert(targets.take(count as int).drop_last() =~= targets.take(count - 1));
    } else {
        assert(targets.take(0) =~= Seq::empty());
    }
}

/// A report shows no differences exactly where it lists nothing and has a baseline.
pub proof fn law_clean(report: DiffReport)
    ensures
        clean(report) <==> report.missing@.len() == 0 && report.empty@.len() == 0
            && report.outdated@.len() == 0 && report.changed@.len() == 0 && report.extra@.len() == 0
            && report.conflicts@.len() == 0 && !report.baseline_missing,
{
}

proof fn lemma_occurs_in(before: Seq<char>, middle: Seq<char>, after: Seq<char>, part: Seq<char>)
    requires
        occurs(middle, part),
    ensures
        occurs(before + middle + after, part),
{
    let at = choose|at: int| #[trigger] occurs_at(middle, part, at);
    let whole = before + middle + after;
    assert(whole.subrange(before.len() + at, before.len() + at + part.len()) =~= middle.subrange(
        at,
        at + part.len(),
    ));
    assert(occurs_at(whole, part, before.len() + at));
}

proof fn lemma_occurs_itself(part: Seq<char>)
    ensures
        occurs(part, part),
{
    assert(part.subrange(0, part.len() as int) =~= part);
    assert(occurs_at(part, part, 0));
}

/// The line that shows a path.
pub open spec fn path_line(path: Seq<char>) -> Seq<char> {
    "    "@ + path + "\n"@
}

proof fn lemma_path_lines(paths: Seq<Seq<char>>, count: nat, at: int)
    requires
        0 <= at < count <= paths.len(),
    ensures
        occurs(path_lines(paths, count), path_line(paths[at])),
    decreases count,
{
    let before = path_lines(paths, (count - 1) as nat);
    let line = path_line(paths[count - 1]);
    let none = Seq::<char>::empty();
    assert(path_lines(paths, count) =~= before + line + none);
    assert(path_lines(paths, count) =~= none + before + line);
    if at < count - 1 {
        lemma_path_lines(paths, (count - 1) as nat, at);
        lemma_occurs_in(none, before, line, path_line(paths[at]));
    } else {
        lemma_occurs_itself(line);
        lemma_occurs_in(before, line, none, line);
    }
}

proof fn lemma_labelled(label: Seq<char>, paths: Seq<Seq<char>>, at: int)
    requires
        0 <= at < paths.len(),
    ensures
        occurs(labelled(label, paths), path_line(paths[at])),
{
    let head = "  "@ + label + ": "@ + decimal(paths.len()) + "\n"@;
    let lines = path_lines(paths, paths.len());
    lemma_path_lines(paths, paths.len(), at);
    lemma_occurs_in(head, lines, Seq::empty(), path_line(paths[at]));
    assert(labelled(label, paths) =~= head + lines + Seq::empty());
}

proof fn lemma_conflict_lines(conflicts: Seq<TypeConflict>, count: nat, at: int)
    requires
        0 <= at < count <= conflicts.len(),
    ensures
        occurs(conflict_lines(conflicts, count), conflict_line(conflicts[at])),
    decreases count,
{
    let before = conflict_lines(conflicts, (count - 1) as nat);
    let line = conflict_line(conflicts[count - 1]);
    let none = Seq::<char>::empty();
    assert(conflict_lines(conflicts, count) =~= before + line + none);
    assert(conflict_lines(conflicts, count) =~= none + before + line);
    if at < count - 1 {
        lemma_conflict_lines(conflicts, (count - 1) as nat, at);
        lemma_occurs_in(none, before, line, conflict_line(conflicts[at]));
    } else {
        lemma_occurs_itself(line);
        lemma_occurs_in(before, line, none, line);
    }
}

/// The line that shows a type conflict.
pub open spec fn conflict_line(conflict: TypeConflict) -> Seq<char> {
    "    "@ + conflict.path@ + ": "@ + conflict.source_type@ + " -> "@ + conflict.target_type@
        + "\n"@
}

/// A report begins with the language and has a line for everything that is missing, empty, changed
/// or extra, and for every conflict.
#[verifier::rlimit(60)]
pub proof fn law_report_lines(report: DiffReport)
    ensures
        (report.locale@ + ":\n"@).is_prefix_of(report_lines(report)),
        forall|i: int|
            0 <= i < report.missing@.len() ==> occurs(
                report_lines(report),
                path_line((#[trigger] report.missing@[i])@),
            ),
        forall|i: int|
            0 <= i < report.empty@.len() ==> occurs(
                report_lines(report),
                path_line((#[trigger] report.empty@[i])@),
            ),
        forall|i: int|
            0 <= i < report.changed@.len() ==> occurs(
                report_lines(report),
                path_line((#[trigger] report.changed@[i])@),
            ),
        forall|i: int|
            0 <= i < report.extra@.len() ==> occurs(
                report_lines(report),
                path_line((#[trigger] report.extra@[i])@),
            ),
        forall|i: int|
            0 <= i < report.conflicts@.len() ==> occurs(
                report_lines(report),
                conflict_line(#[trigger] report.conflicts@[i]),
            ),
{
    let head = report.locale@ + ":\n"@;
    let (a, b, c, d) = (
        labelled("缺失"@, texts(report.missing@)),
        labelled("空值"@, texts(report.empty@)),
        labelled("结构值变化"@, texts(report.changed@)),
        labelled("额外"@, texts(report.extra@)),
    );
    let count = "  类型冲突: "@ + decimal(report.conflicts@.len()) + "\n"@;
    let e = conflict_lines(report.conflicts@, report.conflicts@.len());
    let whole = report_lines(report);
    assert(whole =~= head + (a + b + c + d + count + e));
    assert forall|i: int| 0 <= i < report.missing@.len() implies occurs(
        whole,
        path_line((#[trigger] report.missing@[i])@),
    ) by {
        lemma_labelled("缺失"@, texts(report.missing@), i);
        assert(whole =~= head + a + (b + c + d + count + e));
        lemma_occurs_in(head, a, b + c + d + count + e, path_line(report.missing@[i]@));
    }
    assert forall|i: int| 0 <= i < report.empty@.len() implies occurs(
        whole,
        path_line((#[trigger] report.empty@[i])@),
    ) by {
        lemma_labelled("空值"@, texts(report.empty@), i);
        assert(whole =~= (head + a) + b + (c + d + count + e));
        lemma_occurs_in(head + a, b, c + d + count + e, path_line(report.empty@[i]@));
    }
    assert forall|i: int| 0 <= i < report.changed@.len() implies occurs(
        whole,
        path_line((#[trigger] report.changed@[i])@),
    ) by {
        lemma_labelled("结构值变化"@, texts(report.changed@), i);
        assert(whole =~= (head + a + b) + c + (d + count + e));
        lemma_occurs_in(head + a + b, c, d + count + e, path_line(report.changed@[i]@));
    }
    assert forall|i: int| 0 <= i < report.extra@.len() implies occurs(
        whole,
        path_line((#[trigger] report.extra@[i])@),
    ) by {
        lemma_labelled("额外"@, texts(report.extra@), i);
        assert(whole =~= (head + a + b + c) + d + (count + e));
        lemma_occurs_in(head + a + b + c, d, count + e, path_line(report.extra@[i]@));
    }
    assert forall|i: int| 0 <= i < report.conflicts@.len() implies occurs(
        whole,
        conflict_line(#[trigger] report.conflicts@[i]),
    ) by {
        lemma_conflict_lines(report.conflicts@, report.conflicts@.len(), i);
        assert(whole =~= (head + a + b + c + d + count) + e + Seq::empty());
        lemma_occurs_in(
            head + a + b + c + d + count,
            e,
            Seq::empty(),
            conflict_line(report.conflicts@[i]),
        );
    }
}

/// Whether a value is an array of texts.
pub open spec fn is_list_of(value: Option<JsonModel>, list: Seq<String>) -> bool {
    &&& value is Some
    &&& value->0 is Array
    &&& value->0->Array_0.len() == list.len()
    &&& forall|i: int|
        0 <= i < list.len() ==> (#[trigger] value->0->Array_0[i]) == JsonModel::Text(list[i]@)
}

/// A report as JSON has every list of the report under its name.
#[verifier::rlimit(60)]
pub proof fn law_report_json(report: DiffReport)
    ensures
        ({
            let entries = report_json(report)->Object_0;
            &&& report_json(report) is Object
            &&& lookup(entries, "locale"@) == Some(JsonModel::Text(report.locale@))
            &&& is_list_of(lookup(entries, "missing"@), report.missing@)
            &&& is_list_of(lookup(entries, "empty"@), report.empty@)
            &&& is_list_of(lookup(entries, "outdated"@), report.outdated@)
            &&& is_list_of(lookup(entries, "changed"@), report.changed@)
            &&& is_list_of(lookup(entries, "extra"@), report.extra@)
            &&& lookup(entries, "baseline_missing"@) == Some(
                JsonModel::Bool(report.baseline_missing),
            )
            &&& lookup(entries, "conflicts"@) is Some
            &&& lookup(entries, "conflicts"@)->0 is Array
            &&& lookup(entries, "conflicts"@)->0->Array_0.len() == report.conflicts@.len()
            &&& forall|i: int|
                0 <= i < report.conflicts@.len() ==> {
                    let conflict = (#[trigger] lookup(
                        entries,
                        "conflicts"@,
                    )->0->Array_0[i])->Object_0;
                    &&& lookup(conflict, "path"@) == Some(
                        JsonModel::Text(report.conflicts@[i].path@),
                    )
                    &&& lookup(conflict, "source_type"@) == Some(
                        JsonModel::Text(report.conflicts@[i].source_type@),
                    )
                    &&& lookup(conflict, "target_type"@) == Some(
                        JsonModel::Text(report.conflicts@[i].target_type@),
                    )
                }
        }),
{
    let entries = report_json(report)->Object_0;
    reveal_strlit("locale");
    reveal_strlit("missing");
    reveal_strlit("empty");
    reveal_strlit("outdated");
    reveal_strlit("changed");
    reveal_strlit("extra");
    reveal_strlit("conflicts");
    reveal_strlit("baseline_missing");
    assert("locale"@.len() == 6 && "missing"@.len() == 7 && "empty"@.len() == 5 && "outdated"@.len()
        == 8 && "changed"@.len() == 7 && "extra"@.len() == 5 && "conflicts"@.len() == 9
        && "baseline_missing"@.len() == 16);
    assert("missing"@[0] == 'm' && "changed"@[0] == 'c');
    assert("empty"@[1] == 'm' && "extra"@[1] == 'x');
    assert(entries[0].0 == "locale"@ && entries[1].0 == "missing"@ && entries[2].0 == "empty"@);
    assert(entries[3].0 == "outdated"@ && entries[4].0 == "changed"@ && entries[5].0 == "extra"@);
    assert(entries[6].0 == "conflicts"@ && entries[7].0 == "baseline_missing"@);
    lemma_keys_distinct(entries);
    lemma_lookup_distinct(entries, 0);
    lemma_lookup_distinct(entries, 1);
    lemma_lookup_distinct(entries, 2);
    lemma_lookup_distinct(entries, 3);
    lemma_lookup_distinct(entries, 4);
    lemma_lookup_distinct(entries, 5);
    lemma_lookup_distinct(entries, 6);
    lemma_lookup_distinct(entries, 7);
    let list = entries[6].1->Array_0;
    assert forall|i: int| 0 <= i < report.conflicts@.len() implies {
        let conflict = (#[trigger] list[i])->Object_0;
        &&& lookup(conflict, "path"@) == Some(JsonModel::Text(report.conflicts@[i].path@))
        &&& lookup(conflict, "source_type"@) == Some(
            JsonModel::Text(report.conflicts@[i].source_type@),
        )
        &&& lookup(conflict, "target_type"@) == Some(
            JsonModel::Text(report.conflicts@[i].target_type@),
        )
    } by {
        let conflict = conflict_json(report.conflicts@[i])->Object_0;
        reveal_strlit("path");
        reveal_strlit("source_type");
        reveal_strlit("target_type");
        assert("path"@.len() == 4 && "source_type"@.len() == 11 && "target_type"@.len() == 11);
        assert("source_type"@[0] == 's' && "target_type"@[0] == 't');
        assert(conflict[0].0 == "path"@ && conflict[1].0 == "source_type"@ && conflict[2].0
            == "target_type"@);
        lemma_keys_distinct(conflict);
        lemma_lookup_distinct(conflict, 0);
        lemma_lookup_distinct(conflict, 1);
        lemma_lookup_distinct(conflict, 2);
    }
}

/// A configuration is shown by its name, URL and model and by whether it has a key, and by nothing
/// else.
pub proof fn law_shown_service(name: Seq<char>, service: crate::models::ServiceModel, key: Seq<char>)
    ensures
        ({
            let entries = shown_service(name, service)->Object_0;
            &&& shown_service(name, service) is Object
            &&& lookup(entries, "name"@) == Some(JsonModel::Text(name))
            &&& lookup(entries, "url"@) == Some(JsonModel::Text(service.url))
            &&& lookup(entries, "model"@) == Some(JsonModel::Text(service.model))
            &&& lookup(entries, "has_key"@) == Some(JsonModel::Bool(service.api_key is Some))
            &&& lookup(entries, key) is Some ==> key == "name"@ || key == "url"@ || key == "model"@
                || key == "has_key"@
        }),
{
    let entries = shown_service(name, service)->Object_0;
    reveal_strlit("name");
    reveal_strlit("url");
    reveal_strlit("model");
    reveal_strlit("has_key");
    assert("name"@.len() == 4 && "url"@.len() == 3 && "model"@.len() == 5 && "has_key"@.len() == 7);
    assert(entries[0].0 == "name"@ && entries[1].0 == "url"@ && entries[2].0 == "model"@
        && entries[3].0 == "has_key"@);
    lemma_keys_distinct(entries);
    lemma_lookup_distinct(entries, 0);
    lemma_lookup_distinct(entries, 1);
    lemma_lookup_distinct(entries, 2);
    lemma_lookup_distinct(entries, 3);
    if lookup(entries, key) is Some {
        let i = crate::value::lemma_lookup_position(entries, key);
        assert(entries[i].0 == key);
    }
}

/// An offered model as JSON has its identifier and, where it has one, its owner.
pub proof fn law_offer_json(offer: OfferModel)
    ensures
        offer_json(offer) is Object,
        lookup(offer_json(offer)->Object_0, "id"@) == Some(JsonModel::Text(offer.id)),
        lookup(offer_json(offer)->Object_0, "owned_by"@) == (match offer.owned_by {
            Some(owner) => Some(JsonModel::Text(owner)),
            None => None,
        }),
{
    let entries = offer_json(offer)->Object_0;
    reveal_strlit("id");
    reveal_strlit("owned_by");
    assert("id"@.len() == 2 && "owned_by"@.len() == 8);
    assert(entries[0].0 == "id"@);
    assert(offer.owned_by is Some ==> entries.len() == 2 && entries[1].0 == "owned_by"@);
    lemma_keys_distinct(entries);
    lemma_lookup_distinct(entries, 0);
    if offer.owned_by is Some {
        lemma_lookup_distinct(entries, 1);
    } else {
        assert forall|i: int| 0 <= i < entries.len() implies (#[trigger] entries[i]).0 != "owned_by"@ by {}
        lemma_lookup_absent(entries, "owned_by"@);
    }
}

proof fn lemma_trimmed(before: Seq<char>, middle: Seq<char>, after: Seq<char>)
    requires
        blank(before),
        blank(after),
        middle.len() > 0,
        !is_white_space(middle[0]),
        !is_white_space(middle.last()),
    ensures
        trimmed(before + middle + after) == middle,
    decreases before.len() + after.len(),
{
    let whole = before + middle + after;
    if before.len() > 0 {
        let rest = before.drop_first();
        assert(is_white_space(before[0]));
        assert forall|i: int| 0 <= i < rest.len() implies is_white_space(#[trigger] rest[i]) by {
            assert(rest[i] == before[i + 1]);
        }
        assert(whole[0] == before[0]);
        assert(whole.drop_first() =~= rest + middle + after);
        lemma_trimmed(rest, middle, after);
    } else if after.len() > 0 {
        let rest = after.drop_last();
        assert(is_white_space(after[after.len() - 1]));
        assert forall|i: int| 0 <= i < rest.len() implies is_white_space(#[trigger] rest[i]) by {
            assert(rest[i] == after[i]);
        }
        assert(whole[0] == middle[0]);
        assert(whole.last() == after.last());
        assert(whole.drop_last() =~= before + middle + rest);
        lemma_trimmed(before, middle, rest);
    } else {
        assert(whole =~= middle);
    }
}

/// A number, with white space around it, chooses the model with that number, counted from one,
/// where there is one.
pub proof fn law_selection(before: Seq<char>, number: nat, after: Seq<char>, count: int)
    requires
        blank(before),
        blank(after),
        number <= usize::MAX,
    ensures
        selection(before + decimal(number) + after, count) == (if 1 <= number <= count {
            Some(number - 1)
        } else {
            None
        }),
{
    let digits = decimal(number);
    law_decimal_reads_back(number);
    law_decimal_parses(number, usize::MAX as nat);
    assert(is_digit(digits[0]) && is_digit(digits[digits.len() - 1]));
    lemma_trimmed(before, digits, after);
}

} // verus!
