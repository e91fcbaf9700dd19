//! What accepting the existing translations of targets does, target by target.
use crate::catalog::{
    diff_roots, document, entries_map, fingerprint_entries, valid_root, Catalog, ConflictModel,
};
use crate::catalog::json_meaning::{law_findings_at, leads_to, lists, Finding};
use crate::catalog::meaning::existing_fine;
use crate::catalog::message_meaning::{clashes, law_document_findings, names_message};
use crate::state::TranslationState;
use super::state::{
    acceptable, is_accepted, records_after, records_changed, some_accepted, starting_state,
    update_is, StateUpdate, TargetFile, TargetInput,
};
use vstd::prelude::*;

verus! {

/// Whether a JSON target fits its source: nowhere do the two have values of different types.
pub open spec fn json_target_fits(source: Catalog, target: Catalog) -> bool {
    forall|steps: Seq<int>, conflict: ConflictModel| !#[trigger]
        leads_to(
            source.content(),
            Some(target.content()),
            Seq::empty(),
            steps,
            Finding::Conflict(conflict),
            false,
            Set::empty(),
        )
}

/// Whether an ARB target fits its source: it has a text for each message that it has, and each that
/// is not empty is a translation.
pub open spec fn arb_target_fits(source: Catalog, target: Catalog) -> bool {
    let (ours, theirs) = (document(source.content()), document(target.content()));
    &&& forall|i: int|
        0 <= i < ours.len() ==> #[trigger] existing_fine(ours, theirs, Set::empty(), i)
    &&& forall|i: int, conflict: ConflictModel|
        0 <= i < ours.len() ==> !#[trigger] clashes(ours, Some(theirs), i, conflict)
}

/// Whether a target fits its source.
pub open spec fn target_fits(source: Catalog, target: Catalog) -> bool {
    &&& target.kind() == source.kind()
    &&& source.kind() is Json ==> json_target_fits(source, target)
    &&& source.kind() is Arb ==> arb_target_fits(source, target)
}

/// The translations of a target are accepted exactly where it fits its source.
#[verifier::rlimit(60)]
pub proof fn law_acceptable(source: Catalog, locale: Seq<char>, target: Catalog)
    requires
        valid_root(source.kind(), source.content()),
    ensures
        acceptable(source, locale, target) <==> target_fits(source, target),
{
    if target.kind() == source.kind() {
        let other = Some(target.content());
        let found = diff_roots(
            source.kind(),
            source.content(),
            other,
            locale,
            false,
            Set::empty(),
        );
        if source.kind() is Json {
            assert forall|conflict: ConflictModel| #[trigger] found.conflicts.contains(conflict)
                <==> exists|steps: Seq<int>| #[trigger]
                leads_to(
                    source.content(),
                    other,
                    Seq::empty(),
                    steps,
                    Finding::Conflict(conflict),
                    false,
                    Set::empty(),
                ) by {
                law_findings_at(
                    source.content(),
                    other,
                    Seq::empty(),
                    false,
                    Set::empty(),
                    Finding::Conflict(conflict),
                );
                assert(lists(found, Finding::Conflict(conflict)) <==> found.conflicts.contains(
                    conflict,
                ));
            }
            if found.conflicts.len() > 0 {
                assert(found.conflicts.contains(found.conflicts[0]));
            }
            assert forall|steps: Seq<int>, conflict: ConflictModel| #[trigger]
                leads_to(
                    source.content(),
                    other,
                    Seq::empty(),
                    steps,
                    Finding::Conflict(conflict),
                    false,
                    Set::empty(),
                ) implies found.conflicts.len() > 0 by {
                assert(found.conflicts.contains(conflict));
            }
        } else {
            let (ours, theirs) = (document(source.content()), document(target.content()));
            crate::catalog::arb::lemma_messages_are_texts(ours);
            assert(crate::value::keys(ours).no_duplicates());
            assert forall|i: int| 0 <= i < ours.len() && names_message((#[trigger] ours[i]).0) implies ours[i].1 is Text by {
                assert(!crate::catalog::arb::is_metadata(ours[i].0));
            }
            law_document_findings(ours, Some(theirs), locale, false, Set::empty());
            crate::catalog::meaning::lemma_existing_fine(ours, theirs, Set::empty(), ours.len());
            if found.conflicts.len() > 0 {
                assert(found.conflicts.contains(found.conflicts[0]));
                let i = choose|i: int|
                    0 <= i < ours.len() && clashes(ours, Some(theirs), i, found.conflicts[0]);
            }
            assert forall|i: int, conflict: ConflictModel|
                0 <= i < ours.len() && #[trigger] clashes(ours, Some(theirs), i, conflict) implies found.conflicts.len()
                > 0 by {
                assert(found.conflicts.contains(conflict));
            }
        }
    }
}

/// Whether the translations of one of the first `count` inputs, of a language, are accepted.
pub open spec fn accepted_for(
    source: Catalog,
    inputs: Seq<TargetInput>,
    count: int,
    locale: Seq<char>,
) -> bool {
    exists|i: int|
        0 <= i < count && (#[trigger] inputs[i]).locale@ == locale && inputs[i].file is Loaded
            && target_fits(source, inputs[i].file->Loaded_0)
}

#[verifier::rlimit(60)]
proof fn lemma_records(
    records: Map<Seq<char>, Map<Seq<char>, Seq<char>>>,
    source: Catalog,
    inputs: Seq<TargetInput>,
    prints: Map<Seq<char>, Seq<char>>,
    count: nat,
    locale: Seq<char>,
)
    requires
        valid_root(source.kind(), source.content()),
        count <= inputs.len(),
    ensures
        ({
            let after = records_after(records, source, inputs, prints, count);
            let accepted = accepted_for(source, inputs, count as int, locale);
            &&& after.contains_key(locale) <==> accepted || records.contains_key(locale)
            &&& accepted ==> after[locale] == prints
            &&& !accepted && records.contains_key(locale) ==> after[locale] == records[locale]
        }),
    decreases count,
{
    if count > 0 {
        let at = count - 1;
        lemma_records(records, source, inputs, prints, at as nat, locale);
        let input = inputs[at];
        if input.file is Loaded {
            law_acceptable(source, input.locale@, input.file->Loaded_0);
        }
        let now = accepted_for(source, inputs, count as int, locale);
        let earlier = accepted_for(source, inputs, at, locale);
        if earlier {
            let i = choose|i: int|
                0 <= i < at && (#[trigger] inputs[i]).locale@ == locale && inputs[i].file is Loaded
                    && target_fits(source, inputs[i].file->Loaded_0);
            assert(inputs[i].locale@ == locale);
        }
        if is_accepted(source, input) && input.locale@ == locale {
            assert(inputs[at].locale@ == locale);
        }
        if now && !earlier {
            let i = choose|i: int|
                0 <= i < count && (#[trigger] inputs[i]).locale@ == locale && inputs[i].file is Loaded
                    && target_fits(source, inputs[i].file->Loaded_0);
            assert(i == at);
        }
    }
}

proof fn lemma_unchanged(
    records: Map<Seq<char>, Map<Seq<char>, Seq<char>>>,
    source: Catalog,
    inputs: Seq<TargetInput>,
    prints: Map<Seq<char>, Seq<char>>,
    count: nat,
)
    requires
        !records_changed(records, source, inputs, prints, count),
    ensures
        records_after(records, source, inputs, prints, count) == records,
    decreases count,
{
    if count > 0 {
        let before = records_after(records, source, inputs, prints, (count - 1) as nat);
        lemma_unchanged(records, source, inputs, prints, (count - 1) as nat);
        assert(before.contains_key(inputs[count - 1].locale@)
            ==> before.insert(inputs[count - 1].locale@, before[inputs[count - 1].locale@]) =~= before);
    }
}

/// What accepting translations does. A target without a file is skipped, one that cannot be read
/// or does not fit the source is refused, every other is accepted. For a language whose target is
/// accepted the state then holds the fingerprints of the source, for another what it held before,
/// if that was about the same source; of languages that the project does not have, nothing. There
/// is something to keep where there was a state or a target is accepted, and without a change the
/// state is what it was.
#[verifier::rlimit(60)]
pub proof fn law_update(
    result: StateUpdate,
    source: Catalog,
    source_locale: Seq<char>,
    before: Option<TranslationState>,
    inputs: Seq<TargetInput>,
    project_locales: Seq<Seq<char>>,
    locale: Seq<char>,
)
    requires
        update_is(result, source, source_locale, before, inputs, project_locales),
        valid_root(source.kind(), source.content()),
    ensures
        result.outcomes@.len() == inputs.len(),
        forall|i: int|
            0 <= i < inputs.len() ==> match (#[trigger] inputs[i]).file {
                TargetFile::Missing => result.outcomes@[i] is Skipped,
                TargetFile::Unreadable(details) => result.outcomes@[i] is Refused
                    && result.outcomes@[i]->Refused_0@ == details@,
                TargetFile::Loaded(target) => if target_fits(source, target) {
                    result.outcomes@[i] is Accepted
                } else {
                    result.outcomes@[i] is Refused
                },
            },
        result.relevant <==> before is Some || exists|i: int|
            0 <= i < inputs.len() && (#[trigger] result.outcomes@[i]) is Accepted,
        ({
            let prints = entries_map(fingerprint_entries(source.kind(), source.content()));
            let state = result.state.model();
            let same_source = before is Some && before->0.model().source_locale == source_locale
                && before->0.model().source_format == source.kind();
            let held = same_source && before->0.model().targets.contains_key(locale);
            let accepted = accepted_for(source, inputs, inputs.len() as int, locale);
            &&& state.source_locale == source_locale
            &&& state.source_format == source.kind()
            &&& result.relevant ==> (state.targets.contains_key(locale) <==> project_locales.contains(
                locale,
            ) && (accepted || held))
            &&& state.targets.contains_key(locale) && accepted ==> state.targets[locale] == prints
            &&& state.targets.contains_key(locale) && !accepted ==> state.targets[locale]
                == before->0.model().targets[locale]
            &&& !result.relevant ==> !state.targets.contains_key(locale)
            &&& !result.changed && before is Some ==> state == before->0.model()
        }),
{
    let prints = entries_map(fingerprint_entries(source.kind(), source.content()));
    let start = starting_state(before, source_locale, source.kind());
    let count = inputs.len();
    lemma_records(start.targets, source, inputs, prints, count, locale);
    assert forall|i: int| 0 <= i < inputs.len() implies match (#[trigger] inputs[i]).file {
        TargetFile::Missing => result.outcomes@[i] is Skipped,
        TargetFile::Unreadable(details) => result.outcomes@[i] is Refused
            && result.outcomes@[i]->Refused_0@ == details@,
        TargetFile::Loaded(target) => if target_fits(source, target) {
            result.outcomes@[i] is Accepted
        } else {
            result.outcomes@[i] is Refused
        },
    } by {
        assert(super::state::outcome_fits(result.outcomes@[i], source, inputs[i]));
        if let TargetFile::Loaded(target) = inputs[i].file {
            law_acceptable(source, inputs[i].locale@, target);
        }
    }
    if some_accepted(source, inputs, count as int) {
        let i = choose|i: int| 0 <= i < count && is_accepted(source, #[trigger] inputs[i]);
        law_acceptable(source, inputs[i].locale@, inputs[i].file->Loaded_0);
        assert(result.outcomes@[i] is Accepted);
    }
    if exists|i: int| 0 <= i < inputs.len() && (#[trigger] result.outcomes@[i]) is Accepted {
        let i = choose|i: int| 0 <= i < inputs.len() && (#[trigger] result.outcomes@[i]) is Accepted;
        assert(inputs[i].file is Loaded);
        law_acceptable(source, inputs[i].locale@, inputs[i].file->Loaded_0);
        assert(is_accepted(source, inputs[i]));
    }
    if accepted_for(source, inputs, count as int, locale) {
        let i = choose|i: int|
            0 <= i < count && (#[trigger] inputs[i]).locale@ == locale && inputs[i].file is Loaded
                && target_fits(source, inputs[i].file->Loaded_0);
        law_acceptable(source, inputs[i].locale@, inputs[i].file->Loaded_0);
        assert(is_accepted(source, inputs[i]));
        assert(some_accepted(source, inputs, count as int));
    }
    if !result.changed && before is Some {
        lemma_unchanged(start.targets, source, inputs, prints, count);
        assert(result.state.model() =~= before->0.model());
    }
}

} // verus!
