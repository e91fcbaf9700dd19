//! What the replies to batches do to the course of a translation.
use crate::catalog::arb_meaning::{fit, law_translation_accepted};
use crate::catalog::{without_slashes, TranslationUnit, UnitModel};
use crate::icu::read_result;
use crate::map::{text_map, StringMap};
use super::{
    accepted, answered, batch_outcome_is, batch_translations, is_batch_end, total_bytes, unit_id,
    AgentError, MAX_BATCH_BYTES,
};
use super::request_meaning::identifier;
use super::run::{
    batch_start, check_is, planned, retry_delay, step_is, BatchEvent, RunModel, RunStep,
};
use vstd::prelude::*;
use vstd::utf8::encode_utf8;

verus! {

/// Whether a text is a translation of a unit: it is not empty and, for an ARB message, fits it.
pub open spec fn translates_unit(unit: UnitModel, text: Seq<char>) -> bool {
    text.len() > 0 && (unit.kind is Arb ==> read_result(unit.source) is Ok && read_result(text) is Ok
        && fit(read_result(unit.source)->Ok_0, read_result(text)->Ok_0))
}

/// A text is accepted for a unit exactly where it is a translation of it.
pub proof fn law_accepted(unit: UnitModel, text: Seq<char>)
    ensures
        accepted(unit, text) <==> translates_unit(unit, text),
{
    law_translation_accepted(without_slashes(unit.path), unit.source, text);
}

/// Whether a reply is complete: it has as many texts as there are units, and for each unit, by its
/// identifier, a translation.
pub open spec fn complete_reply(
    units: Seq<TranslationUnit>,
    response: Map<Seq<char>, Seq<char>>,
) -> bool {
    response.len() == units.len() && forall|i: int|
        0 <= i < units.len() ==> response.contains_key(#[trigger] identifier(i)) && translates_unit(
            units[i].model(),
            response[identifier(i)],
        )
}

/// Whether a unit is the last of the first `count` units with its path.
pub open spec fn last_of_path(units: Seq<TranslationUnit>, at: int, count: int) -> bool {
    forall|j: int| at < j < count ==> (#[trigger] units[j]).path@ != units[at].path@
}

/// Whether a map holds for the path of each unit the text that the reply gives for it, and nothing
/// else; of units with the same path the last one counts.
pub open spec fn holds_reply(
    units: Seq<TranslationUnit>,
    response: Map<Seq<char>, Seq<char>>,
    map: Map<Seq<char>, Seq<char>>,
    count: int,
) -> bool {
    &&& forall|i: int|
        0 <= i < count && #[trigger] last_of_path(units, i, count) ==> map.contains_key(
            units[i].path@,
        ) && map[units[i].path@] == response[identifier(i)]
    &&& forall|path: Seq<char>| #[trigger]
        map.contains_key(path) ==> exists|i: int|
            0 <= i < count && (#[trigger] units[i]).path@ == path
}

#[verifier::rlimit(60)]
proof fn lemma_holds_reply(
    units: Seq<TranslationUnit>,
    response: Map<Seq<char>, Seq<char>>,
    count: nat,
)
    requires
        count <= units.len(),
    ensures
        holds_reply(
            units,
            response,
            batch_translations(units, response, count),
            count as int,
        ),
    decreases count,
{
    if count > 0 {
        let last = count - 1;
        lemma_holds_reply(units, response, last as nat);
        let before = batch_translations(units, response, last as nat);
        let after = batch_translations(units, response, count);
        assert(unit_id(last) == identifier(last));
        assert forall|i: int|
            0 <= i < count && #[trigger] last_of_path(units, i, count as int) implies after.contains_key(
            units[i].path@,
        ) && after[units[i].path@] == response[identifier(i)] by {
            if i < last {
                assert(units[last].path@ != units[i].path@);
                assert(last_of_path(units, i, last));
                assert(before.contains_key(units[i].path@));
            }
        }
        assert forall|path: Seq<char>| #[trigger] after.contains_key(path) implies exists|i: int|
            0 <= i < count && (#[trigger] units[i]).path@ == path by {
            if path != units[last].path@ {
                assert(before.contains_key(path));
                let i = choose|i: int| 0 <= i < last && (#[trigger] units[i]).path@ == path;
                assert(units[i].path@ == path);
            }
        }
    }
}

/// The reply to a batch is accepted exactly where it is complete; it then gives the translations by
/// the paths of the units.
#[verifier::rlimit(60)]
pub proof fn law_batch_reply(
    outcome: Result<StringMap<String>, AgentError>,
    units: Seq<TranslationUnit>,
    response: Map<Seq<char>, Seq<char>>,
)
    requires
        batch_outcome_is(outcome, units, response),
    ensures
        outcome is Ok <==> complete_reply(units, response),
        outcome is Ok ==> holds_reply(
            units,
            response,
            text_map(outcome->Ok_0@),
            units.len() as int,
        ),
{
    assert forall|i: int| 0 <= i < units.len() implies (#[trigger] answered(units, response, i)
        <==> response.contains_key(identifier(i)) && translates_unit(
        units[i].model(),
        response[identifier(i)],
    )) by {
        law_accepted(units[i].model(), response[unit_id(i)]);
        assert(unit_id(i) == identifier(i));
    }
    if complete_reply(units, response) {
        assert forall|i: int| 0 <= i < units.len() implies #[trigger] answered(units, response, i) by {
            assert(response.contains_key(identifier(i)));
        }
    }
    if response.len() == units.len() && forall|i: int|
        0 <= i < units.len() ==> #[trigger] answered(units, response, i) {
        assert forall|i: int| 0 <= i < units.len() implies response.contains_key(
            #[trigger] identifier(i),
        ) && translates_unit(units[i].model(), response[identifier(i)]) by {
            assert(answered(units, response, i));
        }
    }
    lemma_holds_reply(units, response, units.len());
}

/// Whether an attempt that failed is repeated, with the reason as the correction, or, where no
/// attempt is left, ends the translation. Nothing else changes.
pub open spec fn repeats_or_ends(
    before: RunModel,
    after: RunModel,
    step: RunStep,
    reason: Seq<char>,
) -> bool {
    &&& after.ends == before.ends
    &&& after.index == before.index
    &&& after.max_retries == before.max_retries
    &&& after.translations == before.translations
    &&& if before.attempt < before.max_retries {
        step is Retry && step->reason@ == reason && after.attempt == before.attempt + 1
            && after.correction == Some(reason)
    } else {
        step is Failed && step->Failed_0 is RetriesExhausted
            && step->Failed_0->RetriesExhausted_0@ == reason && after == before
    }
}

/// What follows from what came back for a batch. A complete reply ends the batch: its translations
/// are added, and the next batch begins with its first attempt and no correction. A reply that is
/// not complete, and a failure that may not occur again, cost an attempt. Any other failure ends
/// the translation.
#[verifier::rlimit(60)]
pub proof fn law_batch_step(
    before: RunModel,
    after: RunModel,
    step: RunStep,
    event: BatchEvent,
    checked: Result<StringMap<String>, AgentError>,
    units: Seq<TranslationUnit>,
)
    requires
        check_is(checked, units, event),
        step_is(before, after, step, event, checked),
    ensures
        match event {
            BatchEvent::Response(reply) => if complete_reply(units, text_map(reply@)) {
                &&& step is Completed
                &&& after.ends == before.ends
                &&& after.index == before.index + 1
                &&& after.attempt == 0
                &&& after.max_retries == before.max_retries
                &&& after.correction is None
                &&& forall|path: Seq<char>|
                    (forall|i: int| 0 <= i < units.len() ==> (#[trigger] units[i]).path@ != path)
                        ==> (#[trigger] after.translations.contains_key(path)
                        <==> before.translations.contains_key(path)) && (
                    before.translations.contains_key(path) ==> after.translations[path]
                        == before.translations[path])
                &&& forall|i: int|
                    0 <= i < units.len() && #[trigger] last_of_path(units, i, units.len() as int)
                        ==> after.translations.contains_key(units[i].path@)
                        && after.translations[units[i].path@] == text_map(reply@)[identifier(i)]
            } else {
                exists|reason: Seq<char>| #[trigger] repeats_or_ends(before, after, step, reason)
            },
            BatchEvent::Failed(error) => if error.retryable {
                repeats_or_ends(before, after, step, error.message@)
            } else {
                step is Failed && step->Failed_0 is Client && step->Failed_0->Client_0@
                    == error.message@ && after == before
            },
        },
{
    if let BatchEvent::Response(reply) = event {
        law_batch_reply(checked, units, text_map(reply@));
        match checked {
            Ok(translations) => {
                let added = text_map(translations@);
                assert forall|path: Seq<char>|
                    (forall|i: int| 0 <= i < units.len() ==> (#[trigger] units[i]).path@ != path) implies (
                #[trigger] after.translations.contains_key(path)
                    <==> before.translations.contains_key(path)) && (
                before.translations.contains_key(path) ==> after.translations[path]
                    == before.translations[path]) by {
                    if added.contains_key(path) {
                        let i = choose|i: int|
                            0 <= i < units.len() && (#[trigger] units[i]).path@ == path;
                        assert(units[i].path@ == path);
                    }
                }
            },
            Err(error) => {
                assert(repeats_or_ends(before, after, step, error.message()));
            },
        }
    }
}

/// The pause before a repeated attempt is a quarter of a second at first and doubles with each
/// attempt, up to the sixth.
pub proof fn law_retry_delay(attempt: int)
    requires
        attempt >= 0,
    ensures
        retry_delay(0) == 250,
        attempt < 5 ==> retry_delay(attempt + 1) == 2 * retry_delay(attempt),
        attempt >= 5 ==> retry_delay(attempt + 1) == retry_delay(attempt),
{
}

/// The total size of texts is that of the texts before and of the last one, in bytes.
pub proof fn law_total_bytes(units: Seq<TranslationUnit>, from: int, to: int)
    requires
        0 <= from <= to < units.len(),
    ensures
        total_bytes(units, from, from) == 0,
        total_bytes(units, from, to + 1) == total_bytes(units, from, to) + encode_utf8(
            units[to].source@,
        ).len(),
{
}

/// Planned batches take the units in order, each unit once, and no batch could take one more: it
/// ends with the last unit, has as many as the batch size allows, or the next unit would make it
/// too large.
pub proof fn law_batches_are_full(
    units: Seq<TranslationUnit>,
    batch_size: int,
    ends: Seq<usize>,
    index: int,
)
    requires
        planned(units, batch_size, ends),
        batch_size > 0,
        0 <= index < ends.len(),
    ensures
        index == 0 ==> batch_start(ends, index) == 0,
        index > 0 ==> batch_start(ends, index) == ends[index - 1],
        ends[ends.len() - 1] == units.len(),
        ends[index] - batch_start(ends, index) <= batch_size,
        ends[index] == units.len() || ends[index] - batch_start(ends, index) == batch_size
            || total_bytes(units, batch_start(ends, index), ends[index] + 1) > MAX_BATCH_BYTES,
{
    assert(is_batch_end(units, batch_start(ends, index), batch_size, ends[index] as int));
    assert(batch_start(ends, index) < ends[index] <= units.len());
}

} // verus!
