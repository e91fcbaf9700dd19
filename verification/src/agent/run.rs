//! The course of a translation: which batch is asked for next, and what follows from each reply.
use crate::catalog::json_laws::{covered, none_empty};
use crate::catalog::laws::only_requested;
use crate::catalog::{unit_models, Catalog, TranslationUnit};
use crate::map::{text_map, StringMap};
use crate::text::optional_text;
use super::{
    accepted, answered, batch_end, batch_outcome_is, batch_translations, find_oversized,
    is_batch_end, total_bytes, unit_bytes, validate_batch, AgentError, MAX_BATCH_BYTES,
    MAX_UNIT_BYTES, ModelClientError,
};
use vstd::prelude::*;
use vstd::slice::slice_subrange;

verus! {

/// The position at which a batch begins.
pub open spec fn batch_start(ends: Seq<usize>, index: int) -> int {
    if index <= 0 {
        0
    } else {
        ends[index - 1] as int
    }
}

/// Whether batches cover all units in order, each as large as is allowed.
pub open spec fn planned(units: Seq<TranslationUnit>, batch_size: int, ends: Seq<usize>) -> bool {
    &&& forall|k: int|
        0 <= k < ends.len() ==> is_batch_end(units, batch_start(ends, k), batch_size, #[trigger] ends[k] as int)
    &&& batch_start(ends, ends.len() as int) == units.len()
    &&& forall|k: int| 0 <= k < ends.len() ==> batch_start(ends, k) < (#[trigger] ends[k]) <= units.len()
}

/// Plans the batches of units.
pub fn plan_batches(units: &[TranslationUnit], batch_size: usize) -> (ends: Vec<usize>)
    ensures
        planned(units@, batch_size as int, ends@),
{
    let mut ends: Vec<usize> = Vec::new();
    let mut start: usize = 0;
    while start < units.len()
        invariant
            start <= units@.len(),
            start == batch_start(ends@, ends@.len() as int),
            forall|k: int|
                0 <= k < ends@.len() ==> is_batch_end(
                    units@,
                    batch_start(ends@, k),
                    batch_size as int,
                    #[trigger] ends@[k] as int,
                ),
            forall|k: int|
                0 <= k < ends@.len() ==> batch_start(ends@, k) < (#[trigger] ends@[k]) <= units@.len(),
        decreases units@.len() - start,
    {
        let end = batch_end(units, start, batch_size);
        let ghost before = ends@;
        ends.push(end);
        assert forall|k: int| 0 <= k < ends@.len() implies is_batch_end(
            units@,
            batch_start(ends@, k),
            batch_size as int,
            #[trigger] ends@[k] as int,
        ) && batch_start(ends@, k) < ends@[k] <= units@.len() by {
            if k < before.len() {
                assert(ends@[k] == before[k]);
                assert(batch_start(ends@, k) == batch_start(before, k));
            } else {
                assert(batch_start(ends@, k) == batch_start(before, k));
            }
        }
        start = end;
    }
    ends
}

/// What came back for a request.
pub enum BatchEvent {
    Response(StringMap<String>),
    Failed(ModelClientError),
}

/// What follows from what came back.
pub enum RunStep {
    /// The batch is done.
    Completed,
    /// The batch is asked for again, after a pause.
    Retry { reason: String, delay_millis: u64 },
    /// The translation has failed.
    Failed(AgentError),
}

/// The request that is due: the units `start..end`, and the numbers of the batch and the attempt,
/// counted from one.
#[derive(Debug, Clone, Copy, PartialEq, Eq, Structural)]
pub struct BatchRequest {
    pub start: usize,
    pub end: usize,
    pub batch_index: usize,
    pub total_batches: usize,
    pub attempt: usize,
    pub max_attempts: usize,
}

/// The next number, as far as there is one.
pub open spec fn one_more(number: int) -> int {
    if number < usize::MAX {
        number + 1
    } else {
        number
    }
}

fn next(number: usize) -> (result: usize)
    ensures
        result == one_more(number as int),
{
    if number < usize::MAX {
        number + 1
    } else {
        number
    }
}

/// The course of a translation.
pub struct TranslationRun {
    ends: Vec<usize>,
    index: usize,
    attempt: usize,
    max_retries: usize,
    correction: Option<String>,
    translations: StringMap<String>,
}

/// What the course of a translation is.
#[verifier::ext_equal]
pub struct RunModel {
    pub ends: Seq<usize>,
    pub index: int,
    pub attempt: int,
    pub max_retries: int,
    pub correction: Option<Seq<char>>,
    pub translations: Map<Seq<char>, Seq<char>>,
}

impl RunModel {
    /// Whether all batches are done.
    pub open spec fn finished(self) -> bool {
        self.index >= self.ends.len()
    }

    /// The position at which the batch that is due begins.
    pub open spec fn start(self) -> int {
        batch_start(self.ends, self.index)
    }

    /// The position before which the batch that is due ends.
    pub open spec fn end(self) -> int {
        self.ends[self.index] as int
    }

    /// Whether the course is one of translating these units: the batches cover them, each unit of
    /// the batches that are done has a translation, and each translation is accepted for a unit
    /// of these batches.
    pub open spec fn follows(self, units: Seq<TranslationUnit>) -> bool {
        &&& 0 <= self.index <= self.ends.len()
        &&& 0 <= self.attempt <= self.max_retries
        &&& batch_start(self.ends, self.ends.len() as int) == units.len()
        &&& forall|k: int|
            0 <= k < self.ends.len() ==> batch_start(self.ends, k) < (#[trigger] self.ends[k])
                <= units.len()
        &&& translates(units, self.start(), self.translations)
    }
}

/// Whether translations are those of the first `count` units.
pub open spec fn translates(
    units: Seq<TranslationUnit>,
    count: int,
    translations: Map<Seq<char>, Seq<char>>,
) -> bool {
    &&& forall|i: int| 0 <= i < count ==> translations.contains_key((#[trigger] units[i]).path@)
    &&& forall|path: Seq<char>| #[trigger]
        translations.contains_key(path) ==> exists|i: int|
            0 <= i < count && (#[trigger] units[i]).path@ == path && accepted(
                units[i].model(),
                translations[path],
            )
}

/// The pause before an attempt is repeated, in milliseconds: it doubles with each attempt, up to
/// the sixth.
pub open spec fn retry_delay(attempt: int) -> int {
    if attempt <= 0 {
        250
    } else if attempt == 1 {
        500
    } else if attempt == 2 {
        1000
    } else if attempt == 3 {
        2000
    } else if attempt == 4 {
        4000
    } else {
        8000
    }
}

/// The pause before an attempt is repeated, in milliseconds.
pub fn delay_after(attempt: usize) -> (delay: u64)
    ensures
        delay == retry_delay(attempt as int),
{
    let mut delay: u64 = 250;
    let mut done: usize = 0;
    while done < attempt && done < 5
        invariant
            done <= 5,
            done <= attempt,
            delay == retry_delay(done as int),
        decreases 5 - done,
    {
        delay = delay * 2;
        done = done + 1;
    }
    delay
}

/// Whether a step is the one that a failed attempt calls for.
pub open spec fn failure_step_is(
    before: RunModel,
    after: RunModel,
    step: RunStep,
    reason: Seq<char>,
) -> bool {
    if before.attempt < before.max_retries {
        (match step {
            RunStep::Retry { reason: text, delay_millis } => text@ == reason && delay_millis
                == retry_delay(before.attempt),
            _ => false,
        }) && after == (RunModel {
            attempt: before.attempt + 1,
            correction: Some(reason),
            ..before
        })
    } else {
        (match step {
            RunStep::Failed(AgentError::RetriesExhausted(text)) => text@ == reason,
            _ => false,
        }) && after == before
    }
}

/// Whether a step is the one that an event calls for; `checked` is the outcome of checking a
/// reply.
pub open spec fn step_is(
    before: RunModel,
    after: RunModel,
    step: RunStep,
    event: BatchEvent,
    checked: Result<StringMap<String>, AgentError>,
) -> bool {
    match event {
        BatchEvent::Response(_) => match checked {
            Ok(translations) => step is Completed && after == (RunModel {
                index: before.index + 1,
                attempt: 0,
                correction: None,
                translations: before.translations.union_prefer_right(text_map(translations@)),
                ..before
            }),
            Err(error) => failure_step_is(before, after, step, error.message()),
        },
        BatchEvent::Failed(error) => if error.retryable {
            failure_step_is(before, after, step, error.message@)
        } else {
            (match step {
                RunStep::Failed(AgentError::Client(text)) => text@ == error.message@,
                _ => false,
            }) && after == before
        },
    }
}

/// Whether an outcome is that of checking the reply of an event.
pub open spec fn check_is(
    checked: Result<StringMap<String>, AgentError>,
    units: Seq<TranslationUnit>,
    event: BatchEvent,
) -> bool {
    match event {
        BatchEvent::Response(response) => batch_outcome_is(checked, units, text_map(response@)),
        BatchEvent::Failed(_) => true,
    }
}

proof fn lemma_batch_translations(
    units: Seq<TranslationUnit>,
    response: Map<Seq<char>, Seq<char>>,
    count: nat,
)
    requires
        count <= units.len(),
        forall|i: int| 0 <= i < count ==> #[trigger] answered(units, response, i),
    ensures
        translates(units, count as int, batch_translations(units, response, count)),
    decreases count,
{
    if count > 0 {
        let at = count - 1;
        lemma_batch_translations(units, response, at as nat);
        let before = batch_translations(units, response, at as nat);
        let after = batch_translations(units, response, count);
        assert(answered(units, response, at));
        assert forall|i: int| 0 <= i < count implies after.contains_key((#[trigger] units[i]).path@) by {
            if i < at {
                assert(before.contains_key(units[i].path@));
            }
        }
        assert forall|path: Seq<char>| #[trigger] after.contains_key(path) implies exists|i: int|
            0 <= i < count && (#[trigger] units[i]).path@ == path && accepted(
                units[i].model(),
                after[path],
            ) by {
            if path == units[at].path@ {
                assert(accepted(units[at].model(), after[path]));
            } else {
                let i = choose|i: int|
                    0 <= i < at && (#[trigger] units[i]).path@ == path && accepted(
                        units[i].model(),
                        before[path],
                    );
                assert(units[i].path@ == path && accepted(units[i].model(), after[path]));
            }
        }
    }
}

proof fn lemma_translates_more(
    units: Seq<TranslationUnit>,
    start: int,
    end: int,
    before: Map<Seq<char>, Seq<char>>,
    batch: Map<Seq<char>, Seq<char>>,
)
    requires
        0 <= start <= end <= units.len(),
        translates(units, start, before),
        translates(units.subrange(start, end), end - start, batch),
    ensures
        translates(units, end, before.union_prefer_right(batch)),
{
    let part = units.subrange(start, end);
    let after = before.union_prefer_right(batch);
    assert forall|i: int| 0 <= i < end implies after.contains_key((#[trigger] units[i]).path@) by {
        if i < start {
            assert(before.contains_key(units[i].path@));
        } else {
            assert(part[i - start] == units[i]);
            assert(batch.contains_key(part[i - start].path@));
        }
    }
    assert forall|path: Seq<char>| #[trigger] after.contains_key(path) implies exists|i: int|
        0 <= i < end && (#[trigger] units[i]).path@ == path && accepted(
            units[i].model(),
            after[path],
        ) by {
        if batch.contains_key(path) {
            let i = choose|i: int|
                0 <= i < end - start && (#[trigger] part[i]).path@ == path && accepted(
                    part[i].model(),
                    batch[path],
                );
            assert(units[start + i] == part[i]);
        } else {
            assert(before.contains_key(path));
            let i = choose|i: int|
                0 <= i < start && (#[trigger] units[i]).path@ == path && accepted(
                    units[i].model(),
                    before[path],
                );
            assert(units[i].path@ == path);
        }
    }
}

impl TranslationRun {
    /// What the course is.
    pub closed spec fn model(self) -> RunModel {
        RunModel {
            ends: self.ends@,
            index: self.index as int,
            attempt: self.attempt as int,
            max_retries: self.max_retries as int,
            correction: optional_text(self.correction),
            translations: text_map(self.translations@),
        }
    }

    /// Begins the translation of units, unless one of them is too large.
    pub fn start(units: &[TranslationUnit], batch_size: usize, max_retries: usize) -> (outcome: Result<
        Self,
        AgentError,
    >)
        ensures
            outcome is Ok <==> forall|i: int|
                0 <= i < units@.len() ==> unit_bytes(#[trigger] units@[i]) <= MAX_UNIT_BYTES,
            outcome is Ok ==> ({
                let run = outcome->Ok_0.model();
                &&& planned(units@, batch_size as int, run.ends)
                &&& run == (RunModel {
                    ends: run.ends,
                    index: 0,
                    attempt: 0,
                    max_retries: max_retries as int,
                    correction: None,
                    translations: Map::empty(),
                })
                &&& run.follows(units@)
            }),
            outcome is Err ==> outcome->Err_0 is UnitTooLarge && exists|at: int|
                0 <= at < units@.len() && unit_bytes(#[trigger] units@[at]) > MAX_UNIT_BYTES
                    && outcome->Err_0->UnitTooLarge_0@ == units@[at].path@ && forall|j: int|
                    0 <= j < at ==> unit_bytes(#[trigger] units@[j]) <= MAX_UNIT_BYTES,
    {
        if let Some(at) = find_oversized(units) {
            assert(unit_bytes(units@[at as int]) > MAX_UNIT_BYTES);
            return Err(AgentError::UnitTooLarge(units[at].path.clone()));
        }
        let ends = plan_batches(units, batch_size);
        let run = TranslationRun {
            ends,
            index: 0,
            attempt: 0,
            max_retries,
            correction: None,
            translations: StringMap::new(),
        };
        assert(run.model().translations =~= Map::empty());
        Ok(run)
    }

    /// The request that is due; none when all batches are done.
    pub fn request(&self) -> (request: Option<BatchRequest>)
        ensures
            request is None <==> self.model().finished(),
            request is Some ==> request->0.start == self.model().start() && request->0.end
                == self.model().end() && request->0.batch_index == self.model().index + 1
                && request->0.total_batches == self.model().ends.len() && request->0.attempt
                == one_more(self.model().attempt) && request->0.max_attempts == one_more(
                self.model().max_retries,
            ),
    {
        let total: usize = self.ends.len();
        if self.index >= total {
            return None;
        }
        let start: usize = if self.index == 0 {
            0
        } else {
            self.ends[self.index - 1]
        };
        Some(
            BatchRequest {
                start,
                end: self.ends[self.index],
                batch_index: self.index + 1,
                total_batches: total,
                attempt: next(self.attempt),
                max_attempts: next(self.max_retries),
            },
        )
    }

    /// What was wrong with the attempt before, which the model is told of.
    pub fn correction(&self) -> (text: Option<&str>)
        ensures
            match text {
                Some(found) => self.model().correction == Some(found@),
                None => self.model().correction is None,
            },
    {
        match &self.correction {
            Some(found) => Some(found.as_str()),
            None => None,
        }
    }

    /// A failed attempt: it is repeated, as long as attempts are left.
    fn fail(&mut self, reason: String) -> (step: RunStep)
        ensures
            failure_step_is(old(self).model(), final(self).model(), step, reason@),
    {
        let ghost before = self.model();
        if self.attempt < self.max_retries {
            let delay_millis = delay_after(self.attempt);
            self.attempt = self.attempt + 1;
            self.correction = Some(reason.clone());
            assert(self.model() =~= (RunModel {
                attempt: before.attempt + 1,
                correction: Some(reason@),
                ..before
            }));
            RunStep::Retry { reason, delay_millis }
        } else {
            RunStep::Failed(AgentError::RetriesExhausted(reason))
        }
    }

    /// Takes what came back for the request that is due.
    pub fn handle(
        &mut self,
        catalog: &Catalog,
        units: &[TranslationUnit],
        event: BatchEvent,
    ) -> (step: RunStep)
        requires
            old(self).model().follows(units@),
            !old(self).model().finished(),
        ensures
            exists|checked: Result<StringMap<String>, AgentError>| #[trigger]
                check_is(
                    checked,
                    units@.subrange(old(self).model().start(), old(self).model().end()),
                    event,
                ) && step_is(old(self).model(), final(self).model(), step, event, checked),
            final(self).model().follows(units@),
    {
        let ghost before = self.model();
        let ghost batch = units@.subrange(before.start(), before.end());
        assert(batch_start(before.ends, before.index) < before.ends[before.index] <= units@.len());
        assert(before.index > 0 ==> before.ends[before.index - 1] <= units@.len());
        match event {
            BatchEvent::Failed(error) => {
                let ghost checked: Result<StringMap<String>, AgentError> = Err(
                    AgentError::Client(error.message),
                );
                assert(check_is(checked, batch, event));
                if error.retryable {
                    self.fail(error.message)
                } else {
                    RunStep::Failed(AgentError::Client(error.message))
                }
            },
            BatchEvent::Response(response) => {
                let start: usize = if self.index == 0 {
                    0
                } else {
                    self.ends[self.index - 1]
                };
                let total: usize = self.ends.len();
                assert(self.index < total);
                let part = slice_subrange(units, start, self.ends[self.index]);
                let checked = validate_batch(catalog, part, &response);
                assert(check_is(checked, batch, event));
                match checked {
                    Ok(translations) => {
                        let ghost added = text_map(translations@);
                        proof {
                            lemma_batch_translations(batch, text_map(response@), batch.len());
                            lemma_translates_more(
                                units@,
                                before.start(),
                                before.end(),
                                before.translations,
                                added,
                            );
                        }
                        let ghost held = self.translations@;
                        self.translations.extend(translations);
                        self.index = self.index + 1;
                        self.attempt = 0;
                        self.correction = None;
                        proof {
                            assert(text_map(self.translations@) =~= text_map(
                                held,
                            ).union_prefer_right(added));
                            assert(self.model().start() == before.end());
                        }
                        RunStep::Completed
                    },
                    Err(error) => self.fail(error.to_string()),
                }
            },
        }
    }

    /// The translations of the batches that are done, by their paths.
    pub fn into_translations(self) -> (translations: StringMap<String>)
        ensures
            text_map(translations@) == self.model().translations,
    {
        self.translations
    }
}

/// A finished translation has an accepted translation, which is not empty, for each unit that was
/// asked for, and no other.
pub proof fn law_finished_run_translates_all(run: RunModel, units: Seq<TranslationUnit>)
    requires
        run.follows(units),
        run.finished(),
    ensures
        covered(unit_models(units), run.translations),
        only_requested(unit_models(units), run.translations),
        none_empty(run.translations),
{
    let models = unit_models(units);
    assert(run.start() == units.len());
    assert forall|i: int| 0 <= i < models.len() implies run.translations.contains_key(
        (#[trigger] models[i]).path,
    ) by {
        assert(models[i] == units[i].model());
        assert(run.translations.contains_key(units[i].path@));
    }
    assert forall|path: Seq<char>| #[trigger] run.translations.contains_key(path) implies exists|
        i: int,
    | 0 <= i < models.len() && (#[trigger] models[i]).path == path by {
        let i = choose|i: int|
            0 <= i < units.len() && (#[trigger] units[i]).path@ == path && accepted(
                units[i].model(),
                run.translations[path],
            );
        assert(models[i].path == path);
    }
    assert forall|path: Seq<char>| #[trigger]
        run.translations.contains_key(path) implies run.translations[path].len() > 0 by {
        let i = choose|i: int|
            0 <= i < units.len() && (#[trigger] units[i]).path@ == path && accepted(
                units[i].model(),
                run.translations[path],
            );
        assert(accepted(units[i].model(), run.translations[path]));
    }
}

/// A planned batch has at least one unit and no more than the batch size allows, and its source
/// texts are within the size limit unless it has a single unit.
pub proof fn law_batches_within_limits(
    units: Seq<TranslationUnit>,
    batch_size: int,
    ends: Seq<usize>,
    index: int,
)
    requires
        planned(units, batch_size, ends),
        0 <= index < ends.len(),
    ensures
        batch_start(ends, index) < ends[index],
        ends[index] - batch_start(ends, index) == 1 || ends[index] - batch_start(ends, index)
            <= batch_size,
        ends[index] - batch_start(ends, index) == 1 || total_bytes(
            units,
            batch_start(ends, index),
            ends[index] as int,
        ) <= MAX_BATCH_BYTES,
{
    assert(is_batch_end(units, batch_start(ends, index), batch_size, ends[index] as int));
    assert(batch_start(ends, index) < ends[index] <= units.len());
}

} // verus!
