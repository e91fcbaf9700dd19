//! Accepting the existing translations of a project.
use crate::catalog::{
    diff_roots, document, entries_map, existing_issue, fingerprint_entries, Catalog, CatalogError,
    CatalogFormat,
};
use crate::catalog::arb::issue_text;
use crate::state::{STATE_VERSION, StateModel, TranslationState};
use crate::text::texts;
use vstd::prelude::*;

verus! {

/// What was found where the file of a target ought to be.
#[derive(Debug)]
pub enum TargetFile {
    Missing,
    Unreadable(String),
    Loaded(Catalog),
}

/// A target whose translations are to be accepted.
#[derive(Debug)]
pub struct TargetInput {
    pub locale: String,
    pub file: TargetFile,
}

/// What became of a target.
#[derive(Debug)]
pub enum TargetOutcome {
    /// There is no file.
    Skipped,
    /// The translations are accepted.
    Accepted,
    /// The file cannot be read, or its translations do not fit the source.
    Refused(String),
}

/// The outcome of accepting translations.
#[derive(Debug)]
pub struct StateUpdate {
    pub state: TranslationState,
    pub outcomes: Vec<TargetOutcome>,
    /// Whether there is a record to keep at all.
    pub relevant: bool,
    /// Whether the record differs from the one before.
    pub changed: bool,
}

/// Whether the translations of a target can be accepted: it has the format of the source, no type
/// conflict, and every existing translation fits its message.
pub open spec fn acceptable(source: Catalog, locale: Seq<char>, target: Catalog) -> bool {
    &&& target.kind() == source.kind()
    &&& diff_roots(
        source.kind(),
        source.content(),
        Some(target.content()),
        locale,
        false,
        Set::empty(),
    ).conflicts.len() == 0
    &&& source.kind() is Arb ==> existing_issue(
        document(source.content()),
        document(target.content()),
        Set::empty(),
        document(source.content()).len(),
    ) is None
}

/// The message about why the translations of a target are not accepted.
pub open spec fn refusal_text(source: Catalog, locale: Seq<char>, target: Catalog) -> Seq<char> {
    let conflicts = diff_roots(
        source.kind(),
        source.content(),
        Some(target.content()),
        locale,
        false,
        Set::empty(),
    ).conflicts;
    if target.kind() != source.kind() {
        "源文件与目标文件格式不一致"@
    } else if conflicts.len() > 0 {
        "合并时发现类型冲突: "@ + conflicts[0].path
    } else {
        issue_text(
            existing_issue(
                document(source.content()),
                document(target.content()),
                Set::empty(),
                document(source.content()).len(),
            )->0,
        )
    }
}

/// Whether the translations of an input are accepted.
pub open spec fn is_accepted(source: Catalog, input: TargetInput) -> bool {
    match input.file {
        TargetFile::Loaded(target) => acceptable(source, input.locale@, target),
        _ => false,
    }
}

/// Whether an outcome is the one that an input calls for.
pub open spec fn outcome_fits(outcome: TargetOutcome, source: Catalog, input: TargetInput) -> bool {
    match input.file {
        TargetFile::Missing => outcome is Skipped,
        TargetFile::Unreadable(details) => outcome is Refused && outcome->Refused_0@ == details@,
        TargetFile::Loaded(target) => if acceptable(source, input.locale@, target) {
            outcome is Accepted
        } else {
            outcome is Refused && outcome->Refused_0@ == refusal_text(source, input.locale@, target)
        },
    }
}

/// The records after the first `count` inputs.
pub open spec fn records_after(
    records: Map<Seq<char>, Map<Seq<char>, Seq<char>>>,
    source: Catalog,
    inputs: Seq<TargetInput>,
    prints: Map<Seq<char>, Seq<char>>,
    count: nat,
) -> Map<Seq<char>, Map<Seq<char>, Seq<char>>>
    decreases count,
{
    if count == 0 {
        records
    } else {
        let before = records_after(records, source, inputs, prints, (count - 1) as nat);
        if is_accepted(source, inputs[count - 1]) {
            before.insert(inputs[count - 1].locale@, prints)
        } else {
            before
        }
    }
}

/// Whether one of the first `count` inputs changed a record.
pub open spec fn records_changed(
    records: Map<Seq<char>, Map<Seq<char>, Seq<char>>>,
    source: Catalog,
    inputs: Seq<TargetInput>,
    prints: Map<Seq<char>, Seq<char>>,
    count: nat,
) -> bool
    decreases count,
{
    if count == 0 {
        false
    } else {
        let before = records_after(records, source, inputs, prints, (count - 1) as nat);
        let locale = inputs[count - 1].locale@;
        records_changed(records, source, inputs, prints, (count - 1) as nat) || (is_accepted(
            source,
            inputs[count - 1],
        ) && !(before.contains_key(locale) && before[locale] == prints))
    }
}

/// Whether one of the first `count` inputs is accepted.
pub open spec fn some_accepted(source: Catalog, inputs: Seq<TargetInput>, count: int) -> bool {
    exists|i: int| 0 <= i < count && is_accepted(source, #[trigger] inputs[i])
}

/// The state that an update begins with: the one before, or a new one where there was none or it
/// is about another source.
pub open spec fn starting_state(
    before: Option<TranslationState>,
    source_locale: Seq<char>,
    format: CatalogFormat,
) -> StateModel {
    match before {
        None => StateModel {
            version: STATE_VERSION,
            source_locale,
            source_format: format,
            targets: Map::empty(),
        },
        Some(state) => if state.model().source_locale == source_locale && state.model().source_format
            == format {
            state.model()
        } else {
            StateModel {
                version: state.model().version,
                source_locale,
                source_format: format,
                targets: Map::empty(),
            }
        },
    }
}

/// Whether a state is about another source.
pub open spec fn about_other(
    before: Option<TranslationState>,
    source_locale: Seq<char>,
    format: CatalogFormat,
) -> bool {
    before is Some && !(before->0.model().source_locale == source_locale
        && before->0.model().source_format == format)
}

/// Checks the translations of a target.
fn check_target(source: &Catalog, locale: &str, target: &Catalog) -> (outcome: Result<
    (),
    CatalogError,
>)
    ensures
        outcome is Ok <==> acceptable(*source, locale@, *target),
        outcome is Err ==> outcome->Err_0.message() == refusal_text(*source, locale@, *target),
{
    let diff = match source.diff(Some(target), locale, false) {
        Ok(diff) => diff,
        Err(error) => {
            return Err(error);
        },
    };
    assert(diff.model().conflicts.len() == diff.report.conflicts@.len());
    if diff.report.conflicts.len() > 0 {
        assert(diff.model().conflicts[0] == diff.report.conflicts@[0].model());
        return Err(CatalogError::MergeTypeConflict(diff.report.conflicts[0].path.clone()));
    }
    source.validate_existing_translations(target)
}

/// Whether the outcome of accepting translations is the one that the targets call for.
pub open spec fn update_is(
    result: StateUpdate,
    source: Catalog,
    source_locale: Seq<char>,
    before: Option<TranslationState>,
    inputs: Seq<TargetInput>,
    project_locales: Seq<Seq<char>>,
) -> bool {
    let prints = entries_map(fingerprint_entries(source.kind(), source.content()));
    let start = starting_state(before, source_locale, source.kind());
    let count = inputs.len();
    let recorded = records_after(start.targets, source, inputs, prints, count);
    let kept = recorded.restrict(project_locales.to_set());
    &&& result.outcomes@.len() == count
    &&& forall|i: int|
        0 <= i < count ==> outcome_fits(#[trigger] result.outcomes@[i], source, inputs[i])
    &&& result.relevant == (before is Some || some_accepted(source, inputs, count as int))
    &&& result.state.model() == (StateModel {
        targets: if result.relevant {
            kept
        } else {
            recorded
        },
        ..start
    })
    &&& result.changed == (about_other(before, source_locale, source.kind()) || records_changed(
        start.targets,
        source,
        inputs,
        prints,
        count,
    ) || (result.relevant && kept != recorded))
}

/// Accepts the existing translations of targets: records for each target that passes its check
/// the source texts that its translations stand for, and drops the records of targets that the
/// project no longer has.
pub fn update(
    source: &Catalog,
    source_locale: &str,
    before: Option<TranslationState>,
    inputs: &Vec<TargetInput>,
    project_locales: &Vec<String>,
) -> (result: StateUpdate)
    ensures
        update_is(result, *source, source_locale@, before, inputs@, texts(project_locales@)),
{
    let format = source.format();
    let had_state = before.is_some();
    let ghost start = starting_state(before, source_locale@, source.kind());
    let ghost prints = entries_map(fingerprint_entries(source.kind(), source.content()));
    let mut changed = false;
    let mut state = match before {
        Some(found) => found,
        None => TranslationState::new(source_locale, format),
    };
    if !state.matches_source(source_locale, format) {
        state.reset_source(source_locale, format);
        changed = true;
    }
    assert(state.model() =~= start);
    let mut outcomes: Vec<TargetOutcome> = Vec::new();
    let mut accepted = false;
    for i in 0..inputs.len()
        invariant
            start == starting_state(before, source_locale@, source.kind()),
            prints == entries_map(fingerprint_entries(source.kind(), source.content())),
            state.model() == (StateModel {
                targets: records_after(start.targets, *source, inputs@, prints, i as nat),
                ..start
            }),
            changed == (about_other(before, source_locale@, source.kind()) || records_changed(
                start.targets,
                *source,
                inputs@,
                prints,
                i as nat,
            )),
            accepted == some_accepted(*source, inputs@, i as int),
            outcomes@.len() == i,
            forall|j: int|
                0 <= j < i ==> outcome_fits(#[trigger] outcomes@[j], *source, inputs@[j]),
    {
        let input = &inputs[i];
        let ghost held = state.model();
        let ghost was_accepted = accepted;
        let outcome = match &input.file {
            TargetFile::Missing => TargetOutcome::Skipped,
            TargetFile::Unreadable(details) => TargetOutcome::Refused(details.clone()),
            TargetFile::Loaded(target) => match check_target(source, input.locale.as_str(), target) {
                Err(error) => TargetOutcome::Refused(error.to_string()),
                Ok(_) => {
                    let fingerprints = source.source_fingerprints();
                    if state.set_target(input.locale.as_str(), fingerprints) {
                        changed = true;
                    }
                    accepted = true;
                    TargetOutcome::Accepted
                },
            },
        };
        proof {
            if is_accepted(*source, inputs@[i as int]) {
                assert(some_accepted(*source, inputs@, i + 1));
            } else if some_accepted(*source, inputs@, i + 1) {
                let j = choose|j: int| 0 <= j < i + 1 && is_accepted(*source, #[trigger] inputs@[j]);
                assert(some_accepted(*source, inputs@, i as int));
            }
            if was_accepted {
                let j = choose|j: int| 0 <= j < i && is_accepted(*source, #[trigger] inputs@[j]);
                assert(is_accepted(*source, inputs@[j]));
                assert(some_accepted(*source, inputs@, i + 1));
            }
        }
        outcomes.push(outcome);
    }
    let relevant = had_state || accepted;
    if relevant {
        if state.retain_targets(project_locales) {
            changed = true;
        }
    }
    StateUpdate { state, outcomes, relevant, changed }
}

} // verus!
