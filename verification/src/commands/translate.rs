//! Translating one target: what is asked for, and what is written.
use crate::agent::accepted;
use crate::agent::run::{law_finished_run_translates_all, RunModel};
use crate::catalog::{
    all_accepted, diff_roots, document, existing_issue, merge_result_is, merged_root,
    merged_root_issue, optional_root_ref, root_issues, unit_models, valid_root, without_slashes,
    Catalog, CatalogDiff, CatalogError, CatalogFormat, DiffModel, TranslationUnit,
};
use crate::catalog::arb::translation_issue;
use crate::catalog::laws::{law_merged_catalog_valid, law_translating_completes};
use crate::map::{text_map, StringMap};
use crate::value::{pretty_encoding, JsonModel};
use super::{plan_target, CommandError, TargetPlan};
use vstd::prelude::*;

verus! {

/// Why a target is not translated.
#[derive(Debug)]
pub enum TargetError {
    Catalog(CatalogError),
    Command(CommandError),
}

impl TargetError {
    /// The message about the error.
    pub open spec fn message(self) -> Seq<char> {
        match self {
            TargetError::Catalog(error) => error.message(),
            TargetError::Command(error) => error.message(),
        }
    }

    /// The message about the error.
    pub fn to_string(&self) -> (text: String)
        ensures
            text@ == self.message(),
    {
        match self {
            TargetError::Catalog(error) => error.to_string(),
            TargetError::Command(error) => error.to_string(),
        }
    }
}

/// What a target needs.
#[derive(Debug)]
pub enum TargetWork {
    /// It lacks nothing.
    Nothing,
    /// It is written anew, with translations of these units.
    Translate(Vec<TranslationUnit>),
}

/// Whether a target that was compared with its source lacks something.
pub open spec fn needs_work(found: DiffModel, target_missing: bool) -> bool {
    target_missing || found.units.len() > 0 || found.missing.len() > 0 || found.empty.len() > 0
        || found.changed.len() > 0
}

/// Whether an outcome of comparing a target is the one that the comparison calls for.
pub open spec fn work_is(
    outcome: Result<TargetWork, TargetError>,
    source: Catalog,
    target: Option<&Catalog>,
    locale: Seq<char>,
    force: bool,
) -> bool {
    let found = diff_roots(
        source.kind(),
        source.content(),
        optional_root_ref(target),
        locale,
        force,
        Set::empty(),
    );
    if target is Some && target->0.kind() != source.kind() {
        outcome == Err::<TargetWork, TargetError>(
            TargetError::Catalog(CatalogError::FormatMismatch),
        )
    } else if found.conflicts.len() > 0 {
        outcome == Err::<TargetWork, TargetError>(
            TargetError::Command(CommandError::TypeConflicts(found.conflicts.len() as usize)),
        )
    } else if needs_work(found, target is None) {
        outcome is Ok && outcome->Ok_0 is Translate && unit_models(outcome->Ok_0->Translate_0@)
            == found.units
    } else {
        outcome is Ok && outcome->Ok_0 is Nothing
    }
}

/// Compares a target with its source and decides what it needs.
pub fn begin_target(source: &Catalog, target: Option<&Catalog>, locale: &str, force: bool) -> (outcome:
    Result<TargetWork, TargetError>)
    ensures
        work_is(outcome, *source, target, locale@, force),
{
    let diff: CatalogDiff = match source.diff(target, locale, force) {
        Ok(diff) => diff,
        Err(error) => {
            return Err(TargetError::Catalog(error));
        },
    };
    assert(diff.model().conflicts.len() == diff.report.conflicts@.len());
    assert(diff.model().units.len() == diff.units@.len());
    assert(diff.model().missing.len() == diff.report.missing@.len());
    assert(diff.model().empty.len() == diff.report.empty@.len());
    assert(diff.model().changed.len() == diff.report.changed@.len());
    match plan_target(&diff, target.is_none()) {
        Err(error) => Err(TargetError::Command(error)),
        Ok(TargetPlan::Nothing) => Ok(TargetWork::Nothing),
        Ok(TargetPlan::Translate) => Ok(TargetWork::Translate(diff.units)),
    }
}

/// The contents of the target file after its translation.
pub fn finish_target(
    source: &Catalog,
    target: Option<Catalog>,
    translations: StringMap<String>,
    locale: &str,
) -> (outcome: Result<Vec<u8>, CatalogError>)
    ensures
        exists|merged: Result<Catalog, CatalogError>| #[trigger]
            merge_result_is(merged, *source, target, text_map(translations@), locale@) && (
            match merged {
                Ok(catalog) => outcome is Ok && outcome->Ok_0@ == pretty_encoding(
                    catalog.content(),
                ).push(10u8),
                Err(error) => outcome == Err::<Vec<u8>, CatalogError>(error),
            }),
{
    let merged = source.merge(target, translations, locale);
    match merged {
        Ok(catalog) => catalog.to_pretty_bytes(),
        Err(error) => Err(error),
    }
}

/// Where a target has no type conflict with its source and its existing translations fit, a
/// finished translation of the strings that the comparison requests can be merged, nothing is
/// wrong with the merged catalog, and it shows no difference from the source.
pub proof fn law_finished_run_completes_target(
    format: CatalogFormat,
    source: JsonModel,
    target: Option<JsonModel>,
    locale: Seq<char>,
    force: bool,
    outdated: Set<Seq<char>>,
    units: Seq<TranslationUnit>,
    run: RunModel,
)
    requires
        valid_root(format, source),
        target is Some ==> valid_root(format, target->0),
        diff_roots(format, source, target, locale, force, outdated).conflicts.len() == 0,
        unit_models(units) == diff_roots(format, source, target, locale, force, outdated).units,
        run.follows(units),
        run.finished(),
        format is Arb && target is Some ==> existing_issue(
            document(source),
            document(target->0),
            Set::empty(),
            document(source).len(),
        ) is None,
    ensures
        merged_root_issue(format, source, target, run.translations, locale) is None,
        root_issues(format, source, target, run.translations).len() == 0,
        all_accepted(format, source, run.translations),
        diff_roots(
            format,
            source,
            Some(merged_root(format, source, target, run.translations, locale)),
            locale,
            false,
            Set::empty(),
        ) == DiffModel::none(),
{
    law_finished_run_translates_all(run, units);
    law_translating_completes(format, source, target, locale, force, outdated, run.translations);
    let models = unit_models(units);
    assert(run.start() == units.len());
    assert forall|path: Seq<char>| #[trigger] run.translations.contains_key(path) implies exists|
        u: int,
    |
        0 <= u < models.len() && (#[trigger] models[u]).path == path && (models[u].kind is Arb
            ==> translation_issue(
            without_slashes(path),
            models[u].source,
            run.translations[path],
        ) is None) by {
        let u = choose|u: int|
            0 <= u < units.len() && (#[trigger] units[u]).path@ == path && accepted(
                units[u].model(),
                run.translations[path],
            );
        assert(models[u] == units[u].model());
    }
    law_merged_catalog_valid(format, source, target, locale, force, outdated, run.translations);
}

} // verus!
