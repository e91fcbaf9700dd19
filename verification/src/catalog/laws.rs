//! What comparing, translating and merging catalogs guarantee together, in both formats.
use crate::value::{keys, JsonModel};
use super::{
    accepts, all_accepted, diff_roots, document, existing_issue, merged_root, merged_root_issue,
    root_issues, target_document, valid_root, CatalogFormat, DiffModel, UnitModel,
};
use super::arb::{is_metadata, lemma_messages_are_texts};
use super::json::translatable;
use super::json_laws::{covered, law_merge_completes, law_units_translatable, none_empty};
use super::message_laws::{
    all_fit_units, law_document_merge_completes, law_merged_document_valid, law_merged_texts_fit,
    members_or_none,
};
use super::messages::{diff_document, diff_member, diff_members, message_leaves, message_path};
use vstd::prelude::*;

verus! {

/// Every translation is one that was requested.
pub open spec fn only_requested(
    units: Seq<UnitModel>,
    translations: Map<Seq<char>, Seq<char>>,
) -> bool {
    forall|path: Seq<char>| #[trigger]
        translations.contains_key(path) ==> exists|i: int|
            0 <= i < units.len() && (#[trigger] units[i]).path == path
}

proof fn lemma_member_units_accepted(
    source: Seq<(Seq<char>, JsonModel)>,
    target: Option<Seq<(Seq<char>, JsonModel)>>,
    force: bool,
    outdated: Set<Seq<char>>,
    count: nat,
)
    requires
        count <= source.len(),
    ensures
        forall|i: int|
            0 <= i < diff_members(source, target, force, outdated, count).units.len()
                ==> translatable(
                message_leaves(source, count),
                (#[trigger] diff_members(source, target, force, outdated, count).units[i]).path,
            ),
    decreases count,
{
    if count > 0 {
        let at = count - 1;
        lemma_member_units_accepted(source, target, force, outdated, at as nat);
        let before = diff_members(source, target, force, outdated, at as nat).units;
        let step = diff_member(source, target, at, force, outdated).units;
        let units = diff_members(source, target, force, outdated, count).units;
        assert(units == before + step);
        let (shorter, longer) = (message_leaves(source, at as nat), message_leaves(source, count));
        assert forall|i: int| 0 <= i < units.len() implies translatable(
            longer,
            (#[trigger] units[i]).path,
        ) by {
            if i < before.len() {
                let j = choose|j: int|
                    0 <= j < shorter.len() && (#[trigger] shorter[j]).0 == before[i].path
                        && shorter[j].1.len() > 0;
                assert(longer[j] == shorter[j]);
            } else {
                let unit = step[i - before.len()];
                assert(!is_metadata(source[at].0));
                assert(unit.path == message_path(source[at].0));
                assert(longer[shorter.len() as int] == (unit.path, source[at].1->Text_0));
            }
        }
    }
}

/// Every string that a comparison requests is one that merging accepts a translation for.
pub proof fn law_units_accepted(
    format: CatalogFormat,
    source: JsonModel,
    target: Option<JsonModel>,
    locale: Seq<char>,
    force: bool,
    outdated: Set<Seq<char>>,
)
    ensures
        forall|i: int|
            0 <= i < diff_roots(format, source, target, locale, force, outdated).units.len()
                ==> accepts(
                format,
                source,
                (#[trigger] diff_roots(format, source, target, locale, force, outdated).units[i]).path,
            ),
{
    match format {
        CatalogFormat::Json => {
            law_units_translatable(source, target, Seq::empty(), force, outdated);
        },
        CatalogFormat::Arb => {
            let (ours, theirs) = (document(source), target_document(target));
            lemma_member_units_accepted(ours, theirs, force, outdated, ours.len());
            assert(diff_document(ours, theirs, locale, force, outdated).units =~= diff_members(
                ours,
                theirs,
                force,
                outdated,
                ours.len(),
            ).units);
        },
    }
}

/// Where a target has no type conflict with its source, and the translations are those that the
/// comparison requests, none of them empty, nothing stands in the way of merging, and the merged
/// catalog shows no difference from the source.
pub proof fn law_translating_completes(
    format: CatalogFormat,
    source: JsonModel,
    target: Option<JsonModel>,
    locale: Seq<char>,
    force: bool,
    outdated: Set<Seq<char>>,
    translations: Map<Seq<char>, Seq<char>>,
)
    requires
        valid_root(format, source),
        target is Some ==> valid_root(format, target->0),
        diff_roots(format, source, target, locale, force, outdated).conflicts.len() == 0,
        covered(
            diff_roots(format, source, target, locale, force, outdated).units,
            translations,
        ),
        only_requested(
            diff_roots(format, source, target, locale, force, outdated).units,
            translations,
        ),
        none_empty(translations),
    ensures
        root_issues(format, source, target, translations).len() == 0,
        all_accepted(format, source, translations),
        diff_roots(
            format,
            source,
            Some(merged_root(format, source, target, translations, locale)),
            locale,
            false,
            Set::empty(),
        ) == DiffModel::none(),
{
    let units = diff_roots(format, source, target, locale, force, outdated).units;
    law_units_accepted(format, source, target, locale, force, outdated);
    assert forall|path: Seq<char>| #[trigger] translations.contains_key(path) implies accepts(
        format,
        source,
        path,
    ) by {
        let i = choose|i: int| 0 <= i < units.len() && (#[trigger] units[i]).path == path;
        assert(accepts(format, source, units[i].path));
    }
    match format {
        CatalogFormat::Json => {
            law_merge_completes(source, target, Seq::empty(), force, outdated, translations);
        },
        CatalogFormat::Arb => {
            let (ours, theirs) = (document(source), target_document(target));
            lemma_messages_are_texts(ours);
            assert(keys(members_or_none(theirs)).no_duplicates());
            law_document_merge_completes(ours, theirs, locale, force, outdated, translations);
        },
    }
}

/// Where, in addition, the translations fit their units and the existing translations of an ARB
/// target fit their source messages, nothing is wrong with the merged catalog.
pub proof fn law_merged_catalog_valid(
    format: CatalogFormat,
    source: JsonModel,
    target: Option<JsonModel>,
    locale: Seq<char>,
    force: bool,
    outdated: Set<Seq<char>>,
    translations: Map<Seq<char>, Seq<char>>,
)
    requires
        valid_root(format, source),
        target is Some ==> valid_root(format, target->0),
        diff_roots(format, source, target, locale, force, outdated).conflicts.len() == 0,
        covered(
            diff_roots(format, source, target, locale, force, outdated).units,
            translations,
        ),
        none_empty(translations),
        all_fit_units(
            diff_roots(format, source, target, locale, force, outdated).units,
            translations,
        ),
        format is Arb && target is Some ==> existing_issue(
            document(source),
            document(target->0),
            Set::empty(),
            document(source).len(),
        ) is None,
    ensures
        merged_root_issue(format, source, target, translations, locale) is None,
{
    if format is Arb {
        let (ours, theirs) = (document(source), target_document(target));
        lemma_messages_are_texts(ours);
        assert(keys(members_or_none(theirs)).no_duplicates());
        law_document_merge_completes(ours, theirs, locale, force, outdated, translations);
        law_merged_texts_fit(ours, theirs, locale, force, outdated, translations);
        law_merged_document_valid(ours, theirs, translations, locale);
    }
}

} // verus!
