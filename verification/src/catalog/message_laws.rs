//! What comparing and merging ARB catalogs guarantee together.
use crate::icu::read_result;
use crate::value::{
    has_key, keys, lemma_lookup_distinct, lemma_lookup_position, lemma_present,
    lemma_same_value_reflexive, lookup, well_formed, JsonModel,
};
use super::{
    existing_issue, lemma_join, message_existing_issue, without_slashes, DiffModel, UnitModel,
};
use super::arb::{
    document_issue, first_issue, is_global, is_metadata, lemma_messages_are_texts,
    lemma_no_member_issue, member_issue, metadata_key, placeholder_issue, translation_issue,
};
use super::json_laws::{covered, none_empty};
use super::messages::{
    diff_document, diff_member, diff_members, extra_messages, kept_members, locale_key, member_in,
    merged_document, merged_member, merged_members, message_has_text, message_path,
    textless_messages,
};
use vstd::prelude::*;

verus! {

/// Every message of a document is a string.
pub open spec fn messages_are_texts(entries: Seq<(Seq<char>, JsonModel)>) -> bool {
    forall|i: int|
        0 <= i < entries.len() && !is_metadata((#[trigger] entries[i]).0) ==> entries[i].1 is Text
}

proof fn lemma_locale_key()
    ensures
        is_global(locale_key()),
        is_metadata(locale_key()),
{
    reveal_strlit("@@locale");
}

/// Each merged member comes from a member of the source with the same key, and no key repeats.
proof fn lemma_merged_members(
    source: Seq<(Seq<char>, JsonModel)>,
    target: Option<Seq<(Seq<char>, JsonModel)>>,
    translations: Map<Seq<char>, Seq<char>>,
    count: nat,
)
    requires
        keys(source).no_duplicates(),
        count <= source.len(),
    ensures
        ({
            let merged = merged_members(source, target, translations, count);
            &&& keys(merged).no_duplicates()
            &&& forall|j: int|
                0 <= j < merged.len() ==> (#[trigger] merged[j]).0 != locale_key() && exists|i: int|
                    0 <= i < count && (#[trigger] source[i]).0 == merged[j].0
            &&& forall|i: int|
                0 <= i < count && (#[trigger] source[i]).0 != locale_key() ==> merged.contains(
                    (source[i].0, merged_member(source, target, translations, i)),
                )
        }),
    decreases count,
{
    if count > 0 {
        let at = count - 1;
        lemma_merged_members(source, target, translations, at as nat);
        let before = merged_members(source, target, translations, at as nat);
        let merged = merged_members(source, target, translations, count);
        let added = (source[at].0, merged_member(source, target, translations, at));
        assert forall|j: int| 0 <= j < before.len() implies (#[trigger] before[j]).0 != source[at].0 by {
            let i = choose|i: int| 0 <= i < at && (#[trigger] source[i]).0 == before[j].0;
            assert(keys(source)[i] != keys(source)[at]);
        }
        if source[at].0 != locale_key() {
            assert(merged == before.push(added));
            assert forall|a: int, b: int| 0 <= a < b < merged.len() implies keys(merged)[a]
                != keys(merged)[b] by {
                if b < before.len() {
                    assert(keys(before)[a] != keys(before)[b]);
                    assert(merged[a] == before[a] && merged[b] == before[b]);
                } else {
                    assert(merged[a] == before[a]);
                }
            }
            assert forall|j: int| 0 <= j < merged.len() implies (#[trigger] merged[j]).0
                != locale_key() && exists|i: int|
                0 <= i < count && (#[trigger] source[i]).0 == merged[j].0 by {
                if j < before.len() {
                    assert(merged[j] == before[j]);
                    let i = choose|i: int| 0 <= i < at && (#[trigger] source[i]).0 == before[j].0;
                    assert(source[i].0 == merged[j].0);
                } else {
                    assert(source[at].0 == merged[j].0);
                }
            }
            assert forall|i: int|
                0 <= i < count && (#[trigger] source[i]).0 != locale_key() implies merged.contains(
                (source[i].0, merged_member(source, target, translations, i)),
            ) by {
                if i < at {
                    let j = before.index_of(
                        (source[i].0, merged_member(source, target, translations, i)),
                    );
                    assert(merged[j] == before[j]);
                } else {
                    assert(merged[before.len() as int] == added);
                }
            }
        } else {
            assert forall|j: int| 0 <= j < merged.len() implies exists|i: int|
                0 <= i < count && (#[trigger] source[i]).0 == (#[trigger] merged[j]).0 by {
                let i = choose|i: int| 0 <= i < at && (#[trigger] source[i]).0 == before[j].0;
                assert(source[i].0 == merged[j].0);
            }
        }
    }
}

/// Each kept member comes from the target and has no counterpart in the source.
proof fn lemma_kept_members(
    source: Seq<(Seq<char>, JsonModel)>,
    target: Seq<(Seq<char>, JsonModel)>,
    count: nat,
)
    requires
        keys(target).no_duplicates(),
        count <= target.len(),
    ensures
        ({
            let kept = kept_members(source, target, count);
            &&& keys(kept).no_duplicates()
            &&& forall|j: int|
                0 <= j < kept.len() ==> {
                    let entry = #[trigger] kept[j];
                    is_global(entry.0) && entry.0 != locale_key() && !has_key(source, entry.0)
                        && exists|i: int| 0 <= i < count && #[trigger] target[i] == entry
                }
        }),
    decreases count,
{
    if count > 0 {
        let at = count - 1;
        lemma_kept_members(source, target, at as nat);
        let before = kept_members(source, target, at as nat);
        let kept = kept_members(source, target, count);
        assert forall|j: int| 0 <= j < before.len() implies (#[trigger] before[j]).0 != target[at].0 by {
            let i = choose|i: int| 0 <= i < at && #[trigger] target[i] == before[j];
            assert(keys(target)[i] != keys(target)[at]);
        }
        assert forall|a: int, b: int| 0 <= a < b < kept.len() implies keys(kept)[a]
            != keys(kept)[b] by {
            if b < before.len() {
                assert(keys(before)[a] != keys(before)[b]);
            }
            assert(kept[a] == before[a]);
        }
        assert forall|j: int| 0 <= j < kept.len() implies {
            let entry = #[trigger] kept[j];
            is_global(entry.0) && entry.0 != locale_key() && !has_key(source, entry.0) && exists|
                i: int,
            | 0 <= i < count && #[trigger] target[i] == entry
        } by {
            if j < before.len() {
                assert(kept[j] == before[j]);
                let i = choose|i: int| 0 <= i < at && #[trigger] target[i] == before[j];
                assert(target[i] == kept[j]);
            } else {
                assert(target[at] == kept[j]);
            }
        }
    }
}

/// The target's members, none where there is no target.
pub open spec fn members_or_none(target: Option<Seq<(Seq<char>, JsonModel)>>) -> Seq<
    (Seq<char>, JsonModel),
> {
    match target {
        Some(entries) => entries,
        None => Seq::empty(),
    }
}

/// The merged document has no key twice, has the language code that was asked for, and for every
/// other key of the source the merged member.
pub proof fn law_merged_document(
    source: Seq<(Seq<char>, JsonModel)>,
    target: Option<Seq<(Seq<char>, JsonModel)>>,
    translations: Map<Seq<char>, Seq<char>>,
    locale: Seq<char>,
)
    requires
        keys(source).no_duplicates(),
        keys(members_or_none(target)).no_duplicates(),
    ensures
        keys(merged_document(source, target, translations, locale)).no_duplicates(),
        lookup(merged_document(source, target, translations, locale), locale_key()) == Some(
            JsonModel::Text(locale),
        ),
        forall|i: int|
            0 <= i < source.len() && (#[trigger] source[i]).0 != locale_key() ==> lookup(
                merged_document(source, target, translations, locale),
                source[i].0,
            ) == Some(merged_member(source, target, translations, i)),
        forall|j: int|
            0 <= j < merged_document(source, target, translations, locale).len() ==> {
                let key = (#[trigger] merged_document(source, target, translations, locale)[j]).0;
                is_global(key) || has_key(source, key)
            },
{
    let head = seq![(locale_key(), JsonModel::Text(locale))];
    let body = merged_members(source, target, translations, source.len());
    let theirs = members_or_none(target);
    let tail = kept_members(source, theirs, theirs.len());
    let merged = merged_document(source, target, translations, locale);
    assert(merged =~= head + body + tail);
    lemma_locale_key();
    lemma_merged_members(source, target, translations, source.len());
    lemma_kept_members(source, theirs, theirs.len());
    assert forall|j: int| 0 <= j < body.len() implies has_key(source, (#[trigger] body[j]).0) by {
        let i = choose|i: int| 0 <= i < source.len() && (#[trigger] source[i]).0 == body[j].0;
        lemma_present(source, body[j].0, i);
    }
    assert forall|a: int, b: int| 0 <= a < b < merged.len() implies keys(merged)[a]
        != keys(merged)[b] by {
        let n = 1 + body.len() as int;
        if a == 0 {
            assert(merged[0] == head[0]);
            if b < n {
                assert(merged[b] == body[b - 1]);
            } else {
                assert(merged[b] == tail[b - n]);
            }
        } else if b < n {
            assert(merged[a] == body[a - 1] && merged[b] == body[b - 1]);
            assert(keys(body)[a - 1] != keys(body)[b - 1]);
        } else if a < n {
            assert(merged[a] == body[a - 1] && merged[b] == tail[b - n]);
            assert(has_key(source, body[a - 1].0));
        } else {
            assert(merged[a] == tail[a - n] && merged[b] == tail[b - n]);
            assert(keys(tail)[a - n] != keys(tail)[b - n]);
        }
    }
    assert(merged[0] == head[0]);
    lemma_lookup_distinct(merged, 0);
    assert forall|i: int|
        0 <= i < source.len() && (#[trigger] source[i]).0 != locale_key() implies lookup(
        merged,
        source[i].0,
    ) == Some(merged_member(source, target, translations, i)) by {
        let entry = (source[i].0, merged_member(source, target, translations, i));
        assert(body.contains(entry));
        let j = body.index_of(entry);
        assert(merged[j + 1] == body[j]);
        lemma_lookup_distinct(merged, j + 1);
    }
    assert forall|j: int| 0 <= j < merged.len() implies {
        let key = (#[trigger] merged[j]).0;
        is_global(key) || has_key(source, key)
    } by {
        let n = 1 + body.len() as int;
        if j == 0 {
        } else if j < n {
            assert(merged[j] == body[j - 1]);
        } else {
            assert(merged[j] == tail[j - n]);
        }
    }
}

proof fn lemma_no_extra_messages(
    source: Seq<(Seq<char>, JsonModel)>,
    target: Seq<(Seq<char>, JsonModel)>,
    count: nat,
)
    requires
        count <= target.len(),
        forall|j: int|
            0 <= j < target.len() ==> {
                let key = (#[trigger] target[j]).0;
                is_global(key) || has_key(source, key)
            },
    ensures
        extra_messages(source, target, count).len() == 0,
    decreases count,
{
    if count > 0 {
        lemma_no_extra_messages(source, target, (count - 1) as nat);
        assert(is_global(target[count - 1].0) || has_key(source, target[count - 1].0));
    }
}

proof fn lemma_members_complete(
    source: Seq<(Seq<char>, JsonModel)>,
    target: Option<Seq<(Seq<char>, JsonModel)>>,
    locale: Seq<char>,
    force: bool,
    outdated: Set<Seq<char>>,
    translations: Map<Seq<char>, Seq<char>>,
    count: nat,
)
    requires
        well_formed(JsonModel::Object(source)),
        keys(members_or_none(target)).no_duplicates(),
        messages_are_texts(source),
        count <= source.len(),
        diff_members(source, target, force, outdated, count).conflicts.len() == 0,
        covered(diff_members(source, target, force, outdated, count).units, translations),
        none_empty(translations),
    ensures
        textless_messages(source, target, translations, count).len() == 0,
        diff_members(
            source,
            Some(merged_document(source, target, translations, locale)),
            false,
            Set::empty(),
            count,
        ) == DiffModel::none(),
    decreases count,
{
    if count > 0 {
        let at = count - 1;
        let merged = merged_document(source, target, translations, locale);
        let before = diff_members(source, target, force, outdated, at as nat);
        let step = diff_member(source, target, at, force, outdated);
        let found = diff_members(source, target, force, outdated, count);
        assert(found == before.join(step));
        assert(found.conflicts.len() == before.conflicts.len() + step.conflicts.len());
        assert(found.units =~= before.units + step.units);
        assert forall|i: int| 0 <= i < before.units.len() implies translations.contains_key(
            (#[trigger] before.units[i]).path,
        ) by {
            assert(found.units[i] == before.units[i]);
        }
        assert forall|i: int| 0 <= i < step.units.len() implies translations.contains_key(
            (#[trigger] step.units[i]).path,
        ) by {
            assert(found.units[before.units.len() + i] == step.units[i]);
        }
        lemma_members_complete(
            source,
            target,
            locale,
            force,
            outdated,
            translations,
            at as nat,
        );
        law_merged_document(source, target, translations, locale);
        lemma_locale_key();
        let (key, value) = source[at];
        let path = message_path(key);
        assert(source[at].0 == key);
        assert(well_formed(value));
        if is_global(key) {
        } else if is_metadata(key) {
            lemma_same_value_reflexive(value);
        } else {
            assert(value is Text);
            let text = value->Text_0;
            if text.len() > 0 && !translations.contains_key(path) {
                if step.units.len() > 0 {
                    assert(step.units[0].path == path);
                    assert(translations.contains_key(step.units[0].path));
                }
            }
            assert(message_has_text(source, target, translations, at));
            assert(diff_member(source, Some(merged), at, false, Set::empty()) =~= DiffModel::none());
        }
        lemma_join(DiffModel::none(), DiffModel::none(), DiffModel::none());
    }
}

/// Where a target document has no type conflict with its source and every message that the
/// comparison requests has a translation that is not empty, every message of the merged document
/// has a text, and the merged document shows no difference from the source.
pub proof fn law_document_merge_completes(
    source: Seq<(Seq<char>, JsonModel)>,
    target: Option<Seq<(Seq<char>, JsonModel)>>,
    locale: Seq<char>,
    force: bool,
    outdated: Set<Seq<char>>,
    translations: Map<Seq<char>, Seq<char>>,
)
    requires
        well_formed(JsonModel::Object(source)),
        keys(members_or_none(target)).no_duplicates(),
        messages_are_texts(source),
        diff_document(source, target, locale, force, outdated).conflicts.len() == 0,
        covered(diff_document(source, target, locale, force, outdated).units, translations),
        none_empty(translations),
    ensures
        textless_messages(source, target, translations, source.len()).len() == 0,
        diff_document(
            source,
            Some(merged_document(source, target, translations, locale)),
            locale,
            false,
            Set::empty(),
        ) == DiffModel::none(),
{
    let merged = merged_document(source, target, translations, locale);
    let found = diff_document(source, target, locale, force, outdated);
    let inside = diff_members(source, target, force, outdated, source.len());
    assert(found.conflicts =~= inside.conflicts);
    assert(found.units =~= inside.units);
    lemma_members_complete(source, target, locale, force, outdated, translations, source.len());
    law_merged_document(source, target, translations, locale);
    lemma_no_extra_messages(source, merged, merged.len());
    assert(extra_messages(source, merged, merged.len()) =~= Seq::<Seq<char>>::empty());
    lemma_join(DiffModel::none(), DiffModel::none(), DiffModel::none());
}

proof fn lemma_members_well_formed(
    source: Seq<(Seq<char>, JsonModel)>,
    target: Option<Seq<(Seq<char>, JsonModel)>>,
    translations: Map<Seq<char>, Seq<char>>,
    count: nat,
)
    requires
        well_formed(JsonModel::Object(source)),
        well_formed(JsonModel::Object(members_or_none(target))),
        count <= source.len(),
    ensures
        forall|j: int|
            0 <= j < merged_members(source, target, translations, count).len() ==> well_formed(
                (#[trigger] merged_members(source, target, translations, count)[j]).1,
            ),
    decreases count,
{
    if count > 0 {
        let at = count - 1;
        lemma_members_well_formed(source, target, translations, at as nat);
        assert(well_formed(source[at].1));
        if member_in(target, source[at].0) is Some {
            let entries = target->0;
            let i = lemma_lookup_position(entries, source[at].0);
            assert(well_formed(entries[i].1));
        }
        assert(well_formed(merged_member(source, target, translations, at)));
        let before = merged_members(source, target, translations, at as nat);
        let merged = merged_members(source, target, translations, count);
        assert forall|j: int| 0 <= j < merged.len() implies well_formed((#[trigger] merged[j]).1) by {
            if j < before.len() {
                assert(merged[j] == before[j]);
            }
        }
    }
}

/// A merged document has no key twice, at any depth, where source and target have none.
pub proof fn lemma_merged_document_well_formed(
    source: Seq<(Seq<char>, JsonModel)>,
    target: Option<Seq<(Seq<char>, JsonModel)>>,
    translations: Map<Seq<char>, Seq<char>>,
    locale: Seq<char>,
)
    requires
        well_formed(JsonModel::Object(source)),
        well_formed(JsonModel::Object(members_or_none(target))),
    ensures
        well_formed(JsonModel::Object(merged_document(source, target, translations, locale))),
{
    let head = seq![(locale_key(), JsonModel::Text(locale))];
    let body = merged_members(source, target, translations, source.len());
    let theirs = members_or_none(target);
    let tail = kept_members(source, theirs, theirs.len());
    let merged = merged_document(source, target, translations, locale);
    assert(merged =~= head + body + tail);
    law_merged_document(source, target, translations, locale);
    lemma_members_well_formed(source, target, translations, source.len());
    lemma_kept_members(source, theirs, theirs.len());
    assert forall|j: int| 0 <= j < merged.len() implies well_formed((#[trigger] merged[j]).1) by {
        let n = 1 + body.len() as int;
        if j == 0 {
            assert(merged[0] == head[0]);
        } else if j < n {
            assert(merged[j] == body[j - 1]);
        } else {
            assert(merged[j] == tail[j - n]);
            let i = choose|i: int| 0 <= i < theirs.len() && #[trigger] theirs[i] == tail[j - n];
            assert(well_formed(theirs[i].1));
        }
    }
}

/// No two messages of a document have the same path.
pub proof fn law_message_paths_distinct(entries: Seq<(Seq<char>, JsonModel)>, i: int, j: int)
    requires
        keys(entries).no_duplicates(),
        0 <= i < j < entries.len(),
    ensures
        message_path(entries[i].0) != message_path(entries[j].0),
{
    if message_path(entries[i].0) == message_path(entries[j].0) {
        super::pointer::law_child_path_injective(
            Seq::empty(),
            entries[i].0,
            Seq::empty(),
            entries[j].0,
        );
        assert(keys(entries)[i] == keys(entries)[j]);
    }
}

/// The text of a message in the merged document.
pub open spec fn merged_message(
    source: Seq<(Seq<char>, JsonModel)>,
    target: Option<Seq<(Seq<char>, JsonModel)>>,
    translations: Map<Seq<char>, Seq<char>>,
    at: int,
) -> Seq<char> {
    merged_member(source, target, translations, at)->Text_0
}

/// Every text of the merged document that is not empty is a translation of its source message.
pub open spec fn merged_texts_fit(
    source: Seq<(Seq<char>, JsonModel)>,
    target: Option<Seq<(Seq<char>, JsonModel)>>,
    translations: Map<Seq<char>, Seq<char>>,
) -> bool {
    forall|i: int|
        0 <= i < source.len() && !is_metadata((#[trigger] source[i]).0) && merged_message(
            source,
            target,
            translations,
            i,
        ).len() > 0 ==> translation_issue(
            source[i].0,
            source[i].1->Text_0,
            merged_message(source, target, translations, i),
        ) is None
}

proof fn lemma_metadata_key(key: Seq<char>)
    requires
        !is_metadata(key),
    ensures
        is_metadata(metadata_key(key)),
        !is_global(metadata_key(key)),
        metadata_key(key) != locale_key(),
{
    lemma_locale_key();
    let name = metadata_key(key);
    assert(name[0] == '@');
    if name.len() >= 2 {
        assert(name[1] == key[0]);
    }
}

/// What a document has for a key of the source that holds metadata of a message, the merged
/// document has too.
proof fn lemma_merged_metadata(
    source: Seq<(Seq<char>, JsonModel)>,
    target: Option<Seq<(Seq<char>, JsonModel)>>,
    translations: Map<Seq<char>, Seq<char>>,
    locale: Seq<char>,
    name: Seq<char>,
)
    requires
        keys(source).no_duplicates(),
        keys(members_or_none(target)).no_duplicates(),
        is_metadata(name),
        !is_global(name),
    ensures
        lookup(merged_document(source, target, translations, locale), name) == lookup(source, name),
{
    let merged = merged_document(source, target, translations, locale);
    law_merged_document(source, target, translations, locale);
    lemma_locale_key();
    if has_key(source, name) {
        let i = lemma_lookup_position(source, name);
        assert(source[i].0 == name);
        assert(lookup(merged, source[i].0) == Some(merged_member(source, target, translations, i)));
        lemma_lookup_distinct(source, i);
    } else if has_key(merged, name) {
        let j = lemma_lookup_position(merged, name);
        assert(is_global(merged[j].0) || has_key(source, merged[j].0));
    }
}

/// The text of a message in the merged document reads without error, and its variables are those
/// that the metadata of the message asks for.
proof fn lemma_merged_message_valid(
    source: Seq<(Seq<char>, JsonModel)>,
    target: Option<Seq<(Seq<char>, JsonModel)>>,
    translations: Map<Seq<char>, Seq<char>>,
    at: int,
)
    requires
        document_issue(source) is None,
        target is Some ==> document_issue(target->0) is None,
        textless_messages(source, target, translations, source.len()).len() == 0,
        none_empty(translations),
        merged_texts_fit(source, target, translations),
        0 <= at < source.len(),
        !is_metadata(source[at].0),
    ensures
        ({
            let text = merged_message(source, target, translations, at);
            &&& read_result(text) is Ok
            &&& text.len() > 0 ==> match lookup(source, metadata_key(source[at].0)) {
                Some(metadata) => placeholder_issue(
                    source[at].0,
                    metadata,
                    read_result(text)->Ok_0,
                ) is None,
                None => true,
            }
        }),
{
    let (key, value) = source[at];
    let text = merged_message(source, target, translations, at);
    lemma_messages_are_texts(source);
    lemma_no_member_issue(source, source.len());
    assert(member_issue(source, at) is None);
    assert(value is Text);
    let wording = value->Text_0;
    lemma_all_have_text(source, target, translations, source.len(), at);
    if text.len() > 0 {
        assert(translation_issue(key, wording, text) is None);
        if wording.len() == 0 {
            assert(text == wording);
        }
    } else if wording.len() > 0 {
        if translations.contains_key(message_path(key)) {
            assert(translations[message_path(key)].len() > 0);
        }
        let entries = target->0;
        let j = lemma_lookup_position(entries, key);
        lemma_no_member_issue(entries, entries.len());
        assert(member_issue(entries, j) is None);
        assert(entries[j].1 == JsonModel::Text(text));
    }
}

proof fn lemma_all_have_text(
    source: Seq<(Seq<char>, JsonModel)>,
    target: Option<Seq<(Seq<char>, JsonModel)>>,
    translations: Map<Seq<char>, Seq<char>>,
    count: nat,
    at: int,
)
    requires
        textless_messages(source, target, translations, count).len() == 0,
        0 <= at < count,
    ensures
        message_has_text(source, target, translations, at),
    decreases count,
{
    if at < count - 1 {
        lemma_all_have_text(source, target, translations, (count - 1) as nat, at);
    }
}

/// Where nothing is wrong with source and target, every message has a text, and every text that
/// is not empty is a translation of its source message, nothing is wrong with the merged document.
pub proof fn law_merged_document_valid(
    source: Seq<(Seq<char>, JsonModel)>,
    target: Option<Seq<(Seq<char>, JsonModel)>>,
    translations: Map<Seq<char>, Seq<char>>,
    locale: Seq<char>,
)
    requires
        keys(source).no_duplicates(),
        keys(members_or_none(target)).no_duplicates(),
        document_issue(source) is None,
        target is Some ==> document_issue(target->0) is None,
        textless_messages(source, target, translations, source.len()).len() == 0,
        none_empty(translations),
        merged_texts_fit(source, target, translations),
    ensures
        document_issue(merged_document(source, target, translations, locale)) is None,
{
    let merged = merged_document(source, target, translations, locale);
    law_merged_document(source, target, translations, locale);
    lemma_locale_key();
    lemma_messages_are_texts(source);
    lemma_no_member_issue(source, source.len());
    assert forall|j: int| 0 <= j < merged.len() implies #[trigger] member_issue(merged, j) is None by {
        let (key, value) = merged[j];
        if !is_global(key) {
            assert(has_key(source, merged[j].0));
            let i = lemma_lookup_position(source, key);
            assert(source[i].0 == key);
            lemma_lookup_distinct(source, i);
            lemma_lookup_distinct(merged, j);
            assert(lookup(merged, source[i].0) == Some(
                merged_member(source, target, translations, i),
            ));
            assert(member_issue(source, i) is None);
            if is_metadata(key) {
                let message = key.drop_first();
                let m = lemma_lookup_position(source, message);
                assert(source[m].0 == message);
                if key.len() >= 2 {
                    assert(message[0] == key[1]);
                }
                assert(lookup(merged, source[m].0) is Some);
            } else {
                lemma_metadata_key(key);
                lemma_merged_metadata(source, target, translations, locale, metadata_key(key));
                lemma_merged_message_valid(source, target, translations, i);
            }
        }
    }
    lemma_first_issue_none(merged, merged.len());
}

proof fn lemma_first_issue_none(entries: Seq<(Seq<char>, JsonModel)>, count: nat)
    requires
        count <= entries.len(),
        forall|j: int| 0 <= j < entries.len() ==> #[trigger] member_issue(entries, j) is None,
    ensures
        first_issue(entries, count) is None,
    decreases count,
{
    if count > 0 {
        lemma_first_issue_none(entries, (count - 1) as nat);
        assert(member_issue(entries, count - 1) is None);
    }
}

/// Every requested unit is a message of the source that is not empty.
proof fn lemma_units_are_messages(
    source: Seq<(Seq<char>, JsonModel)>,
    target: Option<Seq<(Seq<char>, JsonModel)>>,
    force: bool,
    outdated: Set<Seq<char>>,
    count: nat,
)
    requires
        count <= source.len(),
    ensures
        forall|u: int|
            0 <= u < diff_members(source, target, force, outdated, count).units.len()
                ==> exists|j: int|
                0 <= j < count && is_unit_of(
                    #[trigger] diff_members(source, target, force, outdated, count).units[u],
                    #[trigger] source[j],
                ),
    decreases count,
{
    if count > 0 {
        let at = count - 1;
        lemma_units_are_messages(source, target, force, outdated, at as nat);
        let before = diff_members(source, target, force, outdated, at as nat).units;
        let step = diff_member(source, target, at, force, outdated).units;
        let units = diff_members(source, target, force, outdated, count).units;
        assert(units == before + step);
        assert forall|u: int| 0 <= u < units.len() implies exists|j: int|
            0 <= j < count && is_unit_of(#[trigger] units[u], #[trigger] source[j]) by {
            if u < before.len() {
                assert(units[u] == before[u]);
                let j = choose|j: int|
                    0 <= j < at && is_unit_of(before[u], #[trigger] source[j]);
                assert(is_unit_of(units[u], source[j]));
            } else {
                assert(units[u] == step[u - before.len()]);
                assert(is_unit_of(units[u], source[at]));
            }
        }
    }
}

/// Whether a unit requests a message.
pub open spec fn is_unit_of(unit: UnitModel, message: (Seq<char>, JsonModel)) -> bool {
    &&& !is_metadata(message.0)
    &&& unit.path == message_path(message.0)
    &&& unit.source == message.1->Text_0
    &&& unit.kind is Arb
}

/// Every translation is accepted for a requested unit of its path.
pub open spec fn all_fit_units(
    units: Seq<UnitModel>,
    translations: Map<Seq<char>, Seq<char>>,
) -> bool {
    forall|path: Seq<char>| #[trigger]
        translations.contains_key(path) ==> exists|u: int|
            0 <= u < units.len() && (#[trigger] units[u]).path == path && (units[u].kind is Arb
                ==> translation_issue(
                without_slashes(path),
                units[u].source,
                translations[path],
            ) is None)
}

/// Whether a text translates a message does not depend on the name of the message.
proof fn lemma_fit_any_key(
    key: Seq<char>,
    other: Seq<char>,
    source: Seq<char>,
    target: Seq<char>,
)
    requires
        translation_issue(key, source, target) is None,
    ensures
        translation_issue(other, source, target) is None,
{
}

proof fn lemma_no_existing_issue(
    source: Seq<(Seq<char>, JsonModel)>,
    target: Seq<(Seq<char>, JsonModel)>,
    count: nat,
    at: int,
)
    requires
        existing_issue(source, target, Set::empty(), count) is None,
        0 <= at < count,
    ensures
        message_existing_issue(source, target, Set::empty(), at) is None,
    decreases count,
{
    if at < count - 1 {
        lemma_no_existing_issue(source, target, (count - 1) as nat, at);
    }
}

/// Where the existing translations of a target fit their source messages, and the translations
/// fit the units that the comparison requests, every text of the merged document fits.
pub proof fn law_merged_texts_fit(
    source: Seq<(Seq<char>, JsonModel)>,
    target: Option<Seq<(Seq<char>, JsonModel)>>,
    locale: Seq<char>,
    force: bool,
    outdated: Set<Seq<char>>,
    translations: Map<Seq<char>, Seq<char>>,
)
    requires
        keys(source).no_duplicates(),
        document_issue(source) is None,
        target is Some ==> existing_issue(source, target->0, Set::empty(), source.len()) is None,
        all_fit_units(
            diff_document(source, target, locale, force, outdated).units,
            translations,
        ),
    ensures
        merged_texts_fit(source, target, translations),
{
    let units = diff_document(source, target, locale, force, outdated).units;
    assert(units =~= diff_members(source, target, force, outdated, source.len()).units);
    lemma_units_are_messages(source, target, force, outdated, source.len());
    lemma_messages_are_texts(source);
    assert forall|i: int|
        0 <= i < source.len() && !is_metadata((#[trigger] source[i]).0) && merged_message(
            source,
            target,
            translations,
            i,
        ).len() > 0 implies translation_issue(
        source[i].0,
        source[i].1->Text_0,
        merged_message(source, target, translations, i),
    ) is None by {
        let (key, value) = source[i];
        let path = message_path(key);
        let text = merged_message(source, target, translations, i);
        if value->Text_0.len() > 0 && translations.contains_key(path) {
            let u = choose|u: int|
                0 <= u < units.len() && (#[trigger] units[u]).path == path && (units[u].kind is Arb
                    ==> translation_issue(
                    without_slashes(path),
                    units[u].source,
                    translations[path],
                ) is None);
            let j = choose|j: int| 0 <= j < source.len() && is_unit_of(units[u], #[trigger] source[j]);
            if i < j {
                law_message_paths_distinct(source, i, j);
            } else if j < i {
                law_message_paths_distinct(source, j, i);
            }
            lemma_fit_any_key(without_slashes(path), key, value->Text_0, text);
        } else if value->Text_0.len() > 0 && target is Some {
            lemma_no_existing_issue(source, target->0, source.len(), i);
        }
    }
}

} // verus!
