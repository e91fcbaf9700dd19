//! What comparing and merging ARB catalogs mean for each key.
use crate::fingerprint::fingerprint_text;
use crate::value::{
    has_key, keys, lemma_lookup_absent, lemma_lookup_distinct, lemma_lookup_position, lemma_present,
    lookup, same_value, JsonModel,
};
use super::{CatalogFormat, ConflictModel, DiffModel, TranslationKind, UnitModel};
use super::arb::{description_of, is_global, is_metadata, placeholders_of};
use super::json_meaning::{ordered_by, unit_paths};
use super::message_laws::{law_merged_document, members_or_none};
use super::messages::{
    diff_document, diff_member, diff_members, extra_messages, kept_members, merged_document,
    merged_members, message_fingerprints, message_leaves, message_path, textless_messages,
};
use super::places::{
    in_order, inside, is_due, is_outdated, json_type, law_paths, lemma_contains_joined,
    lemma_in_order_ends, lemma_in_order_joined, lemma_single,
};
use vstd::prelude::*;

verus! {

/// Whether a key names a message: it does not begin with `@`.
pub open spec fn names_message(key: Seq<char>) -> bool {
    key.len() == 0 || key[0] != '@'
}

/// Whether a key names something that is said of the whole document: it begins with `@@`.
pub open spec fn names_global(key: Seq<char>) -> bool {
    key.len() >= 2 && key[0] == '@' && key[1] == '@'
}

/// What an optional document has for a key.
pub open spec fn found_in(target: Option<Seq<(Seq<char>, JsonModel)>>, key: Seq<char>) -> Option<
    JsonModel,
> {
    match target {
        Some(entries) => lookup(entries, key),
        None => None,
    }
}

/// The path of a message.
pub open spec fn path_of(key: Seq<char>) -> Seq<char> {
    inside(Seq::empty(), key)
}

proof fn lemma_kept(
    source: Seq<(Seq<char>, JsonModel)>,
    target: Seq<(Seq<char>, JsonModel)>,
    count: nat,
    at: int,
)
    requires
        0 <= at < count <= target.len(),
        names_global(target[at].0),
        target[at].0 != "@@locale"@,
        lookup(source, target[at].0) is None,
    ensures
        kept_members(source, target, count).contains(target[at]),
    decreases count,
{
    let before = kept_members(source, target, (count - 1) as nat);
    let kept = kept_members(source, target, count);
    if at < count - 1 {
        lemma_kept(source, target, (count - 1) as nat, at);
        let i = before.index_of(target[at]);
        assert(kept[i] == target[at]);
    } else {
        assert(kept[before.len() as int] == target[at]);
    }
}

proof fn lemma_kept_from_target(
    source: Seq<(Seq<char>, JsonModel)>,
    target: Seq<(Seq<char>, JsonModel)>,
    count: nat,
    at: int,
)
    requires
        count <= target.len(),
        0 <= at < kept_members(source, target, count).len(),
    ensures
        ({
            let entry = kept_members(source, target, count)[at];
            is_global(entry.0) && lookup(source, entry.0) is None && target.contains(entry)
        }),
    decreases count,
{
    let before = kept_members(source, target, (count - 1) as nat);
    if at < before.len() {
        lemma_kept_from_target(source, target, (count - 1) as nat, at);
    } else {
        assert(target[count - 1] == kept_members(source, target, count)[at]);
    }
}

proof fn lemma_merged_from_source(
    source: Seq<(Seq<char>, JsonModel)>,
    target: Option<Seq<(Seq<char>, JsonModel)>>,
    translations: Map<Seq<char>, Seq<char>>,
    count: nat,
    at: int,
)
    requires
        count <= source.len(),
        0 <= at < merged_members(source, target, translations, count).len(),
    ensures
        has_key(source, merged_members(source, target, translations, count)[at].0),
    decreases count,
{
    let before = merged_members(source, target, translations, (count - 1) as nat);
    if at < before.len() {
        lemma_merged_from_source(source, target, translations, (count - 1) as nat, at);
    } else {
        lemma_present(source, source[count - 1].0, count - 1);
    }
}

/// What the merged document has for each key. The language code is the one that was asked for.
/// What is said of the whole document is what the target says, else what the source says. What
/// is said of a message is what the source says. An empty message stays empty; another has its
/// translation, and where it has none the text of the target. Nothing else is there.
#[verifier::rlimit(60)]
pub proof fn law_merged_values(
    source: Seq<(Seq<char>, JsonModel)>,
    target: Option<Seq<(Seq<char>, JsonModel)>>,
    translations: Map<Seq<char>, Seq<char>>,
    locale: Seq<char>,
    key: Seq<char>,
)
    requires
        keys(source).no_duplicates(),
        target is Some ==> keys(target->0).no_duplicates(),
    ensures
        ({
            let merged = lookup(merged_document(source, target, translations, locale), key);
            &&& key == "@@locale"@ ==> merged == Some(JsonModel::Text(locale))
            &&& key != "@@locale"@ && names_global(key) && found_in(target, key) is Some ==> merged
                == found_in(target, key)
            &&& key != "@@locale"@ && names_global(key) && found_in(target, key) is None ==> merged
                == lookup(source, key)
            &&& !names_global(key) && !names_message(key) ==> merged == lookup(source, key)
            &&& names_message(key) && lookup(source, key) is None ==> merged is None
            &&& names_message(key) && lookup(source, key) is Some ==> merged is Some
            &&& names_message(key) ==> match lookup(source, key) {
                Some(JsonModel::Text(text)) => if text.len() == 0 {
                    merged == Some(JsonModel::Text(text))
                } else if translations.contains_key(path_of(key)) {
                    merged == Some(JsonModel::Text(translations[path_of(key)]))
                } else {
                    match found_in(target, key) {
                        Some(JsonModel::Text(kept)) => merged == Some(JsonModel::Text(kept)),
                        _ => true,
                    }
                },
                _ => true,
            }
        }),
{
    reveal_strlit("@@locale");
    law_paths(Seq::empty(), key);
    let merged = merged_document(source, target, translations, locale);
    law_merged_document(source, target, translations, locale);
    let theirs = members_or_none(target);
    let head = seq![("@@locale"@, JsonModel::Text(locale))];
    let body = merged_members(source, target, translations, source.len());
    let tail = kept_members(source, theirs, theirs.len());
    assert(merged =~= head + body + tail);
    if has_key(source, key) {
        let i = lemma_lookup_position(source, key);
        assert(source[i].0 == key);
    } else if key != "@@locale"@ {
        if names_global(key) && found_in(target, key) is Some {
            let i = lemma_lookup_position(theirs, key);
            lemma_kept(source, theirs, theirs.len(), i);
            let j = tail.index_of(theirs[i]);
            assert(merged[1 + body.len() + j] == theirs[i]);
            lemma_lookup_distinct(merged, 1 + body.len() + j);
        } else {
            assert forall|j: int| 0 <= j < merged.len() implies (#[trigger] merged[j]).0 != key by {
                if j == 0 {
                    assert(merged[0] == head[0]);
                } else if j < 1 + body.len() {
                    assert(merged[j] == body[j - 1]);
                    lemma_merged_from_source(source, target, translations, source.len(), j - 1);
                } else {
                    let k = j - 1 - body.len();
                    assert(merged[j] == tail[k]);
                    lemma_kept_from_target(source, theirs, theirs.len(), k);
                    let i = theirs.index_of(tail[k]);
                    lemma_present(theirs, tail[k].0, i);
                }
            }
            lemma_lookup_absent(merged, key);
        }
    }
}

/// The members of the metadata of a message.
pub open spec fn said_of(source: Seq<(Seq<char>, JsonModel)>, key: Seq<char>) -> Seq<
    (Seq<char>, JsonModel),
> {
    match lookup(source, seq!['@'] + key) {
        Some(JsonModel::Object(entries)) => entries,
        _ => Seq::empty(),
    }
}

/// The description that the metadata of a message gives.
pub open spec fn described(source: Seq<(Seq<char>, JsonModel)>, key: Seq<char>) -> Option<Seq<char>> {
    match lookup(said_of(source, key), "description"@) {
        Some(JsonModel::Text(text)) => Some(text),
        _ => None,
    }
}

/// The names of the placeholders that the metadata of a message gives, in their order.
pub open spec fn named(source: Seq<(Seq<char>, JsonModel)>, key: Seq<char>) -> Seq<Seq<char>> {
    match lookup(said_of(source, key), "placeholders"@) {
        Some(JsonModel::Object(entries)) => keys(entries),
        _ => Seq::empty(),
    }
}

/// The description and the placeholders of a message are those that its metadata gives.
pub proof fn law_metadata_read(source: Seq<(Seq<char>, JsonModel)>, key: Seq<char>)
    ensures
        description_of(source, key) == described(source, key),
        placeholders_of(source, key) == named(source, key),
{
    assert(super::arb::metadata_key(key) == seq!['@'] + key);
}

/// Whether a unit is the request to translate a message: it has the path and the text of the
/// message, and from its metadata the description and the names of the placeholders.
pub open spec fn requests_message(
    unit: UnitModel,
    source: Seq<(Seq<char>, JsonModel)>,
    key: Seq<char>,
) -> bool {
    &&& unit.path == path_of(key)
    &&& lookup(source, key) == Some(JsonModel::Text(unit.source))
    &&& unit.kind == TranslationKind::Arb
    &&& unit.description == described(source, key)
    &&& unit.placeholders == named(source, key)
}

/// Whether a member of the source makes a path one of something that changed.
pub open spec fn is_changed(
    key: Seq<char>,
    value: JsonModel,
    target: Option<Seq<(Seq<char>, JsonModel)>>,
    outdated: Set<Seq<char>>,
) -> bool {
    let found = found_in(target, key);
    if names_global(key) {
        key != "@@locale"@ && target is Some && found is None
    } else if names_message(key) {
        value == JsonModel::Text(Seq::empty()) && !outdated.contains(path_of(key)) && (match found {
            Some(JsonModel::Text(text)) => text.len() > 0,
            _ => false,
        })
    } else {
        found is None || !same_value(found->0, value)
    }
}

/// What a member of the source contributes to a comparison.
spec fn member_finds(
    source: Seq<(Seq<char>, JsonModel)>,
    target: Option<Seq<(Seq<char>, JsonModel)>>,
    force: bool,
    outdated: Set<Seq<char>>,
    at: int,
    found: DiffModel,
) -> bool {
    let (key, value) = source[at];
    let other = found_in(target, key);
    &&& forall|p: Seq<char>| #[trigger]
        found.missing.contains(p) <==> names_message(key) && other is None && p == path_of(key)
    &&& forall|p: Seq<char>| #[trigger]
        found.empty.contains(p) <==> names_message(key) && value->Text_0.len() > 0 && other == Some(
            JsonModel::Text(Seq::empty()),
        ) && p == path_of(key)
    &&& forall|p: Seq<char>| #[trigger]
        found.outdated.contains(p) <==> names_message(key) && is_outdated(
            value->Text_0,
            other,
            p,
            force,
            outdated,
        ) && p == path_of(key)
    &&& forall|p: Seq<char>| #[trigger]
        found.changed.contains(p) <==> is_changed(key, value, target, outdated) && p == path_of(key)
    &&& found.extra.len() == 0
    &&& forall|c: ConflictModel| #[trigger]
        found.conflicts.contains(c) <==> names_message(key) && other is Some && !(other->0 is Text)
            && c.path == path_of(key) && c.source_type == "string"@ && c.target_type
            == json_type(other->0)
    &&& forall|u: UnitModel| #[trigger]
        found.units.contains(u) <==> names_message(key) && value->Text_0.len() > 0 && is_due(
            other,
            path_of(key),
            force,
            outdated,
        ) && requests_message(u, source, key)
}

#[verifier::rlimit(60)]
proof fn lemma_member_finds(
    source: Seq<(Seq<char>, JsonModel)>,
    target: Option<Seq<(Seq<char>, JsonModel)>>,
    force: bool,
    outdated: Set<Seq<char>>,
    at: int,
)
    requires
        keys(source).no_duplicates(),
        0 <= at < source.len(),
        names_message(source[at].0) ==> source[at].1 is Text,
    ensures
        member_finds(
            source,
            target,
            force,
            outdated,
            at,
            diff_member(source, target, at, force, outdated),
        ),
{
    let (key, value) = source[at];
    let found = diff_member(source, target, at, force, outdated);
    let other = found_in(target, key);
    law_paths(Seq::empty(), key);
    lemma_lookup_distinct(source, at);
    let path = path_of(key);
    assert(message_path(key) == path);
    assert forall|p: Seq<char>| #[trigger] seq![path].contains(p) <==> p == path by {
        lemma_single(path, p);
    }
    assert(!is_metadata(key) <==> names_message(key));
    if names_message(key) {
        assert(other == super::messages::member_in(target, key));
        assert(other is Some && other->0 is Text && other->0->Text_0.len() == 0 ==> other->0->Text_0
            =~= Seq::empty());
        assert(value->Text_0.len() == 0 ==> value->Text_0 =~= Seq::empty());
        let units = super::messages::message_units(source, key, value->Text_0);
        assert forall|u: UnitModel| #[trigger] units.contains(u) <==> value->Text_0.len() > 0
            && requests_message(u, source, key) by {
            if value->Text_0.len() > 0 {
                lemma_single(units[0], u);
                law_metadata_read(source, key);
                if requests_message(u, source, key) {
                    assert(u =~= units[0]);
                }
            }
        }
        assert forall|c: ConflictModel| #[trigger] found.conflicts.contains(c) <==> other is Some
            && !(other->0 is Text) && c.path == path && c.source_type == "string"@ && c.target_type
            == json_type(other->0) by {
            if other is Some && !(other->0 is Text) {
                let made = ConflictModel {
                    path,
                    source_type: "string"@,
                    target_type: json_type(other->0),
                };
                assert(found.conflicts == seq![made]);
                lemma_single(made, c);
                if c.path == path && c.source_type == "string"@ && c.target_type
                    == json_type(other->0) {
                    assert(c =~= made);
                }
            }
        }
        let empty = Seq::<Seq<char>>::empty();
        assert(empty + seq![path] =~= seq![path]);
        assert(seq![path] + empty =~= seq![path]);
        assert(empty + empty =~= empty);
        assert(Seq::<UnitModel>::empty() + units =~= units);
        assert(Seq::<ConflictModel>::empty() + Seq::<ConflictModel>::empty()
            =~= Seq::<ConflictModel>::empty());
    }
}

/// What the first `count` members of the source contribute to a comparison.
spec fn members_find(
    source: Seq<(Seq<char>, JsonModel)>,
    target: Option<Seq<(Seq<char>, JsonModel)>>,
    force: bool,
    outdated: Set<Seq<char>>,
    count: nat,
    found: DiffModel,
) -> bool {
    &&& forall|p: Seq<char>| #[trigger]
        found.missing.contains(p) <==> exists|i: int| 0 <= i < count && misses(source, target, i, p)
    &&& forall|p: Seq<char>| #[trigger]
        found.empty.contains(p) <==> exists|i: int| 0 <= i < count && blanks(source, target, i, p)
    &&& forall|p: Seq<char>| #[trigger]
        found.outdated.contains(p) <==> exists|i: int|
            0 <= i < count && outdates(source, target, force, outdated, i, p)
    &&& forall|p: Seq<char>| #[trigger]
        found.changed.contains(p) <==> exists|i: int|
            0 <= i < count && changes(source, target, outdated, i, p)
    &&& found.extra.len() == 0
    &&& forall|c: ConflictModel| #[trigger]
        found.conflicts.contains(c) <==> exists|i: int|
            0 <= i < count && clashes(source, target, i, c)
    &&& forall|u: UnitModel| #[trigger]
        found.units.contains(u) <==> exists|i: int|
            0 <= i < count && asks(source, target, force, outdated, i, u)
}

/// The member of the source at a position is a message that the target does not have.
pub open spec fn misses(
    source: Seq<(Seq<char>, JsonModel)>,
    target: Option<Seq<(Seq<char>, JsonModel)>>,
    at: int,
    path: Seq<char>,
) -> bool {
    let key = source[at].0;
    names_message(key) && found_in(target, key) is None && path == path_of(key)
}

/// The member of the source at a position is a message with a text whose translation is empty.
pub open spec fn blanks(
    source: Seq<(Seq<char>, JsonModel)>,
    target: Option<Seq<(Seq<char>, JsonModel)>>,
    at: int,
    path: Seq<char>,
) -> bool {
    let (key, value) = source[at];
    names_message(key) && value->Text_0.len() > 0 && found_in(target, key) == Some(
        JsonModel::Text(Seq::empty()),
    ) && path == path_of(key)
}

/// The member of the source at a position is a message whose translation is of an earlier text.
pub open spec fn outdates(
    source: Seq<(Seq<char>, JsonModel)>,
    target: Option<Seq<(Seq<char>, JsonModel)>>,
    force: bool,
    outdated: Set<Seq<char>>,
    at: int,
    path: Seq<char>,
) -> bool {
    let (key, value) = source[at];
    names_message(key) && is_outdated(
        value->Text_0,
        found_in(target, key),
        path_of(key),
        force,
        outdated,
    ) && path == path_of(key)
}

/// The member of the source at a position is something that the target has otherwise.
pub open spec fn changes(
    source: Seq<(Seq<char>, JsonModel)>,
    target: Option<Seq<(Seq<char>, JsonModel)>>,
    outdated: Set<Seq<char>>,
    at: int,
    path: Seq<char>,
) -> bool {
    let (key, value) = source[at];
    is_changed(key, value, target, outdated) && path == path_of(key)
}

/// The member of the source at a position is a message where the target has something that is no
/// text.
pub open spec fn clashes(
    source: Seq<(Seq<char>, JsonModel)>,
    target: Option<Seq<(Seq<char>, JsonModel)>>,
    at: int,
    conflict: ConflictModel,
) -> bool {
    let key = source[at].0;
    let other = found_in(target, key);
    names_message(key) && other is Some && !(other->0 is Text) && conflict.path == path_of(key)
        && conflict.source_type == "string"@ && conflict.target_type == json_type(other->0)
}

/// The member of the source at a position is a message that the unit asks a translation for.
pub open spec fn asks(
    source: Seq<(Seq<char>, JsonModel)>,
    target: Option<Seq<(Seq<char>, JsonModel)>>,
    force: bool,
    outdated: Set<Seq<char>>,
    at: int,
    unit: UnitModel,
) -> bool {
    let (key, value) = source[at];
    names_message(key) && value->Text_0.len() > 0 && is_due(
        found_in(target, key),
        path_of(key),
        force,
        outdated,
    ) && requests_message(unit, source, key)
}

#[verifier::rlimit(60)]
proof fn lemma_members_find(
    source: Seq<(Seq<char>, JsonModel)>,
    target: Option<Seq<(Seq<char>, JsonModel)>>,
    force: bool,
    outdated: Set<Seq<char>>,
    count: nat,
)
    requires
        keys(source).no_duplicates(),
        count <= source.len(),
        forall|i: int|
            0 <= i < source.len() && names_message((#[trigger] source[i]).0) ==> source[i].1 is Text,
    ensures
        members_find(
            source,
            target,
            force,
            outdated,
            count,
            diff_members(source, target, force, outdated, count),
        ),
    decreases count,
{
    if count > 0 {
        let at = count - 1;
        lemma_members_find(source, target, force, outdated, at as nat);
        assert(names_message(source[at].0) ==> source[at].1 is Text);
        lemma_member_finds(source, target, force, outdated, at);
        let before = diff_members(source, target, force, outdated, at as nat);
        let step = diff_member(source, target, at, force, outdated);
        let found = diff_members(source, target, force, outdated, count);
        assert(found == before.join(step));
        assert forall|p: Seq<char>| #[trigger] found.missing.contains(p) <==> exists|i: int|
            0 <= i < count && misses(source, target, i, p) by {
            lemma_contains_joined(before.missing, step.missing, p);
            assert(step.missing.contains(p) <==> misses(source, target, at, p));
        }
        assert forall|p: Seq<char>| #[trigger] found.empty.contains(p) <==> exists|i: int|
            0 <= i < count && blanks(source, target, i, p) by {
            lemma_contains_joined(before.empty, step.empty, p);
            assert(step.empty.contains(p) <==> blanks(source, target, at, p));
        }
        assert forall|p: Seq<char>| #[trigger] found.outdated.contains(p) <==> exists|i: int|
            0 <= i < count && outdates(source, target, force, outdated, i, p) by {
            lemma_contains_joined(before.outdated, step.outdated, p);
            assert(step.outdated.contains(p) <==> outdates(
                source,
                target,
                force,
                outdated,
                at,
                p,
            ));
        }
        assert forall|p: Seq<char>| #[trigger] found.changed.contains(p) <==> exists|i: int|
            0 <= i < count && changes(source, target, outdated, i, p) by {
            lemma_contains_joined(before.changed, step.changed, p);
            assert(step.changed.contains(p) <==> changes(source, target, outdated, at, p));
        }
        assert forall|c: ConflictModel| #[trigger] found.conflicts.contains(c) <==> exists|i: int|
            0 <= i < count && clashes(source, target, i, c) by {
            lemma_contains_joined(before.conflicts, step.conflicts, c);
            assert(step.conflicts.contains(c) <==> clashes(source, target, at, c));
        }
        assert forall|u: UnitModel| #[trigger] found.units.contains(u) <==> exists|i: int|
            0 <= i < count && asks(source, target, force, outdated, i, u) by {
            lemma_contains_joined(before.units, step.units, u);
            assert(step.units.contains(u) <==> asks(source, target, force, outdated, at, u));
        }
    }
}

proof fn lemma_extra_messages(
    source: Seq<(Seq<char>, JsonModel)>,
    target: Seq<(Seq<char>, JsonModel)>,
    count: nat,
    path: Seq<char>,
)
    requires
        count <= target.len(),
    ensures
        extra_messages(source, target, count).contains(path) <==> exists|j: int|
            0 <= j < count && !names_global((#[trigger] target[j]).0) && lookup(
                source,
                target[j].0,
            ) is None && path == path_of(target[j].0),
    decreases count,
{
    if count > 0 {
        let at = count - 1;
        let key = target[at].0;
        lemma_extra_messages(source, target, at as nat, path);
        law_paths(Seq::empty(), key);
        let before = extra_messages(source, target, at as nat);
        if !names_global(key) && lookup(source, key) is None {
            assert(extra_messages(source, target, count) =~= before + seq![path_of(key)]);
            lemma_contains_joined(before, seq![path_of(key)], path);
            lemma_single(path_of(key), path);
        }
        assert(!names_global(target[at].0) || names_global(key));
    }
}

/// What a comparison of ARB documents reports, and which translations it asks for. A path is
/// listed exactly where a key of the source or of the target gives reason to.
#[verifier::rlimit(60)]
pub proof fn law_document_findings(
    source: Seq<(Seq<char>, JsonModel)>,
    target: Option<Seq<(Seq<char>, JsonModel)>>,
    locale: Seq<char>,
    force: bool,
    outdated: Set<Seq<char>>,
)
    requires
        keys(source).no_duplicates(),
        forall|i: int|
            0 <= i < source.len() && names_message((#[trigger] source[i]).0) ==> source[i].1 is Text,
    ensures
        ({
            let found = diff_document(source, target, locale, force, outdated);
            &&& forall|p: Seq<char>| #[trigger]
                found.missing.contains(p) <==> exists|i: int|
                    0 <= i < source.len() && misses(source, target, i, p)
            &&& forall|p: Seq<char>| #[trigger]
                found.empty.contains(p) <==> exists|i: int|
                    0 <= i < source.len() && blanks(source, target, i, p)
            &&& forall|p: Seq<char>| #[trigger]
                found.outdated.contains(p) <==> exists|i: int|
                    0 <= i < source.len() && outdates(source, target, force, outdated, i, p)
            &&& forall|p: Seq<char>| #[trigger]
                found.changed.contains(p) <==> (p == "/@@locale"@ && found_in(
                    target,
                    "@@locale"@,
                ) != Some(JsonModel::Text(locale))) || exists|i: int|
                    0 <= i < source.len() && changes(source, target, outdated, i, p)
            &&& forall|p: Seq<char>| #[trigger]
                found.extra.contains(p) <==> target is Some && exists|j: int|
                    0 <= j < target->0.len() && !names_global((#[trigger] target->0[j]).0)
                        && lookup(source, target->0[j].0) is None && p == path_of(target->0[j].0)
            &&& forall|c: ConflictModel| #[trigger]
                found.conflicts.contains(c) <==> exists|i: int|
                    0 <= i < source.len() && clashes(source, target, i, c)
            &&& forall|u: UnitModel| #[trigger]
                found.units.contains(u) <==> exists|i: int|
                    0 <= i < source.len() && asks(source, target, force, outdated, i, u)
        }),
{
    let found = diff_document(source, target, locale, force, outdated);
    let inner = diff_members(source, target, force, outdated, source.len());
    lemma_members_find(source, target, force, outdated, source.len());
    assert(found.missing =~= inner.missing);
    assert(found.empty =~= inner.empty);
    assert(found.outdated =~= inner.outdated);
    assert(found.conflicts =~= inner.conflicts);
    assert(found.units =~= inner.units);
    let head = if found_in(target, "@@locale"@) == Some(JsonModel::Text(locale)) {
        Seq::empty()
    } else {
        seq!["/@@locale"@]
    };
    assert(found.changed =~= head + inner.changed);
    assert forall|p: Seq<char>| #[trigger] found.changed.contains(p) <==> (p == "/@@locale"@
        && found_in(target, "@@locale"@) != Some(JsonModel::Text(locale))) || exists|i: int|
        0 <= i < source.len() && changes(source, target, outdated, i, p) by {
        lemma_contains_joined(head, inner.changed, p);
        lemma_single("/@@locale"@, p);
    }
    if target is Some {
        assert(found.extra =~= extra_messages(source, target->0, target->0.len()));
        assert forall|p: Seq<char>| #[trigger] found.extra.contains(p) <==> exists|j: int|
            0 <= j < target->0.len() && !names_global((#[trigger] target->0[j]).0) && lookup(
                source,
                target->0[j].0,
            ) is None && p == path_of(target->0[j].0) by {
            lemma_extra_messages(source, target->0, target->0.len(), p);
        }
    } else {
        assert(found.extra =~= Seq::<Seq<char>>::empty());
    }
}

/// The texts of an ARB document are those of its messages.
pub proof fn law_messages_at(
    source: Seq<(Seq<char>, JsonModel)>,
    count: nat,
    path: Seq<char>,
    text: Seq<char>,
)
    requires
        count <= source.len(),
        forall|i: int|
            0 <= i < source.len() && names_message((#[trigger] source[i]).0) ==> source[i].1 is Text,
    ensures
        message_leaves(source, count).contains((path, text)) <==> exists|i: int|
            0 <= i < count && names_message((#[trigger] source[i]).0) && path == path_of(source[i].0)
                && source[i].1 == JsonModel::Text(text),
    decreases count,
{
    if count > 0 {
        let at = count - 1;
        let (key, value) = source[at];
        law_messages_at(source, at as nat, path, text);
        law_paths(Seq::empty(), key);
        let before = message_leaves(source, at as nat);
        if names_message(key) {
            let leaf = (path_of(key), value->Text_0);
            assert(message_leaves(source, count) =~= before + seq![leaf]);
            lemma_contains_joined(before, seq![leaf], (path, text));
            lemma_single(leaf, (path, text));
            assert(source[at].1 is Text);
        }
    }
}

/// The messages that have no text when they are merged are exactly those with a source text that
/// have neither a translation nor a text in the target.
pub proof fn law_textless_messages(
    source: Seq<(Seq<char>, JsonModel)>,
    target: Option<Seq<(Seq<char>, JsonModel)>>,
    translations: Map<Seq<char>, Seq<char>>,
    count: nat,
    path: Seq<char>,
)
    requires
        count <= source.len(),
        forall|i: int|
            0 <= i < source.len() && names_message((#[trigger] source[i]).0) ==> source[i].1 is Text,
    ensures
        textless_messages(source, target, translations, count).contains(path) <==> exists|i: int|
            0 <= i < count && lacks_text(source, target, translations, i, path),
    decreases count,
{
    if count > 0 {
        let at = count - 1;
        let key = source[at].0;
        law_textless_messages(source, target, translations, at as nat, path);
        law_paths(Seq::empty(), key);
        let before = textless_messages(source, target, translations, at as nat);
        let found = textless_messages(source, target, translations, count);
        assert(names_message(key) ==> source[at].1 is Text);
        if lacks_text(source, target, translations, at, path_of(key)) {
            assert(found =~= before + seq![path_of(key)]);
            lemma_contains_joined(before, seq![path_of(key)], path);
            lemma_single(path_of(key), path);
        } else {
            assert(found == before);
        }
    }
}

/// The member of the source at a position is a message with a text that has neither a translation
/// nor a text in the target.
pub open spec fn lacks_text(
    source: Seq<(Seq<char>, JsonModel)>,
    target: Option<Seq<(Seq<char>, JsonModel)>>,
    translations: Map<Seq<char>, Seq<char>>,
    at: int,
    path: Seq<char>,
) -> bool {
    let (key, value) = source[at];
    let found = found_in(target, key);
    names_message(key) && path == path_of(key) && value->Text_0.len() > 0
        && !translations.contains_key(path) && !(found is Some && found->0 is Text)
}

/// The fingerprints of an ARB document are those of its messages: each of the text and of what the
/// metadata says of it.
pub proof fn law_message_fingerprints(
    source: Seq<(Seq<char>, JsonModel)>,
    count: nat,
    path: Seq<char>,
    print: Seq<char>,
)
    requires
        count <= source.len(),
    ensures
        message_fingerprints(source, count).contains((path, print)) <==> exists|i: int|
            0 <= i < count && names_message((#[trigger] source[i]).0) && path == path_of(source[i].0)
                && print == fingerprint_text(
                CatalogFormat::Arb,
                source[i].1->Text_0,
                described(source, source[i].0),
                named(source, source[i].0),
            ),
    decreases count,
{
    if count > 0 {
        let at = count - 1;
        let (key, value) = source[at];
        law_message_fingerprints(source, at as nat, path, print);
        law_paths(Seq::empty(), key);
        law_metadata_read(source, key);
        let before = message_fingerprints(source, at as nat);
        if names_message(key) {
            let entry = (
                path_of(key),
                fingerprint_text(
                    CatalogFormat::Arb,
                    value->Text_0,
                    described(source, key),
                    named(source, key),
                ),
            );
            assert(message_fingerprints(source, count) =~= before + seq![entry]);
            lemma_contains_joined(before, seq![entry], (path, print));
            lemma_single(entry, (path, print));
            assert(source[at].0 == key);
        }
    }
}

/// The paths of the first `count` members.
pub open spec fn member_paths(source: Seq<(Seq<char>, JsonModel)>, count: nat) -> Seq<Seq<char>> {
    Seq::new(count, |i: int| path_of(source[i].0))
}

#[verifier::rlimit(60)]
proof fn lemma_members_in_order(
    source: Seq<(Seq<char>, JsonModel)>,
    target: Option<Seq<(Seq<char>, JsonModel)>>,
    force: bool,
    outdated: Set<Seq<char>>,
    count: nat,
)
    requires
        count <= source.len(),
    ensures
        ordered_by(
            diff_members(source, target, force, outdated, count),
            member_paths(source, count),
        ),
        diff_members(source, target, force, outdated, count).extra.len() == 0,
    decreases count,
{
    let empty = Seq::<Seq<char>>::empty();
    assert(unit_paths(Seq::empty()) =~= empty);
    if count == 0 {
        lemma_in_order_ends(member_paths(source, 0));
    } else {
        let at = count - 1;
        let (key, value) = source[at];
        let name = path_of(key);
        law_paths(Seq::empty(), key);
        lemma_members_in_order(source, target, force, outdated, at as nat);
        let before = diff_members(source, target, force, outdated, at as nat);
        let step = diff_member(source, target, at, force, outdated);
        let (x, y) = (member_paths(source, at as nat), seq![name]);
        lemma_in_order_ends(y);
        assert(member_paths(source, count) =~= x + y);
        assert(empty + y =~= y);
        assert(y + empty =~= y);
        assert(empty + empty =~= empty);
        let units = super::messages::message_units(source, key, value->Text_0);
        assert(Seq::<UnitModel>::empty() + units =~= units);
        assert(unit_paths(units) =~= if value->Text_0.len() == 0 {
            empty
        } else {
            y
        });
        assert(ordered_by(step, y));
        lemma_in_order_joined(before.missing, x, step.missing, y);
        lemma_in_order_joined(before.empty, x, step.empty, y);
        lemma_in_order_joined(before.outdated, x, step.outdated, y);
        lemma_in_order_joined(before.changed, x, step.changed, y);
        lemma_in_order_joined(unit_paths(before.units), x, unit_paths(step.units), y);
        assert(unit_paths(before.units + step.units) =~= unit_paths(before.units) + unit_paths(
            step.units,
        ));
    }
}

proof fn lemma_extra_in_order(
    source: Seq<(Seq<char>, JsonModel)>,
    target: Seq<(Seq<char>, JsonModel)>,
    count: nat,
)
    requires
        count <= target.len(),
    ensures
        in_order(extra_messages(source, target, count), member_paths(target, count)),
    decreases count,
{
    if count == 0 {
        lemma_in_order_ends(member_paths(target, 0));
    } else {
        let at = count - 1;
        let key = target[at].0;
        law_paths(Seq::empty(), key);
        lemma_extra_in_order(source, target, at as nat);
        let before = extra_messages(source, target, at as nat);
        let (x, y) = (member_paths(target, at as nat), seq![path_of(key)]);
        let step = if !names_global(key) && lookup(source, key) is None {
            y
        } else {
            Seq::empty()
        };
        lemma_in_order_ends(y);
        lemma_in_order_joined(before, x, step, y);
        assert(extra_messages(source, target, count) =~= before + step);
        assert(member_paths(target, count) =~= x + y);
    }
}

/// What a comparison of ARB documents lists, and what it asks for, comes in the order of the source
/// document, but for the language code, which comes first; what is extra comes in the order of the
/// target. Nothing comes more often than it stands there.
pub proof fn law_document_findings_in_order(
    source: Seq<(Seq<char>, JsonModel)>,
    target: Option<Seq<(Seq<char>, JsonModel)>>,
    locale: Seq<char>,
    force: bool,
    outdated: Set<Seq<char>>,
)
    ensures
        ({
            let found = diff_document(source, target, locale, force, outdated);
            let names = member_paths(source, source.len());
            &&& in_order(found.missing, names)
            &&& in_order(found.empty, names)
            &&& in_order(found.outdated, names)
            &&& in_order(unit_paths(found.units), names)
            &&& in_order(found.changed, seq!["/@@locale"@] + names)
            &&& target is Some ==> in_order(
                found.extra,
                member_paths(target->0, target->0.len()),
            )
        }),
{
    let found = diff_document(source, target, locale, force, outdated);
    let inner = diff_members(source, target, force, outdated, source.len());
    let names = member_paths(source, source.len());
    lemma_members_in_order(source, target, force, outdated, source.len());
    assert(found.missing =~= inner.missing);
    assert(found.empty =~= inner.empty);
    assert(found.outdated =~= inner.outdated);
    assert(found.units =~= inner.units);
    let head = if found_in(target, "@@locale"@) == Some(JsonModel::Text(locale)) {
        Seq::empty()
    } else {
        seq!["/@@locale"@]
    };
    lemma_in_order_ends(seq!["/@@locale"@]);
    lemma_in_order_joined(head, seq!["/@@locale"@], inner.changed, names);
    assert(found.changed =~= head + inner.changed);
    if target is Some {
        lemma_extra_in_order(source, target->0, target->0.len());
        assert(found.extra =~= extra_messages(source, target->0, target->0.len()));
    }
}

proof fn lemma_merged_keys(
    source: Seq<(Seq<char>, JsonModel)>,
    target: Option<Seq<(Seq<char>, JsonModel)>>,
    translations: Map<Seq<char>, Seq<char>>,
    count: nat,
)
    requires
        count <= source.len(),
    ensures
        keys(merged_members(source, target, translations, count)) == keys(source).take(
            count as int,
        ).filter(|key: Seq<char>| key != "@@locale"@),
    decreases count,
{
    reveal(Seq::filter);
    let names = keys(source);
    if count == 0 {
        assert(names.take(0) =~= Seq::empty());
        assert(keys(merged_members(source, target, translations, 0)) =~= Seq::empty());
    } else {
        lemma_merged_keys(source, target, translations, (count - 1) as nat);
        assert(names.take(count as int).drop_last() =~= names.take(count - 1));
        assert(names.take(count as int).last() == source[count - 1].0);
        let before = merged_members(source, target, translations, (count - 1) as nat);
        let after = merged_members(source, target, translations, count);
        if source[count - 1].0 != "@@locale"@ {
            assert(keys(after) =~= keys(before).push(source[count - 1].0));
        }
    }
}

proof fn lemma_kept_keys(
    source: Seq<(Seq<char>, JsonModel)>,
    target: Seq<(Seq<char>, JsonModel)>,
    count: nat,
)
    requires
        count <= target.len(),
    ensures
        keys(kept_members(source, target, count)) == keys(target).take(count as int).filter(
            |key: Seq<char>|
                names_global(key) && key != "@@locale"@ && lookup(source, key) is None,
        ),
    decreases count,
{
    reveal(Seq::filter);
    let names = keys(target);
    if count == 0 {
        assert(names.take(0) =~= Seq::empty());
        assert(keys(kept_members(source, target, 0)) =~= Seq::empty());
    } else {
        lemma_kept_keys(source, target, (count - 1) as nat);
        let key = target[count - 1].0;
        assert(names.take(count as int).drop_last() =~= names.take(count - 1));
        assert(names.take(count as int).last() == key);
        let before = kept_members(source, target, (count - 1) as nat);
        let after = kept_members(source, target, count);
        if names_global(key) && key != "@@locale"@ && lookup(source, key) is None {
            assert(keys(after) =~= keys(before).push(key));
        }
    }
}

/// The keys of the merged document: the language code, then the other keys of the source in their
/// order, then what only the target says of the whole document in its order.
pub proof fn law_merged_keys(
    source: Seq<(Seq<char>, JsonModel)>,
    target: Option<Seq<(Seq<char>, JsonModel)>>,
    translations: Map<Seq<char>, Seq<char>>,
    locale: Seq<char>,
)
    ensures
        keys(merged_document(source, target, translations, locale)) == seq!["@@locale"@] + keys(
            source,
        ).filter(|key: Seq<char>| key != "@@locale"@) + (match target {
            Some(entries) => keys(entries).filter(
                |key: Seq<char>|
                    names_global(key) && key != "@@locale"@ && lookup(source, key) is None,
            ),
            None => Seq::empty(),
        }),
{
    lemma_merged_keys(source, target, translations, source.len());
    let merged = merged_document(source, target, translations, locale);
    let body = merged_members(source, target, translations, source.len());
    assert(keys(source).take(source.len() as int) =~= keys(source));
    if let Some(entries) = target {
        lemma_kept_keys(source, entries, entries.len());
        assert(keys(entries).take(entries.len() as int) =~= keys(entries));
        let tail = kept_members(source, entries, entries.len());
        assert(keys(merged) =~= seq!["@@locale"@] + keys(body) + keys(tail));
    } else {
        assert(keys(merged) =~= seq!["@@locale"@] + keys(body) + Seq::empty());
    }
}

} // verus!
