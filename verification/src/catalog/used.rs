//! Which translations merging uses.
use crate::value::{well_formed, JsonModel};
use super::json::{
    child, child_count, child_issues, child_leaves, child_segment, counterpart, merge_issues,
    merged_value, text_leaves, translatable,
};
use super::json_laws::lemma_child_leaf_paths_distinct;
use super::pointer::{child_path, label};
use vstd::prelude::*;

verus! {

/// The translations but for those of strings that are not empty.
pub open spec fn left_over(
    translations: Map<Seq<char>, Seq<char>>,
    leaves: Seq<(Seq<char>, Seq<char>)>,
) -> Map<Seq<char>, Seq<char>> {
    Map::new(
        |path: Seq<char>| translations.contains_key(path) && !translatable(leaves, path),
        |path: Seq<char>| translations[path],
    )
}

/// Whether translations are what remains of earlier ones after some of those of strings that are
/// not empty were taken out.
pub open spec fn partly_used(
    before: Map<Seq<char>, Seq<char>>,
    after: Map<Seq<char>, Seq<char>>,
    leaves: Seq<(Seq<char>, Seq<char>)>,
) -> bool {
    &&& forall|path: Seq<char>| #[trigger]
        after.contains_key(path) ==> before.contains_key(path) && after[path] == before[path]
    &&& forall|path: Seq<char>| #[trigger]
        before.contains_key(path) && !translatable(leaves, path) ==> after.contains_key(path)
}

/// Whether two sets of translations agree on the strings that are not empty.
pub open spec fn same_translations(
    a: Map<Seq<char>, Seq<char>>,
    b: Map<Seq<char>, Seq<char>>,
    leaves: Seq<(Seq<char>, Seq<char>)>,
) -> bool {
    forall|path: Seq<char>| #[trigger]
        translatable(leaves, path) ==> a.contains_key(path) == b.contains_key(path) && (
        a.contains_key(path) ==> a[path] == b[path])
}

/// A string of two lists is one of the first or one of the second.
pub proof fn lemma_translatable_joined(
    first: Seq<(Seq<char>, Seq<char>)>,
    second: Seq<(Seq<char>, Seq<char>)>,
    path: Seq<char>,
)
    ensures
        translatable(first + second, path) <==> translatable(first, path) || translatable(
            second,
            path,
        ),
{
    let joined = first + second;
    if translatable(first, path) {
        let i = choose|i: int|
            0 <= i < first.len() && (#[trigger] first[i]).0 == path && first[i].1.len() > 0;
        assert(joined[i] == first[i]);
    }
    if translatable(second, path) {
        let i = choose|i: int|
            0 <= i < second.len() && (#[trigger] second[i]).0 == path && second[i].1.len() > 0;
        assert(joined[first.len() + i] == second[i]);
    }
    if translatable(joined, path) {
        let i = choose|i: int|
            0 <= i < joined.len() && (#[trigger] joined[i]).0 == path && joined[i].1.len() > 0;
        if i < first.len() {
            assert(first[i] == joined[i]);
        } else {
            assert(second[i - first.len()] == joined[i]);
        }
    }
}

proof fn lemma_fewer_leaves(
    value: JsonModel,
    path: Seq<char>,
    fewer: nat,
    count: nat,
    name: Seq<char>,
)
    requires
        fewer <= count <= child_count(value),
        translatable(child_leaves(value, path, fewer), name),
    ensures
        translatable(child_leaves(value, path, count), name),
    decreases count,
{
    if fewer < count {
        let at = (count - 1) as nat;
        lemma_fewer_leaves(value, path, fewer, at, name);
        lemma_translatable_joined(
            child_leaves(value, path, at),
            text_leaves(child(value, at as int), child_path(path, child_segment(value, at as int))),
            name,
        );
    }
}

/// A string of a child is a string of the value.
proof fn lemma_child_translatable(value: JsonModel, path: Seq<char>, at: nat, name: Seq<char>)
    requires
        at < child_count(value),
        translatable(
            text_leaves(child(value, at as int), child_path(path, child_segment(value, at as int))),
            name,
        ),
    ensures
        translatable(text_leaves(value, path), name),
{
    lemma_translatable_joined(
        child_leaves(value, path, at),
        text_leaves(child(value, at as int), child_path(path, child_segment(value, at as int))),
        name,
    );
    lemma_fewer_leaves(value, path, at + 1, child_count(value), name);
}

/// Merging uses no translation but those of the strings of the source that are not empty:
/// translations that agree on those give the same issues and the same value.
pub proof fn law_merge_uses_translatable(
    source: JsonModel,
    target: Option<JsonModel>,
    path: Seq<char>,
    a: Map<Seq<char>, Seq<char>>,
    b: Map<Seq<char>, Seq<char>>,
)
    requires
        same_translations(a, b, text_leaves(source, path)),
    ensures
        merge_issues(source, target, path, a) == merge_issues(source, target, path, b),
        merged_value(source, target, path, a) == merged_value(source, target, path, b),
    decreases source, child_count(source) + 1,
{
    let (first, second) = (
        merged_value(source, target, path, a),
        merged_value(source, target, path, b),
    );
    match source {
        JsonModel::Text(text) => {
            assert(text_leaves(source, path)[0] == (label(path), text));
            assert(text.len() > 0 ==> translatable(text_leaves(source, path), label(path)));
        },
        JsonModel::Object(entries) => {
            lemma_children_use_translatable(source, target, path, a, b, child_count(source));
            assert forall|i: int| 0 <= i < entries.len() implies first->Object_0[i]
                == second->Object_0[i] by {
                let inner = child_path(path, entries[i].0);
                assert forall|name: Seq<char>| #[trigger]
                    translatable(text_leaves(entries[i].1, inner), name) implies a.contains_key(name)
                    == b.contains_key(name) && (a.contains_key(name) ==> a[name] == b[name]) by {
                    lemma_child_translatable(source, path, i as nat, name);
                }
                law_merge_uses_translatable(
                    entries[i].1,
                    counterpart(source, target, i),
                    inner,
                    a,
                    b,
                );
            }
            assert(first->Object_0 =~= second->Object_0);
        },
        JsonModel::Array(list) => {
            lemma_children_use_translatable(source, target, path, a, b, child_count(source));
            assert forall|i: int| 0 <= i < list.len() implies first->Array_0[i]
                == second->Array_0[i] by {
                let inner = child_path(path, child_segment(source, i));
                assert forall|name: Seq<char>| #[trigger]
                    translatable(text_leaves(list[i], inner), name) implies a.contains_key(name)
                    == b.contains_key(name) && (a.contains_key(name) ==> a[name] == b[name]) by {
                    lemma_child_translatable(source, path, i as nat, name);
                }
                law_merge_uses_translatable(list[i], counterpart(source, target, i), inner, a, b);
            }
            assert(first->Array_0 =~= second->Array_0);
        },
        _ => {},
    }
}

proof fn lemma_children_use_translatable(
    source: JsonModel,
    target: Option<JsonModel>,
    path: Seq<char>,
    a: Map<Seq<char>, Seq<char>>,
    b: Map<Seq<char>, Seq<char>>,
    count: nat,
)
    requires
        count <= child_count(source),
        same_translations(a, b, text_leaves(source, path)),
    ensures
        child_issues(source, target, path, a, count) == child_issues(source, target, path, b, count),
    decreases source, count,
{
    if count > 0 {
        let at = count - 1;
        let inner = child_path(path, child_segment(source, at));
        lemma_children_use_translatable(source, target, path, a, b, at as nat);
        assert forall|name: Seq<char>| #[trigger]
            translatable(text_leaves(child(source, at), inner), name) implies a.contains_key(name)
            == b.contains_key(name) && (a.contains_key(name) ==> a[name] == b[name]) by {
            lemma_child_translatable(source, path, at as nat, name);
        }
        law_merge_uses_translatable(child(source, at), counterpart(source, target, at), inner, a, b);
    }
}

/// Whether the strings of a merged value stand where those of the source do, each empty where the
/// source's is, else with its translation where it has one.
pub open spec fn leaves_translated(
    source: Seq<(Seq<char>, Seq<char>)>,
    merged: Seq<(Seq<char>, Seq<char>)>,
    translations: Map<Seq<char>, Seq<char>>,
) -> bool {
    &&& merged.len() == source.len()
    &&& forall|i: int|
        0 <= i < source.len() ==> {
            &&& (#[trigger] merged[i]).0 == source[i].0
            &&& source[i].1.len() == 0 ==> merged[i].1 == source[i].1
            &&& source[i].1.len() > 0 && translations.contains_key(source[i].0) ==> merged[i].1
                == translations[source[i].0]
        }
}

/// Merging uses the translation of every string of the source that is not empty: the merged value
/// has the strings of the source, each with its translation.
pub proof fn law_translations_used(
    source: JsonModel,
    target: Option<JsonModel>,
    path: Seq<char>,
    translations: Map<Seq<char>, Seq<char>>,
)
    ensures
        leaves_translated(
            text_leaves(source, path),
            text_leaves(merged_value(source, target, path, translations), path),
            translations,
        ),
    decreases source, child_count(source) + 1,
{
    match source {
        JsonModel::Array(_) | JsonModel::Object(_) => {
            lemma_child_translations_used(source, target, path, translations, child_count(source));
        },
        _ => {},
    }
}

proof fn lemma_child_translations_used(
    source: JsonModel,
    target: Option<JsonModel>,
    path: Seq<char>,
    translations: Map<Seq<char>, Seq<char>>,
    count: nat,
)
    requires
        source is Array || source is Object,
        count <= child_count(source),
    ensures
        leaves_translated(
            child_leaves(source, path, count),
            child_leaves(merged_value(source, target, path, translations), path, count),
            translations,
        ),
    decreases source, count,
{
    if count > 0 {
        let at = count - 1;
        let merged = merged_value(source, target, path, translations);
        let inner = child_path(path, child_segment(source, at));
        lemma_child_translations_used(source, target, path, translations, at as nat);
        law_translations_used(
            child(source, at),
            counterpart(source, target, at),
            inner,
            translations,
        );
        assert(child_segment(merged, at) == child_segment(source, at));
        assert(child(merged, at) == merged_value(
            child(source, at),
            counterpart(source, target, at),
            inner,
            translations,
        ));
        let (first, second) = (child_leaves(source, path, at as nat), text_leaves(
            child(source, at),
            inner,
        ));
        let (third, fourth) = (child_leaves(merged, path, at as nat), text_leaves(
            child(merged, at),
            inner,
        ));
        assert(child_leaves(source, path, count) == first + second);
        assert(child_leaves(merged, path, count) == third + fourth);
        assert forall|i: int| 0 <= i < (first + second).len() implies {
            &&& (#[trigger] (third + fourth)[i]).0 == (first + second)[i].0
            &&& (first + second)[i].1.len() == 0 ==> (third + fourth)[i].1 == (first + second)[i].1
            &&& (first + second)[i].1.len() > 0 && translations.contains_key((first + second)[i].0)
                ==> (third + fourth)[i].1 == translations[(first + second)[i].0]
        } by {
            if i < first.len() {
                assert(third[i].0 == first[i].0);
            } else {
                assert(fourth[i - first.len()].0 == second[i - first.len()].0);
            }
        }
    }
}

/// Merging a child with what the children before it left over is merging it with all the
/// translations.
pub proof fn lemma_child_uses(
    source: JsonModel,
    target: Option<JsonModel>,
    path: Seq<char>,
    translations: Map<Seq<char>, Seq<char>>,
    at: nat,
)
    requires
        well_formed(source),
        at < child_count(source),
    ensures
        ({
            let inner = child_path(path, child_segment(source, at as int));
            let leaves = text_leaves(child(source, at as int), inner);
            let rest = left_over(translations, child_leaves(source, path, at));
            let other = counterpart(source, target, at as int);
            &&& merge_issues(child(source, at as int), other, inner, rest) == merge_issues(
                child(source, at as int),
                other,
                inner,
                translations,
            )
            &&& merged_value(child(source, at as int), other, inner, rest) == merged_value(
                child(source, at as int),
                other,
                inner,
                translations,
            )
            &&& left_over(rest, leaves) == left_over(
                translations,
                child_leaves(source, path, at + 1),
            )
            &&& forall|after: Map<Seq<char>, Seq<char>>| #[trigger]
                partly_used(rest, after, leaves) ==> partly_used(
                    translations,
                    after,
                    text_leaves(source, path),
                )
        }),
{
    let inner = child_path(path, child_segment(source, at as int));
    let before = child_leaves(source, path, at);
    let leaves = text_leaves(child(source, at as int), inner);
    let joined = child_leaves(source, path, at + 1);
    let rest = left_over(translations, before);
    let other = counterpart(source, target, at as int);
    assert(joined == before + leaves);
    lemma_child_leaf_paths_distinct(source, path, at + 1);
    assert forall|name: Seq<char>| #[trigger] translatable(leaves, name) implies rest.contains_key(
        name,
    ) == translations.contains_key(name) && (rest.contains_key(name) ==> rest[name]
        == translations[name]) by {
        if translatable(before, name) {
            let i = choose|i: int|
                0 <= i < before.len() && (#[trigger] before[i]).0 == name && before[i].1.len() > 0;
            let j = choose|j: int|
                0 <= j < leaves.len() && (#[trigger] leaves[j]).0 == name && leaves[j].1.len() > 0;
            assert(joined[i].0 != joined[before.len() + j].0);
        }
    }
    law_merge_uses_translatable(child(source, at as int), other, inner, rest, translations);
    assert forall|name: Seq<char>| #[trigger]
        translatable(joined, name) == (translatable(before, name) || translatable(leaves, name)) by {
        lemma_translatable_joined(before, leaves, name);
    }
    assert(left_over(rest, leaves) =~= left_over(translations, joined));
    assert forall|after: Map<Seq<char>, Seq<char>>| #[trigger]
        partly_used(rest, after, leaves) implies partly_used(
        translations,
        after,
        text_leaves(source, path),
    ) by {
        assert forall|name: Seq<char>| #[trigger]
            translations.contains_key(name) && !translatable(
                text_leaves(source, path),
                name,
            ) implies after.contains_key(name) by {
            if translatable(joined, name) {
                lemma_fewer_leaves(source, path, at + 1, child_count(source), name);
            }
            assert(rest.contains_key(name) && !translatable(leaves, name));
        }
        assert forall|name: Seq<char>| #[trigger]
            after.contains_key(name) implies translations.contains_key(name) && after[name]
            == translations[name] by {
            assert(rest.contains_key(name));
        }
    }
}

} // verus!
