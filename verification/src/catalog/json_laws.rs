//! What comparing and merging JSON catalogs guarantee together.
use crate::value::{
    has_key, keys, lemma_lookup_distinct, lemma_present, lemma_same_value_reflexive, well_formed,
    JsonModel,
};
use super::json::{
    child, child_count, child_issues, child_leaves, child_segment, counterpart, diff_children,
    diff_leaf, diff_value, extra_children, extra_members, merge_issues, merged_value, text_leaves,
    translatable,
};
use super::{lemma_join, same_kind, DiffModel, UnitModel};
use super::pointer::{child_path, label};
use super::used::lemma_translatable_joined;
use vstd::prelude::*;

verus! {

/// Every requested unit has a translation.
pub open spec fn covered(units: Seq<UnitModel>, translations: Map<Seq<char>, Seq<char>>) -> bool {
    forall|i: int| 0 <= i < units.len() ==> translations.contains_key((#[trigger] units[i]).path)
}

/// No translation is empty.
pub open spec fn none_empty(translations: Map<Seq<char>, Seq<char>>) -> bool {
    forall|path: Seq<char>| #[trigger]
        translations.contains_key(path) ==> translations[path].len() > 0
}

proof fn lemma_covered_parts(
    first: Seq<UnitModel>,
    second: Seq<UnitModel>,
    translations: Map<Seq<char>, Seq<char>>,
)
    requires
        covered(first + second, translations),
    ensures
        covered(first, translations),
        covered(second, translations),
{
    assert forall|i: int| 0 <= i < first.len() implies translations.contains_key(
        (#[trigger] first[i]).path,
    ) by {
        assert((first + second)[i] == first[i]);
    }
    assert forall|i: int| 0 <= i < second.len() implies translations.contains_key(
        (#[trigger] second[i]).path,
    ) by {
        assert((first + second)[first.len() + i] == second[i]);
    }
}

/// A merged value has no key twice where the source has none.
pub proof fn law_merged_well_formed(
    source: JsonModel,
    target: Option<JsonModel>,
    path: Seq<char>,
    translations: Map<Seq<char>, Seq<char>>,
)
    requires
        well_formed(source),
    ensures
        well_formed(merged_value(source, target, path, translations)),
    decreases source,
{
    let merged = merged_value(source, target, path, translations);
    match source {
        JsonModel::Object(entries) => {
            assert(keys(merged->Object_0) =~= keys(entries));
            assert forall|i: int| 0 <= i < entries.len() implies well_formed(
                (#[trigger] merged->Object_0[i]).1,
            ) by {
                law_merged_well_formed(
                    entries[i].1,
                    counterpart(source, target, i),
                    child_path(path, entries[i].0),
                    translations,
                );
            }
        },
        JsonModel::Array(list) => {
            assert forall|i: int| 0 <= i < list.len() implies well_formed(
                #[trigger] merged->Array_0[i],
            ) by {
                law_merged_well_formed(
                    list[i],
                    counterpart(source, target, i),
                    child_path(path, crate::text::decimal(i as nat)),
                    translations,
                );
            }
        },
        _ => {},
    }
}

/// The counterpart of a child in the merged value is the merged child.
pub proof fn lemma_merged_counterpart(
    source: JsonModel,
    target: Option<JsonModel>,
    path: Seq<char>,
    translations: Map<Seq<char>, Seq<char>>,
    at: int,
)
    requires
        well_formed(source),
        0 <= at < child_count(source),
    ensures
        counterpart(source, Some(merged_value(source, target, path, translations)), at) == Some(
            merged_value(
                child(source, at),
                counterpart(source, target, at),
                child_path(path, child_segment(source, at)),
                translations,
            ),
        ),
{
    let merged = merged_value(source, target, path, translations);
    match source {
        JsonModel::Object(entries) => {
            assert(keys(merged->Object_0) =~= keys(entries));
            lemma_lookup_distinct(merged->Object_0, at);
        },
        _ => {},
    }
}

/// The merged value has nothing that the source does not have.
proof fn lemma_merged_no_extra(
    source: JsonModel,
    target: Option<JsonModel>,
    path: Seq<char>,
    translations: Map<Seq<char>, Seq<char>>,
)
    requires
        source is Array || source is Object,
    ensures
        extra_children(source, Some(merged_value(source, target, path, translations)), path)
            == Seq::<Seq<char>>::empty(),
{
    let merged = merged_value(source, target, path, translations);
    match source {
        JsonModel::Object(entries) => {
            let others = merged->Object_0;
            assert forall|i: int| 0 <= i < others.len() implies has_key(
                entries,
                (#[trigger] others[i]).0,
            ) by {
                lemma_present(entries, others[i].0, i);
            }
            lemma_no_extra_members(entries, others, path);
        },
        _ => {},
    }
}

/// Members whose keys the source has are not extra.
pub proof fn lemma_no_extra_members(
    source: Seq<(Seq<char>, JsonModel)>,
    target: Seq<(Seq<char>, JsonModel)>,
    path: Seq<char>,
)
    requires
        forall|i: int| 0 <= i < target.len() ==> has_key(source, (#[trigger] target[i]).0),
    ensures
        extra_members(source, target, path) == Seq::<Seq<char>>::empty(),
    decreases target.len(),
{
    reveal(Seq::filter);
    if target.len() > 0 {
        assert forall|i: int| 0 <= i < target.drop_last().len() implies has_key(
            source,
            (#[trigger] target.drop_last()[i]).0,
        ) by {
            assert(target.drop_last()[i] == target[i]);
        }
        lemma_no_extra_members(source, target.drop_last(), path);
        assert(has_key(source, target[target.len() - 1].0));
    }
    assert(extra_members(source, target, path) =~= Seq::<Seq<char>>::empty());
}

/// Where a target has no type conflict with its source and every string that the comparison
/// requests has a translation that is not empty, the two merge, and the merged value shows no
/// difference from the source.
pub proof fn law_merge_completes(
    source: JsonModel,
    target: Option<JsonModel>,
    path: Seq<char>,
    force: bool,
    outdated: Set<Seq<char>>,
    translations: Map<Seq<char>, Seq<char>>,
)
    requires
        well_formed(source),
        diff_value(source, target, path, force, outdated).conflicts.len() == 0,
        covered(diff_value(source, target, path, force, outdated).units, translations),
        none_empty(translations),
    ensures
        merge_issues(source, target, path, translations).len() == 0,
        diff_value(
            source,
            Some(merged_value(source, target, path, translations)),
            path,
            false,
            Set::empty(),
        ) == DiffModel::none(),
    decreases source, child_count(source) + 1,
{
    let merged = merged_value(source, target, path, translations);
    let found = diff_value(source, target, path, force, outdated);
    match source {
        JsonModel::Array(_) | JsonModel::Object(_) => {
            assert(same_kind(source, merged));
            let inside = diff_children(source, target, path, force, outdated, child_count(source));
            let extra = DiffModel::extras(extra_children(source, target, path));
            if target is Some && !same_kind(source, target->0) {
                assert(found.conflicts.len() == 1);
            }
            assert(found == inside.join(extra));
            assert(found.conflicts.len() == inside.conflicts.len() + extra.conflicts.len());
            lemma_covered_parts(inside.units, extra.units, translations);
            lemma_children_complete(
                source,
                target,
                path,
                force,
                outdated,
                translations,
                child_count(source),
            );
            lemma_merged_no_extra(source, target, path, translations);
            lemma_join(DiffModel::none(), DiffModel::none(), DiffModel::none());
        },
        JsonModel::Text(text) => {
            if target is Some && !same_kind(source, target->0) {
                assert(found.conflicts.len() == 1);
            }
            let name = label(path);
            if text.len() > 0 && !translations.contains_key(name) {
                if found.units.len() > 0 {
                    assert(translations.contains_key(found.units[0].path));
                }
            }
            assert(diff_leaf(source, Some(merged), path, false, Set::empty()) =~= DiffModel::none());
        },
        _ => {
            if target is Some && !same_kind(source, target->0) {
                assert(found.conflicts.len() == 1);
            }
            lemma_same_value_reflexive(source);
        },
    }
}

proof fn lemma_children_complete(
    source: JsonModel,
    target: Option<JsonModel>,
    path: Seq<char>,
    force: bool,
    outdated: Set<Seq<char>>,
    translations: Map<Seq<char>, Seq<char>>,
    count: nat,
)
    requires
        well_formed(source),
        count <= child_count(source),
        diff_children(source, target, path, force, outdated, count).conflicts.len() == 0,
        covered(diff_children(source, target, path, force, outdated, count).units, translations),
        none_empty(translations),
    ensures
        child_issues(source, target, path, translations, count).len() == 0,
        diff_children(
            source,
            Some(merged_value(source, target, path, translations)),
            path,
            false,
            Set::empty(),
            count,
        ) == DiffModel::none(),
    decreases source, count,
{
    if count > 0 {
        let at = count - 1;
        let before = diff_children(source, target, path, force, outdated, at as nat);
        let step = diff_value(
            child(source, at),
            counterpart(source, target, at),
            child_path(path, child_segment(source, at)),
            force,
            outdated,
        );
        let found = diff_children(source, target, path, force, outdated, count);
        assert(found == before.join(step));
        assert(found.conflicts.len() == before.conflicts.len() + step.conflicts.len());
        lemma_covered_parts(before.units, step.units, translations);
        lemma_children_complete(source, target, path, force, outdated, translations, at as nat);
        lemma_child_well_formed(source, at);
        law_merge_completes(
            child(source, at),
            counterpart(source, target, at),
            child_path(path, child_segment(source, at)),
            force,
            outdated,
            translations,
        );
        lemma_merged_counterpart(source, target, path, translations, at);
        lemma_join(DiffModel::none(), DiffModel::none(), DiffModel::none());
    }
}

/// The children of a value without a repeated key have none.
pub proof fn lemma_child_well_formed(source: JsonModel, at: int)
    requires
        well_formed(source),
        0 <= at < child_count(source),
    ensures
        well_formed(child(source, at)),
{
    match source {
        JsonModel::Object(entries) => {
            assert(well_formed(entries[at].1));
        },
        JsonModel::Array(list) => {
            assert(well_formed(list[at]));
        },
        _ => {},
    }
}

/// Merging a second time, without new translations, changes nothing.
pub proof fn law_merge_idempotent(
    source: JsonModel,
    target: Option<JsonModel>,
    path: Seq<char>,
    translations: Map<Seq<char>, Seq<char>>,
)
    requires
        well_formed(source),
    ensures
        merge_issues(
            source,
            Some(merged_value(source, target, path, translations)),
            path,
            Map::empty(),
        ).len() == 0,
        merged_value(
            source,
            Some(merged_value(source, target, path, translations)),
            path,
            Map::empty(),
        ) == merged_value(source, target, path, translations),
    decreases source, child_count(source) + 1,
{
    let merged = merged_value(source, target, path, translations);
    let again = merged_value(source, Some(merged), path, Map::empty());
    match source {
        JsonModel::Object(entries) => {
            lemma_children_idempotent(source, target, path, translations, child_count(source));
            assert forall|i: int| 0 <= i < entries.len() implies again->Object_0[i]
                == merged->Object_0[i] by {
                lemma_merged_counterpart(source, target, path, translations, i);
                law_merge_idempotent(
                    entries[i].1,
                    counterpart(source, target, i),
                    child_path(path, entries[i].0),
                    translations,
                );
            }
            assert(again->Object_0 =~= merged->Object_0);
        },
        JsonModel::Array(list) => {
            lemma_children_idempotent(source, target, path, translations, child_count(source));
            assert forall|i: int| 0 <= i < list.len() implies again->Array_0[i]
                == merged->Array_0[i] by {
                lemma_merged_counterpart(source, target, path, translations, i);
                law_merge_idempotent(
                    list[i],
                    counterpart(source, target, i),
                    child_path(path, crate::text::decimal(i as nat)),
                    translations,
                );
            }
            assert(again->Array_0 =~= merged->Array_0);
        },
        _ => {},
    }
}

proof fn lemma_children_idempotent(
    source: JsonModel,
    target: Option<JsonModel>,
    path: Seq<char>,
    translations: Map<Seq<char>, Seq<char>>,
    count: nat,
)
    requires
        well_formed(source),
        count <= child_count(source),
    ensures
        child_issues(
            source,
            Some(merged_value(source, target, path, translations)),
            path,
            Map::empty(),
            count,
        ).len() == 0,
    decreases source, count,
{
    if count > 0 {
        let at = count - 1;
        lemma_children_idempotent(source, target, path, translations, at as nat);
        lemma_child_well_formed(source, at);
        lemma_merged_counterpart(source, target, path, translations, at);
        law_merge_idempotent(
            child(source, at),
            counterpart(source, target, at),
            child_path(path, child_segment(source, at)),
            translations,
        );
    }
}

/// Every string that a comparison requests is one that merging accepts a translation for.
pub proof fn law_units_translatable(
    source: JsonModel,
    target: Option<JsonModel>,
    path: Seq<char>,
    force: bool,
    outdated: Set<Seq<char>>,
)
    ensures
        forall|i: int|
            0 <= i < diff_value(source, target, path, force, outdated).units.len() ==> translatable(
                text_leaves(source, path),
                (#[trigger] diff_value(source, target, path, force, outdated).units[i]).path,
            ),
    decreases source, child_count(source) + 1,
{
    let found = diff_value(source, target, path, force, outdated);
    match source {
        JsonModel::Array(_) | JsonModel::Object(_) => {
            if !(target is Some && !same_kind(source, target->0)) {
                let inside = diff_children(source, target, path, force, outdated, child_count(source));
                lemma_child_units_translatable(
                    source,
                    target,
                    path,
                    force,
                    outdated,
                    child_count(source),
                );
                assert(found.units =~= inside.units);
            }
        },
        JsonModel::Text(text) => {
            assert(text_leaves(source, path)[0] == (label(path), text));
        },
        _ => {},
    }
}

#[verifier::spinoff_prover]
#[verifier::rlimit(40)]
proof fn lemma_child_units_translatable(
    source: JsonModel,
    target: Option<JsonModel>,
    path: Seq<char>,
    force: bool,
    outdated: Set<Seq<char>>,
    count: nat,
)
    requires
        count <= child_count(source),
    ensures
        forall|i: int|
            0 <= i < diff_children(source, target, path, force, outdated, count).units.len()
                ==> translatable(
                child_leaves(source, path, count),
                (#[trigger] diff_children(source, target, path, force, outdated, count).units[i]).path,
            ),
    decreases source, count,
{
    if count > 0 {
        let at = count - 1;
        let inner = child_path(path, child_segment(source, at));
        let before = diff_children(source, target, path, force, outdated, at as nat).units;
        let step = diff_value(
            child(source, at),
            counterpart(source, target, at),
            inner,
            force,
            outdated,
        ).units;
        let (first, second) = (
            child_leaves(source, path, at as nat),
            text_leaves(child(source, at), inner),
        );
        let leaves = child_leaves(source, path, count);
        lemma_child_units_translatable(source, target, path, force, outdated, at as nat);
        law_units_translatable(
            child(source, at),
            counterpart(source, target, at),
            inner,
            force,
            outdated,
        );
        let units = diff_children(source, target, path, force, outdated, count).units;
        assert(units == before + step);
        assert(leaves == first + second);
        assert forall|i: int| 0 <= i < units.len() implies translatable(
            leaves,
            (#[trigger] units[i]).path,
        ) by {
            lemma_translatable_joined(first, second, units[i].path);
            if i < before.len() {
                assert(units[i] == before[i]);
                assert(translatable(first, before[i].path));
            } else {
                assert(units[i] == step[i - before.len()]);
                assert(translatable(second, step[i - before.len()].path));
            }
        }
    }
}

/// Whether a path names a value or something inside it.
pub open spec fn under(path: Seq<char>, name: Seq<char>) -> bool {
    path.is_prefix_of(name) && (name.len() == path.len() || name[path.len() as int] == '/')
}

proof fn lemma_under_child(path: Seq<char>, segment: Seq<char>, name: Seq<char>)
    requires
        under(child_path(path, segment), name),
    ensures
        under(path, name),
{
    let inner = child_path(path, segment);
    let start = path + seq!['/'];
    assert(inner == start + super::pointer::escaped(segment));
    assert(start[path.len() as int] == '/');
    assert(inner[path.len() as int] == start[path.len() as int]);
    assert(path =~= inner.take(path.len() as int));
    assert(name[path.len() as int] == inner[path.len() as int]);
    assert(path =~= name.take(path.len() as int));
}

/// What lies inside one child does not lie inside another.
proof fn lemma_children_apart(path: Seq<char>, a: Seq<char>, b: Seq<char>, name: Seq<char>)
    requires
        under(child_path(path, a), name),
        under(child_path(path, b), name),
    ensures
        a == b,
{
    let (x, y) = (child_path(path, a), child_path(path, b));
    lemma_child_slash(path, a);
    lemma_child_slash(path, b);
    if x.len() < y.len() {
        assert(name[x.len() as int] == '/');
        assert(y[x.len() as int] == name[x.len() as int]);
    } else if y.len() < x.len() {
        assert(name[y.len() as int] == '/');
        assert(x[y.len() as int] == name[y.len() as int]);
    }
    assert(x =~= name.take(x.len() as int));
    assert(y =~= name.take(y.len() as int));
    super::pointer::law_child_path_injective(path, a, path, b);
}

proof fn lemma_child_slash(path: Seq<char>, segment: Seq<char>)
    ensures
        child_path(path, segment).len() > path.len(),
        forall|i: int|
            path.len() < i < child_path(path, segment).len() ==> child_path(path, segment)[i] != '/',
{
    let start = path + seq!['/'];
    let escaped = super::pointer::escaped(segment);
    super::pointer::lemma_escaped_no_slash(segment);
    assert(start.len() == path.len() + 1);
    assert(child_path(path, segment) == start + escaped);
    assert forall|i: int| path.len() < i < child_path(path, segment).len() implies child_path(
        path,
        segment,
    )[i] != '/' by {
        assert((start + escaped)[i] == escaped[i - start.len()]);
    }
}

/// The strings of a value lie inside the value.
proof fn lemma_leaves_under(value: JsonModel, path: Seq<char>)
    requires
        path.len() > 0,
    ensures
        forall|i: int|
            0 <= i < text_leaves(value, path).len() ==> under(
                path,
                (#[trigger] text_leaves(value, path)[i]).0,
            ),
    decreases value, child_count(value) + 1,
{
    match value {
        JsonModel::Array(_) | JsonModel::Object(_) => {
            lemma_child_leaves_under(value, path, child_count(value));
            let leaves = child_leaves(value, path, child_count(value));
            assert(text_leaves(value, path) == leaves);
            assert forall|i: int| 0 <= i < leaves.len() implies under(path, (#[trigger] leaves[i]).0) by {
                let k = choose|k: int|
                    0 <= k < child_count(value) && under(
                        child_path(path, #[trigger] child_segment(value, k)),
                        leaves[i].0,
                    );
                lemma_under_child(path, child_segment(value, k), leaves[i].0);
            }
        },
        _ => {},
    }
}

/// The strings of the children lie inside the children.
proof fn lemma_child_leaves_under(value: JsonModel, path: Seq<char>, count: nat)
    requires
        count <= child_count(value),
    ensures
        forall|i: int|
            0 <= i < child_leaves(value, path, count).len() ==> exists|k: int|
                0 <= k < count && under(
                    child_path(path, #[trigger] child_segment(value, k)),
                    (#[trigger] child_leaves(value, path, count)[i]).0,
                ),
    decreases value, count,
{
    if count > 0 {
        let at = count - 1;
        let inner = child_path(path, child_segment(value, at));
        lemma_child_slash(path, child_segment(value, at));
        lemma_child_leaves_under(value, path, at as nat);
        lemma_leaves_under(child(value, at), inner);
        let (first, second) = (
            child_leaves(value, path, at as nat),
            text_leaves(child(value, at), inner),
        );
        let leaves = child_leaves(value, path, count);
        assert(leaves == first + second);
        assert forall|i: int| 0 <= i < leaves.len() implies exists|k: int|
            0 <= k < count && under(
                child_path(path, #[trigger] child_segment(value, k)),
                (#[trigger] leaves[i]).0,
            ) by {
            if i < first.len() {
                assert(leaves[i] == first[i]);
                let k = choose|k: int|
                    0 <= k < at && under(
                        child_path(path, #[trigger] child_segment(value, k)),
                        first[i].0,
                    );
                assert(under(child_path(path, child_segment(value, k)), leaves[i].0));
            } else {
                assert(leaves[i] == second[i - first.len()]);
                assert(under(child_path(path, child_segment(value, at)), leaves[i].0));
            }
        }
    }
}

proof fn lemma_segments_distinct(value: JsonModel, a: int, b: int)
    requires
        well_formed(value),
        0 <= a < child_count(value),
        0 <= b < child_count(value),
        child_segment(value, a) == child_segment(value, b),
    ensures
        a == b,
{
    match value {
        JsonModel::Object(entries) => {
            assert(keys(entries)[a] == keys(entries)[b]);
        },
        _ => {
            crate::text::law_decimal_reads_back(a as nat);
            crate::text::law_decimal_reads_back(b as nat);
        },
    }
}

/// No two strings of a value have the same path.
pub proof fn law_leaf_paths_distinct(value: JsonModel, path: Seq<char>)
    requires
        well_formed(value),
    ensures
        forall|i: int, j: int|
            0 <= i < j < text_leaves(value, path).len() ==> (#[trigger] text_leaves(value, path)[i]).0
                != (#[trigger] text_leaves(value, path)[j]).0,
    decreases value, child_count(value) + 1,
{
    match value {
        JsonModel::Array(_) | JsonModel::Object(_) => {
            lemma_child_leaf_paths_distinct(value, path, child_count(value));
            assert(text_leaves(value, path) == child_leaves(value, path, child_count(value)));
        },
        _ => {},
    }
}

/// No two strings of the first `count` children of a value have the same path.
pub proof fn lemma_child_leaf_paths_distinct(value: JsonModel, path: Seq<char>, count: nat)
    requires
        well_formed(value),
        count <= child_count(value),
    ensures
        forall|i: int, j: int|
            0 <= i < j < child_leaves(value, path, count).len() ==> (#[trigger] child_leaves(
                value,
                path,
                count,
            )[i]).0 != (#[trigger] child_leaves(value, path, count)[j]).0,
    decreases value, count,
{
    if count > 0 {
        let at = count - 1;
        let inner = child_path(path, child_segment(value, at));
        lemma_child_slash(path, child_segment(value, at));
        lemma_child_leaf_paths_distinct(value, path, at as nat);
        lemma_child_well_formed(value, at);
        law_leaf_paths_distinct(child(value, at), inner);
        lemma_child_leaves_under(value, path, at as nat);
        lemma_leaves_under(child(value, at), inner);
        let (first, second) = (
            child_leaves(value, path, at as nat),
            text_leaves(child(value, at), inner),
        );
        let leaves = child_leaves(value, path, count);
        assert(leaves == first + second);
        assert forall|i: int, j: int| 0 <= i < j < leaves.len() implies (#[trigger] leaves[i]).0
            != (#[trigger] leaves[j]).0 by {
            if j < first.len() {
                assert(leaves[i] == first[i] && leaves[j] == first[j]);
            } else if i < first.len() {
                assert(leaves[i] == first[i] && leaves[j] == second[j - first.len()]);
                if leaves[i].0 == leaves[j].0 {
                    let k = choose|k: int|
                        0 <= k < at && under(
                            child_path(path, #[trigger] child_segment(value, k)),
                            first[i].0,
                        );
                    lemma_children_apart(
                        path,
                        child_segment(value, k),
                        child_segment(value, at),
                        leaves[i].0,
                    );
                    lemma_segments_distinct(value, k, at);
                }
            } else {
                assert(leaves[i] == second[i - first.len()] && leaves[j] == second[j - first.len()]);
            }
        }
    }
}

/// Whether two values have the same structure: the same types, keys and positions, and the same
/// values but for their strings.
pub open spec fn same_shape(a: JsonModel, b: JsonModel) -> bool
    decreases a,
{
    match (a, b) {
        (JsonModel::Text(_), JsonModel::Text(_)) => true,
        (JsonModel::Array(x), JsonModel::Array(y)) => x.len() == y.len() && forall|i: int|
            0 <= i < x.len() ==> same_shape(#[trigger] x[i], y[i]),
        (JsonModel::Object(x), JsonModel::Object(y)) => x.len() == y.len() && forall|i: int|
            0 <= i < x.len() ==> (#[trigger] x[i]).0 == y[i].0 && same_shape(x[i].1, y[i].1),
        _ => a == b,
    }
}

/// A merged value has the structure of the source and keeps its numbers, booleans and nulls.
pub proof fn law_merged_mirrors_source(
    source: JsonModel,
    target: Option<JsonModel>,
    path: Seq<char>,
    translations: Map<Seq<char>, Seq<char>>,
)
    ensures
        same_shape(source, merged_value(source, target, path, translations)),
    decreases source,
{
    let merged = merged_value(source, target, path, translations);
    match source {
        JsonModel::Object(entries) => {
            assert forall|i: int| 0 <= i < entries.len() implies (#[trigger] entries[i]).0
                == merged->Object_0[i].0 && same_shape(entries[i].1, merged->Object_0[i].1) by {
                law_merged_mirrors_source(
                    entries[i].1,
                    counterpart(source, target, i),
                    child_path(path, entries[i].0),
                    translations,
                );
            }
        },
        JsonModel::Array(list) => {
            assert forall|i: int| 0 <= i < list.len() implies same_shape(
                #[trigger] list[i],
                merged->Array_0[i],
            ) by {
                law_merged_mirrors_source(
                    list[i],
                    counterpart(source, target, i),
                    child_path(path, crate::text::decimal(i as nat)),
                    translations,
                );
            }
        },
        _ => {},
    }
}

/// Whether a string is among the missing or the empty ones.
pub open spec fn lacking(found: DiffModel, path: Seq<char>) -> bool {
    found.missing.contains(path) || found.empty.contains(path)
}

proof fn lemma_lacking_joined(first: DiffModel, second: DiffModel, path: Seq<char>)
    requires
        lacking(first, path) || lacking(second, path),
    ensures
        lacking(first.join(second), path),
{
    let whole = first.join(second);
    if first.missing.contains(path) {
        let i = first.missing.index_of(path);
        assert(whole.missing[i] == path);
    } else if first.empty.contains(path) {
        let i = first.empty.index_of(path);
        assert(whole.empty[i] == path);
    } else if second.missing.contains(path) {
        let i = second.missing.index_of(path);
        assert(whole.missing[first.missing.len() + i] == path);
    } else {
        let i = second.empty.index_of(path);
        assert(whole.empty[first.empty.len() + i] == path);
    }
}

/// Without force and without outdated strings, only missing and empty strings are requested.
pub proof fn law_only_lacking_requested(source: JsonModel, target: Option<JsonModel>, path: Seq<char>)
    ensures
        forall|i: int|
            0 <= i < diff_value(source, target, path, false, Set::empty()).units.len() ==> lacking(
                diff_value(source, target, path, false, Set::empty()),
                (#[trigger] diff_value(source, target, path, false, Set::empty()).units[i]).path,
            ),
    decreases source, child_count(source) + 1,
{
    let found = diff_value(source, target, path, false, Set::empty());
    match source {
        JsonModel::Array(_) | JsonModel::Object(_) => {
            if !(target is Some && !same_kind(source, target->0)) {
                let inside = diff_children(
                    source,
                    target,
                    path,
                    false,
                    Set::empty(),
                    child_count(source),
                );
                let extra = DiffModel::extras(extra_children(source, target, path));
                lemma_only_lacking_children(source, target, path, child_count(source));
                assert(found == inside.join(extra));
                assert(found.units =~= inside.units);
                assert forall|i: int| 0 <= i < found.units.len() implies lacking(
                    found,
                    (#[trigger] found.units[i]).path,
                ) by {
                    assert(inside.units[i] == found.units[i]);
                    lemma_lacking_joined(inside, extra, inside.units[i].path);
                }
            }
        },
        JsonModel::Text(text) => {
            let name = label(path);
            assert forall|i: int| 0 <= i < found.units.len() implies lacking(
                found,
                (#[trigger] found.units[i]).path,
            ) by {
                assert(found.units[i].path == name);
                assert(found.missing.len() == 1 ==> found.missing[0] == name);
                assert(found.empty.len() == 1 ==> found.empty[0] == name);
            }
        },
        _ => {},
    }
}

proof fn lemma_only_lacking_children(
    source: JsonModel,
    target: Option<JsonModel>,
    path: Seq<char>,
    count: nat,
)
    requires
        count <= child_count(source),
    ensures
        forall|i: int|
            0 <= i < diff_children(source, target, path, false, Set::empty(), count).units.len()
                ==> lacking(
                diff_children(source, target, path, false, Set::empty(), count),
                (#[trigger] diff_children(
                    source,
                    target,
                    path,
                    false,
                    Set::empty(),
                    count,
                ).units[i]).path,
            ),
    decreases source, count,
{
    if count > 0 {
        let at = count - 1;
        let inner = child_path(path, child_segment(source, at));
        let before = diff_children(source, target, path, false, Set::empty(), at as nat);
        let step = diff_value(
            child(source, at),
            counterpart(source, target, at),
            inner,
            false,
            Set::empty(),
        );
        let found = diff_children(source, target, path, false, Set::empty(), count);
        lemma_only_lacking_children(source, target, path, at as nat);
        law_only_lacking_requested(child(source, at), counterpart(source, target, at), inner);
        assert(found == before.join(step));
        assert forall|i: int| 0 <= i < found.units.len() implies lacking(
            found,
            (#[trigger] found.units[i]).path,
        ) by {
            if i < before.units.len() {
                assert(found.units[i] == before.units[i]);
                lemma_lacking_joined(before, step, before.units[i].path);
            } else {
                let unit = step.units[i - before.units.len()];
                assert(found.units[i] == unit);
                lemma_lacking_joined(before, step, unit.path);
            }
        }
    }
}

/// Whether a path is among those of the requested strings.
pub open spec fn requested(units: Seq<UnitModel>, path: Seq<char>) -> bool {
    exists|i: int| 0 <= i < units.len() && (#[trigger] units[i]).path == path
}

proof fn lemma_requested_joined(first: Seq<UnitModel>, second: Seq<UnitModel>, path: Seq<char>)
    requires
        requested(first, path) || requested(second, path),
    ensures
        requested(first + second, path),
{
    if requested(first, path) {
        let i = choose|i: int| 0 <= i < first.len() && (#[trigger] first[i]).path == path;
        assert((first + second)[i].path == path);
    } else {
        let i = choose|i: int| 0 <= i < second.len() && (#[trigger] second[i]).path == path;
        assert((first + second)[first.len() + i].path == path);
    }
}

/// With force, every string of the source that is not empty is requested, unless there is a type
/// conflict.
pub proof fn law_force_requests_every_string(
    source: JsonModel,
    target: Option<JsonModel>,
    path: Seq<char>,
    outdated: Set<Seq<char>>,
)
    requires
        diff_value(source, target, path, true, outdated).conflicts.len() == 0,
    ensures
        forall|i: int|
            0 <= i < text_leaves(source, path).len() && (#[trigger] text_leaves(
                source,
                path,
            )[i]).1.len() > 0 ==> requested(
                diff_value(source, target, path, true, outdated).units,
                text_leaves(source, path)[i].0,
            ),
    decreases source, child_count(source) + 1,
{
    let found = diff_value(source, target, path, true, outdated);
    if target is Some && !same_kind(source, target->0) {
        assert(found.conflicts.len() == 1);
    }
    match source {
        JsonModel::Array(_) | JsonModel::Object(_) => {
            let inside = diff_children(source, target, path, true, outdated, child_count(source));
            let extra = DiffModel::extras(extra_children(source, target, path));
            assert(found == inside.join(extra));
            assert(found.conflicts.len() == inside.conflicts.len() + extra.conflicts.len());
            assert(found.units =~= inside.units);
            lemma_force_requests_children(source, target, path, outdated, child_count(source));
            assert(text_leaves(source, path) == child_leaves(source, path, child_count(source)));
        },
        JsonModel::Text(text) => {
            if text.len() > 0 {
                assert(found.units.len() == 1);
                assert(found.units[0].path == label(path));
            }
        },
        _ => {},
    }
}

proof fn lemma_force_requests_children(
    source: JsonModel,
    target: Option<JsonModel>,
    path: Seq<char>,
    outdated: Set<Seq<char>>,
    count: nat,
)
    requires
        count <= child_count(source),
        diff_children(source, target, path, true, outdated, count).conflicts.len() == 0,
    ensures
        forall|i: int|
            0 <= i < child_leaves(source, path, count).len() && (#[trigger] child_leaves(
                source,
                path,
                count,
            )[i]).1.len() > 0 ==> requested(
                diff_children(source, target, path, true, outdated, count).units,
                child_leaves(source, path, count)[i].0,
            ),
    decreases source, count,
{
    if count > 0 {
        let at = count - 1;
        let inner = child_path(path, child_segment(source, at));
        let before = diff_children(source, target, path, true, outdated, at as nat);
        let step = diff_value(
            child(source, at),
            counterpart(source, target, at),
            inner,
            true,
            outdated,
        );
        let found = diff_children(source, target, path, true, outdated, count);
        assert(found == before.join(step));
        assert(found.conflicts.len() == before.conflicts.len() + step.conflicts.len());
        lemma_force_requests_children(source, target, path, outdated, at as nat);
        law_force_requests_every_string(
            child(source, at),
            counterpart(source, target, at),
            inner,
            outdated,
        );
        let (first, second) = (
            child_leaves(source, path, at as nat),
            text_leaves(child(source, at), inner),
        );
        let leaves = child_leaves(source, path, count);
        assert(leaves == first + second);
        assert forall|i: int| 0 <= i < leaves.len() && (#[trigger] leaves[i]).1.len() > 0 implies requested(
            found.units,
            leaves[i].0,
        ) by {
            if i < first.len() {
                assert(leaves[i] == first[i]);
            } else {
                assert(leaves[i] == second[i - first.len()]);
            }
            lemma_requested_joined(before.units, step.units, leaves[i].0);
        }
    }
}

} // verus!
