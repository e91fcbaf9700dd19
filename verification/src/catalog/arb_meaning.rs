//! What the rules of ARB documents mean for the elements of messages.
use crate::icu::{branch_preorder, preorder, read_result, BranchModel, ElementKind, ElementModel};
use crate::value::{keys, lemma_lookup_position, lemma_present, lookup, JsonModel};
use super::arb::{
    document_issue, first_issue, is_choice, member_issue, message_issue, metadata_key,
    placeholder_issue, signature, signatures, translation_issue, usage, variables, Choice,
    SignatureModel,
};
use super::message_meaning::{names_global, names_message};
use super::places::{lemma_contains_joined, lemma_single};
use vstd::prelude::*;

verus! {

/// The element of a message that steps lead to: a position in the message or, after the position of
/// an element and that of one of its branches, in that branch.
pub open spec fn element_at(list: Seq<ElementModel>, steps: Seq<int>) -> Option<ElementModel>
    decreases steps.len(),
{
    if steps.len() == 0 || steps[0] < 0 || steps[0] >= list.len() {
        None
    } else if steps.len() == 1 {
        Some(list[steps[0]])
    } else {
        let branches = list[steps[0]].branches;
        if 0 <= steps[1] < branches.len() {
            element_at(branches[steps[1]].elements, steps.skip(2))
        } else {
            None
        }
    }
}

/// Whether an element is in a message, at any depth.
pub open spec fn is_in(list: Seq<ElementModel>, element: ElementModel) -> bool {
    exists|steps: Seq<int>| #[trigger] element_at(list, steps) == Some(element)
}

/// Whether elements of a kind have a variable: all but literals and pound signs do.
pub open spec fn has_variable(kind: ElementKind) -> bool {
    kind != ElementKind::Literal && kind != ElementKind::Pound
}

/// Whether elements of two kinds use their variable alike: they are of the same kind, or both are
/// plurals.
pub open spec fn same_use(a: ElementKind, b: ElementKind) -> bool {
    a == b || ((a == ElementKind::Plural || a == ElementKind::Ordinal) && (b == ElementKind::Plural
        || b == ElementKind::Ordinal))
}

/// Whether a message uses a variable in two ways.
pub open spec fn uses_twice(list: Seq<ElementModel>) -> bool {
    exists|a: ElementModel, b: ElementModel|
        #[trigger] is_in(list, a) && #[trigger] is_in(list, b) && has_variable(a.kind)
            && has_variable(b.kind) && a.name == b.name && !same_use(a.kind, b.kind)
}

/// The elements of a message in the order in which they were written are those that steps lead
/// to.
#[verifier::rlimit(60)]
pub proof fn law_preorder_holds_all(list: Seq<ElementModel>, element: ElementModel)
    ensures
        preorder(list).contains(element) <==> is_in(list, element),
    decreases list,
{
    if list.len() == 0 {
        assert forall|steps: Seq<int>| #[trigger] element_at(list, steps) is None by {}
    } else {
        let (before, last) = (list.drop_last(), list.last());
        let at = list.len() - 1;
        law_preorder_holds_all(before, element);
        lemma_branches_hold_all(last.branches, element);
        let (x, y, z) = (preorder(before), seq![last], branch_preorder(last.branches));
        assert(preorder(list) == x + y + z);
        lemma_contains_joined(x + y, z, element);
        lemma_contains_joined(x, y, element);
        lemma_single(last, element);
        if x.contains(element) {
            let steps = choose|steps: Seq<int>| #[trigger]
                element_at(before, steps) == Some(element);
            assert(list[steps[0]] == before[steps[0]]);
            assert(element_at(list, steps) == Some(element));
        }
        if element == last {
            assert(element_at(list, seq![at]) == Some(element));
        }
        if z.contains(element) {
            let (b, rest) = choose|b: int, rest: Seq<int>|
                0 <= b < last.branches.len() && #[trigger] element_at(
                    last.branches[b].elements,
                    rest,
                ) == Some(element);
            let steps = seq![at, b] + rest;
            assert(rest.len() > 0);
            assert(steps.skip(2) =~= rest);
            assert(steps[0] == at && steps[1] == b);
            assert(element_at(list, steps) == Some(element));
        }
        if is_in(list, element) {
            let steps = choose|steps: Seq<int>| #[trigger] element_at(list, steps) == Some(element);
            if steps[0] < at {
                assert(list[steps[0]] == before[steps[0]]);
                assert(element_at(before, steps) == Some(element));
                assert(is_in(before, element));
            } else if steps.len() > 1 {
                let rest = steps.skip(2);
                assert(element_at(last.branches[steps[1]].elements, rest) == Some(element));
            }
        }
    }
}

proof fn lemma_branches_hold_all(branches: Seq<BranchModel>, element: ElementModel)
    ensures
        branch_preorder(branches).contains(element) <==> exists|b: int, rest: Seq<int>|
            0 <= b < branches.len() && #[trigger] element_at(branches[b].elements, rest) == Some(
                element,
            ),
    decreases branches,
{
    if branches.len() > 0 {
        let (before, last) = (branches.drop_last(), branches.last());
        let at = branches.len() - 1;
        lemma_branches_hold_all(before, element);
        law_preorder_holds_all(last.elements, element);
        lemma_contains_joined(branch_preorder(before), preorder(last.elements), element);
        if branch_preorder(before).contains(element) {
            let (b, rest) = choose|b: int, rest: Seq<int>|
                0 <= b < before.len() && #[trigger] element_at(before[b].elements, rest) == Some(
                    element,
                );
            assert(branches[b] == before[b]);
            assert(element_at(branches[b].elements, rest) == Some(element));
        }
        if is_in(last.elements, element) {
            let rest = choose|rest: Seq<int>| #[trigger]
                element_at(last.elements, rest) == Some(element);
            assert(element_at(branches[at].elements, rest) == Some(element));
        }
        assert forall|b: int, rest: Seq<int>|
            0 <= b < branches.len() && #[trigger] element_at(branches[b].elements, rest) == Some(
                element,
            ) implies branch_preorder(branches).contains(element) by {
            if b < at {
                assert(branches[b] == before[b]);
                assert(element_at(before[b].elements, rest) == Some(element));
            } else {
                assert(is_in(last.elements, element));
            }
        }
    }
}

proof fn lemma_usage(a: ElementKind, b: ElementKind)
    ensures
        usage(a) is Some <==> has_variable(a),
        has_variable(a) && has_variable(b) ==> (usage(a) == usage(b) <==> same_use(a, b)),
{
    reveal_strlit("argument");
    reveal_strlit("number");
    reveal_strlit("date");
    reveal_strlit("time");
    reveal_strlit("select");
    reveal_strlit("plural");
    reveal_strlit("tag");
    assert("argument"@.len() == 8 && "number"@.len() == 6 && "date"@.len() == 4 && "time"@.len() == 4
        && "select"@.len() == 6 && "plural"@.len() == 6 && "tag"@.len() == 3);
    assert("number"@[0] == 'n' && "select"@[0] == 's' && "plural"@[0] == 'p');
    assert("date"@[0] == 'd' && "time"@[0] == 't');
}

/// The variables of elements, and how each is used, are those of the elements that have one.
#[verifier::rlimit(60)]
proof fn lemma_variables(elements: Seq<ElementModel>)
    ensures
        variables(elements) is Ok ==> {
            &&& forall|name: Seq<char>| #[trigger]
                variables(elements)->Ok_0.contains_key(name) <==> exists|i: int|
                    0 <= i < elements.len() && has_variable((#[trigger] elements[i]).kind)
                        && elements[i].name == name
            &&& forall|i: int|
                0 <= i < elements.len() && has_variable((#[trigger] elements[i]).kind)
                    ==> variables(elements)->Ok_0[elements[i].name] == usage(elements[i].kind)->0
        },
        variables(elements) is Err ==> exists|i: int, j: int|
            0 <= i < elements.len() && 0 <= j < elements.len() && has_variable(
                (#[trigger] elements[i]).kind,
            ) && has_variable((#[trigger] elements[j]).kind) && elements[i].name == elements[j].name
                && !same_use(elements[i].kind, elements[j].kind),
    decreases elements.len(),
{
    if elements.len() > 0 {
        let (before, last) = (elements.drop_last(), elements.last());
        let at = elements.len() - 1;
        lemma_variables(before);
        lemma_usage(last.kind, last.kind);
        assert forall|i: int| 0 <= i < before.len() implies before[i] == #[trigger] elements[i] by {}
        if variables(before) is Err {
            let (i, j) = choose|i: int, j: int|
                0 <= i < before.len() && 0 <= j < before.len() && has_variable(
                    (#[trigger] before[i]).kind,
                ) && has_variable((#[trigger] before[j]).kind) && before[i].name == before[j].name
                    && !same_use(before[i].kind, before[j].kind);
            assert(elements[i] == before[i] && elements[j] == before[j]);
        } else {
            let map = variables(before)->Ok_0;
            if has_variable(last.kind) {
                if map.contains_key(last.name) {
                    let i = choose|i: int|
                        0 <= i < before.len() && has_variable((#[trigger] before[i]).kind)
                            && before[i].name == last.name;
                    lemma_usage(before[i].kind, last.kind);
                    assert(elements[i] == before[i] && elements[at] == last);
                    assert(map[last.name] == usage(before[i].kind)->0);
                }
            }
            if variables(elements) is Ok {
                let after = variables(elements)->Ok_0;
                assert forall|name: Seq<char>| #[trigger]
                    after.contains_key(name) <==> exists|i: int|
                        0 <= i < elements.len() && has_variable((#[trigger] elements[i]).kind)
                            && elements[i].name == name by {
                    if map.contains_key(name) {
                        let i = choose|i: int|
                            0 <= i < before.len() && has_variable((#[trigger] before[i]).kind)
                                && before[i].name == name;
                        assert(elements[i] == before[i]);
                    }
                    if has_variable(last.kind) && last.name == name {
                        assert(elements[at] == last);
                    }
                    if exists|i: int|
                        0 <= i < elements.len() && has_variable((#[trigger] elements[i]).kind)
                            && elements[i].name == name {
                        let i = choose|i: int|
                            0 <= i < elements.len() && has_variable((#[trigger] elements[i]).kind)
                                && elements[i].name == name;
                        if i < at {
                            assert(before[i] == elements[i]);
                        }
                    }
                }
                assert forall|i: int|
                    0 <= i < elements.len() && has_variable((#[trigger] elements[i]).kind) implies after[elements[i].name]
                    == usage(elements[i].kind)->0 by {
                    if i < at {
                        assert(before[i] == elements[i]);
                        assert(map.contains_key(before[i].name));
                    }
                }
            }
        }
    }
}

/// A message has variables to list exactly where it uses none of them in two ways. They are the
/// names of its elements that are neither literals nor pound signs, at any depth.
#[verifier::rlimit(60)]
pub proof fn law_message_variables(list: Seq<ElementModel>)
    ensures
        variables(preorder(list)) is Err <==> uses_twice(list),
        variables(preorder(list)) is Ok ==> {
            &&& forall|name: Seq<char>| #[trigger]
                variables(preorder(list))->Ok_0.contains_key(name) <==> exists|e: ElementModel|
                    #[trigger] is_in(list, e) && has_variable(e.kind) && e.name == name
            &&& forall|e: ElementModel| #[trigger]
                is_in(list, e) && has_variable(e.kind) ==> variables(preorder(list))->Ok_0[e.name]
                    == usage(e.kind)->0
        },
{
    let all = preorder(list);
    lemma_variables(all);
    assert forall|e: ElementModel| #[trigger] is_in(list, e) <==> all.contains(e) by {
        law_preorder_holds_all(list, e);
    }
    assert forall|i: int| 0 <= i < all.len() implies is_in(list, #[trigger] all[i]) by {
        assert(all.contains(all[i]));
    }
    if variables(all) is Ok {
        let map = variables(all)->Ok_0;
        assert forall|e: ElementModel| #[trigger] is_in(list, e) && has_variable(e.kind) implies map.contains_key(
            e.name,
        ) && map[e.name] == usage(e.kind)->0 by {
            let i = all.index_of(e);
            assert(all[i] == e);
        }
        assert forall|name: Seq<char>| #[trigger] map.contains_key(name) implies exists|
            e: ElementModel,
        | #[trigger] is_in(list, e) && has_variable(e.kind) && e.name == name by {
            let i = choose|i: int|
                0 <= i < all.len() && has_variable((#[trigger] all[i]).kind) && all[i].name == name;
            assert(is_in(list, all[i]));
        }
        if uses_twice(list) {
            let (a, b) = choose|a: ElementModel, b: ElementModel|
                #[trigger] is_in(list, a) && #[trigger] is_in(list, b) && has_variable(a.kind)
                    && has_variable(b.kind) && a.name == b.name && !same_use(a.kind, b.kind);
            lemma_usage(a.kind, b.kind);
            lemma_usage(b.kind, a.kind);
        }
    } else {
        let (i, j) = choose|i: int, j: int|
            0 <= i < all.len() && 0 <= j < all.len() && has_variable((#[trigger] all[i]).kind)
                && has_variable((#[trigger] all[j]).kind) && all[i].name == all[j].name && !same_use(
                all[i].kind,
                all[j].kind,
            );
        assert(is_in(list, all[i]) && is_in(list, all[j]));
    }
}

proof fn lemma_signatures(elements: Seq<ElementModel>, choice: Choice, wanted: SignatureModel)
    ensures
        signatures(elements, choice).contains(wanted) <==> exists|i: int|
            0 <= i < elements.len() && is_choice((#[trigger] elements[i]).kind, choice) && signature(
                elements[i],
                choice,
            ) == wanted,
    decreases elements.len(),
{
    if elements.len() > 0 {
        let (before, last) = (elements.drop_last(), elements.last());
        let at = elements.len() - 1;
        lemma_signatures(before, choice, wanted);
        let shorter = signatures(before, choice);
        if is_choice(last.kind, choice) {
            assert(signatures(elements, choice) =~= shorter + seq![signature(last, choice)]);
            lemma_contains_joined(shorter, seq![signature(last, choice)], wanted);
            lemma_single(signature(last, choice), wanted);
        }
        if shorter.contains(wanted) {
            let i = choose|i: int|
                0 <= i < before.len() && is_choice((#[trigger] before[i]).kind, choice) && signature(
                    before[i],
                    choice,
                ) == wanted;
            assert(elements[i] == before[i]);
        }
        assert forall|i: int|
            0 <= i < elements.len() && is_choice((#[trigger] elements[i]).kind, choice) && signature(
                elements[i],
                choice,
            ) == wanted implies signatures(elements, choice).contains(wanted) by {
            if i < at {
                assert(before[i] == elements[i]);
            }
        }
        if is_choice(last.kind, choice) && signature(last, choice) == wanted {
            assert(elements[at] == last);
        }
    }
}

/// Whether a key of a plural branch is one of the plural categories of languages.
pub open spec fn names_category(key: Seq<char>) -> bool {
    key == "zero"@ || key == "one"@ || key == "two"@ || key == "few"@ || key == "many"@ || key
        == "other"@
}

/// Whether an element has a branch with a key.
pub open spec fn has_branch(element: ElementModel, key: Seq<char>) -> bool {
    exists|b: int| 0 <= b < element.branches.len() && (#[trigger] element.branches[b]).key == key
}

/// Whether an element stands for another in a translation: it has the same kind and variable; of a
/// `select` also the same keys; of a plural the same offset and, but for the categories, the same
/// keys.
pub open spec fn stands_for(a: ElementModel, b: ElementModel) -> bool {
    &&& a.kind == b.kind
    &&& a.name == b.name
    &&& a.kind == ElementKind::Select ==> a.offset == b.offset && forall|key: Seq<char>| #[trigger]
        has_branch(a, key) <==> has_branch(b, key)
    &&& a.kind == ElementKind::Plural || a.kind == ElementKind::Ordinal ==> a.offset == b.offset
        && forall|key: Seq<char>|
        !names_category(key) ==> (#[trigger] has_branch(a, key) <==> has_branch(b, key))
}

proof fn lemma_same_choice(ours: Seq<ElementModel>, theirs: Seq<ElementModel>, choice: Choice, at: int)
    requires
        signatures(ours, choice).to_multiset() == signatures(theirs, choice).to_multiset(),
        0 <= at < ours.len(),
        is_choice(ours[at].kind, choice),
    ensures
        exists|j: int| 0 <= j < theirs.len() && stands_for(ours[at], #[trigger] theirs[j]),
{
    broadcast use vstd::seq_lib::group_to_multiset_ensures;

    let wanted = signature(ours[at], choice);
    lemma_signatures(ours, choice, wanted);
    lemma_signatures(theirs, choice, wanted);
    let (x, y) = (signatures(ours, choice), signatures(theirs, choice));
    assert(x.contains(wanted));
    assert(x.to_multiset().count(wanted) > 0);
    assert(y.to_multiset().count(wanted) > 0);
    assert(y.contains(wanted));
    let j = choose|j: int|
        0 <= j < theirs.len() && is_choice((#[trigger] theirs[j]).kind, choice) && signature(
            theirs[j],
            choice,
        ) == wanted;
    let (a, b) = (ours[at], theirs[j]);
    assert(signature(a, choice).kind == signature(b, choice).kind);
    assert forall|key: Seq<char>| !(choice is Plural && names_category(key)) implies (
    #[trigger] has_branch(a, key) <==> has_branch(b, key)) by {
        assert(signature(a, choice).keys.contains(key) <==> signature(b, choice).keys.contains(key));
        assert(signature(a, choice).keys.contains(key) <==> has_branch(a, key));
        assert(signature(b, choice).keys.contains(key) <==> has_branch(b, key));
    }
}

proof fn lemma_kept_in_translation(
    key: Seq<char>,
    ours: Seq<ElementModel>,
    theirs: Seq<ElementModel>,
    element: ElementModel,
)
    requires
        message_issue(key, ours, theirs) is None,
        is_in(ours, element),
        has_variable(element.kind),
    ensures
        exists|other: ElementModel| #[trigger] is_in(theirs, other) && stands_for(element, other),
{
    let (x, y) = (preorder(ours), preorder(theirs));
    law_preorder_holds_all(ours, element);
    let at = x.index_of(element);
    assert(x[at] == element);
    assert forall|j: int| 0 <= j < y.len() implies is_in(theirs, #[trigger] y[j]) by {
        assert(y.contains(y[j]));
        law_preorder_holds_all(theirs, y[j]);
    }
    if element.kind == ElementKind::Select {
        lemma_same_choice(x, y, Choice::Select, at);
        let j = choose|j: int| 0 <= j < y.len() && stands_for(x[at], #[trigger] y[j]);
        assert(is_in(theirs, y[j]));
    } else if element.kind == ElementKind::Plural || element.kind == ElementKind::Ordinal {
        lemma_same_choice(x, y, Choice::Plural, at);
        let j = choose|j: int| 0 <= j < y.len() && stands_for(x[at], #[trigger] y[j]);
        assert(is_in(theirs, y[j]));
    } else {
        law_message_variables(ours);
        law_message_variables(theirs);
        let map = variables(x)->Ok_0;
        assert(map.contains_key(element.name));
        assert(variables(y)->Ok_0 == map);
        let other = choose|e: ElementModel|
            #[trigger] is_in(theirs, e) && has_variable(e.kind) && e.name == element.name;
        assert(map[other.name] == usage(other.kind)->0);
        lemma_usage(element.kind, other.kind);
        lemma_usage(other.kind, element.kind);
        assert(stands_for(element, other));
    }
}

/// An accepted translation and its source are messages that use none of their variables in two
/// ways, and each element of the one that has a variable stands for one of the other.
pub proof fn law_accepted_translation(key: Seq<char>, source: Seq<char>, target: Seq<char>)
    requires
        translation_issue(key, source, target) is None,
    ensures
        read_result(source) is Ok,
        read_result(target) is Ok,
        !uses_twice(read_result(source)->Ok_0),
        !uses_twice(read_result(target)->Ok_0),
        forall|e: ElementModel| #[trigger]
            is_in(read_result(source)->Ok_0, e) && has_variable(e.kind) ==> exists|
                other: ElementModel,
            | #[trigger] is_in(read_result(target)->Ok_0, other) && stands_for(e, other),
        forall|e: ElementModel| #[trigger]
            is_in(read_result(target)->Ok_0, e) && has_variable(e.kind) ==> exists|
                other: ElementModel,
            | #[trigger] is_in(read_result(source)->Ok_0, other) && stands_for(e, other),
{
    let (ours, theirs) = (read_result(source)->Ok_0, read_result(target)->Ok_0);
    law_message_variables(ours);
    law_message_variables(theirs);
    assert(message_issue(key, ours, theirs) is None);
    assert(message_issue(key, theirs, ours) is None);
    assert forall|e: ElementModel| #[trigger] is_in(ours, e) && has_variable(e.kind) implies exists|
        other: ElementModel,
    | #[trigger] is_in(theirs, other) && stands_for(e, other) by {
        lemma_kept_in_translation(key, ours, theirs, e);
    }
    assert forall|e: ElementModel| #[trigger] is_in(theirs, e) && has_variable(e.kind) implies exists|
        other: ElementModel,
    | #[trigger] is_in(ours, other) && stands_for(e, other) by {
        lemma_kept_in_translation(key, theirs, ours, e);
    }
}

/// How many elements of a message an element stands for.
pub open spec fn how_many(list: Seq<ElementModel>, element: ElementModel) -> nat {
    preorder(list).filter(|other: ElementModel| stands_for(element, other)).len()
}

/// Whether an element is a `select` or a plural.
pub open spec fn has_choices(kind: ElementKind) -> bool {
    kind == ElementKind::Select || kind == ElementKind::Plural || kind == ElementKind::Ordinal
}

/// Whether every variable of a message is one of another, used alike.
pub open spec fn variables_among(ours: Seq<ElementModel>, theirs: Seq<ElementModel>) -> bool {
    forall|e: ElementModel| #[trigger]
        is_in(ours, e) && has_variable(e.kind) ==> exists|other: ElementModel| #[trigger]
            is_in(theirs, other) && has_variable(other.kind) && other.name == e.name && same_use(
                other.kind,
                e.kind,
            )
}

/// Whether two messages can be translations of each other: they use the same variables alike, none
/// of them in two ways, and have each `select` and plural equally often.
pub open spec fn fit(ours: Seq<ElementModel>, theirs: Seq<ElementModel>) -> bool {
    &&& !uses_twice(ours)
    &&& !uses_twice(theirs)
    &&& variables_among(ours, theirs)
    &&& variables_among(theirs, ours)
    &&& forall|e: ElementModel|
        has_choices(e.kind) ==> #[trigger] how_many(ours, e) == how_many(theirs, e)
}

proof fn lemma_signature_stands_for(a: ElementModel, b: ElementModel, choice: Choice)
    requires
        is_choice(a.kind, choice),
    ensures
        stands_for(a, b) <==> is_choice(b.kind, choice) && signature(a, choice) == signature(
            b,
            choice,
        ),
{
    let (x, y) = (signature(a, choice), signature(b, choice));
    assert forall|key: Seq<char>| #[trigger] x.keys.contains(key) <==> has_branch(a, key) && !(
    choice is Plural && names_category(key)) by {}
    assert forall|key: Seq<char>| #[trigger] y.keys.contains(key) <==> has_branch(b, key) && !(
    choice is Plural && names_category(key)) by {}
    if stands_for(a, b) {
        assert forall|key: Seq<char>| x.keys.contains(key) <==> y.keys.contains(key) by {
            assert(has_branch(a, key) || !has_branch(a, key));
        }
        assert(x.keys =~= y.keys);
        assert(x =~= y);
    }
    if is_choice(b.kind, choice) && x == y {
        assert(x.kind == y.kind && x.offset == y.offset && x.variable == y.variable);
        assert forall|key: Seq<char>| !(choice is Plural && names_category(key)) implies (
        #[trigger] has_branch(a, key) <==> has_branch(b, key)) by {
            assert(x.keys.contains(key) <==> has_branch(a, key));
            assert(y.keys.contains(key) <==> has_branch(b, key));
        }
    }
}

proof fn lemma_signature_count(elements: Seq<ElementModel>, choice: Choice, wanted: ElementModel)
    requires
        is_choice(wanted.kind, choice),
    ensures
        signatures(elements, choice).to_multiset().count(signature(wanted, choice))
            == elements.filter(|other: ElementModel| stands_for(wanted, other)).len(),
    decreases elements.len(),
{
    broadcast use vstd::seq_lib::group_to_multiset_ensures;

    reveal(Seq::filter);
    let like = |other: ElementModel| stands_for(wanted, other);
    if elements.len() == 0 {
        assert(signatures(elements, choice).to_multiset().count(signature(wanted, choice)) == 0);
    } else {
        let (before, last) = (elements.drop_last(), elements.last());
        lemma_signature_count(before, choice, wanted);
        lemma_signature_stands_for(wanted, last, choice);
        let shorter = signatures(before, choice);
        if is_choice(last.kind, choice) {
            assert(signatures(elements, choice) == shorter.push(signature(last, choice)));
            vstd::seq_lib::to_multiset_build(shorter, signature(last, choice));
        }
    }
}

#[verifier::rlimit(60)]
proof fn lemma_same_signatures(ours: Seq<ElementModel>, theirs: Seq<ElementModel>, choice: Choice)
    ensures
        signatures(preorder(ours), choice).to_multiset() == signatures(
            preorder(theirs),
            choice,
        ).to_multiset() <==> forall|e: ElementModel|
            is_choice(e.kind, choice) ==> #[trigger] how_many(ours, e) == how_many(theirs, e),
{
    broadcast use vstd::seq_lib::group_to_multiset_ensures;

    let (x, y) = (signatures(preorder(ours), choice), signatures(preorder(theirs), choice));
    assert forall|e: ElementModel| is_choice(e.kind, choice) implies #[trigger] how_many(ours, e)
        == x.to_multiset().count(signature(e, choice)) by {
        lemma_signature_count(preorder(ours), choice, e);
    }
    assert forall|e: ElementModel| is_choice(e.kind, choice) implies #[trigger] how_many(theirs, e)
        == y.to_multiset().count(signature(e, choice)) by {
        lemma_signature_count(preorder(theirs), choice, e);
    }
    if forall|e: ElementModel|
        is_choice(e.kind, choice) ==> #[trigger] how_many(ours, e) == how_many(theirs, e) {
        assert forall|s: SignatureModel| #[trigger] x.to_multiset().count(s) == y.to_multiset().count(
            s,
        ) by {
            lemma_signatures(preorder(ours), choice, s);
            lemma_signatures(preorder(theirs), choice, s);
            if x.contains(s) {
                let i = choose|i: int|
                    0 <= i < preorder(ours).len() && is_choice(
                        (#[trigger] preorder(ours)[i]).kind,
                        choice,
                    ) && signature(preorder(ours)[i], choice) == s;
                assert(how_many(ours, preorder(ours)[i]) == how_many(theirs, preorder(ours)[i]));
            } else if y.contains(s) {
                let i = choose|i: int|
                    0 <= i < preorder(theirs).len() && is_choice(
                        (#[trigger] preorder(theirs)[i]).kind,
                        choice,
                    ) && signature(preorder(theirs)[i], choice) == s;
                assert(how_many(ours, preorder(theirs)[i]) == how_many(
                    theirs,
                    preorder(theirs)[i],
                ));
            }
        }
        assert(x.to_multiset() =~= y.to_multiset());
    }
}

#[verifier::rlimit(60)]
proof fn lemma_same_variables(ours: Seq<ElementModel>, theirs: Seq<ElementModel>)
    requires
        !uses_twice(ours),
        !uses_twice(theirs),
    ensures
        variables(preorder(ours)) == variables(preorder(theirs)) <==> variables_among(ours, theirs)
            && variables_among(theirs, ours),
{
    law_message_variables(ours);
    law_message_variables(theirs);
    let (x, y) = (variables(preorder(ours))->Ok_0, variables(preorder(theirs))->Ok_0);
    if variables_among(ours, theirs) && variables_among(theirs, ours) {
        assert forall|name: Seq<char>| #[trigger] x.contains_key(name) <==> y.contains_key(name) by {
            if x.contains_key(name) {
                let e = choose|e: ElementModel|
                    #[trigger] is_in(ours, e) && has_variable(e.kind) && e.name == name;
                let o = choose|o: ElementModel| #[trigger]
                    is_in(theirs, o) && has_variable(o.kind) && o.name == e.name && same_use(
                        o.kind,
                        e.kind,
                    );
                assert(is_in(theirs, o));
            }
            if y.contains_key(name) {
                let e = choose|e: ElementModel|
                    #[trigger] is_in(theirs, e) && has_variable(e.kind) && e.name == name;
                let o = choose|o: ElementModel| #[trigger]
                    is_in(ours, o) && has_variable(o.kind) && o.name == e.name && same_use(
                        o.kind,
                        e.kind,
                    );
                assert(is_in(ours, o));
            }
        }
        assert forall|name: Seq<char>| #[trigger] x.contains_key(name) implies x[name] == y[name] by {
            let e = choose|e: ElementModel|
                #[trigger] is_in(ours, e) && has_variable(e.kind) && e.name == name;
            let o = choose|o: ElementModel| #[trigger]
                is_in(theirs, o) && has_variable(o.kind) && o.name == e.name && same_use(
                    o.kind,
                    e.kind,
                );
            lemma_usage(o.kind, e.kind);
            assert(x[e.name] == usage(e.kind)->0 && y[o.name] == usage(o.kind)->0);
        }
        assert(x =~= y);
    }
    if x == y {
        assert forall|e: ElementModel| #[trigger] is_in(ours, e) && has_variable(e.kind) implies exists|
            other: ElementModel,
        | #[trigger] is_in(theirs, other) && has_variable(other.kind) && other.name == e.name
            && same_use(other.kind, e.kind) by {
            assert(y.contains_key(e.name));
            let o = choose|o: ElementModel|
                #[trigger] is_in(theirs, o) && has_variable(o.kind) && o.name == e.name;
            lemma_usage(o.kind, e.kind);
            lemma_usage(e.kind, o.kind);
        }
        assert forall|e: ElementModel| #[trigger] is_in(theirs, e) && has_variable(e.kind) implies exists|
            other: ElementModel,
        | #[trigger] is_in(ours, other) && has_variable(other.kind) && other.name == e.name
            && same_use(other.kind, e.kind) by {
            assert(x.contains_key(e.name));
            let o = choose|o: ElementModel|
                #[trigger] is_in(ours, o) && has_variable(o.kind) && o.name == e.name;
            lemma_usage(o.kind, e.kind);
            lemma_usage(e.kind, o.kind);
        }
    }
}

/// A translation is accepted exactly where it and its source are messages that fit each other.
#[verifier::rlimit(60)]
pub proof fn law_translation_accepted(key: Seq<char>, source: Seq<char>, target: Seq<char>)
    ensures
        translation_issue(key, source, target) is None <==> read_result(source) is Ok && read_result(
            target,
        ) is Ok && fit(read_result(source)->Ok_0, read_result(target)->Ok_0),
{
    if read_result(source) is Ok && read_result(target) is Ok {
        let (ours, theirs) = (read_result(source)->Ok_0, read_result(target)->Ok_0);
        law_message_variables(ours);
        law_message_variables(theirs);
        if !uses_twice(ours) && !uses_twice(theirs) {
            lemma_same_variables(ours, theirs);
            lemma_same_signatures(ours, theirs, Choice::Select);
            lemma_same_signatures(ours, theirs, Choice::Plural);
            if message_issue(key, ours, theirs) is None {
                assert forall|e: ElementModel| has_choices(e.kind) implies #[trigger] how_many(
                    ours,
                    e,
                ) == how_many(theirs, e) by {
                    assert(is_choice(e.kind, Choice::Select) || is_choice(e.kind, Choice::Plural));
                }
            }
        }
    }
}

/// Whether a member of an ARB document is as it has to be. A message is a text that reads without
/// error; where its metadata names placeholders, they are its variables. Metadata belongs to a
/// message and is an object whose description is a text and whose placeholders are an object.
pub open spec fn member_fine(entries: Seq<(Seq<char>, JsonModel)>, at: int) -> bool {
    let (key, value) = entries[at];
    if names_global(key) {
        true
    } else if names_message(key) {
        &&& value is Text
        &&& read_result(value->Text_0) is Ok
        &&& value->Text_0.len() > 0 ==> match lookup(entries, seq!['@'] + key) {
            Some(JsonModel::Object(metadata)) => match lookup(metadata, "placeholders"@) {
                Some(JsonModel::Object(names)) => placeholders_used(
                    names,
                    read_result(value->Text_0)->Ok_0,
                ),
                _ => true,
            },
            _ => true,
        }
    } else {
        &&& key.len() > 1
        &&& lookup(entries, key.drop_first()) is Some
        &&& value is Object
        &&& lookup(value->Object_0, "description"@) is Some ==> lookup(
            value->Object_0,
            "description"@,
        )->0 is Text
        &&& lookup(value->Object_0, "placeholders"@) is Some ==> lookup(
            value->Object_0,
            "placeholders"@,
        )->0 is Object
    }
}

/// Whether names are those of the variables of a message, none of which is used in two ways.
pub open spec fn placeholders_used(
    names: Seq<(Seq<char>, JsonModel)>,
    list: Seq<ElementModel>,
) -> bool {
    !uses_twice(list) && forall|name: Seq<char>| #[trigger]
        lookup(names, name) is Some <==> exists|e: ElementModel| #[trigger]
            is_in(list, e) && has_variable(e.kind) && e.name == name
}

#[verifier::rlimit(60)]
proof fn lemma_placeholders(key: Seq<char>, metadata: JsonModel, list: Seq<ElementModel>)
    ensures
        placeholder_issue(key, metadata, list) is None <==> match metadata {
            JsonModel::Object(entries) => match lookup(entries, "placeholders"@) {
                Some(JsonModel::Object(names)) => placeholders_used(names, list),
                _ => true,
            },
            _ => true,
        },
{
    law_message_variables(list);
    if metadata is Object {
        let found = lookup(metadata->Object_0, "placeholders"@);
        if found is Some && found->0 is Object {
            let names = found->0->Object_0;
            assert forall|name: Seq<char>| #[trigger] lookup(names, name) is Some <==> keys(
                names,
            ).to_set().contains(name) by {
                if lookup(names, name) is Some {
                    let i = lemma_lookup_position(names, name);
                    assert(keys(names)[i] == name);
                }
                if keys(names).contains(name) {
                    let i = keys(names).index_of(name);
                    lemma_present(names, name, i);
                }
            }
            if !uses_twice(list) {
                let used = variables(preorder(list))->Ok_0;
                if keys(names).to_set() == used.dom() {
                    assert forall|name: Seq<char>| #[trigger] lookup(names, name) is Some <==> exists|
                        e: ElementModel,
                    | #[trigger] is_in(list, e) && has_variable(e.kind) && e.name == name by {
                        assert(used.contains_key(name) <==> keys(names).to_set().contains(name));
                    }
                }
                if placeholders_used(names, list) {
                    assert forall|name: Seq<char>| keys(names).to_set().contains(name)
                        <==> #[trigger] used.dom().contains(name) by {
                        assert(used.contains_key(name) <==> used.dom().contains(name));
                        assert(lookup(names, name) is Some <==> keys(names).to_set().contains(name));
                    }
                    assert(keys(names).to_set() =~= used.dom());
                }
            }
        }
    }
}

proof fn lemma_member_fine(entries: Seq<(Seq<char>, JsonModel)>, at: int)
    requires
        0 <= at < entries.len(),
    ensures
        member_issue(entries, at) is None <==> member_fine(entries, at),
{
    let (key, value) = entries[at];
    if names_message(key) && value is Text && read_result(value->Text_0) is Ok {
        assert(metadata_key(key) == seq!['@'] + key);
        let found = lookup(entries, seq!['@'] + key);
        if found is Some {
            lemma_placeholders(key, found->0, read_result(value->Text_0)->Ok_0);
        }
    }
}

proof fn lemma_all_fine(entries: Seq<(Seq<char>, JsonModel)>, count: nat)
    requires
        count <= entries.len(),
    ensures
        first_issue(entries, count) is None <==> forall|i: int|
            0 <= i < count ==> #[trigger] member_fine(entries, i),
    decreases count,
{
    if count > 0 {
        lemma_all_fine(entries, (count - 1) as nat);
        lemma_member_fine(entries, count - 1);
    }
}

/// An ARB document is accepted exactly where its language code, if it has one, is a text and every
/// member is as it has to be.
pub proof fn law_document_accepted(entries: Seq<(Seq<char>, JsonModel)>)
    ensures
        document_issue(entries) is None <==> (lookup(entries, "@@locale"@) is Some ==> lookup(
            entries,
            "@@locale"@,
        )->0 is Text) && forall|i: int| 0 <= i < entries.len() ==> #[trigger] member_fine(entries, i),
{
    lemma_all_fine(entries, entries.len());
}

} // verus!
