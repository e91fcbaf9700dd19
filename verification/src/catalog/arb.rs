//! The rules of ARB documents: metadata, placeholders and ICU messages.
use crate::icu::{
    element_models, flatten, preorder, read_message, read_result, reference_models, BranchModel,
    Element, ElementKind, ElementModel,
};
use crate::map::{lemma_same_keys, lemma_sorted_keys, sorted_keys, text_map, StringMap};
use crate::text::{
    chars_of, join2, join3, join4, join5, optional_text, quoted, quoted_form, same_text, text_of,
    texts,
};
use crate::value::{find, has_key, keys, lookup, members, Json, JsonModel};
use vstd::prelude::*;

verus! {

/// What the metadata of a message says about it.
#[derive(Debug, PartialEq, Eq)]
pub struct ArbContext {
    pub description: Option<String>,
    pub placeholders: Vec<String>,
}

/// A violation of the rules of ARB documents.
#[derive(Debug)]
pub enum ArbError {
    LocaleMustBeString,
    MessageMustBeString(String),
    InvalidMetadataKey(String),
    MetadataMustBeObject(String),
    InvalidDescription(String),
    InvalidPlaceholders(String),
    InvalidMessage { key: String, details: String },
    PlaceholderMetadataMismatch(String),
    ConflictingVariableType { name: String, first: String, second: String },
    VariableMismatch {
        key: String,
        source_variables: StringMap<String>,
        target_variables: StringMap<String>,
    },
    SelectMismatch(String),
    PluralMismatch(String),
}

/// What a violation is.
pub enum ArbIssue {
    LocaleMustBeString,
    MessageMustBeString(Seq<char>),
    InvalidMetadataKey(Seq<char>),
    MetadataMustBeObject(Seq<char>),
    InvalidDescription(Seq<char>),
    InvalidPlaceholders(Seq<char>),
    InvalidMessage { key: Seq<char>, details: Seq<char> },
    PlaceholderMetadataMismatch(Seq<char>),
    ConflictingVariableType { name: Seq<char>, first: Seq<char>, second: Seq<char> },
    VariableMismatch {
        key: Seq<char>,
        source_variables: Map<Seq<char>, Seq<char>>,
        target_variables: Map<Seq<char>, Seq<char>>,
    },
    SelectMismatch(Seq<char>),
    PluralMismatch(Seq<char>),
}

impl ArbError {
    /// What the violation is.
    pub open spec fn issue(self) -> ArbIssue {
        match self {
            ArbError::LocaleMustBeString => ArbIssue::LocaleMustBeString,
            ArbError::MessageMustBeString(key) => ArbIssue::MessageMustBeString(key@),
            ArbError::InvalidMetadataKey(key) => ArbIssue::InvalidMetadataKey(key@),
            ArbError::MetadataMustBeObject(key) => ArbIssue::MetadataMustBeObject(key@),
            ArbError::InvalidDescription(key) => ArbIssue::InvalidDescription(key@),
            ArbError::InvalidPlaceholders(key) => ArbIssue::InvalidPlaceholders(key@),
            ArbError::InvalidMessage { key, details } => ArbIssue::InvalidMessage {
                key: key@,
                details: details@,
            },
            ArbError::PlaceholderMetadataMismatch(key) => ArbIssue::PlaceholderMetadataMismatch(
                key@,
            ),
            ArbError::ConflictingVariableType { name, first, second } => {
                ArbIssue::ConflictingVariableType { name: name@, first: first@, second: second@ }
            },
            ArbError::VariableMismatch { key, source_variables, target_variables } => {
                ArbIssue::VariableMismatch {
                    key: key@,
                    source_variables: text_map(source_variables@),
                    target_variables: text_map(target_variables@),
                }
            },
            ArbError::SelectMismatch(key) => ArbIssue::SelectMismatch(key@),
            ArbError::PluralMismatch(key) => ArbIssue::PluralMismatch(key@),
        }
    }
}

/// Whether a result is success, or the failure that the violation calls for.
pub open spec fn outcome_is(outcome: Result<(), ArbError>, issue: Option<ArbIssue>) -> bool {
    match issue {
        None => outcome is Ok,
        Some(found) => outcome is Err && outcome->Err_0.issue() == found,
    }
}

/// How an element uses its variable; a literal and a pound sign use none.
pub open spec fn usage(kind: ElementKind) -> Option<Seq<char>> {
    match kind {
        ElementKind::Literal | ElementKind::Pound => None,
        ElementKind::Argument => Some("argument"@),
        ElementKind::Number => Some("number"@),
        ElementKind::Date => Some("date"@),
        ElementKind::Time => Some("time"@),
        ElementKind::Select => Some("select"@),
        ElementKind::Plural | ElementKind::Ordinal => Some("plural"@),
        ElementKind::Tag => Some("tag"@),
    }
}

fn usage_of(kind: ElementKind) -> (name: Option<&'static str>)
    ensures
        match name {
            Some(text) => usage(kind) == Some(text@),
            None => usage(kind) is None,
        },
{
    match kind {
        ElementKind::Literal => None,
        ElementKind::Pound => None,
        ElementKind::Argument => Some("argument"),
        ElementKind::Number => Some("number"),
        ElementKind::Date => Some("date"),
        ElementKind::Time => Some("time"),
        ElementKind::Select => Some("select"),
        ElementKind::Plural => Some("plural"),
        ElementKind::Ordinal => Some("plural"),
        ElementKind::Tag => Some("tag"),
    }
}

/// The variables of a message and how each is used, or the first variable that is used in two
/// ways.
pub open spec fn variables(elements: Seq<ElementModel>) -> Result<
    Map<Seq<char>, Seq<char>>,
    ArbIssue,
>
    decreases elements.len(),
{
    if elements.len() == 0 {
        Ok(Map::empty())
    } else {
        let last = elements.last();
        match (variables(elements.drop_last()), usage(last.kind)) {
            (Ok(before), Some(kind)) => if before.contains_key(last.name) && before[last.name]
                != kind {
                Err(
                    ArbIssue::ConflictingVariableType {
                        name: last.name,
                        first: before[last.name],
                        second: kind,
                    },
                )
            } else {
                Ok(before.insert(last.name, kind))
            },
            (before, _) => before,
        }
    }
}

/// A variable that is used in two ways stays so whatever follows.
proof fn lemma_conflict_stays(elements: Seq<ElementModel>, count: int)
    requires
        0 <= count <= elements.len(),
        variables(elements.take(count)) is Err,
    ensures
        variables(elements) == variables(elements.take(count)),
    decreases elements.len(),
{
    if count == elements.len() {
        assert(elements.take(count) =~= elements);
    } else {
        assert(elements.drop_last().take(count) =~= elements.take(count));
        lemma_conflict_stays(elements.drop_last(), count);
    }
}

/// The variables of a message and how each is used.
pub fn collect_variables(elements: &Vec<Element>) -> (outcome: Result<StringMap<String>, ArbError>)
    ensures
        match variables(preorder(element_models(elements@))) {
            Ok(map) => outcome is Ok && text_map(outcome->Ok_0@) == map,
            Err(issue) => outcome is Err && outcome->Err_0.issue() == issue,
        },
{
    let mut flat: Vec<&Element> = Vec::new();
    flatten(elements, &mut flat);
    let ghost models = preorder(element_models(elements@));
    assert(reference_models(flat@) =~= models);
    let mut result: StringMap<String> = StringMap::new();
    assert(models.take(0) =~= Seq::empty());
    assert(text_map(result@) =~= Map::empty());
    for i in 0..flat.len()
        invariant
            models == preorder(element_models(elements@)),
            reference_models(flat@) == models,
            variables(models.take(i as int)) == Ok::<Map<Seq<char>, Seq<char>>, ArbIssue>(
                text_map(result@),
            ),
    {
        let element = flat[i];
        assert(models[i as int] == element.model());
        assert(models.take(i + 1).drop_last() =~= models.take(i as int));
        assert(models.take(i + 1).last() == element.model());
        if let Some(kind) = usage_of(element.kind) {
            let ghost before = result@;
            let previous = result.insert(element.name.clone(), kind.to_owned());
            if let Some(first) = previous {
                if !same_text(first.as_str(), kind) {
                    proof {
                        assert(text_map(before)[element.name@] == first@);
                        lemma_conflict_stays(models, i + 1);
                    }
                    return Err(
                        ArbError::ConflictingVariableType {
                            name: element.name.clone(),
                            first,
                            second: kind.to_owned(),
                        },
                    );
                }
            }
            assert(text_map(result@) =~= text_map(before).insert(element.name@, kind@));
        }
    }
    assert(models.take(models.len() as int) =~= models);
    Ok(result)
}

/// Whether a key is one of the plural categories of a language.
pub open spec fn plural_category(key: Seq<char>) -> bool {
    key == "zero"@ || key == "one"@ || key == "two"@ || key == "few"@ || key == "many"@ || key
        == "other"@
}

fn is_plural_category(key: &str) -> (result: bool)
    ensures
        result == plural_category(key@),
{
    same_text(key, "zero") || same_text(key, "one") || same_text(key, "two") || same_text(key, "few")
        || same_text(key, "many") || same_text(key, "other")
}

/// The keys of branches; `exact` leaves out the plural categories.
pub open spec fn branch_keys(branches: Seq<BranchModel>, exact: bool) -> Set<Seq<char>> {
    Set::new(
        |key: Seq<char>|
            !(exact && plural_category(key)) && exists|i: int|
                0 <= i < branches.len() && (#[trigger] branches[i]).key == key,
    )
}

/// Which elements a comparison is about.
#[derive(Debug, Clone, Copy, PartialEq, Eq, Structural)]
pub enum Choice {
    Select,
    Plural,
}

/// Whether an element is one that the comparison is about.
pub open spec fn is_choice(kind: ElementKind, choice: Choice) -> bool {
    match choice {
        Choice::Select => kind == ElementKind::Select,
        Choice::Plural => kind == ElementKind::Plural || kind == ElementKind::Ordinal,
    }
}

/// What a translation must keep of a `select` or plural: its variable and, of a `select`, its
/// keys; of a plural, its type, its offset and its exact keys.
#[derive(Debug)]
struct Signature {
    variable: String,
    kind: ElementKind,
    offset: Option<i32>,
    keys: StringMap<()>,
}

/// What a translation must keep of a `select` or plural.
#[verifier::ext_equal]
pub struct SignatureModel {
    pub variable: Seq<char>,
    pub kind: ElementKind,
    pub offset: Option<i32>,
    pub keys: Set<Seq<char>>,
}

impl Signature {
    spec fn model(self) -> SignatureModel {
        SignatureModel {
            variable: self.variable@,
            kind: self.kind,
            offset: self.offset,
            keys: self.keys@.dom(),
        }
    }
}

/// What a translation must keep of an element.
pub open spec fn signature(element: ElementModel, choice: Choice) -> SignatureModel {
    SignatureModel {
        variable: element.name,
        kind: element.kind,
        offset: element.offset,
        keys: branch_keys(element.branches, choice is Plural),
    }
}

/// What a translation must keep of the elements of a message.
pub open spec fn signatures(elements: Seq<ElementModel>, choice: Choice) -> Seq<SignatureModel>
    decreases elements.len(),
{
    if elements.len() == 0 {
        Seq::empty()
    } else if is_choice(elements.last().kind, choice) {
        signatures(elements.drop_last(), choice).push(signature(elements.last(), choice))
    } else {
        signatures(elements.drop_last(), choice)
    }
}

spec fn signature_models(list: Seq<Signature>) -> Seq<SignatureModel> {
    Seq::new(list.len(), |i: int| list[i].model())
}

fn signature_of(element: &Element, choice: Choice) -> (result: Signature)
    ensures
        result.model() == signature(element.model(), choice),
{
    let mut keys: StringMap<()> = StringMap::new();
    let exact = match choice {
        Choice::Select => false,
        Choice::Plural => true,
    };
    let ghost branches = element.model().branches;
    proof {
        crate::icu::lemma_element_model(*element);
        assert(keys@.dom() =~= branch_keys(branches.take(0), exact));
    }
    for i in 0..element.branches.len()
        invariant
            branches == element.model().branches,
            branches == crate::icu::branch_models(element.branches@),
            keys@.dom() == branch_keys(branches.take(i as int), exact),
    {
        let branch = &element.branches[i];
        let ghost before = keys@.dom();
        let ghost key = branch.key@;
        assert(branches[i as int].key == key);
        if !(exact && is_plural_category(branch.key.as_str())) {
            keys.insert(branch.key.clone(), ());
        }
        proof {
            let longer = branches.take(i + 1);
            let shorter = branches.take(i as int);
            assert forall|k: Seq<char>| #[trigger]
                keys@.dom().contains(k) == branch_keys(longer, exact).contains(k) by {
                if before.contains(k) {
                    let j = choose|j: int| 0 <= j < shorter.len() && (#[trigger] shorter[j]).key == k;
                    assert(longer[j].key == k);
                }
                if k == key {
                    assert(longer[i as int].key == k);
                }
                if branch_keys(longer, exact).contains(k) && k != key {
                    let j = choose|j: int| 0 <= j < longer.len() && (#[trigger] longer[j]).key == k;
                    assert(shorter[j].key == k);
                }
            }
            assert(keys@.dom() =~= branch_keys(longer, exact));
        }
    }
    assert(branches.take(branches.len() as int) =~= branches);
    Signature { variable: element.name.clone(), kind: element.kind, offset: element.offset, keys }
}

fn collect_signatures(flat: &Vec<&Element>, choice: Choice) -> (list: Vec<Signature>)
    ensures
        signature_models(list@) == signatures(reference_models(flat@), choice),
{
    let ghost models = reference_models(flat@);
    let mut list: Vec<Signature> = Vec::new();
    assert(signature_models(list@) =~= signatures(models.take(0), choice));
    for i in 0..flat.len()
        invariant
            models == reference_models(flat@),
            signature_models(list@) == signatures(models.take(i as int), choice),
    {
        let element = flat[i];
        assert(models[i as int] == element.model());
        assert(models.take(i + 1).drop_last() =~= models.take(i as int));
        assert(models.take(i + 1).last() == element.model());
        let wanted = match choice {
            Choice::Select => element.kind == ElementKind::Select,
            Choice::Plural => element.kind == ElementKind::Plural || element.kind
                == ElementKind::Ordinal,
        };
        if wanted {
            let ghost before = signature_models(list@);
            list.push(signature_of(element, choice));
            assert(signature_models(list@) =~= before.push(signature(element.model(), choice)));
        }
    }
    assert(models.take(models.len() as int) =~= models);
    list
}

/// Whether two sets of texts are equal.
pub fn same_keys<A, B>(a: &StringMap<A>, b: &StringMap<B>) -> (same: bool)
    ensures
        same == (a@.dom() == b@.dom()),
{
    let count: usize = a.len();
    if count != b.len() {
        return false;
    }
    for i in 0..count
        invariant
            count == a.keys().len(),
            count == b.keys().len(),
            a.ordered(),
            b.ordered(),
            forall|j: int| 0 <= j < i ==> a.keys()[j] == b.keys()[j],
    {
        if !same_text(a.key_at(i).as_str(), b.key_at(i).as_str()) {
            proof {
                if a@.dom() == b@.dom() {
                    lemma_same_keys(a.keys(), b.keys());
                }
            }
            return false;
        }
    }
    assert(a.keys() =~= b.keys());
    true
}

fn same_offset(a: Option<i32>, b: Option<i32>) -> (same: bool)
    ensures
        same == (a == b),
{
    match (a, b) {
        (Some(x), Some(y)) => x == y,
        (None, None) => true,
        _ => false,
    }
}

fn same_signature(a: &Signature, b: &Signature) -> (same: bool)
    ensures
        same == (a.model() == b.model()),
{
    same_text(a.variable.as_str(), b.variable.as_str()) && a.kind == b.kind && same_offset(
        a.offset,
        b.offset,
    ) && same_keys(&a.keys, &b.keys)
}

fn count_signature(list: &Vec<Signature>, wanted: &Signature) -> (count: usize)
    ensures
        count == signature_models(list@).to_multiset().count(wanted.model()),
{
    broadcast use vstd::seq_lib::group_to_multiset_ensures;

    let ghost models = signature_models(list@);
    let mut count: usize = 0;
    assert(models.take(0) =~= Seq::empty());
    assert(models.take(0).to_multiset().count(wanted.model()) == 0);
    for i in 0..list.len()
        invariant
            models == signature_models(list@),
            count <= i,
            count == models.take(i as int).to_multiset().count(wanted.model()),
    {
        assert(models.take(i + 1) =~= models.take(i as int).push(models[i as int]));
        assert(models[i as int] == list@[i as int].model());
        proof {
            vstd::seq_lib::to_multiset_build(models.take(i as int), models[i as int]);
        }
        if same_signature(&list[i], wanted) {
            count = count + 1;
        }
    }
    assert(models.take(models.len() as int) =~= models);
    count
}

/// Whether two lists hold the same signatures, each equally often.
fn same_signatures(a: &Vec<Signature>, b: &Vec<Signature>) -> (same: bool)
    ensures
        same == (signature_models(a@).to_multiset() == signature_models(b@).to_multiset()),
{
    broadcast use vstd::seq_lib::group_to_multiset_ensures;

    let ghost x = signature_models(a@);
    let ghost y = signature_models(b@);
    if a.len() != b.len() {
        assert(x.to_multiset().len() != y.to_multiset().len());
        return false;
    }
    for i in 0..a.len()
        invariant
            x == signature_models(a@),
            y == signature_models(b@),
            forall|j: int|
                0 <= j < i ==> x.to_multiset().count(#[trigger] x[j]) == y.to_multiset().count(x[j]),
    {
        assert(x[i as int] == a@[i as int].model());
        if count_signature(a, &a[i]) != count_signature(b, &a[i]) {
            return false;
        }
    }
    proof {
        let (m, n) = (x.to_multiset(), y.to_multiset());
        assert forall|s: SignatureModel| #[trigger] m.count(s) <= n.count(s) by {
            if m.count(s) > 0 {
                assert(x.contains(s));
                let j = x.index_of(s);
                assert(x[j] == s);
            }
        }
        assert(m.subset_of(n));
        assert(n.sub(m).len() == 0);
        assert forall|s: SignatureModel| #[trigger] m.count(s) == n.count(s) by {
            assert(n.sub(m).count(s) == 0);
        }
        assert(m =~= n);
    }
    true
}

/// Why a translation does not fit the message that it translates.
pub open spec fn message_issue(
    key: Seq<char>,
    source: Seq<ElementModel>,
    target: Seq<ElementModel>,
) -> Option<ArbIssue> {
    let (ours, theirs) = (preorder(source), preorder(target));
    match (variables(ours), variables(theirs)) {
        (Err(issue), _) => Some(issue),
        (_, Err(issue)) => Some(issue),
        (Ok(source_variables), Ok(target_variables)) => if source_variables != target_variables {
            Some(ArbIssue::VariableMismatch { key, source_variables, target_variables })
        } else if signatures(ours, Choice::Select).to_multiset() != signatures(
            theirs,
            Choice::Select,
        ).to_multiset() {
            Some(ArbIssue::SelectMismatch(key))
        } else if signatures(ours, Choice::Plural).to_multiset() != signatures(
            theirs,
            Choice::Plural,
        ).to_multiset() {
            Some(ArbIssue::PluralMismatch(key))
        } else {
            None
        },
    }
}

/// Why a text is not a translation of a message.
pub open spec fn translation_issue(key: Seq<char>, source: Seq<char>, target: Seq<char>) -> Option<
    ArbIssue,
> {
    match (read_result(source), read_result(target)) {
        (Err(details), _) => Some(ArbIssue::InvalidMessage { key, details }),
        (_, Err(details)) => Some(ArbIssue::InvalidMessage { key, details }),
        (Ok(ours), Ok(theirs)) => message_issue(key, ours, theirs),
    }
}

/// Whether two maps from texts to texts are equal.
pub fn same_text_map(a: &StringMap<String>, b: &StringMap<String>) -> (same: bool)
    ensures
        same == (text_map(a@) == text_map(b@)),
{
    if !same_keys(a, b) {
        assert(text_map(a@).dom() =~= a@.dom());
        assert(text_map(b@).dom() =~= b@.dom());
        return false;
    }
    let count: usize = a.len();
    let other: usize = b.len();
    proof {
        lemma_same_keys(a.keys(), b.keys());
    }
    for i in 0..count
        invariant
            count == a.keys().len(),
            a.ordered(),
            a.keys() == b.keys(),
            a@.dom() == b@.dom(),
            forall|j: int|
                0 <= j < i ==> text_map(a@)[#[trigger] a.keys()[j]] == text_map(b@)[a.keys()[j]],
    {
        let ghost key = a.keys()[i as int];
        assert(a@.contains_key(key));
        if !same_text(a.value_at(i).as_str(), b.value_at(i).as_str()) {
            assert(text_map(a@)[key] != text_map(b@)[key]);
            return false;
        }
    }
    proof {
        assert forall|key: Seq<char>| #[trigger] text_map(a@).contains_key(key) implies text_map(
            a@,
        )[key] == text_map(b@)[key] by {
            assert(a.keys().to_set().contains(key));
            let j = a.keys().index_of(key);
            assert(a.keys()[j] == key);
        }
        assert(text_map(a@) =~= text_map(b@));
    }
    true
}

/// Checks that the elements of a translation fit the message that it translates.
pub fn validate_elements(key: &str, source: &Vec<Element>, target: &Vec<Element>) -> (outcome: Result<
    (),
    ArbError,
>)
    ensures
        outcome_is(
            outcome,
            message_issue(key@, element_models(source@), element_models(target@)),
        ),
{
    let source_variables = match collect_variables(source) {
        Ok(map) => map,
        Err(error) => {
            return Err(error);
        },
    };
    let target_variables = match collect_variables(target) {
        Ok(map) => map,
        Err(error) => {
            return Err(error);
        },
    };
    if !same_text_map(&source_variables, &target_variables) {
        return Err(
            ArbError::VariableMismatch { key: key.to_owned(), source_variables, target_variables },
        );
    }
    let mut ours: Vec<&Element> = Vec::new();
    flatten(source, &mut ours);
    let mut theirs: Vec<&Element> = Vec::new();
    flatten(target, &mut theirs);
    assert(reference_models(ours@) =~= preorder(element_models(source@)));
    assert(reference_models(theirs@) =~= preorder(element_models(target@)));
    if !same_signatures(
        &collect_signatures(&ours, Choice::Select),
        &collect_signatures(&theirs, Choice::Select),
    ) {
        return Err(ArbError::SelectMismatch(key.to_owned()));
    }
    if !same_signatures(
        &collect_signatures(&ours, Choice::Plural),
        &collect_signatures(&theirs, Choice::Plural),
    ) {
        return Err(ArbError::PluralMismatch(key.to_owned()));
    }
    Ok(())
}

fn parse_message(key: &str, message: &str) -> (outcome: Result<Vec<Element>, ArbError>)
    ensures
        match read_result(message@) {
            Ok(list) => outcome is Ok && element_models(outcome->Ok_0@) == list,
            Err(details) => outcome is Err && outcome->Err_0.issue() == (ArbIssue::InvalidMessage {
                key: key@,
                details,
            }),
        },
{
    match read_message(message) {
        Ok(list) => Ok(list),
        Err(details) => Err(ArbError::InvalidMessage { key: key.to_owned(), details }),
    }
}

/// Checks that a text is a translation of a message: it has the same variables, used in the same
/// ways, the same `select` keys, and plurals of the same type, offset and exact keys.
pub fn validate_translation(key: &str, source: &str, target: &str) -> (outcome: Result<(), ArbError>)
    ensures
        outcome_is(outcome, translation_issue(key@, source@, target@)),
{
    let source_elements = match parse_message(key, source) {
        Ok(list) => list,
        Err(error) => {
            return Err(error);
        },
    };
    let target_elements = match parse_message(key, target) {
        Ok(list) => list,
        Err(error) => {
            return Err(error);
        },
    };
    validate_elements(key, &source_elements, &target_elements)
}

/// Whether a key holds metadata of the whole document.
pub open spec fn is_global(key: Seq<char>) -> bool {
    key.len() >= 2 && key[0] == '@' && key[1] == '@'
}

/// Whether a key holds metadata, of the document or of a message.
pub open spec fn is_metadata(key: Seq<char>) -> bool {
    key.len() >= 1 && key[0] == '@'
}

/// The key that holds the metadata of a message.
pub open spec fn metadata_key(key: Seq<char>) -> Seq<char> {
    seq!['@'] + key
}

/// Whether a key holds metadata of the whole document.
pub fn key_is_global(key: &str) -> (result: bool)
    ensures
        result == is_global(key@),
{
    let chars = chars_of(key);
    chars.len() >= 2 && chars[0] == '@' && chars[1] == '@'
}

/// Whether a key holds metadata, of the document or of a message.
pub fn key_is_metadata(key: &str) -> (result: bool)
    ensures
        result == is_metadata(key@),
{
    let chars = chars_of(key);
    chars.len() >= 1 && chars[0] == '@'
}

fn metadata_key_of(key: &str) -> (result: String)
    ensures
        result@ == metadata_key(key@),
{
    let mut result = String::new();
    result.push('@');
    result.append(key);
    assert(result@ =~= metadata_key(key@));
    result
}

/// The members of a value that is an object.
pub open spec fn object_of(value: Option<JsonModel>) -> Option<Seq<(Seq<char>, JsonModel)>> {
    match value {
        Some(JsonModel::Object(entries)) => Some(entries),
        _ => None,
    }
}

/// The value of a key of an object, where there is an object.
pub open spec fn member_of(value: Option<JsonModel>, key: Seq<char>) -> Option<JsonModel> {
    match object_of(value) {
        Some(entries) => lookup(entries, key),
        None => None,
    }
}

/// What is wrong with the metadata of a message.
pub open spec fn metadata_issue(key: Seq<char>, value: JsonModel) -> Option<ArbIssue> {
    let description = member_of(Some(value), "description"@);
    let placeholders = member_of(Some(value), "placeholders"@);
    if !(value is Object) {
        Some(ArbIssue::MetadataMustBeObject(key))
    } else if description is Some && !(description->0 is Text) {
        Some(ArbIssue::InvalidDescription(key))
    } else if placeholders is Some && !(placeholders->0 is Object) {
        Some(ArbIssue::InvalidPlaceholders(key))
    } else {
        None
    }
}

/// Checks the metadata of a message.
fn validate_metadata(key: &str, value: &Json) -> (outcome: Result<(), ArbError>)
    ensures
        outcome_is(outcome, metadata_issue(key@, value.model())),
{
    match value.as_object() {
        None => Err(ArbError::MetadataMustBeObject(key.to_owned())),
        Some(entries) => {
            if let Some(description) = find(entries, "description") {
                if description.as_text().is_none() {
                    return Err(ArbError::InvalidDescription(key.to_owned()));
                }
            }
            if let Some(placeholders) = find(entries, "placeholders") {
                if placeholders.as_object().is_none() {
                    return Err(ArbError::InvalidPlaceholders(key.to_owned()));
                }
            }
            Ok(())
        },
    }
}

/// What is wrong with the placeholders in the metadata of a message: where they are given, they
/// must be the variables of the message.
pub open spec fn placeholder_issue(
    key: Seq<char>,
    metadata: JsonModel,
    elements: Seq<ElementModel>,
) -> Option<ArbIssue> {
    match object_of(member_of(Some(metadata), "placeholders"@)) {
        None => None,
        Some(placeholders) => match variables(preorder(elements)) {
            Err(issue) => Some(issue),
            Ok(used) => if keys(placeholders).to_set() != used.dom() {
                Some(ArbIssue::PlaceholderMetadataMismatch(key))
            } else {
                None
            },
        },
    }
}

/// The keys of an object as a set.
fn key_set(entries: &Vec<(String, Json)>) -> (result: StringMap<()>)
    ensures
        result@.dom() == keys(members(entries@)).to_set(),
{
    let ghost names = keys(members(entries@));
    let mut result: StringMap<()> = StringMap::new();
    assert(result@.dom() =~= names.take(0).to_set());
    for i in 0..entries.len()
        invariant
            names == keys(members(entries@)),
            result@.dom() == names.take(i as int).to_set(),
    {
        let ghost before = result@.dom();
        let ghost key = entries@[i as int].0@;
        assert(names[i as int] == key);
        result.insert(entries[i].0.clone(), ());
        proof {
            assert(names.take(i + 1) =~= names.take(i as int).push(key));
            assert forall|k: Seq<char>| #[trigger]
                result@.dom().contains(k) == names.take(i + 1).to_set().contains(k) by {
                if before.contains(k) {
                    let j = names.take(i as int).index_of(k);
                    assert(names.take(i + 1)[j] == k);
                }
                if k == key {
                    assert(names.take(i + 1)[i as int] == k);
                }
                if names.take(i + 1).contains(k) && k != key {
                    let j = names.take(i + 1).index_of(k);
                    assert(names.take(i as int)[j] == k);
                }
            }
            assert(result@.dom() =~= names.take(i + 1).to_set());
        }
    }
    assert(names.take(names.len() as int) =~= names);
    result
}

/// Checks the placeholders in the metadata of a message.
pub fn validate_placeholder_metadata(key: &str, metadata: &Json, elements: &Vec<Element>) -> (outcome:
    Result<(), ArbError>)
    ensures
        outcome_is(
            outcome,
            placeholder_issue(key@, metadata.model(), element_models(elements@)),
        ),
{
    if let Some(entries) = metadata.as_object() {
        if let Some(value) = find(entries, "placeholders") {
            if let Some(placeholders) = value.as_object() {
                let names = key_set(placeholders);
                return match collect_variables(elements) {
                    Err(error) => Err(error),
                    Ok(used) => {
                        assert(text_map(used@).dom() =~= used@.dom());
                        if same_keys(&names, &used) {
                            Ok(())
                        } else {
                            Err(ArbError::PlaceholderMetadataMismatch(key.to_owned()))
                        }
                    },
                };
            }
        }
    }
    Ok(())
}

/// What is wrong with a member of an ARB document.
pub open spec fn member_issue(entries: Seq<(Seq<char>, JsonModel)>, at: int) -> Option<ArbIssue> {
    let (key, value) = entries[at];
    if is_global(key) {
        None
    } else if is_metadata(key) {
        if key.len() == 1 || !has_key(entries, key.drop_first()) {
            Some(ArbIssue::InvalidMetadataKey(key))
        } else {
            metadata_issue(key, value)
        }
    } else {
        match value {
            JsonModel::Text(message) => match read_result(message) {
                Err(details) => Some(ArbIssue::InvalidMessage { key, details }),
                Ok(elements) => match lookup(entries, metadata_key(key)) {
                    Some(metadata) => if message.len() > 0 {
                        placeholder_issue(key, metadata, elements)
                    } else {
                        None
                    },
                    None => None,
                },
            },
            _ => Some(ArbIssue::MessageMustBeString(key)),
        }
    }
}

/// The first thing that is wrong with the first `count` members of an ARB document.
pub open spec fn first_issue(entries: Seq<(Seq<char>, JsonModel)>, count: nat) -> Option<ArbIssue>
    decreases count,
{
    if count == 0 {
        None
    } else if first_issue(entries, (count - 1) as nat) is Some {
        first_issue(entries, (count - 1) as nat)
    } else {
        member_issue(entries, count - 1)
    }
}

/// The first thing that is wrong with an ARB document.
pub open spec fn document_issue(entries: Seq<(Seq<char>, JsonModel)>) -> Option<ArbIssue> {
    let locale = lookup(entries, "@@locale"@);
    if locale is Some && !(locale->0 is Text) {
        Some(ArbIssue::LocaleMustBeString)
    } else {
        first_issue(entries, entries.len())
    }
}

/// What is wrong with a member stays the first thing wrong, whatever follows.
proof fn lemma_first_issue_stays(entries: Seq<(Seq<char>, JsonModel)>, fewer: nat, count: nat)
    requires
        fewer <= count,
        first_issue(entries, fewer) is Some,
    ensures
        first_issue(entries, count) == first_issue(entries, fewer),
    decreases count,
{
    if fewer < count {
        lemma_first_issue_stays(entries, fewer, (count - 1) as nat);
    }
}

/// In a document with nothing wrong, nothing is wrong with any member.
pub proof fn lemma_no_member_issue(entries: Seq<(Seq<char>, JsonModel)>, count: nat)
    requires
        first_issue(entries, count) is None,
    ensures
        forall|i: int| 0 <= i < count ==> #[trigger] member_issue(entries, i) is None,
    decreases count,
{
    if count > 0 {
        lemma_no_member_issue(entries, (count - 1) as nat);
    }
}

/// In a valid document every message is a string.
pub proof fn lemma_messages_are_texts(entries: Seq<(Seq<char>, JsonModel)>)
    requires
        document_issue(entries) is None,
    ensures
        forall|i: int|
            0 <= i < entries.len() && !is_metadata((#[trigger] entries[i]).0) ==> entries[i].1 is Text,
{
    lemma_no_member_issue(entries, entries.len());
    assert forall|i: int|
        0 <= i < entries.len() && !is_metadata((#[trigger] entries[i]).0) implies entries[i].1 is Text by {
        assert(member_issue(entries, i) is None);
    }
}

/// Checks an ARB document.
pub fn validate_document(root: &Vec<(String, Json)>) -> (outcome: Result<(), ArbError>)
    ensures
        outcome_is(outcome, document_issue(members(root@))),
{
    let ghost entries = members(root@);
    if let Some(locale) = find(root, "@@locale") {
        if locale.as_text().is_none() {
            return Err(ArbError::LocaleMustBeString);
        }
    }
    for i in 0..root.len()
        invariant
            entries == members(root@),
            first_issue(entries, i as nat) is None,
            document_issue(entries) == first_issue(entries, entries.len()),
    {
        let key: &String = &root[i].0;
        let value: &Json = &root[i].1;
        assert(entries[i as int] == (key@, value.model()));
        let checked = validate_member(root, i);
        proof {
            assert(first_issue(entries, (i + 1) as nat) == member_issue(entries, i as int));
            if first_issue(entries, (i + 1) as nat) is Some {
                lemma_first_issue_stays(entries, (i + 1) as nat, entries.len());
            }
        }
        match checked {
            Ok(_) => {},
            Err(error) => {
                return Err(error);
            },
        }
    }
    Ok(())
}

/// Checks a member of an ARB document.
fn validate_member(root: &Vec<(String, Json)>, at: usize) -> (outcome: Result<(), ArbError>)
    requires
        at < root@.len(),
    ensures
        outcome_is(outcome, member_issue(members(root@), at as int)),
{
    let key: &str = root[at].0.as_str();
    let value: &Json = &root[at].1;
    assert(members(root@)[at as int] == (key@, value.model()));
    if key_is_global(key) {
        return Ok(());
    }
    if key_is_metadata(key) {
        let chars = chars_of(key);
        let message_key = text_of(&chars, 1, chars.len());
        assert(message_key@ =~= key@.drop_first());
        if chars.len() == 1 || find(root, message_key.as_str()).is_none() {
            return Err(ArbError::InvalidMetadataKey(key.to_owned()));
        }
        return validate_metadata(key, value);
    }
    match value.as_text() {
        None => Err(ArbError::MessageMustBeString(key.to_owned())),
        Some(message) => match parse_message(key, message.as_str()) {
            Err(error) => Err(error),
            Ok(elements) => {
                if !message.as_str().is_empty() {
                    let name = metadata_key_of(key);
                    if let Some(metadata) = find(root, name.as_str()) {
                        return validate_placeholder_metadata(key, metadata, &elements);
                    }
                }
                Ok(())
            },
        },
    }
}

/// The description in the metadata of a message.
pub open spec fn description_of(entries: Seq<(Seq<char>, JsonModel)>, key: Seq<char>) -> Option<
    Seq<char>,
> {
    match member_of(lookup(entries, metadata_key(key)), "description"@) {
        Some(JsonModel::Text(text)) => Some(text),
        _ => None,
    }
}

/// The names of the placeholders in the metadata of a message.
pub open spec fn placeholders_of(entries: Seq<(Seq<char>, JsonModel)>, key: Seq<char>) -> Seq<
    Seq<char>,
> {
    match object_of(member_of(lookup(entries, metadata_key(key)), "placeholders"@)) {
        Some(placeholders) => keys(placeholders),
        None => Seq::empty(),
    }
}

/// The keys of an object in order.
fn key_list(entries: &Vec<(String, Json)>) -> (list: Vec<String>)
    ensures
        texts(list@) == keys(members(entries@)),
{
    let mut list: Vec<String> = Vec::new();
    for i in 0..entries.len()
        invariant
            list@.len() == i,
            forall|j: int| 0 <= j < i ==> (#[trigger] list@[j])@ == entries@[j].0@,
    {
        list.push(entries[i].0.clone());
    }
    assert(texts(list@) =~= keys(members(entries@)));
    list
}

/// What the metadata of a message says about it.
pub fn context(root: &Vec<(String, Json)>, key: &str) -> (result: ArbContext)
    ensures
        optional_text(result.description) == description_of(members(root@), key@),
        texts(result.placeholders@) == placeholders_of(members(root@), key@),
{
    let name = metadata_key_of(key);
    let mut description: Option<String> = None;
    let mut placeholders: Vec<String> = Vec::new();
    assert(texts(placeholders@) =~= Seq::empty());
    if let Some(metadata) = find(root, name.as_str()) {
        if let Some(entries) = metadata.as_object() {
            if let Some(value) = find(entries, "description") {
                if let Some(text) = value.as_text() {
                    description = Some(text.clone());
                }
            }
            if let Some(value) = find(entries, "placeholders") {
                if let Some(names) = value.as_object() {
                    placeholders = key_list(names);
                }
            }
        }
    }
    ArbContext { description, placeholders }
}

/// A message that reads without error and uses each variable in one way translates itself.
pub proof fn law_message_translates_itself(key: Seq<char>, message: Seq<char>)
    requires
        read_result(message) is Ok,
        variables(preorder(read_result(message)->Ok_0)) is Ok,
    ensures
        translation_issue(key, message, message) is None,
{
}

/// A translation of a translation translates the first message.
pub proof fn law_translation_transitive(
    key: Seq<char>,
    first: Seq<char>,
    second: Seq<char>,
    third: Seq<char>,
)
    requires
        translation_issue(key, first, second) is None,
        translation_issue(key, second, third) is None,
    ensures
        translation_issue(key, first, third) is None,
{
}

/// Where one message translates another, the other translates it.
pub proof fn law_translation_symmetric(key: Seq<char>, source: Seq<char>, target: Seq<char>)
    requires
        translation_issue(key, source, target) is None,
    ensures
        translation_issue(key, target, source) is None,
{
}

/// The first `count` entries of a map as they are shown.
pub open spec fn shown_entries(map: Map<Seq<char>, Seq<char>>, count: nat) -> Seq<char>
    decreases count,
{
    if count == 0 {
        Seq::empty()
    } else {
        let key = sorted_keys(map.dom())[count - 1];
        shown_entries(map, (count - 1) as nat) + (if count > 1 {
            ", "@
        } else {
            ""@
        }) + quoted_form(key) + ": "@ + quoted_form(map[key])
    }
}

/// A map as it is shown, its keys in ascending order.
pub open spec fn shown_map(map: Map<Seq<char>, Seq<char>>) -> Seq<char> {
    "{"@ + shown_entries(map, map.len()) + "}"@
}

fn show_map(map: &StringMap<String>) -> (text: String)
    ensures
        text@ == shown_map(text_map(map@)),
{
    let count: usize = map.len();
    let ghost model = text_map(map@);
    proof {
        assert(model.dom() =~= map@.dom());
        lemma_sorted_keys(map.keys());
    }
    let mut text = String::new();
    text.append("{");
    assert(text@ =~= "{"@ + shown_entries(model, 0));
    for i in 0..count
        invariant
            count == map.keys().len(),
            count == model.len(),
            map.ordered(),
            model == text_map(map@),
            sorted_keys(model.dom()) == map.keys(),
            text@ == "{"@ + shown_entries(model, i as nat),
    {
        let ghost before = text@;
        let ghost key = map.keys()[i as int];
        assert(map@.contains_key(key));
        if i > 0 {
            text.append(", ");
        } else {
            text.append("");
        }
        let name = quoted(map.key_at(i).as_str());
        let value = quoted(map.value_at(i).as_str());
        text.append(name.as_str());
        text.append(": ");
        text.append(value.as_str());
        assert(text@ =~= "{"@ + shown_entries(model, (i + 1) as nat));
    }
    text.append("}");
    text
}

/// The message about a violation.
pub open spec fn issue_text(issue: ArbIssue) -> Seq<char> {
    match issue {
        ArbIssue::LocaleMustBeString => "ARB 的 @@locale 必须是字符串"@,
        ArbIssue::MessageMustBeString(key) => "ARB 消息 "@ + key + " 必须是字符串"@,
        ArbIssue::InvalidMetadataKey(key) => "ARB 元数据键无对应消息: "@ + key,
        ArbIssue::MetadataMustBeObject(key) => "ARB 元数据 "@ + key + " 必须是对象"@,
        ArbIssue::InvalidDescription(key) => "ARB 元数据 "@ + key
            + " 的 description 必须是字符串"@,
        ArbIssue::InvalidPlaceholders(key) => "ARB 元数据 "@ + key
            + " 的 placeholders 必须是对象"@,
        ArbIssue::InvalidMessage { key, details } => "ARB 消息 "@ + key + " 的 ICU 语法无效: "@
            + details,
        ArbIssue::PlaceholderMetadataMismatch(key) => "ARB 消息 "@ + key
            + " 的 placeholders 元数据与实际变量不一致"@,
        ArbIssue::ConflictingVariableType { name, first, second } => "ICU 变量 "@ + name
            + " 同时使用了 "@ + first + " 和 "@ + second + " 类型"@,
        ArbIssue::VariableMismatch { key, source_variables, target_variables } => "ARB 翻译 "@ + key
            + " 的变量不一致: source="@ + shown_map(source_variables) + ", target="@ + shown_map(
            target_variables,
        ),
        ArbIssue::SelectMismatch(key) => "ARB 翻译 "@ + key + " 的 select 分支不一致"@,
        ArbIssue::PluralMismatch(key) => "ARB 翻译 "@ + key
            + " 的复数变量、类型、offset 或精确数字分支不一致"@,
    }
}

impl ArbError {
    /// The message about the violation.
    pub fn to_string(&self) -> (text: String)
        ensures
            text@ == issue_text(self.issue()),
    {
        match self {
            ArbError::LocaleMustBeString => "ARB 的 @@locale 必须是字符串".to_owned(),
            ArbError::MessageMustBeString(key) => join3("ARB 消息 ", key.as_str(), " 必须是字符串"),
            ArbError::InvalidMetadataKey(key) => join2("ARB 元数据键无对应消息: ", key.as_str()),
            ArbError::MetadataMustBeObject(key) => join3("ARB 元数据 ", key.as_str(), " 必须是对象"),
            ArbError::InvalidDescription(key) => join3(
                "ARB 元数据 ",
                key.as_str(),
                " 的 description 必须是字符串",
            ),
            ArbError::InvalidPlaceholders(key) => join3(
                "ARB 元数据 ",
                key.as_str(),
                " 的 placeholders 必须是对象",
            ),
            ArbError::InvalidMessage { key, details } => join4(
                "ARB 消息 ",
                key.as_str(),
                " 的 ICU 语法无效: ",
                details.as_str(),
            ),
            ArbError::PlaceholderMetadataMismatch(key) => join3(
                "ARB 消息 ",
                key.as_str(),
                " 的 placeholders 元数据与实际变量不一致",
            ),
            ArbError::ConflictingVariableType { name, first, second } => {
                let mut text = join5(
                    "ICU 变量 ",
                    name.as_str(),
                    " 同时使用了 ",
                    first.as_str(),
                    " 和 ",
                );
                text.append(second.as_str());
                text.append(" 类型");
                text
            },
            ArbError::VariableMismatch { key, source_variables, target_variables } => {
                let ours = show_map(source_variables);
                let theirs = show_map(target_variables);
                let mut text = join5(
                    "ARB 翻译 ",
                    key.as_str(),
                    " 的变量不一致: source=",
                    ours.as_str(),
                    ", target=",
                );
                text.append(theirs.as_str());
                text
            },
            ArbError::SelectMismatch(key) => join3(
                "ARB 翻译 ",
                key.as_str(),
                " 的 select 分支不一致",
            ),
            ArbError::PluralMismatch(key) => join3(
                "ARB 翻译 ",
                key.as_str(),
                " 的复数变量、类型、offset 或精确数字分支不一致",
            ),
        }
    }
}

} // verus!
