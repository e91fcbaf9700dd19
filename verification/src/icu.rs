//! ICU messages: their elements, and reading them from text.
use formatjs_icu_messageformat_parser::{MessageFormatElement, Parser, ParserOptions};
use formatjs_icu_messageformat_parser::types::PluralType;
use guard::{icu_parsable, is_icu_parsable};
use vstd::prelude::*;

pub mod guard;

verus! {

/// The element type of the message parser.
#[verifier::external_type_specification]
#[verifier::external_body]
pub struct ExMessageFormatElement(MessageFormatElement);

/// What an element of a message is.
#[derive(Debug, Clone, Copy, PartialEq, Eq, Structural)]
pub enum ElementKind {
    Literal,
    Pound,
    Argument,
    Number,
    Date,
    Time,
    Select,
    Plural,
    Ordinal,
    Tag,
}

/// An element of a message. A `select` or plural has one branch for each of its keys, a tag has
/// its content as the only branch.
#[derive(Debug)]
pub struct Element {
    pub kind: ElementKind,
    pub name: String,
    pub offset: Option<i32>,
    pub branches: Vec<Branch>,
}

/// A branch of a `select`, a plural or a tag.
#[derive(Debug)]
pub struct Branch {
    pub key: String,
    pub elements: Vec<Element>,
}

/// What an element is.
#[verifier::ext_equal]
pub struct ElementModel {
    pub kind: ElementKind,
    pub name: Seq<char>,
    pub offset: Option<i32>,
    pub branches: Seq<BranchModel>,
}

/// What a branch is.
#[verifier::ext_equal]
pub struct BranchModel {
    pub key: Seq<char>,
    pub elements: Seq<ElementModel>,
}

impl Element {
    /// What the element is.
    pub open spec fn model(self) -> ElementModel
        decreases self,
    {
        ElementModel {
            kind: self.kind,
            name: self.name@,
            offset: self.offset,
            branches: Seq::new(
                self.branches@.len(),
                |i: int|
                    if 0 <= i < self.branches@.len() {
                        self.branches@[i].model()
                    } else {
                        arbitrary()
                    },
            ),
        }
    }
}

impl Branch {
    /// What the branch is.
    pub open spec fn model(self) -> BranchModel
        decreases self,
    {
        BranchModel {
            key: self.key@,
            elements: Seq::new(
                self.elements@.len(),
                |i: int|
                    if 0 <= i < self.elements@.len() {
                        self.elements@[i].model()
                    } else {
                        arbitrary()
                    },
            ),
        }
    }
}

/// What each element of a list is.
pub open spec fn element_models(list: Seq<Element>) -> Seq<ElementModel> {
    Seq::new(list.len(), |i: int| list[i].model())
}

/// What each branch of a list is.
pub open spec fn branch_models(list: Seq<Branch>) -> Seq<BranchModel> {
    Seq::new(list.len(), |i: int| list[i].model())
}

/// The models of an element's branches, one by one.
pub proof fn lemma_element_model(element: Element)
    ensures
        element.model().branches == branch_models(element.branches@),
{
    assert(element.model().branches =~= branch_models(element.branches@));
}

/// The models of a branch's elements, one by one.
pub proof fn lemma_branch_model(branch: Branch)
    ensures
        branch.model().elements == element_models(branch.elements@),
{
    assert(branch.model().elements =~= element_models(branch.elements@));
}

/// What an element of the message parser is.
pub uninterp spec fn parsed_element(element: MessageFormatElement) -> ElementModel;

/// What the message parser makes of a text: its elements, or the text of the error. Tags are
/// plain text, and a `select` or plural without an `other` branch is an error.
pub uninterp spec fn icu_message(text: Seq<char>) -> Result<Seq<ElementModel>, Seq<char>>;

/// What each element of a parsed list is.
pub open spec fn parsed_elements(list: Seq<MessageFormatElement>) -> Seq<ElementModel> {
    Seq::new(list.len(), |i: int| parsed_element(list[i]))
}

/// What each parsed branch is.
pub open spec fn parsed_branches(list: Seq<(String, Vec<MessageFormatElement>)>) -> Seq<BranchModel> {
    Seq::new(
        list.len(),
        |i: int| BranchModel { key: list[i].0@, elements: parsed_elements(list[i].1@) },
    )
}

/// `Parser::new(..).parse()` reads a message; the outcome is a function of the text, and an
/// error is given by its `Display` text. The parser runs with `ignore_tag` and
/// `requires_other_clause` set.
#[verifier::external_body]
fn parse_elements(text: &str) -> (outcome: Result<Vec<MessageFormatElement>, String>)
    requires
        icu_parsable(text@),
    ensures
        outcome is Ok <==> icu_message(text@) is Ok,
        outcome is Ok ==> icu_message(text@) == Ok::<Seq<ElementModel>, Seq<char>>(
            parsed_elements(outcome->Ok_0@),
        ),
        outcome is Err ==> icu_message(text@) == Err::<Seq<ElementModel>, Seq<char>>(
            outcome->Err_0@,
        ),
{
    let options = ParserOptions {
        ignore_tag: true,
        requires_other_clause: true,
        ..ParserOptions::default()
    };
    Parser::new(text, options).parse().map_err(|error| error.to_string())
}

/// The kind of a `MessageFormatElement`: one arm for each of its variants, and two for the types
/// of a plural.
#[verifier::external_body]
fn element_kind(element: &MessageFormatElement) -> (kind: ElementKind)
    ensures
        kind == parsed_element(*element).kind,
{
    match element {
        MessageFormatElement::Literal(_) => ElementKind::Literal,
        MessageFormatElement::Pound(_) => ElementKind::Pound,
        MessageFormatElement::Argument(_) => ElementKind::Argument,
        MessageFormatElement::Number(_) => ElementKind::Number,
        MessageFormatElement::Date(_) => ElementKind::Date,
        MessageFormatElement::Time(_) => ElementKind::Time,
        MessageFormatElement::Select(_) => ElementKind::Select,
        MessageFormatElement::Plural(v) => match v.plural_type {
            PluralType::Cardinal => ElementKind::Plural,
            PluralType::Ordinal => ElementKind::Ordinal,
        },
        MessageFormatElement::Tag(_) => ElementKind::Tag,
    }
}

/// The name of the variable or tag of a `MessageFormatElement`; a literal and a pound sign have
/// none.
#[verifier::external_body]
fn element_name(element: &MessageFormatElement) -> (name: String)
    ensures
        name@ == parsed_element(*element).name,
{
    match element {
        MessageFormatElement::Argument(v) => v.value.clone(),
        MessageFormatElement::Number(v) => v.value.clone(),
        MessageFormatElement::Date(v) => v.value.clone(),
        MessageFormatElement::Time(v) => v.value.clone(),
        MessageFormatElement::Select(v) => v.value.clone(),
        MessageFormatElement::Plural(v) => v.value.clone(),
        MessageFormatElement::Tag(v) => v.value.clone(),
        _ => String::new(),
    }
}

/// The offset of a plural `MessageFormatElement`.
#[verifier::external_body]
fn element_offset(element: &MessageFormatElement) -> (offset: Option<i32>)
    ensures
        offset == parsed_element(*element).offset,
{
    match element {
        MessageFormatElement::Plural(v) => Some(v.offset),
        _ => None,
    }
}

/// The branches of a `MessageFormatElement` in the order in which they were written: those of a
/// `select` and of a plural with their keys, the content of a tag with an empty key.
#[verifier::external_body]
fn element_branches(element: MessageFormatElement) -> (branches: Vec<
    (String, Vec<MessageFormatElement>),
>)
    ensures
        parsed_branches(branches@) == parsed_element(element).branches,
{
    match element {
        MessageFormatElement::Select(v) => v.options.into_iter().map(|(k, o)| (k, o.value)).collect(),
        MessageFormatElement::Plural(v) => {
            v.options.into_iter().map(|(k, o)| (k.as_str().to_owned(), o.value)).collect()
        },
        MessageFormatElement::Tag(v) => vec![(String::new(), v.children)],
        _ => Vec::new(),
    }
}

fn read_element(element: MessageFormatElement) -> (result: Element)
    ensures
        result.model() == parsed_element(element),
    decreases parsed_element(element),
{
    let kind = element_kind(&element);
    let name = element_name(&element);
    let offset = element_offset(&element);
    let parts = element_branches(element);
    let ghost model = parsed_element(element);
    let mut branches: Vec<Branch> = Vec::new();
    for part in iter: parts
        invariant
            iter.seq() == parts@,
            model == parsed_element(element),
            model.branches == parsed_branches(parts@),
            branches@.len() == iter.index(),
            forall|i: int|
                0 <= i < branches@.len() ==> (#[trigger] branches@[i]).model() == model.branches[i],
    {
        let ghost at = iter.index();
        assert(model.branches[at].elements == parsed_elements(part.1@));
        assert(decreases_to!(model => model.branches[at].elements));
        let elements = read_elements(part.1);
        let branch = Branch { key: part.0, elements };
        proof {
            lemma_branch_model(branch);
            assert(branch.model() =~= model.branches[at]);
        }
        branches.push(branch);
    }
    let result = Element { kind, name, offset, branches };
    proof {
        lemma_element_model(result);
        assert(result.model().branches =~= model.branches);
    }
    result
}

fn read_elements(list: Vec<MessageFormatElement>) -> (result: Vec<Element>)
    ensures
        element_models(result@) == parsed_elements(list@),
    decreases parsed_elements(list@),
{
    let ghost models = parsed_elements(list@);
    let mut result: Vec<Element> = Vec::new();
    for element in iter: list
        invariant
            iter.seq() == list@,
            models == parsed_elements(list@),
            result@.len() == iter.index(),
            forall|i: int| 0 <= i < result@.len() ==> (#[trigger] result@[i]).model() == models[i],
    {
        assert(models[iter.index()] == parsed_element(element));
        assert(decreases_to!(models => models[iter.index()]));
        result.push(read_element(element));
    }
    assert(element_models(result@) =~= models);
    result
}

/// What reading a message gives; a text that the parser cannot take is an error.
pub open spec fn read_result(text: Seq<char>) -> Result<Seq<ElementModel>, Seq<char>> {
    if icu_parsable(text) {
        icu_message(text)
    } else {
        Err("UNSUPPORTED_MESSAGE"@)
    }
}

/// Reads a message.
pub fn read_message(text: &str) -> (outcome: Result<Vec<Element>, String>)
    ensures
        outcome is Ok <==> read_result(text@) is Ok,
        outcome is Ok ==> read_result(text@) == Ok::<Seq<ElementModel>, Seq<char>>(
            element_models(outcome->Ok_0@),
        ),
        outcome is Err ==> read_result(text@) == Err::<Seq<ElementModel>, Seq<char>>(
            outcome->Err_0@,
        ),
{
    if !is_icu_parsable(text) {
        return Err("UNSUPPORTED_MESSAGE".to_owned());
    }
    match parse_elements(text) {
        Ok(list) => Ok(read_elements(list)),
        Err(error) => Err(error),
    }
}

/// The elements of a message in the order in which they were written: each element comes before
/// the elements of its branches.
pub open spec fn preorder(list: Seq<ElementModel>) -> Seq<ElementModel>
    decreases list,
{
    if list.len() == 0 {
        Seq::empty()
    } else {
        preorder(list.drop_last()) + seq![list.last()] + branch_preorder(list.last().branches)
    }
}

/// The elements of a list of branches.
pub open spec fn branch_preorder(list: Seq<BranchModel>) -> Seq<ElementModel>
    decreases list,
{
    if list.len() == 0 {
        Seq::empty()
    } else {
        branch_preorder(list.drop_last()) + preorder(list.last().elements)
    }
}

/// What each element of a list of references is.
pub open spec fn reference_models(list: Seq<&Element>) -> Seq<ElementModel> {
    Seq::new(list.len(), |i: int| list[i].model())
}

/// Appends the elements of a message in the order in which they were written.
pub fn flatten<'a>(list: &'a Vec<Element>, output: &mut Vec<&'a Element>)
    ensures
        reference_models(final(output)@) == reference_models(old(output)@) + preorder(
            element_models(list@),
        ),
    decreases list,
{
    let ghost before = reference_models(output@);
    let ghost models = element_models(list@);
    assert(models.take(0) =~= Seq::empty());
    assert(reference_models(output@) =~= before + preorder(models.take(0)));
    for i in 0..list.len()
        invariant
            models == element_models(list@),
            reference_models(output@) == before + preorder(models.take(i as int)),
    {
        let ghost done = reference_models(output@);
        let element = &list[i];
        proof {
            lemma_element_model(*element);
            assert(models.take(i + 1).drop_last() =~= models.take(i as int));
        }
        output.push(element);
        let ghost inner = branch_models(element.branches@);
        assert(inner.take(0) =~= Seq::empty());
        assert(reference_models(output@) =~= done + seq![element.model()] + branch_preorder(
            inner.take(0),
        ));
        assert(decreases_to!(*list => list@[i as int]));
        for j in 0..element.branches.len()
            invariant
                i < list@.len(),
                *element == list@[i as int],
                decreases_to!(*list => *element),
                inner == branch_models(element.branches@),
                reference_models(output@) == done + seq![element.model()] + branch_preorder(
                    inner.take(j as int),
                ),
        {
            let branch = &element.branches[j];
            proof {
                lemma_branch_model(*branch);
                assert(inner.take(j + 1).drop_last() =~= inner.take(j as int));
                assert(inner.take(j + 1).last() == branch.model());
                assert(decreases_to!(element.branches => element.branches@[j as int]));
            }
            flatten(&branch.elements, output);
            assert(reference_models(output@) =~= done + seq![element.model()] + branch_preorder(
                inner.take(j + 1),
            ));
        }
        assert(inner.take(inner.len() as int) =~= inner);
        assert(reference_models(output@) =~= before + preorder(models.take(i + 1)));
    }
    assert(models.take(models.len() as int) =~= models);
}

} // verus!
