//! Translating the strings of a catalog in batches, with retries.
use crate::catalog::{
    translation_outcome_is, without_slashes, Catalog, CatalogError, TranslationUnit, UnitModel,
};
use crate::catalog::arb::translation_issue;
use crate::config::TargetConfig;
use crate::map::{text_map, StringMap};
use crate::text::{decimal, join2, join4, push_decimal, to_decimal};
use run::{planned, RunModel, TranslationRun};
use vstd::prelude::*;
use vstd::utf8::encode_utf8;

pub mod openai;
pub mod progress;
pub mod request_meaning;
pub mod run;
pub mod run_meaning;

verus! {

/// The largest source text that is translated, in bytes.
pub const MAX_UNIT_BYTES: usize = 262144;

/// The largest total of source texts in a batch, in bytes.
pub const MAX_BATCH_BYTES: usize = 524288;

/// A request to translate a batch.
pub struct ModelRequest<'a> {
    pub source_locale: &'a str,
    pub target: &'a TargetConfig,
    pub units: &'a [TranslationUnit],
    pub correction: Option<&'a str>,
}

/// A failed request.
#[derive(Debug)]
pub struct ModelClientError {
    pub message: String,
    pub retryable: bool,
}

impl ModelClientError {
    /// A failure that may not occur again.
    pub fn retryable(message: &str) -> (error: Self)
        ensures
            error.message@ == message@,
            error.retryable,
    {
        ModelClientError { message: message.to_owned(), retryable: true }
    }

    /// A failure that will occur again.
    pub fn permanent(message: &str) -> (error: Self)
        ensures
            error.message@ == message@,
            !error.retryable,
    {
        ModelClientError { message: message.to_owned(), retryable: false }
    }
}

/// What is wrong with the reply to a batch as a whole.
#[derive(Debug)]
pub enum BatchProblem {
    Count { returned: usize, expected: usize },
    Missing(String),
}

/// A failure to translate.
#[derive(Debug)]
pub enum AgentError {
    UnitTooLarge(String),
    Client(String),
    InvalidBatch(BatchProblem),
    Catalog(CatalogError),
    RetriesExhausted(String),
}

impl BatchProblem {
    /// The message about the problem.
    pub open spec fn message(self) -> Seq<char> {
        match self {
            BatchProblem::Count { returned, expected } => "模型返回 "@ + decimal(returned as nat)
                + " 个结果，预期 "@ + decimal(expected as nat) + " 个"@,
            BatchProblem::Missing(id) => "模型缺少结果 "@ + id@,
        }
    }

    /// The message about the problem.
    pub fn to_string(&self) -> (text: String)
        ensures
            text@ == self.message(),
    {
        match self {
            BatchProblem::Count { returned, expected } => {
                let first = to_decimal(*returned as u64);
                let second = to_decimal(*expected as u64);
                let mut text = join4("模型返回 ", first.as_str(), " 个结果，预期 ", second.as_str());
                text.append(" 个");
                text
            },
            BatchProblem::Missing(id) => join2("模型缺少结果 ", id.as_str()),
        }
    }
}

impl AgentError {
    /// The message about the failure.
    pub open spec fn message(self) -> Seq<char> {
        match self {
            AgentError::UnitTooLarge(path) => "翻译单元超过大小限制: "@ + path@,
            AgentError::Client(details) => "模型请求失败: "@ + details@,
            AgentError::InvalidBatch(problem) => "模型批次无效: "@ + problem.message(),
            AgentError::Catalog(error) => error.message(),
            AgentError::RetriesExhausted(details) => "模型重试次数耗尽: "@ + details@,
        }
    }

    /// The message about the failure.
    pub fn to_string(&self) -> (text: String)
        ensures
            text@ == self.message(),
    {
        match self {
            AgentError::UnitTooLarge(path) => join2("翻译单元超过大小限制: ", path.as_str()),
            AgentError::Client(details) => join2("模型请求失败: ", details.as_str()),
            AgentError::InvalidBatch(problem) => {
                let details = problem.to_string();
                join2("模型批次无效: ", details.as_str())
            },
            AgentError::Catalog(error) => error.to_string(),
            AgentError::RetriesExhausted(details) => join2("模型重试次数耗尽: ", details.as_str()),
        }
    }
}

/// The size of a source text in bytes.
pub open spec fn unit_bytes(unit: TranslationUnit) -> nat {
    encode_utf8(unit.source@).len()
}

/// The total size of the source texts of the units `from..to`, in bytes.
pub open spec fn total_bytes(units: Seq<TranslationUnit>, from: int, to: int) -> nat
    decreases to - from,
{
    if to <= from {
        0
    } else {
        total_bytes(units, from, to - 1) + unit_bytes(units[to - 1])
    }
}

/// The position before which a batch that begins at `start` ends at the latest.
pub open spec fn batch_limit(count: int, start: int, batch_size: int) -> int {
    if start + batch_size < count {
        start + batch_size
    } else {
        count
    }
}

/// Whether a batch that begins at `start` ends before `end`: it has as many units as the batch
/// size and the total size in bytes allow, and at least one.
pub open spec fn is_batch_end(
    units: Seq<TranslationUnit>,
    start: int,
    batch_size: int,
    end: int,
) -> bool {
    let limit = batch_limit(units.len() as int, start, batch_size);
    if limit <= start {
        end == start + 1
    } else {
        &&& start < end <= limit
        &&& end == start + 1 || total_bytes(units, start, end) <= MAX_BATCH_BYTES
        &&& end == limit || total_bytes(units, start, end + 1) > MAX_BATCH_BYTES
    }
}

/// Where the batch that begins at `start` ends.
pub fn batch_end(units: &[TranslationUnit], start: usize, batch_size: usize) -> (end: usize)
    requires
        start < usize::MAX,
    ensures
        is_batch_end(units@, start as int, batch_size as int, end as int),
{
    let count: usize = units.len();
    let limit: usize = if start < count && batch_size < count - start {
        start + batch_size
    } else {
        count
    };
    if limit <= start {
        return start + 1;
    }
    let mut size: usize = 0;
    let mut end: usize = start;
    while end < limit
        invariant
            limit <= units@.len(),
            start < limit,
            limit == batch_limit(units@.len() as int, start as int, batch_size as int),
            start <= end <= limit,
            size == total_bytes(units@, start as int, end as int),
            end > start + 1 ==> size <= MAX_BATCH_BYTES,
        decreases limit - end,
    {
        let next: usize = units[end].source.as_str().as_bytes().len();
        assert(total_bytes(units@, start as int, end + 1) == size + next);
        if end > start && (size > MAX_BATCH_BYTES || next > MAX_BATCH_BYTES - size) {
            return end;
        }
        size = size + next;
        end = end + 1;
    }
    end
}

/// The first unit whose source text is too large.
pub fn find_oversized(units: &[TranslationUnit]) -> (found: Option<usize>)
    ensures
        match found {
            Some(at) => at < units@.len() && unit_bytes(units@[at as int]) > MAX_UNIT_BYTES && forall|
                j: int,
            | 0 <= j < at ==> unit_bytes(#[trigger] units@[j]) <= MAX_UNIT_BYTES,
            None => forall|j: int|
                0 <= j < units@.len() ==> unit_bytes(#[trigger] units@[j]) <= MAX_UNIT_BYTES,
        },
{
    for i in 0..units.len()
        invariant
            forall|j: int| 0 <= j < i ==> unit_bytes(#[trigger] units@[j]) <= MAX_UNIT_BYTES,
    {
        if units[i].source.as_str().as_bytes().len() > MAX_UNIT_BYTES {
            return Some(i);
        }
    }
    None
}

/// The identifier of a unit in a batch.
pub open spec fn unit_id(index: int) -> Seq<char> {
    seq!['t'] + decimal(index as nat)
}

/// The identifier of a unit in a batch.
pub fn id_of(index: usize) -> (id: String)
    ensures
        id@ == unit_id(index as int),
{
    let mut id = String::new();
    id.push('t');
    push_decimal(&mut id, index);
    assert(id@ =~= unit_id(index as int));
    id
}

/// Distinct units of a batch have distinct identifiers.
pub proof fn law_unit_ids_distinct(a: nat, b: nat)
    requires
        unit_id(a as int) == unit_id(b as int),
    ensures
        a == b,
{
    assert(decimal(a) =~= unit_id(a as int).skip(1));
    assert(decimal(b) =~= unit_id(b as int).skip(1));
    crate::text::law_decimal_reads_back(a);
    crate::text::law_decimal_reads_back(b);
}

/// Whether a text is accepted as the translation of a unit.
pub open spec fn accepted(unit: UnitModel, translation: Seq<char>) -> bool {
    &&& translation.len() > 0
    &&& unit.kind is Arb ==> translation_issue(
        without_slashes(unit.path),
        unit.source,
        translation,
    ) is None
}

/// Whether a reply has an accepted translation for the unit at a position.
pub open spec fn answered(
    units: Seq<TranslationUnit>,
    response: Map<Seq<char>, Seq<char>>,
    at: int,
) -> bool {
    response.contains_key(unit_id(at)) && accepted(units[at].model(), response[unit_id(at)])
}

/// The translations of the first `count` units of a batch, by their paths.
pub open spec fn batch_translations(
    units: Seq<TranslationUnit>,
    response: Map<Seq<char>, Seq<char>>,
    count: nat,
) -> Map<Seq<char>, Seq<char>>
    decreases count,
{
    if count == 0 {
        Map::empty()
    } else {
        batch_translations(units, response, (count - 1) as nat).insert(
            units[count - 1].path@,
            response[unit_id(count - 1)],
        )
    }
}

/// Whether an outcome of checking a reply is the one that the reply calls for: as many results
/// as units, and for each unit, in order, an accepted translation under its identifier.
pub open spec fn batch_outcome_is(
    outcome: Result<StringMap<String>, AgentError>,
    units: Seq<TranslationUnit>,
    response: Map<Seq<char>, Seq<char>>,
) -> bool {
    if response.len() != units.len() {
        outcome is Err && outcome->Err_0 is InvalidBatch && (match outcome->Err_0->InvalidBatch_0 {
            BatchProblem::Count { returned, expected } => returned == response.len() && expected
                == units.len(),
            _ => false,
        })
    } else if forall|i: int| 0 <= i < units.len() ==> #[trigger] answered(units, response, i) {
        outcome is Ok && text_map(outcome->Ok_0@) == batch_translations(
            units,
            response,
            units.len(),
        )
    } else {
        outcome is Err && exists|at: int|
            #![trigger answered(units, response, at)]
            {
                &&& 0 <= at < units.len()
                &&& !answered(units, response, at)
                &&& forall|i: int| 0 <= i < at ==> #[trigger] answered(units, response, i)
                &&& if response.contains_key(unit_id(at)) {
                    outcome->Err_0 is Catalog && translation_outcome_is(
                        Err(outcome->Err_0->Catalog_0),
                        units[at].model(),
                        response[unit_id(at)],
                    )
                } else {
                    outcome->Err_0 is InvalidBatch && (match outcome->Err_0->InvalidBatch_0 {
                        BatchProblem::Missing(id) => id@ == unit_id(at),
                        _ => false,
                    })
                }
            }
    }
}

/// Checks the reply to a batch.
pub fn validate_batch(
    catalog: &Catalog,
    units: &[TranslationUnit],
    response: &StringMap<String>,
) -> (outcome: Result<StringMap<String>, AgentError>)
    ensures
        batch_outcome_is(outcome, units@, text_map(response@)),
{
    let ghost given = text_map(response@);
    let returned: usize = response.len();
    assert(given.dom() =~= response@.dom());
    if returned != units.len() {
        return Err(
            AgentError::InvalidBatch(BatchProblem::Count { returned, expected: units.len() }),
        );
    }
    let mut translations: StringMap<String> = StringMap::new();
    assert(text_map(translations@) =~= batch_translations(units@, given, 0));
    for i in 0..units.len()
        invariant
            given == text_map(response@),
            given.len() == units@.len(),
            text_map(translations@) == batch_translations(units@, given, i as nat),
            forall|j: int| 0 <= j < i ==> #[trigger] answered(units@, given, j),
    {
        let id = id_of(i);
        let unit = &units[i];
        match response.get(id.as_str()) {
            None => {
                assert(!answered(units@, given, i as int));
                return Err(AgentError::InvalidBatch(BatchProblem::Missing(id)));
            },
            Some(translation) => {
                assert(given[id@] == translation@);
                match catalog.validate_translation(unit, translation.as_str()) {
                    Err(error) => {
                        assert(!answered(units@, given, i as int));
                        return Err(AgentError::Catalog(error));
                    },
                    Ok(_) => {
                        assert(answered(units@, given, i as int));
                        let ghost before = translations@;
                        translations.insert(unit.path.clone(), translation.clone());
                        assert(text_map(translations@) =~= text_map(before).insert(
                            unit.path@,
                            translation@,
                        ));
                    },
                }
            },
        }
    }
    Ok(translations)
}

/// Translates through a client, in batches and with retries.
pub struct TranslationAgent<C> {
    client: C,
    batch_size: usize,
    max_retries: usize,
}

impl<C> TranslationAgent<C> {
    /// The client.
    pub closed spec fn service(self) -> C {
        self.client
    }

    /// The number of units in a batch, at most.
    pub closed spec fn size(self) -> usize {
        self.batch_size
    }

    /// The number of attempts after the first one.
    pub closed spec fn retries(self) -> usize {
        self.max_retries
    }

    /// An agent that translates through a client.
    pub fn new(client: C, batch_size: usize, max_retries: usize) -> (agent: Self)
        ensures
            agent.service() == client,
            agent.size() == batch_size,
            agent.retries() == max_retries,
    {
        TranslationAgent { client, batch_size, max_retries }
    }

    /// The client.
    pub fn client(&self) -> (client: &C)
        ensures
            *client == self.service(),
    {
        &self.client
    }

    /// Begins the translation of units, unless one of them is too large.
    pub fn start(&self, units: &[TranslationUnit]) -> (outcome: Result<TranslationRun, AgentError>)
        ensures
            outcome is Ok <==> forall|i: int|
                0 <= i < units@.len() ==> unit_bytes(#[trigger] units@[i]) <= MAX_UNIT_BYTES,
            outcome is Ok ==> ({
                let run = outcome->Ok_0.model();
                &&& planned(units@, self.size() as int, run.ends)
                &&& run == (RunModel {
                    ends: run.ends,
                    index: 0,
                    attempt: 0,
                    max_retries: self.retries() as int,
                    correction: None,
                    translations: Map::empty(),
                })
                &&& run.follows(units@)
            }),
            outcome is Err ==> outcome->Err_0 is UnitTooLarge && exists|at: int|
                0 <= at < units@.len() && unit_bytes(#[trigger] units@[at]) > MAX_UNIT_BYTES
                    && outcome->Err_0->UnitTooLarge_0@ == units@[at].path@ && forall|j: int|
                    0 <= j < at ==> unit_bytes(#[trigger] units@[j]) <= MAX_UNIT_BYTES,
    {
        TranslationRun::start(units, self.batch_size, self.max_retries)
    }
}

} // verus!
