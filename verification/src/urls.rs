//! The URLs of model services.
use crate::paths::separated;
use crate::text::{decimal, lowered, optional_text, same_text, texts, to_lower};
use url::{Host, ParseError, Url};
use vstd::prelude::*;

verus! {

/// The URL type of the `url` crate.
#[verifier::external_type_specification]
#[verifier::external_body]
pub struct ExUrl(Url);

/// The error type of the `url` crate.
#[verifier::external_type_specification]
#[verifier::external_body]
pub struct ExParseError(ParseError);

/// The host of a URL: a name, the octets of an IPv4 address, or the bits of an IPv6 address.
#[derive(Debug)]
pub enum UrlHost {
    Domain(String),
    Ipv4(u8, u8, u8, u8),
    Ipv6(u128),
}

/// What the host of a URL is.
pub enum HostModel {
    Domain(Seq<char>),
    Ipv4(u8, u8, u8, u8),
    Ipv6(u128),
}

/// The parts of a URL. The port is the known one of the scheme where the URL gives none; the given
/// port is there only where the URL gives one.
#[derive(Debug)]
pub struct UrlParts {
    pub text: String,
    pub scheme: String,
    pub username: String,
    pub password: Option<String>,
    pub host: Option<UrlHost>,
    pub host_text: Option<String>,
    pub port: Option<u16>,
    pub given_port: Option<u16>,
    pub segments: Option<Vec<String>>,
    pub query: Option<String>,
    pub fragment: Option<String>,
}

/// What a URL is.
pub struct UrlModel {
    pub text: Seq<char>,
    pub scheme: Seq<char>,
    pub username: Seq<char>,
    pub password: Option<Seq<char>>,
    pub host: Option<HostModel>,
    pub host_text: Option<Seq<char>>,
    pub port: Option<u16>,
    pub given_port: Option<u16>,
    pub segments: Option<Seq<Seq<char>>>,
    pub query: Option<Seq<char>>,
    pub fragment: Option<Seq<char>>,
}

/// What an optional host is.
pub open spec fn host_model(host: Option<UrlHost>) -> Option<HostModel> {
    match host {
        None => None,
        Some(UrlHost::Domain(name)) => Some(HostModel::Domain(name@)),
        Some(UrlHost::Ipv4(a, b, c, d)) => Some(HostModel::Ipv4(a, b, c, d)),
        Some(UrlHost::Ipv6(bits)) => Some(HostModel::Ipv6(bits)),
    }
}

impl UrlParts {
    /// What the URL is.
    pub open spec fn model(self) -> UrlModel {
        UrlModel {
            text: self.text@,
            scheme: self.scheme@,
            username: self.username@,
            password: optional_text(self.password),
            host: host_model(self.host),
            host_text: optional_text(self.host_text),
            port: self.port,
            given_port: self.given_port,
            segments: match self.segments {
                Some(list) => Some(texts(list@)),
                None => None,
            },
            query: optional_text(self.query),
            fragment: optional_text(self.fragment),
        }
    }
}

/// The content of a URL of the `url` crate.
pub uninterp spec fn url_model(url: Url) -> UrlModel;

/// The URL that the `url` crate reads from a text, where the text is one.
pub uninterp spec fn parsed_url(text: Seq<char>) -> Option<UrlModel>;

/// The text that the `url` crate shows for an error.
pub uninterp spec fn url_error_text(error: ParseError) -> Seq<char>;

/// A text with a mark before it, where there is a text.
pub open spec fn marked(mark: Seq<char>, text: Option<Seq<char>>) -> Seq<char> {
    match text {
        Some(found) => mark + found,
        None => Seq::empty(),
    }
}

/// The user name and the password of a URL as it is written.
pub open spec fn credentials_text(url: UrlModel) -> Seq<char> {
    if url.username.len() == 0 && url.password is None {
        Seq::empty()
    } else {
        url.username + marked(seq![':'], url.password) + seq!['@']
    }
}

/// The port of a URL as it is written: none where it is not given.
pub open spec fn port_text(port: Option<u16>) -> Seq<char> {
    match port {
        Some(number) => seq![':'] + decimal(number as nat),
        None => Seq::empty(),
    }
}

/// A URL with a host and path segments as it is written.
pub open spec fn url_text(url: UrlModel) -> Seq<char> {
    url.scheme + "://"@ + credentials_text(url) + url.host_text->0 + port_text(url.given_port)
        + seq!['/'] + separated(url.segments->0, '/') + marked(seq!['?'], url.query) + marked(
        seq!['#'],
        url.fragment,
    )
}

/// Whether the text of a URL with a host and path segments is made up of its other parts.
pub open spec fn written(url: UrlModel) -> bool {
    url.host_text is Some && url.segments is Some ==> url.text == url_text(url)
}

/// Whether two URLs agree in all but their text, path and query.
pub open spec fn same_place(a: UrlModel, b: UrlModel) -> bool {
    &&& a.scheme == b.scheme
    &&& a.username == b.username
    &&& a.password == b.password
    &&& a.host == b.host
    &&& a.host_text == b.host_text
    &&& a.port == b.port
    &&& a.given_port == b.given_port
    &&& a.fragment == b.fragment
}

/// `Url::parse` reads a URL; the outcome is a function of the text and is referred to by name.
#[verifier::external_body]
pub(crate) fn read_url(text: &str) -> (outcome: Result<Url, ParseError>)
    ensures
        outcome is Ok <==> parsed_url(text@) is Some,
        outcome is Ok ==> parsed_url(text@) == Some(url_model(outcome->Ok_0)),
{
    Url::parse(text)
}

/// `url::ParseError` implements `Display`; the text is a function of the error and is referred to
/// by name.
#[verifier::external_body]
pub(crate) fn show_url_error(error: &ParseError) -> (text: String)
    ensures
        text@ == url_error_text(*error),
{
    error.to_string()
}

/// `Url::host` gives the host of a URL: one arm for each of its variants.
#[verifier::external_body]
fn url_host(url: &Url) -> (host: Option<UrlHost>)
    ensures
        host_model(host) == url_model(*url).host,
{
    match url.host() {
        None => None,
        Some(Host::Domain(name)) => Some(UrlHost::Domain(name.to_owned())),
        Some(Host::Ipv4(address)) => {
            let [a, b, c, d] = address.octets();
            Some(UrlHost::Ipv4(a, b, c, d))
        },
        Some(Host::Ipv6(address)) => Some(UrlHost::Ipv6(u128::from(address))),
    }
}

/// The parts of a `Url`, each from the method of its name; `Url::port_or_known_default` gives
/// the port and `Url::port` the given one. The text of a URL with a host is its parts one after
/// the other.
#[verifier::external_body]
fn parts_with(url: &Url, host: Option<UrlHost>) -> (parts: UrlParts)
    requires
        host_model(host) == url_model(*url).host,
    ensures
        parts.model() == url_model(*url),
        written(parts.model()),
{
    UrlParts {
        text: url.as_str().to_owned(),
        scheme: url.scheme().to_owned(),
        username: url.username().to_owned(),
        password: url.password().map(str::to_owned),
        host,
        host_text: url.host_str().map(str::to_owned),
        port: url.port_or_known_default(),
        given_port: url.port(),
        segments: url.path_segments().map(|list| list.map(str::to_owned).collect()),
        query: url.query().map(str::to_owned),
        fragment: url.fragment().map(str::to_owned),
    }
}

/// `Url::set_query` with `None` drops the query of a URL; the rest stays as it is.
#[verifier::external_body]
fn without_query(url: &Url) -> (result: Url)
    ensures
        same_place(url_model(result), url_model(*url)),
        url_model(result).query is None,
        url_model(result).segments == url_model(*url).segments,
{
    let mut result = url.clone();
    result.set_query(None);
    result
}

/// `PathSegmentsMut::pop_if_empty` takes the last segment off the path of a URL where it is empty
/// and not the only one; the rest stays as it is.
#[verifier::external_body]
fn without_empty_segment(url: &Url) -> (result: Url)
    requires
        url_model(*url).segments is Some,
    ensures
        same_place(url_model(result), url_model(*url)),
        url_model(result).query == url_model(*url).query,
        url_model(result).segments == Some(
            if url_model(*url).segments->0.len() > 1 {
                without_empty_end(url_model(*url).segments->0)
            } else {
                url_model(*url).segments->0
            },
        ),
{
    let mut result = url.clone();
    if let Ok(mut path) = result.path_segments_mut() {
        path.pop_if_empty();
    }
    result
}

/// `PathSegmentsMut::pop` takes the last segment off the path of a URL; a path with one segment
/// becomes the one with an empty segment. The rest stays as it is.
#[verifier::external_body]
fn without_last_segment(url: &Url) -> (result: Url)
    requires
        url_model(*url).segments is Some,
    ensures
        same_place(url_model(result), url_model(*url)),
        url_model(result).query == url_model(*url).query,
        url_model(result).segments == Some(
            if url_model(*url).segments->0.len() <= 1 {
                seq![Seq::<char>::empty()]
            } else {
                url_model(*url).segments->0.drop_last()
            },
        ),
{
    let mut result = url.clone();
    if let Ok(mut path) = result.path_segments_mut() {
        path.pop();
    }
    result
}

/// Whether a text is one or more lower-case letters.
pub open spec fn letters(text: Seq<char>) -> bool {
    text.len() > 0 && forall|i: int| 0 <= i < text.len() ==> 'a' <= #[trigger] text[i] && text[i] <= 'z'
}

/// `PathSegmentsMut::push` puts a segment at the end of the path of a URL; a path with nothing but
/// an empty segment becomes the one with the new segment. The rest stays as it is. Letters are
/// not escaped.
#[verifier::external_body]
fn with_segment(url: &Url, segment: &str) -> (result: Url)
    requires
        url_model(*url).segments is Some,
        letters(segment@),
    ensures
        same_place(url_model(result), url_model(*url)),
        url_model(result).query == url_model(*url).query,
        url_model(result).segments == Some(
            if url_model(*url).segments->0 == seq![Seq::<char>::empty()] {
                seq![segment@]
            } else {
                url_model(*url).segments->0.push(segment@)
            },
        ),
        written(url_model(result)),
{
    let mut result = url.clone();
    if let Ok(mut path) = result.path_segments_mut() {
        path.push(segment);
    }
    result
}

/// The parts of a URL.
pub fn url_parts(url: &Url) -> (parts: UrlParts)
    ensures
        parts.model() == url_model(*url),
        written(url_model(*url)),
{
    parts_with(url, url_host(url))
}

/// Whether a host is this machine: `localhost`, an IPv4 address that starts with 127, or the
/// IPv6 address `::1`.
pub open spec fn loopback(host: Option<HostModel>) -> bool {
    match host {
        Some(HostModel::Domain(name)) => lowered(name) == "localhost"@,
        Some(HostModel::Ipv4(first, _, _, _)) => first == 127,
        Some(HostModel::Ipv6(bits)) => bits == 1,
        None => false,
    }
}

/// Whether a host is this machine.
pub fn is_loopback(host: &Option<UrlHost>) -> (result: bool)
    ensures
        result == loopback(host_model(*host)),
{
    match host {
        Some(UrlHost::Domain(name)) => {
            let lower = to_lower(name.as_str());
            same_text(lower.as_str(), "localhost")
        },
        Some(UrlHost::Ipv4(first, _, _, _)) => *first == 127,
        Some(UrlHost::Ipv6(bits)) => *bits == 1,
        None => false,
    }
}

/// Why a URL is not used.
#[derive(Debug, Clone, Copy, PartialEq, Eq, Structural)]
pub enum UrlProblem {
    Credentials,
    Fragment,
    PlainHttp,
    Scheme,
}

/// Why a URL is not used: it names a user, has a fragment, or is not encrypted on the way to
/// another machine.
pub open spec fn url_problem(url: UrlModel) -> Option<UrlProblem> {
    if url.username.len() > 0 || url.password is Some {
        Some(UrlProblem::Credentials)
    } else if url.fragment is Some {
        Some(UrlProblem::Fragment)
    } else if url.scheme == "https"@ {
        None
    } else if url.scheme == "http"@ {
        if loopback(url.host) {
            None
        } else {
            Some(UrlProblem::PlainHttp)
        }
    } else {
        Some(UrlProblem::Scheme)
    }
}

/// Why a URL is not used.
pub fn check_url(url: &UrlParts) -> (problem: Option<UrlProblem>)
    ensures
        problem == url_problem(url.model()),
{
    if !url.username.as_str().is_empty() || url.password.is_some() {
        Some(UrlProblem::Credentials)
    } else if url.fragment.is_some() {
        Some(UrlProblem::Fragment)
    } else if same_text(url.scheme.as_str(), "https") {
        None
    } else if same_text(url.scheme.as_str(), "http") {
        if is_loopback(&url.host) {
            None
        } else {
            Some(UrlProblem::PlainHttp)
        }
    } else {
        Some(UrlProblem::Scheme)
    }
}

/// Whether two URLs have the same scheme, host and port; both must have a host.
pub open spec fn same_origin_as(a: UrlModel, b: UrlModel) -> bool {
    &&& a.scheme == b.scheme
    &&& a.host_text is Some && b.host_text is Some
    &&& lowered(a.host_text->0) == lowered(b.host_text->0)
    &&& a.port == b.port
}

/// Whether two URLs have the same scheme, host and port.
pub fn same_origin(left: &UrlParts, right: &UrlParts) -> (same: bool)
    ensures
        same == same_origin_as(left.model(), right.model()),
{
    let hosts = match (&left.host_text, &right.host_text) {
        (Some(a), Some(b)) => {
            let x = to_lower(a.as_str());
            let y = to_lower(b.as_str());
            same_text(x.as_str(), y.as_str())
        },
        _ => false,
    };
    let ports = match (left.port, right.port) {
        (Some(a), Some(b)) => a == b,
        (None, None) => true,
        _ => false,
    };
    same_text(left.scheme.as_str(), right.scheme.as_str()) && hosts && ports
}

/// The segments of a path without an empty last one.
pub open spec fn without_empty_end(segments: Seq<Seq<char>>) -> Seq<Seq<char>> {
    if segments.len() > 0 && segments.last().len() == 0 {
        segments.drop_last()
    } else {
        segments
    }
}

/// Whether the path of a URL ends in `chat/completions`; a slash may follow.
pub open spec fn is_chat_url(url: UrlModel) -> bool {
    match url.segments {
        Some(all) => {
            let segments = without_empty_end(all);
            segments.len() >= 2 && segments[segments.len() - 2] == "chat"@ && segments.last()
                == "completions"@
        },
        None => false,
    }
}

/// Whether the path of a URL ends in `chat/completions`.
pub fn ends_in_chat(url: &UrlParts) -> (result: bool)
    ensures
        result == is_chat_url(url.model()),
{
    match &url.segments {
        None => false,
        Some(all) => {
            let ghost names = texts(all@);
            let mut count: usize = all.len();
            if count > 0 && all[count - 1].as_str().is_empty() {
                assert(names.last() == all@[count - 1]@);
                count = count - 1;
                assert(without_empty_end(names) =~= names.take(count as int));
            } else {
                assert(count > 0 ==> names.last() == all@[count - 1]@);
                assert(without_empty_end(names) =~= names.take(count as int));
            }
            let ghost kept = without_empty_end(names);
            if count < 2 {
                return false;
            }
            assert(kept[count - 2] == all@[count - 2]@ && kept.last() == all@[count - 1]@);
            same_text(all[count - 2].as_str(), "chat") && same_text(
                all[count - 1].as_str(),
                "completions",
            )
        },
    }
}

/// The path segments of the model list next to a chat URL: `models` in place of the last two
/// segments, an empty last one not counted. An empty segment that is left alone counts as none.
pub open spec fn models_segments(segments: Seq<Seq<char>>) -> Seq<Seq<char>> {
    let rest = without_empty_end(segments).drop_last().drop_last();
    if rest == seq![Seq::<char>::empty()] {
        seq!["models"@]
    } else {
        rest.push("models"@)
    }
}

/// Whether a URL is that of the model list next to a chat URL: it has no query, its path ends in
/// `models` in place of `chat/completions`, and the rest is that of the chat URL.
pub open spec fn is_models_url(url: UrlModel, chat_url: UrlModel) -> bool {
    &&& same_place(url, chat_url)
    &&& url.query is None
    &&& url.segments == Some(models_segments(chat_url.segments->0))
    &&& written(url)
}

/// The URL of the model list next to a chat URL.
pub fn models_sibling(url: &Url) -> (sibling: Url)
    requires
        is_chat_url(url_model(*url)),
    ensures
        is_models_url(url_model(sibling), url_model(*url)),
{
    let ghost all = url_model(*url).segments->0;
    let ghost kept = without_empty_end(all);
    let plain = without_query(url);
    let ended = without_empty_segment(&plain);
    assert(url_model(ended).segments == Some(kept));
    let shorter = without_last_segment(&ended);
    let start = without_last_segment(&shorter);
    proof {
        reveal_strlit("models");
        let rest = kept.drop_last().drop_last();
        if kept.len() == 2 {
            assert(rest =~= Seq::<Seq<char>>::empty());
            assert(rest.push("models"@) =~= seq!["models"@]);
            assert(rest.len() != seq![Seq::<char>::empty()].len());
        }
    }
    with_segment(&start, "models")
}

/// The URL of the model list has the origin of the chat URL and may be used where that one may.
pub proof fn law_models_url_same_origin(url: UrlModel, chat_url: UrlModel)
    requires
        is_models_url(url, chat_url),
    ensures
        chat_url.host_text is Some ==> same_origin_as(url, chat_url),
        url_problem(url) == url_problem(chat_url),
{
}

} // verus!
