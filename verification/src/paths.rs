//! Lexical handling of file paths: joining, resolving `..`, and file name extensions.
use crate::text::{chars_of, same_text, text_of, texts};
use vstd::prelude::*;

pub mod reader;

verus! {

/// A component of a path.
#[derive(Debug)]
pub enum PathPart {
    Prefix(String),
    Root,
    Current,
    Parent,
    Normal(String),
}

/// What a component of a path is.
pub enum PartModel {
    Prefix(Seq<char>),
    Root,
    Current,
    Parent,
    Normal(Seq<char>),
}

impl PathPart {
    /// What the component is.
    pub open spec fn model(self) -> PartModel {
        match self {
            PathPart::Prefix(text) => PartModel::Prefix(text@),
            PathPart::Root => PartModel::Root,
            PathPart::Current => PartModel::Current,
            PathPart::Parent => PartModel::Parent,
            PathPart::Normal(text) => PartModel::Normal(text@),
        }
    }
}

/// What each component is.
pub open spec fn part_models(parts: Seq<PathPart>) -> Seq<PartModel> {
    Seq::new(parts.len(), |i: int| parts[i].model())
}

/// Whether a path is read alike on every platform: it has no backslash and no colon, and does not
/// start with two slashes.
pub open spec fn portable(path: Seq<char>) -> bool {
    &&& forall|i: int| 0 <= i < path.len() ==> #[trigger] path[i] != '\\' && path[i] != ':'
    &&& !(path.len() >= 2 && path[0] == '/' && path[1] == '/')
}

/// The pieces of a path between its slashes.
pub open spec fn pieces(path: Seq<char>) -> Seq<Seq<char>>
    decreases path.len(),
{
    if path.len() == 0 {
        seq![Seq::empty()]
    } else {
        let before = pieces(path.drop_last());
        if path.last() == '/' {
            before.push(Seq::empty())
        } else {
            before.drop_last().push(before.last().push(path.last()))
        }
    }
}

/// The component that a piece stands for: repeated slashes and `.` stand for none.
pub open spec fn piece_part(piece: Seq<char>) -> Option<PartModel> {
    if piece.len() == 0 || piece == seq!['.'] {
        None
    } else if piece == seq!['.', '.'] {
        Some(PartModel::Parent)
    } else {
        Some(PartModel::Normal(piece))
    }
}

/// The components of a portable path: the root where it starts with a slash, `.` only at the
/// beginning of a relative path, then what its pieces stand for.
pub open spec fn components(path: Seq<char>) -> Seq<PartModel> {
    (if path.len() > 0 && path[0] == '/' {
        seq![PartModel::Root]
    } else if pieces(path)[0] == seq!['.'] {
        seq![PartModel::Current]
    } else {
        Seq::empty()
    }) + pieces(path).filter_map(|piece: Seq<char>| piece_part(piece))
}

/// Whether components can be those of a path: on a portable path they are known, on another they
/// are what the platform makes of it.
pub open spec fn reads_as(parts: Seq<PartModel>, path: Seq<char>) -> bool {
    portable(path) ==> parts == components(path)
}

/// `std::path::Path::components` gives the components of a path. On a portable path they are
/// those that its documentation describes; on another they depend on the platform, and nothing is
/// said of them.
#[verifier::external_body]
pub(crate) fn path_parts(path: &str) -> (parts: Vec<PathPart>)
    ensures
        reads_as(part_models(parts@), path@),
{
    std::path::Path::new(path).components().map(|part| match part {
        std::path::Component::Prefix(text) => {
            PathPart::Prefix(text.as_os_str().to_string_lossy().into_owned())
        },
        std::path::Component::RootDir => PathPart::Root,
        std::path::Component::CurDir => PathPart::Current,
        std::path::Component::ParentDir => PathPart::Parent,
        std::path::Component::Normal(text) => PathPart::Normal(text.to_string_lossy().into_owned()),
    }).collect()
}

/// `std::path::MAIN_SEPARATOR` is the platform's separator of path components.
#[verifier::external_body]
pub(crate) fn main_separator() -> (separator: char)
    ensures
        separator == '/' || separator == '\\',
{
    std::path::MAIN_SEPARATOR
}

/// A path without `.` and with `..` only where it leaves its starting point.
#[derive(Debug, PartialEq, Eq)]
pub struct NormalPath {
    pub prefix: Option<String>,
    pub rooted: bool,
    pub segments: Vec<String>,
}

/// What a normalised path is.
#[verifier::ext_equal]
pub struct NormalModel {
    pub prefix: Option<Seq<char>>,
    pub rooted: bool,
    pub segments: Seq<Seq<char>>,
}

impl NormalPath {
    /// What the path is.
    pub open spec fn model(self) -> NormalModel {
        NormalModel {
            prefix: crate::text::optional_text(self.prefix),
            rooted: self.rooted,
            segments: texts(self.segments@),
        }
    }
}

/// The segment `..`.
pub open spec fn parent_segment() -> Seq<char> {
    ".."@
}

/// The path after one more component: `..` takes back the segment before it, and stays where
/// there is none to take back and the path has no root.
pub open spec fn extended(path: NormalModel, part: PartModel) -> NormalModel {
    match part {
        PartModel::Prefix(text) => NormalModel { prefix: Some(text), ..path },
        PartModel::Root => NormalModel { rooted: true, ..path },
        PartModel::Current => path,
        PartModel::Parent => if path.segments.len() > 0 && path.segments.last()
            != parent_segment() {
            NormalModel { segments: path.segments.drop_last(), ..path }
        } else if !path.rooted {
            NormalModel { segments: path.segments.push(parent_segment()), ..path }
        } else {
            path
        },
        PartModel::Normal(text) => NormalModel { segments: path.segments.push(text), ..path },
    }
}

/// The normalised path of a list of components.
pub open spec fn normalized(parts: Seq<PartModel>) -> NormalModel
    decreases parts.len(),
{
    if parts.len() == 0 {
        NormalModel { prefix: None, rooted: false, segments: Seq::empty() }
    } else {
        extended(normalized(parts.drop_last()), parts.last())
    }
}

/// The components of one path after those of another: a path with a prefix replaces the other, a
/// path with a root replaces all but the other's prefix.
pub open spec fn joined(base: Seq<PartModel>, path: Seq<PartModel>) -> Seq<PartModel> {
    if path.len() > 0 && path[0] is Prefix {
        path
    } else if path.len() > 0 && path[0] is Root {
        if base.len() > 0 && base[0] is Prefix {
            seq![base[0]] + path
        } else {
            path
        }
    } else {
        base + path
    }
}

/// Extends a normalised path by a component.
fn extend(path: &mut NormalPath, part: &PathPart)
    ensures
        final(path).model() == extended(old(path).model(), part.model()),
{
    let ghost before = path.model();
    match part {
        PathPart::Prefix(text) => {
            path.prefix = Some(text.clone());
        },
        PathPart::Root => {
            path.rooted = true;
        },
        PathPart::Current => {},
        PathPart::Parent => {
            let count: usize = path.segments.len();
            if count > 0 && !same_text(path.segments[count - 1].as_str(), "..") {
                assert(before.segments.last() == path.segments@[count - 1]@);
                path.segments.pop();
                assert(path.model() =~= extended(before, part.model()));
            } else {
                assert(count > 0 ==> before.segments.last() == path.segments@[count - 1]@);
                if !path.rooted {
                    path.segments.push("..".to_owned());
                    assert(path.model() =~= extended(before, part.model()));
                }
            }
        },
        PathPart::Normal(text) => {
            path.segments.push(text.clone());
            assert(path.model() =~= extended(before, part.model()));
        },
    }
}

/// Normalises a list of components.
pub fn normalize_lexically(parts: &Vec<PathPart>) -> (path: NormalPath)
    ensures
        path.model() == normalized(part_models(parts@)),
{
    let ghost models = part_models(parts@);
    let mut path = NormalPath { prefix: None, rooted: false, segments: Vec::new() };
    assert(path.model() =~= normalized(models.take(0)));
    for i in 0..parts.len()
        invariant
            models == part_models(parts@),
            path.model() == normalized(models.take(i as int)),
    {
        assert(models.take(i + 1).drop_last() =~= models.take(i as int));
        extend(&mut path, &parts[i]);
    }
    assert(models.take(models.len() as int) =~= models);
    path
}

/// Whether the first component of a path is a prefix.
fn begins_with_prefix(parts: &Vec<PathPart>) -> (result: bool)
    ensures
        result == (part_models(parts@).len() > 0 && part_models(parts@)[0] is Prefix),
{
    parts.len() > 0 && match parts[0] {
        PathPart::Prefix(_) => true,
        _ => false,
    }
}

/// Whether the first component of a path is the root.
fn begins_with_root(parts: &Vec<PathPart>) -> (result: bool)
    ensures
        result == (part_models(parts@).len() > 0 && part_models(parts@)[0] is Root),
{
    parts.len() > 0 && match parts[0] {
        PathPart::Root => true,
        _ => false,
    }
}

/// The components of one path after those of another.
pub fn join(base: Vec<PathPart>, path: Vec<PathPart>) -> (result: Vec<PathPart>)
    ensures
        part_models(result@) == joined(part_models(base@), part_models(path@)),
{
    let ghost ours = part_models(base@);
    let ghost theirs = part_models(path@);
    let keep: usize = if begins_with_prefix(&path) {
        0
    } else if begins_with_root(&path) {
        if begins_with_prefix(&base) {
            1
        } else {
            0
        }
    } else {
        base.len()
    };
    let mut result = base;
    let mut rest = path;
    result.truncate(keep);
    assert(part_models(result@) =~= ours.take(keep as int));
    result.append(&mut rest);
    assert(part_models(result@) =~= ours.take(keep as int) + theirs);
    assert(part_models(result@) =~= joined(ours, theirs));
    result
}

fn copy_part(part: &PathPart) -> (copy: PathPart)
    ensures
        copy.model() == part.model(),
{
    match part {
        PathPart::Prefix(text) => PathPart::Prefix(text.clone()),
        PathPart::Root => PathPart::Root,
        PathPart::Current => PathPart::Current,
        PathPart::Parent => PathPart::Parent,
        PathPart::Normal(text) => PathPart::Normal(text.clone()),
    }
}

/// The same components again.
pub fn copy_parts(parts: &Vec<PathPart>) -> (copies: Vec<PathPart>)
    ensures
        part_models(copies@) == part_models(parts@),
{
    let mut copies: Vec<PathPart> = Vec::new();
    for i in 0..parts.len()
        invariant
            copies@.len() == i,
            forall|j: int| 0 <= j < i ==> (#[trigger] copies@[j]).model() == parts@[j].model(),
    {
        copies.push(copy_part(&parts[i]));
    }
    assert(part_models(copies@) =~= part_models(parts@));
    copies
}

/// The normalised path of a file that is given relative to a directory, both by their components.
pub fn resolve_parts(base: &Vec<PathPart>, path: &Vec<PathPart>) -> (result: NormalPath)
    ensures
        result.model() == normalized(joined(part_models(base@), part_models(path@))),
{
    let parts = join(copy_parts(base), copy_parts(path));
    normalize_lexically(&parts)
}

/// Segments with a separator between them.
pub open spec fn separated(segments: Seq<Seq<char>>, separator: char) -> Seq<char>
    decreases segments.len(),
{
    if segments.len() == 0 {
        Seq::empty()
    } else if segments.len() == 1 {
        segments[0]
    } else {
        separated(segments.drop_last(), separator).push(separator) + segments.last()
    }
}

/// A normalised path as text.
pub open spec fn path_text(path: NormalModel, separator: char) -> Seq<char> {
    (match path.prefix {
        Some(text) => text,
        None => Seq::empty(),
    }) + (if path.rooted {
        seq![separator]
    } else {
        Seq::empty()
    }) + separated(path.segments, separator)
}

/// A normalised path as text.
pub fn to_text(path: &NormalPath, separator: char) -> (text: String)
    ensures
        text@ == path_text(path.model(), separator),
{
    let mut text = String::new();
    if let Some(prefix) = &path.prefix {
        text.append(prefix.as_str());
    }
    if path.rooted {
        text.push(separator);
    }
    let ghost head = text@;
    let ghost names = texts(path.segments@);
    assert(text@ =~= head + separated(names.take(0), separator));
    for i in 0..path.segments.len()
        invariant
            names == texts(path.segments@),
            text@ == head + separated(names.take(i as int), separator),
    {
        let ghost before = separated(names.take(i as int), separator);
        assert(names.take(i + 1).drop_last() =~= names.take(i as int));
        assert(names.take(i + 1).last() == path.segments@[i as int]@);
        if i > 0 {
            text.push(separator);
        }
        text.append(path.segments[i].as_str());
        assert(text@ =~= head + separated(names.take(i + 1), separator));
    }
    assert(names.take(names.len() as int) =~= names);
    assert(text@ =~= path_text(path.model(), separator));
    text
}

/// Whether two normalised paths are the same.
pub fn same_path(a: &NormalPath, b: &NormalPath) -> (same: bool)
    ensures
        same == (a.model() == b.model()),
{
    let prefixes = match (&a.prefix, &b.prefix) {
        (Some(x), Some(y)) => same_text(x.as_str(), y.as_str()),
        (None, None) => true,
        _ => false,
    };
    if !prefixes || a.rooted != b.rooted || a.segments.len() != b.segments.len() {
        assert(texts(a.segments@).len() == a.segments@.len());
        assert(texts(b.segments@).len() == b.segments@.len());
        return false;
    }
    for i in 0..a.segments.len()
        invariant
            a.segments@.len() == b.segments@.len(),
            forall|j: int| 0 <= j < i ==> texts(a.segments@)[j] == texts(b.segments@)[j],
    {
        if !same_text(a.segments[i].as_str(), b.segments[i].as_str()) {
            assert(texts(a.segments@)[i as int] != texts(b.segments@)[i as int]);
            return false;
        }
    }
    assert(texts(a.segments@) =~= texts(b.segments@));
    true
}

/// The directory of a normalised path: the path without its last segment.
pub fn parent(path: &NormalPath) -> (directory: Option<NormalPath>)
    ensures
        directory is Some <==> path.model().segments.len() > 0,
        directory is Some ==> directory->0.model() == (NormalModel {
            segments: path.model().segments.drop_last(),
            ..path.model()
        }),
{
    if path.segments.len() == 0 {
        return None;
    }
    let mut segments = crate::text::clone_texts(&path.segments);
    segments.pop();
    let directory = NormalPath {
        prefix: crate::text::clone_optional(&path.prefix),
        rooted: path.rooted,
        segments,
    };
    assert(directory.model().segments =~= path.model().segments.drop_last());
    Some(directory)
}

/// Whether a path is a drive without a root, such as `C:`, where the separator is a backslash.
pub open spec fn bare_drive(path: Seq<char>, separator: char) -> bool {
    separator == '\\' && path.len() == 2 && path[1] == ':' && (('a' <= path[0] && path[0] <= 'z') || (
    'A' <= path[0] && path[0] <= 'Z'))
}

/// The path of an entry of a directory. An entry of a drive without a root is one of the current
/// directory of that drive, and no separator stands before it.
pub open spec fn entry_path(directory: Seq<char>, name: Seq<char>, separator: char) -> Seq<char> {
    if directory.len() == 0 || directory.last() == '/' || directory.last() == separator || bare_drive(
        directory,
        separator,
    ) {
        directory + name
    } else {
        directory.push(separator) + name
    }
}

/// The path of an entry of a directory.
pub fn entry_of(directory: &str, name: &str, separator: char) -> (path: String)
    ensures
        path@ == entry_path(directory@, name@, separator),
{
    let chars = chars_of(directory);
    let count: usize = chars.len();
    let mut path = String::new();
    path.append(directory);
    let drive = separator == '\\' && count == 2 && chars[1] == ':' && (('a' <= chars[0] && chars[0]
        <= 'z') || ('A' <= chars[0] && chars[0] <= 'Z'));
    if count > 0 && chars[count - 1] != '/' && chars[count - 1] != separator && !drive {
        path.push(separator);
    }
    path.append(name);
    assert(path@ =~= entry_path(directory@, name@, separator));
    path
}

/// The position of the last dot among the first `count` characters, or -1.
pub open spec fn last_dot(name: Seq<char>, count: int) -> int
    decreases count,
{
    if count <= 0 || count > name.len() {
        -1
    } else if name[count - 1] == '.' {
        count - 1
    } else {
        last_dot(name, count - 1)
    }
}

/// The extension of a file name: what follows its last dot, unless that is its first character.
pub open spec fn extension_of(name: Seq<char>) -> Option<Seq<char>> {
    let dot = last_dot(name, name.len() as int);
    if dot <= 0 {
        None
    } else {
        Some(name.skip(dot + 1))
    }
}

/// The extension of a file name.
pub fn extension(name: &str) -> (result: Option<String>)
    ensures
        crate::text::optional_text(result) == extension_of(name@),
{
    let chars = chars_of(name);
    let mut count: usize = chars.len();
    while count > 0 && chars[count - 1] != '.'
        invariant
            chars@ == name@,
            count <= chars@.len(),
            last_dot(name@, count as int) == last_dot(name@, name@.len() as int),
        decreases count,
    {
        count = count - 1;
    }
    if count <= 1 {
        return None;
    }
    let result = text_of(&chars, count, chars.len());
    assert(result@ =~= name@.skip(count as int));
    Some(result)
}

/// The file name that a list of components ends with.
pub open spec fn file_name(parts: Seq<PartModel>) -> Option<Seq<char>> {
    if parts.len() == 0 {
        None
    } else {
        match parts.last() {
            PartModel::Normal(name) => Some(name),
            _ => None,
        }
    }
}

/// The file name that a normalised path ends with.
pub open spec fn normal_file_name(path: NormalModel) -> Option<Seq<char>> {
    if path.segments.len() == 0 || path.segments.last() == parent_segment() {
        None
    } else {
        Some(path.segments.last())
    }
}

/// The components of a normalised path.
pub open spec fn normal_parts(path: NormalModel) -> Seq<PartModel> {
    (match path.prefix {
        Some(text) => seq![PartModel::Prefix(text)],
        None => Seq::empty(),
    }) + (if path.rooted {
        seq![PartModel::Root]
    } else {
        Seq::empty()
    }) + Seq::new(
        path.segments.len(),
        |i: int|
            if path.segments[i] == parent_segment() {
                PartModel::Parent
            } else {
                PartModel::Normal(path.segments[i])
            },
    )
}

/// Whether a normalised path has `..` only before its other segments, and none after a root.
pub open spec fn settled(path: NormalModel) -> bool {
    forall|i: int|
        0 <= i < path.segments.len() && #[trigger] path.segments[i] == parent_segment() ==> !path.rooted
            && forall|j: int| 0 <= j < i ==> #[trigger] path.segments[j] == parent_segment()
}

/// Whether components come in the order in which a path has them: a prefix only at the start, a
/// root before any segment, and no segment that is `..` itself.
pub open spec fn in_order(parts: Seq<PartModel>) -> bool {
    forall|i: int|
        0 <= i < parts.len() ==> match #[trigger] parts[i] {
            PartModel::Prefix(_) => i == 0,
            PartModel::Root => i == 0 || (i == 1 && parts[0] is Prefix),
            PartModel::Normal(name) => name != parent_segment(),
            _ => true,
        }
}

proof fn lemma_head(parts: Seq<PartModel>)
    requires
        in_order(parts),
        parts.len() <= 1 || (parts.len() == 2 && parts[1] is Root),
        parts.len() > 0 ==> parts[0] is Prefix || parts[0] is Root,
    ensures
        normalized(parts).segments.len() == 0,
{
    if parts.len() == 2 {
        assert(parts.drop_last() =~= seq![parts[0]]);
        assert(parts.drop_last().drop_last() =~= Seq::<PartModel>::empty());
        assert(normalized(parts.drop_last().drop_last()).segments.len() == 0);
        assert(parts[1] is Root);
        assert(parts[0] is Prefix);
    } else if parts.len() == 1 {
        assert(parts.drop_last() =~= Seq::<PartModel>::empty());
        assert(normalized(parts.drop_last()).segments.len() == 0);
    }
}

/// A normalised path has `..` only before its other segments, and none after a root.
pub proof fn law_normalized_settled(parts: Seq<PartModel>)
    requires
        in_order(parts),
    ensures
        settled(normalized(parts)),
    decreases parts.len(),
{
    if parts.len() > 0 {
        let before = normalized(parts.drop_last());
        let after = normalized(parts);
        let part = parts[parts.len() - 1];
        assert(in_order(parts.drop_last())) by {
            assert forall|i: int| 0 <= i < parts.drop_last().len() implies match #[trigger] parts.drop_last()[i] {
                PartModel::Prefix(_) => i == 0,
                PartModel::Root => i == 0 || (i == 1 && parts.drop_last()[0] is Prefix),
                PartModel::Normal(name) => name != parent_segment(),
                _ => true,
            } by {
                assert(parts.drop_last()[i] == parts[i]);
            }
        }
        law_normalized_settled(parts.drop_last());
        assert(after == extended(before, part));
        match part {
            PartModel::Root => {
                assert(parts.len() == 1 || (parts.len() == 2 && parts[0] is Prefix));
                lemma_head(parts);
                assert(after.segments.len() == 0);
            },
            PartModel::Parent => {
                if before.segments.len() > 0 && before.segments.last() != parent_segment() {
                    assert forall|i: int|
                        0 <= i < after.segments.len() && #[trigger] after.segments[i]
                            == parent_segment() implies !after.rooted && forall|j: int|
                        0 <= j < i ==> #[trigger] after.segments[j] == parent_segment() by {
                        assert(before.segments[i] == after.segments[i]);
                        assert forall|j: int| 0 <= j < i implies #[trigger] after.segments[j]
                            == parent_segment() by {
                            assert(before.segments[j] == after.segments[j]);
                        }
                    }
                } else if !before.rooted {
                    let n = before.segments.len();
                    assert forall|j: int| 0 <= j < n implies #[trigger] before.segments[j]
                        == parent_segment() by {
                        assert(before.segments[n - 1] == parent_segment());
                    }
                    assert forall|j: int| 0 <= j < after.segments.len() implies #[trigger] after.segments[j]
                        == parent_segment() by {
                        if j < n {
                            assert(after.segments[j] == before.segments[j]);
                        }
                    }
                }
            },
            PartModel::Normal(name) => {
                assert(name != parent_segment());
                assert forall|i: int|
                    0 <= i < after.segments.len() && #[trigger] after.segments[i]
                        == parent_segment() implies !after.rooted && forall|j: int|
                    0 <= j < i ==> #[trigger] after.segments[j] == parent_segment() by {
                    assert(i < before.segments.len());
                    assert(before.segments[i] == after.segments[i]);
                    assert forall|j: int| 0 <= j < i implies #[trigger] after.segments[j]
                        == parent_segment() by {
                        assert(before.segments[j] == after.segments[j]);
                    }
                }
            },
            _ => {},
        }
    }
}

proof fn lemma_segments_stay(path: NormalModel, count: int)
    requires
        settled(path),
        0 <= count <= path.segments.len(),
    ensures
        normalized(
            normal_parts(path).take(normal_parts(path).len() - path.segments.len() + count),
        ) == (NormalModel { segments: path.segments.take(count), ..path }),
    decreases count,
{
    let parts = normal_parts(path);
    let head = parts.len() - path.segments.len();
    let so_far = parts.take(head + count);
    if count == 0 {
        if head == 0 {
            assert(so_far =~= Seq::<PartModel>::empty());
        } else if head == 1 {
            assert(so_far.drop_last() =~= Seq::<PartModel>::empty());
            assert(normalized(so_far.drop_last()).segments =~= Seq::<Seq<char>>::empty());
        } else {
            assert(so_far.drop_last().drop_last() =~= Seq::<PartModel>::empty());
            assert(normalized(so_far.drop_last().drop_last()).segments =~= Seq::<Seq<char>>::empty());
            assert(so_far.drop_last().last() == parts[0]);
            assert(so_far.last() == parts[1]);
        }
        assert(path.segments.take(0) =~= Seq::<Seq<char>>::empty());
    } else {
        lemma_segments_stay(path, count - 1);
        assert(so_far.drop_last() =~= parts.take(head + count - 1));
        let before = NormalModel { segments: path.segments.take(count - 1), ..path };
        let segment = path.segments[count - 1];
        assert(so_far.last() == parts[head + count - 1]);
        assert(path.segments.take(count) =~= path.segments.take(count - 1).push(segment));
        if segment == parent_segment() {
            if before.segments.len() > 0 {
                assert(path.segments[count - 2] == parent_segment());
                assert(before.segments.last() == parent_segment());
            }
        }
    }
}

/// Normalising a normalised path changes nothing.
pub proof fn law_normalize_idempotent(parts: Seq<PartModel>)
    requires
        in_order(parts),
    ensures
        normalized(normal_parts(normalized(parts))) == normalized(parts),
{
    let path = normalized(parts);
    law_normalized_settled(parts);
    lemma_segments_stay(path, path.segments.len() as int);
    assert(normal_parts(path).take(normal_parts(path).len() as int) =~= normal_parts(path));
    assert(path.segments.take(path.segments.len() as int) =~= path.segments);
}

/// A segment that `..` follows changes nothing: the path is normalised as if neither was there.
pub proof fn law_parent_undoes_segment(
    before: Seq<PartModel>,
    segment: Seq<char>,
    after: Seq<PartModel>,
)
    requires
        segment != parent_segment(),
    ensures
        normalized(before + seq![PartModel::Normal(segment), PartModel::Parent] + after)
            == normalized(before + after),
    decreases after.len(),
{
    let pair = seq![PartModel::Normal(segment), PartModel::Parent];
    let longer = before + pair + after;
    if after.len() == 0 {
        let start = normalized(before);
        let entered = before.push(PartModel::Normal(segment));
        assert(longer =~= entered.push(PartModel::Parent));
        assert(longer.drop_last() =~= entered);
        assert(entered.drop_last() =~= before);
        assert(before + after =~= before);
        assert(start.segments.push(segment).drop_last() =~= start.segments);
        assert(normalized(entered) == extended(start, PartModel::Normal(segment)));
        assert(normalized(longer) == extended(normalized(entered), PartModel::Parent));
        assert(normalized(longer) =~= start);
    } else {
        assert(longer.drop_last() =~= before + pair + after.drop_last());
        assert((before + after).drop_last() =~= before + after.drop_last());
        law_parent_undoes_segment(before, segment, after.drop_last());
        assert(longer.last() == after.last() && (before + after).last() == after.last());
    }
}

} // verus!
