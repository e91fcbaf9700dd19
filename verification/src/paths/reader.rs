//! Paths as the platform reads them. Each text is read once, so that it stands for the same path
//! throughout.
use crate::map::StringMap;
use super::{
    components, copy_parts, joined, law_parent_undoes_segment, main_separator, normalized,
    parent_segment, part_models, path_parts, portable, reads_as, resolve_parts, NormalModel,
    NormalPath, PartModel, PathPart,
};
use vstd::prelude::*;

verus! {

/// Whether texts were read as paths: each portable one is read as it is everywhere.
pub open spec fn readable(reading: Map<Seq<char>, Seq<PartModel>>) -> bool {
    forall|path: Seq<char>| #[trigger]
        reading.contains_key(path) ==> reads_as(reading[path], path)
}

/// Whether texts that were read are still read as they were.
pub open spec fn kept_in(
    reading: Map<Seq<char>, Seq<PartModel>>,
    more: Map<Seq<char>, Seq<PartModel>>,
) -> bool {
    forall|path: Seq<char>| #[trigger]
        reading.contains_key(path) ==> more.contains_key(path) && more[path] == reading[path]
}

/// The normalised path of a file that is given relative to a directory.
pub open spec fn located(
    reading: Map<Seq<char>, Seq<PartModel>>,
    base_dir: Seq<char>,
    path: Seq<char>,
) -> NormalModel {
    normalized(joined(reading[base_dir], reading[path]))
}

/// The components of each path of a map.
pub open spec fn parts_map(map: Map<Seq<char>, Vec<PathPart>>) -> Map<Seq<char>, Seq<PartModel>> {
    map.map_values(|parts: Vec<PathPart>| part_models(parts@))
}

/// The paths that were read, and the platform's separator.
#[derive(Debug)]
pub struct PathReader {
    separator: char,
    parts: StringMap<Vec<PathPart>>,
}

impl PathReader {
    /// What each text was read as.
    pub closed spec fn reading(self) -> Map<Seq<char>, Seq<PartModel>> {
        parts_map(self.parts@)
    }

    /// The platform's separator.
    pub closed spec fn mark(self) -> char {
        self.separator
    }

    /// The separator is one of the two there are, and portable paths are read as everywhere.
    pub open spec fn faithful(self) -> bool {
        (self.mark() == '/' || self.mark() == '\\') && readable(self.reading())
    }

    #[verifier::type_invariant]
    spec fn valid(self) -> bool {
        (self.separator == '/' || self.separator == '\\') && readable(parts_map(self.parts@))
    }

    /// A reader that has read nothing.
    pub fn new() -> (reader: Self)
        ensures
            reader.reading() == Map::<Seq<char>, Seq<PartModel>>::empty(),
            reader.faithful(),
    {
        let reader = PathReader { separator: main_separator(), parts: StringMap::new() };
        assert(reader.reading() =~= Map::<Seq<char>, Seq<PartModel>>::empty());
        reader
    }

    /// The platform's separator.
    pub fn separator(&self) -> (separator: char)
        ensures
            separator == self.mark(),
            self.faithful(),
    {
        proof {
            use_type_invariant(self);
        }
        self.separator
    }

    /// Another reader that has read the same.
    pub fn copy(&self) -> (other: Self)
        ensures
            other.reading() == self.reading(),
            other.mark() == self.mark(),
            other.faithful(),
    {
        proof {
            use_type_invariant(self);
        }
        let mut parts: StringMap<Vec<PathPart>> = StringMap::new();
        let count: usize = self.parts.len();
        let ghost names = self.parts.keys();
        for i in 0..count
            invariant
                self.parts.ordered(),
                names == self.parts.keys(),
                count == names.len(),
                forall|path: Seq<char>| #[trigger]
                    parts@.contains_key(path) <==> exists|j: int| 0 <= j < i && names[j] == path,
                forall|path: Seq<char>| #[trigger]
                    parts@.contains_key(path) ==> part_models(parts@[path]@) == part_models(
                        self.parts@[path]@,
                    ),
        {
            let ghost before = parts@;
            let value = copy_parts(self.parts.value_at(i));
            parts.insert(self.parts.key_at(i).clone(), value);
            assert forall|path: Seq<char>| #[trigger]
                parts@.contains_key(path) <==> exists|j: int| 0 <= j < i + 1 && names[j] == path by {
                if before.contains_key(path) {
                    let j = choose|j: int| 0 <= j < i && names[j] == path;
                    assert(0 <= j < i + 1 && names[j] == path);
                }
                if path == names[i as int] {
                    assert(0 <= i < i + 1 && names[i as int] == path);
                }
            }
        }
        proof {
            assert forall|path: Seq<char>| #[trigger]
                parts@.contains_key(path) <==> self.parts@.contains_key(path) by {
                if self.parts@.contains_key(path) {
                    assert(names.to_set().contains(path));
                    let j = names.index_of(path);
                    assert(0 <= j < count && names[j] == path);
                }
            }
            assert(parts_map(parts@) =~= parts_map(self.parts@));
        }
        PathReader { separator: self.separator, parts }
    }

    /// Reads a text as a path, unless that was done before.
    pub fn read(&mut self, path: &str) -> (parts: Vec<PathPart>)
        ensures
            final(self).reading().contains_key(path@),
            part_models(parts@) == final(self).reading()[path@],
            final(self).reading() == old(self).reading().insert(path@, part_models(parts@)),
            old(self).reading().contains_key(path@) ==> final(self).reading() == old(
                self,
            ).reading(),
            final(self).mark() == old(self).mark(),
            final(self).faithful(),
    {
        proof {
            use_type_invariant(&*self);
        }
        let ghost before = parts_map(self.parts@);
        match self.parts.get(path) {
            Some(found) => {
                let parts = copy_parts(found);
                assert(before.insert(path@, part_models(parts@)) =~= before);
                return parts;
            },
            None => {},
        }
        let parts = path_parts(path);
        let mut map: StringMap<Vec<PathPart>> = StringMap::new();
        assert(parts_map(map@) =~= Map::<Seq<char>, Seq<PartModel>>::empty());
        std::mem::swap(&mut self.parts, &mut map);
        map.insert(path.to_owned(), copy_parts(&parts));
        assert(parts_map(map@) =~= before.insert(path@, part_models(parts@)));
        self.parts = map;
        parts
    }

    /// The normalised path of a file that is given relative to a directory.
    pub fn locate(&mut self, base_dir: &str, path: &str) -> (result: NormalPath)
        ensures
            kept_in(old(self).reading(), final(self).reading()),
            final(self).reading().contains_key(base_dir@),
            final(self).reading().contains_key(path@),
            result.model() == located(final(self).reading(), base_dir@, path@),
            final(self).mark() == old(self).mark(),
            final(self).faithful(),
    {
        let base = self.read(base_dir);
        let parts = self.read(path);
        resolve_parts(&base, &parts)
    }
}

/// Whether a normalised path is that of a file that is given relative to a directory, however the
/// platform reads the two.
pub open spec fn resolves(normal: NormalModel, base_dir: Seq<char>, path: Seq<char>) -> bool {
    exists|reading: Map<Seq<char>, Seq<PartModel>>|
        {
            &&& #[trigger] readable(reading)
            &&& reading.contains_key(base_dir)
            &&& reading.contains_key(path)
            &&& normal == located(reading, base_dir, path)
        }
}

/// The normalised path of a file that is given relative to a directory, both portable.
pub open spec fn resolved(base_dir: Seq<char>, path: Seq<char>) -> NormalModel {
    normalized(joined(components(base_dir), components(path)))
}

/// Where the directory and the path are portable, only one path is that of the file.
pub proof fn law_portable_resolves(normal: NormalModel, base_dir: Seq<char>, path: Seq<char>)
    requires
        portable(base_dir),
        portable(path),
    ensures
        resolves(normal, base_dir, path) <==> normal == resolved(base_dir, path),
{
    if normal == resolved(base_dir, path) {
        let reading = Map::<Seq<char>, Seq<PartModel>>::empty().insert(
            base_dir,
            components(base_dir),
        ).insert(path, components(path));
        assert(readable(reading));
        assert(normal == located(reading, base_dir, path));
    }
}

/// The path of a file is made of components of the directory and of components of the path, which
/// are known where the directory or the path is portable.
pub proof fn law_resolves_joins(normal: NormalModel, base_dir: Seq<char>, path: Seq<char>)
    requires
        resolves(normal, base_dir, path),
    ensures
        exists|base: Seq<PartModel>, rest: Seq<PartModel>|
            normal == normalized(#[trigger] joined(base, rest)) && reads_as(base, base_dir)
                && reads_as(rest, path),
{
    let reading = choose|reading: Map<Seq<char>, Seq<PartModel>>|
        {
            &&& #[trigger] readable(reading)
            &&& reading.contains_key(base_dir)
            &&& reading.contains_key(path)
            &&& normal == located(reading, base_dir, path)
        };
    assert(normal == normalized(joined(reading[base_dir], reading[path])));
}

/// However the directory and the paths are read, two paths that differ only in a segment that `..`
/// follows lead to the same file.
pub proof fn law_detours_lead_to_same_file(
    reading: Map<Seq<char>, Seq<PartModel>>,
    base_dir: Seq<char>,
    first: Seq<char>,
    second: Seq<char>,
    before: Seq<PartModel>,
    a: Seq<char>,
    b: Seq<char>,
    after: Seq<PartModel>,
)
    requires
        a != parent_segment(),
        b != parent_segment(),
        reading[first] == before + seq![PartModel::Normal(a), PartModel::Parent] + after,
        reading[second] == before + seq![PartModel::Normal(b), PartModel::Parent] + after,
    ensures
        located(reading, base_dir, first) == located(reading, base_dir, second),
{
    let base = reading[base_dir];
    let start = if before.len() > 0 && before[0] is Prefix {
        Seq::empty()
    } else if before.len() > 0 && before[0] is Root {
        if base.len() > 0 && base[0] is Prefix {
            seq![base[0]]
        } else {
            Seq::empty()
        }
    } else {
        base
    };
    assert(before.len() > 0 ==> reading[first][0] == before[0] && reading[second][0] == before[0]);
    assert(joined(base, reading[first]) =~= (start + before) + seq![
        PartModel::Normal(a),
        PartModel::Parent,
    ] + after);
    assert(joined(base, reading[second]) =~= (start + before) + seq![
        PartModel::Normal(b),
        PartModel::Parent,
    ] + after);
    law_parent_undoes_segment(start + before, a, after);
    law_parent_undoes_segment(start + before, b, after);
}

/// A path of names alone leads to that place inside the directory: the file has the prefix and the
/// root of the directory, its segments and then the names.
pub proof fn law_inside_directory(
    reading: Map<Seq<char>, Seq<PartModel>>,
    base_dir: Seq<char>,
    path: Seq<char>,
    names: Seq<Seq<char>>,
)
    requires
        reading[path] == Seq::new(names.len(), |i: int| PartModel::Normal(names[i])),
    ensures
        located(reading, base_dir, path).prefix == normalized(reading[base_dir]).prefix,
        located(reading, base_dir, path).rooted == normalized(reading[base_dir]).rooted,
        located(reading, base_dir, path).segments == normalized(reading[base_dir]).segments + names,
{
    lemma_named_inside(reading[base_dir], names);
}

proof fn lemma_named_inside(base: Seq<PartModel>, names: Seq<Seq<char>>)
    ensures
        ({
            let parts = Seq::new(names.len(), |i: int| PartModel::Normal(names[i]));
            let inside = normalized(base + parts);
            &&& inside.prefix == normalized(base).prefix
            &&& inside.rooted == normalized(base).rooted
            &&& inside.segments == normalized(base).segments + names
        }),
    decreases names.len(),
{
    let parts = Seq::new(names.len(), |i: int| PartModel::Normal(names[i]));
    if names.len() == 0 {
        assert(base + parts =~= base);
        assert(normalized(base).segments + names =~= normalized(base).segments);
    } else {
        let fewer = names.drop_last();
        let shorter = Seq::new(fewer.len(), |i: int| PartModel::Normal(fewer[i]));
        lemma_named_inside(base, fewer);
        assert((base + parts).drop_last() =~= base + shorter);
        assert((base + parts).last() == PartModel::Normal(names.last()));
        assert((normalized(base).segments + fewer).push(names.last()) =~= normalized(base).segments
            + names);
    }
}

} // verus!
