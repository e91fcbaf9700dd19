//! The places of a JSON catalog: what stands where in a source and in its target.
use crate::text::decimal;
use crate::value::{lookup, JsonModel};
use super::pointer::{child_path, escaped, label};
use vstd::prelude::*;

verus! {

/// A key as it stands in a path: `~0` stands for a tilde, `~1` for a slash.
pub open spec fn pointer_text(key: Seq<char>) -> Seq<char>
    decreases key.len(),
{
    if key.len() == 0 {
        Seq::empty()
    } else {
        pointer_text(key.drop_last()) + (match key.last() {
            '~' => seq!['~', '0'],
            '/' => seq!['~', '1'],
            c => seq![c],
        })
    }
}

/// The path of something inside the value at a path.
pub open spec fn inside(path: Seq<char>, key: Seq<char>) -> Seq<char> {
    path + seq!['/'] + pointer_text(key)
}

/// How a path is shown: that of the whole document as `/`.
pub open spec fn path_name(path: Seq<char>) -> Seq<char> {
    if path.len() == 0 {
        seq!['/']
    } else {
        path
    }
}

/// Paths are made of escaped keys and shown by their names.
pub proof fn law_paths(path: Seq<char>, key: Seq<char>)
    ensures
        child_path(path, key) == inside(path, key),
        label(path) == path_name(path),
{
    lemma_pointer_text(key);
}

proof fn lemma_pointer_text(key: Seq<char>)
    ensures
        escaped(key) == pointer_text(key),
    decreases key.len(),
{
    if key.len() > 0 {
        lemma_pointer_text(key.drop_last());
    }
}

/// Whether two values have the same type.
pub open spec fn alike(a: JsonModel, b: JsonModel) -> bool {
    &&& a is Null <==> b is Null
    &&& a is Bool <==> b is Bool
    &&& a is Number <==> b is Number
    &&& a is Text <==> b is Text
    &&& a is Array <==> b is Array
    &&& a is Object <==> b is Object
}

/// The name of a value's type.
pub open spec fn json_type(value: JsonModel) -> Seq<char> {
    if value is Null {
        "null"@
    } else if value is Bool {
        "boolean"@
    } else if value is Number {
        "number"@
    } else if value is Text {
        "string"@
    } else if value is Array {
        "array"@
    } else {
        "object"@
    }
}

/// A value of the source, what stands in its place in the target, and its path.
pub struct Spot {
    pub source: JsonModel,
    pub target: Option<JsonModel>,
    pub path: Seq<char>,
}

/// The spot that steps lead to, each a position among the members or items of the source. Where
/// source and target have different types, nothing inside them is a spot.
pub open spec fn spot(
    source: JsonModel,
    target: Option<JsonModel>,
    path: Seq<char>,
    steps: Seq<int>,
) -> Option<Spot>
    decreases steps.len(),
{
    if steps.len() == 0 {
        Some(Spot { source, target, path })
    } else if target is Some && !alike(source, target->0) {
        None
    } else {
        let at = steps[0];
        let rest = steps.drop_first();
        match source {
            JsonModel::Object(entries) => if 0 <= at < entries.len() {
                spot(
                    entries[at].1,
                    match target {
                        Some(JsonModel::Object(others)) => lookup(others, entries[at].0),
                        _ => None,
                    },
                    inside(path, entries[at].0),
                    rest,
                )
            } else {
                None
            },
            JsonModel::Array(list) => if 0 <= at < list.len() {
                spot(
                    list[at],
                    match target {
                        Some(JsonModel::Array(others)) => if at < others.len() {
                            Some(others[at])
                        } else {
                            None
                        },
                        _ => None,
                    },
                    inside(path, decimal(at as nat)),
                    rest,
                )
            } else {
                None
            },
            _ => None,
        }
    }
}

/// What two lists hold is what one of them holds.
pub proof fn lemma_contains_joined<T>(a: Seq<T>, b: Seq<T>, x: T)
    ensures
        (a + b).contains(x) <==> a.contains(x) || b.contains(x),
{
    if a.contains(x) {
        let i = a.index_of(x);
        assert((a + b)[i] == x);
    }
    if b.contains(x) {
        let i = b.index_of(x);
        assert((a + b)[a.len() + i] == x);
    }
    if (a + b).contains(x) {
        let i = (a + b).index_of(x);
        if i < a.len() {
            assert(a[i] == x);
        } else {
            assert(b[i - a.len()] == x);
        }
    }
}

/// What a list of one holds.
pub proof fn lemma_single<T>(x: T, y: T)
    ensures
        seq![x].contains(y) <==> x == y,
{
    if x == y {
        assert(seq![x][0] == y);
    }
}

/// Whether the translation of a text that is not empty is asked for: it is missing or empty,
/// or every text is to be translated again, or the source text has changed since.
pub open spec fn is_due(
    found: Option<JsonModel>,
    path: Seq<char>,
    force: bool,
    outdated: Set<Seq<char>>,
) -> bool {
    match found {
        None => true,
        Some(JsonModel::Text(text)) => text.len() == 0 || force || outdated.contains(path),
        _ => false,
    }
}

/// Whether the translation of a text is one of an earlier text, and this is to be reported.
pub open spec fn is_outdated(
    text: Seq<char>,
    found: Option<JsonModel>,
    path: Seq<char>,
    force: bool,
    outdated: Set<Seq<char>>,
) -> bool {
    match found {
        Some(JsonModel::Text(translation)) => outdated.contains(path) && (text.len() == 0 || (!force
            && translation.len() > 0)),
        _ => false,
    }
}

/// Whether two numbers, as they are written, are equal: they are written alike, or both are
/// floating-point zeros.
pub open spec fn equal_numbers(a: Seq<char>, b: Seq<char>) -> bool {
    a == b || ((a == seq!['0', '.', '0'] || a == seq!['-', '0', '.', '0']) && (b == seq![
        '0',
        '.',
        '0',
    ] || b == seq!['-', '0', '.', '0']))
}

/// Whether the items of a list are those at ascending positions of another.
pub open spec fn stand_at<T>(list: Seq<T>, whole: Seq<T>, positions: Seq<int>) -> bool {
    &&& positions.len() == list.len()
    &&& forall|k: int|
        0 <= k < list.len() ==> 0 <= #[trigger] positions[k] < whole.len() && list[k]
            == whole[positions[k]]
    &&& forall|k: int, l: int|
        0 <= k < l < list.len() ==> #[trigger] positions[k] < #[trigger] positions[l]
}

/// Whether a list is what remains of another when some of its items are left out.
pub open spec fn in_order<T>(list: Seq<T>, whole: Seq<T>) -> bool {
    exists|positions: Seq<int>| #[trigger] stand_at(list, whole, positions)
}

/// Nothing, and a list itself, are what remains of a list.
pub proof fn lemma_in_order_ends<T>(whole: Seq<T>)
    ensures
        in_order(Seq::<T>::empty(), whole),
        in_order(whole, whole),
{
    assert(stand_at(Seq::<T>::empty(), whole, Seq::empty()));
    assert(stand_at(whole, whole, Seq::new(whole.len(), |i: int| i)));
}

/// What remains of two lists remains of the one after the other.
pub proof fn lemma_in_order_joined<T>(a: Seq<T>, x: Seq<T>, b: Seq<T>, y: Seq<T>)
    requires
        in_order(a, x),
        in_order(b, y),
    ensures
        in_order(a + b, x + y),
{
    let p = choose|p: Seq<int>| #[trigger] stand_at(a, x, p);
    let q = choose|q: Seq<int>| #[trigger] stand_at(b, y, q);
    let n = a.len() as int;
    let positions = Seq::new(
        (a + b).len(),
        |k: int|
            if k < n {
                p[k]
            } else {
                x.len() + q[k - n]
            },
    );
    assert forall|k: int| 0 <= k < (a + b).len() implies 0 <= #[trigger] positions[k] < (x + y).len()
        && (a + b)[k] == (x + y)[positions[k]] by {
        if k < n {
            assert(0 <= p[k] < x.len());
        } else {
            assert(0 <= q[k - n] < y.len());
        }
    }
    assert forall|k: int, l: int| 0 <= k < l < (a + b).len() implies #[trigger] positions[k]
        < #[trigger] positions[l] by {
        if l < n {
            assert(p[k] < p[l]);
        } else if k >= n {
            assert(q[k - n] < q[l - n]);
        } else {
            assert(p[k] < x.len() && 0 <= q[l - n]);
        }
    }
    assert(stand_at(a + b, x + y, positions));
}

} // verus!
