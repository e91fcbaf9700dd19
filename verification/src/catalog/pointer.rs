//! JSON pointers: the paths by which the strings of a catalog are named.
use crate::text::{chars_of, push_decimal};
use vstd::prelude::*;

verus! {

/// A character of a path segment as it stands in a pointer.
pub open spec fn escaped_char(c: char) -> Seq<char> {
    if c == '~' {
        seq!['~', '0']
    } else if c == '/' {
        seq!['~', '1']
    } else {
        seq![c]
    }
}

/// A path segment as it stands in a pointer.
pub open spec fn escaped(segment: Seq<char>) -> Seq<char>
    decreases segment.len(),
{
    if segment.len() == 0 {
        Seq::empty()
    } else {
        escaped(segment.drop_last()) + escaped_char(segment.last())
    }
}

/// The pointer to a child of the value that `parent` points to.
pub open spec fn child_path(parent: Seq<char>, segment: Seq<char>) -> Seq<char> {
    parent + seq!['/'] + escaped(segment)
}

/// The name of a path: the root is shown as `/`.
pub open spec fn label(path: Seq<char>) -> Seq<char> {
    if path.len() == 0 {
        seq!['/']
    } else {
        path
    }
}

/// The pointer to a child of the value that `parent` points to.
pub fn pointer_child(parent: &str, segment: &str) -> (path: String)
    ensures
        path@ == child_path(parent@, segment@),
{
    let chars = chars_of(segment);
    let mut path = String::new();
    path.append(parent);
    path.push('/');
    let ghost start = parent@ + seq!['/'];
    assert(path@ == start + escaped(segment@.take(0)));
    for i in 0..chars.len()
        invariant
            chars@ == segment@,
            path@ == start + escaped(segment@.take(i as int)),
    {
        let c = chars[i];
        let ghost before = path@;
        assert(segment@.take(i + 1).drop_last() == segment@.take(i as int));
        if c == '~' {
            path.push('~');
            path.push('0');
        } else if c == '/' {
            path.push('~');
            path.push('1');
        } else {
            path.push(c);
        }
        assert(path@ == before + escaped_char(c));
        assert(path@ == start + escaped(segment@.take(i + 1)));
    }
    assert(segment@.take(segment@.len() as int) == segment@);
    path
}

/// The pointer to an item of the array that `parent` points to.
pub fn pointer_item(parent: &str, index: usize) -> (path: String)
    ensures
        path@ == child_path(parent@, crate::text::decimal(index as nat)),
{
    let mut segment = String::new();
    push_decimal(&mut segment, index);
    assert(segment@ == crate::text::decimal(index as nat));
    pointer_child(parent, segment.as_str())
}

/// The name of a path.
pub fn path_label(path: &str) -> (name: String)
    ensures
        name@ == label(path@),
{
    if path.is_empty() {
        let mut name = String::new();
        name.push('/');
        assert(name@ =~= seq!['/']);
        name
    } else {
        path.to_owned()
    }
}

/// No slash stands in an escaped segment.
pub proof fn lemma_escaped_no_slash(segment: Seq<char>)
    ensures
        forall|i: int| 0 <= i < escaped(segment).len() ==> escaped(segment)[i] != '/',
    decreases segment.len(),
{
    if segment.len() > 0 {
        let before = escaped(segment.drop_last());
        let last = escaped_char(segment.last());
        lemma_escaped_no_slash(segment.drop_last());
        assert forall|i: int| 0 <= i < escaped(segment).len() implies escaped(segment)[i] != '/' by {
            if i < before.len() {
                assert(escaped(segment)[i] == before[i]);
            } else {
                assert(escaped(segment)[i] == last[i - before.len()]);
            }
        }
    }
}

/// In an escaped segment every `~` is followed by `0` or `1`.
proof fn lemma_escaped_tilde(segment: Seq<char>)
    ensures
        forall|i: int|
            0 <= i < escaped(segment).len() && #[trigger] escaped(segment)[i] == '~' ==> i + 1 < escaped(
                segment,
            ).len() && (escaped(segment)[i + 1] == '0' || escaped(segment)[i + 1] == '1'),
    decreases segment.len(),
{
    if segment.len() > 0 {
        let before = escaped(segment.drop_last());
        let last = escaped_char(segment.last());
        lemma_escaped_tilde(segment.drop_last());
        assert forall|i: int|
            0 <= i < escaped(segment).len() && #[trigger] escaped(segment)[i] == '~' implies i + 1
            < escaped(segment).len() && (escaped(segment)[i + 1] == '0' || escaped(segment)[i + 1]
            == '1') by {
            if i < before.len() {
                assert(escaped(segment)[i] == before[i]);
                assert(escaped(segment)[i + 1] == before[i + 1]);
            } else {
                assert(escaped(segment)[i] == last[i - before.len()]);
                assert(i == before.len());
                assert(escaped(segment)[i + 1] == last[1]);
            }
        }
    }
}

proof fn lemma_escaped_char_injective(a: char, b: char)
    requires
        escaped_char(a) == escaped_char(b),
    ensures
        a == b,
{
    let (x, y) = (escaped_char(a), escaped_char(b));
    assert(x.len() == y.len());
    assert(x[0] == y[0]);
    assert(x[x.len() - 1] == y[y.len() - 1]);
}

/// Distinct segments are escaped to distinct texts.
pub proof fn law_escaped_injective(a: Seq<char>, b: Seq<char>)
    requires
        escaped(a) == escaped(b),
    ensures
        a == b,
    decreases a.len(),
{
    if a.len() == 0 {
        if b.len() > 0 {
            assert(escaped_char(b.last()).len() > 0);
        }
        assert(a =~= b);
    } else if b.len() == 0 {
        assert(escaped_char(a.last()).len() > 0);
    } else {
        let (x, y) = (escaped(a.drop_last()), escaped(b.drop_last()));
        let (p, q) = (escaped_char(a.last()), escaped_char(b.last()));
        let whole = escaped(a);
        assert(whole == x + p && whole == y + q);
        lemma_escaped_tilde(a.drop_last());
        lemma_escaped_tilde(b.drop_last());
        assert((p.len() == 1 || p.len() == 2) && (q.len() == 1 || q.len() == 2));
        assert(whole.len() == x.len() + p.len() && whole.len() == y.len() + q.len());
        if p.len() < q.len() {
            assert(x.len() == y.len() + 1);
            assert(whole[y.len() as int] == '~');
            assert(x[y.len() as int] == whole[y.len() as int]);
        } else if q.len() < p.len() {
            assert(y.len() == x.len() + 1);
            assert(whole[x.len() as int] == '~');
            assert(y[x.len() as int] == whole[x.len() as int]);
        }
        assert(x =~= whole.take(x.len() as int));
        assert(y =~= whole.take(y.len() as int));
        assert(p =~= whole.skip(x.len() as int));
        assert(q =~= whole.skip(y.len() as int));
        law_escaped_injective(a.drop_last(), b.drop_last());
        lemma_escaped_char_injective(a.last(), b.last());
        assert(a == a.drop_last().push(a.last()));
        assert(b == b.drop_last().push(b.last()));
    }
}

/// A pointer determines the parent and the segment that it was made from.
pub proof fn law_child_path_injective(
    parent: Seq<char>,
    segment: Seq<char>,
    other_parent: Seq<char>,
    other_segment: Seq<char>,
)
    requires
        child_path(parent, segment) == child_path(other_parent, other_segment),
    ensures
        parent == other_parent,
        segment == other_segment,
{
    let whole = child_path(parent, segment);
    lemma_escaped_no_slash(segment);
    lemma_escaped_no_slash(other_segment);
    let (i, j) = (parent.len() as int, other_parent.len() as int);
    let (x, y) = (parent + seq!['/'], other_parent + seq!['/']);
    assert(x.len() == i + 1 && y.len() == j + 1);
    assert(whole == x + escaped(segment) && whole == y + escaped(other_segment));
    assert(whole.len() == x.len() + escaped(segment).len());
    assert(whole.len() == y.len() + escaped(other_segment).len());
    assert(x[i] == '/' && y[j] == '/');
    assert(whole[i] == x[i] && whole[j] == y[j]);
    if i < j {
        assert((x + escaped(segment))[j] == escaped(segment)[j - x.len()]);
    } else if j < i {
        assert((y + escaped(other_segment))[i] == escaped(other_segment)[i - y.len()]);
    }
    assert(parent =~= whole.take(i));
    assert(other_parent =~= whole.take(j));
    assert(escaped(segment) =~= whole.skip(i + 1));
    assert(escaped(other_segment) =~= whole.skip(j + 1));
    law_escaped_injective(segment, other_segment);
}

} // verus!
