//! The order of texts: that of their UTF-8 bytes.
use crate::text::lemma_encoding_injective;
use vstd::prelude::*;
use vstd::utf8::encode_utf8;

verus! {

/// Whether the sequences agree before position `at`, where `a` ends or holds the smaller byte.
pub open spec fn smaller_at(a: Seq<u8>, b: Seq<u8>, at: int) -> bool {
    &&& 0 <= at <= a.len()
    &&& at < b.len()
    &&& forall|j: int| 0 <= j < at ==> a[j] == #[trigger] b[j]
    &&& at == a.len() || a[at] < b[at]
}

/// The lexicographic order of byte sequences.
pub open spec fn bytes_precede(a: Seq<u8>, b: Seq<u8>) -> bool {
    exists|at: int| #[trigger] smaller_at(a, b, at)
}

/// The order of texts.
pub open spec fn precedes(a: Seq<char>, b: Seq<char>) -> bool {
    bytes_precede(encode_utf8(a), encode_utf8(b))
}

/// No text precedes itself.
pub proof fn lemma_precedes_irreflexive(a: Seq<char>)
    ensures
        !precedes(a, a),
{
}

/// The order of texts is transitive.
pub proof fn lemma_precedes_transitive(a: Seq<char>, b: Seq<char>, c: Seq<char>)
    requires
        precedes(a, b),
        precedes(b, c),
    ensures
        precedes(a, c),
{
    let (x, y, z) = (encode_utf8(a), encode_utf8(b), encode_utf8(c));
    let i = choose|i: int| #[trigger] smaller_at(x, y, i);
    let j = choose|j: int| #[trigger] smaller_at(y, z, j);
    let k = if i < j {
        i
    } else {
        j
    };
    assert forall|n: int| 0 <= n < k implies x[n] == #[trigger] z[n] by {
        assert(x[n] == y[n]);
    }
    if i < j {
        assert(y[i] == z[i]);
    } else if j < i {
        assert(x[j] == y[j]);
    }
    assert(smaller_at(x, z, k));
}

/// Two texts do not precede each other.
pub proof fn lemma_precedes_asymmetric(a: Seq<char>, b: Seq<char>)
    requires
        precedes(a, b),
    ensures
        !precedes(b, a),
        a != b,
{
    if precedes(b, a) {
        lemma_precedes_transitive(a, b, a);
    }
    lemma_precedes_irreflexive(a);
}

proof fn lemma_bytes_total(a: Seq<u8>, b: Seq<u8>, at: int)
    requires
        a != b,
        0 <= at <= a.len(),
        at <= b.len(),
        forall|j: int| 0 <= j < at ==> a[j] == #[trigger] b[j],
    ensures
        bytes_precede(a, b) || bytes_precede(b, a),
    decreases a.len() - at,
{
    if at == a.len() {
        if at == b.len() {
            assert(a =~= b);
        } else {
            assert(smaller_at(a, b, at));
        }
    } else if at == b.len() {
        assert(smaller_at(b, a, at));
    } else if a[at] < b[at] {
        assert(smaller_at(a, b, at));
    } else if b[at] < a[at] {
        assert(smaller_at(b, a, at));
    } else {
        lemma_bytes_total(a, b, at + 1);
    }
}

/// Of two different texts one precedes the other.
pub proof fn lemma_precedes_total(a: Seq<char>, b: Seq<char>)
    requires
        a != b,
    ensures
        precedes(a, b) || precedes(b, a),
{
    if encode_utf8(a) == encode_utf8(b) {
        lemma_encoding_injective(a, b);
    }
    lemma_bytes_total(encode_utf8(a), encode_utf8(b), 0);
}

/// How one text stands to another in the order of texts.
#[derive(Clone, Copy, PartialEq, Eq, Structural, Debug)]
pub enum Place {
    Before,
    Same,
    After,
}

/// How one text stands to another.
pub open spec fn place_of(a: Seq<char>, b: Seq<char>) -> Place {
    if a == b {
        Place::Same
    } else if precedes(a, b) {
        Place::Before
    } else {
        Place::After
    }
}

/// Compares two texts.
pub fn place(a: &str, b: &str) -> (result: Place)
    ensures
        result == place_of(a@, b@),
        result is After ==> precedes(b@, a@),
{
    let x = a.as_bytes();
    let y = b.as_bytes();
    let mut at: usize = 0;
    while at < x.len() && at < y.len()
        invariant
            x@ == encode_utf8(a@),
            y@ == encode_utf8(b@),
            at <= x@.len(),
            at <= y@.len(),
            forall|j: int| 0 <= j < at ==> x@[j] == #[trigger] y@[j],
        decreases x@.len() - at,
    {
        if x[at] < y[at] {
            assert(smaller_at(x@, y@, at as int));
            proof {
                lemma_precedes_asymmetric(a@, b@);
            }
            return Place::Before;
        }
        if y[at] < x[at] {
            assert(smaller_at(y@, x@, at as int));
            proof {
                lemma_precedes_asymmetric(b@, a@);
            }
            return Place::After;
        }
        at = at + 1;
    }
    if at < y.len() {
        assert(smaller_at(x@, y@, at as int));
        proof {
            lemma_precedes_asymmetric(a@, b@);
        }
        Place::Before
    } else if at < x.len() {
        assert(smaller_at(y@, x@, at as int));
        proof {
            lemma_precedes_asymmetric(b@, a@);
        }
        Place::After
    } else {
        proof {
            assert(x@ == y@);
            lemma_encoding_injective(a@, b@);
        }
        Place::Same
    }
}

/// Whether texts stand in strictly ascending order.
pub open spec fn ascending(list: Seq<Seq<char>>) -> bool {
    forall|i: int, j: int| 0 <= i < j < list.len() ==> precedes(#[trigger] list[i], #[trigger] list[j])
}

/// Texts in strictly ascending order are distinct.
pub proof fn lemma_ascending_distinct(list: Seq<Seq<char>>)
    requires
        ascending(list),
    ensures
        list.no_duplicates(),
{
    assert forall|i: int, j: int| 0 <= i < list.len() && 0 <= j < list.len() && i != j implies list[i]
        != list[j] by {
        if i < j {
            lemma_precedes_asymmetric(list[i], list[j]);
        } else {
            lemma_precedes_asymmetric(list[j], list[i]);
        }
    }
}

/// A text comes before another where, at the first place at which their bytes differ, it ends or
/// has the smaller byte.
pub proof fn law_order(a: Seq<char>, b: Seq<char>, at: int)
    requires
        0 <= at < encode_utf8(b).len(),
        at <= encode_utf8(a).len(),
        forall|j: int| 0 <= j < at ==> encode_utf8(a)[j] == #[trigger] encode_utf8(b)[j],
        at == encode_utf8(a).len() || encode_utf8(a)[at] < encode_utf8(b)[at],
    ensures
        precedes(a, b),
        !precedes(b, a),
{
    assert(smaller_at(encode_utf8(a), encode_utf8(b), at));
    lemma_precedes_asymmetric(a, b);
}

} // verus!
