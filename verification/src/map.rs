//! A map from texts to values whose entries stand in the order of their keys.
use crate::order::{
    ascending, lemma_ascending_distinct, lemma_precedes_asymmetric, lemma_precedes_irreflexive,
    lemma_precedes_total, lemma_precedes_transitive, place, precedes, Place,
};
use vstd::prelude::*;

verus! {

/// A map from texts to values, ordered by key.
#[derive(Debug, PartialEq, Eq)]
pub struct StringMap<V> {
    entries: Vec<(String, V)>,
}

/// The keys of a list of entries.
pub open spec fn entry_keys<V>(entries: Seq<(String, V)>) -> Seq<Seq<char>> {
    Seq::new(entries.len(), |i: int| entries[i].0@)
}

/// The map that a list of entries with distinct keys stands for.
pub open spec fn entry_map<V>(entries: Seq<(String, V)>) -> Map<Seq<char>, V> {
    Map::new(
        |key: Seq<char>| entry_keys(entries).contains(key),
        |key: Seq<char>| entries[entry_keys(entries).index_of(key)].1,
    )
}

proof fn lemma_entry<V>(entries: Seq<(String, V)>, at: int)
    requires
        ascending(entry_keys(entries)),
        0 <= at < entries.len(),
    ensures
        entry_map(entries).contains_key(entries[at].0@),
        entry_map(entries)[entries[at].0@] == entries[at].1,
{
    lemma_ascending_distinct(entry_keys(entries));
    assert(entry_keys(entries)[at] == entries[at].0@);
    assert(entry_keys(entries).contains(entries[at].0@));
}

proof fn lemma_finite_domain<V>(entries: Seq<(String, V)>)
    requires
        ascending(entry_keys(entries)),
    ensures
        entry_map(entries).dom() == entry_keys(entries).to_set(),
        entry_map(entries).dom().finite(),
        entry_map(entries).len() == entries.len(),
{
    lemma_ascending_distinct(entry_keys(entries));
    assert(entry_map(entries).dom() =~= entry_keys(entries).to_set());
    entry_keys(entries).unique_seq_to_set();
}

impl<V> View for StringMap<V> {
    type V = Map<Seq<char>, V>;

    closed spec fn view(&self) -> Map<Seq<char>, V> {
        entry_map(self.entries@)
    }
}

impl<V> StringMap<V> {
    /// The keys in ascending order.
    pub closed spec fn keys(self) -> Seq<Seq<char>> {
        entry_keys(self.entries@)
    }

    /// The keys are in strictly ascending order, and they are the keys of the map.
    pub open spec fn ordered(self) -> bool {
        &&& ascending(self.keys())
        &&& self.keys().no_duplicates()
        &&& self@.dom().finite()
        &&& self@.dom() == self.keys().to_set()
        &&& self@.len() == self.keys().len()
        &&& forall|i: int| 0 <= i < self.keys().len() ==> self@.contains_key(#[trigger] self.keys()[i])
    }

    #[verifier::type_invariant]
    spec fn sorted(self) -> bool {
        ascending(entry_keys(self.entries@))
    }

    /// A map without entries.
    pub fn new() -> (map: Self)
        ensures
            map@ == Map::<Seq<char>, V>::empty(),
            map.keys() == Seq::<Seq<char>>::empty(),
    {
        let map = StringMap { entries: Vec::new() };
        assert(map@ =~= Map::<Seq<char>, V>::empty());
        assert(map.keys() =~= Seq::<Seq<char>>::empty());
        map
    }

    /// The number of entries.
    pub fn len(&self) -> (count: usize)
        ensures
            count == self.keys().len(),
            self.ordered(),
    {
        proof {
            use_type_invariant(self);
            lemma_finite_domain(self.entries@);
            lemma_ascending_distinct(self.keys());
            assert forall|i: int| 0 <= i < self.keys().len() implies self@.contains_key(
                #[trigger] self.keys()[i],
            ) by {
                lemma_entry(self.entries@, i);
            }
        }
        self.entries.len()
    }

    /// Whether the map has no entries.
    pub fn is_empty(&self) -> (empty: bool)
        ensures
            empty == (self.keys().len() == 0),
            empty == (self@ == Map::<Seq<char>, V>::empty()),
            self.ordered(),
    {
        let count = self.len();
        proof {
            if count == 0 {
                assert(self@ =~= Map::<Seq<char>, V>::empty());
            } else {
                assert(self@.contains_key(self.keys()[0]));
            }
        }
        count == 0
    }

    /// The key at a position of the order.
    pub fn key_at(&self, at: usize) -> (key: &String)
        requires
            at < self.keys().len(),
        ensures
            key@ == self.keys()[at as int],
    {
        &self.entries[at].0
    }

    /// The value at a position of the order.
    pub fn value_at(&self, at: usize) -> (value: &V)
        requires
            at < self.keys().len(),
        ensures
            *value == self@[self.keys()[at as int]],
    {
        proof {
            use_type_invariant(self);
            lemma_entry(self.entries@, at as int);
        }
        &self.entries[at].1
    }

    /// The position at which a key stands or would be inserted, and whether it is there.
    fn find(&self, key: &str) -> (found: (usize, bool))
        ensures
            found.0 <= self.entries@.len(),
            forall|i: int| 0 <= i < found.0 ==> precedes(#[trigger] self.entries@[i].0@, key@),
            !found.1 ==> forall|i: int|
                found.0 <= i < self.entries@.len() ==> precedes(key@, #[trigger] self.entries@[i].0@),
            found.1 ==> found.0 < self.entries@.len() && self.entries@[found.0 as int].0@ == key@,
            found.1 == self@.contains_key(key@),
            ascending(entry_keys(self.entries@)),
    {
        proof {
            use_type_invariant(self);
        }
        let ghost keys = entry_keys(self.entries@);
        let mut low: usize = 0;
        let mut high: usize = self.entries.len();
        while low < high
            invariant
                keys == entry_keys(self.entries@),
                ascending(keys),
                low <= high <= self.entries@.len(),
                forall|i: int| 0 <= i < low ==> precedes(#[trigger] self.entries@[i].0@, key@),
                forall|i: int|
                    high <= i < self.entries@.len() ==> precedes(key@, #[trigger] self.entries@[i].0@),
            decreases high - low,
        {
            let middle: usize = low + (high - low) / 2;
            let ghost m = keys[middle as int];
            assert(m == self.entries@[middle as int].0@);
            match place(self.entries[middle].0.as_str(), key) {
                Place::Same => {
                    proof {
                        lemma_entry(self.entries@, middle as int);
                        assert forall|i: int| 0 <= i < middle implies precedes(
                            #[trigger] self.entries@[i].0@,
                            key@,
                        ) by {
                            assert(precedes(keys[i], keys[middle as int]));
                        }
                    }
                    return (middle, true);
                },
                Place::Before => {
                    proof {
                        assert forall|i: int| 0 <= i < middle + 1 implies precedes(
                            #[trigger] self.entries@[i].0@,
                            key@,
                        ) by {
                            if i < middle {
                                assert(precedes(keys[i], keys[middle as int]));
                                lemma_precedes_transitive(keys[i], m, key@);
                            }
                        }
                    }
                    low = middle + 1;
                },
                Place::After => {
                    proof {
                        assert forall|i: int| middle <= i < self.entries@.len() implies precedes(
                            key@,
                            #[trigger] self.entries@[i].0@,
                        ) by {
                            if i > middle {
                                assert(precedes(keys[middle as int], keys[i]));
                                lemma_precedes_transitive(key@, m, keys[i]);
                            }
                        }
                    }
                    high = middle;
                },
            }
        }
        proof {
            if self@.contains_key(key@) {
                let i = keys.index_of(key@);
                assert(keys[i] == key@);
                assert(self.entries@[i].0@ == key@);
                lemma_precedes_irreflexive(key@);
            }
        }
        (low, false)
    }

    /// The value of a key.
    pub fn get(&self, key: &str) -> (value: Option<&V>)
        ensures
            value is Some <==> self@.contains_key(key@),
            value is Some ==> *value->0 == self@[key@],
    {
        let (at, found) = self.find(key);
        if found {
            proof {
                lemma_entry(self.entries@, at as int);
            }
            Some(&self.entries[at].1)
        } else {
            None
        }
    }

    /// Whether the map has a key.
    pub fn contains_key(&self, key: &str) -> (found: bool)
        ensures
            found == self@.contains_key(key@),
    {
        self.find(key).1
    }

    /// Sets the value of a key and returns the value it had.
    pub fn insert(&mut self, key: String, value: V) -> (previous: Option<V>)
        ensures
            final(self)@ == old(self)@.insert(key@, value),
            previous is Some <==> old(self)@.contains_key(key@),
            previous is Some ==> previous->0 == old(self)@[key@],
    {
        let (at, found) = self.find(key.as_str());
        let ghost before = self.entries@;
        let mut entries: Vec<(String, V)> = Vec::new();
        std::mem::swap(&mut self.entries, &mut entries);
        let ghost name = key@;
        let mut previous: Option<V> = None;
        if found {
            proof {
                lemma_entry(before, at as int);
            }
            let entry = entries.remove(at);
            previous = Some(entry.1);
        }
        entries.insert(at, (key, value));
        proof {
            let after = entries@;
            let keys = entry_keys(after);
            let old_keys = entry_keys(before);
            assert(after.len() == before.len() + if found { 0int } else { 1 });
            assert forall|i: int, j: int| 0 <= i < j < keys.len() implies precedes(
                #[trigger] keys[i],
                #[trigger] keys[j],
            ) by {
                let step = if found { 0int } else { 1 };
                if i < at {
                    assert(keys[i] == old_keys[i] && old_keys[i] == before[i].0@);
                }
                if j > at {
                    assert(keys[j] == old_keys[j - step] && old_keys[j - step] == before[j - step].0@);
                }
                assert(keys[at as int] == name);
                if found {
                    assert(old_keys[at as int] == name);
                    assert(precedes(old_keys[i], old_keys[j]));
                } else if j < at {
                    assert(keys[j] == old_keys[j]);
                } else if i > at {
                    assert(keys[i] == old_keys[i - 1]);
                    assert(precedes(old_keys[i - 1], old_keys[j - 1]));
                } else if i < at && j > at {
                    assert(precedes(old_keys[i], old_keys[j - 1]));
                }
            }
            assert(ascending(keys));
            lemma_entry(after, at as int);
            assert forall|k: Seq<char>| #[trigger]
                entry_map(after).contains_key(k) == entry_map(before).insert(name, value).contains_key(
                    k,
                ) by {
                if k != name {
                    if keys.contains(k) {
                        let i = keys.index_of(k);
                        let o = if i < at || found { i } else { i - 1 };
                        assert(old_keys[o] == k);
                    }
                    if old_keys.contains(k) {
                        let o = old_keys.index_of(k);
                        let i = if o < at || found { o } else { o + 1 };
                        assert(keys[i] == k);
                    }
                }
            }
            assert forall|k: Seq<char>| #[trigger]
                entry_map(after).contains_key(k) implies entry_map(after)[k] == entry_map(
                before,
            ).insert(name, value)[k] by {
                if k != name {
                    let i = keys.index_of(k);
                    assert(keys[i] == k);
                    let o = if i < at || found { i } else { i - 1 };
                    assert(old_keys[o] == k);
                    lemma_entry(before, o);
                    lemma_entry(after, i);
                }
            }
            assert(entry_map(after) =~= entry_map(before).insert(name, value));
        }
        self.entries = entries;
        previous
    }

    /// Removes a key and returns the value it had.
    pub fn remove(&mut self, key: &str) -> (previous: Option<V>)
        ensures
            final(self)@ == old(self)@.remove(key@),
            previous is Some <==> old(self)@.contains_key(key@),
            previous is Some ==> previous->0 == old(self)@[key@],
    {
        let (at, found) = self.find(key);
        if !found {
            assert(self@.remove(key@) =~= self@);
            return None;
        }
        let ghost before = self.entries@;
        proof {
            lemma_entry(before, at as int);
        }
        let mut entries: Vec<(String, V)> = Vec::new();
        std::mem::swap(&mut self.entries, &mut entries);
        let entry = entries.remove(at);
        proof {
            let after = entries@;
            let keys = entry_keys(after);
            let old_keys = entry_keys(before);
            lemma_ascending_distinct(old_keys);
            assert forall|i: int, j: int| 0 <= i < j < keys.len() implies precedes(
                #[trigger] keys[i],
                #[trigger] keys[j],
            ) by {
                let oi = if i < at { i } else { i + 1 };
                let oj = if j < at { j } else { j + 1 };
                assert(keys[i] == old_keys[oi] && keys[j] == old_keys[oj]);
            }
            assert forall|k: Seq<char>| #[trigger]
                entry_map(after).contains_key(k) == entry_map(before).remove(key@).contains_key(k) by {
                if keys.contains(k) {
                    let i = keys.index_of(k);
                    let o = if i < at { i } else { i + 1 };
                    assert(old_keys[o] == k);
                    assert(old_keys[at as int] == key@);
                }
                if k != key@ && old_keys.contains(k) {
                    let o = old_keys.index_of(k);
                    let i = if o < at { o } else { o - 1 };
                    assert(keys[i] == k);
                }
            }
            assert forall|k: Seq<char>| #[trigger]
                entry_map(after).contains_key(k) implies entry_map(after)[k] == entry_map(
                before,
            ).remove(key@)[k] by {
                let i = keys.index_of(k);
                assert(keys[i] == k);
                let o = if i < at { i } else { i + 1 };
                assert(old_keys[o] == k);
                lemma_entry(before, o);
                lemma_entry(after, i);
            }
            assert(entry_map(after) =~= entry_map(before).remove(key@));
        }
        self.entries = entries;
        Some(entry.1)
    }

    /// Sets the values of all keys of another map.
    pub fn extend(&mut self, other: StringMap<V>)
        ensures
            final(self)@ == old(self)@.union_prefer_right(other@),
    {
        let ghost before = self@;
        let ghost keys = other.keys();
        let entries = other.into_entries();
        assert(entry_keys(entries@) == keys);
        proof {
            assert(zip_map(keys.take(0), Seq::<V>::empty()) =~= Map::empty());
        }
        let ghost values = Seq::new(entries@.len(), |i: int| entries@[i].1);
        assert(self@ =~= before.union_prefer_right(zip_map(keys.take(0), values.take(0))));
        for entry in iter: entries
            invariant
                iter.seq() == entries@,
                keys == entry_keys(entries@),
                keys.no_duplicates(),
                values == Seq::new(entries@.len(), |i: int| entries@[i].1),
                self@ == before.union_prefer_right(
                    zip_map(keys.take(iter.index() as int), values.take(iter.index() as int)),
                ),
        {
            let ghost at = iter.index();
            assert(keys[at] == entry.0@ && values[at] == entry.1);
            let ghost so_far = self@;
            proof {
                lemma_zip_push(keys, values, at);
            }
            self.insert(entry.0, entry.1);
            assert(self@ =~= before.union_prefer_right(
                zip_map(keys.take(at + 1), values.take(at + 1)),
            ));
        }
        proof {
            assert(keys.take(keys.len() as int) =~= keys);
            assert(values.take(values.len() as int) =~= values);
            assert(zip_map(keys, values) =~= entry_map(entries@));
        }
    }

    /// The entries in the order of their keys.
    pub fn into_entries(self) -> (entries: Vec<(String, V)>)
        ensures
            entry_keys(entries@) == self.keys(),
            entry_map(entries@) == self@,
            self.ordered(),
    {
        let count = self.len();
        self.entries
    }
}

/// The texts of a map.
pub open spec fn text_map(map: Map<Seq<char>, String>) -> Map<Seq<char>, Seq<char>> {
    map.map_values(|text: String| text@)
}

/// Two maps with the same entries have the same keys in the same order.
pub proof fn lemma_same_keys(a: Seq<Seq<char>>, b: Seq<Seq<char>>)
    requires
        ascending(a),
        ascending(b),
        a.to_set() == b.to_set(),
    ensures
        a == b,
    decreases a.len(),
{
    lemma_ascending_distinct(a);
    lemma_ascending_distinct(b);
    a.unique_seq_to_set();
    b.unique_seq_to_set();
    if a.len() > 0 {
        let x = a.last();
        let y = b.last();
        if x != y {
            assert(b.to_set().contains(x)) by {
                assert(a.to_set().contains(x));
            }
            let i = b.index_of(x);
            assert(precedes(b[i], b[b.len() - 1]));
            assert(a.to_set().contains(y)) by {
                assert(b.to_set().contains(y));
            }
            let j = a.index_of(y);
            assert(precedes(a[j], a[a.len() - 1]));
            lemma_precedes_asymmetric(x, y);
        }
        let (c, d) = (a.drop_last(), b.drop_last());
        assert forall|k: Seq<char>| #[trigger] c.to_set().contains(k) == d.to_set().contains(k) by {
            if c.contains(k) {
                let i = c.index_of(k);
                assert(a[i] == k);
                assert(b.to_set().contains(k)) by {
                    assert(a.to_set().contains(k));
                }
                let j = b.index_of(k);
                assert(d[j] == k);
            }
            if d.contains(k) {
                let i = d.index_of(k);
                assert(b[i] == k);
                assert(a.to_set().contains(k)) by {
                    assert(b.to_set().contains(k));
                }
                let j = a.index_of(k);
                assert(c[j] == k);
            }
        }
        assert(c.to_set() =~= d.to_set());
        assert(ascending(c));
        assert(ascending(d));
        lemma_same_keys(c, d);
        assert(a == c.push(x));
        assert(b == d.push(y));
    } else {
        assert(a =~= b);
    }
}

/// The map from distinct keys to the values at the same positions.
pub open spec fn zip_map<V>(keys: Seq<Seq<char>>, values: Seq<V>) -> Map<Seq<char>, V> {
    Map::new(
        |key: Seq<char>| keys.contains(key),
        |key: Seq<char>| values[keys.index_of(key)],
    )
}

/// One more key and value make one more entry.
pub proof fn lemma_zip_push<V>(keys: Seq<Seq<char>>, values: Seq<V>, at: int)
    requires
        keys.no_duplicates(),
        keys.len() == values.len(),
        0 <= at < keys.len(),
    ensures
        zip_map(keys.take(at + 1), values.take(at + 1)) == zip_map(
            keys.take(at),
            values.take(at),
        ).insert(keys[at], values[at]),
{
    let (shorter, longer) = (keys.take(at), keys.take(at + 1));
    let result = zip_map(longer, values.take(at + 1));
    let expected = zip_map(shorter, values.take(at)).insert(keys[at], values[at]);
    assert forall|k: Seq<char>| #[trigger] result.contains_key(k) == expected.contains_key(k) by {
        if longer.contains(k) {
            let j = longer.index_of(k);
            if j < at {
                assert(shorter[j] == k);
            }
        }
        if shorter.contains(k) {
            let j = shorter.index_of(k);
            assert(longer[j] == k);
        }
        if k == keys[at] {
            assert(longer[at] == k);
        }
    }
    assert forall|k: Seq<char>| #[trigger] result.contains_key(k) implies result[k] == expected[k] by {
        let j = longer.index_of(k);
        assert(longer[j] == k && keys[j] == k);
        if j < at {
            assert(keys[j] != keys[at]);
            assert(shorter[j] == k);
            let m = shorter.index_of(k);
            assert(keys[m] == k);
            assert(m == j);
        } else {
            assert(keys[at] == k);
        }
    }
    assert(result =~= expected);
}

/// A map is made up of its keys and their values.
pub proof fn lemma_zip_sorted<V>(map: Map<Seq<char>, V>)
    requires
        map.dom().finite(),
    ensures
        zip_map(
            sorted_keys(map.dom()),
            Seq::new(sorted_keys(map.dom()).len(), |i: int| map[sorted_keys(map.dom())[i]]),
        ) == map,
{
    law_sorted_keys(map.dom());
    let keys = sorted_keys(map.dom());
    let values = Seq::new(keys.len(), |i: int| map[keys[i]]);
    let result = zip_map(keys, values);
    assert forall|k: Seq<char>| #[trigger] result.contains_key(k) == map.contains_key(k) by {
        assert(keys.to_set().contains(k) == keys.contains(k));
    }
    assert forall|k: Seq<char>| #[trigger] result.contains_key(k) implies result[k] == map[k] by {
        let i = keys.index_of(k);
        assert(keys[i] == k);
    }
    assert(result =~= map);
}

/// The elements of a finite set of texts in ascending order.
pub open spec fn sorted_keys(set: Set<Seq<char>>) -> Seq<Seq<char>> {
    choose|keys: Seq<Seq<char>>| ascending(keys) && #[trigger] keys.to_set() == set
}

/// Texts in ascending order are the sorted elements of the set that they make up.
pub proof fn lemma_sorted_keys(keys: Seq<Seq<char>>)
    requires
        ascending(keys),
    ensures
        sorted_keys(keys.to_set()) == keys,
{
    let set = keys.to_set();
    let found = sorted_keys(set);
    assert(ascending(keys) && keys.to_set() == set);
    lemma_same_keys(found, keys);
}

/// A text put in its place among texts in ascending order.
pub open spec fn placed(keys: Seq<Seq<char>>, key: Seq<char>) -> Seq<Seq<char>>
    decreases keys.len(),
{
    if keys.len() == 0 || precedes(keys.last(), key) {
        keys.push(key)
    } else {
        placed(keys.drop_last(), key).push(keys.last())
    }
}

proof fn lemma_placed(keys: Seq<Seq<char>>, key: Seq<char>)
    requires
        ascending(keys),
        !keys.contains(key),
    ensures
        ascending(placed(keys, key)),
        placed(keys, key).to_set() == keys.to_set().insert(key),
    decreases keys.len(),
{
    let result = placed(keys, key);
    if keys.len() == 0 || precedes(keys.last(), key) {
        assert forall|i: int, j: int| 0 <= i < j < result.len() implies precedes(
            #[trigger] result[i],
            #[trigger] result[j],
        ) by {
            if j == keys.len() && i < keys.len() - 1 {
                assert(precedes(keys[i], keys[keys.len() - 1]));
                lemma_precedes_transitive(keys[i], keys.last(), key);
            }
        }
        assert forall|k: Seq<char>| #[trigger] result.to_set().contains(k) == keys.to_set().insert(
            key,
        ).contains(k) by {
            if keys.contains(k) {
                let i = keys.index_of(k);
                assert(result[i] == k);
            }
            if k == key {
                assert(result[keys.len() as int] == k);
            }
            if result.contains(k) && k != key {
                let i = result.index_of(k);
                assert(keys[i] == k);
            }
        }
    } else {
        let shorter = keys.drop_last();
        let last = keys.last();
        assert(ascending(shorter));
        assert(!shorter.contains(key)) by {
            if shorter.contains(key) {
                let i = shorter.index_of(key);
                assert(keys[i] == key);
            }
        }
        lemma_placed(shorter, key);
        let before = placed(shorter, key);
        assert(keys[keys.len() - 1] != key) by {
            if keys[keys.len() - 1] == key {
                assert(keys.contains(key));
            }
        }
        lemma_precedes_total(last, key);
        assert forall|i: int, j: int| 0 <= i < j < result.len() implies precedes(
            #[trigger] result[i],
            #[trigger] result[j],
        ) by {
            if j == before.len() {
                assert(before.to_set().contains(before[i]));
                if before[i] != key {
                    assert(shorter.to_set().contains(before[i]));
                    let k = shorter.index_of(before[i]);
                    assert(precedes(keys[k], keys[keys.len() - 1]));
                }
            }
        }
        assert forall|k: Seq<char>| #[trigger] result.to_set().contains(k) == keys.to_set().insert(
            key,
        ).contains(k) by {
            if result.contains(k) && k != last {
                let i = result.index_of(k);
                assert(before[i] == k);
                assert(before.to_set().contains(k));
                if k != key {
                    let j = shorter.index_of(k);
                    assert(keys[j] == k);
                }
            }
            if k == last {
                assert(result[before.len() as int] == k);
                assert(keys[keys.len() - 1] == k);
            }
            if k == key || (keys.contains(k) && k != last) {
                if k != key {
                    let j = keys.index_of(k);
                    assert(shorter[j] == k);
                }
                assert(before.to_set().contains(k));
                let i = before.index_of(k);
                assert(result[i] == k);
            }
        }
    }
    assert(result.to_set() =~= keys.to_set().insert(key));
}

/// Every finite set of texts can be put in ascending order.
pub proof fn law_sorted_keys(set: Set<Seq<char>>)
    requires
        set.finite(),
    ensures
        ascending(sorted_keys(set)),
        sorted_keys(set).to_set() == set,
        sorted_keys(set).len() == set.len(),
    decreases set.len(),
{
    if set.len() == 0 {
        let none = Seq::<Seq<char>>::empty();
        assert(none.to_set() =~= set);
        assert(ascending(none));
        lemma_sorted_keys(none);
    } else {
        let key = set.choose();
        let rest = set.remove(key);
        law_sorted_keys(rest);
        let keys = sorted_keys(rest);
        assert(!keys.contains(key)) by {
            assert(keys.to_set().contains(key) == keys.contains(key));
        }
        lemma_placed(keys, key);
        assert(rest.insert(key) =~= set);
        lemma_sorted_keys(placed(keys, key));
    }
    lemma_ascending_distinct(sorted_keys(set));
    sorted_keys(set).unique_seq_to_set();
}

/// A map has finitely many keys.
pub proof fn law_map_finite<V>(map: StringMap<V>)
    ensures
        map@.dom().finite(),
{
    let keys = entry_keys(map.entries@);
    vstd::seq_lib::seq_to_set_is_finite(keys);
    assert(map@.dom() =~= keys.to_set());
}

} // verus!
