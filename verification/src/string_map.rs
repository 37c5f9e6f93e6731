//! A small map keyed by strings that remembers the order in which its keys
//! first came, so that walking it is repeatable.

use vstd::prelude::*;

verus! {

/// The map that a sequence of key-value pairs stands for; of two pairs with
/// one key, the later one counts.
pub open spec fn map_of<V>(entries: Seq<(Seq<char>, V)>) -> Map<Seq<char>, V>
    decreases entries.len(),
{
    if entries.len() == 0 {
        Map::empty()
    } else {
        map_of(entries.drop_last()).insert(entries.last().0, entries.last().1)
    }
}

/// Whether no key occurs twice.
pub open spec fn keys_distinct<V>(entries: Seq<(Seq<char>, V)>) -> bool {
    forall|i: int, j: int|
        0 <= i < j < entries.len() ==> (#[trigger] entries[i]).0 != (#[trigger] entries[j]).0
}

/// The keys of `map_of` are the keys of the pairs.
pub proof fn lemma_map_of_dom<V>(entries: Seq<(Seq<char>, V)>, key: Seq<char>)
    ensures
        map_of(entries).contains_key(key) <==> exists|i: int|
            0 <= i < entries.len() && (#[trigger] entries[i]).0 == key,
    decreases entries.len(),
{
    if entries.len() > 0 {
        let front = entries.drop_last();
        lemma_map_of_dom(front, key);
        if map_of(entries).contains_key(key) {
            if entries.last().0 == key {
                assert(entries[entries.len() - 1].0 == key);
            } else {
                let i = choose|i: int| 0 <= i < front.len() && (#[trigger] front[i]).0 == key;
                assert(entries[i].0 == key);
            }
        }
        if exists|i: int| 0 <= i < entries.len() && (#[trigger] entries[i]).0 == key {
            let i = choose|i: int| 0 <= i < entries.len() && (#[trigger] entries[i]).0 == key;
            if i < entries.len() - 1 {
                assert(front[i].0 == key);
            }
        }
    }
}

/// Where no key occurs twice, each pair is what the map holds under its key.
pub proof fn lemma_map_of_index<V>(entries: Seq<(Seq<char>, V)>, i: int)
    requires
        keys_distinct(entries),
        0 <= i < entries.len(),
    ensures
        map_of(entries).contains_key(entries[i].0),
        map_of(entries)[entries[i].0] == entries[i].1,
    decreases entries.len(),
{
    let front = entries.drop_last();
    if i < entries.len() - 1 {
        assert(keys_distinct(front)) by {
            assert forall|a: int, b: int| 0 <= a < b < front.len() implies (#[trigger] front[a]).0
                != (#[trigger] front[b]).0 by {
                assert(front[a] == entries[a] && front[b] == entries[b]);
            }
        }
        lemma_map_of_index(front, i);
        assert(front[i] == entries[i]);
        assert(entries[i].0 != entries[entries.len() - 1].0);
    }
}

/// Replacing the value of a pair replaces it in the map.
pub proof fn lemma_map_of_update<V>(entries: Seq<(Seq<char>, V)>, i: int, value: V)
    requires
        keys_distinct(entries),
        0 <= i < entries.len(),
    ensures
        keys_distinct(entries.update(i, (entries[i].0, value))),
        map_of(entries.update(i, (entries[i].0, value))) == map_of(entries).insert(
            entries[i].0,
            value,
        ),
    decreases entries.len(),
{
    let key = entries[i].0;
    let updated = entries.update(i, (key, value));
    assert(keys_distinct(updated)) by {
        assert forall|a: int, b: int| 0 <= a < b < updated.len() implies (#[trigger] updated[a]).0
            != (#[trigger] updated[b]).0 by {
            assert(updated[a].0 == entries[a].0 && updated[b].0 == entries[b].0);
        }
    }
    let front = entries.drop_last();
    if i == entries.len() - 1 {
        assert(updated.drop_last() =~= front);
        assert(map_of(updated) =~= map_of(entries).insert(key, value));
    } else {
        assert(keys_distinct(front)) by {
            assert forall|a: int, b: int| 0 <= a < b < front.len() implies (#[trigger] front[a]).0
                != (#[trigger] front[b]).0 by {
                assert(front[a] == entries[a] && front[b] == entries[b]);
            }
        }
        lemma_map_of_update(front, i, value);
        assert(front[i] == entries[i]);
        assert(updated.drop_last() =~= front.update(i, (key, value)));
        assert(updated.last() == entries.last());
        assert(entries[i].0 != entries[entries.len() - 1].0);
        assert(map_of(updated) =~= map_of(entries).insert(key, value));
    }
}

/// Where `key` stands among the pairs, where it is the key of one.
pub open spec fn index_of_key<V>(entries: Seq<(Seq<char>, V)>, key: Seq<char>) -> int {
    choose|i: int| 0 <= i < entries.len() && (#[trigger] entries[i]).0 == key
}

/// Whether `key` is the key of one of the pairs.
pub open spec fn has_key<V>(entries: Seq<(Seq<char>, V)>, key: Seq<char>) -> bool {
    exists|i: int| 0 <= i < entries.len() && (#[trigger] entries[i]).0 == key
}

/// The pairs with `value` under `key`: in the place of the pair that had the
/// key, or behind all where none had it.
pub open spec fn put<V>(entries: Seq<(Seq<char>, V)>, key: Seq<char>, value: V) -> Seq<
    (Seq<char>, V),
> {
    if has_key(entries, key) {
        entries.update(index_of_key(entries, key), (key, value))
    } else {
        entries.push((key, value))
    }
}

/// The pairs of `base` with each pair of `added` put in, in order.
pub open spec fn put_all<V>(base: Seq<(Seq<char>, V)>, added: Seq<(Seq<char>, V)>) -> Seq<
    (Seq<char>, V),
>
    decreases added.len(),
{
    if added.len() == 0 {
        base
    } else {
        put(put_all(base, added.drop_last()), added.last().0, added.last().1)
    }
}

/// The pairs with `f` applied to each value.
pub open spec fn map_entries<V, W>(entries: Seq<(Seq<char>, V)>, f: spec_fn(V) -> W) -> Seq<
    (Seq<char>, W),
> {
    Seq::new(entries.len(), |i: int| (entries[i].0, f(entries[i].1)))
}

/// Putting a value and then applying `f` is applying `f` and then putting
/// the value that `f` gives.
pub proof fn lemma_put_map_entries<V, W>(
    entries: Seq<(Seq<char>, V)>,
    key: Seq<char>,
    value: V,
    f: spec_fn(V) -> W,
)
    requires
        keys_distinct(entries),
    ensures
        map_entries(put(entries, key, value), f) == put(map_entries(entries, f), key, f(value)),
{
    let mapped = map_entries(entries, f);
    if has_key(entries, key) {
        let i = index_of_key(entries, key);
        assert(mapped[i].0 == key);
        let j = index_of_key(mapped, key);
        assert(entries[j].0 == mapped[j].0);
        if i < j {
            assert(entries[i].0 != entries[j].0);
        } else if j < i {
            assert(entries[j].0 != entries[i].0);
        }
        assert(map_entries(entries.update(i, (key, value)), f) =~= mapped.update(
            i,
            (key, f(value)),
        ));
    } else {
        if has_key(mapped, key) {
            let j = index_of_key(mapped, key);
            assert(entries[j].0 == mapped[j].0);
        }
        assert(map_entries(entries.push((key, value)), f) =~= mapped.push((key, f(value))));
    }
}

/// Pairs with their keys as plain values.
pub open spec fn pairs_view<V>(pairs: Seq<(String, V)>) -> Seq<(Seq<char>, V)> {
    pairs.map_values(|pair: (String, V)| (pair.0@, pair.1))
}

/// A map from strings to `V` that keeps its keys in the order of their first
/// insertion.
pub struct StringMap<V> {
    pairs: Vec<(String, V)>,
}

impl<V> StringMap<V> {
    /// The keys with their values, in the order in which the keys first came.
    pub closed spec fn entries(&self) -> Seq<(Seq<char>, V)> {
        pairs_view(self.pairs@)
    }

    /// Whether the map holds each key once.
    pub open spec fn wf(&self) -> bool {
        keys_distinct(self.entries())
    }

    /// The map as a mathematical map.
    pub open spec fn view(&self) -> Map<Seq<char>, V> {
        map_of(self.entries())
    }

    /// A map that holds nothing.
    pub fn new() -> (map: StringMap<V>)
        ensures
            map.wf(),
            map.entries() == Seq::<(Seq<char>, V)>::empty(),
            map@ == Map::<Seq<char>, V>::empty(),
    {
        let map = StringMap { pairs: Vec::new() };
        assert(map.entries() =~= Seq::<(Seq<char>, V)>::empty());
        map
    }

    /// The number of keys.
    pub fn len(&self) -> (n: usize)
        ensures
            n == self.entries().len(),
    {
        self.pairs.len()
    }

    /// The key that came `i`-th.
    pub fn key(&self, i: usize) -> (k: &String)
        requires
            i < self.entries().len(),
        ensures
            k@ == self.entries()[i as int].0,
    {
        &self.pairs[i].0
    }

    /// The value under the key that came `i`-th.
    pub fn value(&self, i: usize) -> (v: &V)
        requires
            i < self.entries().len(),
        ensures
            *v == self.entries()[i as int].1,
    {
        &self.pairs[i].1
    }

    /// The keys with their values, in the order in which the keys first came.
    pub fn into_pairs(self) -> (pairs: Vec<(String, V)>)
        ensures
            pairs_view(pairs@) == self.entries(),
    {
        self.pairs
    }

    /// Where `key` stands among the keys, if it is one.
    fn position(&self, key: &String) -> (found: Option<usize>)
        ensures
            match found {
                Some(i) => i < self.entries().len() && self.entries()[i as int].0 == key@,
                None => forall|i: int|
                    0 <= i < self.entries().len() ==> (#[trigger] self.entries()[i]).0 != key@,
            },
    {
        let mut i: usize = 0;
        while i < self.pairs.len()
            invariant
                i <= self.pairs@.len(),
                forall|k: int| 0 <= k < i ==> (#[trigger] self.entries()[k]).0 != key@,
            decreases self.pairs@.len() - i,
        {
            if self.pairs[i].0 == *key {
                return Some(i);
            }
            i = i + 1;
        }
        None
    }

    /// The value under `key`, if the map holds the key.
    pub fn get(&self, key: &String) -> (value: Option<&V>)
        requires
            self.wf(),
        ensures
            value is Some == self@.contains_key(key@),
            value matches Some(v) ==> *v == self@[key@],
    {
        proof {
            lemma_map_of_dom(self.entries(), key@);
        }
        match self.position(key) {
            Some(i) => {
                proof {
                    lemma_map_of_index(self.entries(), i as int);
                }
                Some(&self.pairs[i].1)
            },
            None => None,
        }
    }

    /// Whether the map holds `key`.
    pub fn contains_key(&self, key: &String) -> (held: bool)
        requires
            self.wf(),
        ensures
            held == self@.contains_key(key@),
    {
        self.get(key).is_some()
    }

    /// Puts `value` under `key`. A key that the map held keeps its place and
    /// gives up its former value, which is returned; a new key comes last.
    pub fn insert(&mut self, key: String, value: V) -> (former: Option<V>)
        requires
            old(self).wf(),
        ensures
            final(self).wf(),
            final(self)@ == old(self)@.insert(key@, value),
            former is Some == old(self)@.contains_key(key@),
            former matches Some(v) ==> v == old(self)@[key@],
            final(self).entries() == put(old(self).entries(), key@, value),
    {
        proof {
            lemma_map_of_dom(self.entries(), key@);
        }
        let ghost before = self.entries();
        match self.position(&key) {
            Some(i) => {
                proof {
                    lemma_map_of_index(before, i as int);
                    lemma_map_of_update(before, i as int, value);
                }
                self.pairs.push((key, value));
                let former = self.pairs.swap_remove(i);
                assert(self.entries() =~= before.update(i as int, (key@, value)));
                proof {
                    assert(before[i as int].0 == key@);
                    let chosen = index_of_key(before, key@);
                    if chosen < i {
                        assert(before[chosen].0 != before[i as int].0);
                    } else if chosen > i {
                        assert(before[i as int].0 != before[chosen].0);
                    }
                }
                Some(former.1)
            },
            None => {
                self.pairs.push((key, value));
                assert(self.entries() =~= before.push((key@, value)));
                assert(self.entries().drop_last() =~= before);
                assert forall|a: int, b: int| 0 <= a < b < self.entries().len() implies (
                #[trigger] self.entries()[a]).0 != (#[trigger] self.entries()[b]).0 by {
                    assert(before[a] == self.entries()[a]);
                    if b < before.len() {
                        assert(before[b] == self.entries()[b]);
                    }
                }
                None
            },
        }
    }
}

} // verus!
