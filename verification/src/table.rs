//! A map from text keys that remembers the order in which keys came in.
use vstd::hash_map::StringHashMap;
use vstd::prelude::*;

use crate::text::same_text;

verus! {

/// One key with its value.
pub struct Entry<V> {
    key: String,
    value: V,
}

/// A map keyed by text. Keys are walked in the order of their insertion.
#[verifier::reject_recursive_types(V)]
pub struct Table<V: View> {
    entries: Vec<Entry<V>>,
    index: StringHashMap<usize>,
}

/// Every key but one.
pub open spec fn other_than(key: Seq<char>) -> spec_fn(Seq<char>) -> bool {
    |k: Seq<char>| k != key
}

/// The keys of `entries`, in order.
spec fn keys_of<V>(entries: Seq<Entry<V>>) -> Seq<Seq<char>> {
    Seq::new(entries.len(), |i: int| entries[i].key@)
}

/// The contents of `entries` as a map, for distinct keys.
spec fn map_of<V: View>(entries: Seq<Entry<V>>) -> Map<Seq<char>, V::V> {
    Map::new(
        |k: Seq<char>| keys_of(entries).contains(k),
        |k: Seq<char>| entries[keys_of(entries).index_of(k)].value@,
    )
}

/// `index` leads every key to its place in `entries`.
spec fn indexed<V>(entries: Seq<Entry<V>>, index: Map<Seq<char>, usize>) -> bool {
    &&& forall|i: int|
        0 <= i < entries.len() ==> #[trigger] index.contains_key(entries[i].key@)
            && index[entries[i].key@] == i
    &&& forall|k: Seq<char>| #[trigger]
        index.contains_key(k) ==> (index[k] as int) < entries.len()
            && entries[index[k] as int].key@ == k
}

proof fn lemma_indexed<V: View>(entries: Seq<Entry<V>>, index: Map<Seq<char>, usize>)
    requires
        indexed(entries, index),
    ensures
        keys_of(entries).no_duplicates(),
        forall|k: Seq<char>| #[trigger] index.contains_key(k) <==> keys_of(entries).contains(k),
        forall|k: Seq<char>| #[trigger]
            index.contains_key(k) ==> keys_of(entries).index_of(k) == index[k],
        forall|k: Seq<char>| #[trigger] map_of(entries).contains_key(k) <==> index.contains_key(k),
        forall|k: Seq<char>| #[trigger]
            index.contains_key(k) ==> map_of(entries)[k] == entries[index[k] as int].value@,
        forall|i: int|
            0 <= i < entries.len() ==> map_of(entries)[#[trigger] keys_of(entries)[i]]
                == entries[i].value@,
{
    let keys = keys_of(entries);
    assert forall|i: int, j: int| 0 <= i < keys.len() && 0 <= j < keys.len() && i != j implies keys[i]
        != keys[j] by {
        assert(index.contains_key(entries[i].key@));
        assert(index.contains_key(entries[j].key@));
    }
    assert forall|k: Seq<char>| #[trigger] index.contains_key(k) implies keys.contains(k)
        && keys.index_of(k) == index[k] by {
        assert(keys[index[k] as int] == k);
        let w = keys.index_of(k);
        assert(keys[w] == k);
    }
    assert forall|k: Seq<char>| keys.contains(k) implies #[trigger] index.contains_key(k) by {
        let w = keys.index_of(k);
        assert(index.contains_key(entries[w].key@));
    }
    assert forall|i: int| 0 <= i < entries.len() implies map_of(entries)[#[trigger] keys[i]]
        == entries[i].value@ by {
        assert(index.contains_key(entries[i].key@));
    }
}

/// A new key may be added at the end.
proof fn lemma_indexed_push<V>(
    before: Seq<Entry<V>>,
    after: Seq<Entry<V>>,
    index: Map<Seq<char>, usize>,
    new_index: Map<Seq<char>, usize>,
    key: Seq<char>,
)
    requires
        indexed(before, index),
        !index.contains_key(key),
        before.len() <= usize::MAX,
        after.len() == before.len() + 1,
        forall|i: int| 0 <= i < before.len() ==> after[i] == before[i],
        after.last().key@ == key,
        new_index == index.insert(key, before.len() as usize),
    ensures
        indexed(after, new_index),
{
    assert forall|i: int| 0 <= i < after.len() implies #[trigger] new_index.contains_key(
        after[i].key@,
    ) && new_index[after[i].key@] == i by {
        if i < before.len() {
            assert(index.contains_key(before[i].key@));
        }
    }
    assert forall|k: Seq<char>| #[trigger] new_index.contains_key(k) implies (new_index[k] as int)
        < after.len() && after[new_index[k] as int].key@ == k by {
        if k != key {
            assert(index.contains_key(k));
        }
    }
}

impl<V: View> View for Table<V> {
    type V = Map<Seq<char>, V::V>;

    closed spec fn view(&self) -> Map<Seq<char>, V::V> {
        map_of(self.entries@)
    }
}

impl<V: View> Table<V> {
    /// The keys in the order in which they are walked.
    pub closed spec fn keys(&self) -> Seq<Seq<char>> {
        keys_of(self.entries@)
    }

    #[verifier::type_invariant]
    spec fn inv(self) -> bool {
        indexed(self.entries@, self.index@)
    }

    /// The keys are distinct and they are the domain of the map.
    pub open spec fn coherent(&self) -> bool {
        &&& self.keys().no_duplicates()
        &&& forall|k: Seq<char>| #[trigger] self@.contains_key(k) <==> self.keys().contains(k)
    }

    pub fn new() -> (t: Self)
        ensures
            t@ == Map::<Seq<char>, V::V>::empty(),
            t.keys() == Seq::<Seq<char>>::empty(),
    {
        let t = Table { entries: Vec::new(), index: StringHashMap::new() };
        proof {
            lemma_indexed(t.entries@, t.index@);
            assert(t@ =~= Map::<Seq<char>, V::V>::empty());
            assert(t.keys() =~= Seq::<Seq<char>>::empty());
        }
        t
    }

    /// Recalls, for a proof, that the table is coherent.
    pub fn recall_coherent(&self)
        ensures
            self.coherent(),
    {
        proof {
            use_type_invariant(self);
            lemma_indexed(self.entries@, self.index@);
        }
    }

    pub fn len(&self) -> (n: usize)
        ensures
            n == self.keys().len(),
            self.coherent(),
    {
        proof {
            use_type_invariant(self);
            lemma_indexed(self.entries@, self.index@);
        }
        self.entries.len()
    }

    pub fn key_at(&self, i: usize) -> (k: &String)
        requires
            i < self.keys().len(),
        ensures
            k@ == self.keys()[i as int],
            self@.contains_key(k@),
            self.coherent(),
    {
        proof {
            use_type_invariant(self);
            lemma_indexed(self.entries@, self.index@);
            assert(self.index@.contains_key(self.entries@[i as int].key@));
        }
        &self.entries[i].key
    }

    pub fn value_at(&self, i: usize) -> (v: &V)
        requires
            i < self.keys().len(),
        ensures
            v@ == self@[self.keys()[i as int]],
            self@.contains_key(self.keys()[i as int]),
            self.coherent(),
    {
        proof {
            use_type_invariant(self);
            lemma_indexed(self.entries@, self.index@);
            assert(self.index@.contains_key(self.entries@[i as int].key@));
            assert(self.keys()[i as int] == self.entries@[i as int].key@);
        }
        &self.entries[i].value
    }

    /// The place of `key` among the keys.
    pub fn position(&self, key: &str) -> (r: Option<usize>)
        ensures
            self.coherent(),
            match r {
                Some(i) => i < self.keys().len() && self.keys()[i as int] == key@
                    && self@.contains_key(key@),
                None => !self@.contains_key(key@),
            },
    {
        proof {
            use_type_invariant(self);
            lemma_indexed(self.entries@, self.index@);
        }
        match self.index.get(key) {
            Some(i) => Some(*i),
            None => None,
        }
    }

    pub fn contains_key(&self, key: &str) -> (r: bool)
        ensures
            r == self@.contains_key(key@),
            self.coherent(),
    {
        proof {
            use_type_invariant(self);
            lemma_indexed(self.entries@, self.index@);
        }
        self.index.contains_key(key)
    }

    pub fn get(&self, key: &str) -> (r: Option<&V>)
        ensures
            self.coherent(),
            match r {
                Some(v) => self@.contains_key(key@) && v@ == self@[key@],
                None => !self@.contains_key(key@),
            },
    {
        proof {
            use_type_invariant(self);
            lemma_indexed(self.entries@, self.index@);
        }
        match self.index.get(key) {
            Some(i) => Some(&self.entries[*i].value),
            None => None,
        }
    }

    /// Sets the value of `key`; a new key goes to the end.
    pub fn insert(&mut self, key: String, value: V)
        ensures
            final(self)@ == old(self)@.insert(key@, value@),
            final(self).keys() == (if old(self)@.contains_key(key@) {
                old(self).keys()
            } else {
                old(self).keys().push(key@)
            }),
            final(self).coherent(),
            old(self).coherent(),
    {
        let mut whole: Table<V> = Table::new();
        std::mem::swap(self, &mut whole);
        proof {
            use_type_invariant(&whole);
            lemma_indexed(whole.entries@, whole.index@);
        }
        let ghost before = whole.entries@;
        let ghost before_index = whole.index@;
        let Table { mut entries, mut index } = whole;
        match index.get(key.as_str()) {
            Some(i) => {
                let at: usize = *i;
                entries.set(at, Entry { key, value });
            },
            None => {
                let at: usize = entries.len();
                index.insert(key.clone(), at);
                entries.push(Entry { key, value });
            },
        }
        proof {
            if keys_of(before).contains(key@) {
                assert forall|i: int| 0 <= i < entries@.len() implies entries@[i].key@
                    == before[i].key@ by {}
                assert(indexed(entries@, index@));
            } else {
                lemma_indexed_push(before, entries@, before_index, index@, key@);
            }
            lemma_indexed(entries@, index@);
            if keys_of(before).contains(key@) {
                assert(keys_of(entries@) =~= keys_of(before));
            } else {
                assert(keys_of(entries@) =~= keys_of(before).push(key@));
            }
            assert(map_of(entries@) =~= map_of(before).insert(key@, value@)) by {
                assert forall|k: Seq<char>| #[trigger] map_of(entries@).contains_key(k) <==> map_of(
                    before,
                ).insert(key@, value@).contains_key(k) by {
                    if map_of(before).contains_key(k) {
                        let w = keys_of(before).index_of(k);
                        assert(keys_of(entries@)[w] == k);
                    }
                }
            }
        }
        *self = Table { entries, index };
    }

    /// Replaces the value at place `i`.
    pub fn set_at(&mut self, i: usize, value: V)
        requires
            i < old(self).keys().len(),
        ensures
            final(self)@ == old(self)@.insert(old(self).keys()[i as int], value@),
            final(self).keys() == old(self).keys(),
            old(self)@.contains_key(old(self).keys()[i as int]),
            final(self).coherent(),
            old(self).coherent(),
    {
        let key = self.key_at(i).clone();
        self.insert(key, value);
    }

    /// Keeps the entries whose flag in `keep` is set, in their order.
    pub(crate) fn retain(&mut self, keep: &Vec<bool>, pred: Ghost<spec_fn(Seq<char>) -> bool>)
        requires
            keep.len() == old(self).keys().len(),
            forall|i: int| 0 <= i < keep.len() ==> keep[i] == #[trigger] pred@(old(self).keys()[i]),
        ensures
            final(self)@ == old(self)@.filter_keys(pred@),
            final(self).keys() == old(self).keys().filter(pred@),
            final(self).coherent(),
            old(self).coherent(),
    {
        let mut whole: Table<V> = Table::new();
        std::mem::swap(self, &mut whole);
        proof {
            use_type_invariant(&whole);
            lemma_indexed(whole.entries@, whole.index@);
        }
        let ghost before = whole.entries@;
        let ghost keys = keys_of(before);
        let ghost contents = map_of(before);
        let Table { mut entries, index } = whole;
        let n: usize = entries.len();
        let mut reversed: Vec<Entry<V>> = Vec::new();
        while entries.len() > 0
            invariant
                n == before.len(),
                entries.len() + reversed.len() == n,
                forall|j: int| 0 <= j < entries.len() ==> entries@[j] == before[j],
                forall|j: int| 0 <= j < reversed.len() ==> reversed@[j] == before[n - 1 - j],
            decreases entries.len(),
        {
            match entries.pop() {
                Some(e) => {
                    reversed.push(e);
                },
                None => {},
            }
        }
        let mut kept: Table<V> = Table::new();
        let mut i: usize = 0;
        proof {
            assert(keys.take(0).filter(pred@) =~= Seq::<Seq<char>>::empty());
        }
        while i < n
            invariant
                n == before.len(),
                n == keep.len(),
                i <= n,
                reversed.len() == n - i,
                keys == keys_of(before),
                keys.no_duplicates(),
                contents == map_of(before),
                forall|j: int| 0 <= j < n ==> contents[#[trigger] keys[j]] == before[j].value@,
                forall|j: int| 0 <= j < n ==> keep[j] == #[trigger] pred@(keys[j]),
                forall|j: int| 0 <= j < reversed.len() ==> reversed@[j] == before[n - 1 - j],
                kept.keys() == keys.take(i as int).filter(pred@),
                forall|k: Seq<char>| #[trigger]
                    kept@.contains_key(k) <==> keys.take(i as int).contains(k) && pred@(k),
                forall|k: Seq<char>| #[trigger] kept@.contains_key(k) ==> kept@[k] == contents[k],
            decreases n - i,
        {
            proof {
                reveal(Seq::filter);
                assert(keys.take(i + 1).drop_last() =~= keys.take(i as int));
                assert(keys.take(i + 1).last() == keys[i as int]);
                assert(!keys.take(i as int).contains(keys[i as int]));
                assert(keys[i as int] == before[i as int].key@);
                assert forall|k: Seq<char>| keys.take(i + 1).contains(k) <==> (keys.take(
                    i as int,
                ).contains(k) || k == keys[i as int]) by {
                    if keys.take(i as int).contains(k) {
                        let w = keys.take(i as int).index_of(k);
                        assert(keys.take(i + 1)[w] == k);
                    }
                    if k == keys[i as int] {
                        assert(keys.take(i + 1)[i as int] == k);
                    }
                    if keys.take(i + 1).contains(k) {
                        let w = keys.take(i + 1).index_of(k);
                        if w < i {
                            assert(keys.take(i as int)[w] == k);
                        }
                    }
                }
            }
            match reversed.pop() {
                Some(e) => {
                    if keep[i] {
                        let Entry { key, value } = e;
                        kept.insert(key, value);
                    }
                },
                None => {},
            }
            i += 1;
        }
        proof {
            assert(keys.take(n as int) =~= keys);
            assert(kept@ =~= contents.filter_keys(pred@));
            use_type_invariant(&kept);
            lemma_indexed(kept.entries@, kept.index@);
        }
        *self = kept;
    }

    /// Takes `key` out; the order of the other keys stays.
    pub fn remove(&mut self, key: &str)
        ensures
            final(self)@ == old(self)@.remove(key@),
            final(self).keys() == old(self).keys().filter(other_than(key@)),
            final(self).coherent(),
            old(self).coherent(),
    {
        let n: usize = self.len();
        let mut keep: Vec<bool> = Vec::new();
        let mut i: usize = 0;
        let ghost pred = other_than(key@);
        while i < n
            invariant
                n == self.keys().len(),
                i <= n,
                keep.len() == i,
                *self == *old(self),
                pred == other_than(key@),
                forall|j: int| 0 <= j < i ==> keep[j] == #[trigger] pred(self.keys()[j]),
            decreases n - i,
        {
            keep.push(!same_text(self.key_at(i).as_str(), key));
            i += 1;
        }
        self.retain(&keep, Ghost(pred));
        proof {
            assert(old(self)@.filter_keys(pred) =~= old(self)@.remove(key@));
        }
    }
}

} // verus!
