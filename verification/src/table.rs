//! Hash tables keyed by words.

use vstd::prelude::*;

verus! {

/// A hash map from words to words: `hashbrown::HashMap<u64, u64>` with its default hasher. The
/// map itself is opaque to proofs; [`word_map_contents`] names what it holds.
#[verifier::external_body]
pub struct WordMap {
    inner: hashbrown::HashMap<u64, u64>,
}

/// What a [`WordMap`] holds.
pub uninterp spec fn word_map_contents(m: WordMap) -> Map<u64, u64>;

impl WordMap {
    /// `hashbrown::HashMap::new`: a map that holds no key.
    #[verifier::external_body]
    fn new() -> (m: WordMap)
        ensures
            forall|k: u64| !word_map_contents(m).dom().contains(k),
    {
        WordMap { inner: hashbrown::HashMap::new() }
    }

    /// `hashbrown::HashMap::insert`: afterwards the key has the value, and the other keys are as
    /// they were.
    #[verifier::external_body]
    fn insert(&mut self, key: u64, value: u64)
        ensures
            word_map_contents(*final(self)) == word_map_contents(*old(self)).insert(key, value),
    {
        self.inner.insert(key, value);
    }

    /// `hashbrown::HashMap::get`: the value of the key, if the map holds the key.
    #[verifier::external_body]
    fn get(&self, key: u64) -> (r: Option<u64>)
        ensures
            r is Some <==> word_map_contents(*self).dom().contains(key),
            r is Some ==> r->0 == word_map_contents(*self)[key],
    {
        self.inner.get(&key).copied()
    }
}

/// A table of values keyed by words, in the order in which the keys first came.
pub struct Table<V> {
    index: WordMap,
    keys: Vec<u64>,
    rows: Vec<V>,
}

impl<V> View for Table<V> {
    type V = Map<u64, V>;

    closed spec fn view(&self) -> Map<u64, V> {
        Map::new(
            |k: u64| word_map_contents(self.index).dom().contains(k),
            |k: u64| self.rows@[word_map_contents(self.index)[k] as int],
        )
    }
}

impl<V> Table<V> {
    /// The index tells where each key stands.
    pub closed spec fn wf(&self) -> bool {
        &&& self.keys@.len() == self.rows@.len()
        &&& forall|k: u64| #[trigger]
            word_map_contents(self.index).dom().contains(k) ==> word_map_contents(self.index)[k]
                < self.keys@.len() && self.keys@[word_map_contents(self.index)[k] as int] == k
        &&& forall|i: int|
            0 <= i < self.keys@.len() ==> word_map_contents(self.index).dom().contains(
                #[trigger] self.keys@[i],
            ) && word_map_contents(self.index)[self.keys@[i]] == i
    }

    /// The keys in the order in which they first came.
    pub closed spec fn order(&self) -> Seq<u64> {
        self.keys@
    }

    pub proof fn lemma_order(&self)
        requires
            self.wf(),
        ensures
            forall|i: int|
                0 <= i < self.order().len() ==> self@.dom().contains(#[trigger] self.order()[i]),
            forall|k: u64| #[trigger] self@.dom().contains(k) ==> self.order().contains(k),
            self.order().no_duplicates(),
    {
        assert forall|k: u64| #[trigger] self@.dom().contains(k) implies self.order().contains(
            k,
        ) by {
            assert(self.keys@[word_map_contents(self.index)[k] as int] == k);
        }
    }

    pub fn new() -> (t: Table<V>)
        ensures
            t.wf(),
            t.order() == Seq::<u64>::empty(),
            forall|k: u64| !#[trigger] t@.dom().contains(k),
    {
        Table { index: WordMap::new(), keys: Vec::new(), rows: Vec::new() }
    }

    pub fn len(&self) -> (n: usize)
        ensures
            n == self.order().len(),
    {
        self.keys.len()
    }

    /// The key that came `i`-th.
    pub fn key(&self, i: usize) -> (k: u64)
        requires
            i < self.order().len(),
        ensures
            k == self.order()[i as int],
    {
        self.keys[i]
    }

    pub fn get(&self, key: u64) -> (r: Option<&V>)
        requires
            self.wf(),
        ensures
            r is Some <==> self@.dom().contains(key),
            r is Some ==> *r->0 == self@[key],
    {
        match self.index.get(key) {
            Some(i) => {
                proof {
                    assert(word_map_contents(self.index).dom().contains(key));
                    assert(i < self.keys.len());
                }
                Some(&self.rows[i as usize])
            },
            None => None,
        }
    }

    /// Give the key the value.
    pub fn insert(&mut self, key: u64, value: V)
        requires
            old(self).wf(),
        ensures
            final(self).wf(),
            final(self)@ == old(self)@.insert(key, value),
            final(self).order() == if old(self)@.dom().contains(key) {
                old(self).order()
            } else {
                old(self).order().push(key)
            },
    {
        let ghost was = word_map_contents(self.index);
        match self.index.get(key) {
            Some(i) => {
                proof {
                    assert(was.dom().contains(key));
                    assert(i < self.keys.len());
                }
                self.rows.set(i as usize, value);
                proof {
                    assert forall|k: u64| k != key && was.dom().contains(k) implies was[k] != i by {
                        assert(self.keys@[was[k] as int] == k);
                    }
                }
                assert(self@ =~= old(self)@.insert(key, value));
            },
            None => {
                let i: usize = self.keys.len();
                self.index.insert(key, i as u64);
                self.keys.push(key);
                self.rows.push(value);
                proof {
                    let now = word_map_contents(self.index);
                    assert forall|k: u64| #[trigger] now.dom().contains(k) implies now[k]
                        < self.keys@.len() && self.keys@[now[k] as int] == k by {
                        if k != key {
                            assert(was.dom().contains(k));
                        }
                    }
                    assert forall|j: int| 0 <= j < self.keys@.len() implies now.dom().contains(
                        #[trigger] self.keys@[j],
                    ) && now[self.keys@[j]] == j by {
                        if j < i {
                            assert(was.dom().contains(old(self).keys@[j]));
                        }
                    }
                    assert forall|k: u64| k != key && was.dom().contains(k) implies
                        self.rows@[now[k] as int] == old(self).rows@[was[k] as int] by {
                        assert(was[k] < i);
                    }
                    assert(self@ =~= old(self)@.insert(key, value));
                }
            },
        }
    }
}

} // verus!
