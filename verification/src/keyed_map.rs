//! Maps that keep the order in which their keys were added.
use std::collections::HashMap;
use vstd::prelude::*;

verus! {

broadcast use vstd::std_specs::hash::group_hash_axioms;

/// A key with a number that stands for it alone.
pub trait MapKey: Copy {
    /// The number that stands for this key.
    spec fn spec_number(self) -> u128;

    /// The number that stands for this key.
    fn number(self) -> (r: u128)
        ensures
            r == self.spec_number(),
    ;

    /// No two keys have the same number.
    proof fn lemma_number_distinct(a: Self, b: Self)
        requires
            a.spec_number() == b.spec_number(),
        ensures
            a == b,
    ;
}

proof fn lemma_numbers_distinct<K: MapKey>()
    ensures
        forall|a: K, b: K|
            #![trigger a.spec_number(), b.spec_number()]
            a.spec_number() == b.spec_number() ==> a == b,
{
    assert forall|a: K, b: K|
        #![trigger a.spec_number(), b.spec_number()]
        a.spec_number() == b.spec_number() implies a == b by {
        K::lemma_number_distinct(a, b);
    }
}

/// A map that keeps the order in which the keys were first added.
pub struct KeyedMap<K: MapKey, V> {
    /// The keys with their values. No key occurs twice.
    entries: Vec<(K, V)>,
    /// Where each key stands in `entries`.
    positions: HashMap<u128, usize>,
}

impl<K: MapKey, V> View for KeyedMap<K, V> {
    type V = Map<K, V>;

    closed spec fn view(&self) -> Map<K, V> {
        Map::new(
            |d: K| self.positions@.contains_key(d.spec_number()),
            |d: K| self.entries@[self.positions@[d.spec_number()] as int].1,
        )
    }
}

impl<K: MapKey, V> KeyedMap<K, V> {
    /// The keys in the order in which they were first added.
    pub closed spec fn keys(&self) -> Seq<K> {
        self.entries@.map_values(|e: (K, V)| e.0)
    }

    #[verifier::type_invariant]
    spec fn indexed(&self) -> bool {
        &&& forall|i: int|
            #![trigger self.entries@[i]]
            0 <= i < self.entries@.len() ==> {
                &&& self.positions@.contains_key(self.entries@[i].0.spec_number())
                &&& self.positions@[self.entries@[i].0.spec_number()] == i
            }
        &&& forall|k: u128| #[trigger]
            self.positions@.contains_key(k) ==> {
                &&& self.positions@[k] < self.entries@.len()
                &&& self.entries@[self.positions@[k] as int].0.spec_number() == k
            }
    }

    /// What the invariant says of the keys.
    proof fn lemma_keys(self)
        requires
            self.indexed(),
        ensures
            self.keys().no_duplicates(),
            forall|d: K| #[trigger] self.keys().contains(d) <==> self@.contains_key(d),
            self@.dom().finite(),
            self@.dom().len() == self.keys().len(),
    {
        lemma_numbers_distinct::<K>();
        assert forall|d: K| #[trigger] self.keys().contains(d) <==> self@.contains_key(d) by {
            if self.keys().contains(d) {
                let i = choose|i: int| 0 <= i < self.keys().len() && self.keys()[i] == d;
                assert(self.entries@[i].0 == d);
            }
            if self@.contains_key(d) {
                let i = self.positions@[d.spec_number()] as int;
                assert(self.entries@[i].0 == d);
                assert(self.keys()[i] == d);
            }
        }
        assert(self.keys().to_set() =~= self@.dom());
        self.keys().unique_seq_to_set();
    }

    /// The empty map.
    pub fn new() -> (r: KeyedMap<K, V>)
        ensures
            r@ == Map::<K, V>::empty(),
            r.keys() == Seq::<K>::empty(),
    {
        let r = KeyedMap { entries: Vec::new(), positions: HashMap::new() };
        assert(r@ =~= Map::<K, V>::empty());
        assert(r.keys() =~= Seq::<K>::empty());
        r
    }

    /// The number of keys.
    pub fn len(&self) -> (r: usize)
        ensures
            r == self.keys().len(),
            self.keys().no_duplicates(),
            forall|d: K| #[trigger] self.keys().contains(d) <==> self@.contains_key(d),
            self@.dom().finite(),
            r == self@.dom().len(),
    {
        proof {
            use_type_invariant(self);
            self.lemma_keys();
        }
        self.entries.len()
    }

    /// The key at position `i`, and its value.
    pub fn entry(&self, i: usize) -> (r: (K, &V))
        requires
            i < self.keys().len(),
        ensures
            r.0 == self.keys()[i as int],
            self@.contains_key(r.0),
            self@[r.0] == *r.1,
    {
        proof {
            use_type_invariant(self);
        }
        let e = &self.entries[i];
        (e.0, &e.1)
    }

    /// Whether `key` is a key.
    pub fn contains_key(&self, key: K) -> (r: bool)
        ensures
            r == self@.contains_key(key),
    {
        self.positions.contains_key(&key.number())
    }

    /// The value of `key`, if it is a key.
    pub fn get(&self, key: K) -> (r: Option<&V>)
        ensures
            match r {
                Some(v) => self@.contains_key(key) && self@[key] == *v,
                None => !self@.contains_key(key),
            },
    {
        proof {
            use_type_invariant(self);
        }
        match self.positions.get(&key.number()) {
            Some(i) => Some(&self.entries[*i].1),
            None => None,
        }
    }

    /// Gives `key` the value `v`, and hands back the value that it had.
    pub fn insert(&mut self, key: K, v: V) -> (r: Option<V>)
        ensures
            r == if old(self)@.contains_key(key) {
                Some(old(self)@[key])
            } else {
                None
            },
            final(self)@ == old(self)@.insert(key, v),
            final(self).keys() == if old(self)@.contains_key(key) {
                old(self).keys()
            } else {
                old(self).keys().push(key)
            },
    {
        let mut whole = KeyedMap::new();
        std::mem::swap(&mut whole, self);
        proof {
            use_type_invariant(&whole);
        }
        let ghost was = whole;
        let KeyedMap { mut entries, mut positions } = whole;
        let k = key.number();
        let ghost value = v;
        let r = match positions.get(&k) {
            Some(i) => {
                let mut e = (key, v);
                std::mem::swap(&mut e, &mut entries[*i]);
                Some(e.1)
            },
            None => {
                positions.insert(k, entries.len());
                entries.push((key, v));
                None
            },
        };
        proof {
            lemma_numbers_distinct::<K>();
            assert forall|i: int| #![trigger entries@[i]] 0 <= i < entries@.len() implies {
                &&& positions@.contains_key(entries@[i].0.spec_number())
                &&& positions@[entries@[i].0.spec_number()] == i
            } by {
                if i < was.entries@.len() {
                    assert(was.positions@.contains_key(was.entries@[i].0.spec_number()));
                }
            }
        }
        *self = KeyedMap { entries, positions };
        assert(self@ =~= was@.insert(key, value));
        assert(self.keys() =~= if was@.contains_key(key) {
            was.keys()
        } else {
            was.keys().push(key)
        });
        r
    }
}

} // verus!
