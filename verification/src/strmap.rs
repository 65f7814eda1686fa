use vstd::prelude::*;
use crate::text::{chars_eq, chars_of};

verus! {

/// A map from strings to values, kept as a list of entries with distinct keys in the
/// order in which the keys were first inserted.
#[derive(Debug)]
pub struct StrMap<V> {
    entries: Vec<(String, V)>,
}

/// The keys of a list of entries, as character sequences.
pub open spec fn entry_keys<V>(es: Seq<(String, V)>) -> Seq<Seq<char>> {
    es.map_values(|e: (String, V)| e.0@)
}

/// No key occurs twice.
pub open spec fn keys_distinct<V>(es: Seq<(String, V)>) -> bool {
    forall|i: int, j: int| 0 <= i < es.len() && 0 <= j < es.len() && i != j ==> es[i].0@ != es[j].0@
}

/// The map that a list of distinct entries stands for.
pub open spec fn entries_map<V>(es: Seq<(String, V)>) -> Map<Seq<char>, V> {
    Map::new(
        |k: Seq<char>| exists|i: int| 0 <= i < es.len() && es[i].0@ == k,
        |k: Seq<char>| es[choose|i: int| 0 <= i < es.len() && es[i].0@ == k].1,
    )
}

impl<V> View for StrMap<V> {
    type V = Map<Seq<char>, V>;

    closed spec fn view(&self) -> Map<Seq<char>, V> {
        entries_map(self.entries@)
    }
}

/// Looking up a key that occurs at position `i` of distinct entries gives the value there.
pub proof fn lemma_entries_map_at<V>(es: Seq<(String, V)>, i: int)
    requires
        keys_distinct(es),
        0 <= i < es.len(),
    ensures
        entries_map(es).contains_key(es[i].0@),
        entries_map(es)[es[i].0@] == es[i].1,
{
    let k = es[i].0@;
    assert(exists|j: int| 0 <= j < es.len() && es[j].0@ == k);
    let c = choose|j: int| 0 <= j < es.len() && es[j].0@ == k;
    assert(c == i);
}

impl<V> StrMap<V> {
    #[verifier::type_invariant]
    spec fn inv(self) -> bool {
        keys_distinct(self.entries@)
    }

    /// The entries, in order of first insertion.
    pub closed spec fn spec_entries(&self) -> Seq<(String, V)> {
        self.entries@
    }

    /// An empty map.
    pub fn new() -> (m: StrMap<V>)
        ensures
            m@ == Map::<Seq<char>, V>::empty(),
            m.spec_entries().len() == 0,
    {
        let m = StrMap { entries: Vec::new() };
        assert(m@ =~= Map::<Seq<char>, V>::empty());
        m
    }

    /// The number of keys. The map is the one its entries stand for.
    pub fn len(&self) -> (n: usize)
        ensures
            n == self@.dom().len(),
            n == self.spec_entries().len(),
            keys_distinct(self.spec_entries()),
            self@ == entries_map(self.spec_entries()),
    {
        proof {
            use_type_invariant(self);
            self.lemma_dom_len();
        }
        self.entries.len()
    }

    /// Whether the map has no key.
    pub fn is_empty(&self) -> (b: bool)
        ensures
            b == (self@.dom().len() == 0),
            b == (self@ == Map::<Seq<char>, V>::empty()),
    {
        proof {
            use_type_invariant(self);
            self.lemma_dom_len();
            if self.entries@.len() > 0 {
                lemma_entries_map_at(self.entries@, 0);
                assert(self@.contains_key(self.entries@[0].0@));
            } else {
                assert(self@ =~= Map::<Seq<char>, V>::empty());
            }
        }
        self.entries.len() == 0
    }

    proof fn lemma_dom_len(&self)
        requires
            keys_distinct(self.entries@),
        ensures
            self@.dom().len() == self.entries@.len(),
            self@.dom().finite(),
    {
        let es = self.entries@;
        let ks = entry_keys(es);
        assert forall|i: int, j: int| 0 <= i < ks.len() && 0 <= j < ks.len() && i != j implies ks[i]
            != ks[j] by {}
        assert(ks.no_duplicates());
        ks.unique_seq_to_set();
        assert(self@.dom() =~= ks.to_set()) by {
            assert forall|k: Seq<char>| self@.dom().contains(k) implies ks.to_set().contains(k) by {
                let i = choose|i: int| 0 <= i < es.len() && es[i].0@ == k;
                assert(ks[i] == k);
            }
            assert forall|k: Seq<char>| ks.to_set().contains(k) implies self@.dom().contains(k) by {
                let i = choose|i: int| 0 <= i < ks.len() && ks[i] == k;
                assert(es[i].0@ == k);
            }
        }
    }

    /// The position of a key among the entries.
    pub fn position(&self, key: &[char]) -> (r: Option<usize>)
        ensures
            r matches Some(i) ==> i < self.spec_entries().len() && self.spec_entries()[i as int].0@
                == key@,
            r is None ==> !self@.contains_key(key@),
            r is Some <==> self@.contains_key(key@),
    {
        proof {
            use_type_invariant(self);
        }
        let mut i: usize = 0;
        while i < self.entries.len()
            invariant
                i <= self.entries@.len(),
                keys_distinct(self.entries@),
                forall|j: int| 0 <= j < i ==> self.entries@[j].0@ != key@,
            decreases self.entries@.len() - i,
        {
            let k = chars_of(self.entries[i].0.as_str());
            if chars_eq(k.as_slice(), key) {
                proof {
                    lemma_entries_map_at(self.entries@, i as int);
                }
                return Some(i);
            }
            i = i + 1;
        }
        None
    }

    /// The value at a key, if any.
    pub fn get(&self, key: &str) -> (r: Option<&V>)
        ensures
            r is Some <==> self@.contains_key(key@),
            r matches Some(v) ==> *v == self@[key@],
    {
        let k = chars_of(key);
        self.get_chars(k.as_slice())
    }

    /// The value at a key given by its characters, if any.
    pub fn get_chars(&self, key: &[char]) -> (r: Option<&V>)
        ensures
            r is Some <==> self@.contains_key(key@),
            r matches Some(v) ==> *v == self@[key@],
    {
        proof {
            use_type_invariant(self);
        }
        match self.position(key) {
            Some(i) => {
                proof {
                    lemma_entries_map_at(self.entries@, i as int);
                }
                Some(&self.entries[i].1)
            },
            None => None,
        }
    }

    /// Whether the map holds a key.
    pub fn contains_key(&self, key: &str) -> (r: bool)
        ensures
            r == self@.contains_key(key@),
    {
        let k = chars_of(key);
        self.position(k.as_slice()).is_some()
    }

    /// The entry at a position.
    pub fn entry_at(&self, i: usize) -> (r: (&String, &V))
        requires
            i < self.spec_entries().len(),
        ensures
            *r.0 == self.spec_entries()[i as int].0,
            *r.1 == self.spec_entries()[i as int].1,
            self@.contains_key(r.0@),
            self@[r.0@] == *r.1,
    {
        proof {
            use_type_invariant(self);
            lemma_entries_map_at(self.entries@, i as int);
        }
        let e = &self.entries[i];
        (&e.0, &e.1)
    }

    /// Sets the value at a key; a new key goes after the others.
    pub fn insert(&mut self, key: String, value: V)
        ensures
            final(self)@ == old(self)@.insert(key@, value),
    {
        proof {
            use_type_invariant(&*self);
        }
        let kc = chars_of(key.as_str());
        let pos = self.position(kc.as_slice());
        let ghost old_es = self.entries@;
        match pos {
            Some(i) => {
                let ghost kk = key@;
                let mut es_vec: Vec<(String, V)> = Vec::new();
                std::mem::swap(&mut es_vec, &mut self.entries);
                es_vec.set(i, (key, value));
                proof {
                    let es = es_vec@;
                    assert(keys_distinct(es)) by {
                        assert forall|a: int, b: int|
                            0 <= a < es.len() && 0 <= b < es.len() && a != b implies es[a].0@
                            != es[b].0@ by {
                            assert(old_es[a].0@ != old_es[b].0@);
                        }
                    }
                    assert(entries_map(es) =~= entries_map(old_es).insert(kk, value)) by {
                        assert forall|k: Seq<char>| #[trigger]
                            entries_map(es).contains_key(k) == entries_map(old_es).insert(
                                kk,
                                value,
                            ).contains_key(k) by {
                            if entries_map(es).contains_key(k) {
                                let j = choose|j: int| 0 <= j < es.len() && es[j].0@ == k;
                                if j != i {
                                    assert(old_es[j].0@ == k);
                                }
                            }
                            if entries_map(old_es).contains_key(k) {
                                let j = choose|j: int| 0 <= j < old_es.len() && old_es[j].0@ == k;
                                if j != i {
                                    assert(es[j].0@ == k);
                                } else {
                                    assert(es[i as int].0@ == k);
                                }
                            }
                        }
                        assert forall|k: Seq<char>| entries_map(es).contains_key(k) implies #[trigger]
                            entries_map(es)[k] == entries_map(old_es).insert(kk, value)[k] by {
                            let j = choose|j: int| 0 <= j < es.len() && es[j].0@ == k;
                            lemma_entries_map_at(es, j);
                            if j != i {
                                lemma_entries_map_at(old_es, j);
                            }
                        }
                    }
                }
                self.entries = es_vec;
            },
            None => {
                let ghost kk = key@;
                let mut es_vec: Vec<(String, V)> = Vec::new();
                std::mem::swap(&mut es_vec, &mut self.entries);
                es_vec.push((key, value));
                proof {
                    let es = es_vec@;
                    assert(keys_distinct(es)) by {
                        assert forall|a: int, b: int|
                            0 <= a < es.len() && 0 <= b < es.len() && a != b implies es[a].0@
                            != es[b].0@ by {
                            if a < old_es.len() && b < old_es.len() {
                                assert(old_es[a].0@ != old_es[b].0@);
                            } else if a < old_es.len() {
                                assert(entries_map(old_es).contains_key(old_es[a].0@));
                            } else {
                                assert(entries_map(old_es).contains_key(old_es[b].0@));
                            }
                        }
                    }
                    assert(entries_map(es) =~= entries_map(old_es).insert(kk, value)) by {
                        assert forall|k: Seq<char>| #[trigger]
                            entries_map(es).contains_key(k) == entries_map(old_es).insert(
                                kk,
                                value,
                            ).contains_key(k) by {
                            if entries_map(es).contains_key(k) {
                                let j = choose|j: int| 0 <= j < es.len() && es[j].0@ == k;
                                if j < old_es.len() {
                                    assert(old_es[j].0@ == k);
                                }
                            }
                            if entries_map(old_es).contains_key(k) {
                                let j = choose|j: int| 0 <= j < old_es.len() && old_es[j].0@ == k;
                                assert(es[j].0@ == k);
                            }
                            if k == kk {
                                assert(es[old_es.len() as int].0@ == k);
                            }
                        }
                        assert forall|k: Seq<char>| entries_map(es).contains_key(k) implies #[trigger]
                            entries_map(es)[k] == entries_map(old_es).insert(kk, value)[k] by {
                            let j = choose|j: int| 0 <= j < es.len() && es[j].0@ == k;
                            lemma_entries_map_at(es, j);
                            if j < old_es.len() {
                                lemma_entries_map_at(old_es, j);
                            }
                        }
                    }
                }
                self.entries = es_vec;
            },
        }
    }

    /// Removes a key, giving back its value.
    pub fn remove(&mut self, key: &[char]) -> (r: Option<V>)
        ensures
            final(self)@ == old(self)@.remove(key@),
            r is Some <==> old(self)@.contains_key(key@),
            r matches Some(v) ==> v == old(self)@[key@],
    {
        proof {
            use_type_invariant(&*self);
        }
        let ghost old_es = self.entries@;
        match self.position(key) {
            Some(i) => {
                proof {
                    lemma_entries_map_at(old_es, i as int);
                }
                let mut es_vec: Vec<(String, V)> = Vec::new();
                std::mem::swap(&mut es_vec, &mut self.entries);
                let e = es_vec.remove(i);
                proof {
                    let es = es_vec@;
                    assert(forall|j: int| 0 <= j < es.len() ==> es[j] == old_es[if j < i { j } else { j + 1 }]);
                    assert(keys_distinct(es)) by {
                        assert forall|a: int, b: int|
                            0 <= a < es.len() && 0 <= b < es.len() && a != b implies es[a].0@
                            != es[b].0@ by {
                            let a2 = if a < i { a } else { a + 1 };
                            let b2 = if b < i { b } else { b + 1 };
                            assert(old_es[a2].0@ != old_es[b2].0@);
                        }
                    }
                    assert(entries_map(es) =~= entries_map(old_es).remove(key@)) by {
                        assert forall|k: Seq<char>| #[trigger]
                            entries_map(es).contains_key(k) == entries_map(old_es).remove(
                                key@,
                            ).contains_key(k) by {
                            if entries_map(es).contains_key(k) {
                                let j = choose|j: int| 0 <= j < es.len() && es[j].0@ == k;
                                let j2 = if j < i { j } else { j + 1 };
                                assert(old_es[j2].0@ == k);
                                assert(j2 != i);
                                assert(old_es[i as int].0@ != k);
                            }
                            if entries_map(old_es).remove(key@).contains_key(k) {
                                let j = choose|j: int| 0 <= j < old_es.len() && old_es[j].0@ == k;
                                assert(j != i);
                                let j3 = if j < i { j } else { j - 1 };
                                assert(es[j3].0@ == k);
                            }
                        }
                        assert forall|k: Seq<char>| entries_map(es).contains_key(k) implies #[trigger]
                            entries_map(es)[k] == entries_map(old_es).remove(key@)[k] by {
                            let j = choose|j: int| 0 <= j < es.len() && es[j].0@ == k;
                            lemma_entries_map_at(es, j);
                            let j2 = if j < i { j } else { j + 1 };
                            lemma_entries_map_at(old_es, j2);
                        }
                    }
                }
                self.entries = es_vec;
                Some(e.1)
            },
            None => {
                assert(old(self)@.remove(key@) =~= old(self)@);
                None
            },
        }
    }

    /// Removes every key.
    pub fn clear(&mut self)
        ensures
            final(self)@ == Map::<Seq<char>, V>::empty(),
            final(self).spec_entries().len() == 0,
    {
        self.entries = Vec::new();
        assert(self@ =~= Map::<Seq<char>, V>::empty());
    }
}

} // verus!
