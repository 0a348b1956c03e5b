//! A map from field names to values.

use vstd::prelude::*;
use vstd::string::*;

use crate::text::{own, text_equal};
use crate::value::{Val, Value};

verus! {

/// Fields by name. No name occurs twice.
#[derive(Debug)]
pub struct FieldMap {
    entries: Vec<(String, Value)>,
}

/// Whether no two entries share a name.
spec fn distinct(s: Seq<(String, Value)>) -> bool {
    forall|i: int, j: int| 0 <= i < j < s.len() ==> #[trigger] s[i].0@ != #[trigger] s[j].0@
}

/// Whether entry `i` has the name `k`.
spec fn at(s: Seq<(String, Value)>, k: Seq<char>, i: int) -> bool {
    0 <= i < s.len() && s[i].0@ == k
}

spec fn map_of(s: Seq<(String, Value)>) -> Map<Seq<char>, Val> {
    Map::new(
        |k: Seq<char>| exists|i: int| at(s, k, i),
        |k: Seq<char>| s[choose|i: int| at(s, k, i)].1@,
    )
}

proof fn lemma_map_of_at(s: Seq<(String, Value)>, i: int)
    requires
        distinct(s),
        0 <= i < s.len(),
    ensures
        map_of(s).contains_key(s[i].0@),
        map_of(s)[s[i].0@] == s[i].1@,
{
    let k = s[i].0@;
    assert(at(s, k, i));
    let j = choose|j: int| at(s, k, j);
    assert(at(s, k, j));
    assert(i == j);
}

proof fn lemma_map_of_push(s: Seq<(String, Value)>, e: (String, Value))
    requires
        distinct(s.push(e)),
    ensures
        map_of(s.push(e)) == map_of(s).insert(e.0@, e.1@),
{
    let t = s.push(e);
    let n = s.len() as int;
    let m = map_of(s).insert(e.0@, e.1@);
    assert(distinct(s)) by {
        assert forall|a: int, b: int| 0 <= a < b < s.len() implies #[trigger] s[a].0@ != #[trigger] s[b].0@ by {
            assert(t[a].0@ != t[b].0@);
        }
    }
    lemma_map_of_at(t, n);
    assert(t[n] == e);
    assert forall|key: Seq<char>| map_of(t).contains_key(key) == m.contains_key(key) by {
        if map_of(t).contains_key(key) && key != e.0@ {
            let a = choose|a: int| at(t, key, a);
            assert(at(s, key, a));
        }
        if map_of(s).contains_key(key) {
            let a = choose|a: int| at(s, key, a);
            assert(at(t, key, a));
        }
    }
    assert forall|key: Seq<char>| map_of(t).contains_key(key) implies map_of(t)[key] == m[key] by {
        let a = choose|a: int| at(t, key, a);
        assert(at(t, key, a));
        lemma_map_of_at(t, a);
        if key != e.0@ {
            assert(at(s, key, a));
            lemma_map_of_at(s, a);
        }
    }
    assert(map_of(t) =~= m);
}

impl View for FieldMap {
    type V = Map<Seq<char>, Val>;

    closed spec fn view(&self) -> Map<Seq<char>, Val> {
        map_of(self.entries@)
    }
}

impl FieldMap {
    #[verifier::type_invariant]
    spec fn inv(self) -> bool {
        distinct(self.entries@)
    }

    /// The map without fields.
    pub fn new() -> (m: Self)
        ensures
            m@ == Map::<Seq<char>, Val>::empty(),
    {
        let m = FieldMap { entries: Vec::new() };
        assert(m@ =~= Map::<Seq<char>, Val>::empty()) by {
            assert(forall|k: Seq<char>, i: int| !at(m.entries@, k, i));
        }
        m
    }

    fn position(&self, name: &str) -> (r: Option<usize>)
        ensures
            match r {
                Some(i) => at(self.entries@, name@, i as int),
                None => forall|i: int| !at(self.entries@, name@, i),
            },
    {
        let mut i: usize = 0;
        while i < self.entries.len()
            invariant
                i <= self.entries.len(),
                forall|j: int| 0 <= j < i ==> !at(self.entries@, name@, j),
            decreases self.entries.len() - i,
        {
            if text_equal(self.entries[i].0.as_str(), name) {
                return Some(i);
            }
            i += 1;
        }
        None
    }

    /// The value of a field.
    pub fn get(&self, name: &str) -> (r: Option<&Value>)
        ensures
            match r {
                Some(v) => self@.contains_key(name@) && self@[name@] == v@,
                None => !self@.contains_key(name@),
            },
    {
        match self.position(name) {
            Some(i) => {
                proof {
                    use_type_invariant(&*self);
                    lemma_map_of_at(self.entries@, i as int);
                }
                Some(&self.entries[i].1)
            },
            None => None,
        }
    }

    /// Whether the map has a field.
    pub fn contains_key(&self, name: &str) -> (r: bool)
        ensures
            r == self@.contains_key(name@),
    {
        self.get(name).is_some()
    }

    /// Sets a field.
    pub fn insert(&mut self, name: String, value: Value)
        ensures
            final(self)@ == old(self)@.insert(name@, value@),
    {
        proof {
            use_type_invariant(&*self);
        }
        let ghost before = self.entries@;
        match self.position(name.as_str()) {
            Some(i) => {
                let mut entries: Vec<(String, Value)> = Vec::new();
                std::mem::swap(&mut entries, &mut self.entries);
                let ghost k = name@;
                let ghost v = value@;
                entries.set(i, (name, value));
                proof {
                    let after = entries@;
                    assert forall|a: int, b: int| 0 <= a < b < after.len() implies #[trigger] after[a].0@
                        != #[trigger] after[b].0@ by {
                        assert(after[a].0@ == before[a].0@);
                        assert(after[b].0@ == before[b].0@);
                    }
                    assert forall|key: Seq<char>, a: int| at(after, key, a) == at(before, key, a) by {}
                    assert(map_of(after) =~= map_of(before).insert(k, v)) by {
                        lemma_map_of_at(after, i as int);
                        assert(at(before, k, i as int));
                        assert forall|key: Seq<char>| map_of(after).contains_key(key) && key != k implies map_of(
                            after,
                        )[key] == map_of(before)[key] by {
                            let a = choose|a: int| at(after, key, a);
                            assert(at(after, key, a));
                            lemma_map_of_at(after, a);
                            assert(at(before, key, a));
                            lemma_map_of_at(before, a);
                            assert(a != i);
                        }
                        assert forall|key: Seq<char>| map_of(before).contains_key(key) implies map_of(
                            after,
                        ).contains_key(key) by {
                            let a = choose|a: int| at(before, key, a);
                            assert(at(after, key, a));
                        }
                        assert forall|key: Seq<char>| map_of(after).contains_key(key) implies map_of(
                            before,
                        ).contains_key(key) by {
                            let a = choose|a: int| at(after, key, a);
                            assert(at(before, key, a));
                        }
                    }
                }
                self.entries = entries;
            },
            None => {
                let mut entries: Vec<(String, Value)> = Vec::new();
                std::mem::swap(&mut entries, &mut self.entries);
                let ghost k = name@;
                entries.push((name, value));
                proof {
                    let after = entries@;
                    let n = before.len() as int;
                    assert forall|a: int, b: int| 0 <= a < b < after.len() implies #[trigger] after[a].0@
                        != #[trigger] after[b].0@ by {
                        if b == n {
                            assert(!at(before, k, a));
                        } else {
                            assert(before[a].0@ != before[b].0@);
                        }
                    }
                    assert(after =~= before.push((name, value)));
                    lemma_map_of_push(before, (name, value));
                }
                self.entries = entries;
            },
        }
    }

    /// The number of fields.
    pub fn len(&self) -> (n: usize)
        ensures
            n == self.keys_seq().len(),
    {
        self.entries.len()
    }

    /// The names, in the order in which they were first set.
    pub closed spec fn keys_seq(&self) -> Seq<Seq<char>> {
        Seq::new(self.entries@.len(), |i: int| self.entries@[i].0@)
    }

    /// The names, each once.
    pub fn keys(&self) -> (r: Vec<String>)
        ensures
            crate::text::views(r@) == self.keys_seq(),
            r@.len() == self.keys_seq().len(),
            self.keys_seq().no_duplicates(),
            forall|k: Seq<char>| self.keys_seq().contains(k) <==> #[trigger] self@.contains_key(k),
    {
        proof {
            use_type_invariant(&*self);
        }
        let mut r: Vec<String> = Vec::new();
        let mut i: usize = 0;
        while i < self.entries.len()
            invariant
                i <= self.entries.len(),
                r@.len() == i,
                forall|j: int| 0 <= j < i ==> #[trigger] r@[j]@ == self.entries@[j].0@,
            decreases self.entries.len() - i,
        {
            r.push(self.entries[i].0.clone());
            i += 1;
        }
        proof {
            assert(crate::text::views(r@) =~= self.keys_seq());
            assert forall|k: Seq<char>| self.keys_seq().contains(k) <==> #[trigger] self@.contains_key(k) by {
                if self.keys_seq().contains(k) {
                    let j = choose|j: int| 0 <= j < self.keys_seq().len() && self.keys_seq()[j] == k;
                    assert(at(self.entries@, k, j));
                }
                if self@.contains_key(k) {
                    let j = choose|j: int| at(self.entries@, k, j);
                    assert(self.keys_seq()[j] == k);
                }
            }
        }
        r
    }
}

impl Clone for FieldMap {
    fn clone(&self) -> (r: Self)
        ensures
            r@ == self@,
            r.keys_seq() == self.keys_seq(),
    {
        proof {
            use_type_invariant(&*self);
        }
        let mut entries: Vec<(String, Value)> = Vec::new();
        let mut i: usize = 0;
        while i < self.entries.len()
            invariant
                i <= self.entries.len(),
                entries@ == self.entries@.subrange(0, i as int),
            decreases self.entries.len() - i,
        {
            entries.push((self.entries[i].0.clone(), self.entries[i].1.clone()));
            proof {
                assert(self.entries@.subrange(0, i as int + 1) =~= self.entries@.subrange(0, i as int).push(
                    self.entries@[i as int],
                ));
            }
            i += 1;
        }
        assert(entries@ =~= self.entries@);
        FieldMap { entries }
    }
}

/// The map with one field.
pub fn single_field(name: &str, value: Value) -> (m: FieldMap)
    ensures
        m@ == Map::<Seq<char>, Val>::empty().insert(name@, value@),
{
    let mut m = FieldMap::new();
    m.insert(own(name), value);
    m
}

} // verus!
