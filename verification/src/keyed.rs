//! A map keyed by text, kept as a list of entries whose keys are pairwise
//! distinct.  Entries keep the order in which their keys were first added.

use vstd::prelude::*;

verus! {

/// Keys of a list of entries are pairwise distinct.
pub open spec fn keys_distinct<V>(s: Seq<(Seq<char>, V)>) -> bool {
    forall|i: int, j: int| 0 <= i < s.len() && 0 <= j < s.len() && i != j ==> #[trigger] s[i].0 != #[trigger] s[j].0
}

/// Some entry has key `k`.
pub open spec fn has_key<V>(s: Seq<(Seq<char>, V)>, k: Seq<char>) -> bool {
    exists|i: int| 0 <= i < s.len() && #[trigger] s[i].0 == k
}

/// The position of key `k` among entries with distinct keys.
pub open spec fn key_index_of<V>(s: Seq<(Seq<char>, V)>, k: Seq<char>) -> int {
    choose|i: int| 0 <= i < s.len() && #[trigger] s[i].0 == k
}

/// Entries keyed by text, no key twice.
pub struct StrMap<V> {
    entries: Vec<(String, V)>,
}

impl<V> StrMap<V> {
    /// The entries, keys taken as character sequences, in stored order.
    pub closed spec fn pairs(&self) -> Seq<(Seq<char>, V)> {
        self.entries@.map_values(|e: (String, V)| (e.0@, e.1))
    }

    /// The stored entries never repeat a key.
    #[verifier::type_invariant]
    pub open spec fn well_formed(self) -> bool {
        keys_distinct(self.pairs())
    }

    /// An empty map.
    pub fn new() -> (m: Self)
        ensures
            m.pairs() == Seq::<(Seq<char>, V)>::empty(),
    {
        let m = StrMap { entries: Vec::new() };
        assert(m.pairs() =~= Seq::<(Seq<char>, V)>::empty());
        m
    }

    /// Number of entries.
    pub fn len(&self) -> (n: usize)
        ensures
            n == self.pairs().len(),
    {
        self.entries.len()
    }

    /// Whether there is no entry.
    pub fn is_empty(&self) -> (b: bool)
        ensures
            b == (self.pairs().len() == 0),
    {
        self.entries.len() == 0
    }

    /// The key of the entry at position `i`.
    pub fn key_at(&self, i: usize) -> (k: &String)
        requires
            i < self.pairs().len(),
        ensures
            k@ == self.pairs()[i as int].0,
    {
        &self.entries[i].0
    }

    /// The value of the entry at position `i`.
    pub fn value_at(&self, i: usize) -> (v: &V)
        requires
            i < self.pairs().len(),
        ensures
            *v == self.pairs()[i as int].1,
    {
        &self.entries[i].1
    }

    /// The entries, in stored order.
    pub fn into_entries(self) -> (es: Vec<(String, V)>)
        ensures
            es@.map_values(|e: (String, V)| (e.0@, e.1)) == self.pairs(),
    {
        let StrMap { entries } = self;
        entries
    }

    /// The values of the entries, in stored order.
    pub fn into_values(self) -> (vs: Vec<V>)
        ensures
            vs@ == self.pairs().map_values(|e: (Seq<char>, V)| e.1),
    {
        let StrMap { entries } = self;
        let mut es = entries;
        let mut rev: Vec<V> = Vec::new();
        let ghost orig = es@;
        while es.len() > 0
            invariant
                es@ == orig.subrange(0, es@.len() as int),
                es@.len() <= orig.len(),
                rev@ =~= orig.subrange(es@.len() as int, orig.len() as int).reverse().map_values(|e: (String, V)| e.1),
            decreases es@.len(),
        {
            let e = es.pop().unwrap();
            rev.push(e.1);
        }
        let mut vs: Vec<V> = Vec::new();
        while rev.len() > 0
            invariant
                vs@.len() + rev@.len() == orig.len(),
                vs@ =~= orig.subrange(0, vs@.len() as int).map_values(|e: (String, V)| e.1),
                rev@ =~= orig.subrange(vs@.len() as int, orig.len() as int).reverse().map_values(|e: (String, V)| e.1),
            decreases rev@.len(),
        {
            let v = rev.pop().unwrap();
            vs.push(v);
        }
        assert(orig.subrange(0, orig.len() as int) =~= orig);
        vs
    }

    /// Position of the entry with key `k`, if any.
    pub fn position(&self, k: &str) -> (r: Option<usize>)
        ensures
            match r {
                Some(i) => i < self.pairs().len() && self.pairs()[i as int].0 == k@,
                None => !has_key(self.pairs(), k@),
            },
    {
        let mut i: usize = 0;
        while i < self.entries.len()
            invariant
                i <= self.entries@.len(),
                forall|j: int| 0 <= j < i ==> #[trigger] self.pairs()[j].0 != k@,
            decreases self.entries@.len() - i,
        {
            if str_eq(self.entries[i].0.as_str(), k) {
                return Some(i);
            }
            i = i + 1;
        }
        None
    }

    /// Whether some entry has key `k`.
    pub fn contains_key(&self, k: &str) -> (b: bool)
        ensures
            b == has_key(self.pairs(), k@),
    {
        self.position(k).is_some()
    }

    /// The value stored under `k`, if any.
    pub fn get(&self, k: &str) -> (r: Option<&V>)
        ensures
            match r {
                Some(v) => exists|i: int|
                    0 <= i < self.pairs().len() && #[trigger] self.pairs()[i].0 == k@ && self.pairs()[i].1 == *v,
                None => !has_key(self.pairs(), k@),
            },
    {
        match self.position(k) {
            Some(i) => Some(&self.entries[i].1),
            None => None,
        }
    }

    /// Stores `v` under `k`: replaces the value of an existing entry in
    /// place, or appends a new entry.
    pub fn insert(&mut self, k: String, v: V)
        ensures
            match old(self).position_spec(k@) {
                Some(i) => final(self).pairs() == old(self).pairs().update(i, (k@, v)),
                None => final(self).pairs() == old(self).pairs().push((k@, v)),
            },
    {
        proof {
            use_type_invariant(&*self);
        }
        let pos = self.position(k.as_str());
        proof {
            self.lemma_position_spec(k@);
        }
        match pos {
            Some(i) => {
                let ghost k_view = k@;
                let mut es: Vec<(String, V)> = Vec::new();
                std::mem::swap(&mut es, &mut self.entries);
                let _old = es.remove(i);
                es.insert(i, (k, v));
                let ghost np = es@.map_values(|e: (String, V)| (e.0@, e.1));
                assert(np =~= old(self).pairs().update(i as int, (k_view, v)));
                assert(keys_distinct(np)) by {
                    assert forall|a: int, b: int|
                        0 <= a < np.len() && 0 <= b < np.len() && a != b
                        implies #[trigger] np[a].0 != #[trigger] np[b].0 by {
                        if a != i && b != i {
                            assert(np[a].0 == old(self).pairs()[a].0);
                            assert(np[b].0 == old(self).pairs()[b].0);
                        } else if a == i {
                            assert(np[b].0 == old(self).pairs()[b].0);
                        } else {
                            assert(np[a].0 == old(self).pairs()[a].0);
                        }
                    }
                }
                self.entries = es;
            },
            None => {
                let ghost k_view = k@;
                let mut es: Vec<(String, V)> = Vec::new();
                std::mem::swap(&mut es, &mut self.entries);
                es.push((k, v));
                let ghost np = es@.map_values(|e: (String, V)| (e.0@, e.1));
                assert(np =~= old(self).pairs().push((k_view, v)));
                assert forall|a: int, b: int|
                    0 <= a < np.len() && 0 <= b < np.len() && a != b
                    implies #[trigger] np[a].0 != #[trigger] np[b].0 by {
                    if a == old(self).pairs().len() {
                        assert(old(self).pairs()[b].0 == np[b].0);
                    } else if b == old(self).pairs().len() {
                        assert(old(self).pairs()[a].0 == np[a].0);
                    }
                }
                self.entries = es;
            },
        }
    }

    /// Replaces the value of the entry at position `i`, keeping its key and
    /// place, and returns the value it held.
    pub fn replace_at(&mut self, i: usize, v: V) -> (prev: V)
        requires
            i < old(self).pairs().len(),
        ensures
            prev == old(self).pairs()[i as int].1,
            final(self).pairs() == old(self).pairs().update(i as int, (old(self).pairs()[i as int].0, v)),
    {
        proof {
            use_type_invariant(&*self);
        }
        let mut es: Vec<(String, V)> = Vec::new();
        std::mem::swap(&mut es, &mut self.entries);
        let (k, prev) = es.remove(i);
        es.insert(i, (k, v));
        let ghost np = es@.map_values(|e: (String, V)| (e.0@, e.1));
        assert(np =~= old(self).pairs().update(i as int, (old(self).pairs()[i as int].0, v)));
        assert(keys_distinct(np)) by {
            assert forall|a: int, b: int|
                0 <= a < np.len() && 0 <= b < np.len() && a != b
                implies #[trigger] np[a].0 != #[trigger] np[b].0 by {
                assert(np[a].0 == old(self).pairs()[a].0);
                assert(np[b].0 == old(self).pairs()[b].0);
            }
        }
        self.entries = es;
        prev
    }

    /// Removes the entry with key `k` and returns its value, if any.
    pub fn remove(&mut self, k: &str) -> (r: Option<V>)
        ensures
            match old(self).position_spec(k@) {
                Some(i) => r == Some(old(self).pairs()[i].1) && final(self).pairs() == old(self).pairs().remove(i),
                None => r.is_none() && final(self).pairs() == old(self).pairs(),
            },
    {
        proof {
            use_type_invariant(&*self);
        }
        let pos = self.position(k);
        proof {
            self.lemma_position_spec(k@);
        }
        match pos {
            Some(i) => {
                let mut es: Vec<(String, V)> = Vec::new();
                std::mem::swap(&mut es, &mut self.entries);
                let e = es.remove(i);
                let ghost np = es@.map_values(|e: (String, V)| (e.0@, e.1));
                assert(np =~= old(self).pairs().remove(i as int));
                assert(keys_distinct(np)) by {
                    assert forall|a: int, b: int|
                        0 <= a < np.len() && 0 <= b < np.len() && a != b
                        implies #[trigger] np[a].0 != #[trigger] np[b].0 by {
                        let oa = if a < i { a } else { a + 1 };
                        let ob = if b < i { b } else { b + 1 };
                        assert(np[a].0 == old(self).pairs()[oa].0);
                        assert(np[b].0 == old(self).pairs()[ob].0);
                    }
                }
                self.entries = es;
                Some(e.1)
            },
            None => None,
        }
    }

    /// The position of the entry with key `k`, if any.
    pub open spec fn position_spec(&self, k: Seq<char>) -> Option<int> {
        if has_key(self.pairs(), k) {
            Some(choose|i: int| 0 <= i < self.pairs().len() && #[trigger] self.pairs()[i].0 == k)
        } else {
            None
        }
    }

    /// An entry with key `k` sits at the position named by `position_spec`,
    /// and nowhere else.
    pub proof fn lemma_position_spec(&self, k: Seq<char>)
        requires
            keys_distinct(self.pairs()),
        ensures
            match self.position_spec(k) {
                Some(i) => 0 <= i < self.pairs().len() && self.pairs()[i].0 == k
                    && forall|j: int| 0 <= j < self.pairs().len() && #[trigger] self.pairs()[j].0 == k ==> j == i,
                None => forall|j: int| 0 <= j < self.pairs().len() ==> #[trigger] self.pairs()[j].0 != k,
            },
    {
    }
}

/// Text equality (`str == str`).
#[verifier::external_body]
pub(crate) fn str_eq(a: &str, b: &str) -> (r: bool)
    ensures
        r == (a@ == b@),
{
    a == b
}

} // verus!
