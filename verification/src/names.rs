//! Sets of names and maps from names, in the order in which the names came.
use vstd::prelude::*;

use crate::order;
use crate::text;

verus! {

broadcast use vstd::string::group_string_axioms;

/// A set of names.
pub struct NameSet {
    pub names: Vec<String>,
}

impl View for NameSet {
    type V = Set<Seq<char>>;

    open spec fn view(&self) -> Set<Seq<char>> {
        text::owned(self.names@).to_set()
    }
}

impl NameSet {
    /// No name occurs twice.
    pub open spec fn wf(self) -> bool {
        text::owned(self.names@).no_duplicates()
    }

    /// The empty set.
    pub fn new() -> (r: NameSet)
        ensures
            r.wf(),
            r@ == Set::<Seq<char>>::empty(),
    {
        let r = NameSet { names: Vec::new() };
        assert(r@ =~= Set::<Seq<char>>::empty());
        r
    }

    /// Whether a name is in the set.
    pub fn contains(&self, name: &str) -> (r: bool)
        ensures
            r == self@.contains(name@),
    {
        let mut i: usize = 0;
        while i < self.names.len()
            invariant
                i <= self.names.len(),
                forall|j: int| 0 <= j < i ==> text::owned(self.names@)[j] != name@,
            decreases self.names.len() - i,
        {
            if text::same(self.names[i].as_str(), name) {
                assert(text::owned(self.names@)[i as int] == name@);
                return true;
            }
            i += 1;
        }
        false
    }

    /// Adds a name.
    pub fn insert(&mut self, name: &str)
        requires
            old(self).wf(),
        ensures
            final(self).wf(),
            final(self)@ == old(self)@.insert(name@),
    {
        if !self.contains(name) {
            let ghost before = text::owned(self.names@);
            self.names.push(name.to_owned());
            let ghost after = text::owned(self.names@);
            assert(after == before.push(name@));
            assert forall|i: int, j: int|
                0 <= i < after.len() && 0 <= j < after.len() && i != j implies after[i]
                != after[j] by {
                if i == before.len() {
                    assert(before.contains(before[j]));
                } else if j == before.len() {
                    assert(before.contains(before[i]));
                }
            }
            assert(after.to_set() =~= before.to_set().insert(name@)) by {
                assert forall|n: Seq<char>| after.contains(n) <==> (before.contains(n) || n
                    == name@) by {
                    if before.contains(n) {
                        let k = choose|k: int| 0 <= k < before.len() && before[k] == n;
                        assert(after[k] == n);
                    }
                    assert(after[before.len() as int] == name@);
                }
            }
        } else {
            assert(self@ =~= self@.insert(name@));
        }
    }

    /// Whether every name of this set is in the other.
    fn within(&self, other: &NameSet) -> (r: bool)
        ensures
            r == self@.subset_of(other@),
    {
        let mut i: usize = 0;
        while i < self.names.len()
            invariant
                i <= self.names.len(),
                forall|j: int| 0 <= j < i ==> other@.contains(#[trigger] text::owned(self.names@)[j]),
            decreases self.names.len() - i,
        {
            if !other.contains(self.names[i].as_str()) {
                assert(self@.contains(text::owned(self.names@)[i as int]));
                return false;
            }
            i += 1;
        }
        true
    }

    /// Whether two sets hold the same names.
    pub fn same_as(&self, other: &NameSet) -> (r: bool)
        ensures
            r == (self@ == other@),
    {
        let r: bool = self.within(other) && other.within(self);
        if r {
            assert(self@ =~= other@);
        }
        r
    }
}

/// A map from names.
pub struct NameMap<V> {
    pub entries: Vec<(String, V)>,
}

impl<V> NameMap<V> {
    /// The names, in the order in which they came.
    pub open spec fn keys(self) -> Seq<Seq<char>> {
        self.entries@.map_values(|e: (String, V)| e.0@)
    }

    /// No name occurs twice.
    pub open spec fn wf(self) -> bool {
        self.keys().no_duplicates()
    }
}

impl<V> View for NameMap<V> {
    type V = Map<Seq<char>, V>;

    open spec fn view(&self) -> Map<Seq<char>, V> {
        Map::new(
            |k: Seq<char>| self.keys().contains(k),
            |k: Seq<char>| self.entries@[self.keys().index_of(k)].1,
        )
    }
}

impl<V> NameMap<V> {
    /// The name at a position leads to the value at that position.
    pub proof fn lemma_entry(self, i: int)
        requires
            self.wf(),
            0 <= i < self.entries@.len(),
        ensures
            self.keys()[i] == self.entries@[i].0@,
            self@.contains_key(self.entries@[i].0@),
            self@[self.entries@[i].0@] == self.entries@[i].1,
    {
        let k = self.entries@[i].0@;
        assert(self.keys()[i] == k);
        assert(self.keys().contains(k));
        assert(self.keys()[self.keys().index_of(k)] == k);
        assert(self.keys().index_of(k) == i);
    }

    /// The empty map.
    pub fn new() -> (r: NameMap<V>)
        ensures
            r.wf(),
            r@ == Map::<Seq<char>, V>::empty(),
    {
        let r = NameMap { entries: Vec::new() };
        assert(r@ =~= Map::<Seq<char>, V>::empty());
        r
    }

    /// The position of a name.
    fn position(&self, name: &str) -> (r: Option<usize>)
        ensures
            match r {
                Some(i) => i < self.entries@.len() && self.keys()[i as int] == name@,
                None => !self.keys().contains(name@),
            },
    {
        let mut i: usize = 0;
        while i < self.entries.len()
            invariant
                i <= self.entries.len(),
                forall|j: int| 0 <= j < i ==> self.keys()[j] != name@,
            decreases self.entries.len() - i,
        {
            if text::same(self.entries[i].0.as_str(), name) {
                return Some(i);
            }
            i += 1;
        }
        None
    }

    /// Whether the map has a name.
    pub fn contains_key(&self, name: &str) -> (r: bool)
        ensures
            r == self@.contains_key(name@),
    {
        match self.position(name) {
            Some(i) => {
                assert(self.keys().contains(self.keys()[i as int]));
                true
            },
            None => false,
        }
    }

    /// The value of a name.
    pub fn get(&self, name: &str) -> (r: Option<&V>)
        requires
            self.wf(),
        ensures
            match r {
                Some(v) => self@.contains_key(name@) && *v == self@[name@],
                None => !self@.contains_key(name@),
            },
    {
        match self.position(name) {
            Some(i) => {
                proof {
                    self.lemma_entry(i as int);
                }
                Some(&self.entries[i].1)
            },
            None => None,
        }
    }

    /// Gives a name a value, in place of the one it had.
    pub fn insert(&mut self, name: &str, value: V)
        requires
            old(self).wf(),
        ensures
            final(self).wf(),
            final(self)@ == old(self)@.insert(name@, value),
    {
        let ghost before = *self;
        match self.position(name) {
            Some(i) => {
                let ghost e = self.entries@;
                self.entries.set(i, (name.to_owned(), value));
                proof {
                    let now = *self;
                    assert(now.keys() =~= before.keys());
                    assert forall|k: Seq<char>| now.keys().contains(k) implies now@[k]
                        == before@.insert(name@, value)[k] by {
                        let j = before.keys().index_of(k);
                        assert(before.keys()[j] == k);
                        now.lemma_entry(j);
                        before.lemma_entry(j);
                        if j == i {
                        } else {
                            assert(k != name@);
                        }
                    }
                    assert(now@ =~= before@.insert(name@, value));
                }
            },
            None => {
                self.entries.push((name.to_owned(), value));
                proof {
                    let now = *self;
                    assert(now.keys() =~= before.keys().push(name@));
                    assert forall|i: int, j: int|
                        0 <= i < now.keys().len() && 0 <= j < now.keys().len() && i
                            != j implies now.keys()[i] != now.keys()[j] by {
                        if i == before.keys().len() {
                            assert(before.keys().contains(before.keys()[j]));
                        } else if j == before.keys().len() {
                            assert(before.keys().contains(before.keys()[i]));
                        }
                    }
                    let last = before.entries@.len() as int;
                    now.lemma_entry(last);
                    assert forall|k: Seq<char>| now.keys().contains(k) <==> (
                    before.keys().contains(k) || k == name@) by {
                        if before.keys().contains(k) {
                            let j = before.keys().index_of(k);
                            assert(now.keys()[j] == k);
                        }
                        assert(now.keys()[last] == name@);
                    }
                    assert forall|k: Seq<char>| now.keys().contains(k) implies now@[k]
                        == before@.insert(name@, value)[k] by {
                        if k != name@ {
                            let j = before.keys().index_of(k);
                            assert(before.keys()[j] == k);
                            before.lemma_entry(j);
                            assert(now.entries@[j] == before.entries@[j]);
                            now.lemma_entry(j);
                        }
                    }
                    assert(now@ =~= before@.insert(name@, value));
                }
            },
        }
    }
}

impl<V> NameMap<V> {
    /// Takes a name and its value out.
    pub fn remove(&mut self, name: &str) -> (r: Option<V>)
        requires
            old(self).wf(),
        ensures
            final(self).wf(),
            final(self)@ == old(self)@.remove(name@),
            match r {
                Some(v) => old(self)@.contains_key(name@) && v == old(self)@[name@],
                None => !old(self)@.contains_key(name@),
            },
    {
        let ghost before = *self;
        match self.position(name) {
            Some(i) => {
                proof {
                    before.lemma_entry(i as int);
                }
                let e = self.entries.remove(i);
                proof {
                    let now = *self;
                    assert(now.keys() =~= before.keys().remove(i as int));
                    assert forall|a: int, b: int|
                        0 <= a < now.keys().len() && 0 <= b < now.keys().len() && a
                            != b implies now.keys()[a] != now.keys()[b] by {
                        let x = if a < i {
                            a
                        } else {
                            a + 1
                        };
                        let y = if b < i {
                            b
                        } else {
                            b + 1
                        };
                        assert(before.keys()[x] != before.keys()[y]);
                    }
                    assert forall|k: Seq<char>| now.keys().contains(k) <==> (
                    before.keys().contains(k) && k != name@) by {
                        if now.keys().contains(k) {
                            let a = now.keys().index_of(k);
                            let x = if a < i {
                                a
                            } else {
                                a + 1
                            };
                            assert(before.keys()[x] == k);
                            assert(before.keys()[i as int] == name@);
                        }
                        if before.keys().contains(k) && k != name@ {
                            let x = before.keys().index_of(k);
                            if x < i {
                                assert(now.keys()[x] == k);
                            } else {
                                assert(now.keys()[x - 1] == k);
                            }
                        }
                    }
                    assert forall|k: Seq<char>| now.keys().contains(k) implies now@[k]
                        == before@[k] by {
                        let a = now.keys().index_of(k);
                        assert(now.keys()[a] == k);
                        let x = if a < i {
                            a
                        } else {
                            a + 1
                        };
                        now.lemma_entry(a);
                        before.lemma_entry(x);
                        assert(now.entries@[a] == before.entries@[x]);
                    }
                    assert(now@ =~= before@.remove(name@));
                }
                Some(e.1)
            },
            None => {
                assert(self@ =~= before@.remove(name@));
                None
            },
        }
    }

    /// The names in ascending order.
    pub fn sorted_keys(&self) -> (r: Vec<String>)
        ensures
            order::ascending(text::owned(r@)),
            text::owned(r@).to_set() == self@.dom(),
    {
        let mut r: Vec<String> = Vec::new();
        let mut i: usize = 0;
        assert(text::owned(r@).to_set() =~= self.keys().take(0).to_set());
        while i < self.entries.len()
            invariant
                i <= self.entries.len(),
                order::ascending(text::owned(r@)),
                text::owned(r@).to_set() == self.keys().take(i as int).to_set(),
            decreases self.entries.len() - i,
        {
            let ghost a = self.keys().take(i as int);
            let ghost b = self.keys().take(i + 1);
            order::insert_ascending(&mut r, self.entries[i].0.as_str());
            proof {
                assert(b =~= a.push(self.keys()[i as int]));
                assert forall|k: Seq<char>| b.contains(k) <==> (a.contains(k) || k
                    == self.keys()[i as int]) by {
                    if a.contains(k) {
                        let x = a.index_of(k);
                        assert(b[x] == k);
                    }
                    assert(b[i as int] == self.keys()[i as int]);
                }
                assert(text::owned(r@).to_set() =~= b.to_set());
            }
            i += 1;
        }
        assert(self.keys().take(self.keys().len() as int) =~= self.keys());
        assert(text::owned(r@).to_set() =~= self@.dom());
        r
    }
}

/// The map holds just these names.
pub open spec fn maps_to(m: Map<i32, String>, v: Map<i32, Seq<char>>) -> bool {
    m.dom() == v.dom() && forall|u: i32| v.contains_key(u) ==> (#[trigger] m[u])@ == v[u]
}

} // verus!
