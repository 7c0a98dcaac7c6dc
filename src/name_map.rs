//! A map from names to values, kept as a list of entries with distinct names.

use vstd::prelude::*;

verus! {

/// A map keyed by name. Entries keep the order in which their names were
/// first inserted.
pub struct NameMap<V: View> {
    entries: Vec<(String, V)>,
    contents: Ghost<Map<Seq<char>, V::V>>,
}

impl<V: View> NameMap<V> {
    /// The map's contents.
    pub closed spec fn view(&self) -> Map<Seq<char>, V::V> {
        self.contents@
    }

    /// The names of the entries, in order.
    pub closed spec fn names_seq(&self) -> Seq<Seq<char>> {
        self.entries@.map_values(|e: (String, V)| e.0@)
    }

    /// The entries agree with the contents, and their names are distinct.
    pub closed spec fn wf(&self) -> bool {
        &&& forall|i: int| 0 <= i < self.entries@.len() ==>
            self.contents@.contains_key(#[trigger] self.entries@[i].0@)
                && self.contents@[self.entries@[i].0@] == self.entries@[i].1@
        &&& forall|k: Seq<char>| #[trigger] self.contents@.contains_key(k) ==>
            exists|i: int| 0 <= i < self.entries@.len() && #[trigger] self.entries@[i].0@ == k
        &&& forall|i: int, j: int| 0 <= i < self.entries@.len() && 0 <= j < self.entries@.len()
            && #[trigger] self.entries@[i].0@ == #[trigger] self.entries@[j].0@ ==> i == j
    }

    pub proof fn lemma_names(&self)
        requires
            self.wf(),
        ensures
            forall|k: Seq<char>| #![trigger self@.contains_key(k)] #![trigger self.names_seq().contains(k)]
                self@.contains_key(k) <==> self.names_seq().contains(k),
            self.names_seq().no_duplicates(),
    {
        assert forall|k: Seq<char>| #![trigger self@.contains_key(k)] #![trigger self.names_seq().contains(k)]
            self@.contains_key(k) <==> self.names_seq().contains(k) by {
            if self@.contains_key(k) {
                let i = choose|i: int| 0 <= i < self.entries@.len() && #[trigger] self.entries@[i].0@ == k;
                assert(self.names_seq()[i] == k);
            }
            if self.names_seq().contains(k) {
                let i = choose|i: int| 0 <= i < self.names_seq().len() && self.names_seq()[i] == k;
                assert(self.entries@[i].0@ == k);
            }
        }
        assert forall|i: int, j: int| 0 <= i < self.names_seq().len() && 0 <= j < self.names_seq().len() && i != j
            implies self.names_seq()[i] != self.names_seq()[j] by {
            assert(self.names_seq()[i] == self.entries@[i].0@);
            assert(self.names_seq()[j] == self.entries@[j].0@);
        }
    }

    /// Every value of an entry is the value of an entry of `prev`, or `extra`.
    pub closed spec fn values_from(&self, prev: &Self, extra: Option<V>) -> bool {
        forall|i: int| 0 <= i < self.entries@.len() ==>
            extra == Some((#[trigger] self.entries@[i]).1)
            || exists|j: int| 0 <= j < prev.entries@.len() && prev.entries@[j].1 == self.entries@[i].1
    }

    /// An empty map.
    pub fn new() -> (r: NameMap<V>)
        ensures
            r.wf(),
            r@ == Map::<Seq<char>, V::V>::empty(),
    {
        NameMap { entries: Vec::new(), contents: Ghost(Map::empty()) }
    }

    /// The number of entries.
    pub fn len(&self) -> (r: usize)
        requires
            self.wf(),
        ensures
            r == self.names_seq().len(),
    {
        self.entries.len()
    }

    /// The name of the `i`-th entry.
    pub fn name_at(&self, i: usize) -> (r: &String)
        requires
            self.wf(),
            i < self.names_seq().len(),
        ensures
            r@ == self.names_seq()[i as int],
    {
        &self.entries[i].0
    }

    /// The names of the entries, in order.
    pub fn names(&self) -> (r: Vec<String>)
        requires
            self.wf(),
        ensures
            r@.len() == self.names_seq().len(),
            forall|i: int| 0 <= i < r@.len() ==> #[trigger] r@[i]@ == self.names_seq()[i],
    {
        let mut r: Vec<String> = Vec::new();
        let mut i: usize = 0;
        while i < self.entries.len()
            invariant
                self.wf(),
                i <= self.entries@.len(),
                r@.len() == i,
                forall|j: int| 0 <= j < i ==> #[trigger] r@[j]@ == self.names_seq()[j],
            decreases self.entries@.len() - i,
        {
            r.push(self.entries[i].0.clone());
            i = i + 1;
        }
        r
    }

    /// The value of the `i`-th entry.
    pub fn value_at(&self, i: usize) -> (r: &V)
        requires
            self.wf(),
            i < self.names_seq().len(),
        ensures
            self@.contains_key(self.names_seq()[i as int]),
            r@ == self@[self.names_seq()[i as int]],
    {
        &self.entries[i].1
    }

    fn find(&self, name: &String) -> (r: Option<usize>)
        requires
            self.wf(),
        ensures
            match r {
                Some(i) => i < self.entries@.len() && self.entries@[i as int].0@ == name@,
                None => !self@.contains_key(name@),
            },
    {
        let mut i: usize = 0;
        while i < self.entries.len()
            invariant
                self.wf(),
                i <= self.entries@.len(),
                forall|j: int| 0 <= j < i ==> #[trigger] self.entries@[j].0@ != name@,
            decreases self.entries@.len() - i,
        {
            if self.entries[i].0 == *name {
                return Some(i);
            }
            i = i + 1;
        }
        None
    }

    /// The value stored under the name, if any.
    pub fn get(&self, name: &str) -> (r: Option<&V>)
        requires
            self.wf(),
        ensures
            match r {
                Some(v) => self@.contains_key(name@) && v@ == self@[name@],
                None => !self@.contains_key(name@),
            },
    {
        let key = name.to_owned();
        match self.find(&key) {
            Some(i) => Some(&self.entries[i].1),
            None => None,
        }
    }

    /// Stores the value under the name, replacing what was there.
    pub fn insert(&mut self, name: String, value: V)
        requires
            old(self).wf(),
        ensures
            final(self).wf(),
            final(self)@ == old(self)@.insert(name@, value@),
            final(self).values_from(old(self), Some(value)),
    {
        let ghost k = name@;
        let ghost val = value;
        let ghost m = self.contents@.insert(k, value@);
        match self.find(&name) {
            Some(i) => {
                self.entries.set(i, (name, value));
                self.contents = Ghost(m);
                assert forall|j: int| 0 <= j < self.entries@.len() implies
                    Some(val) == Some((#[trigger] self.entries@[j]).1)
                    || exists|j2: int| 0 <= j2 < old(self).entries@.len() && old(self).entries@[j2].1 == self.entries@[j].1 by {
                    if j != i {
                        assert(old(self).entries@[j].1 == self.entries@[j].1);
                    }
                }
                assert forall|k2: Seq<char>| #[trigger] self.contents@.contains_key(k2) implies
                    exists|j: int| 0 <= j < self.entries@.len() && #[trigger] self.entries@[j].0@ == k2 by {
                    if k2 != k {
                        let j = choose|j: int| 0 <= j < old(self).entries@.len() && #[trigger] old(self).entries@[j].0@ == k2;
                        assert(self.entries@[j].0@ == k2);
                    } else {
                        assert(self.entries@[i as int].0@ == k2);
                    }
                }
            },
            None => {
                self.entries.push((name, value));
                self.contents = Ghost(m);
                assert forall|j: int| 0 <= j < self.entries@.len() implies
                    Some(val) == Some((#[trigger] self.entries@[j]).1)
                    || exists|j2: int| 0 <= j2 < old(self).entries@.len() && old(self).entries@[j2].1 == self.entries@[j].1 by {
                    if j < old(self).entries@.len() {
                        assert(old(self).entries@[j].1 == self.entries@[j].1);
                    }
                }
                assert forall|k2: Seq<char>| #[trigger] self.contents@.contains_key(k2) implies
                    exists|j: int| 0 <= j < self.entries@.len() && #[trigger] self.entries@[j].0@ == k2 by {
                    if k2 != k {
                        let j = choose|j: int| 0 <= j < old(self).entries@.len() && #[trigger] old(self).entries@[j].0@ == k2;
                        assert(self.entries@[j].0@ == k2);
                    } else {
                        assert(self.entries@[old(self).entries@.len() as int].0@ == k2);
                    }
                }
            },
        }
    }

    /// Removes the entry of the name, if there is one.
    pub fn remove(&mut self, name: &str)
        requires
            old(self).wf(),
        ensures
            final(self).wf(),
            final(self)@ == old(self)@.remove(name@),
            final(self).values_from(old(self), None),
    {
        let key = name.to_owned();
        match self.find(&key) {
            Some(i) => {
                let ghost m = self.contents@.remove(key@);
                let ghost e0 = self.entries@;
                self.entries.remove(i);
                self.contents = Ghost(m);
                assert forall|j: int| 0 <= j < self.entries@.len() implies
                    self.contents@.contains_key(#[trigger] self.entries@[j].0@)
                        && self.contents@[self.entries@[j].0@] == self.entries@[j].1@ by {
                    if j < i {
                        assert(self.entries@[j] == e0[j]);
                    } else {
                        assert(self.entries@[j] == e0[j + 1]);
                    }
                }
                assert forall|j: int| 0 <= j < self.entries@.len() implies
                    None::<V> == Some((#[trigger] self.entries@[j]).1)
                    || exists|j2: int| 0 <= j2 < e0.len() && e0[j2].1 == self.entries@[j].1 by {
                    if j < i {
                        assert(self.entries@[j] == e0[j]);
                    } else {
                        assert(self.entries@[j] == e0[j + 1]);
                    }
                }
                assert forall|k2: Seq<char>| #[trigger] self.contents@.contains_key(k2) implies
                    exists|j: int| 0 <= j < self.entries@.len() && #[trigger] self.entries@[j].0@ == k2 by {
                    let j = choose|j: int| 0 <= j < e0.len() && #[trigger] e0[j].0@ == k2;
                    if j < i {
                        assert(self.entries@[j] == e0[j]);
                    } else {
                        assert(j != i);
                        assert(self.entries@[j - 1] == e0[j]);
                    }
                }
                assert forall|a: int, b: int| 0 <= a < self.entries@.len() && 0 <= b < self.entries@.len()
                    && #[trigger] self.entries@[a].0@ == #[trigger] self.entries@[b].0@ implies a == b by {
                    let a0 = if a < i { a } else { a + 1 };
                    let b0 = if b < i { b } else { b + 1 };
                    assert(self.entries@[a] == e0[a0]);
                    assert(self.entries@[b] == e0[b0]);
                }
            },
            None => {
                assert(self.contents@.remove(key@) =~= self.contents@);
            },
        }
    }
}

impl NameMap<crate::view::BranchTarget> {
    /// Every branch's map of remote targets is well formed.
    pub closed spec fn wf_values(&self) -> bool {
        forall|i: int| 0 <= i < self.entries@.len() ==> (#[trigger] self.entries@[i]).1.remote_targets.wf()
    }

    /// An empty map of branches.
    pub fn new_branches() -> (r: Self)
        ensures
            r.wf(),
            r.wf_values(),
            r@ == Map::<Seq<char>, crate::view::BranchModel>::empty(),
    {
        NameMap { entries: Vec::new(), contents: Ghost(Map::empty()) }
    }

    /// The branch of the `i`-th entry; its remote map is well formed.
    pub fn branch_at(&self, i: usize) -> (r: &crate::view::BranchTarget)
        requires
            self.wf(),
            self.wf_values(),
            i < self.names_seq().len(),
        ensures
            self@.contains_key(self.names_seq()[i as int]),
            r@ == self@[self.names_seq()[i as int]],
            r.remote_targets.wf(),
    {
        &self.entries[i].1
    }

    /// The branch stored under the name, if any; its remote map is well formed.
    pub fn get_wf(&self, name: &str) -> (r: Option<&crate::view::BranchTarget>)
        requires
            self.wf(),
            self.wf_values(),
        ensures
            match r {
                Some(v) => self@.contains_key(name@) && v@ == self@[name@] && v.remote_targets.wf(),
                None => !self@.contains_key(name@),
            },
    {
        let key = name.to_owned();
        match self.find(&key) {
            Some(i) => Some(&self.entries[i].1),
            None => None,
        }
    }

    pub fn insert_wf(&mut self, name: String, value: crate::view::BranchTarget)
        requires
            old(self).wf(),
            old(self).wf_values(),
            value.remote_targets.wf(),
        ensures
            final(self).wf(),
            final(self).wf_values(),
            final(self)@ == old(self)@.insert(name@, value@),
    {
        let ghost prev = *self;
        self.insert(name, value);
        assert forall|i: int| 0 <= i < self.entries@.len() implies (#[trigger] self.entries@[i]).1.remote_targets.wf() by {
            if Some(value) != Some(self.entries@[i].1) {
                let j = choose|j: int| 0 <= j < prev.entries@.len() && prev.entries@[j].1 == self.entries@[i].1;
                assert(prev.entries@[j].1.remote_targets.wf());
            }
        }
    }

    pub fn remove_wf(&mut self, name: &str)
        requires
            old(self).wf(),
            old(self).wf_values(),
        ensures
            final(self).wf(),
            final(self).wf_values(),
            final(self)@ == old(self)@.remove(name@),
    {
        let ghost prev = *self;
        self.remove(name);
        assert forall|i: int| 0 <= i < self.entries@.len() implies (#[trigger] self.entries@[i]).1.remote_targets.wf() by {
            let j = choose|j: int| 0 <= j < prev.entries@.len() && prev.entries@[j].1 == self.entries@[i].1;
            assert(prev.entries@[j].1.remote_targets.wf());
        }
    }
}

} // verus!
