use vstd::prelude::*;

use crate::name::{is_ancestor_or_self, Labels, WildcardName};

verus! {

/// No two entries share a key.
pub open spec fn keys_unique<V>(s: Seq<(Labels, V)>) -> bool {
    forall|i: int, j: int| 0 <= i < s.len() && 0 <= j < s.len() && i != j ==> s[i].0 != s[j].0
}

/// Entry `i` is registered under `q` itself or a zone above it.
pub open spec fn key_matches<V>(s: Seq<(Labels, V)>, q: Labels, i: int) -> bool {
    0 <= i < s.len() && is_ancestor_or_self(s[i].0, q)
}

/// Entry `i` is the match of `q` with the longest key.
pub open spec fn is_longest_match<V>(s: Seq<(Labels, V)>, q: Labels, i: int) -> bool {
    key_matches(s, q, i) && forall|j: int| key_matches(s, q, j) ==> s[j].0.len() <= s[i].0.len()
}

/// Two longest matches of one name are one entry.
pub proof fn lemma_longest_match_unique<V>(s: Seq<(Labels, V)>, q: Labels, i: int, j: int)
    requires
        keys_unique(s),
        is_longest_match(s, q, i),
        is_longest_match(s, q, j),
    ensures
        i == j,
{
    assert(s[i].0 =~= q.subrange(0, s[i].0.len() as int));
    assert(s[j].0 =~= q.subrange(0, s[j].0.len() as int));
}

/// An index from domain names to values, answering for a name with the entry
/// of its most specific registered zone.
pub struct DomainMap<V> {
    entries: Vec<(WildcardName, V)>,
}

impl<V> View for DomainMap<V> {
    type V = Seq<(Labels, V)>;

    closed spec fn view(&self) -> Seq<(Labels, V)> {
        self.entries@.map_values(|e: (WildcardName, V)| (e.0@, e.1))
    }
}

impl<V> DomainMap<V> {
    /// An empty map.
    pub fn new() -> (r: DomainMap<V>)
        ensures
            r@ == Seq::<(Labels, V)>::empty(),
    {
        let r = DomainMap { entries: Vec::new() };
        assert(r@ =~= Seq::<(Labels, V)>::empty());
        r
    }

    /// The number of entries.
    pub fn len(&self) -> (r: usize)
        ensures
            r == self@.len(),
    {
        self.entries.len()
    }

    /// The key of entry `i`.
    pub fn key(&self, i: usize) -> (r: &WildcardName)
        requires
            i < self@.len(),
        ensures
            r@ == self@[i as int].0,
    {
        &self.entries[i].0
    }

    /// The value of entry `i`.
    pub fn value(&self, i: usize) -> (r: &V)
        requires
            i < self@.len(),
        ensures
            *r == self@[i as int].1,
    {
        &self.entries[i].1
    }

    /// Replaces the value of entry `i`.
    pub fn set_value(&mut self, i: usize, v: V)
        requires
            i < old(self)@.len(),
        ensures
            final(self)@ == old(self)@.update(i as int, (old(self)@[i as int].0, v)),
    {
        let ghost before = self@;
        let key = self.entries[i].0.duplicate();
        self.entries.set(i, (key, v));
        assert(self@ =~= before.update(i as int, (before[i as int].0, v)));
    }

    /// Adds an entry under a key that no entry has yet.
    pub fn insert(&mut self, key: WildcardName, v: V)
        requires
            forall|i: int| 0 <= i < old(self)@.len() ==> old(self)@[i].0 != key@,
        ensures
            final(self)@ == old(self)@.push((key@, v)),
    {
        let ghost before = self@;
        let ghost k = key@;
        self.entries.push((key, v));
        assert(self@ =~= before.push((k, v)));
    }

    /// The entry registered under exactly `key`.
    pub fn position(&self, key: &WildcardName) -> (r: Option<usize>)
        ensures
            match r {
                Some(i) => i < self@.len() && self@[i as int].0 == key@,
                None => forall|i: int| 0 <= i < self@.len() ==> self@[i].0 != key@,
            },
    {
        let mut k: usize = 0;
        while k < self.entries.len()
            invariant
                k <= self@.len(),
                self@.len() == self.entries@.len(),
                forall|i: int| 0 <= i < k ==> self@[i].0 != key@,
            decreases self@.len() - k,
        {
            if self.entries[k].0.same_name(key) {
                return Some(k);
            }
            k = k + 1;
        }
        None
    }

    /// The entry of the longest registered key that is `q` or a zone above it.
    pub fn find_index(&self, q: &WildcardName) -> (r: Option<usize>)
        ensures
            match r {
                Some(i) => is_longest_match(self@, q@, i as int),
                None => forall|i: int| !key_matches(self@, q@, i),
            },
    {
        let mut best: Option<usize> = None;
        let mut k: usize = 0;
        while k < self.entries.len()
            invariant
                k <= self@.len(),
                self@.len() == self.entries@.len(),
                match best {
                    Some(b) => b < k && key_matches(self@, q@, b as int) && forall|j: int|
                        0 <= j < k && key_matches(self@, q@, j) ==> self@[j].0.len() <= self@[b as int].0.len(),
                    None => forall|j: int| 0 <= j < k ==> !key_matches(self@, q@, j),
                },
            decreases self@.len() - k,
        {
            let key = &self.entries[k].0;
            if key.is_ancestor_or_self_of(q) {
                match best {
                    Some(b) => {
                        if key.label_count() > self.entries[b].0.label_count() {
                            best = Some(k);
                        }
                    },
                    None => {
                        best = Some(k);
                    },
                }
            }
            k = k + 1;
        }
        best
    }

    /// The value of the longest registered key that is `q` or a zone above it.
    pub fn find(&self, q: &WildcardName) -> (r: Option<&V>)
        ensures
            match r {
                Some(v) => exists|i: int| is_longest_match(self@, q@, i) && *v == self@[i].1,
                None => forall|i: int| !key_matches(self@, q@, i),
            },
    {
        match self.find_index(q) {
            Some(i) => Some(&self.entries[i].1),
            None => None,
        }
    }
}

} // verus!
