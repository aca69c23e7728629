//! Type-indexed heterogeneous storage: at most one value per type identifier,
//! with insert, lookup and destructive removal.

use vstd::map::*;
use vstd::prelude::*;

verus! {

/// Storage with at most one value per key, modeled as a mapping from the key
/// to the stored value. Keys are type identifiers: each component type and
/// each interface type is known by one `usize` tag.
pub struct TypeMap<V> {
    entries: Vec<(usize, V)>,
}

impl<V> View for TypeMap<V> {
    type V = Map<int, V>;

    closed spec fn view(&self) -> Map<int, V> {
        Map::new(
            |k: int|
                exists|i: int|
                    0 <= i < self.entries@.len() && (#[trigger] self.entries@[i]).0 as int == k,
            |k: int|
                {
                    let i = choose|i: int|
                        0 <= i < self.entries@.len() && (#[trigger] self.entries@[i]).0 as int == k;
                    self.entries@[i].1
                },
        )
    }
}

impl<V> TypeMap<V> {
    /// The stored entries, in insertion order.
    pub closed spec fn entries_seq(self) -> Seq<(usize, V)> {
        self.entries@
    }

    /// Each key occurs at most once.
    pub open spec fn wf(self) -> bool {
        forall|i: int, j: int|
            0 <= i < j < self.entries_seq().len() ==> (#[trigger] self.entries_seq()[i]).0 != (
            #[trigger] self.entries_seq()[j]).0
    }

    /// An entry of a well-formed map is visible in its view.
    proof fn lemma_entry(self, i: int)
        requires
            self.wf(),
            0 <= i < self.entries_seq().len(),
        ensures
            self@.contains_key(self.entries_seq()[i].0 as int),
            self@[self.entries_seq()[i].0 as int] == self.entries_seq()[i].1,
    {
        let k = self.entries_seq()[i].0 as int;
        assert(self@.dom().contains(k));
        let j = choose|j: int|
            0 <= j < self.entries@.len() && (#[trigger] self.entries@[j]).0 as int == k;
        assert(j == i);
    }

    /// A key of the view is carried by some entry.
    proof fn lemma_contains(self, k: int)
        requires
            self@.contains_key(k),
        ensures
            exists|i: int|
                0 <= i < self.entries_seq().len() && (#[trigger] self.entries_seq()[i]).0 as int
                    == k,
    {
        let i = choose|i: int|
            0 <= i < self.entries@.len() && (#[trigger] self.entries@[i]).0 as int == k;
        assert(0 <= i < self.entries_seq().len() && self.entries_seq()[i].0 as int == k);
    }

    /// An empty map.
    pub fn new() -> (res: TypeMap<V>)
        ensures
            res.wf(),
            res@ == Map::<int, V>::empty(),
    {
        let res = TypeMap { entries: Vec::new() };
        proof {
            assert(res@ =~= Map::<int, V>::empty());
        }
        res
    }

    /// The index of the entry under `key`, if one exists.
    fn position(&self, key: usize) -> (res: Option<usize>)
        ensures
            match res {
                Some(i) => i < self.entries_seq().len() && self.entries_seq()[i as int].0 == key,
                None => forall|i: int|
                    0 <= i < self.entries_seq().len() ==> (#[trigger] self.entries_seq()[i]).0
                        != key,
            },
    {
        let n = self.entries.len();
        let mut i: usize = 0;
        while i < n
            invariant
                i <= n,
                n == self.entries_seq().len(),
                forall|j: int| 0 <= j < i ==> (#[trigger] self.entries_seq()[j]).0 != key,
            decreases n - i,
        {
            if self.entries[i].0 == key {
                return Some(i);
            }
            i = i + 1;
        }
        None
    }

    /// Whether a value is stored under `key`.
    pub fn contains(&self, key: usize) -> (res: bool)
        requires
            self.wf(),
        ensures
            res == self@.contains_key(key as int),
    {
        match self.position(key) {
            Some(i) => {
                proof {
                    self.lemma_entry(i as int);
                }
                true
            },
            None => {
                proof {
                    if self@.contains_key(key as int) {
                        self.lemma_contains(key as int);
                    }
                }
                false
            },
        }
    }

    /// The value stored under `key`, if any; absence is `None`, never a fault.
    pub fn get(&self, key: usize) -> (res: Option<&V>)
        requires
            self.wf(),
        ensures
            match res {
                Some(v) => self@.contains_key(key as int) && *v == self@[key as int],
                None => !self@.contains_key(key as int),
            },
    {
        match self.position(key) {
            Some(i) => {
                proof {
                    self.lemma_entry(i as int);
                }
                Some(&self.entries[i].1)
            },
            None => {
                proof {
                    if self@.contains_key(key as int) {
                        self.lemma_contains(key as int);
                    }
                }
                None
            },
        }
    }

    /// Removes and returns the value stored under `key`. Removal is
    /// destructive: afterwards the key is absent.
    pub fn remove(&mut self, key: usize) -> (res: Option<V>)
        requires
            old(self).wf(),
        ensures
            final(self).wf(),
            final(self)@ == old(self)@.remove(key as int),
            match res {
                Some(v) => old(self)@.contains_key(key as int) && v == old(self)@[key as int],
                None => !old(self)@.contains_key(key as int),
            },
    {
        match self.position(key) {
            Some(i) => {
                proof {
                    self.lemma_entry(i as int);
                }
                let pair = self.entries.remove(i);
                proof {
                    let s0 = old(self).entries_seq();
                    let s1 = self.entries_seq();
                    s0.remove_ensures(i as int);
                    assert forall|a: int, b: int| 0 <= a < b < s1.len() implies (
                    #[trigger] s1[a]).0 != (#[trigger] s1[b]).0 by {
                        let a0: int = if a < i { a } else { a + 1 };
                        let b0: int = if b < i { b } else { b + 1 };
                        assert(s1[a] == s0[a0]);
                        assert(s1[b] == s0[b0]);
                    }
                    assert_maps_equal!(self@, old(self)@.remove(key as int), k => {
                        if self@.contains_key(k) {
                            let a = choose|a: int|
                                0 <= a < s1.len() && (#[trigger] s1[a]).0 as int == k;
                            let a0: int = if a < i { a } else { a + 1 };
                            assert(s1[a] == s0[a0]);
                            assert(k != key);
                            old(self).lemma_entry(a0);
                            self.lemma_entry(a);
                        }
                        if old(self)@.remove(key as int).contains_key(k) {
                            old(self).lemma_contains(k);
                            let a0 = choose|a0: int|
                                0 <= a0 < s0.len() && (#[trigger] s0[a0]).0 as int == k;
                            assert(a0 != i);
                            let a: int = if a0 < i { a0 } else { a0 - 1 };
                            assert(s1[a] == s0[a0]);
                            old(self).lemma_entry(a0);
                            self.lemma_entry(a);
                        }
                    });
                }
                Some(pair.1)
            },
            None => {
                proof {
                    if self@.contains_key(key as int) {
                        self.lemma_contains(key as int);
                    }
                    assert(self@ =~= old(self)@.remove(key as int)) by {
                        if old(self)@.contains_key(key as int) {
                            old(self).lemma_contains(key as int);
                        }
                    }
                }
                None
            },
        }
    }

    /// Stores `value` under `key`, replacing what was there.
    pub fn insert(&mut self, key: usize, value: V)
        requires
            old(self).wf(),
        ensures
            final(self).wf(),
            final(self)@ == old(self)@.insert(key as int, value),
    {
        let _removed = self.remove(key);
        let ghost mid = *self;
        self.entries.push((key, value));
        proof {
            let s0 = mid.entries_seq();
            let s1 = self.entries_seq();
            assert forall|j: int| 0 <= j < s0.len() implies (#[trigger] s0[j]).0 != key by {
                if s0[j].0 == key {
                    mid.lemma_entry(j);
                }
            }
            assert forall|a: int, b: int| 0 <= a < b < s1.len() implies (#[trigger] s1[a]).0 != (
            #[trigger] s1[b]).0 by {
                if b == s1.len() - 1 {
                    assert(s1[a] == s0[a]);
                }
            }
            assert_maps_equal!(self@, old(self)@.insert(key as int, value), k => {
                if k == key as int {
                    self.lemma_entry(s1.len() - 1);
                } else {
                    if self@.contains_key(k) {
                        let a = choose|a: int|
                            0 <= a < s1.len() && (#[trigger] s1[a]).0 as int == k;
                        assert(a < s0.len());
                        assert(s1[a] == s0[a]);
                        mid.lemma_entry(a);
                        self.lemma_entry(a);
                    }
                    if mid@.contains_key(k) {
                        mid.lemma_contains(k);
                        let a = choose|a: int|
                            0 <= a < s0.len() && (#[trigger] s0[a]).0 as int == k;
                        assert(s1[a] == s0[a]);
                        mid.lemma_entry(a);
                        self.lemma_entry(a);
                    }
                }
            });
        }
    }
}

} // verus!
