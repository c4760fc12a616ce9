use vstd::prelude::*;

verus! {

/// Key naming a resource type (the stand-in for a Rust `TypeId`).
pub type TypeKey = u64;

/// Keyed singleton storage for world-global data (for example delta time or
/// a tick counter). Each key holds at most one value.
pub struct Resources<T> {
    entries: Vec<(TypeKey, T)>,
}

/// Whether some entry of `s` has key `k`.
pub open spec fn has_key<T>(s: Seq<(TypeKey, T)>, k: TypeKey) -> bool {
    exists|i: int| 0 <= i < s.len() && (#[trigger] s[i]).0 == k
}

/// Keys of `s` are pairwise distinct.
pub open spec fn keys_unique<T>(s: Seq<(TypeKey, T)>) -> bool {
    forall|i: int, j: int|
        0 <= i < s.len() && 0 <= j < s.len() && i != j ==> (#[trigger] s[i]).0 != (#[trigger] s[j]).0
}

/// The map that a sequence of keyed entries describes.
pub open spec fn entries_map<T>(s: Seq<(TypeKey, T)>) -> Map<TypeKey, T> {
    Map::new(
        |k: TypeKey| has_key(s, k),
        |k: TypeKey| s[choose|i: int| 0 <= i < s.len() && (#[trigger] s[i]).0 == k].1,
    )
}

/// With unique keys, the map holds entry `i`'s value at entry `i`'s key.
pub proof fn lemma_entries_map_at<T>(s: Seq<(TypeKey, T)>, i: int)
    requires
        keys_unique(s),
        0 <= i < s.len(),
    ensures
        entries_map(s).contains_key(s[i].0),
        entries_map(s)[s[i].0] == s[i].1,
{
    let k = s[i].0;
    assert(has_key(s, k));
    let j = choose|j: int| 0 <= j < s.len() && (#[trigger] s[j]).0 == k;
    assert(j == i);
}

/// Replacing the value of entry `i` keeps keys unique and updates the map at that key.
pub proof fn lemma_update_value<T>(s: Seq<(TypeKey, T)>, i: int, v: T)
    requires
        keys_unique(s),
        0 <= i < s.len(),
    ensures
        keys_unique(s.update(i, (s[i].0, v))),
        entries_map(s.update(i, (s[i].0, v))) == entries_map(s).insert(s[i].0, v),
{
    let key = s[i].0;
    let s1 = s.update(i, (key, v));
    assert forall|a: int, b: int|
        0 <= a < s1.len() && 0 <= b < s1.len() && a != b implies (#[trigger] s1[a]).0
        != (#[trigger] s1[b]).0 by {
        assert(s1[a].0 == s[a].0);
        assert(s1[b].0 == s[b].0);
    }
    assert forall|k: TypeKey| has_key(s1, k) == has_key(s, k) by {
        if has_key(s, k) {
            let j = choose|j: int| 0 <= j < s.len() && (#[trigger] s[j]).0 == k;
            assert(s1[j].0 == k);
        }
        if has_key(s1, k) {
            let j = choose|j: int| 0 <= j < s1.len() && (#[trigger] s1[j]).0 == k;
            assert(s[j].0 == k);
        }
    }
    assert forall|k: TypeKey| #[trigger]
        entries_map(s1).contains_key(k) && k != key implies entries_map(s1)[k]
        == entries_map(s)[k] by {
        let j = choose|j: int| 0 <= j < s1.len() && (#[trigger] s1[j]).0 == k;
        lemma_entries_map_at(s1, j);
        lemma_entries_map_at(s, j);
    }
    lemma_entries_map_at(s1, i);
    assert(entries_map(s1) =~= entries_map(s).insert(key, v));
}

impl<T> View for Resources<T> {
    type V = Map<TypeKey, T>;

    closed spec fn view(&self) -> Map<TypeKey, T> {
        entries_map(self.entries@)
    }
}

impl<T> Resources<T> {
    /// Internal consistency: no key occurs twice.
    pub closed spec fn wf(&self) -> bool {
        keys_unique(self.entries@)
    }

    /// Create an empty store.
    pub fn new() -> (r: Resources<T>)
        ensures
            r.wf(),
            r@ == Map::<TypeKey, T>::empty(),
    {
        let r = Resources { entries: Vec::new() };
        assert(r@ =~= Map::<TypeKey, T>::empty());
        r
    }

    fn find(&self, key: TypeKey) -> (r: Option<usize>)
        requires
            self.wf(),
        ensures
            r is Some <==> self@.contains_key(key),
            r is Some ==> {
                &&& r->0 < self.entries@.len()
                &&& self.entries@[r->0 as int].0 == key
                &&& self@[key] == self.entries@[r->0 as int].1
            },
        no_unwind
    {
        let mut i: usize = 0;
        while i < self.entries.len()
            invariant
                i <= self.entries@.len(),
                keys_unique(self.entries@),
                forall|j: int| 0 <= j < i ==> (#[trigger] self.entries@[j]).0 != key,
            decreases self.entries@.len() - i,
        {
            if self.entries[i].0 == key {
                proof {
                    lemma_entries_map_at(self.entries@, i as int);
                }
                return Some(i);
            }
            i = i + 1;
        }
        None
    }

    /// Insert a value, replacing any previous value under the same key.
    pub fn insert(&mut self, key: TypeKey, value: T)
        requires
            old(self).wf(),
        ensures
            final(self).wf(),
            final(self)@ == old(self)@.insert(key, value),
    {
        match self.find(key) {
            Some(i) => {
                let ghost s0 = self.entries@;
                self.entries.set(i, (key, value));
                proof {
                    lemma_update_value(s0, i as int, value);
                }
            },
            None => {
                let ghost s0 = self.entries@;
                self.entries.push((key, value));
                proof {
                    let s1 = self.entries@;
                    assert forall|a: int, b: int|
                        0 <= a < s1.len() && 0 <= b < s1.len() && a != b implies (#[trigger] s1[a]).0
                        != (#[trigger] s1[b]).0 by {
                        if a < s0.len() && b < s0.len() {
                            assert(s1[a] == s0[a]);
                            assert(s1[b] == s0[b]);
                        } else if a < s0.len() {
                            assert(s1[a] == s0[a]);
                            assert(!has_key(s0, key));
                        } else {
                            assert(s1[b] == s0[b]);
                            assert(!has_key(s0, key));
                        }
                    }
                    assert forall|k: TypeKey| has_key(s1, k) == (has_key(s0, k) || k == key) by {
                        if has_key(s0, k) {
                            let j = choose|j: int| 0 <= j < s0.len() && (#[trigger] s0[j]).0 == k;
                            assert(s1[j].0 == k);
                        }
                        if k == key {
                            assert(s1[s0.len() as int].0 == k);
                        }
                        if has_key(s1, k) {
                            let j = choose|j: int| 0 <= j < s1.len() && (#[trigger] s1[j]).0 == k;
                            if j < s0.len() {
                                assert(s0[j].0 == k);
                            }
                        }
                    }
                    assert forall|k: TypeKey| #[trigger]
                        entries_map(s1).contains_key(k) && k != key implies entries_map(s1)[k]
                        == entries_map(s0)[k] by {
                        let j = choose|j: int| 0 <= j < s1.len() && (#[trigger] s1[j]).0 == k;
                        lemma_entries_map_at(s1, j);
                        assert(j < s0.len());
                        assert(s1[j] == s0[j]);
                        lemma_entries_map_at(s0, j);
                    }
                    lemma_entries_map_at(s1, s0.len() as int);
                    assert(entries_map(s1) =~= entries_map(s0).insert(key, value));
                }
            },
        }
    }

    /// Get a reference to the value under `key`. The key must be present.
    pub fn get(&self, key: TypeKey) -> (r: &T)
        requires
            self.wf(),
            self@.contains_key(key),
        ensures
            *r == self@[key],
    {
        let i = self.find(key).unwrap();
        &self.entries[i].1
    }

    /// Get a mutable reference to the value under `key`. The key must be present.
    pub fn get_mut(&mut self, key: TypeKey) -> (r: &mut T)
        requires
            old(self).wf(),
            old(self)@.contains_key(key),
        ensures
            final(self).wf(),
            *r == old(self)@[key],
            final(self)@ == old(self)@.insert(key, *final(r)),
        no_unwind
    {
        let i = match self.find(key) {
            Some(i) => i,
            // unreachable: the key is present
            None => 0,
        };
        let ghost s0 = self.entries@;
        let entry = &mut self.entries[i];
        let r = &mut entry.1;
        proof {
            lemma_update_value(s0, i as int, *final(r));
        }
        r
    }

    /// Try to get a reference to the value under `key`.
    pub fn try_get(&self, key: TypeKey) -> (r: Option<&T>)
        requires
            self.wf(),
        ensures
            r is Some <==> self@.contains_key(key),
            r is Some ==> *r->0 == self@[key],
    {
        match self.find(key) {
            Some(i) => Some(&self.entries[i].1),
            None => None,
        }
    }

    /// Remove and return the value under `key`, if any.
    pub fn try_take(&mut self, key: TypeKey) -> (r: Option<T>)
        requires
            old(self).wf(),
        ensures
            final(self).wf(),
            r is Some <==> old(self)@.contains_key(key),
            r is Some ==> r->0 == old(self)@[key],
            final(self)@ == old(self)@.remove(key),
    {
        match self.find(key) {
            Some(i) => {
                let ghost s0 = self.entries@;
                let (_, v) = self.entries.remove(i);
                proof {
                    let s1 = self.entries@;
                    assert forall|a: int| 0 <= a < s1.len() implies #[trigger] s1[a] == (if a < i {
                        s0[a]
                    } else {
                        s0[a + 1]
                    }) by {}
                    assert forall|a: int, b: int|
                        0 <= a < s1.len() && 0 <= b < s1.len() && a != b implies (#[trigger] s1[a]).0
                        != (#[trigger] s1[b]).0 by {
                        let a0 = if a < i { a } else { a + 1 };
                        let b0 = if b < i { b } else { b + 1 };
                        assert(s1[a] == s0[a0]);
                        assert(s1[b] == s0[b0]);
                    }
                    assert forall|k: TypeKey| has_key(s1, k) == (has_key(s0, k) && k != key) by {
                        if has_key(s1, k) {
                            let j = choose|j: int| 0 <= j < s1.len() && (#[trigger] s1[j]).0 == k;
                            let j0 = if j < i { j } else { j + 1 };
                            assert(s0[j0].0 == k);
                            assert(j0 != i);
                        }
                        if has_key(s0, k) && k != key {
                            let j = choose|j: int| 0 <= j < s0.len() && (#[trigger] s0[j]).0 == k;
                            assert(j != i);
                            let j1 = if j < i { j } else { j - 1 };
                            assert(s1[j1].0 == k);
                        }
                    }
                    assert forall|k: TypeKey| #[trigger]
                        entries_map(s1).contains_key(k) implies entries_map(s1)[k]
                        == entries_map(s0)[k] by {
                        let j = choose|j: int| 0 <= j < s1.len() && (#[trigger] s1[j]).0 == k;
                        lemma_entries_map_at(s1, j);
                        let j0 = if j < i { j } else { j + 1 };
                        assert(s1[j] == s0[j0]);
                        lemma_entries_map_at(s0, j0);
                    }
                    assert(entries_map(s1) =~= entries_map(s0).remove(key));
                }
                Some(v)
            },
            None => {
                assert(self@ =~= old(self)@.remove(key));
                None
            },
        }
    }

    /// Remove and return the value under `key`. The key must be present.
    pub fn take(&mut self, key: TypeKey) -> (r: T)
        requires
            old(self).wf(),
            old(self)@.contains_key(key),
        ensures
            final(self).wf(),
            r == old(self)@[key],
            final(self)@ == old(self)@.remove(key),
    {
        self.try_take(key).unwrap()
    }

    /// Returns `true` if a value is stored under `key`.
    pub fn contains(&self, key: TypeKey) -> (r: bool)
        requires
            self.wf(),
        ensures
            r == self@.contains_key(key),
    {
        self.find(key).is_some()
    }
}

} // verus!
