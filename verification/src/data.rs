use crate::hot_reload::is_ron_file;
use crate::route_scanner::{file_name, file_name_start};
use crate::text::{chars_of, string_of};
use vstd::prelude::*;

verus! {

/// The index of the unit keyed `key` in `s`, or -1.
pub open spec fn unit_index<T>(s: Seq<(Seq<char>, T)>, key: Seq<char>) -> int
    decreases s.len(),
{
    if s.len() == 0 {
        -1
    } else if s.last().0 == key {
        s.len() - 1
    } else {
        unit_index(s.drop_last(), key)
    }
}

/// The unit keyed `key` in `s`, if any.
pub open spec fn unit_of<T>(s: Seq<(Seq<char>, T)>, key: Seq<char>) -> Option<T> {
    let i = unit_index(s, key);
    if i >= 0 {
        Some(s[i].1)
    } else {
        None
    }
}

/// `s` with the unit keyed `key` set to `t`: replaced in place where the key
/// is present, appended where it is not.
pub open spec fn with_unit<T>(s: Seq<(Seq<char>, T)>, key: Seq<char>, t: T) -> Seq<(Seq<char>, T)> {
    let i = unit_index(s, key);
    if i >= 0 {
        s.update(i, (key, t))
    } else {
        s.push((key, t))
    }
}

/// `s` with every unit of `o` set in turn: the units of `o` win.
pub open spec fn merged<T>(s: Seq<(Seq<char>, T)>, o: Seq<(Seq<char>, T)>) -> Seq<(Seq<char>, T)>
    decreases o.len(),
{
    if o.len() == 0 {
        s
    } else {
        with_unit(merged(s, o.drop_last()), o.last().0, o.last().1)
    }
}

/// No two units of `s` share a key.
pub open spec fn keys_unique<T>(s: Seq<(Seq<char>, T)>) -> bool {
    forall|i: int, j: int| 0 <= i < j < s.len() ==> (#[trigger] s[i]).0 != (#[trigger] s[j]).0
}

proof fn lemma_unit_index<T>(s: Seq<(Seq<char>, T)>, key: Seq<char>)
    ensures
        -1 <= unit_index(s, key) < s.len(),
        unit_index(s, key) >= 0 ==> s[unit_index(s, key)].0 == key,
        unit_index(s, key) == -1 <==> forall|i: int| 0 <= i < s.len() ==> s[i].0 != key,
    decreases s.len(),
{
    if s.len() > 0 && s.last().0 != key {
        lemma_unit_index(s.drop_last(), key);
        assert forall|i: int| 0 <= i < s.len() - 1 implies s[i] == s.drop_last()[i] by {}
    }
}

proof fn lemma_unit_index_unique<T>(s: Seq<(Seq<char>, T)>, key: Seq<char>, i: int)
    requires
        keys_unique(s),
        0 <= i < s.len(),
        s[i].0 == key,
    ensures
        unit_index(s, key) == i,
{
    lemma_unit_index(s, key);
    let j = unit_index(s, key);
    if j != i {
        if j < i {
            assert(s[j].0 != s[i].0);
        } else {
            assert(s[i].0 != s[j].0);
        }
    }
}

/// Setting a unit keeps the keys unique; afterwards the key finds the new
/// unit, and every other key finds what it found before.
pub proof fn lemma_with_unit<T>(s: Seq<(Seq<char>, T)>, key: Seq<char>, t: T, other: Seq<char>)
    requires
        keys_unique(s),
    ensures
        keys_unique(with_unit(s, key, t)),
        unit_of(with_unit(s, key, t), key) == Some(t),
        other != key ==> unit_of(with_unit(s, key, t), other) == unit_of(s, other),
        with_unit(s, key, t).len() == s.len() + if unit_of(s, key) is Some {
            0int
        } else {
            1int
        },
{
    lemma_unit_index(s, key);
    lemma_unit_index(s, other);
    let r = with_unit(s, key, t);
    let i = unit_index(s, key);
    if i >= 0 {
        assert forall|a: int, b: int| 0 <= a < b < r.len() implies (#[trigger] r[a]).0 != (
        #[trigger] r[b]).0 by {
            assert(s[a].0 != s[b].0);
        }
        lemma_unit_index_unique(r, key, i);
        if other != key {
            lemma_unit_index(r, other);
            if unit_index(s, other) >= 0 {
                lemma_unit_index_unique(r, other, unit_index(s, other));
            } else {
                assert forall|k: int| 0 <= k < r.len() implies r[k].0 != other by {
                    if k != i {
                        assert(r[k] == s[k]);
                    }
                }
            }
        }
    } else {
        assert(r.drop_last() =~= s);
        assert forall|a: int, b: int| 0 <= a < b < r.len() implies (#[trigger] r[a]).0 != (
        #[trigger] r[b]).0 by {
            if b == r.len() - 1 {
                assert(s[a].0 != key);
            } else {
                assert(s[a].0 != s[b].0);
            }
        }
    }
}

/// After a merge, a key finds the unit of the merged-in registry where it has
/// one, and the registry's own unit otherwise.
pub proof fn lemma_merged<T>(s: Seq<(Seq<char>, T)>, o: Seq<(Seq<char>, T)>, key: Seq<char>)
    requires
        keys_unique(s),
    ensures
        keys_unique(merged(s, o)),
        unit_of(merged(s, o), key) == if unit_of(o, key) is Some {
            unit_of(o, key)
        } else {
            unit_of(s, key)
        },
    decreases o.len(),
{
    if o.len() > 0 {
        lemma_merged(s, o.drop_last(), key);
        lemma_with_unit(merged(s, o.drop_last()), o.last().0, o.last().1, key);
        lemma_unit_index(o.drop_last(), key);
        if o.last().0 != key && unit_index(o.drop_last(), key) >= 0 {
            assert(o[unit_index(o.drop_last(), key)] == o.drop_last()[unit_index(
                o.drop_last(),
                key,
            )]);
        }
    }
}

fn position_in<T>(units: &Vec<(String, T)>, name: &str) -> (r: Option<usize>)
    ensures
        match r {
            Some(i) => unit_index(units@.map_values(|p: (String, T)| (p.0@, p.1)), name@) == i
                && i < units@.len(),
            None => unit_index(units@.map_values(|p: (String, T)| (p.0@, p.1)), name@) == -1,
        },
{
    let ghost s = units@.map_values(|p: (String, T)| (p.0@, p.1));
    let target = name.to_owned();
    let mut n: usize = units.len();
    proof {
        assert(s.take(n as int) =~= s);
    }
    while n > 0
        invariant
            n <= units@.len(),
            s == units@.map_values(|p: (String, T)| (p.0@, p.1)),
            target@ == name@,
            unit_index(s, name@) == unit_index(s.take(n as int), name@),
        decreases n,
    {
        proof {
            assert(s.take(n as int).drop_last() =~= s.take(n - 1));
        }
        if units[n - 1].0 == target {
            return Some(n - 1);
        }
        n = n - 1;
    }
    None
}


/// Loaded unit templates, found by key (the file stem of their data file).
pub struct DataRegistry<T> {
    units: Vec<(String, T)>,
}

impl<T> DataRegistry<T> {
    /// The units, each with its key, without repeated keys.
    pub closed spec fn spec_units(&self) -> Seq<(Seq<char>, T)> {
        self.units@.map_values(|p: (String, T)| (p.0@, p.1))
    }

    #[verifier::type_invariant]
    spec fn wf(self) -> bool {
        keys_unique(self.spec_units())
    }

    /// An empty registry.
    pub fn new() -> (r: Self)
        ensures
            r.spec_units().len() == 0,
    {
        let r = DataRegistry { units: Vec::new() };
        proof {
            assert(r.spec_units() =~= Seq::empty());
        }
        r
    }

    /// A registry holding one unit.
    pub fn from_unit(key: &str, template: T) -> (r: Self)
        ensures
            r.spec_units() == seq![(key@, template)],
    {
        let mut units: Vec<(String, T)> = Vec::new();
        units.push((key.to_owned(), template));
        let r = DataRegistry { units };
        proof {
            assert(r.spec_units() =~= seq![(key@, template)]);
        }
        r
    }

    fn position(&self, name: &str) -> (r: Option<usize>)
        ensures
            match r {
                Some(i) => unit_index(self.spec_units(), name@) == i && i < self.spec_units().len(),
                None => unit_index(self.spec_units(), name@) == -1,
            },
    {
        proof {
            lemma_unit_index(self.spec_units(), name@);
        }
        let ghost s = self.spec_units();
        let target = name.to_owned();
        let mut n: usize = self.units.len();
        proof {
            assert(s.take(n as int) =~= s);
        }
        while n > 0
            invariant
                n <= self.units@.len(),
                s == self.spec_units(),
                target@ == name@,
                unit_index(s, name@) == unit_index(s.take(n as int), name@),
            decreases n,
        {
            proof {
                assert(s.take(n as int).drop_last() =~= s.take(n - 1));
            }
            if self.units[n - 1].0 == target {
                return Some(n - 1);
            }
            n = n - 1;
        }
        None
    }

    /// The unit keyed `name`, if any.
    pub fn unit(&self, name: &str) -> (r: Option<&T>)
        ensures
            match r {
                Some(t) => unit_of(self.spec_units(), name@) == Some(*t),
                None => unit_of(self.spec_units(), name@) is None,
            },
    {
        match self.position(name) {
            Some(i) => Some(&self.units[i].1),
            None => None,
        }
    }

    /// The number of units.
    pub fn unit_count(&self) -> (r: usize)
        ensures
            r == self.spec_units().len(),
    {
        self.units.len()
    }

    /// Sets the unit keyed `key`, replacing the one of that key if any.
    pub fn insert_unit(&mut self, key: &str, template: T)
        ensures
            final(self).spec_units() == with_unit(old(self).spec_units(), key@, template),
    {
        proof {
            use_type_invariant(&*self);
            lemma_with_unit(self.spec_units(), key@, template, key@);
            lemma_unit_index(self.spec_units(), key@);
        }
        let ghost before = self.spec_units();
        let mut units: Vec<(String, T)> = Vec::new();
        std::mem::swap(&mut units, &mut self.units);
        match position_in(&units, key) {
            Some(i) => {
                units.set(i, (key.to_owned(), template));
            },
            None => {
                units.push((key.to_owned(), template));
            },
        }
        proof {
            assert(units@.map_values(|p: (String, T)| (p.0@, p.1)) =~= with_unit(
                before,
                key@,
                template,
            ));
        }
        std::mem::swap(&mut units, &mut self.units);
    }

    /// Replaces or adds the unit keyed `key` with a freshly parsed template;
    /// a failed parse leaves the registry as it was and hands the error back.
    pub fn reload_unit<E>(&mut self, key: &str, parsed: Result<T, E>) -> (r: Result<(), E>)
        ensures
            match parsed {
                Ok(t) => r is Ok && final(self).spec_units() == with_unit(
                    old(self).spec_units(),
                    key@,
                    t,
                ),
                Err(e) => r == Err::<(), E>(e) && final(self).spec_units() == old(
                    self,
                ).spec_units(),
            },
    {
        match parsed {
            Ok(t) => {
                self.insert_unit(key, t);
                Ok(())
            },
            Err(e) => Err(e),
        }
    }

    /// Adds every unit of `other`, whose units win over those of the same key.
    pub fn merge(&mut self, other: DataRegistry<T>)
        ensures
            final(self).spec_units() == merged(old(self).spec_units(), other.spec_units()),
    {
        let ghost o = other.spec_units();
        let DataRegistry { units: incoming } = other;
        let mut incoming = incoming;
        let ghost raw = incoming@;
        let ghost start = self.spec_units();
        let mut taken: usize = 0;
        proof {
            assert(raw.skip(0) =~= raw);
            assert(o.take(0) =~= Seq::<(Seq<char>, T)>::empty());
            assert(merged(start, o.take(0)) == start);
            assert(raw.len() == incoming.len());
        }
        while incoming.len() > 0
            invariant
                o == raw.map_values(|p: (String, T)| (p.0@, p.1)),
                taken <= raw.len(),
                raw.len() <= usize::MAX,
                incoming@ == raw.skip(taken as int),
                self.spec_units() == merged(start, o.take(taken as int)),
            decreases incoming.len(),
        {
            let (k, t) = incoming.remove(0);
            proof {
                assert(raw.skip(taken + 1 as int) =~= raw.skip(taken as int).drop_first());
                assert(o.take(taken + 1 as int).drop_last() =~= o.take(taken as int));
                assert(o.take(taken + 1 as int).last() == (k@, t));
            }
            self.insert_unit(k.as_str(), t);
            taken = taken + 1;
        }
        proof {
            assert(o.take(o.len() as int) =~= o);
        }
    }
}

impl<T> Default for DataRegistry<T> {
    fn default() -> (r: Self)
        ensures
            r.spec_units().len() == 0,
    {
        Self::new()
    }
}

/// The key of the unit a data file holds: the stem of a `.ron` file name,
/// nothing for any other file.
pub fn ron_unit_key(path: &str) -> (r: Option<String>)
    ensures
        match r {
            Some(k) => is_ron_file(path@) && k@ == file_name(path@).take(file_name(path@).len() - 4),
            None => !is_ron_file(path@),
        },
{
    let v = chars_of(path);
    let n = file_name_start(&v);
    let len = v.len();
    let ghost name = file_name(v@);
    proof {
        assert(name =~= v@.skip(n as int));
    }
    let ron = len - n > 4 && v[len - 4] == '.' && v[len - 3] == 'r' && v[len - 2] == 'o'
        && v[len - 1] == 'n';
    proof {
        if len - n > 4 {
            assert(name[name.len() - 4] == v@[len - 4]);
            assert(name[name.len() - 3] == v@[len - 3]);
            assert(name[name.len() - 2] == v@[len - 2]);
            assert(name[name.len() - 1] == v@[len - 1]);
        }
    }
    if !ron {
        return None;
    }
    let mut stem: Vec<char> = Vec::new();
    let mut k: usize = n;
    while k < len - 4
        invariant
            n <= k <= len - 4,
            len == v@.len(),
            stem@ == v@.subrange(n as int, k as int),
        decreases len - 4 - k,
    {
        stem.push(v[k]);
        proof {
            assert(v@.subrange(n as int, k as int).push(v@[k as int]) =~= v@.subrange(
                n as int,
                k + 1 as int,
            ));
        }
        k = k + 1;
    }
    proof {
        assert(stem@ =~= name.take(name.len() - 4));
    }
    Some(string_of(&stem))
}

} // verus!
