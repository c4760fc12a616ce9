use vstd::prelude::*;

use crate::entity::Entity;
use crate::resource::{Resources, TypeKey};

verus! {

/// Index into the archetype store.
#[derive(Clone, Copy, Debug, PartialEq, Eq, Hash, Structural)]
pub struct ArchetypeId(pub u32);

impl ArchetypeId {
    /// Returns the raw index.
    pub fn index(self) -> (r: u32)
        ensures
            r == self.0,
    {
        self.0
    }
}

/// Where an entity lives inside archetype storage.
#[derive(Clone, Copy, Debug, PartialEq, Eq, Structural)]
pub struct EntityLocation {
    pub archetype_id: ArchetypeId,
    pub row: u32,
}

} // verus!

verus! {

/// `s` is strictly increasing (hence sorted and free of duplicates).
pub open spec fn strictly_sorted(s: Seq<TypeKey>) -> bool {
    forall|i: int, j: int| 0 <= i < j < s.len() ==> (#[trigger] s[i]) < (#[trigger] s[j])
}

/// Two strictly sorted sequences with the same elements are equal.
pub proof fn lemma_sorted_unique(a: Seq<TypeKey>, b: Seq<TypeKey>)
    requires
        strictly_sorted(a),
        strictly_sorted(b),
        a.to_set() == b.to_set(),
    ensures
        a == b,
    decreases a.len() + b.len(),
{
    if a.len() == 0 {
        if b.len() > 0 {
            assert(b.to_set().contains(b[0]));
            assert(!a.to_set().contains(b[0]));
        }
        assert(a =~= b);
    } else if b.len() == 0 {
        assert(a.to_set().contains(a[0]));
        assert(!b.to_set().contains(a[0]));
    } else {
        // The minimum of each sequence is its first element.
        assert(a.to_set().contains(a[0]));
        assert(b.to_set().contains(b[0]));
        assert(b.contains(a[0]));
        assert(a.contains(b[0]));
        let ia = choose|i: int| 0 <= i < a.len() && a[i] == b[0];
        let ib = choose|i: int| 0 <= i < b.len() && b[i] == a[0];
        assert(a[0] <= b[0]) by {
            if ia > 0 {
                assert(a[0] < a[ia]);
            }
        }
        assert(b[0] <= a[0]) by {
            if ib > 0 {
                assert(b[0] < b[ib]);
            }
        }
        let a1 = a.drop_first();
        let b1 = b.drop_first();
        assert(strictly_sorted(a1)) by {
            assert forall|i: int, j: int| 0 <= i < j < a1.len() implies (#[trigger] a1[i]) < (#[trigger] a1[j]) by {
                assert(a1[i] == a[i + 1]);
                assert(a1[j] == a[j + 1]);
            }
        }
        assert(strictly_sorted(b1)) by {
            assert forall|i: int, j: int| 0 <= i < j < b1.len() implies (#[trigger] b1[i]) < (#[trigger] b1[j]) by {
                assert(b1[i] == b[i + 1]);
                assert(b1[j] == b[j + 1]);
            }
        }
        assert(a1.to_set() =~= b1.to_set()) by {
            assert forall|x: TypeKey| a1.to_set().contains(x) implies b1.to_set().contains(x) by {
                let i = choose|i: int| 0 <= i < a1.len() && a1[i] == x;
                assert(a[i + 1] == x);
                assert(a[0] < a[i + 1]);
                assert(a.to_set().contains(x));
                assert(b.contains(x));
                let j = choose|j: int| 0 <= j < b.len() && b[j] == x;
                assert(j != 0);
                assert(b1[j - 1] == x);
            }
            assert forall|x: TypeKey| b1.to_set().contains(x) implies a1.to_set().contains(x) by {
                let i = choose|i: int| 0 <= i < b1.len() && b1[i] == x;
                assert(b[i + 1] == x);
                assert(b[0] < b[i + 1]);
                assert(b.to_set().contains(x));
                assert(a.contains(x));
                let j = choose|j: int| 0 <= j < a.len() && a[j] == x;
                assert(j != 0);
                assert(a1[j - 1] == x);
            }
        }
        lemma_sorted_unique(a1, b1);
        assert(a =~= b) by {
            assert forall|i: int| 0 <= i < a.len() implies a[i] == b[i] by {
                if i > 0 {
                    assert(a[i] == a1[i - 1]);
                    assert(b[i] == b1[i - 1]);
                }
            }
        }
    }
}

/// Sorted set of component type keys identifying which components an
/// archetype holds.
///
/// Two layouts with the same key set (regardless of input order) are equal.
#[derive(Clone, Debug, PartialEq, Eq, Hash)]
pub struct ArchetypeLayout {
    /// Always kept strictly sorted.
    type_ids: Vec<TypeKey>,
}

impl View for ArchetypeLayout {
    type V = Seq<TypeKey>;

    closed spec fn view(&self) -> Seq<TypeKey> {
        self.type_ids@
    }
}

impl ArchetypeLayout {
    /// Layout invariant: keys strictly sorted.
    pub open spec fn wf(&self) -> bool {
        strictly_sorted(self@)
    }

    /// Binary search: `Ok(i)` when `id` sits at `i`, `Err(p)` with the
    /// insertion point `p` otherwise.
    fn search(&self, id: TypeKey) -> (r: Result<usize, usize>)
        requires
            self.wf(),
        ensures
            r matches Ok(i) ==> i < self@.len() && self@[i as int] == id,
            r matches Err(p) ==> {
                &&& p <= self@.len()
                &&& forall|j: int| 0 <= j < p ==> (#[trigger] self@[j]) < id
                &&& forall|j: int| p <= j < self@.len() ==> (#[trigger] self@[j]) > id
            },
        no_unwind
    {
        let mut lo: usize = 0;
        let mut hi: usize = self.type_ids.len();
        while lo < hi
            invariant
                lo <= hi <= self@.len(),
                self.wf(),
                forall|j: int| 0 <= j < lo ==> (#[trigger] self@[j]) < id,
                forall|j: int| hi <= j < self@.len() ==> (#[trigger] self@[j]) > id,
            decreases hi - lo,
        {
            let mid = lo + (hi - lo) / 2;
            let v = self.type_ids[mid];
            if v == id {
                return Ok(mid);
            } else if v < id {
                lo = mid + 1;
            } else {
                hi = mid;
            }
        }
        Err(lo)
    }

    /// Create a layout from an unsorted, possibly-duplicate slice of type keys.
    pub fn from_type_ids(ids: &[TypeKey]) -> (r: ArchetypeLayout)
        ensures
            r.wf(),
            r@.to_set() == ids@.to_set(),
    {
        let mut layout = ArchetypeLayout::empty();
        let mut i: usize = 0;
        while i < ids.len()
            invariant
                i <= ids@.len(),
                layout.wf(),
                layout@.to_set() == ids@.subrange(0, i as int).to_set(),
            decreases ids@.len() - i,
        {
            let _ = layout.add_in_place(ids[i]);
            proof {
                assert(ids@.subrange(0, i + 1) =~= ids@.subrange(0, i as int).push(ids@[i as int]));
                assert(ids@.subrange(0, i + 1).to_set() =~= ids@.subrange(0, i as int).to_set().insert(ids@[i as int])) by {
                    let s = ids@.subrange(0, i as int);
                    s.lemma_push_to_set_commute(ids@[i as int]);
                }
            }
            i = i + 1;
        }
        proof {
            assert(ids@.subrange(0, ids@.len() as int) =~= ids@);
        }
        layout
    }

    /// Create an empty layout (the "void" archetype for entities with no components).
    pub fn empty() -> (r: ArchetypeLayout)
        ensures
            r.wf(),
            r@ == Seq::<TypeKey>::empty(),
    {
        ArchetypeLayout { type_ids: Vec::new() }
    }

    /// Whether this layout contains the given type.
    pub fn contains(&self, id: TypeKey) -> (r: bool)
        requires
            self.wf(),
        ensures
            r == self@.contains(id),
        no_unwind
    {
        match self.search(id) {
            Ok(_) => true,
            Err(_) => false,
        }
    }

    /// The position of `id`, which must be present.
    pub fn position_nu(&self, id: TypeKey) -> (r: usize)
        requires
            self.wf(),
            self@.contains(id),
        ensures
            r < self@.len(),
            self@[r as int] == id,
        no_unwind
    {
        let mut lo: usize = 0;
        let mut hi: usize = self.type_ids.len();
        while lo < hi
            invariant
                lo <= hi <= self@.len(),
                self.wf(),
                self@.contains(id),
                forall|j: int| 0 <= j < lo ==> (#[trigger] self@[j]) < id,
                forall|j: int| hi <= j < self@.len() ==> (#[trigger] self@[j]) > id,
            decreases hi - lo,
        {
            let mid = lo + (hi - lo) / 2;
            let v = self.type_ids[mid];
            if v == id {
                return mid;
            } else if v < id {
                lo = mid + 1;
            } else {
                hi = mid;
            }
        }
        proof {
            let j = choose|j: int| 0 <= j < self@.len() && self@[j] == id;
            if j < lo {
                assert(self@[j] < id);
            } else {
                assert(self@[j] > id);
            }
        }
        0
    }

    /// The position of `id` in this layout, if present.
    pub fn position(&self, id: TypeKey) -> (r: Option<usize>)
        requires
            self.wf(),
        ensures
            r is Some <==> self@.contains(id),
            r matches Some(i) ==> i < self@.len() && self@[i as int] == id,
    {
        match self.search(id) {
            Ok(i) => Some(i),
            Err(_) => None,
        }
    }

    /// Add `id` in sorted position; returns the position when it was absent.
    pub fn add_in_place(&mut self, id: TypeKey) -> (r: Option<usize>)
        requires
            old(self).wf(),
        ensures
            final(self).wf(),
            final(self)@.to_set() == old(self)@.to_set().insert(id),
            old(self)@.contains(id) ==> final(self)@ == old(self)@ && r is None,
            !old(self)@.contains(id) ==> r is Some && r->0 <= old(self)@.len()
                && final(self)@ == old(self)@.insert(r->0 as int, id),
    {
        match self.search(id) {
            Ok(_) => {
                proof {
                    assert(self@.to_set() =~= old(self)@.to_set().insert(id));
                }
                None
            },
            Err(p) => {
                let ghost s0 = self@;
                self.type_ids.insert(p, id);
                proof {
                    let s1 = self@;
                    assert forall|a: int, b: int| 0 <= a < b < s1.len() implies (#[trigger] s1[a]) < (#[trigger] s1[b]) by {
                        if b < p {
                            assert(s1[a] == s0[a] && s1[b] == s0[b]);
                        } else if b == p {
                            assert(s1[a] == s0[a]);
                        } else if a < p {
                            assert(s1[a] == s0[a] && s1[b] == s0[b - 1]);
                        } else if a == p {
                            assert(s1[b] == s0[b - 1]);
                        } else {
                            assert(s1[a] == s0[a - 1] && s1[b] == s0[b - 1]);
                        }
                    }
                    assert(s1.to_set() =~= s0.to_set().insert(id)) by {
                        assert forall|x: TypeKey| s1.to_set().contains(x) implies s0.to_set().insert(id).contains(x) by {
                            let i = choose|i: int| 0 <= i < s1.len() && s1[i] == x;
                            if i < p {
                                assert(s0[i] == x);
                            } else if i > p {
                                assert(s0[i - 1] == x);
                            }
                        }
                        assert forall|x: TypeKey| s0.to_set().insert(id).contains(x) implies s1.to_set().contains(x) by {
                            if x == id {
                                assert(s1[p as int] == x);
                            } else {
                                let i = choose|i: int| 0 <= i < s0.len() && s0[i] == x;
                                if i < p {
                                    assert(s1[i] == x);
                                } else {
                                    assert(s1[i + 1] == x);
                                }
                            }
                        }
                    }
                    assert(!s0.contains(id)) by {
                        if s0.contains(id) {
                            let i = choose|i: int| 0 <= i < s0.len() && s0[i] == id;
                            if i < p {
                                assert(s0[i] < id);
                            } else {
                                assert(s0[i] > id);
                            }
                        }
                    }
                }
                Some(p)
            },
        }
    }

    /// Return a new layout with `id` added (no-op if already present).
    pub fn with_added(&self, id: TypeKey) -> (r: ArchetypeLayout)
        requires
            self.wf(),
        ensures
            r.wf(),
            r@.to_set() == self@.to_set().insert(id),
            self@.contains(id) ==> r@ == self@,
            !self@.contains(id) ==> exists|p: int|
                0 <= p <= self@.len() && r@ == self@.insert(p, id),
    {
        let mut r = ArchetypeLayout { type_ids: self.type_ids.clone() };
        proof {
            assert(r@ =~= self@);
        }
        let _ = r.add_in_place(id);
        r
    }

    /// Return a new layout with `id` removed (no-op if absent).
    pub fn with_removed(&self, id: TypeKey) -> (r: ArchetypeLayout)
        requires
            self.wf(),
        ensures
            r.wf(),
            r@.to_set() == self@.to_set().remove(id),
            !self@.contains(id) ==> r@ == self@,
            self@.contains(id) ==> exists|p: int|
                0 <= p < self@.len() && self@[p] == id && r@ == self@.remove(p),
    {
        let mut ids = self.type_ids.clone();
        proof {
            assert(ids@ =~= self@);
        }
        match self.search(id) {
            Ok(p) => {
                ids.remove(p);
                let r = ArchetypeLayout { type_ids: ids };
                proof {
                    let s0 = self@;
                    let s1 = r@;
                    assert forall|a: int, b: int| 0 <= a < b < s1.len() implies (#[trigger] s1[a]) < (#[trigger] s1[b]) by {
                        let a0 = if a < p { a } else { a + 1 };
                        let b0 = if b < p { b } else { b + 1 };
                        assert(s1[a] == s0[a0] && s1[b] == s0[b0]);
                    }
                    assert(s1.to_set() =~= s0.to_set().remove(id)) by {
                        assert forall|x: TypeKey| s1.to_set().contains(x) implies s0.to_set().remove(id).contains(x) by {
                            let i = choose|i: int| 0 <= i < s1.len() && s1[i] == x;
                            let i0 = if i < p { i } else { i + 1 };
                            assert(s0[i0] == x);
                            if i0 < p {
                                assert(s0[i0] < s0[p as int]);
                            } else {
                                assert(s0[p as int] < s0[i0]);
                            }
                        }
                        assert forall|x: TypeKey| s0.to_set().remove(id).contains(x) implies s1.to_set().contains(x) by {
                            let i = choose|i: int| 0 <= i < s0.len() && s0[i] == x;
                            assert(i != p);
                            if i < p {
                                assert(s1[i] == x);
                            } else {
                                assert(s1[i - 1] == x);
                            }
                        }
                    }
                }
                r
            },
            Err(_) => {
                let r = ArchetypeLayout { type_ids: ids };
                proof {
                    assert(!self@.contains(id)) by {
                        if self@.contains(id) {
                            let i = choose|i: int| 0 <= i < self@.len() && self@[i] == id;
                            assert(self@[i] < id || self@[i] > id);
                        }
                    }
                    assert(r@.to_set() =~= self@.to_set().remove(id));
                }
                r
            },
        }
    }

    /// The number of component types in this layout.
    pub fn len(&self) -> (r: usize)
        ensures
            r == self@.len(),
    {
        self.type_ids.len()
    }

    /// Whether this layout has zero component types.
    pub fn is_empty(&self) -> (r: bool)
        ensures
            r == (self@.len() == 0),
    {
        self.type_ids.len() == 0
    }

    /// The type keys in sorted order.
    pub fn iter(&self) -> (r: &[TypeKey])
        ensures
            r@ == self@,
    {
        self.type_ids.as_slice()
    }

    /// Whether two layouts hold the same keys.
    pub fn same_as(&self, other: &ArchetypeLayout) -> (r: bool)
        ensures
            r == (self@ == other@),
    {
        if self.type_ids.len() != other.type_ids.len() {
            return false;
        }
        let mut i: usize = 0;
        while i < self.type_ids.len()
            invariant
                i <= self@.len(),
                self@.len() == other@.len(),
                forall|j: int| 0 <= j < i ==> self@[j] == other@[j],
            decreases self@.len() - i,
        {
            if self.type_ids[i] != other.type_ids[i] {
                return false;
            }
            i = i + 1;
        }
        proof {
            assert(self@ =~= other@);
        }
        true
    }
}

/// Layouts built from the same set of keys are equal, whatever the input order.
pub proof fn lemma_layout_order_independent(a: ArchetypeLayout, b: ArchetypeLayout)
    requires
        a.wf(),
        b.wf(),
        a@.to_set() == b@.to_set(),
    ensures
        a@ == b@,
{
    lemma_sorted_unique(a@, b@);
}

} // verus!

verus! {

/// Typed dense column for a single component type within one archetype.
///
/// Each row has parallel `added_ticks` and `changed_ticks` entries for
/// change detection. Tick 0 is the sentinel meaning "never observed".
pub struct Column<V> {
    data: Vec<V>,
    added_ticks: Vec<u64>,
    changed_ticks: Vec<u64>,
}

impl<V> Column<V> {
    /// The stored values, by row.
    pub closed spec fn data(&self) -> Seq<V> {
        self.data@
    }

    /// The added tick of each row.
    pub closed spec fn added(&self) -> Seq<u64> {
        self.added_ticks@
    }

    /// The changed tick of each row.
    pub closed spec fn changed(&self) -> Seq<u64> {
        self.changed_ticks@
    }

    /// The three parallel vectors have one entry per row.
    pub open spec fn wf(&self) -> bool {
        &&& self.added().len() == self.data().len()
        &&& self.changed().len() == self.data().len()
    }

    /// Create an empty column.
    pub fn new() -> (c: Column<V>)
        ensures
            c.wf(),
            c.data() == Seq::<V>::empty(),
    {
        Column { data: Vec::new(), added_ticks: Vec::new(), changed_ticks: Vec::new() }
    }

    /// Append a value at the end with sentinel ticks (0).
    pub fn push(&mut self, value: V)
        requires
            old(self).wf(),
        ensures
            final(self).wf(),
            final(self).data() == old(self).data().push(value),
            final(self).added() == old(self).added().push(0),
            final(self).changed() == old(self).changed().push(0),
    {
        self.data.push(value);
        self.added_ticks.push(0);
        self.changed_ticks.push(0);
    }

    /// Append a value with explicit tick stamps.
    pub fn push_with_ticks(&mut self, value: V, added: u64, changed: u64)
        requires
            old(self).wf(),
        ensures
            final(self).wf(),
            final(self).data() == old(self).data().push(value),
            final(self).added() == old(self).added().push(added),
            final(self).changed() == old(self).changed().push(changed),
    {
        self.data.push(value);
        self.added_ticks.push(added);
        self.changed_ticks.push(changed);
    }

    /// Get an immutable reference by row index.
    pub fn get(&self, row: usize) -> (r: Option<&V>)
        ensures
            row < self.data().len() ==> r == Some(&self.data()[row as int]),
            row >= self.data().len() ==> r is None,
    {
        if row < self.data.len() {
            Some(&self.data[row])
        } else {
            None
        }
    }

    /// Get a mutable reference by row index. Ticks are not touched.
    pub fn get_mut(&mut self, row: usize) -> (r: Option<&mut V>)
        ensures
            row < old(self).data().len() ==> {
                &&& r is Some
                &&& *r->0 == old(self).data()[row as int]
                &&& final(self).data() == old(self).data().update(row as int, *final(r->0))
            },
            row >= old(self).data().len() ==> r is None && final(self).data() == old(self).data(),
            final(self).added() == old(self).added(),
            final(self).changed() == old(self).changed(),
    {
        if row < self.data.len() {
            Some(&mut self.data[row])
        } else {
            None
        }
    }

    /// Swap-remove and return the value at `row`; the last row moves into `row`.
    pub fn swap_remove(&mut self, row: usize) -> (v: V)
        requires
            old(self).wf(),
            row < old(self).data().len(),
        ensures
            final(self).wf(),
            v == old(self).data()[row as int],
            final(self).data() == old(self).data().update(row as int, old(self).data().last()).drop_last(),
            final(self).added() == old(self).added().update(row as int, old(self).added().last()).drop_last(),
            final(self).changed() == old(self).changed().update(row as int, old(self).changed().last()).drop_last(),
    {
        self.added_ticks.swap_remove(row);
        self.changed_ticks.swap_remove(row);
        self.data.swap_remove(row)
    }

    /// Swap-remove the row at `row`, dropping its value.
    pub fn swap_remove_and_drop(&mut self, row: usize)
        requires
            old(self).wf(),
            row < old(self).data().len(),
        ensures
            final(self).wf(),
            final(self).data() == old(self).data().update(row as int, old(self).data().last()).drop_last(),
            final(self).added() == old(self).added().update(row as int, old(self).added().last()).drop_last(),
            final(self).changed() == old(self).changed().update(row as int, old(self).changed().last()).drop_last(),
    {
        let _ = self.swap_remove(row);
    }

    /// Swap-remove the row at `row`, returning its value and both ticks.
    pub fn take_cell(&mut self, row: usize) -> (r: (V, u64, u64))
        requires
            old(self).wf(),
            row < old(self).data().len(),
        ensures
            final(self).wf(),
            r.0 == old(self).data()[row as int],
            r.1 == old(self).added()[row as int],
            r.2 == old(self).changed()[row as int],
            final(self).data() == old(self).data().update(row as int, old(self).data().last()).drop_last(),
            final(self).added() == old(self).added().update(row as int, old(self).added().last()).drop_last(),
            final(self).changed() == old(self).changed().update(row as int, old(self).changed().last()).drop_last(),
    {
        let a = self.added_ticks.swap_remove(row);
        let c = self.changed_ticks.swap_remove(row);
        let v = self.data.swap_remove(row);
        (v, a, c)
    }

    /// Move the data (and ticks) at `row` into `dst`; the row is swap-removed
    /// from `self` and appended to `dst`.
    pub fn move_to(&mut self, row: usize, dst: &mut Column<V>)
        requires
            old(self).wf(),
            old(dst).wf(),
            row < old(self).data().len(),
        ensures
            final(self).wf(),
            final(dst).wf(),
            final(self).data() == old(self).data().update(row as int, old(self).data().last()).drop_last(),
            final(self).added() == old(self).added().update(row as int, old(self).added().last()).drop_last(),
            final(self).changed() == old(self).changed().update(row as int, old(self).changed().last()).drop_last(),
            final(dst).data() == old(dst).data().push(old(self).data()[row as int]),
            final(dst).added() == old(dst).added().push(old(self).added()[row as int]),
            final(dst).changed() == old(dst).changed().push(old(self).changed()[row as int]),
    {
        let (v, a, c) = self.take_cell(row);
        dst.push_with_ticks(v, a, c);
    }

    /// Number of rows.
    pub fn len(&self) -> (r: usize)
        ensures
            r == self.data().len(),
    {
        self.data.len()
    }

    /// Whether the column is empty.
    pub fn is_empty(&self) -> (r: bool)
        ensures
            r == (self.data().len() == 0),
    {
        self.data.len() == 0
    }

    /// Create an empty column of the same component type.
    pub fn new_empty(&self) -> (c: Column<V>)
        ensures
            c.wf(),
            c.data() == Seq::<V>::empty(),
    {
        Column::new()
    }

    /// All values, by row.
    pub fn iter(&self) -> (r: &[V])
        ensures
            r@ == self.data(),
    {
        self.data.as_slice()
    }

    /// All values, by row, mutably. Ticks are not touched.
    pub fn iter_mut(&mut self) -> (r: &mut [V])
        ensures
            r@ == old(self).data(),
            final(r)@ == final(self).data(),
            final(self).added() == old(self).added(),
            final(self).changed() == old(self).changed(),
    {
        self.data.as_mut_slice()
    }

    /// The added tick for `row` (0 = sentinel / never stamped).
    pub fn added_tick(&self, row: usize) -> (r: u64)
        requires
            self.wf(),
            row < self.data().len(),
        ensures
            r == self.added()[row as int],
    {
        self.added_ticks[row]
    }

    /// The changed tick for `row` (0 = sentinel / never stamped).
    pub fn changed_tick(&self, row: usize) -> (r: u64)
        requires
            self.wf(),
            row < self.data().len(),
        ensures
            r == self.changed()[row as int],
    {
        self.changed_ticks[row]
    }

    /// Stamp the added tick for `row`.
    pub fn set_added_tick(&mut self, row: usize, tick: u64)
        requires
            old(self).wf(),
            row < old(self).data().len(),
        ensures
            final(self).wf(),
            final(self).data() == old(self).data(),
            final(self).added() == old(self).added().update(row as int, tick),
            final(self).changed() == old(self).changed(),
    {
        self.added_ticks.set(row, tick);
    }

    /// Stamp the changed tick for `row`.
    pub fn set_changed_tick(&mut self, row: usize, tick: u64)
        requires
            old(self).wf(),
            row < old(self).data().len(),
        ensures
            final(self).wf(),
            final(self).data() == old(self).data(),
            final(self).added() == old(self).added(),
            final(self).changed() == old(self).changed().update(row as int, tick),
    {
        self.changed_ticks.set(row, tick);
    }

    /// Stamp both ticks at `row`.
    pub fn stamp_ticks(&mut self, row: usize, added: u64, changed: u64)
        requires
            old(self).wf(),
            row < old(self).data().len(),
        ensures
            final(self).wf(),
            final(self).data() == old(self).data(),
            final(self).added() == old(self).added().update(row as int, added),
            final(self).changed() == old(self).changed().update(row as int, changed),
    {
        self.added_ticks.set(row, added);
        self.changed_ticks.set(row, changed);
    }

    /// Stamp the changed tick of every row.
    pub fn stamp_all_changed(&mut self, tick: u64)
        requires
            old(self).wf(),
        ensures
            final(self).wf(),
            final(self).data() == old(self).data(),
            final(self).added() == old(self).added(),
            final(self).changed() == Seq::new(old(self).data().len(), |_i: int| tick),
    {
        let n = self.changed_ticks.len();
        let mut r: usize = 0;
        while r < n
            invariant
                r <= n,
                n == old(self).data().len(),
                self.data@ == old(self).data@,
                self.added_ticks@ == old(self).added_ticks@,
                self.changed_ticks@.len() == n,
                forall|j: int| 0 <= j < r ==> self.changed_ticks@[j] == tick,
            decreases n - r,
        {
            self.changed_ticks.set(r, tick);
            r = r + 1;
        }
        proof {
            assert(self.changed_ticks@ =~= Seq::new(n as nat, |_i: int| tick));
        }
    }

    /// A mutable reference to the value at `row`, stamping its changed tick.
    pub fn value_mut_stamped(&mut self, row: usize, tick: u64) -> (r: &mut V)
        requires
            old(self).wf(),
            row < old(self).data().len(),
        ensures
            *r == old(self).data()[row as int],
            final(self).data() == old(self).data().update(row as int, *final(r)),
            final(self).added() == old(self).added(),
            final(self).changed() == old(self).changed().update(row as int, tick),
        no_unwind
    {
        let t = &mut self.changed_ticks[row];
        *t = tick;
        &mut self.data[row]
    }

    /// Slice of added ticks (parallel to data rows).
    pub fn added_ticks(&self) -> (r: &[u64])
        ensures
            r@ == self.added(),
    {
        self.added_ticks.as_slice()
    }

    /// Slice of changed ticks (parallel to data rows).
    pub fn changed_ticks(&self) -> (r: &[u64])
        ensures
            r@ == self.changed(),
    {
        self.changed_ticks.as_slice()
    }
}

} // verus!

verus! {

/// The position of key `k` in a layout sequence.
pub open spec fn key_index(s: Seq<TypeKey>, k: TypeKey) -> int {
    choose|i: int| 0 <= i < s.len() && s[i] == k
}

/// In a strictly sorted layout, the position of the key at `i` is `i`.
pub proof fn lemma_key_index(s: Seq<TypeKey>, i: int)
    requires
        strictly_sorted(s),
        0 <= i < s.len(),
    ensures
        key_index(s, s[i]) == i,
{
    let j = key_index(s, s[i]);
    assert(0 <= j < s.len() && s[j] == s[i]);
    if j < i {
        assert(s[j] < s[i]);
    } else if j > i {
        assert(s[i] < s[j]);
    }
}

/// `c1` is `c0` with row `row` swap-removed (the last row moves into `row`).
pub open spec fn col_swap_removed<V>(c0: Column<V>, c1: Column<V>, row: int) -> bool {
    &&& c1.data() == c0.data().update(row, c0.data().last()).drop_last()
    &&& c1.added() == c0.added().update(row, c0.added().last()).drop_last()
    &&& c1.changed() == c0.changed().update(row, c0.changed().last()).drop_last()
}

/// `cell` holds row `row` of `c0` (value and both ticks).
pub open spec fn cell_of<V>(c0: Column<V>, row: int, cell: Cell<V>) -> bool {
    &&& cell.0 == c0.data()[row]
    &&& cell.1 == c0.added()[row]
    &&& cell.2 == c0.changed()[row]
}

/// `c1` is `c0` with `cell` appended.
pub open spec fn col_pushed<V>(c0: Column<V>, c1: Column<V>, cell: Cell<V>) -> bool {
    &&& c1.data() == c0.data().push(cell.0)
    &&& c1.added() == c0.added().push(cell.1)
    &&& c1.changed() == c0.changed().push(cell.2)
}

/// `c1` is `c0` with both ticks of row `row` overwritten.
pub open spec fn col_stamped<V>(c0: Column<V>, c1: Column<V>, row: int, added: u64, changed: u64) -> bool {
    &&& c1.data() == c0.data()
    &&& c1.added() == c0.added().update(row, added)
    &&& c1.changed() == c0.changed().update(row, changed)
}

/// Cached archetype transition when a component is added or removed.
#[derive(Clone, Copy, Debug, Default, PartialEq, Eq)]
pub struct ArchetypeEdge {
    /// Archetype reached by adding a component of this type.
    pub add: Option<ArchetypeId>,
    /// Archetype reached by removing a component of this type.
    pub remove: Option<ArchetypeId>,
}

/// One row's component value together with its added and changed ticks.
pub type Cell<V> = (V, u64, u64);

/// A group of entities that share the same set of component types.
///
/// Column `i` stores the component whose key is at position `i` of the
/// layout; row `r` of every column belongs to `entities[r]`.
pub struct Archetype<V> {
    id: ArchetypeId,
    layout: ArchetypeLayout,
    entities: Vec<Entity>,
    columns: Vec<Column<V>>,
    edges: Resources<ArchetypeEdge>,
}

impl<V> Archetype<V> {
    pub closed spec fn spec_id(&self) -> ArchetypeId {
        self.id
    }

    pub closed spec fn spec_layout(&self) -> Seq<TypeKey> {
        self.layout@
    }

    pub closed spec fn spec_entities(&self) -> Seq<Entity> {
        self.entities@
    }

    pub closed spec fn spec_columns(&self) -> Seq<Column<V>> {
        self.columns@
    }

    pub closed spec fn spec_edges(&self) -> Map<TypeKey, ArchetypeEdge> {
        self.edges@
    }

    /// Structural invariant: sorted layout with one well-formed column per key.
    pub open spec fn wf(&self) -> bool {
        &&& strictly_sorted(self.spec_layout())
        &&& self.spec_columns().len() == self.spec_layout().len()
        &&& forall|i: int| 0 <= i < self.spec_columns().len() ==> (#[trigger] self.spec_columns()[i]).wf()
        &&& self.edges_wf()
    }

    pub closed spec fn edges_wf(&self) -> bool {
        self.edges.wf()
    }

    /// Every column has exactly one row per entity.
    pub open spec fn rows_ok(&self) -> bool {
        forall|i: int| 0 <= i < self.spec_columns().len() ==> (#[trigger] self.spec_columns()[i]).data().len()
            == self.spec_entities().len()
    }

    /// The column holding component `k`.
    pub open spec fn column_of(&self, k: TypeKey) -> Column<V> {
        self.spec_columns()[key_index(self.spec_layout(), k)]
    }

    /// Create a new empty archetype with one empty column per layout key.
    pub fn new(id: ArchetypeId, layout: ArchetypeLayout) -> (a: Archetype<V>)
        requires
            layout.wf(),
        ensures
            a.wf(),
            a.rows_ok(),
            a.spec_id() == id,
            a.spec_layout() == layout@,
            a.spec_entities() == Seq::<Entity>::empty(),
            a.spec_edges() == Map::<TypeKey, ArchetypeEdge>::empty(),
    {
        let mut columns: Vec<Column<V>> = Vec::new();
        let n = layout.len();
        let mut i: usize = 0;
        while i < n
            invariant
                i <= n,
                n == layout@.len(),
                columns@.len() == i,
                forall|j: int| 0 <= j < i ==> (#[trigger] columns@[j]).wf() && columns@[j].data().len() == 0,
            decreases n - i,
        {
            columns.push(Column::new());
            i = i + 1;
        }
        Archetype { id, layout, entities: Vec::new(), columns, edges: Resources::new() }
    }

    /// The archetype's ID.
    pub fn id(&self) -> (r: ArchetypeId)
        ensures
            r == self.spec_id(),
    {
        self.id
    }

    /// The archetype's layout.
    pub fn layout(&self) -> (r: &ArchetypeLayout)
        ensures
            r@ == self.spec_layout(),
        no_unwind
    {
        &self.layout
    }

    /// Number of entities in this archetype.
    pub fn len(&self) -> (r: usize)
        ensures
            r == self.spec_entities().len(),
    {
        self.entities.len()
    }

    /// Whether this archetype has no entities.
    pub fn is_empty(&self) -> (r: bool)
        ensures
            r == (self.spec_entities().len() == 0),
    {
        self.entities.len() == 0
    }

    /// The entity stored at `row`.
    pub fn entity_at(&self, row: usize) -> (r: Entity)
        requires
            row < self.spec_entities().len(),
        ensures
            r == self.spec_entities()[row as int],
    {
        self.entities[row]
    }

    /// Slice of all entities in this archetype.
    pub fn entities(&self) -> (r: &[Entity])
        ensures
            r@ == self.spec_entities(),
    {
        self.entities.as_slice()
    }

    /// The column for component `k`, if this archetype has it.
    pub fn column(&self, k: TypeKey) -> (r: Option<&Column<V>>)
        requires
            self.wf(),
        ensures
            r is Some <==> self.spec_layout().contains(k),
            r matches Some(c) ==> *c == self.column_of(k),
    {
        match self.layout.position(k) {
            Some(i) => {
                proof {
                    lemma_key_index(self.spec_layout(), i as int);
                }
                Some(&self.columns[i])
            },
            None => None,
        }
    }

    /// The column for component `k`, mutably, if this archetype has it.
    pub fn column_mut(&mut self, k: TypeKey) -> (r: Option<&mut Column<V>>)
        requires
            old(self).wf(),
        ensures
            r is Some <==> old(self).spec_layout().contains(k),
            r matches Some(c) ==> {
                &&& *c == old(self).column_of(k)
                &&& final(self).spec_columns() == old(self).spec_columns().update(
                    key_index(old(self).spec_layout(), k),
                    *final(c),
                )
            },
            r is None ==> final(self).spec_columns() == old(self).spec_columns(),
            final(self).spec_id() == old(self).spec_id(),
            final(self).spec_layout() == old(self).spec_layout(),
            final(self).spec_entities() == old(self).spec_entities(),
            final(self).edges_wf() == old(self).edges_wf(),
            final(self).spec_edges() == old(self).spec_edges(),
    {
        match self.layout.position(k) {
            Some(i) => {
                proof {
                    lemma_key_index(self.spec_layout(), i as int);
                }
                Some(&mut self.columns[i])
            },
            None => None,
        }
    }

    /// Same as [`column`](Archetype::column).
    pub fn column_raw(&self, k: TypeKey) -> (r: Option<&Column<V>>)
        requires
            self.wf(),
        ensures
            r is Some <==> self.spec_layout().contains(k),
            r matches Some(c) ==> *c == self.column_of(k),
    {
        self.column(k)
    }

    /// Same as [`column_mut`](Archetype::column_mut).
    pub fn column_raw_mut(&mut self, k: TypeKey) -> (r: Option<&mut Column<V>>)
        requires
            old(self).wf(),
        ensures
            r is Some <==> old(self).spec_layout().contains(k),
            r matches Some(c) ==> {
                &&& *c == old(self).column_of(k)
                &&& final(self).spec_columns() == old(self).spec_columns().update(
                    key_index(old(self).spec_layout(), k),
                    *final(c),
                )
            },
            r is None ==> final(self).spec_columns() == old(self).spec_columns(),
            final(self).spec_id() == old(self).spec_id(),
            final(self).spec_layout() == old(self).spec_layout(),
            final(self).spec_entities() == old(self).spec_entities(),
            final(self).edges_wf() == old(self).edges_wf(),
            final(self).spec_edges() == old(self).spec_edges(),
    {
        self.column_mut(k)
    }

    /// Append an entity. The caller pushes one value into every column first.
    ///
    /// Returns the row index where the entity was placed.
    pub fn push_entity(&mut self, entity: Entity) -> (row: u32)
        requires
            old(self).spec_entities().len() < u32::MAX,
        ensures
            row == old(self).spec_entities().len(),
            final(self).spec_entities() == old(self).spec_entities().push(entity),
            final(self).spec_columns() == old(self).spec_columns(),
            final(self).spec_id() == old(self).spec_id(),
            final(self).spec_layout() == old(self).spec_layout(),
            final(self).edges_wf() == old(self).edges_wf(),
            final(self).spec_edges() == old(self).spec_edges(),
    {
        let row = self.entities.len() as u32;
        self.entities.push(entity);
        row
    }

    /// Swap-remove only the entity entry at `row`, without touching columns.
    ///
    /// Returns the removed entity and the entity swapped into `row`, if any.
    pub fn swap_remove_entity_entry(&mut self, row: usize) -> (r: (Entity, Option<Entity>))
        requires
            row < old(self).spec_entities().len(),
        ensures
            r.0 == old(self).spec_entities()[row as int],
            final(self).spec_entities() == old(self).spec_entities().update(
                row as int,
                old(self).spec_entities().last(),
            ).drop_last(),
            row + 1 < old(self).spec_entities().len() ==> r.1 == Some(old(self).spec_entities().last()),
            row + 1 == old(self).spec_entities().len() ==> r.1 is None,
            final(self).spec_columns() == old(self).spec_columns(),
            final(self).spec_id() == old(self).spec_id(),
            final(self).spec_layout() == old(self).spec_layout(),
            final(self).edges_wf() == old(self).edges_wf(),
            final(self).spec_edges() == old(self).spec_edges(),
    {
        let removed = self.entities.swap_remove(row);
        let moved = if row < self.entities.len() {
            Some(self.entities[row])
        } else {
            None
        };
        (removed, moved)
    }

    /// Swap-remove row `row` from every column, collecting each removed cell
    /// in layout order.
    fn take_cells(&mut self, row: usize) -> (cells: Vec<Cell<V>>)
        requires
            old(self).wf(),
            old(self).rows_ok(),
            row < old(self).spec_entities().len(),
        ensures
            final(self).wf(),
            final(self).spec_id() == old(self).spec_id(),
            final(self).spec_layout() == old(self).spec_layout(),
            final(self).spec_entities() == old(self).spec_entities(),
            final(self).spec_edges() == old(self).spec_edges(),
            final(self).spec_columns().len() == old(self).spec_columns().len(),
            cells@.len() == old(self).spec_columns().len(),
            forall|i: int| 0 <= i < cells@.len() ==> cell_of(old(self).spec_columns()[i], row as int, #[trigger] cells@[i]),
            forall|i: int| 0 <= i < cells@.len() ==>
                col_swap_removed(old(self).spec_columns()[i], #[trigger] final(self).spec_columns()[i], row as int),
    {
        let mut cells: Vec<Cell<V>> = Vec::new();
        let n = self.columns.len();
        let mut i: usize = 0;
        while i < n
            invariant
                i <= n,
                n == old(self).spec_columns().len(),
                self.spec_columns().len() == n,
                self.id == old(self).id,
                self.layout@ == old(self).layout@,
                self.entities@ == old(self).entities@,
                self.edges@ == old(self).edges@,
                self.edges.wf() == old(self).edges.wf(),
                old(self).wf(),
                old(self).rows_ok(),
                row < old(self).spec_entities().len(),
                cells@.len() == i,
                forall|j: int| i <= j < n ==> #[trigger] self.spec_columns()[j] == old(self).spec_columns()[j],
                forall|j: int| 0 <= j < i ==> cell_of(old(self).spec_columns()[j], row as int, #[trigger] cells@[j]),
                forall|j: int| 0 <= j < i ==> {
                    &&& (#[trigger] self.spec_columns()[j]).wf()
                    &&& col_swap_removed(old(self).spec_columns()[j], self.spec_columns()[j], row as int)
                },
            decreases n - i,
        {
            proof {
                assert(self.spec_columns()[i as int] == old(self).spec_columns()[i as int]);
            }
            let ghost cols_before = self.spec_columns();
            let ghost cells_before = cells@;
            let cell = self.columns[i].take_cell(row);
            cells.push(cell);
            proof {
                assert(self.spec_columns()[i as int].wf());
                assert(cells@[i as int] == cell);
                assert forall|j: int| 0 <= j < i + 1 implies cell_of(old(self).spec_columns()[j], row as int, #[trigger] cells@[j]) by {
                    if j < i {
                        assert(cells@[j] == cells_before[j]);
                    }
                }
                assert forall|j: int| 0 <= j < i + 1 implies {
                    &&& (#[trigger] self.spec_columns()[j]).wf()
                    &&& col_swap_removed(old(self).spec_columns()[j], self.spec_columns()[j], row as int)
                } by {
                    if j < i {
                        assert(self.spec_columns()[j] == cols_before[j]);
                    }
                }
            }
            i = i + 1;
        }
        cells
    }

    /// Swap-remove the entity at `row`, dropping all its component data.
    /// Returns the removed entity and the entity moved into `row`, if any.
    pub fn swap_remove_entity(&mut self, row: usize) -> (r: (Entity, Option<Entity>))
        requires
            old(self).wf(),
            old(self).rows_ok(),
            row < old(self).spec_entities().len(),
        ensures
            final(self).wf(),
            final(self).rows_ok(),
            r.0 == old(self).spec_entities()[row as int],
            final(self).spec_entities() == old(self).spec_entities().update(
                row as int,
                old(self).spec_entities().last(),
            ).drop_last(),
            row + 1 < old(self).spec_entities().len() ==> r.1 == Some(old(self).spec_entities().last()),
            row + 1 == old(self).spec_entities().len() ==> r.1 is None,
            final(self).spec_id() == old(self).spec_id(),
            final(self).spec_layout() == old(self).spec_layout(),
            final(self).spec_edges() == old(self).spec_edges(),
            final(self).spec_columns().len() == old(self).spec_columns().len(),
            forall|i: int| 0 <= i < old(self).spec_columns().len() ==>
                col_swap_removed(old(self).spec_columns()[i], #[trigger] final(self).spec_columns()[i], row as int),
    {
        let _cells = self.take_cells(row);
        let r = self.swap_remove_entity_entry(row);
        proof {
            assert forall|i: int| 0 <= i < self.spec_columns().len() implies
                (#[trigger] self.spec_columns()[i]).data().len() == self.spec_entities().len() by {
                assert(old(self).spec_columns()[i].data().len() == old(self).spec_entities().len());
            }
        }
        r
    }

    /// Remove the entity at `row` together with its cells (in layout order).
    /// Returns the cells, the removed entity and the entity moved into `row`.
    pub fn take_row(&mut self, row: usize) -> (r: (Vec<Cell<V>>, Entity, Option<Entity>))
        requires
            old(self).wf(),
            old(self).rows_ok(),
            row < old(self).spec_entities().len(),
        ensures
            final(self).wf(),
            final(self).rows_ok(),
            r.1 == old(self).spec_entities()[row as int],
            final(self).spec_entities() == old(self).spec_entities().update(
                row as int,
                old(self).spec_entities().last(),
            ).drop_last(),
            row + 1 < old(self).spec_entities().len() ==> r.2 == Some(old(self).spec_entities().last()),
            row + 1 == old(self).spec_entities().len() ==> r.2 is None,
            final(self).spec_id() == old(self).spec_id(),
            final(self).spec_layout() == old(self).spec_layout(),
            final(self).spec_edges() == old(self).spec_edges(),
            final(self).spec_columns().len() == old(self).spec_columns().len(),
            r.0@.len() == old(self).spec_columns().len(),
            forall|i: int| 0 <= i < old(self).spec_columns().len() ==> cell_of(old(self).spec_columns()[i], row as int, #[trigger] r.0@[i]),
            forall|i: int| 0 <= i < old(self).spec_columns().len() ==>
                col_swap_removed(old(self).spec_columns()[i], #[trigger] final(self).spec_columns()[i], row as int),
    {
        let cells = self.take_cells(row);
        let (removed, moved) = self.swap_remove_entity_entry(row);
        proof {
            assert forall|i: int| 0 <= i < self.spec_columns().len() implies
                (#[trigger] self.spec_columns()[i]).data().len() == self.spec_entities().len() by {
                assert(old(self).spec_columns()[i].data().len() == old(self).spec_entities().len());
            }
        }
        (cells, removed, moved)
    }

    /// Append a row: cell `i` goes to column `i`, then the entity is appended.
    pub fn push_row(&mut self, cells: Vec<Cell<V>>, entity: Entity) -> (row: u32)
        requires
            old(self).wf(),
            old(self).rows_ok(),
            cells@.len() == old(self).spec_columns().len(),
            old(self).spec_entities().len() < u32::MAX,
        ensures
            final(self).wf(),
            final(self).rows_ok(),
            row == old(self).spec_entities().len(),
            final(self).spec_entities() == old(self).spec_entities().push(entity),
            final(self).spec_id() == old(self).spec_id(),
            final(self).spec_layout() == old(self).spec_layout(),
            final(self).spec_edges() == old(self).spec_edges(),
            final(self).spec_columns().len() == old(self).spec_columns().len(),
            forall|i: int| 0 <= i < old(self).spec_columns().len() ==>
                col_pushed(old(self).spec_columns()[i], #[trigger] final(self).spec_columns()[i], cells@[i]),
    {
        let ghost cells0 = cells@;
        let mut cells = cells;
        let n = self.columns.len();
        let mut i: usize = n;
        while i > 0
            invariant
                i <= n,
                n == old(self).spec_columns().len(),
                cells@.len() == i,
                forall|j: int| 0 <= j < i ==> #[trigger] cells@[j] == cells0[j],
                self.spec_columns().len() == n,
                self.id == old(self).id,
                self.layout@ == old(self).layout@,
                self.entities@ == old(self).entities@,
                self.edges@ == old(self).edges@,
                self.edges.wf() == old(self).edges.wf(),
                old(self).wf(),
                old(self).rows_ok(),
                forall|j: int| 0 <= j < i ==> #[trigger] self.spec_columns()[j] == old(self).spec_columns()[j],
                forall|j: int| i <= j < n ==> {
                    &&& (#[trigger] self.spec_columns()[j]).wf()
                    &&& col_pushed(old(self).spec_columns()[j], self.spec_columns()[j], cells0[j])
                },
            decreases i,
        {
            let (v, a, c) = cells.pop().unwrap();
            i = i - 1;
            proof {
                assert(self.spec_columns()[i as int] == old(self).spec_columns()[i as int]);
            }
            self.columns[i].push_with_ticks(v, a, c);
        }
        let row = self.entities.len() as u32;
        self.entities.push(entity);
        row
    }

    /// Split-borrow: shared entity slice + exclusive column reference.
    ///
    /// Returns `None` if the archetype doesn't contain component `k`.
    pub fn entities_and_column_mut(&mut self, k: TypeKey) -> (r: Option<(&[Entity], &mut Column<V>)>)
        requires
            old(self).wf(),
        ensures
            r is Some <==> old(self).spec_layout().contains(k),
            r matches Some(p) ==> {
                &&& p.0@ == old(self).spec_entities()
                &&& *p.1 == old(self).column_of(k)
                &&& final(self).spec_columns() == old(self).spec_columns().update(
                    key_index(old(self).spec_layout(), k),
                    *final(p.1),
                )
            },
            r is None ==> final(self).spec_columns() == old(self).spec_columns(),
            final(self).spec_id() == old(self).spec_id(),
            final(self).spec_layout() == old(self).spec_layout(),
            final(self).spec_entities() == old(self).spec_entities(),
            final(self).spec_edges() == old(self).spec_edges(),
    {
        match self.layout.position(k) {
            Some(i) => {
                proof {
                    lemma_key_index(self.spec_layout(), i as int);
                }
                let Archetype { entities, columns, .. } = self;
                Some((entities.as_slice(), &mut columns[i]))
            },
            None => None,
        }
    }

    /// Split-borrow: shared entity slice + two distinct exclusive columns.
    ///
    /// Returns `None` unless the archetype contains both `a` and `b`, which
    /// must differ.
    pub fn entities_and_two_columns_mut(&mut self, a: TypeKey, b: TypeKey) -> (r: Option<(&[Entity], &mut Column<V>, &mut Column<V>)>)
        requires
            old(self).wf(),
            a != b,
        ensures
            r is Some <==> old(self).spec_layout().contains(a) && old(self).spec_layout().contains(b),
            r matches Some(p) ==> {
                &&& p.0@ == old(self).spec_entities()
                &&& *p.1 == old(self).column_of(a)
                &&& *p.2 == old(self).column_of(b)
                &&& final(self).spec_columns() == old(self).spec_columns().update(
                    key_index(old(self).spec_layout(), a),
                    *final(p.1),
                ).update(key_index(old(self).spec_layout(), b), *final(p.2))
            },
            r is None ==> final(self).spec_columns() == old(self).spec_columns(),
            final(self).spec_id() == old(self).spec_id(),
            final(self).spec_layout() == old(self).spec_layout(),
            final(self).spec_entities() == old(self).spec_entities(),
            final(self).spec_edges() == old(self).spec_edges(),
    {
        match (self.layout.position(a), self.layout.position(b)) {
            (Some(i), Some(j)) => {
                proof {
                    lemma_key_index(self.spec_layout(), i as int);
                    lemma_key_index(self.spec_layout(), j as int);
                }
                let Archetype { entities, columns, .. } = self;
                let (ci, cj) = two_mut(columns, i, j);
                Some((entities.as_slice(), ci, cj))
            },
            _ => None,
        }
    }

    /// The entities and three distinct columns of this archetype, all at
    /// once (`None` unless the layout has all three keys).
    pub fn entities_and_three_columns_mut(&mut self, a: TypeKey, b: TypeKey, c: TypeKey) -> (r: Option<(&[Entity], &mut Column<V>, &mut Column<V>, &mut Column<V>)>)
        requires
            old(self).wf(),
            a != b,
            a != c,
            b != c,
        ensures
            r is Some <==> old(self).spec_layout().contains(a) && old(self).spec_layout().contains(b)
                && old(self).spec_layout().contains(c),
            r matches Some(p) ==> {
                &&& p.0@ == old(self).spec_entities()
                &&& *p.1 == old(self).column_of(a)
                &&& *p.2 == old(self).column_of(b)
                &&& *p.3 == old(self).column_of(c)
                &&& final(self).spec_columns() == old(self).spec_columns().update(
                    key_index(old(self).spec_layout(), a),
                    *final(p.1),
                ).update(key_index(old(self).spec_layout(), b), *final(p.2)).update(
                    key_index(old(self).spec_layout(), c),
                    *final(p.3),
                )
            },
            r is None ==> final(self).spec_columns() == old(self).spec_columns(),
            final(self).spec_id() == old(self).spec_id(),
            final(self).spec_layout() == old(self).spec_layout(),
            final(self).spec_entities() == old(self).spec_entities(),
            final(self).spec_edges() == old(self).spec_edges(),
    {
        match (self.layout.position(a), self.layout.position(b), self.layout.position(c)) {
            (Some(i), Some(j), Some(k)) => {
                proof {
                    lemma_key_index(self.spec_layout(), i as int);
                    lemma_key_index(self.spec_layout(), j as int);
                    lemma_key_index(self.spec_layout(), k as int);
                }
                let Archetype { entities, columns, .. } = self;
                let (ci, cj, ck) = three_mut(columns, i, j, k);
                Some((entities.as_slice(), ci, cj, ck))
            },
            _ => None,
        }
    }

    /// Stamp added/changed ticks on every column at `row`.
    pub fn stamp_all_ticks(&mut self, row: u32, added: u64, changed: u64)
        requires
            old(self).wf(),
            old(self).rows_ok(),
            row < old(self).spec_entities().len(),
        ensures
            final(self).wf(),
            final(self).rows_ok(),
            final(self).spec_id() == old(self).spec_id(),
            final(self).spec_layout() == old(self).spec_layout(),
            final(self).spec_entities() == old(self).spec_entities(),
            final(self).spec_edges() == old(self).spec_edges(),
            final(self).spec_columns().len() == old(self).spec_columns().len(),
            forall|i: int| 0 <= i < old(self).spec_columns().len() ==>
                col_stamped(old(self).spec_columns()[i], #[trigger] final(self).spec_columns()[i], row as int, added, changed),
    {
        let n = self.columns.len();
        let mut i: usize = 0;
        while i < n
            invariant
                i <= n,
                n == old(self).spec_columns().len(),
                self.spec_columns().len() == n,
                self.id == old(self).id,
                self.layout@ == old(self).layout@,
                self.entities@ == old(self).entities@,
                self.edges@ == old(self).edges@,
                self.edges.wf() == old(self).edges.wf(),
                old(self).wf(),
                old(self).rows_ok(),
                row < old(self).spec_entities().len(),
                forall|j: int| i <= j < n ==> #[trigger] self.spec_columns()[j] == old(self).spec_columns()[j],
                forall|j: int| 0 <= j < i ==> {
                    &&& (#[trigger] self.spec_columns()[j]).wf()
                    &&& col_stamped(old(self).spec_columns()[j], self.spec_columns()[j], row as int, added, changed)
                },
            decreases n - i,
        {
            proof {
                assert(self.spec_columns()[i as int] == old(self).spec_columns()[i as int]);
            }
            self.columns[i].stamp_ticks(row as usize, added, changed);
            i = i + 1;
        }
    }

    /// Stamp added/changed ticks on the column of component `k` at `row`
    /// (no-op when the archetype lacks `k`).
    pub fn stamp_column_ticks(&mut self, k: TypeKey, row: u32, added: u64, changed: u64)
        requires
            old(self).wf(),
            old(self).rows_ok(),
            row < old(self).spec_entities().len(),
        ensures
            final(self).wf(),
            final(self).rows_ok(),
            final(self).spec_id() == old(self).spec_id(),
            final(self).spec_layout() == old(self).spec_layout(),
            final(self).spec_entities() == old(self).spec_entities(),
            final(self).spec_edges() == old(self).spec_edges(),
            final(self).spec_columns().len() == old(self).spec_columns().len(),
            forall|i: int| 0 <= i < old(self).spec_columns().len() ==> {
                let c0 = old(self).spec_columns()[i];
                let c1 = #[trigger] final(self).spec_columns()[i];
                &&& c1.data() == c0.data()
                &&& (old(self).spec_layout()[i] == k) ==> c1.added() == c0.added().update(row as int, added)
                    && c1.changed() == c0.changed().update(row as int, changed)
                &&& (old(self).spec_layout()[i] != k) ==> c1.added() == c0.added() && c1.changed() == c0.changed()
            },
    {
        match self.layout.position(k) {
            Some(i) => {
                self.columns[i].stamp_ticks(row as usize, added, changed);
                proof {
                    assert forall|j: int| 0 <= j < old(self).spec_columns().len() && j != i implies
                        old(self).spec_layout()[j] != k by {
                        if j < i {
                            assert(old(self).spec_layout()[j] < old(self).spec_layout()[i as int]);
                        } else {
                            assert(old(self).spec_layout()[i as int] < old(self).spec_layout()[j]);
                        }
                    }
                }
            },
            None => {},
        }
    }

    /// Overwrite the value of component `k` at `row` and stamp its changed
    /// tick; the added tick is kept.
    pub fn overwrite(&mut self, k: TypeKey, row: usize, value: V, changed: u64)
        requires
            old(self).wf(),
            old(self).rows_ok(),
            old(self).spec_layout().contains(k),
            row < old(self).spec_entities().len(),
        ensures
            final(self).wf(),
            final(self).rows_ok(),
            final(self).spec_id() == old(self).spec_id(),
            final(self).spec_layout() == old(self).spec_layout(),
            final(self).spec_entities() == old(self).spec_entities(),
            final(self).spec_edges() == old(self).spec_edges(),
            final(self).spec_columns().len() == old(self).spec_columns().len(),
            forall|i: int| 0 <= i < old(self).spec_columns().len() && i != key_index(old(self).spec_layout(), k) ==>
                #[trigger] final(self).spec_columns()[i] == old(self).spec_columns()[i],
            ({
                let i = key_index(old(self).spec_layout(), k);
                let c0 = old(self).spec_columns()[i];
                let c1 = final(self).spec_columns()[i];
                &&& c1.data() == c0.data().update(row as int, value)
                &&& c1.added() == c0.added()
                &&& c1.changed() == c0.changed().update(row as int, changed)
            }),
    {
        let i = self.layout.position(k).unwrap();
        proof {
            lemma_key_index(self.spec_layout(), i as int);
        }
        let ghost c0 = self.columns@[i as int];
        let mut col = self.columns.remove(i);
        if let Some(slot) = col.get_mut(row) {
            *slot = value;
        }
        col.set_changed_tick(row, changed);
        self.columns.insert(i, col);
        proof {
            assert forall|j: int| 0 <= j < self.spec_columns().len() && j != i implies
                #[trigger] self.spec_columns()[j] == old(self).spec_columns()[j] by {}
            assert forall|j: int| 0 <= j < self.spec_columns().len() implies (#[trigger] self.spec_columns()[j]).wf() by {
                if j != i {
                    assert(self.spec_columns()[j] == old(self).spec_columns()[j]);
                }
            }
            assert forall|j: int| 0 <= j < self.spec_columns().len() implies (#[trigger] self.spec_columns()[j]).data().len()
                == self.spec_entities().len() by {
                if j != i {
                    assert(self.spec_columns()[j] == old(self).spec_columns()[j]);
                }
            }
        }
    }

    /// Stamp the changed tick of component `k` on every row (no-op when the
    /// archetype lacks `k`).
    pub fn stamp_changed_all(&mut self, k: TypeKey, tick: u64)
        requires
            old(self).wf(),
            old(self).rows_ok(),
        ensures
            final(self).wf(),
            final(self).rows_ok(),
            final(self).spec_id() == old(self).spec_id(),
            final(self).spec_layout() == old(self).spec_layout(),
            final(self).spec_entities() == old(self).spec_entities(),
            final(self).spec_edges() == old(self).spec_edges(),
            final(self).spec_columns().len() == old(self).spec_columns().len(),
            forall|i: int| 0 <= i < old(self).spec_columns().len() && old(self).spec_layout()[i] != k ==>
                #[trigger] final(self).spec_columns()[i] == old(self).spec_columns()[i],
            forall|i: int| 0 <= i < old(self).spec_columns().len() && old(self).spec_layout()[i] == k ==> {
                let c0 = old(self).spec_columns()[i];
                let c1 = #[trigger] final(self).spec_columns()[i];
                &&& c1.data() == c0.data()
                &&& c1.added() == c0.added()
                &&& c1.changed() == Seq::new(c0.data().len(), |_j: int| tick)
            },
    {
        match self.layout.position(k) {
            Some(i) => {
                self.columns[i].stamp_all_changed(tick);
                proof {
                    assert forall|j: int| 0 <= j < old(self).spec_columns().len() && old(self).spec_layout()[j] == k implies j == i by {
                        if j < i {
                            assert(old(self).spec_layout()[j] < old(self).spec_layout()[i as int]);
                        } else if j > i {
                            assert(old(self).spec_layout()[i as int] < old(self).spec_layout()[j]);
                        }
                    }
                    assert forall|j: int| 0 <= j < self.spec_columns().len() implies (#[trigger] self.spec_columns()[j]).wf() by {}
                }
            },
            None => {
                proof {
                    assert forall|j: int| 0 <= j < old(self).spec_columns().len() implies old(self).spec_layout()[j] != k by {
                        if old(self).spec_layout()[j] == k {
                            assert(old(self).spec_layout().contains(k));
                        }
                    }
                }
            },
        }
    }

    /// A mutable reference to component `k` at `row`, stamping its changed tick.
    pub fn cell_mut(&mut self, k: TypeKey, row: usize, tick: u64) -> (r: &mut V)
        requires
            old(self).wf(),
            old(self).rows_ok(),
            old(self).spec_layout().contains(k),
            row < old(self).spec_entities().len(),
        ensures
            *r == old(self).column_of(k).data()[row as int],
            final(self).spec_id() == old(self).spec_id(),
            final(self).spec_layout() == old(self).spec_layout(),
            final(self).spec_entities() == old(self).spec_entities(),
            final(self).spec_edges() == old(self).spec_edges(),
            final(self).edges_wf() == old(self).edges_wf(),
            final(self).spec_columns() == old(self).spec_columns().update(
                key_index(old(self).spec_layout(), k),
                final(self).spec_columns()[key_index(old(self).spec_layout(), k)],
            ),
            ({
                let c0 = old(self).column_of(k);
                let c1 = final(self).spec_columns()[key_index(old(self).spec_layout(), k)];
                &&& c1.wf()
                &&& c1.data() == c0.data().update(row as int, *final(r))
                &&& c1.added() == c0.added()
                &&& c1.changed() == c0.changed().update(row as int, tick)
            }),
        no_unwind
    {
        let i = self.layout.position_nu(k);
        proof {
            lemma_key_index(self.spec_layout(), i as int);
            assert(self.spec_columns()[i as int].data().len() == self.spec_entities().len());
        }
        self.columns[i].value_mut_stamped(row, tick)
    }

    /// Get the edge cache entry for a component type.
    pub fn edge(&self, k: TypeKey) -> (r: Option<&ArchetypeEdge>)
        requires
            self.wf(),
        ensures
            r is Some <==> self.spec_edges().contains_key(k),
            r matches Some(e) ==> *e == self.spec_edges()[k],
    {
        self.edges.try_get(k)
    }

    /// Insert or update an edge cache entry.
    pub fn set_edge(&mut self, k: TypeKey, edge: ArchetypeEdge)
        requires
            old(self).wf(),
        ensures
            final(self).wf(),
            old(self).rows_ok() ==> final(self).rows_ok(),
            final(self).spec_edges() == old(self).spec_edges().insert(k, edge),
            final(self).spec_id() == old(self).spec_id(),
            final(self).spec_layout() == old(self).spec_layout(),
            final(self).spec_entities() == old(self).spec_entities(),
            final(self).spec_columns() == old(self).spec_columns(),
    {
        self.edges.insert(k, edge);
    }
}

} // verus!

verus! {

/// Two distinct elements of a slice, both mutably.
fn two_mut_slice<T>(s: &mut [T], i: usize, j: usize) -> (r: (&mut T, &mut T))
    requires
        i < old(s)@.len(),
        j < old(s)@.len(),
        i != j,
    ensures
        *r.0 == old(s)@[i as int],
        *r.1 == old(s)@[j as int],
        final(s)@ == old(s)@.update(i as int, *final(r.0)).update(j as int, *final(r.1)),
{
    if i < j {
        let (lo, hi) = s.split_at_mut(j);
        let (_, rest) = lo.split_at_mut(i);
        let x = rest.first_mut().unwrap();
        let y = hi.first_mut().unwrap();
        (x, y)
    } else {
        let (lo, hi) = s.split_at_mut(i);
        let (_, rest) = lo.split_at_mut(j);
        let y = rest.first_mut().unwrap();
        let x = hi.first_mut().unwrap();
        (x, y)
    }
}

/// Two distinct elements of a vector, both mutably.
pub fn two_mut<T>(v: &mut Vec<T>, i: usize, j: usize) -> (r: (&mut T, &mut T))
    requires
        i < old(v)@.len(),
        j < old(v)@.len(),
        i != j,
    ensures
        *r.0 == old(v)@[i as int],
        *r.1 == old(v)@[j as int],
        final(v)@ == old(v)@.update(i as int, *final(r.0)).update(j as int, *final(r.1)),
{
    two_mut_slice(v.as_mut_slice(), i, j)
}

/// Three distinct elements of a vector, all mutably.
pub fn three_mut<T>(v: &mut Vec<T>, i: usize, j: usize, k: usize) -> (r: (&mut T, &mut T, &mut T))
    requires
        i < old(v)@.len(),
        j < old(v)@.len(),
        k < old(v)@.len(),
        i != j,
        i != k,
        j != k,
    ensures
        *r.0 == old(v)@[i as int],
        *r.1 == old(v)@[j as int],
        *r.2 == old(v)@[k as int],
        final(v)@ == old(v)@.update(i as int, *final(r.0)).update(j as int, *final(r.1)).update(
            k as int,
            *final(r.2),
        ),
{
    let s = v.as_mut_slice();
    if i > j && i > k {
        let (lo, hi) = s.split_at_mut(i);
        let x = hi.first_mut().unwrap();
        let (y, z) = two_mut_slice(lo, j, k);
        (x, y, z)
    } else if j > k {
        let (lo, hi) = s.split_at_mut(j);
        let y = hi.first_mut().unwrap();
        let (x, z) = two_mut_slice(lo, i, k);
        (x, y, z)
    } else {
        let (lo, hi) = s.split_at_mut(k);
        let z = hi.first_mut().unwrap();
        let (x, y) = two_mut_slice(lo, i, j);
        (x, y, z)
    }
}

/// Registry of all archetypes, indexed by layout.
pub struct ArchetypeStore<V> {
    archetypes: Vec<Archetype<V>>,
    /// Component keys registered for column creation.
    registered: Vec<TypeKey>,
}

impl<V> ArchetypeStore<V> {
    pub closed spec fn spec_archetypes(&self) -> Seq<Archetype<V>> {
        self.archetypes@
    }

    pub closed spec fn spec_registered(&self) -> Seq<TypeKey> {
        self.registered@
    }

    /// Store invariant: archetype `i` has id `i` and a well-formed shape, no
    /// two archetypes share a layout, and every layout key is registered.
    pub open spec fn wf(&self) -> bool {
        &&& self.spec_archetypes().len() <= u32::MAX
        &&& forall|i: int| 0 <= i < self.spec_archetypes().len() ==> {
            &&& (#[trigger] self.spec_archetypes()[i]).wf()
            &&& self.spec_archetypes()[i].spec_id() == ArchetypeId(i as u32)
        }
        &&& forall|i: int, j: int|
            0 <= i < self.spec_archetypes().len() && 0 <= j < self.spec_archetypes().len() && i != j
                ==> (#[trigger] self.spec_archetypes()[i]).spec_layout() != (#[trigger] self.spec_archetypes()[j]).spec_layout()
        &&& forall|i: int, k: TypeKey|
            0 <= i < self.spec_archetypes().len() && (#[trigger] self.spec_archetypes()[i].spec_layout().contains(k))
                ==> self.spec_registered().contains(k)
    }

    /// Some archetype has exactly layout `l`.
    pub open spec fn has_layout(&self, l: Seq<TypeKey>) -> bool {
        exists|i: int| 0 <= i < self.spec_archetypes().len() && (#[trigger] self.spec_archetypes()[i]).spec_layout() == l
    }

    /// Create an empty store.
    pub fn new() -> (s: ArchetypeStore<V>)
        ensures
            s.wf(),
            s.spec_archetypes() == Seq::<Archetype<V>>::empty(),
            s.spec_registered() == Seq::<TypeKey>::empty(),
    {
        ArchetypeStore { archetypes: Vec::new(), registered: Vec::new() }
    }

    /// Register component `k` so that layouts containing it can be created.
    pub fn register_column(&mut self, k: TypeKey)
        requires
            old(self).wf(),
        ensures
            final(self).wf(),
            final(self).spec_archetypes() == old(self).spec_archetypes(),
            final(self).spec_registered().contains(k),
            forall|x: TypeKey| old(self).spec_registered().contains(x) ==> final(self).spec_registered().contains(x),
    {
        if self.is_registered(k) {
            return;
        }
        self.registered.push(k);
        proof {
            assert(self.spec_registered()[old(self).spec_registered().len() as int] == k);
            assert forall|x: TypeKey| old(self).spec_registered().contains(x) implies self.spec_registered().contains(x) by {
                let j = choose|j: int| 0 <= j < old(self).spec_registered().len() && old(self).spec_registered()[j] == x;
                assert(self.spec_registered()[j] == x);
            }
        }
    }

    /// Whether component `k` is registered.
    pub fn is_registered(&self, k: TypeKey) -> (r: bool)
        ensures
            r == self.spec_registered().contains(k),
    {
        let mut i: usize = 0;
        while i < self.registered.len()
            invariant
                i <= self.registered@.len(),
                forall|j: int| 0 <= j < i ==> self.registered@[j] != k,
            decreases self.registered@.len() - i,
        {
            if self.registered[i] == k {
                return true;
            }
            i = i + 1;
        }
        false
    }

    /// The index of the archetype with layout `layout`, if any.
    pub fn find(&self, layout: &ArchetypeLayout) -> (r: Option<ArchetypeId>)
        requires
            self.wf(),
        ensures
            r is Some <==> self.has_layout(layout@),
            r matches Some(id) ==> id.0 < self.spec_archetypes().len()
                && self.spec_archetypes()[id.0 as int].spec_layout() == layout@,
    {
        let mut i: usize = 0;
        while i < self.archetypes.len()
            invariant
                i <= self.spec_archetypes().len(),
                self.wf(),
                forall|j: int| 0 <= j < i ==> (#[trigger] self.spec_archetypes()[j]).spec_layout() != layout@,
            decreases self.spec_archetypes().len() - i,
        {
            if self.archetypes[i].layout().same_as(layout) {
                return Some(ArchetypeId(i as u32));
            }
            i = i + 1;
        }
        None
    }

    /// Look up or create the archetype for `layout`.
    ///
    /// Every key of `layout` must be registered, and creating a new archetype
    /// needs room for one more id.
    pub fn get_or_create(&mut self, layout: ArchetypeLayout) -> (id: ArchetypeId)
        requires
            old(self).wf(),
            layout.wf(),
            forall|k: TypeKey| layout@.contains(k) ==> old(self).spec_registered().contains(k),
            old(self).has_layout(layout@) || old(self).spec_archetypes().len() < u32::MAX,
        ensures
            final(self).wf(),
            final(self).spec_registered() == old(self).spec_registered(),
            id.0 < final(self).spec_archetypes().len(),
            final(self).spec_archetypes()[id.0 as int].spec_layout() == layout@,
            old(self).has_layout(layout@) ==> final(self).spec_archetypes() == old(self).spec_archetypes(),
            !old(self).has_layout(layout@) ==> {
                &&& id.0 == old(self).spec_archetypes().len()
                &&& final(self).spec_archetypes().len() == old(self).spec_archetypes().len() + 1
                &&& final(self).spec_archetypes().subrange(0, id.0 as int) == old(self).spec_archetypes()
                &&& final(self).spec_archetypes()[id.0 as int].rows_ok()
                &&& final(self).spec_archetypes()[id.0 as int].spec_entities().len() == 0
            },
    {
        match self.find(&layout) {
            Some(id) => id,
            None => {
                let id = ArchetypeId(self.archetypes.len() as u32);
                let arch = Archetype::new(id, layout);
                self.archetypes.push(arch);
                proof {
                    let a0 = old(self).spec_archetypes();
                    let a1 = self.spec_archetypes();
                    assert(a1.subrange(0, id.0 as int) =~= a0);
                    assert forall|i: int, j: int|
                        0 <= i < a1.len() && 0 <= j < a1.len() && i != j implies
                        (#[trigger] a1[i]).spec_layout() != (#[trigger] a1[j]).spec_layout() by {
                        if i < a0.len() && j < a0.len() {
                            assert(a1[i] == a0[i] && a1[j] == a0[j]);
                        } else if i < a0.len() {
                            assert(a1[i] == a0[i]);
                        } else {
                            assert(a1[j] == a0[j]);
                        }
                    }
                    assert forall|i: int, k: TypeKey|
                        0 <= i < a1.len() && #[trigger] a1[i].spec_layout().contains(k) implies
                        self.spec_registered().contains(k) by {
                        if i < a0.len() {
                            assert(a1[i] == a0[i]);
                        }
                    }
                    assert forall|i: int| 0 <= i < a1.len() implies {
                        &&& (#[trigger] a1[i]).wf()
                        &&& a1[i].spec_id() == ArchetypeId(i as u32)
                    } by {
                        if i < a0.len() {
                            assert(a1[i] == a0[i]);
                        }
                    }
                }
                id
            },
        }
    }

    /// Get an archetype by ID.
    pub fn get(&self, id: ArchetypeId) -> (r: &Archetype<V>)
        requires
            id.0 < self.spec_archetypes().len(),
        ensures
            *r == self.spec_archetypes()[id.0 as int],
        no_unwind
    {
        &self.archetypes[id.0 as usize]
    }

    /// Get an archetype by its dense store index.
    pub fn get_by_index(&self, index: usize) -> (r: Option<&Archetype<V>>)
        ensures
            index < self.spec_archetypes().len() ==> r == Some(&self.spec_archetypes()[index as int]),
            index >= self.spec_archetypes().len() ==> r is None,
    {
        if index < self.archetypes.len() {
            Some(&self.archetypes[index])
        } else {
            None
        }
    }

    /// Get a mutable archetype by ID.
    pub fn get_mut(&mut self, id: ArchetypeId) -> (r: &mut Archetype<V>)
        requires
            id.0 < old(self).spec_archetypes().len(),
        ensures
            *r == old(self).spec_archetypes()[id.0 as int],
            final(self).spec_archetypes() == old(self).spec_archetypes().update(id.0 as int, *final(r)),
            final(self).spec_registered() == old(self).spec_registered(),
        no_unwind
    {
        &mut self.archetypes[id.0 as usize]
    }

    /// Two distinct archetypes, both mutably.
    pub fn get_two_mut(&mut self, a: ArchetypeId, b: ArchetypeId) -> (r: (&mut Archetype<V>, &mut Archetype<V>))
        requires
            a.0 < old(self).spec_archetypes().len(),
            b.0 < old(self).spec_archetypes().len(),
            a != b,
        ensures
            *r.0 == old(self).spec_archetypes()[a.0 as int],
            *r.1 == old(self).spec_archetypes()[b.0 as int],
            final(self).spec_archetypes() == old(self).spec_archetypes().update(a.0 as int, *final(r.0)).update(
                b.0 as int,
                *final(r.1),
            ),
            final(self).spec_registered() == old(self).spec_registered(),
    {
        two_mut(&mut self.archetypes, a.0 as usize, b.0 as usize)
    }

    /// Number of archetypes.
    pub fn len(&self) -> (r: usize)
        ensures
            r == self.spec_archetypes().len(),
    {
        self.archetypes.len()
    }

    /// Whether the store has no archetypes.
    pub fn is_empty(&self) -> (r: bool)
        ensures
            r == (self.spec_archetypes().len() == 0),
    {
        self.archetypes.len() == 0
    }

    /// All archetypes, in id order.
    pub fn iter(&self) -> (r: &[Archetype<V>])
        ensures
            r@ == self.spec_archetypes(),
    {
        self.archetypes.as_slice()
    }

    /// All archetypes, in id order, mutably.
    pub fn iter_mut(&mut self) -> (r: &mut [Archetype<V>])
        ensures
            r@ == old(self).spec_archetypes(),
            final(r)@ == final(self).spec_archetypes(),
            final(self).spec_registered() == old(self).spec_registered(),
    {
        self.archetypes.as_mut_slice()
    }
}

} // verus!

verus! {

/// Replacing one archetype by a well-formed one with the same id and layout
/// keeps the store well-formed.
pub proof fn lemma_store_update<V>(s0: ArchetypeStore<V>, s1: ArchetypeStore<V>, i: int)
    requires
        s0.wf(),
        0 <= i < s0.spec_archetypes().len(),
        s1.spec_registered() == s0.spec_registered(),
        s1.spec_archetypes().len() == s0.spec_archetypes().len(),
        forall|j: int| 0 <= j < s0.spec_archetypes().len() && j != i ==> #[trigger] s1.spec_archetypes()[j] == s0.spec_archetypes()[j],
        s1.spec_archetypes()[i].wf(),
        s1.spec_archetypes()[i].spec_id() == s0.spec_archetypes()[i].spec_id(),
        s1.spec_archetypes()[i].spec_layout() == s0.spec_archetypes()[i].spec_layout(),
    ensures
        s1.wf(),
{
    let a0 = s0.spec_archetypes();
    let a1 = s1.spec_archetypes();
    assert forall|j: int| 0 <= j < a1.len() implies {
        &&& (#[trigger] a1[j]).wf()
        &&& a1[j].spec_id() == ArchetypeId(j as u32)
    } by {
        if j != i {
            assert(a1[j] == a0[j]);
        }
    }
    assert forall|j: int, k: int| 0 <= j < a1.len() && 0 <= k < a1.len() && j != k implies
        (#[trigger] a1[j]).spec_layout() != (#[trigger] a1[k]).spec_layout() by {
        assert(a1[j].spec_layout() == a0[j].spec_layout()) by {
            if j != i {
                assert(a1[j] == a0[j]);
            }
        }
        assert(a1[k].spec_layout() == a0[k].spec_layout()) by {
            if k != i {
                assert(a1[k] == a0[k]);
            }
        }
    }
    assert forall|j: int, k: TypeKey| 0 <= j < a1.len() && #[trigger] a1[j].spec_layout().contains(k) implies
        s1.spec_registered().contains(k) by {
        assert(a1[j].spec_layout() == a0[j].spec_layout()) by {
            if j != i {
                assert(a1[j] == a0[j]);
            }
        }
    }
}


/// Asking the store for one layout twice gives the same archetype: the second
/// call finds the archetype that the first one found or created, and leaves
/// the store's archetypes as they were.
pub proof fn lemma_get_or_create_twice<V>(
    l: Seq<TypeKey>,
    s1: ArchetypeStore<V>,
    id1: ArchetypeId,
    s2: ArchetypeStore<V>,
    id2: ArchetypeId,
)
    requires
        s1.wf(),
        id1.0 < s1.spec_archetypes().len(),
        s1.spec_archetypes()[id1.0 as int].spec_layout() == l,
        id2.0 < s2.spec_archetypes().len(),
        s2.spec_archetypes()[id2.0 as int].spec_layout() == l,
        s1.has_layout(l) ==> s2.spec_archetypes() == s1.spec_archetypes(),
    ensures
        id2 == id1,
        s2.spec_archetypes() == s1.spec_archetypes(),
{
    assert(s1.has_layout(l));
    let a = s1.spec_archetypes();
    if id1.0 != id2.0 {
        assert(a[id1.0 as int].spec_layout() != a[id2.0 as int].spec_layout());
    }
}

} // verus!
