use vstd::prelude::*;

use crate::archetype::{
    key_index, lemma_key_index, lemma_store_update, Archetype, ArchetypeId, ArchetypeLayout,
    ArchetypeStore, Cell, Column, EntityLocation,
};
use crate::entity::{alive_count, alive_prefix, Entity, EntityMeta, EntityMetaStore};
use crate::commands::{Command, CommandBuffer};
use crate::deadline::{due_events, kept_entries, split_point, Clock, DeadlineEntry, DeadlineId, DeadlineIds, Deadlines, Timestamp};
use crate::event::Events;
use crate::resource::{entries_map, has_key, keys_unique, lemma_entries_map_at, Resources, TypeKey};

verus! {

/// The generation and liveness of one entity slot.
pub ghost struct Slot {
    pub generation: u32,
    pub alive: bool,
}

/// The slot view of one entity's metadata.
pub open spec fn slot_of(m: EntityMeta) -> Slot {
    Slot { generation: m.generation, alive: m.alive }
}

/// The cells of the entity stored at `row` of archetype `a`, by component key.
pub open spec fn cells_at<V>(a: Archetype<V>, row: int) -> Map<TypeKey, Cell<V>> {
    Map::new(
        |k: TypeKey| a.spec_layout().contains(k),
        |k: TypeKey| {
            let c = a.column_of(k);
            (c.data()[row], c.added()[row], c.changed()[row])
        },
    )
}

/// The cells a freshly spawned bundle gets: each value stamped added and
/// changed at `tick`.
pub open spec fn bundle_cells<V>(bundle: Seq<(TypeKey, V)>, tick: u64) -> Map<TypeKey, Cell<V>> {
    Map::new(|k: TypeKey| has_key(bundle, k), |k: TypeKey| (entries_map(bundle)[k], tick, tick))
}

/// The entity handle the next spawn uses, given the slots and the free list.
pub open spec fn next_entity(slots: Seq<Slot>, free: Seq<u32>) -> Entity {
    if free.len() > 0 {
        Entity { index: free.last(), generation: slots[free.last() as int].generation }
    } else {
        Entity { index: slots.len() as u32, generation: 0 }
    }
}

/// The key set of a bundle.
pub open spec fn bundle_keys<V>(bundle: Seq<(TypeKey, V)>) -> Set<TypeKey> {
    Set::new(|k: TypeKey| has_key(bundle, k))
}

/// The slots after a spawn: the reused slot comes alive again, or a fresh
/// slot is appended.
pub open spec fn spawn_slots(slots: Seq<Slot>, free: Seq<u32>) -> Seq<Slot> {
    if free.len() > 0 {
        slots.update(free.last() as int, Slot { generation: slots[free.last() as int].generation, alive: true })
    } else {
        slots.push(Slot { generation: 0, alive: true })
    }
}

/// The free list after a spawn.
pub open spec fn spawn_free(free: Seq<u32>) -> Seq<u32> {
    if free.len() > 0 {
        free.drop_last()
    } else {
        free
    }
}

/// The ECS storage core: entity slots plus archetype storage.
struct WorldState<V> {
    meta: EntityMetaStore,
    archetypes: ArchetypeStore<V>,
    change_tick: u64,
}

impl<V> WorldState<V> {
    spec fn arch(&self, a: int) -> Archetype<V> {
        self.archetypes.spec_archetypes()[a]
    }

    spec fn n_arch(&self) -> int {
        self.archetypes.spec_archetypes().len() as int
    }

    /// Entity metadata and archetype rows point at each other.
    spec fn links(&self) -> bool {
        &&& forall|e: Entity| #[trigger] self.meta.spec_is_alive(e) ==> {
            let loc = self.meta.spec_location(e);
            &&& loc is Some
            &&& loc->0.archetype_id.0 < self.n_arch()
            &&& loc->0.row < self.arch(loc->0.archetype_id.0 as int).spec_entities().len()
            &&& self.arch(loc->0.archetype_id.0 as int).spec_entities()[loc->0.row as int] == e
        }
        &&& forall|a: int, r: int|
            0 <= a < self.n_arch() && 0 <= r < self.arch(a).spec_entities().len() ==> {
                let e = #[trigger] self.arch(a).spec_entities()[r];
                &&& self.meta.spec_is_alive(e)
                &&& self.meta.spec_location(e) == Some(
                    EntityLocation { archetype_id: ArchetypeId(a as u32), row: r as u32 },
                )
            }
        &&& forall|a: int| 0 <= a < self.n_arch() ==> {
            &&& (#[trigger] self.arch(a)).rows_ok()
            &&& self.arch(a).spec_entities().len() <= u32::MAX
        }
    }

    spec fn wf(&self) -> bool {
        &&& self.meta.wf()
        &&& self.archetypes.wf()
        &&& self.links()
        &&& self.change_tick >= 1
    }

    /// Where `e` is stored (meaningful when `e` is alive).
    spec fn loc(&self, e: Entity) -> EntityLocation {
        self.meta.spec_location(e)->0
    }

    /// The cells of an alive entity, by component key.
    spec fn entity_cells(&self, e: Entity) -> Map<TypeKey, Cell<V>> {
        cells_at(self.arch(self.loc(e).archetype_id.0 as int), self.loc(e).row as int)
    }

    /// Every alive entity with its cells.
    spec fn entities(&self) -> Map<Entity, Map<TypeKey, Cell<V>>> {
        Map::new(|e: Entity| self.meta.spec_is_alive(e), |e: Entity| self.entity_cells(e))
    }

    spec fn slots(&self) -> Seq<Slot> {
        self.meta.metas().map_values(|m: EntityMeta| slot_of(m))
    }

    spec fn layouts(&self) -> Seq<Seq<TypeKey>> {
        self.archetypes.spec_archetypes().map_values(|a: Archetype<V>| a.spec_layout())
    }
}


/// Distinct values below `m` number at most `m`.
pub proof fn lemma_distinct_bound(s: Seq<u32>, m: int)
    requires
        forall|i: int, j: int| 0 <= i < s.len() && 0 <= j < s.len() && i != j ==> s[i] != s[j],
        forall|i: int| 0 <= i < s.len() ==> (s[i] as int) < m,
        0 <= m <= u32::MAX + 1,
    ensures
        s.len() <= m,
    decreases m,
{
    if m <= 0 {
        if s.len() > 0 {
            assert((s[0] as int) < m);
        }
    } else if s.contains((m - 1) as u32) {
        let idx = choose|i: int| 0 <= i < s.len() && s[i] == (m - 1) as u32;
        let t = s.remove(idx);
        assert forall|i: int| 0 <= i < t.len() implies (t[i] as int) < m - 1 by {
            let i0 = if i < idx { i } else { i + 1 };
            assert(t[i] == s[i0]);
            assert(i0 != idx);
        }
        assert forall|i: int, j: int| 0 <= i < t.len() && 0 <= j < t.len() && i != j implies t[i] != t[j] by {
            let i0 = if i < idx { i } else { i + 1 };
            let j0 = if j < idx { j } else { j + 1 };
            assert(t[i] == s[i0] && t[j] == s[j0]);
        }
        lemma_distinct_bound(t, m - 1);
    } else {
        assert forall|i: int| 0 <= i < s.len() implies (s[i] as int) < m - 1 by {
            assert(s[i] != (m - 1) as u32);
        }
        lemma_distinct_bound(s, m - 1);
    }
}

/// Sort a bundle by key: the layout of its keys, and its cells (stamped at
/// `tick`) in layout order.
fn sort_bundle<V>(bundle: Vec<(TypeKey, V)>, tick: u64) -> (r: (ArchetypeLayout, Vec<Cell<V>>))
    requires
        keys_unique(bundle@),
    ensures
        r.0.wf(),
        r.1@.len() == r.0@.len(),
        forall|k: TypeKey| r.0@.contains(k) <==> has_key(bundle@, k),
        forall|i: int| 0 <= i < r.1@.len() ==> #[trigger] r.1@[i] == (entries_map(bundle@)[r.0@[i]], tick, tick),
{
    let ghost b = bundle@;
    let mut rest = bundle;
    let mut layout = ArchetypeLayout::empty();
    let mut cells: Vec<Cell<V>> = Vec::new();
    while rest.len() > 0
        invariant
            keys_unique(b),
            rest@.len() <= b.len(),
            rest@ == b.subrange(0, rest@.len() as int),
            layout.wf(),
            cells@.len() == layout@.len(),
            forall|k: TypeKey| layout@.contains(k) <==> (exists|j: int| rest@.len() <= j < b.len() && (#[trigger] b[j]).0 == k),
            forall|i: int| 0 <= i < cells@.len() ==> #[trigger] cells@[i] == (entries_map(b)[layout@[i]], tick, tick),
        decreases rest@.len(),
    {
        let ghost m = rest@.len() - 1;
        let (k, v) = rest.pop().unwrap();
        proof {
            assert(b[m] == (k, v));
            lemma_entries_map_at(b, m);
            assert(!layout@.contains(k)) by {
                if layout@.contains(k) {
                    let j = choose|j: int| m + 1 <= j < b.len() && (#[trigger] b[j]).0 == k;
                    assert(b[j].0 == b[m].0);
                }
            }
        }
        let ghost l0 = layout@;
        let ghost c0 = cells@;
        let p = layout.add_in_place(k).unwrap();
        cells.insert(p, (v, tick, tick));
        proof {
            assert(rest@ =~= b.subrange(0, rest@.len() as int));
            assert forall|kk: TypeKey| layout@.contains(kk) <==> (exists|j: int| rest@.len() <= j < b.len() && (#[trigger] b[j]).0 == kk) by {
                if layout@.contains(kk) {
                    let i = choose|i: int| 0 <= i < layout@.len() && layout@[i] == kk;
                    if i == p {
                        assert(b[m].0 == kk);
                    } else {
                        let i0 = if i < p { i } else { i - 1 };
                        assert(l0[i0] == kk);
                        assert(l0.contains(kk));
                    }
                }
                if exists|j: int| rest@.len() <= j < b.len() && (#[trigger] b[j]).0 == kk {
                    let j = choose|j: int| rest@.len() <= j < b.len() && (#[trigger] b[j]).0 == kk;
                    if j == m {
                        assert(layout@[p as int] == kk);
                    } else {
                        assert(l0.contains(kk));
                        let i0 = choose|i: int| 0 <= i < l0.len() && l0[i] == kk;
                        let i1 = if i0 < p { i0 } else { i0 + 1 };
                        assert(layout@[i1] == kk);
                    }
                }
            }
            assert forall|i: int| 0 <= i < cells@.len() implies #[trigger] cells@[i] == (entries_map(b)[layout@[i]], tick, tick) by {
                if i < p {
                    assert(cells@[i] == c0[i] && layout@[i] == l0[i]);
                } else if i > p {
                    assert(cells@[i] == c0[i - 1] && layout@[i] == l0[i - 1]);
                }
            }
        }
    }
    proof {
        assert forall|k: TypeKey| layout@.contains(k) <==> has_key(b, k) by {
            if has_key(b, k) {
                let j = choose|j: int| 0 <= j < b.len() && (#[trigger] b[j]).0 == k;
                assert(0 <= j < b.len() && b[j].0 == k);
            }
        }
    }
    (layout, cells)
}


/// Appending a row leaves the cells of every earlier row unchanged.
pub proof fn lemma_cells_after_push<V>(a1: Archetype<V>, a2: Archetype<V>, cells: Seq<Cell<V>>, r: int)
    requires
        a1.wf(),
        a1.rows_ok(),
        a2.spec_layout() == a1.spec_layout(),
        a2.spec_columns().len() == a1.spec_columns().len(),
        forall|i: int| 0 <= i < a1.spec_columns().len() ==>
            crate::archetype::col_pushed(a1.spec_columns()[i], #[trigger] a2.spec_columns()[i], cells[i]),
        0 <= r < a1.spec_entities().len(),
    ensures
        cells_at(a2, r) == cells_at(a1, r),
{
    assert forall|k: TypeKey| #[trigger] cells_at(a2, r).contains_key(k) implies cells_at(a2, r)[k] == cells_at(a1, r)[k] by {
        let i = key_index(a1.spec_layout(), k);
        assert(0 <= i < a1.spec_layout().len() && a1.spec_layout()[i] == k);
        assert(a2.spec_columns()[i] == a2.column_of(k));
        assert(a1.spec_columns()[i].data().len() == a1.spec_entities().len());
    }
    assert(cells_at(a2, r) =~= cells_at(a1, r));
}

/// The row appended by `push_row` holds the pushed cells.
pub proof fn lemma_cells_new_row<V>(a1: Archetype<V>, a2: Archetype<V>, cells: Seq<Cell<V>>)
    requires
        a1.wf(),
        a1.rows_ok(),
        a2.spec_layout() == a1.spec_layout(),
        a2.spec_columns().len() == a1.spec_columns().len(),
        forall|i: int| 0 <= i < a1.spec_columns().len() ==>
            crate::archetype::col_pushed(a1.spec_columns()[i], #[trigger] a2.spec_columns()[i], cells[i]),
    ensures
        forall|k: TypeKey| a1.spec_layout().contains(k) ==>
            #[trigger] cells_at(a2, a1.spec_entities().len() as int)[k] == cells[key_index(a1.spec_layout(), k)],
        cells_at(a2, a1.spec_entities().len() as int).dom() == a1.spec_layout().to_set(),
{
    let r = a1.spec_entities().len() as int;
    assert forall|k: TypeKey| a1.spec_layout().contains(k) implies
        #[trigger] cells_at(a2, r)[k] == cells[key_index(a1.spec_layout(), k)] by {
        let i = key_index(a1.spec_layout(), k);
        assert(0 <= i < a1.spec_layout().len() && a1.spec_layout()[i] == k);
        assert(a1.spec_columns()[i].data().len() == r);
        assert(a1.spec_columns()[i].wf());
    }
    assert(cells_at(a2, r).dom() =~= a1.spec_layout().to_set());
}

/// Swap-removing row `r` moves the last row's cells into `r` and leaves the
/// other rows' cells in place.
pub proof fn lemma_cells_after_swap_remove<V>(a1: Archetype<V>, a2: Archetype<V>, r: int, q: int)
    requires
        a1.wf(),
        a1.rows_ok(),
        a2.spec_layout() == a1.spec_layout(),
        a2.spec_columns().len() == a1.spec_columns().len(),
        forall|i: int| 0 <= i < a1.spec_columns().len() ==>
            crate::archetype::col_swap_removed(a1.spec_columns()[i], #[trigger] a2.spec_columns()[i], r),
        0 <= r < a1.spec_entities().len(),
        0 <= q < a1.spec_entities().len() - 1,
    ensures
        q == r ==> cells_at(a2, q) == cells_at(a1, a1.spec_entities().len() - 1),
        q != r ==> cells_at(a2, q) == cells_at(a1, q),
{
    let last = a1.spec_entities().len() - 1;
    assert forall|k: TypeKey| #[trigger] cells_at(a2, q).contains_key(k) implies
        cells_at(a2, q)[k] == (if q == r { cells_at(a1, last)[k] } else { cells_at(a1, q)[k] }) by {
        let i = key_index(a1.spec_layout(), k);
        assert(0 <= i < a1.spec_layout().len() && a1.spec_layout()[i] == k);
        assert(a2.spec_columns()[i] == a2.column_of(k));
        assert(a1.spec_columns()[i].data().len() == a1.spec_entities().len());
        assert(a1.spec_columns()[i].wf());
    }
    if q == r {
        assert(cells_at(a2, q) =~= cells_at(a1, last));
    } else {
        assert(cells_at(a2, q) =~= cells_at(a1, q));
    }
}

/// Rewriting the value of `k` at `row` (keeping its added tick, stamping its
/// changed tick) changes that row's cell for `k` and nothing else.
pub proof fn lemma_cells_after_cell_update<V>(a1: Archetype<V>, a2: Archetype<V>, k: TypeKey, row: int, v: V, tick: u64, q: int)
    requires
        a1.wf(),
        a1.rows_ok(),
        a1.spec_layout().contains(k),
        0 <= row < a1.spec_entities().len(),
        0 <= q < a1.spec_entities().len(),
        a2.spec_layout() == a1.spec_layout(),
        a2.spec_columns() == a1.spec_columns().update(
            key_index(a1.spec_layout(), k),
            a2.spec_columns()[key_index(a1.spec_layout(), k)],
        ),
        a2.column_of(k).data() == a1.column_of(k).data().update(row, v),
        a2.column_of(k).added() == a1.column_of(k).added(),
        a2.column_of(k).changed() == a1.column_of(k).changed().update(row, tick),
    ensures
        q == row ==> cells_at(a2, q) == cells_at(a1, q).insert(k, (v, cells_at(a1, q)[k].1, tick)),
        q != row ==> cells_at(a2, q) == cells_at(a1, q),
{
    let ki = key_index(a1.spec_layout(), k);
    assert(0 <= ki < a1.spec_layout().len() && a1.spec_layout()[ki] == k);
    assert(a1.spec_columns()[ki].data().len() == a1.spec_entities().len());
    assert(a1.spec_columns()[ki].wf());
    assert forall|k2: TypeKey| #[trigger] cells_at(a2, q).contains_key(k2) && k2 != k implies
        cells_at(a2, q)[k2] == cells_at(a1, q)[k2] by {
        let i2 = key_index(a1.spec_layout(), k2);
        assert(0 <= i2 < a1.spec_layout().len() && a1.spec_layout()[i2] == k2);
        assert(i2 != ki);
    }
    if q == row {
        assert(cells_at(a2, q) =~= cells_at(a1, q).insert(k, (v, cells_at(a1, q)[k].1, tick)));
    } else {
        assert(cells_at(a2, q) =~= cells_at(a1, q));
    }
}

/// A row's cells in layout order describe the row's cell map.
pub proof fn lemma_cells_at_index<V>(a: Archetype<V>, row: int, i: int)
    requires
        a.wf(),
        0 <= i < a.spec_layout().len(),
    ensures
        cells_at(a, row).contains_key(a.spec_layout()[i]),
        cells_at(a, row)[a.spec_layout()[i]] == (
            a.spec_columns()[i].data()[row],
            a.spec_columns()[i].added()[row],
            a.spec_columns()[i].changed()[row],
        ),
{
    lemma_key_index(a.spec_layout(), i);
}

/// Inserting a key into a sorted layout and its cell at the same position
/// describes the old cell map with that key added.
pub proof fn lemma_insert_cells<V>(
    sl: Seq<TypeKey>,
    dl: Seq<TypeKey>,
    taken: Seq<Cell<V>>,
    p: int,
    k: TypeKey,
    cell: Cell<V>,
    m: Map<TypeKey, Cell<V>>,
)
    requires
        crate::archetype::strictly_sorted(dl),
        0 <= p <= sl.len(),
        dl == sl.insert(p, k),
        taken.len() == sl.len(),
        m.dom() == sl.to_set(),
        forall|i: int| 0 <= i < sl.len() ==> m[#[trigger] sl[i]] == taken[i],
    ensures
        forall|kk: TypeKey| dl.contains(kk) ==> #[trigger] taken.insert(p, cell)[key_index(dl, kk)] == m.insert(k, cell)[kk],
        dl.to_set() == m.insert(k, cell).dom(),
{
    let c = taken.insert(p, cell);
    assert forall|kk: TypeKey| dl.contains(kk) implies #[trigger] c[key_index(dl, kk)] == m.insert(k, cell)[kk] by {
        let i = key_index(dl, kk);
        assert(0 <= i < dl.len() && dl[i] == kk);
        if i < p {
            assert(dl[i] == sl[i]);
            assert(c[i] == taken[i]);
            assert(sl[i] != k) by {
                assert(dl[i] < dl[p]);
            }
        } else if i > p {
            assert(dl[i] == sl[i - 1]);
            assert(c[i] == taken[i - 1]);
            assert(sl[i - 1] != k) by {
                assert(dl[p] < dl[i]);
            }
        }
    }
    assert(dl.to_set() =~= m.insert(k, cell).dom()) by {
        assert forall|kk: TypeKey| dl.to_set().contains(kk) implies m.insert(k, cell).dom().contains(kk) by {
            let i = choose|i: int| 0 <= i < dl.len() && dl[i] == kk;
            if i < p {
                assert(sl[i] == kk);
                assert(sl.to_set().contains(kk));
            } else if i > p {
                assert(sl[i - 1] == kk);
                assert(sl.to_set().contains(kk));
            }
        }
        assert forall|kk: TypeKey| m.insert(k, cell).dom().contains(kk) implies dl.to_set().contains(kk) by {
            if kk == k {
                assert(dl[p] == k);
            } else {
                assert(sl.to_set().contains(kk));
                let i = choose|i: int| 0 <= i < sl.len() && sl[i] == kk;
                if i < p {
                    assert(dl[i] == kk);
                } else {
                    assert(dl[i + 1] == kk);
                }
            }
        }
    }
}

/// Removing a key from a sorted layout and its cell at the same position
/// describes the old cell map without that key.
pub proof fn lemma_remove_cells<V>(
    sl: Seq<TypeKey>,
    dl: Seq<TypeKey>,
    taken: Seq<Cell<V>>,
    p: int,
    k: TypeKey,
    m: Map<TypeKey, Cell<V>>,
)
    requires
        crate::archetype::strictly_sorted(sl),
        crate::archetype::strictly_sorted(dl),
        0 <= p < sl.len(),
        sl[p] == k,
        dl == sl.remove(p),
        taken.len() == sl.len(),
        m.dom() == sl.to_set(),
        forall|i: int| 0 <= i < sl.len() ==> m[#[trigger] sl[i]] == taken[i],
    ensures
        forall|kk: TypeKey| dl.contains(kk) ==> #[trigger] taken.remove(p)[key_index(dl, kk)] == m.remove(k)[kk],
        dl.to_set() == m.remove(k).dom(),
{
    let c = taken.remove(p);
    assert forall|kk: TypeKey| dl.contains(kk) implies #[trigger] c[key_index(dl, kk)] == m.remove(k)[kk] by {
        let i = key_index(dl, kk);
        assert(0 <= i < dl.len() && dl[i] == kk);
        if i < p {
            assert(dl[i] == sl[i]);
            assert(c[i] == taken[i]);
        } else {
            assert(dl[i] == sl[i + 1]);
            assert(c[i] == taken[i + 1]);
        }
    }
    assert(dl.to_set() =~= m.remove(k).dom()) by {
        assert forall|kk: TypeKey| dl.to_set().contains(kk) implies m.remove(k).dom().contains(kk) by {
            let i = choose|i: int| 0 <= i < dl.len() && dl[i] == kk;
            if i < p {
                assert(sl[i] == kk);
                assert(sl[i] < sl[p]);
                assert(sl.to_set().contains(kk));
            } else {
                assert(sl[i + 1] == kk);
                assert(sl[p] < sl[i + 1]);
                assert(sl.to_set().contains(kk));
            }
        }
        assert forall|kk: TypeKey| m.remove(k).dom().contains(kk) implies dl.to_set().contains(kk) by {
            assert(sl.to_set().contains(kk));
            let i = choose|i: int| 0 <= i < sl.len() && sl[i] == kk;
            assert(i != p);
            if i < p {
                assert(dl[i] == kk);
            } else {
                assert(dl[i - 1] == kk);
            }
        }
    }
}

impl<V> WorldState<V> {
    /// Some archetype's layout holds exactly the keys `ks`.
    spec fn has_key_set(&self, ks: Set<TypeKey>) -> bool {
        exists|a: int| 0 <= a < self.n_arch() && (#[trigger] self.arch(a)).spec_layout().to_set() == ks
    }

    /// Archetype rows are bounded: an archetype cannot hold more entities
    /// than there are slots besides a slot `x` that no alive entity uses.
    proof fn lemma_rows_bound(&self, a: int, x: u32)
        requires
            self.wf(),
            0 <= a < self.n_arch(),
            x < self.meta.metas().len() || (x == self.meta.metas().len() && self.meta.metas().len() < u32::MAX),
            forall|r: int| 0 <= r < self.arch(a).spec_entities().len() ==> (#[trigger] self.arch(a).spec_entities()[r]).index != x,
        ensures
            self.arch(a).spec_entities().len() < u32::MAX,
    {
        let ents = self.arch(a).spec_entities();
        let idx = ents.map_values(|e: Entity| e.index);
        let s = idx.push(x);
        assert forall|i: int, j: int| 0 <= i < s.len() && 0 <= j < s.len() && i != j implies s[i] != s[j] by {
            if i < ents.len() && j < ents.len() {
                let ei = ents[i];
                let ej = ents[j];
                assert(self.meta.spec_is_alive(ei));
                assert(self.meta.spec_is_alive(ej));
                if ei.index == ej.index {
                    assert(ei == ej);
                    assert(self.meta.spec_location(ei) == Some(EntityLocation { archetype_id: ArchetypeId(a as u32), row: i as u32 }));
                    assert(self.meta.spec_location(ej) == Some(EntityLocation { archetype_id: ArchetypeId(a as u32), row: j as u32 }));
                }
            } else if i < ents.len() {
                assert(ents[i].index != x);
            } else if j < ents.len() {
                assert(ents[j].index != x);
            }
        }
        let m: int = if x == self.meta.metas().len() { (self.meta.metas().len() + 1) as int } else { self.meta.metas().len() as int };
        assert forall|i: int| 0 <= i < s.len() implies (s[i] as int) < m by {
            if i < ents.len() {
                assert(self.meta.spec_is_alive(ents[i]));
            }
        }
        lemma_distinct_bound(s, m);
    }

    fn new() -> (w: WorldState<V>)
        ensures
            w.wf(),
            w.entities() == Map::<Entity, Map<TypeKey, Cell<V>>>::empty(),
            w.slots() == Seq::<Slot>::empty(),
            w.meta.free() == Seq::<u32>::empty(),
            w.layouts() == seq![Seq::<TypeKey>::empty()],
            w.archetypes.spec_archetypes()[0].spec_entities().len() == 0,
            w.change_tick == 1,
    {
        let mut archetypes: ArchetypeStore<V> = ArchetypeStore::new();
        let _ = archetypes.get_or_create(ArchetypeLayout::empty());
        let w = WorldState { meta: EntityMetaStore::new(), archetypes, change_tick: 1 };
        proof {
            assert(w.entities() =~= Map::<Entity, Map<TypeKey, Cell<V>>>::empty());
            assert(w.slots() =~= Seq::<Slot>::empty());
            assert(w.layouts() =~= seq![Seq::<TypeKey>::empty()]);
            assert forall|a: int| 0 <= a < w.n_arch() implies (#[trigger] w.arch(a)).rows_ok() by {}
        }
        w
    }

    fn spawn(&mut self, bundle: Vec<(TypeKey, V)>) -> (e: Entity)
        requires
            old(self).wf(),
            keys_unique(bundle@),
            old(self).meta.can_alloc(),
            old(self).can_reach(bundle_keys(bundle@)),
        ensures
            final(self).wf(),
            e == next_entity(old(self).slots(), old(self).meta.free()),
            !old(self).meta.spec_is_alive(e),
            final(self).meta.spec_is_alive(e),
            final(self).entities() == old(self).entities().insert(e, bundle_cells(bundle@, old(self).change_tick)),
            final(self).change_tick == old(self).change_tick,
            final(self).slots() == spawn_slots(old(self).slots(), old(self).meta.free()),
            final(self).meta.free() == spawn_free(old(self).meta.free()),
            final(self).layouts() == layouts_with(old(self).layouts(), bundle_keys(bundle@)),
    {
        let tick = self.change_tick;
        let ghost b = bundle@;
        let (layout, cells) = sort_bundle(bundle, tick);
        let ghost lay = layout@;
        proof {
            assert(lay.to_set() =~= bundle_keys(b));
        }
        let aid = self.archetype_for(layout);
        let ghost st1 = *self;
        proof {
            assert forall|a: int| 0 <= a < old(self).n_arch() implies #[trigger] st1.arch(a) == old(self).arch(a) by {}
            let x = old(self).meta.next_alloc().index;
            if old(self).meta.free().len() > 0 {
                assert(old(self).meta.free()[old(self).meta.free().len() - 1] == x);
            }
            assert forall|r: int| 0 <= r < st1.arch(aid.0 as int).spec_entities().len() implies
                (#[trigger] st1.arch(aid.0 as int).spec_entities()[r]).index != x by {
                let y = st1.arch(aid.0 as int).spec_entities()[r];
                assert(st1.meta.spec_is_alive(y));
            }
            st1.lemma_rows_bound(aid.0 as int, x);
        }
        let e = self.meta.allocate();
        let ghost a1 = self.arch(aid.0 as int);
        let ghost cells_s = cells@;
        let row = self.archetypes.get_mut(aid).push_row(cells, e);
        let ghost a2 = self.arch(aid.0 as int);
        proof {
            lemma_store_update(st1.archetypes, self.archetypes, aid.0 as int);
        }
        self.meta.set_location(e, EntityLocation { archetype_id: aid, row });
        proof {
            let tick = old(self).change_tick;
            assert(a1 == st1.arch(aid.0 as int));
            assert(a1.rows_ok());
            // every other archetype is untouched
            assert forall|a: int| 0 <= a < self.n_arch() && a != aid.0 implies #[trigger] self.arch(a) == st1.arch(a) by {}
            // e is new
            assert(!old(self).meta.spec_is_alive(e));
            assert forall|x: Entity| #[trigger] self.meta.spec_is_alive(x) && x != e implies {
                &&& old(self).meta.spec_is_alive(x)
                &&& self.meta.spec_location(x) == old(self).meta.spec_location(x)
            } by {
                if x.index == e.index {
                    assert(x.generation == self.meta.metas()[x.index as int].generation);
                    assert(e.generation == self.meta.metas()[e.index as int].generation);
                }
            }
            assert forall|x: Entity| #[trigger] old(self).meta.spec_is_alive(x) implies self.meta.spec_is_alive(x) && x != e by {}
            // links part 1
            assert forall|x: Entity| #[trigger] self.meta.spec_is_alive(x) implies {
                let loc = self.meta.spec_location(x);
                &&& loc is Some
                &&& loc->0.archetype_id.0 < self.n_arch()
                &&& loc->0.row < self.arch(loc->0.archetype_id.0 as int).spec_entities().len()
                &&& self.arch(loc->0.archetype_id.0 as int).spec_entities()[loc->0.row as int] == x
            } by {
                if x != e {
                    let loc = old(self).meta.spec_location(x)->0;
                    assert(old(self).meta.spec_is_alive(x));
                    assert(st1.arch(loc.archetype_id.0 as int) == old(self).arch(loc.archetype_id.0 as int));
                    if loc.archetype_id == aid {
                        assert(a2.spec_entities()[loc.row as int] == a1.spec_entities()[loc.row as int]);
                    }
                }
            }
            // links part 2
            assert forall|a: int, r: int| 0 <= a < self.n_arch() && 0 <= r < self.arch(a).spec_entities().len() implies {
                let x = #[trigger] self.arch(a).spec_entities()[r];
                &&& self.meta.spec_is_alive(x)
                &&& self.meta.spec_location(x) == Some(EntityLocation { archetype_id: ArchetypeId(a as u32), row: r as u32 })
            } by {
                let x = self.arch(a).spec_entities()[r];
                if a == aid.0 && r == a1.spec_entities().len() {
                    assert(x == e);
                } else {
                    if a == aid.0 {
                        assert(x == a1.spec_entities()[r]);
                    } else {
                        assert(x == st1.arch(a).spec_entities()[r]);
                    }
                    assert(a < old(self).n_arch());
                    assert(st1.arch(a) == old(self).arch(a));
                    assert(old(self).arch(a).spec_entities()[r] == x);
                    assert(old(self).meta.spec_is_alive(x));
                }
            }
            assert forall|a: int| 0 <= a < self.n_arch() implies {
                &&& (#[trigger] self.arch(a)).rows_ok()
                &&& self.arch(a).spec_entities().len() <= u32::MAX
            } by {
                if a != aid.0 {
                    assert(self.arch(a) == st1.arch(a));
                    if a < old(self).n_arch() {
                        assert(st1.arch(a) == old(self).arch(a));
                    }
                }
            }
            // the model
            assert forall|k: TypeKey| a1.spec_layout().contains(k) implies #[trigger] cells_at(a2, row as int)[k] == bundle_cells(b, tick)[k] by {
                lemma_cells_new_row(a1, a2, cells_s);
                let i = key_index(a1.spec_layout(), k);
                assert(0 <= i < lay.len() && lay[i] == k);
                assert(cells_s[i] == (entries_map(b)[lay[i]], tick, tick));
            }
            lemma_cells_new_row(a1, a2, cells_s);
            assert(cells_at(a2, row as int).dom() =~= bundle_cells(b, tick).dom());
            assert(self.entity_cells(e) =~= bundle_cells(b, tick));
            assert forall|x: Entity| #[trigger] self.entities().contains_key(x) && x != e implies self.entities()[x] == old(self).entities()[x] by {
                let loc = old(self).meta.spec_location(x)->0;
                assert(old(self).meta.spec_is_alive(x));
                if loc.archetype_id == aid {
                    lemma_cells_after_push(a1, a2, cells_s, loc.row as int);
                } else {
                    assert(self.arch(loc.archetype_id.0 as int) == old(self).arch(loc.archetype_id.0 as int));
                }
            }
            assert(self.entities() =~= old(self).entities().insert(e, bundle_cells(b, tick)));
            assert(e == next_entity(old(self).slots(), old(self).meta.free()));
        }
        e
    }
}


impl<V> WorldState<V> {
    fn despawn(&mut self, e: Entity) -> (r: bool)
        requires
            old(self).wf(),
        ensures
            final(self).wf(),
            r == old(self).meta.spec_is_alive(e),
            !final(self).meta.spec_is_alive(e),
            r ==> {
                &&& final(self).entities() == old(self).entities().remove(e)
                &&& final(self).slots() == old(self).slots().update(
                    e.index as int,
                    Slot { generation: e.generation.wrapping_add(1), alive: false },
                )
                &&& final(self).meta.free() == old(self).meta.free().push(e.index)
                &&& final(self).layouts() == old(self).layouts()
            },
            !r ==> *final(self) == *old(self),
            final(self).change_tick == old(self).change_tick,
    {
        match self.meta.get_location(e) {
            None => false,
            Some(loc) => {
                let ghost a1 = self.arch(loc.archetype_id.0 as int);
                let ghost st0 = *self;
                let (_removed, moved) = self.archetypes.get_mut(loc.archetype_id).swap_remove_entity(loc.row as usize);
                let ghost a2 = self.arch(loc.archetype_id.0 as int);
                let ghost last = a1.spec_entities().len() - 1;
                proof {
                    lemma_store_update(st0.archetypes, self.archetypes, loc.archetype_id.0 as int);
                    assert(a1.spec_entities()[loc.row as int] == e);
                }
                let ghost meta1 = self.meta;
                match moved {
                    Some(m) => {
                        proof {
                            assert(a1.spec_entities()[last] == m);
                            assert(old(self).meta.spec_is_alive(m));
                            assert(m != e) by {
                                if m == e {
                                    assert(old(self).meta.spec_location(m) == Some(EntityLocation { archetype_id: loc.archetype_id, row: last as u32 }));
                                }
                            }
                        }
                        self.meta.set_location(m, loc);
                    },
                    None => {},
                }
                let ghost meta2 = self.meta;
                let _ = self.meta.dealloc(e);
                proof {
                    let aid = loc.archetype_id.0 as int;
                    let row = loc.row as int;
                    assert forall|a: int| 0 <= a < self.n_arch() && a != aid implies #[trigger] self.arch(a) == old(self).arch(a) by {}
                    // liveness and locations of the others
                    assert forall|x: Entity| #[trigger] self.meta.spec_is_alive(x) implies {
                        &&& old(self).meta.spec_is_alive(x)
                        &&& x != e
                        &&& (moved == Some(x) ==> self.meta.spec_location(x) == Some(loc))
                        &&& (moved != Some(x) ==> self.meta.spec_location(x) == old(self).meta.spec_location(x))
                    } by {
                        if x.index == e.index {
                            assert(!self.meta.spec_is_alive(x));
                        }
                        if moved is Some && x.index == moved->0.index && moved != Some(x) {
                            assert(meta1.spec_is_alive(moved->0));
                            assert(!meta1.spec_is_alive(x));
                        }
                    }
                    assert forall|x: Entity| #[trigger] old(self).meta.spec_is_alive(x) && x != e implies self.meta.spec_is_alive(x) by {
                        if x.index == e.index {
                            assert(x.generation == e.generation);
                        }
                    }
                    // links part 1
                    assert forall|x: Entity| #[trigger] self.meta.spec_is_alive(x) implies {
                        let l = self.meta.spec_location(x);
                        &&& l is Some
                        &&& l->0.archetype_id.0 < self.n_arch()
                        &&& l->0.row < self.arch(l->0.archetype_id.0 as int).spec_entities().len()
                        &&& self.arch(l->0.archetype_id.0 as int).spec_entities()[l->0.row as int] == x
                    } by {
                        assert(old(self).meta.spec_is_alive(x));
                        if moved == Some(x) {
                            assert(a2.spec_entities()[row] == a1.spec_entities()[last]);
                        } else {
                            let l = old(self).meta.spec_location(x)->0;
                            if l.archetype_id == loc.archetype_id {
                                assert(l.row != row) by {
                                    if l.row == row {
                                        assert(a1.spec_entities()[row] == e);
                                    }
                                }
                                assert(l.row != last) by {
                                    if l.row == last {
                                        assert(a1.spec_entities()[last] == x);
                                        assert(row < last);
                                    }
                                }
                                assert(a2.spec_entities()[l.row as int] == a1.spec_entities()[l.row as int]);
                            }
                        }
                    }
                    // links part 2
                    assert forall|a: int, q: int| 0 <= a < self.n_arch() && 0 <= q < self.arch(a).spec_entities().len() implies {
                        let x = #[trigger] self.arch(a).spec_entities()[q];
                        &&& self.meta.spec_is_alive(x)
                        &&& self.meta.spec_location(x) == Some(EntityLocation { archetype_id: ArchetypeId(a as u32), row: q as u32 })
                    } by {
                        let x = self.arch(a).spec_entities()[q];
                        if a == aid {
                            if q == row {
                                assert(x == a1.spec_entities()[last]);
                                assert(moved == Some(x));
                                assert(old(self).meta.spec_is_alive(x));
                                assert(x != e) by {
                                    if x == e {
                                        assert(old(self).meta.spec_location(x) == Some(EntityLocation { archetype_id: loc.archetype_id, row: last as u32 }));
                                    }
                                }
                            } else {
                                assert(x == a1.spec_entities()[q]);
                                assert(old(self).meta.spec_is_alive(x));
                                assert(x != e) by {
                                    if x == e {
                                        assert(old(self).meta.spec_location(x) == Some(EntityLocation { archetype_id: loc.archetype_id, row: q as u32 }));
                                    }
                                }
                                assert(moved != Some(x)) by {
                                    if moved == Some(x) {
                                        assert(old(self).meta.spec_location(x) == Some(EntityLocation { archetype_id: loc.archetype_id, row: last as u32 }));
                                    }
                                }
                                if x.index == e.index {
                                    assert(x.generation == e.generation);
                                }
                            }
                        } else {
                            assert(x == old(self).arch(a).spec_entities()[q]);
                            assert(old(self).meta.spec_is_alive(x));
                            assert(x != e);
                            assert(moved != Some(x)) by {
                                if moved == Some(x) {
                                    assert(old(self).meta.spec_location(x) == Some(EntityLocation { archetype_id: loc.archetype_id, row: last as u32 }));
                                }
                            }
                            if x.index == e.index {
                                assert(x.generation == e.generation);
                            }
                        }
                    }
                    assert forall|a: int| 0 <= a < self.n_arch() implies {
                        &&& (#[trigger] self.arch(a)).rows_ok()
                        &&& self.arch(a).spec_entities().len() <= u32::MAX
                    } by {
                        if a != aid {
                            assert(self.arch(a) == old(self).arch(a));
                        }
                    }
                    // the model
                    assert forall|x: Entity| #[trigger] self.entities().contains_key(x) implies self.entities()[x] == old(self).entities()[x] by {
                        assert(old(self).meta.spec_is_alive(x));
                        let l0 = old(self).meta.spec_location(x)->0;
                        if moved == Some(x) {
                            assert(l0 == EntityLocation { archetype_id: loc.archetype_id, row: last as u32 });
                            lemma_cells_after_swap_remove(a1, a2, row, row);
                        } else if l0.archetype_id == loc.archetype_id {
                            assert(l0.row != row) by {
                                if l0.row == row {
                                    assert(a1.spec_entities()[row] == e);
                                }
                            }
                            assert(l0.row != last) by {
                                if l0.row == last {
                                    assert(a1.spec_entities()[last] == x);
                                }
                            }
                            lemma_cells_after_swap_remove(a1, a2, row, l0.row as int);
                        }
                    }
                    assert(self.entities() =~= old(self).entities().remove(e));
                    assert(self.slots() =~= old(self).slots().update(
                        e.index as int,
                        Slot { generation: e.generation.wrapping_add(1), alive: false },
                    )) by {
                        assert forall|i: int| 0 <= i < self.slots().len() implies self.slots()[i] == old(self).slots().update(
                            e.index as int, Slot { generation: e.generation.wrapping_add(1), alive: false })[i] by {
                            if i != e.index {
                                assert(self.meta.metas()[i] == meta2.metas()[i]);
                                if moved is Some && i == moved->0.index {
                                    assert(meta2.metas()[i].generation == meta1.metas()[i].generation);
                                } else {
                                    assert(meta2.metas()[i] == meta1.metas()[i]);
                                }
                            }
                        }
                    }
                    assert(self.layouts() =~= old(self).layouts()) by {
                        assert forall|a: int| 0 <= a < self.n_arch() implies self.layouts()[a] == old(self).layouts()[a] by {
                            if a != aid {
                                assert(self.arch(a) == old(self).arch(a));
                            }
                        }
                    }
                }
                true
            },
        }
    }

    fn get(&self, e: Entity, k: TypeKey) -> (r: Option<&V>)
        requires
            self.wf(),
        ensures
            r is Some <==> self.entities().contains_key(e) && self.entities()[e].contains_key(k),
            r matches Some(v) ==> *v == self.entities()[e][k].0,
    {
        match self.meta.get_location(e) {
            None => None,
            Some(loc) => {
                let arch = self.archetypes.get(loc.archetype_id);
                match arch.column(k) {
                    None => None,
                    Some(col) => {
                        proof {
                            let i = key_index(arch.spec_layout(), k);
                            assert(0 <= i < arch.spec_layout().len());
                            assert(arch.spec_columns()[i].data().len() == arch.spec_entities().len());
                        }
                        col.get(loc.row as usize)
                    },
                }
            },
        }
    }
}


/// The cells an entity ends up with after a migration that adds `k` with
/// value `add` (stamped at `tick`) or, when `add` is `None`, drops `k`.
pub open spec fn migrated_cells<V>(m: Map<TypeKey, Cell<V>>, k: TypeKey, add: Option<V>, tick: u64) -> Map<TypeKey, Cell<V>> {
    match add {
        Some(v) => m.insert(k, (v, tick, tick)),
        None => m.remove(k),
    }
}

impl<V> WorldState<V> {
    /// The layout of the archetype that holds alive entity `e`.
    spec fn layout_of(&self, e: Entity) -> Seq<TypeKey> {
        self.arch(self.loc(e).archetype_id.0 as int).spec_layout()
    }

    fn migrate(&mut self, e: Entity, dst: ArchetypeId, k: TypeKey, add: Option<V>)
        requires
            old(self).wf(),
            old(self).meta.spec_is_alive(e),
            dst.0 < old(self).n_arch(),
            add is Some ==> !old(self).layout_of(e).contains(k) && exists|p: int|
                0 <= p <= old(self).layout_of(e).len() && old(self).arch(dst.0 as int).spec_layout()
                    == old(self).layout_of(e).insert(p, k),
            add is None ==> exists|p: int|
                0 <= p < old(self).layout_of(e).len() && old(self).layout_of(e)[p] == k
                    && old(self).arch(dst.0 as int).spec_layout() == old(self).layout_of(e).remove(p),
        ensures
            final(self).wf(),
            final(self).entities() == old(self).entities().insert(
                e,
                migrated_cells(old(self).entities()[e], k, add, old(self).change_tick),
            ),
            final(self).slots() == old(self).slots(),
            final(self).meta.free() == old(self).meta.free(),
            final(self).layouts() == old(self).layouts(),
            final(self).change_tick == old(self).change_tick,
    {
        let loc = self.meta.get_location(e).unwrap();
        let src = loc.archetype_id;
        let row = loc.row as usize;
        let tick = self.change_tick;
        let ghost sl = old(self).arch(src.0 as int).spec_layout();
        let ghost dl = old(self).arch(dst.0 as int).spec_layout();
        let ghost a1s = old(self).arch(src.0 as int);
        let ghost a1d = old(self).arch(dst.0 as int);
        let ghost old_cells = old(self).entity_cells(e);
        proof {
            assert(src != dst) by {
                if src == dst {
                    if add is Some {
                        let p = choose|p: int| 0 <= p <= sl.len() && dl == sl.insert(p, k);
                        assert(dl.len() == sl.len() + 1);
                    } else {
                        let p = choose|p: int| 0 <= p < sl.len() && sl[p] == k && dl == sl.remove(p);
                        assert(dl.len() == sl.len() - 1);
                    }
                }
            }
            assert forall|r: int| 0 <= r < a1d.spec_entities().len() implies
                (#[trigger] a1d.spec_entities()[r]).index != e.index by {
                let y = a1d.spec_entities()[r];
                assert(old(self).meta.spec_is_alive(y));
                if y.index == e.index {
                    assert(y == e);
                }
            }
            old(self).lemma_rows_bound(dst.0 as int, e.index);
        }
        let ghost st0 = *self;
        let (mut cells, _removed, moved) = self.archetypes.get_mut(src).take_row(row);
        let ghost a2s = self.arch(src.0 as int);
        let ghost taken = cells@;
        proof {
            lemma_store_update(st0.archetypes, self.archetypes, src.0 as int);
            assert(a1s.spec_entities()[row as int] == e);
            assert(self.arch(dst.0 as int) == a1d);
            assert forall|i: int| 0 <= i < sl.len() implies old_cells[#[trigger] sl[i]] == taken[i] by {
                lemma_cells_at_index(a1s, row as int, i);
            }
            assert(old_cells.dom() =~= sl.to_set());
        }
        let ghost p_spec: int;
        match add {
            Some(v) => {
                proof {
                    let p0 = choose|p: int| 0 <= p <= sl.len() && dl == sl.insert(p, k);
                    assert(dl[p0] == k);
                    assert(self.arch(dst.0 as int).spec_layout().contains(k));
                }
                let p = self.archetypes.get(dst).layout().position(k).unwrap();
                proof {
                    let p0 = choose|p: int| 0 <= p <= sl.len() && dl == sl.insert(p, k);
                    assert(dl[p0] == k);
                    lemma_key_index(dl, p0);
                    lemma_key_index(dl, p as int);
                    p_spec = p as int;
                    lemma_insert_cells(sl, dl, taken, p as int, k, (v, tick, tick), old_cells);
                }
                cells.insert(p, (v, tick, tick));
            },
            None => {
                let p = self.archetypes.get(src).layout().position(k).unwrap();
                proof {
                    let p0 = choose|p: int| 0 <= p < sl.len() && sl[p] == k && dl == sl.remove(p);
                    lemma_key_index(sl, p0);
                    lemma_key_index(sl, p as int);
                    p_spec = p as int;
                    lemma_remove_cells(sl, dl, taken, p as int, k, old_cells);
                }
                let _ = cells.remove(p);
            },
        }
        let ghost cells_s = cells@;
        let ghost st1 = *self;
        let new_row = self.archetypes.get_mut(dst).push_row(cells, e);
        let ghost a2d = self.arch(dst.0 as int);
        proof {
            lemma_store_update(st1.archetypes, self.archetypes, dst.0 as int);
        }
        let ghost meta0 = self.meta;
        self.meta.set_location(e, EntityLocation { archetype_id: dst, row: new_row });
        let ghost meta1 = self.meta;
        match moved {
            Some(m) => {
                proof {
                    let last = a1s.spec_entities().len() - 1;
                    assert(a1s.spec_entities()[last] == m);
                    assert(old(self).meta.spec_is_alive(m));
                    assert(m != e) by {
                        if m == e {
                            assert(old(self).meta.spec_location(m) == Some(EntityLocation { archetype_id: src, row: last as u32 }));
                        }
                    }
                    assert(meta1.spec_is_alive(m));
                }
                self.meta.set_location(m, loc);
            },
            None => {},
        }
        proof {
            let s_ = src.0 as int;
            let d_ = dst.0 as int;
            let last = a1s.spec_entities().len() - 1;
            let ca = migrated_cells(old_cells, k, add, tick);
            assert forall|a: int| 0 <= a < self.n_arch() && a != s_ && a != d_ implies #[trigger] self.arch(a) == old(self).arch(a) by {}
            assert(self.arch(s_) == a2s);
            assert(self.arch(d_) == a2d);
            // aliveness is untouched; locations change for e and the moved entity only
            assert forall|x: Entity| #[trigger] self.meta.spec_is_alive(x) == old(self).meta.spec_is_alive(x) by {}
            assert forall|x: Entity| #[trigger] old(self).meta.spec_is_alive(x) && x != e && moved != Some(x) implies
                self.meta.spec_location(x) == old(self).meta.spec_location(x) by {
                if x.index == e.index {
                    assert(x.generation == e.generation);
                }
                if moved is Some && x.index == moved->0.index {
                    assert(x.generation == moved->0.generation);
                }
            }
            assert(self.meta.spec_location(e) == Some(EntityLocation { archetype_id: dst, row: new_row })) by {
                if moved is Some {
                    assert(moved->0.index != e.index) by {
                        if moved->0.index == e.index {
                            assert(moved->0.generation == e.generation);
                        }
                    }
                }
            }
            // links part 1
            assert forall|x: Entity| #[trigger] self.meta.spec_is_alive(x) implies {
                let l = self.meta.spec_location(x);
                &&& l is Some
                &&& l->0.archetype_id.0 < self.n_arch()
                &&& l->0.row < self.arch(l->0.archetype_id.0 as int).spec_entities().len()
                &&& self.arch(l->0.archetype_id.0 as int).spec_entities()[l->0.row as int] == x
            } by {
                assert(old(self).meta.spec_is_alive(x));
                if x == e {
                } else if moved == Some(x) {
                    assert(a2s.spec_entities()[row as int] == a1s.spec_entities()[last]);
                } else {
                    let l = old(self).meta.spec_location(x)->0;
                    if l.archetype_id == src {
                        assert(l.row != row) by {
                            if l.row == row {
                                assert(a1s.spec_entities()[row as int] == e);
                            }
                        }
                        assert(l.row != last) by {
                            if l.row == last {
                                assert(a1s.spec_entities()[last] == x);
                            }
                        }
                        assert(a2s.spec_entities()[l.row as int] == a1s.spec_entities()[l.row as int]);
                    } else if l.archetype_id == dst {
                        assert(a2d.spec_entities()[l.row as int] == a1d.spec_entities()[l.row as int]);
                    }
                }
            }
            // links part 2
            assert forall|a: int, q: int| 0 <= a < self.n_arch() && 0 <= q < self.arch(a).spec_entities().len() implies {
                let x = #[trigger] self.arch(a).spec_entities()[q];
                &&& self.meta.spec_is_alive(x)
                &&& self.meta.spec_location(x) == Some(EntityLocation { archetype_id: ArchetypeId(a as u32), row: q as u32 })
            } by {
                let x = self.arch(a).spec_entities()[q];
                if a == d_ && q == a1d.spec_entities().len() {
                    assert(x == e);
                } else if a == s_ && q == row {
                    assert(x == a1s.spec_entities()[last]);
                    assert(moved == Some(x));
                } else {
                    if a == s_ {
                        assert(x == a1s.spec_entities()[q]);
                        assert(x != e) by {
                            if x == e {
                                assert(old(self).meta.spec_location(x) == Some(EntityLocation { archetype_id: src, row: q as u32 }));
                            }
                        }
                        assert(moved != Some(x)) by {
                            if moved == Some(x) {
                                assert(old(self).meta.spec_location(x) == Some(EntityLocation { archetype_id: src, row: last as u32 }));
                            }
                        }
                    } else if a == d_ {
                        assert(x == a1d.spec_entities()[q]);
                        assert(x != e) by {
                            if x == e {
                                assert(old(self).meta.spec_location(x) == Some(EntityLocation { archetype_id: dst, row: q as u32 }));
                            }
                        }
                        assert(moved != Some(x)) by {
                            if moved == Some(x) {
                                assert(old(self).meta.spec_location(x) == Some(EntityLocation { archetype_id: dst, row: q as u32 }));
                            }
                        }
                    } else {
                        assert(x == old(self).arch(a).spec_entities()[q]);
                        assert(x != e);
                        assert(moved != Some(x)) by {
                            if moved == Some(x) {
                                assert(old(self).meta.spec_location(x) == Some(EntityLocation { archetype_id: ArchetypeId(a as u32), row: q as u32 }));
                            }
                        }
                    }
                    assert(old(self).meta.spec_is_alive(x));
                }
            }
            assert forall|a: int| 0 <= a < self.n_arch() implies {
                &&& (#[trigger] self.arch(a)).rows_ok()
                &&& self.arch(a).spec_entities().len() <= u32::MAX
            } by {
                if a != s_ && a != d_ {
                    assert(self.arch(a) == old(self).arch(a));
                }
            }
            // the model: e's new cells
            lemma_cells_new_row(a1d, a2d, cells_s);
            assert forall|kk: TypeKey| #[trigger] cells_at(a2d, new_row as int).contains_key(kk) implies
                cells_at(a2d, new_row as int)[kk] == ca[kk] by {
                assert(dl.contains(kk));
            }
            assert(cells_at(a2d, new_row as int) =~= ca);
            assert(self.entity_cells(e) == ca);
            // the others
            assert forall|x: Entity| #[trigger] self.entities().contains_key(x) && x != e implies
                self.entities()[x] == old(self).entities()[x] by {
                assert(old(self).meta.spec_is_alive(x));
                let l0 = old(self).meta.spec_location(x)->0;
                if moved == Some(x) {
                    assert(l0 == EntityLocation { archetype_id: src, row: last as u32 });
                    lemma_cells_after_swap_remove(a1s, a2s, row as int, row as int);
                } else if l0.archetype_id == src {
                    assert(l0.row != row) by {
                        if l0.row == row {
                            assert(a1s.spec_entities()[row as int] == e);
                        }
                    }
                    assert(l0.row != last) by {
                        if l0.row == last {
                            assert(a1s.spec_entities()[last] == x);
                        }
                    }
                    lemma_cells_after_swap_remove(a1s, a2s, row as int, l0.row as int);
                } else if l0.archetype_id == dst {
                    lemma_cells_after_push(a1d, a2d, cells_s, l0.row as int);
                }
            }
            assert(self.entities() =~= old(self).entities().insert(e, ca));
            assert(self.slots() =~= old(self).slots()) by {
                assert forall|i: int| 0 <= i < self.slots().len() implies self.slots()[i] == old(self).slots()[i] by {
                    assert(self.meta.metas()[i].generation == old(self).meta.metas()[i].generation);
                    assert(self.meta.metas()[i].alive == old(self).meta.metas()[i].alive);
                }
            }
            assert(self.layouts() =~= old(self).layouts()) by {
                assert forall|a: int| 0 <= a < self.n_arch() implies self.layouts()[a] == old(self).layouts()[a] by {
                    if a != s_ && a != d_ {
                        assert(self.arch(a) == old(self).arch(a));
                    }
                }
            }
        }
    }
}


/// The strictly sorted sequence holding exactly the keys of `ks`.
pub open spec fn sorted_keys(ks: Set<TypeKey>) -> Seq<TypeKey> {
    choose|l: Seq<TypeKey>| crate::archetype::strictly_sorted(l) && l.to_set() == ks
}

/// A strictly sorted layout is the sorted form of its key set.
pub proof fn lemma_sorted_keys(l: Seq<TypeKey>)
    requires
        crate::archetype::strictly_sorted(l),
    ensures
        sorted_keys(l.to_set()) == l,
{
    let c = sorted_keys(l.to_set());
    assert(crate::archetype::strictly_sorted(c) && c.to_set() == l.to_set());
    crate::archetype::lemma_sorted_unique(c, l);
}

/// The archetype layouts after ensuring one exists for the key set `ks`.
pub open spec fn layouts_with(layouts: Seq<Seq<TypeKey>>, ks: Set<TypeKey>) -> Seq<Seq<TypeKey>> {
    if exists|a: int| 0 <= a < layouts.len() && (#[trigger] layouts[a]).to_set() == ks {
        layouts
    } else {
        layouts.push(sorted_keys(ks))
    }
}

/// The cell component `k` gets when `value` is inserted at `tick`: an
/// overwrite keeps the added tick, a new component is added at `tick`.
pub open spec fn inserted_cell<V>(m: Map<TypeKey, Cell<V>>, k: TypeKey, value: V, tick: u64) -> Cell<V> {
    if m.contains_key(k) {
        (value, m[k].1, tick)
    } else {
        (value, tick, tick)
    }
}

impl<V> WorldState<V> {
    /// Layouts and key sets of this store correspond one to one.
    proof fn lemma_has_key_set(&self, l: Seq<TypeKey>)
        requires
            self.wf(),
            crate::archetype::strictly_sorted(l),
        ensures
            self.has_key_set(l.to_set()) == self.archetypes.has_layout(l),
            (exists|a: int| 0 <= a < self.layouts().len() && (#[trigger] self.layouts()[a]).to_set() == l.to_set())
                == self.has_key_set(l.to_set()),
    {
        if self.has_key_set(l.to_set()) {
            let a = choose|a: int| 0 <= a < self.n_arch() && (#[trigger] self.arch(a)).spec_layout().to_set() == l.to_set();
            crate::archetype::lemma_sorted_unique(self.arch(a).spec_layout(), l);
            assert(self.archetypes.spec_archetypes()[a].spec_layout() == l);
            assert(self.layouts()[a] == self.arch(a).spec_layout());
        }
        if self.archetypes.has_layout(l) {
            let a = choose|a: int| 0 <= a < self.n_arch() && (#[trigger] self.archetypes.spec_archetypes()[a]).spec_layout() == l;
            assert(self.arch(a).spec_layout().to_set() == l.to_set());
        }
        if exists|a: int| 0 <= a < self.layouts().len() && (#[trigger] self.layouts()[a]).to_set() == l.to_set() {
            let a = choose|a: int| 0 <= a < self.layouts().len() && (#[trigger] self.layouts()[a]).to_set() == l.to_set();
            assert(self.layouts()[a] == self.arch(a).spec_layout());
        }
        if self.has_key_set(l.to_set()) {
            let a = choose|a: int| 0 <= a < self.n_arch() && (#[trigger] self.arch(a)).spec_layout().to_set() == l.to_set();
            assert(self.layouts()[a] == self.arch(a).spec_layout());
        }
    }

    /// Capacity for moving `e` to the archetype with key set `ks`.
    spec fn can_reach(&self, ks: Set<TypeKey>) -> bool {
        self.n_arch() < u32::MAX || self.has_key_set(ks)
    }

    /// Find or create the archetype for `layout`, keeping the world well-formed.
    fn archetype_for(&mut self, layout: ArchetypeLayout) -> (id: ArchetypeId)
        requires
            old(self).wf(),
            layout.wf(),
            old(self).can_reach(layout@.to_set()),
        ensures
            final(self).wf(),
            id.0 < final(self).n_arch(),
            final(self).arch(id.0 as int).spec_layout() == layout@,
            final(self).entities() == old(self).entities(),
            final(self).meta == old(self).meta,
            final(self).change_tick == old(self).change_tick,
            final(self).layouts() == layouts_with(old(self).layouts(), layout@.to_set()),
            forall|a: int| 0 <= a < old(self).n_arch() ==> #[trigger] final(self).arch(a) == old(self).arch(a),
    {
        let ghost lay = layout@;
        let mut i: usize = 0;
        while i < layout.len()
            invariant
                i <= layout@.len(),
                layout@ == lay,
                self.archetypes.wf(),
                self.archetypes.spec_archetypes() == old(self).archetypes.spec_archetypes(),
                self.meta == old(self).meta,
                self.change_tick == old(self).change_tick,
                forall|j: int| 0 <= j < i ==> self.archetypes.spec_registered().contains(#[trigger] lay[j]),
            decreases layout@.len() - i,
        {
            let k = layout.iter()[i];
            self.archetypes.register_column(k);
            i = i + 1;
        }
        proof {
            assert forall|k: TypeKey| layout@.contains(k) implies self.archetypes.spec_registered().contains(k) by {
                let j = choose|j: int| 0 <= j < lay.len() && lay[j] == k;
                assert(self.archetypes.spec_registered().contains(lay[j]));
            }
            old(self).lemma_has_key_set(lay);
        }
        let id = self.archetypes.get_or_create(layout);
        proof {
            assert forall|a: int| 0 <= a < old(self).n_arch() implies #[trigger] self.arch(a) == old(self).arch(a) by {
                if !old(self).archetypes.has_layout(lay) {
                    assert(self.archetypes.spec_archetypes().subrange(0, old(self).n_arch())[a] == self.arch(a));
                }
            }
            assert forall|a: int| 0 <= a < self.n_arch() implies {
                &&& (#[trigger] self.arch(a)).rows_ok()
                &&& self.arch(a).spec_entities().len() <= u32::MAX
            } by {
                if a < old(self).n_arch() {
                    assert(self.arch(a) == old(self).arch(a));
                }
            }
            assert forall|a: int, q: int| 0 <= a < self.n_arch() && 0 <= q < self.arch(a).spec_entities().len() implies {
                let x = #[trigger] self.arch(a).spec_entities()[q];
                &&& self.meta.spec_is_alive(x)
                &&& self.meta.spec_location(x) == Some(EntityLocation { archetype_id: ArchetypeId(a as u32), row: q as u32 })
            } by {
                assert(a < old(self).n_arch());
                assert(self.arch(a) == old(self).arch(a));
            }
            assert forall|x: Entity| #[trigger] self.entities().contains_key(x) implies self.entities()[x] == old(self).entities()[x] by {
                let l = old(self).meta.spec_location(x)->0;
                assert(self.arch(l.archetype_id.0 as int) == old(self).arch(l.archetype_id.0 as int));
            }
            assert(self.entities() =~= old(self).entities());
            lemma_sorted_keys(lay);
            if old(self).archetypes.has_layout(lay) {
                assert(self.layouts() =~= old(self).layouts());
            } else {
                assert(self.layouts() =~= old(self).layouts().push(lay)) by {
                    assert forall|a: int| 0 <= a < old(self).n_arch() implies self.layouts()[a] == old(self).layouts()[a] by {
                        assert(self.arch(a) == old(self).arch(a));
                    }
                }
            }
        }
        id
    }

    fn insert(&mut self, e: Entity, k: TypeKey, value: V)
        requires
            old(self).wf(),
            old(self).meta.spec_is_alive(e) && !old(self).entities()[e].contains_key(k) ==>
                old(self).can_reach(old(self).entities()[e].dom().insert(k)),
        ensures
            final(self).wf(),
            final(self).change_tick == old(self).change_tick,
            final(self).slots() == old(self).slots(),
            final(self).meta.free() == old(self).meta.free(),
            old(self).meta.spec_is_alive(e) ==> final(self).entities() == old(self).entities().insert(
                e,
                old(self).entities()[e].insert(k, inserted_cell(old(self).entities()[e], k, value, old(self).change_tick)),
            ),
            !old(self).meta.spec_is_alive(e) ==> final(self).entities() == old(self).entities(),
            old(self).meta.spec_is_alive(e) && !old(self).entities()[e].contains_key(k) ==>
                final(self).layouts() == layouts_with(old(self).layouts(), old(self).entities()[e].dom().insert(k)),
            !(old(self).meta.spec_is_alive(e) && !old(self).entities()[e].contains_key(k)) ==>
                final(self).layouts() == old(self).layouts(),
    {
        let loc = match self.meta.get_location(e) {
            None => {
                return;
            },
            Some(l) => l,
        };
        let src = loc.archetype_id;
        let row = loc.row as usize;
        let tick = self.change_tick;
        let ghost old_cells = old(self).entity_cells(e);
        let ghost a1 = old(self).arch(src.0 as int);
        proof {
            assert(old_cells.dom() =~= a1.spec_layout().to_set());
        }
        if self.archetypes.get(src).layout().contains(k) {
            let ghost st0 = *self;
            self.archetypes.get_mut(src).overwrite(k, row, value, tick);
            let ghost a2 = self.arch(src.0 as int);
            proof {
                lemma_store_update(st0.archetypes, self.archetypes, src.0 as int);
                let s_ = src.0 as int;
                let ki = key_index(a1.spec_layout(), k);
                assert(0 <= ki < a1.spec_layout().len() && a1.spec_layout()[ki] == k);
                assert(a1.spec_columns()[ki].data().len() == a1.spec_entities().len());
                assert forall|a: int| 0 <= a < self.n_arch() && a != s_ implies #[trigger] self.arch(a) == old(self).arch(a) by {}
                assert forall|a: int| 0 <= a < self.n_arch() implies {
                    &&& (#[trigger] self.arch(a)).rows_ok()
                    &&& self.arch(a).spec_entities().len() <= u32::MAX
                } by {
                    if a != s_ {
                        assert(self.arch(a) == old(self).arch(a));
                    }
                }
                assert forall|a: int, q: int| 0 <= a < self.n_arch() && 0 <= q < self.arch(a).spec_entities().len() implies {
                    let x = #[trigger] self.arch(a).spec_entities()[q];
                    &&& self.meta.spec_is_alive(x)
                    &&& self.meta.spec_location(x) == Some(EntityLocation { archetype_id: ArchetypeId(a as u32), row: q as u32 })
                } by {
                    if a != s_ {
                        assert(self.arch(a) == old(self).arch(a));
                    }
                    assert(self.arch(a).spec_entities()[q] == old(self).arch(a).spec_entities()[q]);
                }
                let cell = inserted_cell(old_cells, k, value, tick);
                assert forall|kk: TypeKey| #[trigger] cells_at(a2, row as int).contains_key(kk) implies
                    cells_at(a2, row as int)[kk] == old_cells.insert(k, cell)[kk] by {
                    let j = key_index(a1.spec_layout(), kk);
                    assert(0 <= j < a1.spec_layout().len() && a1.spec_layout()[j] == kk);
                    if kk != k {
                        assert(j != ki);
                        assert(a2.spec_columns()[j] == a1.spec_columns()[j]);
                    }
                }
                assert(cells_at(a2, row as int) =~= old_cells.insert(k, cell));
                assert forall|x: Entity| #[trigger] self.entities().contains_key(x) && x != e implies
                    self.entities()[x] == old(self).entities()[x] by {
                    let l0 = old(self).meta.spec_location(x)->0;
                    if l0.archetype_id == src {
                        assert(l0.row != row) by {
                            if l0.row == row {
                                assert(a1.spec_entities()[row as int] == e);
                            }
                        }
                        assert forall|kk: TypeKey| #[trigger] cells_at(a2, l0.row as int).contains_key(kk) implies
                            cells_at(a2, l0.row as int)[kk] == cells_at(a1, l0.row as int)[kk] by {
                            let j = key_index(a1.spec_layout(), kk);
                            assert(0 <= j < a1.spec_layout().len() && a1.spec_layout()[j] == kk);
                            assert(a1.spec_columns()[j].data().len() == a1.spec_entities().len());
                            if j != ki {
                                assert(a2.spec_columns()[j] == a1.spec_columns()[j]);
                            }
                        }
                        assert(cells_at(a2, l0.row as int) =~= cells_at(a1, l0.row as int));
                    }
                }
                assert(self.entities() =~= old(self).entities().insert(e, old_cells.insert(k, cell)));
                assert(self.layouts() =~= old(self).layouts()) by {
                    assert forall|a: int| 0 <= a < self.n_arch() implies self.layouts()[a] == old(self).layouts()[a] by {
                        if a != s_ {
                            assert(self.arch(a) == old(self).arch(a));
                        }
                    }
                }
            }
            return;
        }
        let new_layout = self.archetypes.get(src).layout().with_added(k);
        let ghost nl = new_layout@;
        proof {
            assert(old_cells.dom().insert(k) =~= nl.to_set());
        }
        let dst = self.archetype_for(new_layout);
        proof {
            assert(self.arch(src.0 as int) == a1);
            assert(self.entities()[e] == old_cells);
            assert(self.layout_of(e) == a1.spec_layout());
            assert(!self.layout_of(e).contains(k));
            assert(inserted_cell(old_cells, k, value, tick) == (value, tick, tick));
        }
        self.migrate(e, dst, k, Some(value));
    }

    fn remove(&mut self, e: Entity, k: TypeKey)
        requires
            old(self).wf(),
            old(self).meta.spec_is_alive(e) && old(self).entities()[e].contains_key(k) ==>
                old(self).can_reach(old(self).entities()[e].dom().remove(k)),
        ensures
            final(self).wf(),
            final(self).change_tick == old(self).change_tick,
            final(self).slots() == old(self).slots(),
            final(self).meta.free() == old(self).meta.free(),
            old(self).meta.spec_is_alive(e) ==> final(self).entities() == old(self).entities().insert(
                e,
                old(self).entities()[e].remove(k),
            ),
            !old(self).meta.spec_is_alive(e) ==> final(self).entities() == old(self).entities(),
            old(self).meta.spec_is_alive(e) && old(self).entities()[e].contains_key(k) ==>
                final(self).layouts() == layouts_with(old(self).layouts(), old(self).entities()[e].dom().remove(k)),
            !(old(self).meta.spec_is_alive(e) && old(self).entities()[e].contains_key(k)) ==>
                final(self).layouts() == old(self).layouts(),
    {
        let loc = match self.meta.get_location(e) {
            None => {
                return;
            },
            Some(l) => l,
        };
        let src = loc.archetype_id;
        let ghost old_cells = old(self).entity_cells(e);
        let ghost a1 = old(self).arch(src.0 as int);
        proof {
            assert(old_cells.dom() =~= a1.spec_layout().to_set());
        }
        if !self.archetypes.get(src).layout().contains(k) {
            proof {
                assert(old_cells.remove(k) =~= old_cells);
                assert(old(self).entities().insert(e, old_cells.remove(k)) =~= old(self).entities());
            }
            return;
        }
        let new_layout = self.archetypes.get(src).layout().with_removed(k);
        let ghost nl = new_layout@;
        proof {
            assert(old_cells.dom().remove(k) =~= nl.to_set());
        }
        let dst = self.archetype_for(new_layout);
        proof {
            assert(self.arch(src.0 as int) == a1);
            assert(self.entities()[e] == old_cells);
            assert(self.layout_of(e) == a1.spec_layout());
        }
        self.migrate(e, dst, k, None);
    }

    fn is_alive(&self, e: Entity) -> (r: bool)
        ensures
            r == self.meta.spec_is_alive(e),
    {
        self.meta.is_alive(e)
    }
}


/// Whether a layout holds every key of `req` and none of `without`.
pub open spec fn layout_matches(l: Seq<TypeKey>, req: Seq<TypeKey>, without: Seq<TypeKey>) -> bool {
    &&& forall|i: int| 0 <= i < req.len() ==> l.contains(#[trigger] req[i])
    &&& forall|i: int| 0 <= i < without.len() ==> !l.contains(#[trigger] without[i])
}

/// The rows of archetype `a` (index `i`) as `(entity, archetype, row)` triples.
pub open spec fn arch_rows<V>(a: Archetype<V>, i: int) -> Seq<(Entity, usize, usize)> {
    Seq::new(a.spec_entities().len(), |r: int| (a.spec_entities()[r], i as usize, r as usize))
}

/// The matching rows of the first `n` archetypes, in archetype order, then row order.
pub open spec fn rows_upto<V>(archs: Seq<Archetype<V>>, req: Seq<TypeKey>, without: Seq<TypeKey>, n: int) -> Seq<(Entity, usize, usize)>
    decreases n,
{
    if n <= 0 {
        Seq::empty()
    } else if layout_matches(archs[n - 1].spec_layout(), req, without) {
        rows_upto(archs, req, without, n - 1) + arch_rows(archs[n - 1], n - 1)
    } else {
        rows_upto(archs, req, without, n - 1)
    }
}

/// Every row listed by `rows_upto` is a real row of a matching archetype.
pub proof fn lemma_rows_upto<V>(archs: Seq<Archetype<V>>, req: Seq<TypeKey>, without: Seq<TypeKey>, n: int, j: int)
    requires
        0 <= n <= archs.len() <= usize::MAX,
        forall|i: int| 0 <= i < archs.len() ==> #[trigger] archs[i].spec_entities().len() <= usize::MAX,
        0 <= j < rows_upto(archs, req, without, n).len(),
    ensures
        ({
            let t = rows_upto(archs, req, without, n)[j];
            &&& (t.1 as int) < n
            &&& (t.2 as int) < archs[t.1 as int].spec_entities().len()
            &&& t.0 == archs[t.1 as int].spec_entities()[t.2 as int]
            &&& layout_matches(archs[t.1 as int].spec_layout(), req, without)
        }),
    decreases n,
{
    if n > 0 {
        let prev = rows_upto(archs, req, without, n - 1);
        if layout_matches(archs[n - 1].spec_layout(), req, without) && j >= prev.len() {
            assert(rows_upto(archs, req, without, n)[j] == arch_rows(archs[n - 1], n - 1)[j - prev.len()]);
            assert(archs[n - 1].spec_entities().len() <= usize::MAX);
        } else {
            if layout_matches(archs[n - 1].spec_layout(), req, without) {
                assert(rows_upto(archs, req, without, n)[j] == prev[j]);
            }
            lemma_rows_upto(archs, req, without, n - 1, j);
        }
    }
}

/// The entity column of a row list.
pub open spec fn row_entities(rows: Seq<(Entity, usize, usize)>) -> Seq<Entity> {
    rows.map_values(|t: (Entity, usize, usize)| t.0)
}

impl<V> WorldState<V> {
    /// The matching rows of the whole store.
    spec fn rows(&self, req: Seq<TypeKey>, without: Seq<TypeKey>) -> Seq<(Entity, usize, usize)> {
        rows_upto(self.archetypes.spec_archetypes(), req, without, self.n_arch())
    }

    /// A listed row holds an alive entity whose cells are that row's cells.
    proof fn lemma_row(&self, req: Seq<TypeKey>, without: Seq<TypeKey>, j: int)
        requires
            self.wf(),
            0 <= j < self.rows(req, without).len(),
        ensures
            ({
                let t = self.rows(req, without)[j];
                &&& (t.1 as int) < self.n_arch()
                &&& (t.2 as int) < self.arch(t.1 as int).spec_entities().len()
                &&& self.meta.spec_is_alive(t.0)
                &&& self.loc(t.0) == EntityLocation { archetype_id: ArchetypeId(t.1 as u32), row: t.2 as u32 }
                &&& self.entities()[t.0] == cells_at(self.arch(t.1 as int), t.2 as int)
                &&& layout_matches(self.arch(t.1 as int).spec_layout(), req, without)
                &&& self.entities()[t.0].dom() == self.arch(t.1 as int).spec_layout().to_set()
            }),
    {
        assert forall|i: int| 0 <= i < self.n_arch() implies #[trigger] self.archetypes.spec_archetypes()[i].spec_entities().len() <= usize::MAX by {
            assert(self.arch(i).rows_ok());
        }
        lemma_rows_upto(self.archetypes.spec_archetypes(), req, without, self.n_arch(), j);
        let t = self.rows(req, without)[j];
        assert(self.arch(t.1 as int).spec_entities()[t.2 as int] == t.0);
        assert(cells_at(self.arch(t.1 as int), t.2 as int).dom() =~= self.arch(t.1 as int).spec_layout().to_set());
    }

    fn layout_ok(layout: &ArchetypeLayout, req: &[TypeKey], without: &[TypeKey]) -> (r: bool)
        requires
            layout.wf(),
        ensures
            r == layout_matches(layout@, req@, without@),
    {
        let mut i: usize = 0;
        while i < req.len()
            invariant
                i <= req@.len(),
                layout.wf(),
                forall|j: int| 0 <= j < i ==> layout@.contains(#[trigger] req@[j]),
            decreases req@.len() - i,
        {
            if !layout.contains(req[i]) {
                return false;
            }
            i = i + 1;
        }
        let mut i: usize = 0;
        while i < without.len()
            invariant
                i <= without@.len(),
                layout.wf(),
                forall|j: int| 0 <= j < req@.len() ==> layout@.contains(#[trigger] req@[j]),
                forall|j: int| 0 <= j < i ==> !layout@.contains(#[trigger] without@[j]),
            decreases without@.len() - i,
        {
            if layout.contains(without[i]) {
                return false;
            }
            i = i + 1;
        }
        true
    }

    /// The matching rows, as `(entity, archetype index, row)` triples.
    fn matching_rows(&self, req: &[TypeKey], without: &[TypeKey]) -> (r: Vec<(Entity, usize, usize)>)
        requires
            self.wf(),
        ensures
            r@ == self.rows(req@, without@),
    {
        let archs = self.archetypes.iter();
        let n = archs.len();
        let mut out: Vec<(Entity, usize, usize)> = Vec::new();
        let mut i: usize = 0;
        while i < n
            invariant
                i <= n,
                n == self.n_arch(),
                archs@ == self.archetypes.spec_archetypes(),
                self.wf(),
                out@ == rows_upto(archs@, req@, without@, i as int),
            decreases n - i,
        {
            let arch = &archs[i];
            proof {
                assert(*arch == self.arch(i as int));
            }
            if Self::layout_ok(arch.layout(), req, without) {
                let ents = arch.entities();
                let m = ents.len();
                let ghost base = out@;
                let mut r: usize = 0;
                while r < m
                    invariant
                        r <= m,
                        m == arch.spec_entities().len(),
                        ents@ == arch.spec_entities(),
                        out@ == base + arch_rows(*arch, i as int).take(r as int),
                    decreases m - r,
                {
                    out.push((ents[r], i, r));
                    proof {
                        assert(arch_rows(*arch, i as int).take(r + 1) =~= arch_rows(*arch, i as int).take(r as int).push((ents@[r as int], i, r)));
                    }
                    r = r + 1;
                }
                proof {
                    assert(arch_rows(*arch, i as int).take(m as int) =~= arch_rows(*arch, i as int));
                }
            }
            i = i + 1;
        }
        out
    }

    /// The values of component `k` on the given rows.
    fn fetch<'a>(&'a self, rows: &Vec<(Entity, usize, usize)>, k: TypeKey, req: Ghost<Seq<TypeKey>>, without: Ghost<Seq<TypeKey>>) -> (r: Vec<&'a V>)
        requires
            self.wf(),
            rows@ == self.rows(req@, without@),
            req@.contains(k),
        ensures
            r@.len() == rows@.len(),
            forall|j: int| 0 <= j < rows@.len() ==> self.entities()[rows@[j].0].contains_key(k)
                && *r@[j] == self.entities()[#[trigger] rows@[j].0][k].0,
    {
        let mut out: Vec<&'a V> = Vec::new();
        let mut j: usize = 0;
        while j < rows.len()
            invariant
                j <= rows@.len(),
                self.wf(),
                rows@ == self.rows(req@, without@),
                req@.contains(k),
                out@.len() == j,
                forall|i: int| 0 <= i < j ==> self.entities()[rows@[i].0].contains_key(k)
                    && *out@[i] == self.entities()[#[trigger] rows@[i].0][k].0,
            decreases rows@.len() - j,
        {
            let (_e, a, row) = rows[j];
            proof {
                self.lemma_row(req@, without@, j as int);
                let ki = choose|i: int| 0 <= i < req@.len() && req@[i] == k;
                assert(self.arch(a as int).spec_layout().contains(req@[ki]));
            }
            let arch = self.archetypes.get(ArchetypeId(a as u32));
            let col = arch.column(k).unwrap();
            proof {
                let i = key_index(arch.spec_layout(), k);
                assert(0 <= i < arch.spec_layout().len());
                assert(arch.spec_columns()[i].data().len() == arch.spec_entities().len());
            }
            let v = col.get(row).unwrap();
            out.push(v);
            j = j + 1;
        }
        out
    }
}


/// `s1` is `s0` with the value of component `k` in the row at `loc` replaced
/// by `v`, its changed tick stamped at `tick` and its added tick kept.
pub open spec fn cell_rewritten<V>(s0: Seq<Archetype<V>>, s1: Seq<Archetype<V>>, loc: EntityLocation, k: TypeKey, v: V, tick: u64) -> bool {
    let ai = loc.archetype_id.0 as int;
    let a1 = s0[ai];
    let a2 = s1[ai];
    let ki = key_index(a1.spec_layout(), k);
    &&& s1 == s0.update(ai, a2)
    &&& a2.spec_id() == a1.spec_id()
    &&& a2.spec_layout() == a1.spec_layout()
    &&& a2.spec_entities() == a1.spec_entities()
    &&& a2.spec_edges() == a1.spec_edges()
    &&& a2.edges_wf() == a1.edges_wf()
    &&& a2.spec_columns() == a1.spec_columns().update(ki, a2.spec_columns()[ki])
    &&& a2.spec_columns()[ki].wf()
    &&& a2.spec_columns()[ki].data() == a1.column_of(k).data().update(loc.row as int, v)
    &&& a2.spec_columns()[ki].added() == a1.column_of(k).added()
    &&& a2.spec_columns()[ki].changed() == a1.column_of(k).changed().update(loc.row as int, tick)
}

impl<V> WorldState<V> {
    /// The world after rewriting one cell is well-formed and its model
    /// changes in exactly that cell.
    proof fn lemma_cell_rewritten(st0: WorldState<V>, st1: WorldState<V>, e: Entity, loc: EntityLocation, k: TypeKey, v: V, tick: u64)
        requires
            st0.wf(),
            st0.meta.spec_is_alive(e),
            st0.meta.spec_location(e) == Some(loc),
            st0.entities()[e].contains_key(k),
            st1.meta == st0.meta,
            st1.change_tick == st0.change_tick,
            st1.archetypes.spec_registered() == st0.archetypes.spec_registered(),
            cell_rewritten(st0.archetypes.spec_archetypes(), st1.archetypes.spec_archetypes(), loc, k, v, tick),
        ensures
            st1.wf(),
            st1.layouts() == st0.layouts(),
            st1.entities() == st0.entities().insert(e, st0.entities()[e].insert(k, (v, st0.entities()[e][k].1, tick))),
    {
        let ai = loc.archetype_id.0 as int;
        let a1 = st0.arch(ai);
        let a2 = st1.arch(ai);
        assert(a1.rows_ok());
        assert(a2.wf());
        lemma_store_update(st0.archetypes, st1.archetypes, ai);
        assert forall|a: int| 0 <= a < st1.n_arch() && a != ai implies #[trigger] st1.arch(a) == st0.arch(a) by {}
        let ki = key_index(a1.spec_layout(), k);
        assert(0 <= ki < a1.spec_layout().len() && a1.spec_layout()[ki] == k);
        assert(a2.spec_columns()[ki] == a2.column_of(k));
        assert forall|i: int| 0 <= i < a2.spec_columns().len() implies (#[trigger] a2.spec_columns()[i]).data().len() == a2.spec_entities().len() by {
            if i != ki {
                assert(a2.spec_columns()[i] == a1.spec_columns()[i]);
            }
        }
        assert forall|a: int| 0 <= a < st1.n_arch() implies {
            &&& (#[trigger] st1.arch(a)).rows_ok()
            &&& st1.arch(a).spec_entities().len() <= u32::MAX
        } by {
            if a != ai {
                assert(st1.arch(a) == st0.arch(a));
            }
        }
        assert forall|a: int, q: int| 0 <= a < st1.n_arch() && 0 <= q < st1.arch(a).spec_entities().len() implies {
            let x = #[trigger] st1.arch(a).spec_entities()[q];
            &&& st1.meta.spec_is_alive(x)
            &&& st1.meta.spec_location(x) == Some(EntityLocation { archetype_id: ArchetypeId(a as u32), row: q as u32 })
        } by {
            if a != ai {
                assert(st1.arch(a) == st0.arch(a));
            }
            assert(st1.arch(a).spec_entities()[q] == st0.arch(a).spec_entities()[q]);
        }
        assert forall|x: Entity| #[trigger] st1.entities().contains_key(x) implies
            st1.entities()[x] == (if x == e {
                st0.entities()[e].insert(k, (v, st0.entities()[e][k].1, tick))
            } else {
                st0.entities()[x]
            }) by {
            let l = st0.meta.spec_location(x)->0;
            assert(st0.meta.spec_is_alive(x));
            if l.archetype_id == loc.archetype_id {
                lemma_cells_after_cell_update(a1, a2, k, loc.row as int, v, tick, l.row as int);
                if x != e {
                    assert(l.row != loc.row);
                }
            } else {
                assert(st1.arch(l.archetype_id.0 as int) == st0.arch(l.archetype_id.0 as int));
            }
        }
        assert(st1.entities() =~= st0.entities().insert(e, st0.entities()[e].insert(k, (v, st0.entities()[e][k].1, tick))));
        assert forall|a: int| 0 <= a < st1.layouts().len() implies st1.layouts()[a] == st0.layouts()[a] by {
            if a != ai {
                assert(st1.arch(a) == st0.arch(a));
            }
        }
        assert(st1.layouts() =~= st0.layouts());
    }

    /// Rewrite-in-place access to the cell of `k` in the row at `loc`.
    fn cell_at_mut(&mut self, loc: EntityLocation, k: TypeKey, tick: u64) -> (r: &mut V)
        requires
            old(self).wf(),
            loc.archetype_id.0 < old(self).n_arch(),
            loc.row < old(self).arch(loc.archetype_id.0 as int).spec_entities().len(),
            old(self).arch(loc.archetype_id.0 as int).spec_layout().contains(k),
        ensures
            *r == old(self).arch(loc.archetype_id.0 as int).column_of(k).data()[loc.row as int],
            final(self).meta == old(self).meta,
            final(self).change_tick == old(self).change_tick,
            final(self).archetypes.spec_registered() == old(self).archetypes.spec_registered(),
            cell_rewritten(old(self).archetypes.spec_archetypes(), final(self).archetypes.spec_archetypes(), loc, k, *final(r), tick),
        no_unwind
    {
        proof {
            assert(self.arch(loc.archetype_id.0 as int).rows_ok());
        }
        let arch = self.archetypes.get_mut(loc.archetype_id);
        arch.cell_mut(k, loc.row as usize, tick)
    }

    /// A mutable reference to component `k` of `e`, stamping its changed tick.
    fn get_mut(&mut self, e: Entity, k: TypeKey) -> (r: Option<&mut V>)
        requires
            old(self).wf(),
        ensures
            final(self).wf(),
            final(self).change_tick == old(self).change_tick,
            final(self).meta == old(self).meta,
            final(self).layouts() == old(self).layouts(),
            r is Some <==> (old(self).entities().contains_key(e) && old(self).entities()[e].contains_key(k)),
            r is Some ==> *r->0 == old(self).entities()[e][k].0,
            r is Some ==> final(self).entities() == old(self).entities().insert(
                e,
                old(self).entities()[e].insert(k, (*final(r->0), old(self).entities()[e][k].1, old(self).change_tick)),
            ),
            r is None ==> final(self).entities() == old(self).entities(),
        no_unwind
    {
        match self.meta.get_location(e) {
            None => None,
            Some(loc) => {
                proof {
                    assert(self.meta.spec_is_alive(e));
                }
                if !self.archetypes.get(loc.archetype_id).layout().contains(k) {
                    proof {
                        assert(!self.entities()[e].contains_key(k));
                    }
                    return None;
                }
                let tick = self.change_tick;
                let ghost st0 = *self;
                proof {
                    assert(self.entities()[e].contains_key(k));
                    assert forall|st1: WorldState<V>, v: V|
                        st1.meta == st0.meta && st1.change_tick == st0.change_tick
                            && st1.archetypes.spec_registered() == st0.archetypes.spec_registered()
                            && #[trigger] cell_rewritten(st0.archetypes.spec_archetypes(), st1.archetypes.spec_archetypes(), loc, k, v, tick)
                        implies st1.wf() && st1.layouts() == st0.layouts()
                            && st1.entities() == st0.entities().insert(e, st0.entities()[e].insert(k, (v, st0.entities()[e][k].1, tick))) by {
                        Self::lemma_cell_rewritten(st0, st1, e, loc, k, v, tick);
                    }
                    let ki = key_index(st0.arch(loc.archetype_id.0 as int).spec_layout(), k);
                    assert(st0.entities()[e][k].0 == st0.arch(loc.archetype_id.0 as int).column_of(k).data()[loc.row as int]);
                }
                let r = self.cell_at_mut(loc, k, tick);
                Some(r)
            },
        }
    }
}


impl<V> WorldState<V> {
    /// A store with no entities and no archetypes.
    fn empty() -> (w: WorldState<V>)
        ensures
            w.wf(),
    {
        let w = WorldState { meta: EntityMetaStore::new(), archetypes: ArchetypeStore::new(), change_tick: 1 };
        proof {
            assert forall|a: int| 0 <= a < w.n_arch() implies (#[trigger] w.arch(a)).rows_ok() by {}
        }
        w
    }
}

/// The alive handles among the first `n` slots are distinct and are exactly
/// the alive entities of those slots.
pub proof fn lemma_alive_prefix(metas: Seq<EntityMeta>, n: int)
    requires
        0 <= n <= metas.len() <= u32::MAX,
    ensures
        alive_prefix(metas, n).no_duplicates(),
        alive_prefix(metas, n).len() == alive_count(metas, n),
        forall|x: Entity| #[trigger] alive_prefix(metas, n).contains(x) <==> (0 <= x.index < n
            && metas[x.index as int].alive && metas[x.index as int].generation == x.generation),
        forall|i: int| 0 <= i < alive_prefix(metas, n).len() ==> (#[trigger] alive_prefix(metas, n)[i]).index < n,
    decreases n,
{
    if n > 0 {
        lemma_alive_prefix(metas, n - 1);
        let rest = alive_prefix(metas, n - 1);
        if metas[n - 1].alive {
            let x = Entity { index: (n - 1) as u32, generation: metas[n - 1].generation };
            assert(!rest.contains(x)) by {
                if rest.contains(x) {
                    let i = choose|i: int| 0 <= i < rest.len() && rest[i] == x;
                    assert(rest[i].index < n - 1);
                }
            }
            assert forall|y: Entity| #[trigger] alive_prefix(metas, n).contains(y) <==> (0 <= y.index < n
                && metas[y.index as int].alive && metas[y.index as int].generation == y.generation) by {
                if y == x {
                    assert(alive_prefix(metas, n)[rest.len() as int] == x);
                } else if rest.contains(y) {
                    let i = choose|i: int| 0 <= i < rest.len() && rest[i] == y;
                    assert(alive_prefix(metas, n)[i] == y);
                }
                if alive_prefix(metas, n).contains(y) {
                    let i = choose|i: int| 0 <= i < alive_prefix(metas, n).len() && alive_prefix(metas, n)[i] == y;
                    if i < rest.len() {
                        assert(rest[i] == y);
                    }
                }
                if 0 <= y.index < n - 1 && metas[y.index as int].alive && metas[y.index as int].generation == y.generation {
                    assert(rest.contains(y));
                    let i = choose|i: int| 0 <= i < rest.len() && rest[i] == y;
                    assert(alive_prefix(metas, n)[i] == y);
                }
            }
        } else {
            assert forall|y: Entity| #[trigger] alive_prefix(metas, n).contains(y) <==> (0 <= y.index < n
                && metas[y.index as int].alive && metas[y.index as int].generation == y.generation) by {
                assert(alive_prefix(metas, n) == rest);
            }
        }
    }
}

/// Hand out a mutable borrow unchanged.
fn reborrow<T>(x: &mut T) -> (r: &mut T)
    ensures
        *r == *old(x),
        *final(x) == *final(r),
    no_unwind
{
    x
}

/// The event and deadline bookkeeping of a world.
struct Signals<V> {
    /// One double buffer per registered event key.
    events: Resources<Events<V>>,
    /// Event keys in registration order; each is registered once.
    registered: Vec<TypeKey>,
    /// One deadline queue per registered deadline key.
    deadlines: Resources<Deadlines<V>>,
    /// Deadline keys in registration order.
    deadline_keys: Vec<TypeKey>,
    /// The source of every deadline id of the world.
    deadline_ids: DeadlineIds,
}

impl<V> Signals<V> {
    spec fn wf(&self) -> bool {
        &&& self.events.wf()
        &&& self.deadlines.wf()
        &&& self.registered@.no_duplicates()
        &&& self.deadline_keys@.no_duplicates()
        &&& forall|k: TypeKey| #[trigger] self.events@.contains_key(k) ==> self.registered@.contains(k)
        &&& forall|k: TypeKey| #[trigger] self.deadlines@.contains_key(k) <==> self.deadline_keys@.contains(k)
        &&& forall|k: TypeKey| #[trigger] self.deadline_keys@.contains(k) ==> self.registered@.contains(k)
        &&& forall|k: TypeKey| #[trigger] self.deadlines@.contains_key(k) ==> self.deadlines@[k].wf()
        &&& forall|k: TypeKey| #[trigger] self.deadlines@.contains_key(k) ==> self.deadlines@[k].ids_below(self.deadline_ids.spec_next())
    }

    fn new() -> (s: Signals<V>)
        ensures
            s.wf(),
            s.events@ == Map::<TypeKey, Events<V>>::empty(),
            s.registered@ == Seq::<TypeKey>::empty(),
            s.deadlines@ == Map::<TypeKey, Deadlines<V>>::empty(),
            s.deadline_keys@ == Seq::<TypeKey>::empty(),
            s.deadline_ids.spec_next() == 1,
    {
        Signals { events: Resources::new(), registered: Vec::new(), deadlines: Resources::new(), deadline_keys: Vec::new(), deadline_ids: DeadlineIds::new() }
    }
}

/// The ECS world: entities and their components, world-global resources,
/// the deferred command queue, event buffers, deadline queues and an
/// optional clock.
///
/// Components, resources, events and deadline payloads are values of one
/// type `V`, each stored under a [`TypeKey`].
pub struct World<V> {
    state: WorldState<V>,
    resources: Resources<V>,
    commands: CommandBuffer<V>,
    signals: Signals<V>,
    clock: Option<Box<dyn Clock>>,
    /// Every removal of a component from an alive entity: the entity, the
    /// component key and the tick of the removal, oldest first.
    removed: Vec<(Entity, TypeKey, u64)>,
}

impl<V> World<V> {
    #[verifier::type_invariant]
    spec fn inv(self) -> bool {
        &&& self.state.wf()
        &&& self.resources.wf()
        &&& self.signals.wf()
    }

    /// Every alive entity with its component cells `(value, added tick, changed tick)`.
    pub closed spec fn spec_entities(&self) -> Map<Entity, Map<TypeKey, Cell<V>>> {
        self.state.entities()
    }

    /// Every removal of a component from an alive entity, oldest first:
    /// the entity, the component key and the tick of the removal.
    pub closed spec fn spec_removals(&self) -> Seq<(Entity, TypeKey, u64)> {
        self.removed@
    }

    /// The change-detection tick.
    pub closed spec fn spec_tick(&self) -> u64 {
        self.state.change_tick
    }

    /// Generation and liveness of each entity slot.
    pub closed spec fn spec_slots(&self) -> Seq<Slot> {
        self.state.slots()
    }

    /// Free entity slots; the last one is reused first.
    pub closed spec fn spec_free(&self) -> Seq<u32> {
        self.state.meta.free()
    }

    /// The layout of each archetype, by archetype id.
    pub closed spec fn spec_layouts(&self) -> Seq<Seq<TypeKey>> {
        self.state.layouts()
    }

    /// The archetype storage.
    pub closed spec fn spec_store(&self) -> ArchetypeStore<V> {
        self.state.archetypes
    }

    /// Where an entity is stored, when it is alive.
    pub closed spec fn spec_location(&self, e: Entity) -> Option<EntityLocation> {
        self.state.meta.spec_location(e)
    }

    /// The world-global resources.
    pub closed spec fn spec_resources(&self) -> Map<TypeKey, V> {
        self.resources@
    }

    /// The queued commands.
    pub closed spec fn spec_commands(&self) -> Seq<Command<V>> {
        self.commands.spec_queue()
    }

    /// The event buffers present, by event key.
    pub closed spec fn spec_events(&self) -> Map<TypeKey, Events<V>> {
        self.signals.events@
    }

    /// Registered event keys, in registration order.
    pub closed spec fn spec_registered_events(&self) -> Seq<TypeKey> {
        self.signals.registered@
    }

    /// The deadline queues, by deadline key.
    pub closed spec fn spec_next_deadline_id(&self) -> u64 {
        self.signals.deadline_ids.spec_next()
    }

    /// The deadline queues by key.
    pub closed spec fn spec_deadlines(&self) -> Map<TypeKey, Deadlines<V>> {
        self.signals.deadlines@
    }

    /// Whether a clock is installed.
    pub closed spec fn spec_has_clock(&self) -> bool {
        self.clock is Some
    }

    /// Whether an entity is alive.
    pub open spec fn spec_alive(&self, e: Entity) -> bool {
        self.spec_entities().contains_key(e)
    }

    /// The entity the next spawn returns.
    pub open spec fn spec_next_entity(&self) -> Entity {
        next_entity(self.spec_slots(), self.spec_free())
    }

    /// Room for one more entity (entity indices are `u32`).
    pub closed spec fn can_allocate(&self) -> bool {
        self.state.meta.can_alloc()
    }

    /// Room for an archetype with key set `keys` (archetype ids are `u32`).
    pub closed spec fn can_hold(&self, keys: Set<TypeKey>) -> bool {
        self.state.can_reach(keys)
    }

    /// What room for entities and archetypes means, in terms of the
    /// world's slots, free list and layouts.
    pub proof fn lemma_room(&self)
        ensures
            self.can_allocate() <==> (self.spec_free().len() > 0 || self.spec_slots().len() < u32::MAX),
            forall|ks: Set<TypeKey>| #[trigger] self.can_hold(ks) <==> (self.spec_layouts().len() < u32::MAX
                || exists|a: int| 0 <= a < self.spec_layouts().len() && (#[trigger] self.spec_layouts()[a]).to_set() == ks),
    {
        assert forall|ks: Set<TypeKey>| #[trigger] self.can_hold(ks) <==> (self.spec_layouts().len() < u32::MAX
            || exists|a: int| 0 <= a < self.spec_layouts().len() && (#[trigger] self.spec_layouts()[a]).to_set() == ks) by {
            if exists|a: int| 0 <= a < self.spec_layouts().len() && (#[trigger] self.spec_layouts()[a]).to_set() == ks {
                let a = choose|a: int| 0 <= a < self.spec_layouts().len() && (#[trigger] self.spec_layouts()[a]).to_set() == ks;
                assert(self.state.arch(a).spec_layout().to_set() == ks);
            }
            if self.state.has_key_set(ks) {
                let a = choose|a: int| 0 <= a < self.state.n_arch() && (#[trigger] self.state.arch(a)).spec_layout().to_set() == ks;
                assert(self.spec_layouts()[a].to_set() == ks);
            }
        }
    }

    /// An entity is alive exactly when its slot exists, is alive and
    /// carries the entity's generation.
    pub proof fn lemma_alive_by_slot(&self, e: Entity)
        ensures
            self.spec_alive(e) <==> {
                &&& (e.index as int) < self.spec_slots().len()
                &&& self.spec_slots()[e.index as int].alive
                &&& self.spec_slots()[e.index as int].generation == e.generation
            },
    {
    }

    /// Every free slot index names an existing slot.
    pub open spec fn free_in_range(&self) -> bool {
        forall|j: int| 0 <= j < self.spec_free().len() ==> (#[trigger] self.spec_free()[j] as int) < self.spec_slots().len()
    }

    /// The alive entities form a finite set.
    pub proof fn lemma_entities_finite(&self)
        ensures
            self.spec_entities().dom().finite(),
    {
        let metas = self.state.meta.metas();
        let f = |i: int| Entity { index: i as u32, generation: metas[i].generation };
        vstd::set_lib::lemma_int_range(0, metas.len() as int);
        let idx = vstd::set_lib::set_int_range(0, metas.len() as int);
        idx.lemma_map_finite(f);
        let big = idx.map(f);
        assert forall|e: Entity| #[trigger] self.spec_entities().dom().contains(e) implies big.contains(e) by {
            let i = e.index as int;
            assert(idx.contains(i));
            assert(f(i) == e);
        }
        vstd::set_lib::lemma_set_subset_finite(big, self.spec_entities().dom());
    }

    /// Every registered event key has its buffer present.
    pub open spec fn events_ready(&self) -> bool {
        forall|k: TypeKey| #[trigger] self.spec_registered_events().contains(k) ==> self.spec_events().contains_key(k)
    }

    /// Everything but entity storage and the tick is the same in `self` and `other`.
    pub open spec fn same_outside_storage(&self, other: &World<V>) -> bool {
        &&& self.spec_resources() == other.spec_resources()
        &&& self.spec_commands() == other.spec_commands()
        &&& self.spec_events() == other.spec_events()
        &&& self.spec_registered_events() == other.spec_registered_events()
        &&& self.spec_deadlines() == other.spec_deadlines()
        &&& self.spec_next_deadline_id() == other.spec_next_deadline_id()
        &&& self.spec_has_clock() == other.spec_has_clock()
    }

    /// Entity storage and the tick are the same in `self` and `other`.
    pub open spec fn same_storage(&self, other: &World<V>) -> bool {
        &&& self.spec_removals() == other.spec_removals()
        &&& self.spec_entities() == other.spec_entities()
        &&& self.spec_tick() == other.spec_tick()
        &&& self.spec_slots() == other.spec_slots()
        &&& self.spec_free() == other.spec_free()
        &&& self.spec_layouts() == other.spec_layouts()
    }

    /// Create an empty world with a single empty archetype.
    pub fn new() -> (w: World<V>)
        ensures
            w.spec_entities() == Map::<Entity, Map<TypeKey, Cell<V>>>::empty(),
            w.spec_tick() == 1,
            w.spec_slots() == Seq::<Slot>::empty(),
            w.spec_free() == Seq::<u32>::empty(),
            w.spec_layouts() == seq![Seq::<TypeKey>::empty()],
            w.spec_resources() == Map::<TypeKey, V>::empty(),
            w.spec_commands() == Seq::<Command<V>>::empty(),
            w.spec_events() == Map::<TypeKey, Events<V>>::empty(),
            w.spec_registered_events() == Seq::<TypeKey>::empty(),
            w.spec_deadlines() == Map::<TypeKey, Deadlines<V>>::empty(),
            !w.spec_has_clock(),
            w.spec_store().spec_archetypes().len() == 1,
            w.spec_store().spec_archetypes()[0].spec_entities().len() == 0,
            w.can_allocate(),
            forall|ks: Set<TypeKey>| #[trigger] w.can_hold(ks),
            w.spec_next_deadline_id() == 1,
    {
        let state = WorldState::new();
        proof {
            assert(state.layouts().len() == 1);
            assert(state.archetypes.spec_archetypes().len() == 1);
            assert(state.meta.metas().len() == 0) by {
                assert(state.slots().len() == state.meta.metas().len());
            }
        }
        World {
            state,
            resources: Resources::new(),
            commands: CommandBuffer::new(),
            signals: Signals::new(),
            clock: None,
            removed: Vec::new(),
        }
    }

    /// The current change-detection tick. Starts at 1; 0 means "never".
    pub fn change_tick(&self) -> (r: u64)
        ensures
            r == self.spec_tick(),
            r >= 1,
    {
        proof {
            use_type_invariant(self);
        }
        self.state.change_tick
    }

    /// Advance the change-detection tick by one and return the new tick.
    pub fn advance_tick(&mut self) -> (r: u64)
        requires
            old(self).spec_tick() < u64::MAX,
        ensures
            r == old(self).spec_tick() + 1,
            final(self).spec_tick() == r,
            final(self).spec_entities() == old(self).spec_entities(),
            final(self).spec_slots() == old(self).spec_slots(),
            final(self).spec_free() == old(self).spec_free(),
            final(self).spec_layouts() == old(self).spec_layouts(),
            final(self).same_outside_storage(old(self)),
    {
        proof {
            use_type_invariant(&*self);
        }
        let mut st = WorldState::empty();
        std::mem::swap(&mut st, &mut self.state);
        let r = st.change_tick + 1;
        let st2 = WorldState { meta: st.meta, archetypes: st.archetypes, change_tick: r };
        proof {
            assert(st2.entities() =~= st.entities());
            assert(st2.slots() =~= st.slots());
            assert(st2.layouts() =~= st.layouts());
            assert forall|e: Entity| #[trigger] st2.meta.spec_is_alive(e) implies st.meta.spec_is_alive(e) by {}
            assert forall|a: int| 0 <= a < st2.n_arch() implies #[trigger] st2.arch(a) == st.arch(a) by {}
        }
        self.state = st2;
        r
    }

    /// Check whether an entity is alive.
    pub fn is_alive(&self, e: Entity) -> (r: bool)
        ensures
            r == self.spec_alive(e),
    {
        proof {
            use_type_invariant(self);
        }
        self.state.is_alive(e)
    }

    /// Returns the number of alive entities.
    pub fn entity_count(&self) -> (r: usize)
        ensures
            r == self.spec_entities().dom().len(),
            self.spec_entities().dom().finite(),
    {
        proof {
            use_type_invariant(self);
        }
        let v = self.state.meta.alive_entities();
        proof {
            let metas = self.state.meta.metas();
            lemma_alive_prefix(metas, metas.len() as int);
            assert(v@.to_set() =~= self.spec_entities().dom());
            v@.unique_seq_to_set();
        }
        v.len()
    }
}


/// Whether a bundle names no key twice.
fn bundle_keys_unique<V>(bundle: &Vec<(TypeKey, V)>) -> (r: bool)
    ensures
        r == keys_unique(bundle@),
{
    let mut i: usize = 0;
    while i < bundle.len()
        invariant
            i <= bundle@.len(),
            forall|a: int, b: int| 0 <= a < i && 0 <= b < bundle@.len() && a != b ==> (#[trigger] bundle@[a]).0 != (#[trigger] bundle@[b]).0,
        decreases bundle@.len() - i,
    {
        let mut j: usize = 0;
        while j < bundle.len()
            invariant
                i < bundle@.len(),
                j <= bundle@.len(),
                forall|a: int, b: int| 0 <= a < i && 0 <= b < bundle@.len() && a != b ==> (#[trigger] bundle@[a]).0 != (#[trigger] bundle@[b]).0,
                forall|b: int| 0 <= b < j && b != i ==> bundle@[i as int].0 != (#[trigger] bundle@[b]).0,
            decreases bundle@.len() - j,
        {
            if j != i && bundle[i].0 == bundle[j].0 {
                return false;
            }
            j = j + 1;
        }
        i = i + 1;
    }
    true
}

/// The keys of a bundle, in bundle order.
fn bundle_key_list<V>(bundle: &Vec<(TypeKey, V)>) -> (r: Vec<TypeKey>)
    ensures
        r@.to_set() == bundle_keys(bundle@),
{
    let mut out: Vec<TypeKey> = Vec::new();
    let mut i: usize = 0;
    while i < bundle.len()
        invariant
            i <= bundle@.len(),
            out@.len() == i,
            forall|j: int| 0 <= j < i ==> #[trigger] out@[j] == bundle@[j].0,
        decreases bundle@.len() - i,
    {
        out.push(bundle[i].0);
        i = i + 1;
    }
    proof {
        assert forall|k: TypeKey| out@.to_set().contains(k) == bundle_keys(bundle@).contains(k) by {
            if out@.contains(k) {
                let j = choose|j: int| 0 <= j < out@.len() && out@[j] == k;
                assert(bundle@[j].0 == k);
            }
            if has_key(bundle@, k) {
                let j = choose|j: int| 0 <= j < bundle@.len() && (#[trigger] bundle@[j]).0 == k;
                assert(out@[j] == k);
            }
        }
        assert(out@.to_set() =~= bundle_keys(bundle@));
    }
    out
}

impl<V> World<V> {
    /// Spawn an entity with the given `(component key, value)` bundle. Each
    /// component is stamped added and changed at the current tick.
    pub fn spawn(&mut self, bundle: Vec<(TypeKey, V)>) -> (e: Entity)
        requires
            keys_unique(bundle@),
            old(self).can_allocate(),
            old(self).can_hold(bundle_keys(bundle@)),
        ensures
            e == old(self).spec_next_entity(),
            !old(self).spec_alive(e),
            old(self).free_in_range(),
            final(self).spec_entities() == old(self).spec_entities().insert(e, bundle_cells(bundle@, old(self).spec_tick())),
            final(self).spec_tick() == old(self).spec_tick(),
            final(self).spec_slots() == spawn_slots(old(self).spec_slots(), old(self).spec_free()),
            final(self).spec_free() == spawn_free(old(self).spec_free()),
            final(self).spec_layouts() == layouts_with(old(self).spec_layouts(), bundle_keys(bundle@)),
            final(self).same_outside_storage(old(self)),
    {
        proof {
            use_type_invariant(&*self);
        }
        let mut st = WorldState::empty();
        std::mem::swap(&mut st, &mut self.state);
        let e = st.spawn(bundle);
        self.state = st;
        e
    }

    /// Spawn an entity if the bundle names each key at most once and there
    /// is room for it; otherwise leave the world unchanged and return `None`.
    pub fn try_spawn(&mut self, bundle: Vec<(TypeKey, V)>) -> (r: Option<Entity>)
        ensures
            r is Some <==> (keys_unique(bundle@) && old(self).can_allocate() && old(self).can_hold(bundle_keys(bundle@))),
            r matches Some(e) ==> {
                &&& e == old(self).spec_next_entity()
                &&& !old(self).spec_alive(e)
                &&& old(self).free_in_range()
                &&& final(self).spec_entities() == old(self).spec_entities().insert(e, bundle_cells(bundle@, old(self).spec_tick()))
                &&& final(self).spec_tick() == old(self).spec_tick()
                &&& final(self).spec_slots() == spawn_slots(old(self).spec_slots(), old(self).spec_free())
                &&& final(self).spec_free() == spawn_free(old(self).spec_free())
                &&& final(self).spec_layouts() == layouts_with(old(self).spec_layouts(), bundle_keys(bundle@))
            },
            r is None ==> final(self).same_storage(old(self)),
            final(self).same_outside_storage(old(self)),
    {
        proof {
            use_type_invariant(&*self);
        }
        if !bundle_keys_unique(&bundle) {
            return None;
        }
        if !self.state.meta.can_allocate() {
            return None;
        }
        let keys = bundle_key_list(&bundle);
        let layout = ArchetypeLayout::from_type_ids(keys.as_slice());
        let room = self.state.archetypes.len() < 0xffff_ffffusize || self.state.archetypes.find(&layout).is_some();
        proof {
            self.state.lemma_has_key_set(layout@);
        }
        if !room {
            return None;
        }
        Some(self.spawn(bundle))
    }

    /// Despawn an entity, removing all its components. Returns whether it
    /// was alive.
    pub fn despawn(&mut self, e: Entity) -> (r: bool)
        ensures
            r == old(self).spec_alive(e),
            !final(self).spec_alive(e),
            r ==> {
                &&& final(self).spec_entities() == old(self).spec_entities().remove(e)
                &&& final(self).spec_slots() == old(self).spec_slots().update(
                    e.index as int,
                    Slot { generation: e.generation.wrapping_add(1), alive: false },
                )
                &&& final(self).spec_free() == old(self).spec_free().push(e.index)
                &&& final(self).spec_layouts() == old(self).spec_layouts()
                &&& final(self).spec_tick() == old(self).spec_tick()
            },
            !r ==> final(self).same_storage(old(self)),
            final(self).same_outside_storage(old(self)),
    {
        proof {
            use_type_invariant(&*self);
        }
        let mut st = WorldState::empty();
        std::mem::swap(&mut st, &mut self.state);
        let r = st.despawn(e);
        self.state = st;
        r
    }

    /// Get component `k` of entity `e`.
    pub fn get(&self, e: Entity, k: TypeKey) -> (r: Option<&V>)
        ensures
            r is Some <==> (self.spec_alive(e) && self.spec_entities()[e].contains_key(k)),
            r matches Some(v) ==> *v == self.spec_entities()[e][k].0,
    {
        proof {
            use_type_invariant(self);
        }
        self.state.get(e, k)
    }

    /// Get component `k` of entity `e` with its added and changed ticks.
    pub fn get_with_ticks(&self, e: Entity, k: TypeKey) -> (r: Option<(&V, u64, u64)>)
        ensures
            r is Some <==> (self.spec_alive(e) && self.spec_entities()[e].contains_key(k)),
            r matches Some(c) ==> *c.0 == self.spec_entities()[e][k].0 && c.1 == self.spec_entities()[e][k].1
                && c.2 == self.spec_entities()[e][k].2,
    {
        proof {
            use_type_invariant(self);
        }
        self.state.cell(e, k)
    }

    /// Get component `k` of entity `e` mutably. Its changed tick is stamped
    /// at the current tick; its added tick is kept.
    pub fn get_mut(&mut self, e: Entity, k: TypeKey) -> (r: Option<&mut V>)
        ensures
            r is Some <==> (old(self).spec_alive(e) && old(self).spec_entities()[e].contains_key(k)),
            r is Some ==> *r->0 == old(self).spec_entities()[e][k].0,
            r is Some ==> final(self).spec_entities() == old(self).spec_entities().insert(
                e,
                old(self).spec_entities()[e].insert(k, (*final(r->0), old(self).spec_entities()[e][k].1, old(self).spec_tick())),
            ),
            r is None ==> final(self).spec_entities() == old(self).spec_entities(),
            final(self).spec_tick() == old(self).spec_tick(),
            final(self).spec_slots() == old(self).spec_slots(),
            final(self).spec_free() == old(self).spec_free(),
            final(self).spec_layouts() == old(self).spec_layouts(),
            final(self).same_outside_storage(old(self)),
    {
        proof {
            use_type_invariant(&*self);
        }
        self.state.get_mut(e, k)
    }

    /// Insert component `k` with `value` into `e`. An existing value is
    /// overwritten in place (changed tick stamped, added tick kept); a new
    /// component moves the entity to the archetype with `k` added (both
    /// ticks stamped). Does nothing for a dead entity.
    pub fn insert(&mut self, e: Entity, k: TypeKey, value: V)
        requires
            old(self).spec_alive(e) && !old(self).spec_entities()[e].contains_key(k) ==>
                old(self).can_hold(old(self).spec_entities()[e].dom().insert(k)),
        ensures
            old(self).spec_alive(e) ==> final(self).spec_entities() == old(self).spec_entities().insert(
                e,
                old(self).spec_entities()[e].insert(k, inserted_cell(old(self).spec_entities()[e], k, value, old(self).spec_tick())),
            ),
            !old(self).spec_alive(e) ==> final(self).spec_entities() == old(self).spec_entities(),
            old(self).spec_alive(e) && !old(self).spec_entities()[e].contains_key(k) ==>
                final(self).spec_layouts() == layouts_with(old(self).spec_layouts(), old(self).spec_entities()[e].dom().insert(k)),
            !(old(self).spec_alive(e) && !old(self).spec_entities()[e].contains_key(k)) ==>
                final(self).spec_layouts() == old(self).spec_layouts(),
            final(self).spec_tick() == old(self).spec_tick(),
            final(self).spec_slots() == old(self).spec_slots(),
            final(self).spec_free() == old(self).spec_free(),
            final(self).same_outside_storage(old(self)),
    {
        proof {
            use_type_invariant(&*self);
        }
        let mut st = WorldState::empty();
        std::mem::swap(&mut st, &mut self.state);
        st.insert(e, k, value);
        self.state = st;
    }

    /// Insert component `k` into `e` as [`World::insert`] does, where there
    /// is room for the archetype the entity moves to; otherwise leave the
    /// world unchanged and return `false`.
    pub fn try_insert(&mut self, e: Entity, k: TypeKey, value: V) -> (r: bool)
        ensures
            r == (old(self).spec_alive(e) && !old(self).spec_entities()[e].contains_key(k) ==>
                old(self).can_hold(old(self).spec_entities()[e].dom().insert(k))),
            r && old(self).spec_alive(e) ==> final(self).spec_entities() == old(self).spec_entities().insert(
                e,
                old(self).spec_entities()[e].insert(k, inserted_cell(old(self).spec_entities()[e], k, value, old(self).spec_tick())),
            ),
            r && old(self).spec_alive(e) && !old(self).spec_entities()[e].contains_key(k) ==>
                final(self).spec_layouts() == layouts_with(old(self).spec_layouts(), old(self).spec_entities()[e].dom().insert(k)),
            r && !(old(self).spec_alive(e) && !old(self).spec_entities()[e].contains_key(k)) ==>
                final(self).spec_layouts() == old(self).spec_layouts(),
            !(r && old(self).spec_alive(e)) ==> final(self).spec_entities() == old(self).spec_entities(),
            !r ==> final(self).same_storage(old(self)),
            final(self).spec_tick() == old(self).spec_tick(),
            final(self).spec_slots() == old(self).spec_slots(),
            final(self).spec_free() == old(self).spec_free(),
            final(self).same_outside_storage(old(self)),
    {
        proof {
            use_type_invariant(&*self);
        }
        if !self.state.room_for_insert(e, k) {
            return false;
        }
        self.insert(e, k, value);
        true
    }

    /// Remove component `k` from `e` as [`World::remove`] does, where there
    /// is room for the archetype the entity moves to; otherwise leave the
    /// world unchanged and return `false`.
    pub fn try_remove(&mut self, e: Entity, k: TypeKey) -> (r: bool)
        ensures
            r == (old(self).spec_alive(e) && old(self).spec_entities()[e].contains_key(k) ==>
                old(self).can_hold(old(self).spec_entities()[e].dom().remove(k))),
            r && old(self).spec_alive(e) ==> final(self).spec_entities() == old(self).spec_entities().insert(
                e,
                old(self).spec_entities()[e].remove(k),
            ),
            r && old(self).spec_alive(e) && old(self).spec_entities()[e].contains_key(k) ==>
                final(self).spec_layouts() == layouts_with(old(self).spec_layouts(), old(self).spec_entities()[e].dom().remove(k)),
            r && !(old(self).spec_alive(e) && old(self).spec_entities()[e].contains_key(k)) ==>
                final(self).spec_layouts() == old(self).spec_layouts(),
            !(r && old(self).spec_alive(e)) ==> final(self).spec_entities() == old(self).spec_entities(),
            !r ==> final(self).same_storage(old(self)),
            final(self).spec_tick() == old(self).spec_tick(),
            final(self).spec_slots() == old(self).spec_slots(),
            final(self).spec_free() == old(self).spec_free(),
            final(self).same_outside_storage(old(self)),
    {
        proof {
            use_type_invariant(&*self);
        }
        if !self.state.room_for_remove(e, k) {
            return false;
        }
        self.remove(e, k);
        true
    }

    /// Remove component `k` from `e`, moving it to the archetype without
    /// `k`. Does nothing for a dead entity or an absent component.
    pub fn remove(&mut self, e: Entity, k: TypeKey)
        requires
            old(self).spec_alive(e) && old(self).spec_entities()[e].contains_key(k) ==>
                old(self).can_hold(old(self).spec_entities()[e].dom().remove(k)),
        ensures
            old(self).spec_alive(e) ==> final(self).spec_entities() == old(self).spec_entities().insert(
                e,
                old(self).spec_entities()[e].remove(k),
            ),
            !old(self).spec_alive(e) ==> final(self).spec_entities() == old(self).spec_entities(),
            old(self).spec_alive(e) && old(self).spec_entities()[e].contains_key(k) ==>
                final(self).spec_layouts() == layouts_with(old(self).spec_layouts(), old(self).spec_entities()[e].dom().remove(k)),
            !(old(self).spec_alive(e) && old(self).spec_entities()[e].contains_key(k)) ==>
                final(self).spec_layouts() == old(self).spec_layouts(),
            final(self).spec_tick() == old(self).spec_tick(),
            final(self).spec_slots() == old(self).spec_slots(),
            final(self).spec_free() == old(self).spec_free(),
            final(self).spec_removals() == if old(self).spec_alive(e) && old(self).spec_entities()[e].contains_key(k) {
                old(self).spec_removals().push((e, k, old(self).spec_tick()))
            } else {
                old(self).spec_removals()
            },
            final(self).same_outside_storage(old(self)),
    {
        proof {
            use_type_invariant(&*self);
        }
        let had = self.get(e, k).is_some();
        let tick = self.state.change_tick;
        let mut st = WorldState::empty();
        std::mem::swap(&mut st, &mut self.state);
        st.remove(e, k);
        self.state = st;
        if had {
            let mut log = Vec::new();
            std::mem::swap(&mut log, &mut self.removed);
            log.push((e, k, tick));
            self.removed = log;
        }
    }

    /// Whether component `k` was removed from `e` after tick `since`.
    pub fn removed_since(&self, e: Entity, k: TypeKey, since: u64) -> (r: bool)
        ensures
            r == removed_after(self.spec_removals(), e, k, since),
    {
        let mut i: usize = 0;
        while i < self.removed.len()
            invariant
                i <= self.removed@.len(),
                forall|j: int| 0 <= j < i ==> !removal_of(#[trigger] self.removed@[j], e, k, since),
            decreases self.removed@.len() - i,
        {
            let (x, y, t) = self.removed[i];
            if x == e && y == k && t > since {
                proof {
                    assert(removal_of(self.spec_removals()[i as int], e, k, since));
                }
                return true;
            }
            i = i + 1;
        }
        false
    }

    /// The entities from which component `k` was removed after tick
    /// `since`, in removal order.
    pub fn component_removals_since(&self, k: TypeKey, since: u64) -> (r: Vec<Entity>)
        ensures
            r@ == self.spec_removals().filter(|x: (Entity, TypeKey, u64)| x.1 == k && x.2 > since).map_values(
                |x: (Entity, TypeKey, u64)| x.0,
            ),
    {
        let mut out: Vec<Entity> = Vec::new();
        let mut i: usize = 0;
        while i < self.removed.len()
            invariant
                i <= self.removed@.len(),
                out@ == self.removed@.take(i as int).filter(|x: (Entity, TypeKey, u64)| x.1 == k && x.2 > since).map_values(
                    |x: (Entity, TypeKey, u64)| x.0,
                ),
            decreases self.removed@.len() - i,
        {
            let (x, y, t) = self.removed[i];
            proof {
                assert(self.removed@.take(i + 1).drop_last() =~= self.removed@.take(i as int));
                reveal(Seq::filter);
            }
            if y == k && t > since {
                out.push(x);
            }
            proof {
                let f = |x: (Entity, TypeKey, u64)| x.1 == k && x.2 > since;
                let g = |x: (Entity, TypeKey, u64)| x.0;
                let p0 = self.removed@.take(i as int).filter(f);
                let p1 = self.removed@.take(i + 1).filter(f);
                if y == k && t > since {
                    assert(p1 == p0.push(self.removed@[i as int]));
                    assert(p1.map_values(g) =~= p0.map_values(g).push(x));
                } else {
                    assert(p1 == p0);
                }
            }
            i = i + 1;
        }
        proof {
            assert(self.removed@.take(self.removed@.len() as int) =~= self.removed@);
        }
        out
    }

    /// Where an alive entity is stored: its archetype and row, whose cells
    /// are the entity's components.
    pub fn entity_location(&self, e: Entity) -> (r: Option<EntityLocation>)
        ensures
            r == self.spec_location(e),
            r is Some <==> self.spec_alive(e),
            r matches Some(l) ==> {
                &&& l.archetype_id.0 < self.spec_store().spec_archetypes().len()
                &&& l.row < self.spec_store().spec_archetypes()[l.archetype_id.0 as int].spec_entities().len()
                &&& self.spec_store().spec_archetypes()[l.archetype_id.0 as int].spec_entities()[l.row as int] == e
                &&& cells_at(self.spec_store().spec_archetypes()[l.archetype_id.0 as int], l.row as int) == self.spec_entities()[e]
            },
    {
        proof {
            use_type_invariant(self);
        }
        self.state.meta.get_location(e)
    }

    /// Shared access to the archetype storage.
    pub fn archetypes(&self) -> (r: &ArchetypeStore<V>)
        ensures
            *r == self.spec_store(),
            r.wf(),
            r.spec_archetypes().map_values(|a: Archetype<V>| a.spec_layout()) == self.spec_layouts(),
    {
        proof {
            use_type_invariant(self);
        }
        &self.state.archetypes
    }
}


/// Every event buffer of `e0` advanced once: the current buffer became
/// readable and the current buffer is empty.
pub open spec fn events_advanced<V>(e0: Map<TypeKey, Events<V>>, e1: Map<TypeKey, Events<V>>) -> bool {
    &&& e1.dom() == e0.dom()
    &&& forall|k: TypeKey| #[trigger] e0.contains_key(k) ==> {
        &&& e1[k].spec_previous() == e0[k].spec_current()
        &&& e1[k].spec_current() == Seq::<V>::empty()
    }
}

/// The deadline queues under `keys` were drained at `now`: their due events
/// were appended, in queue order, to the current buffers of the event
/// buffers under the same keys; every other queue and buffer is unchanged.
pub open spec fn drained_at<V>(
    d0: Map<TypeKey, Deadlines<V>>,
    e0: Map<TypeKey, Events<V>>,
    d1: Map<TypeKey, Deadlines<V>>,
    e1: Map<TypeKey, Events<V>>,
    keys: Set<TypeKey>,
    now: i64,
) -> bool {
    &&& d1.dom() == d0.dom()
    &&& e1.dom() == e0.dom()
    &&& forall|k: TypeKey| #[trigger] d0.contains_key(k) ==> if keys.contains(k) {
        &&& d1[k].spec_entries() == kept_entries(d0[k], now)
        &&& d1[k].wf()
    } else {
        d1[k] == d0[k]
    }
    &&& forall|k: TypeKey| #[trigger] e0.contains_key(k) ==> if keys.contains(k) && d0.contains_key(k) {
        &&& e1[k].spec_previous() == e0[k].spec_previous()
        &&& e1[k].spec_current() == e0[k].spec_current() + due_events(d0[k], now)
    } else {
        e1[k] == e0[k]
    }
}

impl<V> Signals<V> {
    fn add_event(&mut self, k: TypeKey)
        requires
            old(self).wf(),
        ensures
            final(self).wf(),
            final(self).registered@ == if old(self).registered@.contains(k) {
                old(self).registered@
            } else {
                old(self).registered@.push(k)
            },
            final(self).events@.dom() == old(self).events@.dom().insert(k),
            forall|j: TypeKey| j != k && #[trigger] old(self).events@.contains_key(j) ==> final(self).events@[j] == old(self).events@[j],
            old(self).events@.contains_key(k) ==> final(self).events@[k] == old(self).events@[k],
            !old(self).events@.contains_key(k) ==> final(self).events@[k].spec_previous() == Seq::<V>::empty()
                && final(self).events@[k].spec_current() == Seq::<V>::empty(),
            final(self).deadlines@ == old(self).deadlines@,
            final(self).deadline_keys@ == old(self).deadline_keys@,
            final(self).deadline_ids == old(self).deadline_ids,
    {
        let mut i: usize = 0;
        let mut found = false;
        while i < self.registered.len()
            invariant
                i <= self.registered@.len(),
                found == exists|j: int| 0 <= j < i && self.registered@[j] == k,
            decreases self.registered@.len() - i,
        {
            if self.registered[i] == k {
                found = true;
            }
            i = i + 1;
        }
        if !found {
            let ghost r0 = self.registered@;
            self.registered.push(k);
            proof {
                assert forall|a: int, b: int| 0 <= a < self.registered@.len() && 0 <= b < self.registered@.len() && a != b
                    implies self.registered@[a] != self.registered@[b] by {
                    if a == r0.len() {
                        assert(!r0.contains(k));
                        assert(self.registered@[b] == r0[b]);
                    } else if b == r0.len() {
                        assert(self.registered@[a] == r0[a]);
                    } else {
                        assert(self.registered@[a] == r0[a] && self.registered@[b] == r0[b]);
                    }
                }
                assert forall|j: TypeKey| r0.contains(j) implies self.registered@.contains(j) by {
                    let a = choose|a: int| 0 <= a < r0.len() && r0[a] == j;
                    assert(self.registered@[a] == j);
                }
                assert(self.registered@[r0.len() as int] == k);
            }
        }
        if !self.events.contains(k) {
            self.events.insert(k, Events::new());
        }
        proof {
            assert(final(self).events@.dom() =~= old(self).events@.dom().insert(k));
        }
    }

    #[verifier::spinoff_prover]
    #[verifier::rlimit(40)]
    fn update_all(&mut self)
        requires
            old(self).wf(),
            forall|k: TypeKey| #[trigger] old(self).registered@.contains(k) ==> old(self).events@.contains_key(k),
        ensures
            final(self).wf(),
            events_advanced(old(self).events@, final(self).events@),
            final(self).registered@ == old(self).registered@,
            final(self).deadlines@ == old(self).deadlines@,
            final(self).deadline_keys@ == old(self).deadline_keys@,
    {
        let mut i: usize = 0;
        let ghost e0 = self.events@;
        while i < self.registered.len()
            invariant
                i <= self.registered@.len(),
                self.wf(),
                self.registered@ == old(self).registered@,
                self.deadlines@ == old(self).deadlines@,
                self.deadline_keys@ == old(self).deadline_keys@,
                e0 == old(self).events@,
                forall|k: TypeKey| #[trigger] old(self).registered@.contains(k) ==> e0.contains_key(k),
                self.events@.dom() == e0.dom(),
                forall|k: TypeKey| #[trigger] e0.contains_key(k) ==> if (exists|j: int| 0 <= j < i && self.registered@[j] == k) {
                    &&& self.events@[k].spec_previous() == e0[k].spec_current()
                    &&& self.events@[k].spec_current() == Seq::<V>::empty()
                } else {
                    self.events@[k] == e0[k]
                },
            decreases self.registered@.len() - i,
        {
            let k = self.registered[i];
            proof {
                assert(self.registered@.contains(k));
                assert(!(exists|j: int| 0 <= j < i && self.registered@[j] == k)) by {
                    if exists|j: int| 0 <= j < i && self.registered@[j] == k {
                        let j = choose|j: int| 0 <= j < i && self.registered@[j] == k;
                        assert(self.registered@[j] == self.registered@[i as int]);
                    }
                }
            }
            let ev = self.events.get_mut(k);
            ev.update();
            proof {
                assert forall|j: TypeKey| #[trigger] e0.contains_key(j) implies if (exists|a: int| 0 <= a < i + 1 && self.registered@[a] == j) {
                    &&& self.events@[j].spec_previous() == e0[j].spec_current()
                    &&& self.events@[j].spec_current() == Seq::<V>::empty()
                } else {
                    self.events@[j] == e0[j]
                } by {
                    if j != k {
                        if exists|a: int| 0 <= a < i + 1 && self.registered@[a] == j {
                            let a = choose|a: int| 0 <= a < i + 1 && self.registered@[a] == j;
                            assert(a < i);
                        }
                    } else {
                        assert(self.registered@[i as int] == j);
                    }
                }
                assert(self.events@.dom() =~= e0.dom());
            }
            i = i + 1;
        }
        proof {
            assert forall|k: TypeKey| #[trigger] e0.contains_key(k) implies exists|j: int| 0 <= j < self.registered@.len() && self.registered@[j] == k by {
                assert(self.registered@.contains(k));
            }
        }
    }

    fn add_deadline_type(&mut self, k: TypeKey)
        requires
            old(self).wf(),
        ensures
            final(self).wf(),
            final(self).registered@ == if old(self).registered@.contains(k) {
                old(self).registered@
            } else {
                old(self).registered@.push(k)
            },
            final(self).events@.dom() == old(self).events@.dom().insert(k),
            forall|j: TypeKey| j != k && #[trigger] old(self).events@.contains_key(j) ==> final(self).events@[j] == old(self).events@[j],
            old(self).events@.contains_key(k) ==> final(self).events@[k] == old(self).events@[k],
            !old(self).events@.contains_key(k) ==> final(self).events@[k].spec_previous() == Seq::<V>::empty()
                && final(self).events@[k].spec_current() == Seq::<V>::empty(),
            final(self).deadlines@.dom() == old(self).deadlines@.dom().insert(k),
            forall|j: TypeKey| #[trigger] old(self).deadlines@.contains_key(j) ==> final(self).deadlines@[j] == old(self).deadlines@[j],
            !old(self).deadlines@.contains_key(k) ==> final(self).deadlines@[k].spec_entries() == Seq::<DeadlineEntry<V>>::empty(),
            final(self).deadline_ids == old(self).deadline_ids,
    {
        self.add_event(k);
        let ghost mid = *self;
        if !self.deadlines.contains(k) {
            let ghost dk0 = self.deadline_keys@;
            self.deadlines.insert(k, Deadlines::new());
            self.deadline_keys.push(k);
            proof {
                assert(!dk0.contains(k));
                assert forall|a: int, b: int| 0 <= a < self.deadline_keys@.len() && 0 <= b < self.deadline_keys@.len() && a != b
                    implies self.deadline_keys@[a] != self.deadline_keys@[b] by {
                    if a < dk0.len() && b < dk0.len() {
                        assert(self.deadline_keys@[a] == dk0[a] && self.deadline_keys@[b] == dk0[b]);
                    } else if a < dk0.len() {
                        assert(self.deadline_keys@[a] == dk0[a]);
                    } else {
                        assert(self.deadline_keys@[b] == dk0[b]);
                    }
                }
                assert forall|j: TypeKey| #[trigger] self.deadlines@.contains_key(j) <==> self.deadline_keys@.contains(j) by {
                    if dk0.contains(j) {
                        let a = choose|a: int| 0 <= a < dk0.len() && dk0[a] == j;
                        assert(self.deadline_keys@[a] == j);
                    }
                    if j == k {
                        assert(self.deadline_keys@[dk0.len() as int] == k);
                    }
                    if self.deadline_keys@.contains(j) && j != k {
                        let a = choose|a: int| 0 <= a < self.deadline_keys@.len() && self.deadline_keys@[a] == j;
                        assert(a < dk0.len());
                        assert(dk0[a] == j);
                    }
                }
                assert forall|j: TypeKey| #[trigger] self.deadline_keys@.contains(j) implies self.registered@.contains(j) by {
                    if j != k {
                        let a = choose|a: int| 0 <= a < self.deadline_keys@.len() && self.deadline_keys@[a] == j;
                        assert(a < dk0.len());
                        assert(dk0[a] == j);
                        assert(mid.deadline_keys@.contains(j));
                    } else if !old(self).registered@.contains(k) {
                        assert(self.registered@[old(self).registered@.len() as int] == k);
                    } else {
                        let a = choose|a: int| 0 <= a < old(self).registered@.len() && old(self).registered@[a] == k;
                        assert(self.registered@[a] == k);
                    }
                }
            }
        }
        proof {
            assert(self.deadlines@.dom() =~= old(self).deadlines@.dom().insert(k));
        }
    }

    fn drain(&mut self, k: TypeKey, now: Timestamp)
        requires
            old(self).wf(),
            old(self).deadlines@.contains_key(k),
            old(self).events@.contains_key(k),
        ensures
            final(self).wf(),
            drained_at(old(self).deadlines@, old(self).events@, final(self).deadlines@, final(self).events@, set![k], now.0),
            final(self).registered@ == old(self).registered@,
            final(self).deadline_keys@ == old(self).deadline_keys@,
    {
        let ghost q0 = self.deadlines@[k];
        let q = self.deadlines.get_mut(k);
        let fired = q.drain_overdue(now);
        let ev = self.events.get_mut(k);
        ev.send_all(fired);
        proof {
            assert(self.events@.dom() =~= old(self).events@.dom());
            assert(self.deadlines@.dom() =~= old(self).deadlines@.dom());
            let n = self.deadline_ids.spec_next();
            let q1 = self.deadlines@[k];
            assert(q0.ids_below(n));
            assert(q1.ids_below(n));
            assert forall|j: TypeKey| #[trigger] self.deadlines@.contains_key(j) implies self.deadlines@[j].ids_below(n) by {
                if j != k {
                    assert(old(self).deadlines@[j].ids_below(n));
                }
            }
        }
    }
}


/// Draining the queues under `s` and then the queue under a further key `k`
/// drains the queues under `s` with `k` added.
pub proof fn lemma_drained_step<V>(
    d0: Map<TypeKey, Deadlines<V>>,
    e0: Map<TypeKey, Events<V>>,
    d1: Map<TypeKey, Deadlines<V>>,
    e1: Map<TypeKey, Events<V>>,
    d2: Map<TypeKey, Deadlines<V>>,
    e2: Map<TypeKey, Events<V>>,
    s: Set<TypeKey>,
    k: TypeKey,
    now: i64,
)
    requires
        drained_at(d0, e0, d1, e1, s, now),
        drained_at(d1, e1, d2, e2, set![k], now),
        !s.contains(k),
    ensures
        drained_at(d0, e0, d2, e2, s.insert(k), now),
{
    assert forall|j: TypeKey| #[trigger] d0.contains_key(j) implies if s.insert(k).contains(j) {
        &&& d2[j].spec_entries() == kept_entries(d0[j], now)
        &&& d2[j].wf()
    } else {
        d2[j] == d0[j]
    } by {
        assert(d1.contains_key(j));
        if j == k {
            assert(d1[j] == d0[j]);
        }
    }
    assert forall|j: TypeKey| #[trigger] e0.contains_key(j) implies if s.insert(k).contains(j) && d0.contains_key(j) {
        &&& e2[j].spec_previous() == e0[j].spec_previous()
        &&& e2[j].spec_current() == e0[j].spec_current() + due_events(d0[j], now)
    } else {
        e2[j] == e0[j]
    } by {
        assert(e1.contains_key(j));
        if j == k && d0.contains_key(j) {
            assert(d1.contains_key(j));
            assert(d1[j] == d0[j]);
            assert(e1[j] == e0[j]);
        }
    }
}

impl<V> Signals<V> {
    fn drain_all(&mut self, now: Timestamp)
        requires
            old(self).wf(),
            forall|k: TypeKey| #[trigger] old(self).registered@.contains(k) ==> old(self).events@.contains_key(k),
        ensures
            final(self).wf(),
            drained_at(old(self).deadlines@, old(self).events@, final(self).deadlines@, final(self).events@, old(self).deadlines@.dom(), now.0),
            final(self).registered@ == old(self).registered@,
            final(self).deadline_keys@ == old(self).deadline_keys@,
    {
        let ghost d0 = self.deadlines@;
        let ghost e0 = self.events@;
        let n = self.deadline_keys.len();
        let mut i: usize = 0;
        proof {
            assert(self.deadline_keys@.subrange(0, 0).to_set() =~= Set::<TypeKey>::empty());
            assert(d0 =~= self.deadlines@);
            assert forall|k: TypeKey| #[trigger] d0.contains_key(k) implies d0[k].wf() by {}
        }
        while i < n
            invariant
                i <= n,
                n == self.deadline_keys@.len(),
                self.wf(),
                self.registered@ == old(self).registered@,
                self.deadline_keys@ == old(self).deadline_keys@,
                forall|k: TypeKey| #[trigger] self.registered@.contains(k) ==> self.events@.contains_key(k),
                drained_at(d0, e0, self.deadlines@, self.events@, self.deadline_keys@.subrange(0, i as int).to_set(), now.0),
            decreases n - i,
        {
            let k = self.deadline_keys[i];
            let ghost d1 = self.deadlines@;
            let ghost e1 = self.events@;
            let ghost s = self.deadline_keys@.subrange(0, i as int).to_set();
            proof {
                assert(self.deadline_keys@.contains(k));
                assert(self.deadlines@.contains_key(k));
                assert(self.registered@.contains(k));
                assert(!s.contains(k)) by {
                    if s.contains(k) {
                        let a = choose|a: int| 0 <= a < i && self.deadline_keys@.subrange(0, i as int)[a] == k;
                        assert(self.deadline_keys@[a] == self.deadline_keys@[i as int]);
                    }
                }
            }
            self.drain(k, now);
            proof {
                lemma_drained_step(d0, e0, d1, e1, self.deadlines@, self.events@, s, k, now.0);
                let dk = self.deadline_keys@;
                assert(dk.subrange(0, i + 1) =~= dk.subrange(0, i as int).push(k));
                assert forall|x: TypeKey| dk.subrange(0, i as int).push(k).contains(x) <==> s.insert(k).contains(x) by {
                    if dk.subrange(0, i as int).push(k).contains(x) && x != k {
                        let a = choose|a: int| 0 <= a < i + 1 && dk.subrange(0, i as int).push(k)[a] == x;
                        assert(dk.subrange(0, i as int)[a] == x);
                    }
                    if s.contains(x) {
                        let a = choose|a: int| 0 <= a < i && dk.subrange(0, i as int)[a] == x;
                        assert(dk.subrange(0, i as int).push(k)[a] == x);
                    }
                    if x == k {
                        assert(dk.subrange(0, i as int).push(k)[i as int] == k);
                    }
                }
                assert(dk.subrange(0, i + 1).to_set() =~= s.insert(k));
                assert forall|j: TypeKey| #[trigger] self.registered@.contains(j) implies self.events@.contains_key(j) by {
                    assert(e1.contains_key(j));
                }
            }
            i = i + 1;
        }
        proof {
            assert(self.deadline_keys@.subrange(0, n as int) =~= self.deadline_keys@);
            assert(self.deadline_keys@.to_set() =~= d0.dom());
        }
    }
}


impl<V> World<V> {
    // ---- Resources -----------------------------------------------------

    /// Insert a resource (a world-global singleton), replacing any previous
    /// value under the same key.
    pub fn insert_resource(&mut self, k: TypeKey, value: V)
        ensures
            final(self).spec_resources() == old(self).spec_resources().insert(k, value),
            final(self).same_storage(old(self)),
            final(self).spec_commands() == old(self).spec_commands(),
            final(self).spec_events() == old(self).spec_events(),
            final(self).spec_registered_events() == old(self).spec_registered_events(),
            final(self).spec_deadlines() == old(self).spec_deadlines(),
            final(self).spec_has_clock() == old(self).spec_has_clock(),
    {
        proof {
            use_type_invariant(&*self);
        }
        let mut r = Resources::new();
        std::mem::swap(&mut r, &mut self.resources);
        r.insert(k, value);
        self.resources = r;
    }

    /// The resource under `k`, which must be present.
    pub fn resource(&self, k: TypeKey) -> (r: &V)
        requires
            self.spec_resources().contains_key(k),
        ensures
            *r == self.spec_resources()[k],
    {
        proof {
            use_type_invariant(self);
        }
        self.resources.get(k)
    }

    /// The resource under `k` mutably; it must be present.
    pub fn resource_mut(&mut self, k: TypeKey) -> (r: &mut V)
        requires
            old(self).spec_resources().contains_key(k),
        ensures
            *r == old(self).spec_resources()[k],
            final(self).spec_resources() == old(self).spec_resources().insert(k, *final(r)),
            final(self).same_storage(old(self)),
            final(self).spec_commands() == old(self).spec_commands(),
            final(self).spec_events() == old(self).spec_events(),
            final(self).spec_registered_events() == old(self).spec_registered_events(),
            final(self).spec_deadlines() == old(self).spec_deadlines(),
            final(self).spec_has_clock() == old(self).spec_has_clock(),
    {
        proof {
            use_type_invariant(&*self);
        }
        self.resources.get_mut(k)
    }

    /// The resource under `k`, if present.
    pub fn try_resource(&self, k: TypeKey) -> (r: Option<&V>)
        ensures
            r is Some <==> self.spec_resources().contains_key(k),
            r matches Some(v) ==> *v == self.spec_resources()[k],
    {
        proof {
            use_type_invariant(self);
        }
        self.resources.try_get(k)
    }

    /// Remove and return the resource under `k`, which must be present.
    pub fn take_resource(&mut self, k: TypeKey) -> (r: V)
        requires
            old(self).spec_resources().contains_key(k),
        ensures
            r == old(self).spec_resources()[k],
            final(self).spec_resources() == old(self).spec_resources().remove(k),
            final(self).same_storage(old(self)),
            final(self).spec_commands() == old(self).spec_commands(),
            final(self).spec_events() == old(self).spec_events(),
            final(self).spec_registered_events() == old(self).spec_registered_events(),
            final(self).spec_deadlines() == old(self).spec_deadlines(),
            final(self).spec_has_clock() == old(self).spec_has_clock(),
    {
        proof {
            use_type_invariant(&*self);
        }
        let mut r = Resources::new();
        std::mem::swap(&mut r, &mut self.resources);
        let v = r.take(k);
        self.resources = r;
        v
    }

    /// Remove and return the resource under `k`, if present.
    pub fn try_take_resource(&mut self, k: TypeKey) -> (r: Option<V>)
        ensures
            r is Some <==> old(self).spec_resources().contains_key(k),
            r matches Some(v) ==> v == old(self).spec_resources()[k],
            final(self).spec_resources() == old(self).spec_resources().remove(k),
            final(self).same_storage(old(self)),
            final(self).spec_commands() == old(self).spec_commands(),
            final(self).spec_events() == old(self).spec_events(),
            final(self).spec_registered_events() == old(self).spec_registered_events(),
            final(self).spec_deadlines() == old(self).spec_deadlines(),
            final(self).spec_has_clock() == old(self).spec_has_clock(),
    {
        proof {
            use_type_invariant(&*self);
        }
        let mut r = Resources::new();
        std::mem::swap(&mut r, &mut self.resources);
        let v = r.try_take(k);
        self.resources = r;
        v
    }

    // ---- Commands ------------------------------------------------------

    /// The command buffer, for queueing commands outside systems.
    pub fn command_buffer_mut(&mut self) -> (r: &mut CommandBuffer<V>)
        ensures
            r.spec_queue() == old(self).spec_commands(),
            final(self).spec_commands() == final(r).spec_queue(),
            final(self).same_storage(old(self)),
            final(self).spec_resources() == old(self).spec_resources(),
            final(self).spec_events() == old(self).spec_events(),
            final(self).spec_registered_events() == old(self).spec_registered_events(),
            final(self).spec_deadlines() == old(self).spec_deadlines(),
            final(self).spec_has_clock() == old(self).spec_has_clock(),
    {
        proof {
            use_type_invariant(&*self);
        }
        reborrow(&mut self.commands)
    }

    // ---- Events --------------------------------------------------------

    /// Register event key `k` and give it an empty event buffer. Calling it
    /// again keeps the queued events; after the buffer was taken out, it
    /// restores an empty one. A key is registered once.
    pub fn add_event(&mut self, k: TypeKey)
        ensures
            final(self).spec_registered_events() == if old(self).spec_registered_events().contains(k) {
                old(self).spec_registered_events()
            } else {
                old(self).spec_registered_events().push(k)
            },
            final(self).spec_events().dom() == old(self).spec_events().dom().insert(k),
            forall|j: TypeKey| j != k && #[trigger] old(self).spec_events().contains_key(j) ==>
                final(self).spec_events()[j] == old(self).spec_events()[j],
            old(self).spec_events().contains_key(k) ==> final(self).spec_events()[k] == old(self).spec_events()[k],
            !old(self).spec_events().contains_key(k) ==> final(self).spec_events()[k].spec_previous() == Seq::<V>::empty()
                && final(self).spec_events()[k].spec_current() == Seq::<V>::empty(),
            final(self).spec_deadlines() == old(self).spec_deadlines(),
            final(self).same_storage(old(self)),
            final(self).spec_resources() == old(self).spec_resources(),
            final(self).spec_commands() == old(self).spec_commands(),
            final(self).spec_has_clock() == old(self).spec_has_clock(),
            World::event_added(*old(self), k, *final(self)),
    {
        proof {
            use_type_invariant(&*self);
        }
        let mut sg = Signals::new();
        std::mem::swap(&mut sg, &mut self.signals);
        sg.add_event(k);
        self.signals = sg;
    }

    /// The first registered event key whose buffer is missing, if any. Every
    /// registered key has its buffer exactly when there is none, which is
    /// what updating and draining events need.
    pub fn missing_event_buffer(&self) -> (r: Option<TypeKey>)
        ensures
            r is None <==> self.events_ready(),
            r matches Some(k) ==> self.spec_registered_events().contains(k)
                && !self.spec_events().contains_key(k),
    {
        proof {
            use_type_invariant(self);
        }
        let mut i: usize = 0;
        while i < self.signals.registered.len()
            invariant
                i <= self.signals.registered@.len(),
                self.signals.events.wf(),
                forall|j: int|
                    0 <= j < i ==> self.signals.events@.contains_key(
                        #[trigger] self.signals.registered@[j],
                    ),
            decreases self.signals.registered@.len() - i,
        {
            let k = self.signals.registered[i];
            if !self.signals.events.contains(k) {
                proof {
                    assert(self.spec_registered_events()[i as int] == k);
                    assert(self.spec_registered_events().contains(k));
                    assert(!self.spec_events().contains_key(k));
                    assert(!self.events_ready());
                }
                return Some(k);
            }
            i = i + 1;
        }
        proof {
            assert forall|k: TypeKey| #[trigger] self.spec_registered_events().contains(k) implies self.spec_events().contains_key(k) by {
                let j = choose|j: int| 0 <= j < self.signals.registered@.len() && self.signals.registered@[j] == k;
                assert(self.signals.events@.contains_key(self.signals.registered@[j]));
            }
        }
        None
    }

    /// Advance every registered event buffer: events sent this tick become
    /// readable and the previously readable ones are dropped. Every
    /// registered buffer must be present.
    pub fn update_events(&mut self)
        requires
            old(self).events_ready(),
        ensures
            events_advanced(old(self).spec_events(), final(self).spec_events()),
            final(self).spec_registered_events() == old(self).spec_registered_events(),
            final(self).spec_deadlines() == old(self).spec_deadlines(),
            final(self).same_storage(old(self)),
            final(self).spec_resources() == old(self).spec_resources(),
            final(self).spec_commands() == old(self).spec_commands(),
            final(self).spec_has_clock() == old(self).spec_has_clock(),
    {
        proof {
            use_type_invariant(&*self);
        }
        let mut sg = Signals::new();
        std::mem::swap(&mut sg, &mut self.signals);
        proof {
            assert forall|k: TypeKey| #[trigger] sg.registered@.contains(k) implies sg.events@.contains_key(k) by {
                assert(old(self).spec_registered_events().contains(k));
            }
        }
        sg.update_all();
        self.signals = sg;
    }

    /// The event buffer under `k`, which must be present.
    pub fn events(&self, k: TypeKey) -> (r: &Events<V>)
        requires
            self.spec_events().contains_key(k),
        ensures
            *r == self.spec_events()[k],
    {
        proof {
            use_type_invariant(self);
        }
        self.signals.events.get(k)
    }

    /// The event buffer under `k` mutably; it must be present.
    pub fn events_mut(&mut self, k: TypeKey) -> (r: &mut Events<V>)
        requires
            old(self).spec_events().contains_key(k),
        ensures
            *r == old(self).spec_events()[k],
            final(self).spec_events() == old(self).spec_events().insert(k, *final(r)),
            final(self).spec_registered_events() == old(self).spec_registered_events(),
            final(self).spec_deadlines() == old(self).spec_deadlines(),
            final(self).same_storage(old(self)),
            final(self).spec_resources() == old(self).spec_resources(),
            final(self).spec_commands() == old(self).spec_commands(),
            final(self).spec_has_clock() == old(self).spec_has_clock(),
    {
        proof {
            use_type_invariant(&*self);
        }
        self.signals.events.get_mut(k)
    }

    /// Remove and return the event buffer under `k`, if present. The key
    /// stays registered.
    pub fn try_take_events(&mut self, k: TypeKey) -> (r: Option<Events<V>>)
        ensures
            r is Some <==> old(self).spec_events().contains_key(k),
            r matches Some(v) ==> v == old(self).spec_events()[k],
            final(self).spec_events() == old(self).spec_events().remove(k),
            final(self).spec_registered_events() == old(self).spec_registered_events(),
            final(self).spec_deadlines() == old(self).spec_deadlines(),
            final(self).same_storage(old(self)),
            final(self).spec_resources() == old(self).spec_resources(),
            final(self).spec_commands() == old(self).spec_commands(),
            final(self).spec_has_clock() == old(self).spec_has_clock(),
    {
        proof {
            use_type_invariant(&*self);
        }
        let mut sg = Signals::new();
        std::mem::swap(&mut sg, &mut self.signals);
        let r = sg.events.try_take(k);
        self.signals = sg;
        r
    }

    // ---- Deadlines -----------------------------------------------------

    /// Register deadline key `k`: give it an empty deadline queue (once) and
    /// register `k` as an event key, so fired deadlines can be delivered.
    pub fn add_deadline_type(&mut self, k: TypeKey)
        ensures
            final(self).spec_registered_events() == if old(self).spec_registered_events().contains(k) {
                old(self).spec_registered_events()
            } else {
                old(self).spec_registered_events().push(k)
            },
            final(self).spec_events().dom() == old(self).spec_events().dom().insert(k),
            forall|j: TypeKey| j != k && #[trigger] old(self).spec_events().contains_key(j) ==>
                final(self).spec_events()[j] == old(self).spec_events()[j],
            old(self).spec_events().contains_key(k) ==> final(self).spec_events()[k] == old(self).spec_events()[k],
            !old(self).spec_events().contains_key(k) ==> final(self).spec_events()[k].spec_previous() == Seq::<V>::empty()
                && final(self).spec_events()[k].spec_current() == Seq::<V>::empty(),
            final(self).spec_deadlines().dom() == old(self).spec_deadlines().dom().insert(k),
            forall|j: TypeKey| #[trigger] old(self).spec_deadlines().contains_key(j) ==>
                final(self).spec_deadlines()[j] == old(self).spec_deadlines()[j],
            !old(self).spec_deadlines().contains_key(k) ==>
                final(self).spec_deadlines()[k].spec_entries() == Seq::<DeadlineEntry<V>>::empty(),
            final(self).spec_next_deadline_id() == old(self).spec_next_deadline_id(),
            final(self).same_storage(old(self)),
            final(self).spec_resources() == old(self).spec_resources(),
            final(self).spec_commands() == old(self).spec_commands(),
            final(self).spec_has_clock() == old(self).spec_has_clock(),
            World::deadline_type_added(*old(self), k, *final(self)),
    {
        proof {
            use_type_invariant(&*self);
        }
        let mut sg = Signals::new();
        std::mem::swap(&mut sg, &mut self.signals);
        sg.add_deadline_type(k);
        self.signals = sg;
    }

    /// The deadline queue under `k`, which must be registered.
    pub fn deadlines(&self, k: TypeKey) -> (r: &Deadlines<V>)
        requires
            self.spec_deadlines().contains_key(k),
        ensures
            *r == self.spec_deadlines()[k],
            r.wf(),
    {
        proof {
            use_type_invariant(self);
        }
        self.signals.deadlines.get(k)
    }

    /// The deadline queue under `k`, if registered.
    pub fn try_deadlines(&self, k: TypeKey) -> (r: Option<&Deadlines<V>>)
        ensures
            r is Some <==> self.spec_deadlines().contains_key(k),
            r matches Some(q) ==> *q == self.spec_deadlines()[k],
    {
        proof {
            use_type_invariant(self);
        }
        self.signals.deadlines.try_get(k)
    }

    /// Schedule `event` under deadline key `k` (which must be registered) to
    /// fire once the time reaches `deadline`. Returns its id.
    pub fn schedule_deadline(&mut self, k: TypeKey, deadline: Timestamp, event: V) -> (id: DeadlineId)
        requires
            old(self).spec_deadlines().contains_key(k),
            old(self).spec_next_deadline_id() < u64::MAX,
        ensures
            id.0 == old(self).spec_next_deadline_id(),
            final(self).spec_next_deadline_id() == old(self).spec_next_deadline_id() + 1,
            ({
                let q0 = old(self).spec_deadlines()[k];
                let q1 = final(self).spec_deadlines()[k];
                &&& forall|i: int| 0 <= i < q0.spec_entries().len() ==> (#[trigger] q0.spec_entries()[i]).id != id
                &&& q1.spec_entries() == q0.spec_entries().insert(
                    split_point(q0.spec_entries(), deadline.0),
                    DeadlineEntry { id, deadline, event },
                )
            }),
            forall|j: TypeKey, i: int| #[trigger] old(self).spec_deadlines().contains_key(j) && 0 <= i < old(self).spec_deadlines()[j].spec_entries().len()
                ==> (#[trigger] old(self).spec_deadlines()[j].spec_entries()[i]).id.0 < id.0,
            final(self).spec_deadlines().dom() == old(self).spec_deadlines().dom(),
            forall|j: TypeKey| j != k && #[trigger] old(self).spec_deadlines().contains_key(j) ==>
                final(self).spec_deadlines()[j] == old(self).spec_deadlines()[j],
            final(self).spec_events() == old(self).spec_events(),
            final(self).spec_registered_events() == old(self).spec_registered_events(),
            final(self).same_storage(old(self)),
            final(self).spec_resources() == old(self).spec_resources(),
            final(self).spec_commands() == old(self).spec_commands(),
            final(self).spec_has_clock() == old(self).spec_has_clock(),
    {
        proof {
            use_type_invariant(&*self);
        }
        let mut sg = Signals::new();
        std::mem::swap(&mut sg, &mut self.signals);
        let ghost d0 = sg.deadlines@;
        let ghost n0 = sg.deadline_ids.spec_next();
        let q = sg.deadlines.get_mut(k);
        let id = q.schedule(&mut sg.deadline_ids, deadline, event);
        proof {
            assert(sg.deadlines@.dom() =~= old(self).signals.deadlines@.dom());
            assert forall|j: TypeKey| #[trigger] sg.deadlines@.contains_key(j) implies sg.deadlines@[j].ids_below(sg.deadline_ids.spec_next()) by {
                if j != k {
                    assert(d0[j].ids_below(n0));
                }
            }
            assert forall|j: TypeKey, i: int| #[trigger] d0.contains_key(j) && 0 <= i < d0[j].spec_entries().len()
                implies (#[trigger] d0[j].spec_entries()[i]).id.0 < id.0 by {
                assert(d0[j].ids_below(n0));
            }
        }
        self.signals = sg;
        id
    }

    /// Cancel a deadline under key `k` (which must be registered). Returns
    /// `true` if a pending entry with that id was removed.
    pub fn cancel_deadline(&mut self, k: TypeKey, id: DeadlineId) -> (r: bool)
        requires
            old(self).spec_deadlines().contains_key(k),
        ensures
            ({
                let q0 = old(self).spec_deadlines()[k];
                let q1 = final(self).spec_deadlines()[k];
                &&& r == exists|i: int| 0 <= i < q0.spec_entries().len() && (#[trigger] q0.spec_entries()[i]).id == id
                &&& r ==> exists|i: int|
                    0 <= i < q0.spec_entries().len() && q0.spec_entries()[i].id == id
                        && (forall|j: int| 0 <= j < i ==> (#[trigger] q0.spec_entries()[j]).id != id)
                        && q1.spec_entries() == q0.spec_entries().remove(i)
                &&& !r ==> q1.spec_entries() == q0.spec_entries()
            }),
            final(self).spec_deadlines().dom() == old(self).spec_deadlines().dom(),
            forall|j: TypeKey| j != k && #[trigger] old(self).spec_deadlines().contains_key(j) ==>
                final(self).spec_deadlines()[j] == old(self).spec_deadlines()[j],
            final(self).spec_next_deadline_id() == old(self).spec_next_deadline_id(),
            final(self).spec_events() == old(self).spec_events(),
            final(self).spec_registered_events() == old(self).spec_registered_events(),
            final(self).same_storage(old(self)),
            final(self).spec_resources() == old(self).spec_resources(),
            final(self).spec_commands() == old(self).spec_commands(),
            final(self).spec_has_clock() == old(self).spec_has_clock(),
    {
        proof {
            use_type_invariant(&*self);
        }
        let mut sg = Signals::new();
        std::mem::swap(&mut sg, &mut self.signals);
        let ghost d0 = sg.deadlines@;
        let q = sg.deadlines.get_mut(k);
        let r = q.cancel(id);
        proof {
            assert(sg.deadlines@.dom() =~= old(self).signals.deadlines@.dom());
            assert forall|j: TypeKey| #[trigger] sg.deadlines@.contains_key(j) implies sg.deadlines@[j].ids_below(sg.deadline_ids.spec_next()) by {
                assert(d0[j].ids_below(sg.deadline_ids.spec_next()));
            }
        }
        self.signals = sg;
        r
    }

    /// Fire every deadline under key `k` that is due at `now` (deadline no
    /// later than `now`): their events are sent, in deadline order, to the
    /// event buffer under `k`. Both must be present.
    pub fn drain_deadlines(&mut self, k: TypeKey, now: Timestamp)
        requires
            old(self).spec_deadlines().contains_key(k),
            old(self).spec_events().contains_key(k),
        ensures
            drained_at(old(self).spec_deadlines(), old(self).spec_events(), final(self).spec_deadlines(), final(self).spec_events(), set![k], now.0),
            final(self).spec_registered_events() == old(self).spec_registered_events(),
            final(self).same_storage(old(self)),
            final(self).spec_resources() == old(self).spec_resources(),
            final(self).spec_commands() == old(self).spec_commands(),
            final(self).spec_has_clock() == old(self).spec_has_clock(),
    {
        proof {
            use_type_invariant(&*self);
        }
        let mut sg = Signals::new();
        std::mem::swap(&mut sg, &mut self.signals);
        sg.drain(k, now);
        self.signals = sg;
    }

    /// Fire every deadline, of every registered deadline key, that is due
    /// at `now`. Every registered event buffer must be present.
    pub fn drain_all_deadlines_at(&mut self, now: Timestamp)
        requires
            old(self).events_ready(),
        ensures
            drained_at(
                old(self).spec_deadlines(),
                old(self).spec_events(),
                final(self).spec_deadlines(),
                final(self).spec_events(),
                old(self).spec_deadlines().dom(),
                now.0,
            ),
            final(self).spec_registered_events() == old(self).spec_registered_events(),
            final(self).same_storage(old(self)),
            final(self).spec_resources() == old(self).spec_resources(),
            final(self).spec_commands() == old(self).spec_commands(),
            final(self).spec_has_clock() == old(self).spec_has_clock(),
    {
        proof {
            use_type_invariant(&*self);
        }
        let mut sg = Signals::new();
        std::mem::swap(&mut sg, &mut self.signals);
        proof {
            assert forall|k: TypeKey| #[trigger] sg.registered@.contains(k) implies sg.events@.contains_key(k) by {
                assert(old(self).spec_registered_events().contains(k));
            }
        }
        sg.drain_all(now);
        self.signals = sg;
    }

    /// Install the clock that [`World::drain_all_deadlines`] reads.
    pub fn insert_clock(&mut self, clock: Box<dyn Clock>)
        ensures
            final(self).spec_has_clock(),
            final(self).same_storage(old(self)),
            final(self).spec_resources() == old(self).spec_resources(),
            final(self).spec_commands() == old(self).spec_commands(),
            final(self).spec_events() == old(self).spec_events(),
            final(self).spec_registered_events() == old(self).spec_registered_events(),
            final(self).spec_deadlines() == old(self).spec_deadlines(),
    {
        proof {
            use_type_invariant(&*self);
        }
        self.clock = Some(clock);
    }

    /// Fire every deadline due at the installed clock's current time. With
    /// no clock installed, nothing happens. Every registered event buffer
    /// must be present.
    pub fn drain_all_deadlines(&mut self)
        requires
            old(self).events_ready(),
        ensures
            !old(self).spec_has_clock() ==> final(self).spec_deadlines() == old(self).spec_deadlines()
                && final(self).spec_events() == old(self).spec_events(),
            old(self).spec_has_clock() ==> exists|now: i64| drained_at(
                old(self).spec_deadlines(),
                old(self).spec_events(),
                final(self).spec_deadlines(),
                final(self).spec_events(),
                old(self).spec_deadlines().dom(),
                now,
            ),
            final(self).spec_registered_events() == old(self).spec_registered_events(),
            final(self).same_storage(old(self)),
            final(self).spec_resources() == old(self).spec_resources(),
            final(self).spec_commands() == old(self).spec_commands(),
            final(self).spec_has_clock() == old(self).spec_has_clock(),
    {
        let now = match &self.clock {
            Some(c) => c.now(),
            None => {
                return;
            },
        };
        self.drain_all_deadlines_at(now);
    }
}


impl<V> WorldState<V> {
    /// Whether moving `e` to the archetype with key set `keys` stays within
    /// the archetype id space.
    fn room_for(&self, layout: &ArchetypeLayout) -> (r: bool)
        requires
            self.wf(),
            layout.wf(),
        ensures
            r == self.can_reach(layout@.to_set()),
    {
        proof {
            self.lemma_has_key_set(layout@);
        }
        self.archetypes.len() < 0xffff_ffffusize || self.archetypes.find(layout).is_some()
    }

    /// Whether inserting `k` into `e` has room (it always has unless `e`
    /// must move to a new archetype).
    fn room_for_insert(&self, e: Entity, k: TypeKey) -> (r: bool)
        requires
            self.wf(),
        ensures
            r == (self.meta.spec_is_alive(e) && !self.entities()[e].contains_key(k) ==>
                self.can_reach(self.entities()[e].dom().insert(k))),
    {
        match self.meta.get_location(e) {
            None => true,
            Some(loc) => {
                proof {
                    assert(self.meta.spec_is_alive(e));
                }
                let layout = self.archetypes.get(loc.archetype_id).layout();
                if layout.contains(k) {
                    true
                } else {
                    let nl = layout.with_added(k);
                    proof {
                        let a = self.arch(loc.archetype_id.0 as int);
                        assert(a.rows_ok());
                        assert(cells_at(a, loc.row as int).dom() =~= a.spec_layout().to_set());
                        assert(self.entities()[e].dom() == layout@.to_set());
                    }
                    self.room_for(&nl)
                }
            },
        }
    }

    /// Whether removing `k` from `e` has room.
    fn room_for_remove(&self, e: Entity, k: TypeKey) -> (r: bool)
        requires
            self.wf(),
        ensures
            r == (self.meta.spec_is_alive(e) && self.entities()[e].contains_key(k) ==>
                self.can_reach(self.entities()[e].dom().remove(k))),
    {
        match self.meta.get_location(e) {
            None => true,
            Some(loc) => {
                proof {
                    assert(self.meta.spec_is_alive(e));
                }
                let layout = self.archetypes.get(loc.archetype_id).layout();
                if !layout.contains(k) {
                    true
                } else {
                    let nl = layout.with_removed(k);
                    proof {
                        let a = self.arch(loc.archetype_id.0 as int);
                        assert(a.rows_ok());
                        assert(cells_at(a, loc.row as int).dom() =~= a.spec_layout().to_set());
                        assert(self.entities()[e].dom() == layout@.to_set());
                    }
                    self.room_for(&nl)
                }
            },
        }
    }
}

impl<V> World<V> {
    /// The storage of `w1` is `w0`'s after a spawn of `bundle`.
    pub open spec fn spawned(w0: World<V>, bundle: Seq<(TypeKey, V)>, w1: World<V>) -> bool {
        &&& w1.spec_entities() == w0.spec_entities().insert(w0.spec_next_entity(), bundle_cells(bundle, w0.spec_tick()))
        &&& w1.spec_tick() == w0.spec_tick()
        &&& w1.spec_slots() == spawn_slots(w0.spec_slots(), w0.spec_free())
        &&& w1.spec_free() == spawn_free(w0.spec_free())
        &&& w1.spec_layouts() == layouts_with(w0.spec_layouts(), bundle_keys(bundle))
    }

    /// The storage of `w1` is `w0`'s after despawning `e`.
    pub open spec fn despawned(w0: World<V>, e: Entity, w1: World<V>) -> bool {
        if w0.spec_alive(e) {
            &&& w1.spec_entities() == w0.spec_entities().remove(e)
            &&& w1.spec_slots() == w0.spec_slots().update(
                e.index as int,
                Slot { generation: e.generation.wrapping_add(1), alive: false },
            )
            &&& w1.spec_free() == w0.spec_free().push(e.index)
            &&& w1.spec_layouts() == w0.spec_layouts()
            &&& w1.spec_tick() == w0.spec_tick()
        } else {
            w1.same_storage(&w0)
        }
    }

    /// The storage of `w1` is `w0`'s after inserting `k` = `v` into `e`.
    pub open spec fn inserted(w0: World<V>, e: Entity, k: TypeKey, v: V, w1: World<V>) -> bool {
        &&& w0.spec_alive(e) ==> w1.spec_entities() == w0.spec_entities().insert(
            e,
            w0.spec_entities()[e].insert(k, inserted_cell(w0.spec_entities()[e], k, v, w0.spec_tick())),
        )
        &&& !w0.spec_alive(e) ==> w1.spec_entities() == w0.spec_entities()
        &&& w0.spec_alive(e) && !w0.spec_entities()[e].contains_key(k) ==>
            w1.spec_layouts() == layouts_with(w0.spec_layouts(), w0.spec_entities()[e].dom().insert(k))
        &&& !(w0.spec_alive(e) && !w0.spec_entities()[e].contains_key(k)) ==> w1.spec_layouts() == w0.spec_layouts()
        &&& w1.spec_tick() == w0.spec_tick()
        &&& w1.spec_slots() == w0.spec_slots()
        &&& w1.spec_free() == w0.spec_free()
    }

    /// The storage of `w1` is `w0`'s after removing `k` from `e`.
    pub open spec fn removed(w0: World<V>, e: Entity, k: TypeKey, w1: World<V>) -> bool {
        &&& w0.spec_alive(e) ==> w1.spec_entities() == w0.spec_entities().insert(e, w0.spec_entities()[e].remove(k))
        &&& !w0.spec_alive(e) ==> w1.spec_entities() == w0.spec_entities()
        &&& w0.spec_alive(e) && w0.spec_entities()[e].contains_key(k) ==>
            w1.spec_layouts() == layouts_with(w0.spec_layouts(), w0.spec_entities()[e].dom().remove(k))
        &&& !(w0.spec_alive(e) && w0.spec_entities()[e].contains_key(k)) ==> w1.spec_layouts() == w0.spec_layouts()
        &&& w1.spec_removals() == if w0.spec_alive(e) && w0.spec_entities()[e].contains_key(k) {
            w0.spec_removals().push((e, k, w0.spec_tick()))
        } else {
            w0.spec_removals()
        }
        &&& w1.spec_tick() == w0.spec_tick()
        &&& w1.spec_slots() == w0.spec_slots()
        &&& w1.spec_free() == w0.spec_free()
    }

    /// Only the deadline queue under `k` differs between `w0` and `w1`.
    pub open spec fn only_queue_changed(w0: World<V>, k: TypeKey, w1: World<V>) -> bool {
        &&& w1.spec_deadlines().dom() == w0.spec_deadlines().dom()
        &&& forall|j: TypeKey| j != k && #[trigger] w0.spec_deadlines().contains_key(j) ==>
            w1.spec_deadlines()[j] == w0.spec_deadlines()[j]
        &&& w1.spec_events() == w0.spec_events()
        &&& w1.spec_registered_events() == w0.spec_registered_events()
        &&& w1.same_storage(&w0)
        &&& w1.spec_resources() == w0.spec_resources()
        &&& w1.spec_commands() == w0.spec_commands()
        &&& w1.spec_has_clock() == w0.spec_has_clock()
    }

    /// `w1` is `w0` after registering the event buffer `k`: `k` is
    /// registered once, an existing buffer is kept (with its queued
    /// events), a missing one is created empty; nothing else changes.
    pub open spec fn event_added(w0: World<V>, k: TypeKey, w1: World<V>) -> bool {
        &&& w1.spec_registered_events() == if w0.spec_registered_events().contains(k) {
            w0.spec_registered_events()
        } else {
            w0.spec_registered_events().push(k)
        }
        &&& w1.spec_events().dom() == w0.spec_events().dom().insert(k)
        &&& forall|j: TypeKey| #[trigger] w0.spec_events().contains_key(j) ==> w1.spec_events()[j] == w0.spec_events()[j]
        &&& !w0.spec_events().contains_key(k) ==> w1.spec_events()[k].spec_previous() == Seq::<V>::empty()
            && w1.spec_events()[k].spec_current() == Seq::<V>::empty()
        &&& w1.spec_deadlines() == w0.spec_deadlines()
        &&& w1.same_storage(&w0)
    }

    /// `w1` is `w0` after registering the deadline type `k`: its event
    /// buffer is registered as by [`World::event_added`], an existing queue
    /// is kept (with its pending deadlines), a missing one is created
    /// empty; no other queue changes.
    pub open spec fn deadline_type_added(w0: World<V>, k: TypeKey, w1: World<V>) -> bool {
        &&& w1.spec_registered_events() == if w0.spec_registered_events().contains(k) {
            w0.spec_registered_events()
        } else {
            w0.spec_registered_events().push(k)
        }
        &&& w1.spec_events().dom() == w0.spec_events().dom().insert(k)
        &&& forall|j: TypeKey| #[trigger] w0.spec_events().contains_key(j) ==> w1.spec_events()[j] == w0.spec_events()[j]
        &&& w1.spec_deadlines().dom() == w0.spec_deadlines().dom().insert(k)
        &&& forall|j: TypeKey| #[trigger] w0.spec_deadlines().contains_key(j) ==> w1.spec_deadlines()[j] == w0.spec_deadlines()[j]
        &&& !w0.spec_deadlines().contains_key(k) ==> w1.spec_deadlines()[k].spec_entries() == Seq::<DeadlineEntry<V>>::empty()
        &&& w1.same_storage(&w0)
    }

    /// `w1` is `w0` after applying its queued commands in order (see
    /// [`World::command_applied`]) to the world with an empty queue.
    pub open spec fn commands_flushed(w0: World<V>, w1: World<V>) -> bool {
        &&& w1.spec_commands() == Seq::<Command<V>>::empty()
        &&& exists|ws: Seq<World<V>>| {
            &&& ws.len() == w0.spec_commands().len() + 1
            &&& ws[0].same_storage(&w0)
            &&& ws[0].spec_commands() == Seq::<Command<V>>::empty()
            &&& ws[0].spec_resources() == w0.spec_resources()
            &&& ws[0].spec_events() == w0.spec_events()
            &&& ws[0].spec_registered_events() == w0.spec_registered_events()
            &&& ws[0].spec_deadlines() == w0.spec_deadlines()
            &&& ws[0].spec_has_clock() == w0.spec_has_clock()
            &&& ws.last() == w1
            &&& forall|i: int| 0 <= i < w0.spec_commands().len() ==>
                World::command_applied(#[trigger] ws[i], w0.spec_commands()[i], ws[i + 1])
        }
    }

    /// `w1` is `w0` with deadline `event` scheduled under `k` at `deadline`.
    pub open spec fn scheduled(w0: World<V>, k: TypeKey, deadline: Timestamp, event: V, w1: World<V>) -> bool {
        let q0 = w0.spec_deadlines()[k];
        let q1 = w1.spec_deadlines()[k];
        let id = DeadlineId(w0.spec_next_deadline_id());
        &&& w1.spec_next_deadline_id() == w0.spec_next_deadline_id() + 1
        &&& q1.spec_entries() == q0.spec_entries().insert(
            split_point(q0.spec_entries(), deadline.0),
            DeadlineEntry { id, deadline, event },
        )
        &&& World::only_queue_changed(w0, k, w1)
    }

    /// `w1` is `w0` with deadline `id` under `k` cancelled.
    pub open spec fn cancelled(w0: World<V>, k: TypeKey, id: DeadlineId, w1: World<V>) -> bool {
        let q0 = w0.spec_deadlines()[k];
        let q1 = w1.spec_deadlines()[k];
        &&& w1.spec_next_deadline_id() == w0.spec_next_deadline_id()
        &&& (exists|i: int| 0 <= i < q0.spec_entries().len() && (#[trigger] q0.spec_entries()[i]).id == id) ==>
            exists|i: int|
                0 <= i < q0.spec_entries().len() && q0.spec_entries()[i].id == id
                    && (forall|j: int| 0 <= j < i ==> (#[trigger] q0.spec_entries()[j]).id != id)
                    && q1.spec_entries() == q0.spec_entries().remove(i)
        &&& !(exists|i: int| 0 <= i < q0.spec_entries().len() && (#[trigger] q0.spec_entries()[i]).id == id) ==>
            q1.spec_entries() == q0.spec_entries()
        &&& World::only_queue_changed(w0, k, w1)
    }

    /// Applying command `c` to `w0` gives `w1`. A command the world cannot
    /// carry out leaves it unchanged: a spawn whose bundle names a key twice
    /// or that exceeds the entity or archetype id space, an insert or remove
    /// that exceeds the archetype id space, and a deadline command for an
    /// unregistered deadline key or a queue whose ids are used up.
    #[verifier::opaque]
    pub open spec fn command_applied(w0: World<V>, c: Command<V>, w1: World<V>) -> bool {
        match c {
            Command::Spawn(b) => if keys_unique(b@) && w0.can_allocate() && w0.can_hold(bundle_keys(b@)) {
                World::spawned(w0, b@, w1) && w1.same_outside_storage(&w0)
            } else {
                w1.same_storage(&w0) && w1.same_outside_storage(&w0)
            },
            Command::Despawn(e) => World::despawned(w0, e, w1) && w1.same_outside_storage(&w0),
            Command::Insert(e, k, v) => if w0.spec_alive(e) && !w0.spec_entities()[e].contains_key(k)
                && !w0.can_hold(w0.spec_entities()[e].dom().insert(k)) {
                w1.same_storage(&w0) && w1.same_outside_storage(&w0)
            } else {
                World::inserted(w0, e, k, v, w1) && w1.same_outside_storage(&w0)
            },
            Command::Remove(e, k) => if w0.spec_alive(e) && w0.spec_entities()[e].contains_key(k)
                && !w0.can_hold(w0.spec_entities()[e].dom().remove(k)) {
                w1.same_storage(&w0) && w1.same_outside_storage(&w0)
            } else {
                World::removed(w0, e, k, w1) && w1.same_outside_storage(&w0)
            },
            Command::ScheduleDeadline(k, t, v) => if w0.spec_deadlines().contains_key(k)
                && w0.spec_next_deadline_id() < u64::MAX {
                World::scheduled(w0, k, t, v, w1)
            } else {
                w1.same_storage(&w0) && w1.same_outside_storage(&w0)
            },
            Command::CancelDeadline(k, id) => if w0.spec_deadlines().contains_key(k) {
                World::cancelled(w0, k, id, w1)
            } else {
                w1.same_storage(&w0) && w1.same_outside_storage(&w0)
            },
        }
    }

    /// Apply one command.
    fn apply_one(&mut self, c: Command<V>)
        ensures
            World::command_applied(*old(self), c, *final(self)),
            final(self).spec_commands() == old(self).spec_commands(),
    {
        proof {
            use_type_invariant(&*self);
            reveal(World::command_applied);
        }
        match c {
            Command::Spawn(b) => {
                let _ = self.try_spawn(b);
            },
            Command::Despawn(e) => {
                let _ = self.despawn(e);
            },
            Command::Insert(e, k, v) => {
                if self.state.room_for_insert(e, k) {
                    self.insert(e, k, v);
                }
            },
            Command::Remove(e, k) => {
                if self.state.room_for_remove(e, k) {
                    self.remove(e, k);
                }
            },
            Command::ScheduleDeadline(k, t, v) => {
                if self.signals.deadlines.contains(k) && self.signals.deadline_ids.can_take() {
                    let _ = self.schedule_deadline(k, t, v);
                }
            },
            Command::CancelDeadline(k, id) => {
                if self.signals.deadlines.contains(k) {
                    let _ = self.cancel_deadline(k, id);
                }
            },
        }
    }

    /// Drain the command queue and apply its commands in queue order.
    ///
    /// The result is exactly the sequential application of the queued
    /// commands (see [`World::command_applied`]) to the world with an empty
    /// queue.
    pub fn apply_commands(&mut self)
        ensures
            World::commands_flushed(*old(self), *final(self)),
    {
        proof {
            use_type_invariant(&*self);
        }
        let cmds = self.command_buffer_mut().take();
        let ghost q = cmds@;
        let n = cmds.len();
        let ghost w_start = *self;
        let ghost mut ws: Seq<World<V>> = seq![*self];
        let mut rest = cmds;
        let mut rev: Vec<Command<V>> = Vec::new();
        while rest.len() > 0
            invariant
                rev@.len() + rest@.len() == q.len(),
                q.len() == n,
                forall|j: int| 0 <= j < rest@.len() ==> #[trigger] rest@[j] == q[j],
                forall|j: int| 0 <= j < rev@.len() ==> #[trigger] rev@[j] == q[q.len() - 1 - j],
            decreases rest@.len(),
        {
            let c = rest.pop().unwrap();
            rev.push(c);
        }
        let mut i: usize = 0;
        while rev.len() > 0
            invariant
                rev@.len() + i == q.len(),
                forall|j: int| 0 <= j < rev@.len() ==> #[trigger] rev@[j] == q[q.len() - 1 - j],
                ws.len() == i + 1,
                ws[0] == w_start,
                q.len() <= usize::MAX,
                ws.last() == *self,
                self.spec_commands() == Seq::<Command<V>>::empty(),
                forall|j: int| 0 <= j < i ==> World::command_applied(#[trigger] ws[j], q[j], ws[j + 1]),
            decreases rev@.len(),
        {
            let c = rev.pop().unwrap();
            proof {
                assert(c == q[i as int]);
            }
            let ghost w0 = *self;
            self.apply_one(c);
            proof {
                assert(World::command_applied(w0, q[i as int], *self));
                ws = ws.push(*self);
                assert forall|j: int| 0 <= j < i + 1 implies World::command_applied(#[trigger] ws[j], q[j], ws[j + 1]) by {
                    if j < i {
                        assert(ws[j] == ws.drop_last()[j]);
                        assert(ws[j + 1] == ws.drop_last()[j + 1]);
                    }
                }
                assert(self.spec_commands() == w0.spec_commands());
            }
            i = i + 1;
        }
    }
}


/// Every row of a matching archetype among the first `n` is listed by
/// `rows_upto`, and the listed `(archetype, row)` positions are distinct.
pub proof fn lemma_rows_upto_exact<V>(archs: Seq<Archetype<V>>, req: Seq<TypeKey>, without: Seq<TypeKey>, n: int)
    requires
        0 <= n <= archs.len() <= usize::MAX,
        forall|i: int| 0 <= i < archs.len() ==> #[trigger] archs[i].spec_entities().len() <= usize::MAX,
    ensures
        forall|a: int, r: int| 0 <= a < n && layout_matches(archs[a].spec_layout(), req, without)
            && 0 <= r < archs[a].spec_entities().len() ==>
            #[trigger] rows_upto(archs, req, without, n).contains((archs[a].spec_entities()[r], a as usize, r as usize)),
        forall|i: int, j: int| 0 <= i < j < rows_upto(archs, req, without, n).len() ==>
            ((#[trigger] rows_upto(archs, req, without, n)[i]).1, rows_upto(archs, req, without, n)[i].2)
                != ((#[trigger] rows_upto(archs, req, without, n)[j]).1, rows_upto(archs, req, without, n)[j].2),
    decreases n,
{
    if n > 0 {
        lemma_rows_upto_exact(archs, req, without, n - 1);
        let prev = rows_upto(archs, req, without, n - 1);
        let cur = rows_upto(archs, req, without, n);
        assert forall|i: int| 0 <= i < prev.len() implies (#[trigger] prev[i]).1 < n - 1 by {
            lemma_rows_upto(archs, req, without, n - 1, i);
        }
        if layout_matches(archs[n - 1].spec_layout(), req, without) {
            let ar = arch_rows(archs[n - 1], n - 1);
            assert(archs[n - 1].spec_entities().len() <= usize::MAX);
            assert forall|a: int, r: int| 0 <= a < n && layout_matches(archs[a].spec_layout(), req, without)
                && 0 <= r < archs[a].spec_entities().len() implies
                #[trigger] cur.contains((archs[a].spec_entities()[r], a as usize, r as usize)) by {
                if a == n - 1 {
                    assert(cur[prev.len() + r] == ar[r]);
                } else {
                    assert(prev.contains((archs[a].spec_entities()[r], a as usize, r as usize)));
                    let j = choose|j: int| 0 <= j < prev.len() && prev[j] == (archs[a].spec_entities()[r], a as usize, r as usize);
                    assert(cur[j] == prev[j]);
                }
            }
            assert forall|i: int, j: int| 0 <= i < j < cur.len() implies
                ((#[trigger] cur[i]).1, cur[i].2) != ((#[trigger] cur[j]).1, cur[j].2) by {
                if j < prev.len() {
                    assert(cur[i] == prev[i] && cur[j] == prev[j]);
                } else if i < prev.len() {
                    assert(cur[i] == prev[i]);
                    assert(cur[j] == ar[j - prev.len()]);
                } else {
                    assert(cur[i] == ar[i - prev.len()]);
                    assert(cur[j] == ar[j - prev.len()]);
                }
            }
        } else {
            assert forall|a: int, r: int| 0 <= a < n && layout_matches(archs[a].spec_layout(), req, without)
                && 0 <= r < archs[a].spec_entities().len() implies
                #[trigger] cur.contains((archs[a].spec_entities()[r], a as usize, r as usize)) by {
                assert(a != n - 1);
            }
        }
    }
}

/// Whether a key set holds every key of `req` and none of `without`.
pub open spec fn keys_match(ks: Set<TypeKey>, req: Seq<TypeKey>, without: Seq<TypeKey>) -> bool {
    &&& forall|i: int| 0 <= i < req.len() ==> ks.contains(#[trigger] req[i])
    &&& forall|i: int| 0 <= i < without.len() ==> !ks.contains(#[trigger] without[i])
}

impl<V> WorldState<V> {
    /// The matching rows name each alive entity whose key set matches, once.
    proof fn lemma_rows_exact(&self, req: Seq<TypeKey>, without: Seq<TypeKey>)
        requires
            self.wf(),
        ensures
            row_entities(self.rows(req, without)).no_duplicates(),
            forall|e: Entity| #[trigger] row_entities(self.rows(req, without)).contains(e) <==>
                (self.entities().contains_key(e) && keys_match(self.entities()[e].dom(), req, without)),
    {
        let archs = self.archetypes.spec_archetypes();
        let rows = self.rows(req, without);
        let ents = row_entities(rows);
        assert forall|i: int| 0 <= i < self.n_arch() implies #[trigger] archs[i].spec_entities().len() <= usize::MAX by {
            assert(self.arch(i).rows_ok());
        }
        lemma_rows_upto_exact(archs, req, without, self.n_arch());
        assert forall|i: int, j: int| 0 <= i < ents.len() && 0 <= j < ents.len() && i != j implies ents[i] != ents[j] by {
            self.lemma_row(req, without, i);
            self.lemma_row(req, without, j);
            if i < j {
                assert((rows[i].1, rows[i].2) != (rows[j].1, rows[j].2));
            } else {
                assert((rows[j].1, rows[j].2) != (rows[i].1, rows[i].2));
            }
        }
        assert forall|e: Entity| #[trigger] ents.contains(e) <==>
            (self.entities().contains_key(e) && keys_match(self.entities()[e].dom(), req, without)) by {
            if ents.contains(e) {
                let i = choose|i: int| 0 <= i < ents.len() && ents[i] == e;
                self.lemma_row(req, without, i);
                let l = self.arch(rows[i].1 as int).spec_layout();
                assert forall|q: int| 0 <= q < req.len() implies self.entities()[e].dom().contains(#[trigger] req[q]) by {
                    assert(l.contains(req[q]));
                }
                assert forall|q: int| 0 <= q < without.len() implies !self.entities()[e].dom().contains(#[trigger] without[q]) by {
                    assert(!l.contains(without[q]));
                }
            }
            if self.entities().contains_key(e) && keys_match(self.entities()[e].dom(), req, without) {
                let loc = self.meta.spec_location(e)->0;
                let a = loc.archetype_id.0 as int;
                let r = loc.row as int;
                let arch = self.arch(a);
                assert(arch.rows_ok());
                assert(cells_at(arch, r).dom() =~= arch.spec_layout().to_set());
                assert(layout_matches(arch.spec_layout(), req, without)) by {
                    assert forall|q: int| 0 <= q < req.len() implies arch.spec_layout().contains(#[trigger] req[q]) by {
                        assert(self.entities()[e].dom().contains(req[q]));
                    }
                    assert forall|q: int| 0 <= q < without.len() implies !arch.spec_layout().contains(#[trigger] without[q]) by {
                        assert(!self.entities()[e].dom().contains(without[q]));
                    }
                }
                assert(archs[a].spec_entities()[r] == e);
                assert(rows.contains((e, a as usize, r as usize)));
                let j = choose|j: int| 0 <= j < rows.len() && rows[j] == (e, a as usize, r as usize);
                assert(ents[j] == e);
            }
        }
    }
}


/// `x` records the removal of component `k` from `e` after tick `since`.
pub open spec fn removal_of(x: (Entity, TypeKey, u64), e: Entity, k: TypeKey, since: u64) -> bool {
    x.0 == e && x.1 == k && x.2 > since
}

/// The removal log `log` records a removal of component `k` from `e` after
/// tick `since`.
pub open spec fn removed_after(log: Seq<(Entity, TypeKey, u64)>, e: Entity, k: TypeKey, since: u64) -> bool {
    exists|i: int| 0 <= i < log.len() && removal_of(#[trigger] log[i], e, k, since)
}

/// Component `k` was changed after tick `since`.
pub open spec fn changed_after<V>(m: Map<Entity, Map<TypeKey, Cell<V>>>, k: TypeKey, since: u64) -> spec_fn(Entity) -> bool {
    |e: Entity| m[e][k].2 > since
}

/// Component `k` was added after tick `since`.
pub open spec fn added_after<V>(m: Map<Entity, Map<TypeKey, Cell<V>>>, k: TypeKey, since: u64) -> spec_fn(Entity) -> bool {
    |e: Entity| m[e][k].1 > since
}

impl<V> WorldState<V> {
    /// Component `k` of `e` with its added and changed ticks.
    fn cell(&self, e: Entity, k: TypeKey) -> (r: Option<(&V, u64, u64)>)
        requires
            self.wf(),
        ensures
            r is Some <==> self.entities().contains_key(e) && self.entities()[e].contains_key(k),
            r matches Some(c) ==> *c.0 == self.entities()[e][k].0 && c.1 == self.entities()[e][k].1
                && c.2 == self.entities()[e][k].2,
    {
        match self.meta.get_location(e) {
            None => None,
            Some(loc) => {
                let arch = self.archetypes.get(loc.archetype_id);
                match arch.column(k) {
                    None => None,
                    Some(col) => {
                        proof {
                            let i = key_index(arch.spec_layout(), k);
                            assert(0 <= i < arch.spec_layout().len());
                            assert(arch.rows_ok());
                            assert(arch.spec_columns()[i].data().len() == arch.spec_entities().len());
                        }
                        let row = loc.row as usize;
                        let v = col.get(row).unwrap();
                        Some((v, col.added_tick(row), col.changed_tick(row)))
                    },
                }
            },
        }
    }
}

impl<V> World<V> {
    /// The alive entities holding every key of `req` and none of `without`,
    /// in archetype order and, within an archetype, row order.
    pub closed spec fn spec_matches(&self, req: Seq<TypeKey>, without: Seq<TypeKey>) -> Seq<Entity> {
        row_entities(self.state.rows(req, without))
    }

    /// Each matching entity listed once, and nothing else.
    pub open spec fn matches_exact(&self, req: Seq<TypeKey>, without: Seq<TypeKey>) -> bool {
        &&& self.spec_matches(req, without).no_duplicates()
        &&& forall|e: Entity| #[trigger] self.spec_matches(req, without).contains(e) <==>
            (self.spec_alive(e) && keys_match(self.spec_entities()[e].dom(), req, without))
    }

    /// The rows matching `req` and `without`, with the law that they list
    /// each matching entity once.
    fn rows_for(&self, req: &Vec<TypeKey>, without: &Vec<TypeKey>) -> (r: Vec<(Entity, usize, usize)>)
        ensures
            r@ == self.state.rows(req@, without@),
            self.matches_exact(req@, without@),
    {
        proof {
            use_type_invariant(self);
            self.state.lemma_rows_exact(req@, without@);
        }
        self.state.matching_rows(req.as_slice(), without.as_slice())
    }

    /// Pair each row's entity with its value of `k`.
    fn with_values<'a>(&'a self, rows: &Vec<(Entity, usize, usize)>, k: TypeKey, req: Ghost<Seq<TypeKey>>, without: Ghost<Seq<TypeKey>>) -> (r: Vec<(Entity, &'a V)>)
        requires
            rows@ == self.state.rows(req@, without@),
            req@.contains(k),
        ensures
            r@.len() == rows@.len(),
            forall|j: int| 0 <= j < r@.len() ==> (#[trigger] r@[j]).0 == rows@[j].0
                && self.spec_entities()[rows@[j].0].contains_key(k)
                && *r@[j].1 == self.spec_entities()[rows@[j].0][k].0,
    {
        proof {
            use_type_invariant(self);
        }
        let vals = self.state.fetch(rows, k, req, without);
        let mut out: Vec<(Entity, &'a V)> = Vec::new();
        let mut j: usize = 0;
        while j < rows.len()
            invariant
                j <= rows@.len(),
                vals@.len() == rows@.len(),
                out@.len() == j,
                forall|i: int| 0 <= i < rows@.len() ==> self.state.entities()[rows@[i].0].contains_key(k)
                    && *vals@[i] == self.state.entities()[#[trigger] rows@[i].0][k].0,
                forall|i: int| 0 <= i < j ==> (#[trigger] out@[i]).0 == rows@[i].0 && out@[i].1 == vals@[i],
            decreases rows@.len() - j,
        {
            let v: &V = vals[j];
            out.push((rows[j].0, v));
            j = j + 1;
        }
        out
    }

    /// Every alive entity with component `k`, with its value.
    pub fn query(&self, k: TypeKey) -> (r: Vec<(Entity, &V)>)
        ensures
            r@.map_values(|p: (Entity, &V)| p.0) == self.spec_matches(seq![k], seq![]),
            forall|j: int| 0 <= j < r@.len() ==> *(#[trigger] r@[j]).1 == self.spec_entities()[r@[j].0][k].0,
            self.matches_exact(seq![k], seq![]),
    {
        let req = vec![k];
        let without: Vec<TypeKey> = Vec::new();
        let rows = self.rows_for(&req, &without);
        proof {
            assert(req@ =~= seq![k]);
            assert(without@ =~= Seq::<TypeKey>::empty());
            assert(req@[0] == k);
        }
        let r = self.with_values(&rows, k, Ghost(req@), Ghost(without@));
        proof {
            assert(r@.map_values(|p: (Entity, &V)| p.0) =~= self.spec_matches(seq![k], seq![]));
        }
        r
    }

    /// Every alive entity with component `k`, every key of `with` and no key
    /// of `without`, with its value of `k`.
    pub fn query_filtered(&self, k: TypeKey, with: &Vec<TypeKey>, without: &Vec<TypeKey>) -> (r: Vec<(Entity, &V)>)
        ensures
            r@.map_values(|p: (Entity, &V)| p.0) == self.spec_matches(seq![k] + with@, without@),
            forall|j: int| 0 <= j < r@.len() ==> *(#[trigger] r@[j]).1 == self.spec_entities()[r@[j].0][k].0,
            self.matches_exact(seq![k] + with@, without@),
    {
        let mut req = vec![k];
        let mut i: usize = 0;
        while i < with.len()
            invariant
                i <= with@.len(),
                req@ == seq![k] + with@.subrange(0, i as int),
            decreases with@.len() - i,
        {
            req.push(with[i]);
            proof {
                assert(with@.subrange(0, i + 1) =~= with@.subrange(0, i as int).push(with@[i as int]));
                assert(seq![k] + with@.subrange(0, i + 1) =~= (seq![k] + with@.subrange(0, i as int)).push(with@[i as int]));
            }
            i = i + 1;
        }
        proof {
            assert(with@.subrange(0, with@.len() as int) =~= with@);
            assert(req@[0] == k);
        }
        let rows = self.rows_for(&req, without);
        let r = self.with_values(&rows, k, Ghost(req@), Ghost(without@));
        proof {
            assert(r@.map_values(|p: (Entity, &V)| p.0) =~= self.spec_matches(seq![k] + with@, without@));
        }
        r
    }

    /// Every alive entity with components `a` and `b`, with both values.
    pub fn query2(&self, a: TypeKey, b: TypeKey) -> (r: Vec<(Entity, &V, &V)>)
        ensures
            r@.map_values(|p: (Entity, &V, &V)| p.0) == self.spec_matches(seq![a, b], seq![]),
            forall|j: int| 0 <= j < r@.len() ==> *(#[trigger] r@[j]).1 == self.spec_entities()[r@[j].0][a].0
                && *r@[j].2 == self.spec_entities()[r@[j].0][b].0,
            self.matches_exact(seq![a, b], seq![]),
    {
        let req = vec![a, b];
        let without: Vec<TypeKey> = Vec::new();
        let rows = self.rows_for(&req, &without);
        proof {
            assert(req@ =~= seq![a, b]);
            assert(req@[0] == a && req@[1] == b);
        }
        let va = self.with_values(&rows, a, Ghost(req@), Ghost(without@));
        let vb = self.with_values(&rows, b, Ghost(req@), Ghost(without@));
        let mut out: Vec<(Entity, &V, &V)> = Vec::new();
        let mut j: usize = 0;
        while j < rows.len()
            invariant
                j <= rows@.len(),
                va@.len() == rows@.len(),
                vb@.len() == rows@.len(),
                out@.len() == j,
                forall|i: int| 0 <= i < rows@.len() ==> (#[trigger] va@[i]).0 == rows@[i].0
                    && *va@[i].1 == self.spec_entities()[rows@[i].0][a].0,
                forall|i: int| 0 <= i < rows@.len() ==> (#[trigger] vb@[i]).0 == rows@[i].0
                    && *vb@[i].1 == self.spec_entities()[rows@[i].0][b].0,
                forall|i: int| 0 <= i < j ==> (#[trigger] out@[i]).0 == rows@[i].0 && out@[i].1 == va@[i].1
                    && out@[i].2 == vb@[i].1,
            decreases rows@.len() - j,
        {
            let x: &V = va[j].1;
            let y: &V = vb[j].1;
            out.push((rows[j].0, x, y));
            j = j + 1;
        }
        proof {
            assert(out@.map_values(|p: (Entity, &V, &V)| p.0) =~= self.spec_matches(seq![a, b], seq![]));
        }
        out
    }

    /// Every alive entity with components `a`, `b` and `c`, with the values.
    pub fn query3(&self, a: TypeKey, b: TypeKey, c: TypeKey) -> (r: Vec<(Entity, &V, &V, &V)>)
        ensures
            r@.map_values(|p: (Entity, &V, &V, &V)| p.0) == self.spec_matches(seq![a, b, c], seq![]),
            forall|j: int| 0 <= j < r@.len() ==> *(#[trigger] r@[j]).1 == self.spec_entities()[r@[j].0][a].0
                && *r@[j].2 == self.spec_entities()[r@[j].0][b].0
                && *r@[j].3 == self.spec_entities()[r@[j].0][c].0,
            self.matches_exact(seq![a, b, c], seq![]),
    {
        let req = vec![a, b, c];
        let without: Vec<TypeKey> = Vec::new();
        let rows = self.rows_for(&req, &without);
        proof {
            assert(req@ =~= seq![a, b, c]);
            assert(req@[0] == a && req@[1] == b && req@[2] == c);
        }
        let va = self.with_values(&rows, a, Ghost(req@), Ghost(without@));
        let vb = self.with_values(&rows, b, Ghost(req@), Ghost(without@));
        let vc = self.with_values(&rows, c, Ghost(req@), Ghost(without@));
        let mut out: Vec<(Entity, &V, &V, &V)> = Vec::new();
        let mut j: usize = 0;
        while j < rows.len()
            invariant
                j <= rows@.len(),
                va@.len() == rows@.len(),
                vb@.len() == rows@.len(),
                vc@.len() == rows@.len(),
                out@.len() == j,
                forall|i: int| 0 <= i < rows@.len() ==> (#[trigger] va@[i]).0 == rows@[i].0
                    && *va@[i].1 == self.spec_entities()[rows@[i].0][a].0,
                forall|i: int| 0 <= i < rows@.len() ==> (#[trigger] vb@[i]).0 == rows@[i].0
                    && *vb@[i].1 == self.spec_entities()[rows@[i].0][b].0,
                forall|i: int| 0 <= i < rows@.len() ==> (#[trigger] vc@[i]).0 == rows@[i].0
                    && *vc@[i].1 == self.spec_entities()[rows@[i].0][c].0,
                forall|i: int| 0 <= i < j ==> (#[trigger] out@[i]).0 == rows@[i].0 && out@[i].1 == va@[i].1
                    && out@[i].2 == vb@[i].1 && out@[i].3 == vc@[i].1,
            decreases rows@.len() - j,
        {
            let x: &V = va[j].1;
            let y: &V = vb[j].1;
            let z: &V = vc[j].1;
            out.push((rows[j].0, x, y, z));
            j = j + 1;
        }
        proof {
            assert(out@.map_values(|p: (Entity, &V, &V, &V)| p.0) =~= self.spec_matches(seq![a, b, c], seq![]));
        }
        out
    }

    /// Pair each listed entity with its value of `k`, where it has one.
    fn optional_values<'a>(&'a self, es: &Vec<Entity>, k: TypeKey) -> (r: Vec<(Entity, Option<&'a V>)>)
        requires
            forall|j: int| 0 <= j < es@.len() ==> self.spec_alive(#[trigger] es@[j]),
        ensures
            r@.map_values(|p: (Entity, Option<&V>)| p.0) == es@,
            forall|j: int| 0 <= j < r@.len() ==> ((#[trigger] r@[j]).1 is Some <==> self.spec_entities()[r@[j].0].contains_key(k)),
            forall|j: int| 0 <= j < r@.len() ==> ((#[trigger] r@[j]).1 matches Some(v) ==> *v == self.spec_entities()[r@[j].0][k].0),
    {
        let mut out: Vec<(Entity, Option<&'a V>)> = Vec::new();
        let mut j: usize = 0;
        while j < es.len()
            invariant
                j <= es@.len(),
                forall|i: int| 0 <= i < es@.len() ==> self.spec_alive(#[trigger] es@[i]),
                out@.len() == j,
                forall|i: int| 0 <= i < j ==> (#[trigger] out@[i]).0 == es@[i],
                forall|i: int| 0 <= i < out@.len() ==> ((#[trigger] out@[i]).1 is Some <==> self.spec_entities()[out@[i].0].contains_key(k)),
                forall|i: int| 0 <= i < out@.len() ==> ((#[trigger] out@[i]).1 matches Some(v) ==> *v == self.spec_entities()[out@[i].0][k].0),
            decreases es@.len() - j,
        {
            let e = es[j];
            let v = self.get(e, k);
            out.push((e, v));
            j = j + 1;
        }
        proof {
            assert(out@.map_values(|p: (Entity, Option<&V>)| p.0) =~= es@);
        }
        out
    }

    /// Every alive entity, with its value of `k` where it has one: an
    /// optional component filters nothing out.
    pub fn query_optional(&self, k: TypeKey) -> (r: Vec<(Entity, Option<&V>)>)
        ensures
            r@.map_values(|p: (Entity, Option<&V>)| p.0) == self.spec_matches(seq![], seq![]),
            forall|j: int| 0 <= j < r@.len() ==> ((#[trigger] r@[j]).1 is Some <==> self.spec_entities()[r@[j].0].contains_key(k)),
            forall|j: int| 0 <= j < r@.len() ==> ((#[trigger] r@[j]).1 matches Some(v) ==> *v == self.spec_entities()[r@[j].0][k].0),
            self.matches_exact(seq![], seq![]),
    {
        let req: Vec<TypeKey> = Vec::new();
        let without: Vec<TypeKey> = Vec::new();
        let rows = self.rows_for(&req, &without);
        proof {
            assert(req@ =~= Seq::<TypeKey>::empty());
            assert(without@ =~= Seq::<TypeKey>::empty());
        }
        let es = row_entity_list(&rows);
        proof {
            assert forall|j: int| 0 <= j < es@.len() implies self.spec_alive(#[trigger] es@[j]) by {
                assert(self.spec_matches(seq![], seq![]).contains(es@[j]));
            }
        }
        self.optional_values(&es, k)
    }

    /// Every alive entity with component `a`, with its value of `a` and its
    /// value of `b` where it has one.
    pub fn query_with_optional(&self, a: TypeKey, b: TypeKey) -> (r: Vec<(Entity, &V, Option<&V>)>)
        ensures
            r@.map_values(|p: (Entity, &V, Option<&V>)| p.0) == self.spec_matches(seq![a], seq![]),
            forall|j: int| 0 <= j < r@.len() ==> *(#[trigger] r@[j]).1 == self.spec_entities()[r@[j].0][a].0,
            forall|j: int| 0 <= j < r@.len() ==> ((#[trigger] r@[j]).2 is Some <==> self.spec_entities()[r@[j].0].contains_key(b)),
            forall|j: int| 0 <= j < r@.len() ==> ((#[trigger] r@[j]).2 matches Some(v) ==> *v == self.spec_entities()[r@[j].0][b].0),
            self.matches_exact(seq![a], seq![]),
    {
        let req = vec![a];
        let without: Vec<TypeKey> = Vec::new();
        let rows = self.rows_for(&req, &without);
        proof {
            assert(req@ =~= seq![a]);
            assert(without@ =~= Seq::<TypeKey>::empty());
            assert(req@[0] == a);
        }
        let va = self.with_values(&rows, a, Ghost(req@), Ghost(without@));
        let es = row_entity_list(&rows);
        proof {
            assert forall|j: int| 0 <= j < es@.len() implies self.spec_alive(#[trigger] es@[j]) by {
                assert(self.spec_matches(seq![a], seq![]).contains(es@[j]));
            }
        }
        let vb = self.optional_values(&es, b);
        proof {
            assert(vb@.map_values(|p: (Entity, Option<&V>)| p.0).len() == vb@.len());
            assert(row_entities(rows@).len() == rows@.len());
        }
        let mut out: Vec<(Entity, &V, Option<&V>)> = Vec::new();
        let mut j: usize = 0;
        while j < rows.len()
            invariant
                j <= rows@.len(),
                es@ == row_entities(rows@),
                va@.len() == rows@.len(),
                vb@.len() == rows@.len(),
                vb@.map_values(|p: (Entity, Option<&V>)| p.0) == es@,
                out@.len() == j,
                forall|i: int| 0 <= i < rows@.len() ==> (#[trigger] va@[i]).0 == rows@[i].0
                    && *va@[i].1 == self.spec_entities()[rows@[i].0][a].0,
                forall|i: int| 0 <= i < vb@.len() ==> ((#[trigger] vb@[i]).1 is Some <==> self.spec_entities()[vb@[i].0].contains_key(b)),
                forall|i: int| 0 <= i < vb@.len() ==> ((#[trigger] vb@[i]).1 matches Some(v) ==> *v == self.spec_entities()[vb@[i].0][b].0),
                forall|i: int| 0 <= i < j ==> (#[trigger] out@[i]).0 == rows@[i].0 && out@[i].1 == va@[i].1
                    && out@[i].2 == vb@[i].1,
            decreases rows@.len() - j,
        {
            proof {
                assert(vb@.map_values(|p: (Entity, Option<&V>)| p.0)[j as int] == vb@[j as int].0);
                assert(row_entities(rows@)[j as int] == rows@[j as int].0);
            }
            let x: &V = va[j].1;
            let y: Option<&V> = vb[j].1;
            out.push((rows[j].0, x, y));
            j = j + 1;
        }
        proof {
            assert forall|i: int| 0 <= i < out@.len() implies out@[i].0 == vb@[i].0 by {
                assert(vb@.map_values(|p: (Entity, Option<&V>)| p.0)[i] == vb@[i].0);
                assert(row_entities(rows@)[i] == rows@[i].0);
            }
            assert(out@.map_values(|p: (Entity, &V, Option<&V>)| p.0) =~= self.spec_matches(seq![a], seq![]));
        }
        out
    }
}


/// The entity list of a row list, as an executable list.
fn row_entity_list(rows: &Vec<(Entity, usize, usize)>) -> (r: Vec<Entity>)
    ensures
        r@ == row_entities(rows@),
{
    let mut out: Vec<Entity> = Vec::new();
    let mut j: usize = 0;
    while j < rows.len()
        invariant
            j <= rows@.len(),
            out@ == row_entities(rows@.subrange(0, j as int)),
        decreases rows@.len() - j,
    {
        out.push(rows[j].0);
        proof {
            assert(row_entities(rows@.subrange(0, j + 1)) =~= row_entities(rows@.subrange(0, j as int)).push(rows@[j as int].0));
        }
        j = j + 1;
    }
    proof {
        assert(rows@.subrange(0, rows@.len() as int) =~= rows@);
    }
    out
}

/// `req` as an executable list with `first` in front.
fn keys_with(first: TypeKey, rest: &Vec<TypeKey>) -> (r: Vec<TypeKey>)
    ensures
        r@ == seq![first] + rest@,
{
    let mut req = vec![first];
    let mut i: usize = 0;
    while i < rest.len()
        invariant
            i <= rest@.len(),
            req@ == seq![first] + rest@.subrange(0, i as int),
        decreases rest@.len() - i,
    {
        req.push(rest[i]);
        proof {
            assert(rest@.subrange(0, i + 1) =~= rest@.subrange(0, i as int).push(rest@[i as int]));
            assert(seq![first] + rest@.subrange(0, i + 1) =~= (seq![first] + rest@.subrange(0, i as int)).push(rest@[i as int]));
        }
        i = i + 1;
    }
    proof {
        assert(rest@.subrange(0, rest@.len() as int) =~= rest@);
    }
    req
}

impl<V> World<V> {
    /// Every alive entity with component `k`, for mutation. Nothing is
    /// stamped here: a component's changed tick moves only when it is
    /// actually written, through [`World::get_mut`].
    pub fn query_mut(&mut self, k: TypeKey) -> (r: Vec<Entity>)
        ensures
            r@ == old(self).spec_matches(seq![k], seq![]),
            old(self).matches_exact(seq![k], seq![]),
            *final(self) == *old(self),
    {
        let req = vec![k];
        let without: Vec<TypeKey> = Vec::new();
        proof {
            assert(req@ =~= seq![k]);
            assert(without@ =~= Seq::<TypeKey>::empty());
        }
        let rows = self.rows_for(&req, &without);
        row_entity_list(&rows)
    }

    /// Every alive entity with component `k`, every key of `with` and no key
    /// of `without`, for mutation of `k` (nothing stamped, as in
    /// [`World::query_mut`]).
    pub fn query_filtered_mut(&mut self, k: TypeKey, with: &Vec<TypeKey>, without: &Vec<TypeKey>) -> (r: Vec<Entity>)
        ensures
            r@ == old(self).spec_matches(seq![k] + with@, without@),
            old(self).matches_exact(seq![k] + with@, without@),
            *final(self) == *old(self),
    {
        let req = keys_with(k, with);
        let rows = self.rows_for(&req, without);
        row_entity_list(&rows)
    }

    /// Every alive entity with components `a` and `b` (two distinct keys),
    /// for mutation (nothing stamped, as in [`World::query_mut`]).
    pub fn query2_mut(&mut self, a: TypeKey, b: TypeKey) -> (r: Vec<Entity>)
        requires
            a != b,
        ensures
            r@ == old(self).spec_matches(seq![a, b], seq![]),
            old(self).matches_exact(seq![a, b], seq![]),
            *final(self) == *old(self),
    {
        let req = vec![a, b];
        let without: Vec<TypeKey> = Vec::new();
        proof {
            assert(req@ =~= seq![a, b]);
            assert(without@ =~= Seq::<TypeKey>::empty());
        }
        let rows = self.rows_for(&req, &without);
        row_entity_list(&rows)
    }

    /// Every alive entity with components `a`, `b` and `c` (three distinct
    /// keys), for mutation (nothing stamped, as in [`World::query_mut`]).
    pub fn query3_mut(&mut self, a: TypeKey, b: TypeKey, c: TypeKey) -> (r: Vec<Entity>)
        requires
            a != b,
            a != c,
            b != c,
        ensures
            r@ == old(self).spec_matches(seq![a, b, c], seq![]),
            old(self).matches_exact(seq![a, b, c], seq![]),
            *final(self) == *old(self),
    {
        let req = vec![a, b, c];
        let without: Vec<TypeKey> = Vec::new();
        proof {
            assert(req@ =~= seq![a, b, c]);
            assert(without@ =~= Seq::<TypeKey>::empty());
        }
        let rows = self.rows_for(&req, &without);
        row_entity_list(&rows)
    }

    /// The values of components `keys` of a single entity, in `keys`
    /// order, if it is alive and has all of them.
    pub fn one(&self, e: Entity, keys: &Vec<TypeKey>) -> (r: Option<Vec<&V>>)
        ensures
            r is Some <==> (self.spec_alive(e) && forall|i: int| 0 <= i < keys@.len() ==>
                self.spec_entities()[e].contains_key(#[trigger] keys@[i])),
            r matches Some(vs) ==> vs@.len() == keys@.len() && forall|i: int| 0 <= i < keys@.len() ==>
                *(#[trigger] vs@[i]) == self.spec_entities()[e][keys@[i]].0,
    {
        proof {
            use_type_invariant(self);
        }
        if !self.state.is_alive(e) {
            return None;
        }
        let mut out: Vec<&V> = Vec::new();
        let mut i: usize = 0;
        while i < keys.len()
            invariant
                i <= keys@.len(),
                self.state.wf(),
                self.spec_alive(e),
                out@.len() == i,
                forall|j: int| 0 <= j < i ==> self.spec_entities()[e].contains_key(#[trigger] keys@[j]),
                forall|j: int| 0 <= j < i ==> *(#[trigger] out@[j]) == self.spec_entities()[e][keys@[j]].0,
            decreases keys@.len() - i,
        {
            match self.state.get(e, keys[i]) {
                None => {
                    return None;
                },
                Some(v) => {
                    out.push(v);
                },
            }
            i = i + 1;
        }
        Some(out)
    }

    /// Every alive entity with component `k` whose changed tick is after
    /// `since_tick`, with its value, in query order.
    pub fn query_changed(&self, k: TypeKey, since_tick: u64) -> (r: Vec<(Entity, &V)>)
        ensures
            r@.map_values(|p: (Entity, &V)| p.0) == self.spec_matches(seq![k], seq![]).filter(
                changed_after(self.spec_entities(), k, since_tick),
            ),
            forall|j: int| 0 <= j < r@.len() ==> *(#[trigger] r@[j]).1 == self.spec_entities()[r@[j].0][k].0,
            self.matches_exact(seq![k], seq![]),
    {
        self.query_ticked(k, since_tick, true)
    }

    /// Every alive entity with component `k` whose added tick is after
    /// `since_tick`, with its value, in query order.
    pub fn query_added(&self, k: TypeKey, since_tick: u64) -> (r: Vec<(Entity, &V)>)
        ensures
            r@.map_values(|p: (Entity, &V)| p.0) == self.spec_matches(seq![k], seq![]).filter(
                added_after(self.spec_entities(), k, since_tick),
            ),
            forall|j: int| 0 <= j < r@.len() ==> *(#[trigger] r@[j]).1 == self.spec_entities()[r@[j].0][k].0,
            self.matches_exact(seq![k], seq![]),
    {
        self.query_ticked(k, since_tick, false)
    }

    fn query_ticked(&self, k: TypeKey, since_tick: u64, changed: bool) -> (r: Vec<(Entity, &V)>)
        ensures
            r@.map_values(|p: (Entity, &V)| p.0) == self.spec_matches(seq![k], seq![]).filter(
                if changed { changed_after(self.spec_entities(), k, since_tick) } else { added_after(self.spec_entities(), k, since_tick) },
            ),
            forall|j: int| 0 <= j < r@.len() ==> *(#[trigger] r@[j]).1 == self.spec_entities()[r@[j].0][k].0,
            self.matches_exact(seq![k], seq![]),
    {
        proof {
            use_type_invariant(self);
        }
        let req = vec![k];
        let without: Vec<TypeKey> = Vec::new();
        proof {
            assert(req@ =~= seq![k]);
            assert(without@ =~= Seq::<TypeKey>::empty());
        }
        let rows = self.rows_for(&req, &without);
        let ghost ms = self.spec_matches(seq![k], seq![]);
        let ghost pred = if changed { changed_after(self.spec_entities(), k, since_tick) } else { added_after(self.spec_entities(), k, since_tick) };
        let mut out: Vec<(Entity, &V)> = Vec::new();
        let mut j: usize = 0;
        while j < rows.len()
            invariant
                j <= rows@.len(),
                self.state.wf(),
                rows@ == self.state.rows(seq![k], seq![]),
                ms == row_entities(rows@),
                pred == (if changed { changed_after(self.spec_entities(), k, since_tick) } else { added_after(self.spec_entities(), k, since_tick) }),
                self.matches_exact(seq![k], seq![]),
                out@.map_values(|p: (Entity, &V)| p.0) == ms.subrange(0, j as int).filter(pred),
                forall|i: int| 0 <= i < out@.len() ==> *(#[trigger] out@[i]).1 == self.spec_entities()[out@[i].0][k].0,
            decreases rows@.len() - j,
        {
            let e = rows[j].0;
            proof {
                assert(ms[j as int] == e);
                assert(ms.contains(e));
                assert(keys_match(self.spec_entities()[e].dom(), seq![k], seq![]));
                assert(seq![k][0] == k);
            }
            let (v, added, chg) = self.state.cell(e, k).unwrap();
            let t = if changed { chg } else { added };
            let ghost before = out@;
            proof {
                assert(pred(e) == (t > since_tick));
                reveal(Seq::filter);
                assert(ms.subrange(0, j + 1).drop_last() =~= ms.subrange(0, j as int));
                assert(ms.subrange(0, j + 1).last() == e);
                assert(ms.subrange(0, j + 1).filter(pred) == if pred(e) {
                    ms.subrange(0, j as int).filter(pred).push(e)
                } else {
                    ms.subrange(0, j as int).filter(pred)
                });
            }
            if t > since_tick {
                out.push((e, v));
                proof {
                    assert(out@.map_values(|p: (Entity, &V)| p.0) =~= before.map_values(|p: (Entity, &V)| p.0).push(e));
                }
            }
            j = j + 1;
        }
        proof {
            assert(ms.subrange(0, rows@.len() as int) =~= ms);
        }
        out
    }
}


/// What a spawn stores is what reading the new entity gives: each component
/// of the bundle under its key, added and changed at the current tick; every
/// other entity is untouched.
pub proof fn lemma_spawn_then_read<V>(
    w0: World<V>,
    bundle: Seq<(TypeKey, V)>,
    w1: World<V>,
    i: int,
    other: Entity,
)
    requires
        World::spawned(w0, bundle, w1),
        keys_unique(bundle),
        0 <= i < bundle.len(),
    ensures
        w1.spec_alive(w0.spec_next_entity()),
        w1.spec_entities()[w0.spec_next_entity()].contains_key(bundle[i].0),
        w1.spec_entities()[w0.spec_next_entity()][bundle[i].0] == (
            bundle[i].1,
            w0.spec_tick(),
            w0.spec_tick(),
        ),
        other != w0.spec_next_entity() ==> w1.spec_alive(other) == w0.spec_alive(other),
        other != w0.spec_next_entity() && w0.spec_alive(other) ==> w1.spec_entities()[other]
            == w0.spec_entities()[other],
{
    lemma_entries_map_at(bundle, i);
    assert(has_key(bundle, bundle[i].0));
}

/// A spawn raises the number of alive entities by one.
pub proof fn lemma_spawn_count<V>(w0: World<V>, bundle: Seq<(TypeKey, V)>, w1: World<V>)
    requires
        World::spawned(w0, bundle, w1),
        !w0.spec_alive(w0.spec_next_entity()),
    ensures
        w1.spec_entities().dom().len() == w0.spec_entities().dom().len() + 1,
{
    w0.lemma_entities_finite();
    assert(w1.spec_entities().dom() =~= w0.spec_entities().dom().insert(w0.spec_next_entity()));
}

/// A despawn lowers the number of alive entities by one exactly when the
/// entity was alive, and leaves it unchanged otherwise.
pub proof fn lemma_despawn_count<V>(w0: World<V>, e: Entity, w1: World<V>)
    requires
        World::despawned(w0, e, w1),
    ensures
        w1.spec_entities().dom().len() == w0.spec_entities().dom().len() - if w0.spec_alive(e) { 1int } else { 0int },
{
    w0.lemma_entities_finite();
    if w0.spec_alive(e) {
        assert(w1.spec_entities().dom() =~= w0.spec_entities().dom().remove(e));
    }
}

/// Registering an event buffer a second time changes nothing: the buffer
/// keeps its queued events and the key stays registered once.
pub proof fn lemma_event_added_twice<V>(w0: World<V>, k: TypeKey, w1: World<V>, w2: World<V>)
    requires
        World::event_added(w0, k, w1),
        World::event_added(w1, k, w2),
    ensures
        w2.spec_events() == w1.spec_events(),
        w2.spec_registered_events() == w1.spec_registered_events(),
        w2.spec_registered_events().contains(k),
{
    assert(w1.spec_events().contains_key(k));
    assert(w2.spec_events().dom() =~= w1.spec_events().dom());
    assert(w2.spec_events() =~= w1.spec_events());
    if !w0.spec_registered_events().contains(k) {
        assert(w1.spec_registered_events()[w1.spec_registered_events().len() - 1] == k);
    }
}

/// Registering a deadline type a second time changes no queue: pending
/// deadlines are kept.
pub proof fn lemma_deadline_type_added_twice<V>(w0: World<V>, k: TypeKey, w1: World<V>, w2: World<V>)
    requires
        World::deadline_type_added(w0, k, w1),
        World::deadline_type_added(w1, k, w2),
    ensures
        w2.spec_deadlines() == w1.spec_deadlines(),
        w2.spec_events() == w1.spec_events(),
        w2.spec_registered_events() == w1.spec_registered_events(),
{
    assert(w1.spec_deadlines().contains_key(k));
    assert(w1.spec_events().contains_key(k));
    assert(w2.spec_deadlines().dom() =~= w1.spec_deadlines().dom());
    assert(w2.spec_deadlines() =~= w1.spec_deadlines());
    assert(w2.spec_events().dom() =~= w1.spec_events().dom());
    assert(w2.spec_events() =~= w1.spec_events());
    if !w0.spec_registered_events().contains(k) {
        assert(w1.spec_registered_events()[w1.spec_registered_events().len() - 1] == k);
    }
}

/// One step of a sequence of world changes, as far as the set of alive
/// entities goes.
pub enum EntityStep {
    /// An entity was spawned.
    Spawned,
    /// `despawn` was called on this entity.
    Despawned(Entity),
    /// The alive entities were kept (an insert, a remove, a resource or
    /// event change).
    Kept,
}

/// `w1` follows from `w0` by `step`.
pub open spec fn entity_step<V>(w0: World<V>, step: EntityStep, w1: World<V>) -> bool {
    match step {
        EntityStep::Spawned => (exists|b: Seq<(TypeKey, V)>| #[trigger] World::spawned(w0, b, w1))
            && !w0.spec_alive(w0.spec_next_entity()) && w0.free_in_range(),
        EntityStep::Despawned(e) => World::despawned(w0, e, w1),
        EntityStep::Kept => {
            &&& w1.spec_entities().dom() == w0.spec_entities().dom()
            &&& w1.spec_slots() == w0.spec_slots()
            &&& w1.spec_free() == w0.spec_free()
        },
    }
}

/// The change in the number of alive entities over the first `n` steps:
/// one more per spawn, one less per despawn of an alive entity.
pub open spec fn count_change<V>(ws: Seq<World<V>>, steps: Seq<EntityStep>, n: int) -> int
    decreases n,
{
    if n <= 0 {
        0
    } else {
        count_change(ws, steps, n - 1) + match steps[n - 1] {
            EntityStep::Spawned => 1int,
            EntityStep::Despawned(e) => if ws[n - 1].spec_alive(e) { -1int } else { 0int },
            EntityStep::Kept => 0int,
        }
    }
}

/// Over any sequence of spawns, despawns and other changes, the number of
/// alive entities is the starting number plus the spawns minus the
/// despawns that found their entity alive.
pub proof fn lemma_entity_count_over_steps<V>(ws: Seq<World<V>>, steps: Seq<EntityStep>)
    requires
        ws.len() == steps.len() + 1,
        forall|j: int| 0 <= j < steps.len() ==> entity_step(ws[j], #[trigger] steps[j], ws[j + 1]),
    ensures
        ws.last().spec_entities().dom().len() == ws[0].spec_entities().dom().len() + count_change(ws, steps, steps.len() as int),
    decreases steps.len(),
{
    if steps.len() > 0 {
        let n = steps.len() - 1;
        let ws0 = ws.drop_last();
        let steps0 = steps.drop_last();
        assert forall|j: int| 0 <= j < steps0.len() implies entity_step(ws0[j], #[trigger] steps0[j], ws0[j + 1]) by {
            assert(steps0[j] == steps[j]);
            assert(entity_step(ws[j], steps[j], ws[j + 1]));
        }
        lemma_entity_count_over_steps(ws0, steps0);
        lemma_count_change_prefix(ws, steps, n);
        assert(ws0.last() == ws[n]);
        assert(ws0[0] == ws[0]);
        let w0 = ws[n];
        let w1 = ws[n + 1];
        assert(ws.last() == w1);
        assert(entity_step(w0, steps[n], w1));
        assert(count_change(ws, steps, n + 1) == count_change(ws, steps, n) + match steps[n] {
            EntityStep::Spawned => 1int,
            EntityStep::Despawned(e) => if ws[n].spec_alive(e) { -1int } else { 0int },
            EntityStep::Kept => 0int,
        });
        match steps[n] {
            EntityStep::Spawned => {
                let b = choose|b: Seq<(TypeKey, V)>| #[trigger] World::spawned(w0, b, w1);
                lemma_spawn_count(w0, b, w1);
            },
            EntityStep::Despawned(e) => {
                lemma_despawn_count(w0, e, w1);
            },
            EntityStep::Kept => {},
        }
    }
}

proof fn lemma_count_change_prefix<V>(ws: Seq<World<V>>, steps: Seq<EntityStep>, m: int)
    requires
        ws.len() == steps.len() + 1,
        steps.len() > 0,
        0 <= m < steps.len(),
    ensures
        count_change(ws.drop_last(), steps.drop_last(), m) == count_change(ws, steps, m),
    decreases m,
{
    if m > 0 {
        lemma_count_change_prefix(ws, steps, m - 1);
        assert(steps.drop_last()[m - 1] == steps[m - 1]);
        assert(ws.drop_last()[m - 1] == ws[m - 1]);
    }
}

/// The generation a slot carries after it was freed `1 + b` times from
/// generation `g`, counting modulo 2^32 (for `b < 2^32 - 1`).
pub open spec fn generation_after(g: u32, b: nat) -> int {
    if g + 1 + b <= u32::MAX { g + 1 + b } else { g + 1 + b - 0x1_0000_0000 }
}

/// How many of the first `n` steps despawned an alive entity in slot `i`.
pub open spec fn slot_frees<V>(ws: Seq<World<V>>, steps: Seq<EntityStep>, i: u32, n: int) -> nat
    decreases n,
{
    if n <= 0 {
        0
    } else {
        slot_frees(ws, steps, i, n - 1) + match steps[n - 1] {
            EntityStep::Despawned(x) => if x.index == i && ws[n - 1].spec_alive(x) { 1nat } else { 0nat },
            _ => 0nat,
        }
    }
}

/// A despawned handle is never alive again, whatever spawns, despawns and
/// other changes follow, as long as its slot is freed again fewer than
/// 2^32 - 1 times (after that many frees the slot's generation wraps round
/// to the handle's).
pub proof fn lemma_freed_handle_stays_dead<V>(
    before: World<V>,
    e: Entity,
    ws: Seq<World<V>>,
    steps: Seq<EntityStep>,
    k: int,
)
    requires
        World::despawned(before, e, ws[0]),
        before.spec_alive(e),
        ws.len() == steps.len() + 1,
        forall|j: int| 0 <= j < steps.len() ==> entity_step(ws[j], #[trigger] steps[j], ws[j + 1]),
        slot_frees(ws, steps, e.index, steps.len() as int) < u32::MAX,
        0 <= k < ws.len(),
    ensures
        !ws[k].spec_alive(e),
{
    lemma_slot_frees_monotone(ws, steps, e.index, k, steps.len() as int);
    lemma_slot_generation(before, e, ws, steps, k);
    ws[k].lemma_alive_by_slot(e);
}

proof fn lemma_slot_frees_monotone<V>(ws: Seq<World<V>>, steps: Seq<EntityStep>, i: u32, a: int, b: int)
    requires
        0 <= a <= b,
    ensures
        slot_frees(ws, steps, i, a) <= slot_frees(ws, steps, i, b),
    decreases b - a,
{
    if a < b {
        lemma_slot_frees_monotone(ws, steps, i, a, b - 1);
    }
}

proof fn lemma_slot_generation<V>(
    before: World<V>,
    e: Entity,
    ws: Seq<World<V>>,
    steps: Seq<EntityStep>,
    k: int,
)
    requires
        World::despawned(before, e, ws[0]),
        before.spec_alive(e),
        ws.len() == steps.len() + 1,
        forall|j: int| 0 <= j < steps.len() ==> entity_step(ws[j], #[trigger] steps[j], ws[j + 1]),
        0 <= k < ws.len(),
        slot_frees(ws, steps, e.index, k) < u32::MAX,
    ensures
        (e.index as int) < ws[k].spec_slots().len(),
        ws[k].spec_slots()[e.index as int].generation == generation_after(e.generation, slot_frees(ws, steps, e.index, k)),
    decreases k,
{
    let i = e.index as int;
    if k == 0 {
        before.lemma_alive_by_slot(e);
        let g = e.generation;
        assert(g.wrapping_add(1) == generation_after(g, 0));
    } else {
        let j = k - 1;
        lemma_slot_frees_monotone(ws, steps, e.index, j, k);
        lemma_slot_generation(before, e, ws, steps, j);
        let w0 = ws[j];
        let w1 = ws[j + 1];
        assert(entity_step(w0, steps[j], w1));
        let b = slot_frees(ws, steps, e.index, j);
        let g0 = w0.spec_slots()[i].generation;
        match steps[j] {
            EntityStep::Spawned => {
                let bundle = choose|bundle: Seq<(TypeKey, V)>| #[trigger] World::spawned(w0, bundle, w1);
                assert(World::spawned(w0, bundle, w1));
                assert(slot_frees(ws, steps, e.index, k) == b);
                if w0.spec_free().len() > 0 {
                    // The reused slot is an existing one and keeps its generation.
                    let f = w0.spec_free().last() as int;
                    assert(f < w0.spec_slots().len());
                    if f != i {
                        assert(w1.spec_slots()[i] == w0.spec_slots()[i]);
                    }
                } else {
                    assert(w1.spec_slots()[i] == w0.spec_slots()[i]);
                }
            },
            EntityStep::Despawned(x) => {
                if w0.spec_alive(x) {
                    w0.lemma_alive_by_slot(x);
                    if x.index == e.index {
                        assert(slot_frees(ws, steps, e.index, k) == b + 1);
                        assert(x.generation == g0);
                        assert(w1.spec_slots()[i].generation == g0.wrapping_add(1));
                    } else {
                        assert(slot_frees(ws, steps, e.index, k) == b);
                        assert(w1.spec_slots()[i] == w0.spec_slots()[i]);
                    }
                } else {
                    assert(slot_frees(ws, steps, e.index, k) == b);
                }
            },
            EntityStep::Kept => {
                assert(slot_frees(ws, steps, e.index, k) == b);
            },
        }
    }
}

/// Applying a queued cancel of deadline `id` under a registered deadline type
/// `k` whose queue holds an entry with that id removes that entry: the queue
/// after is the queue before with one entry of that id taken out, so it is
/// one shorter; where the queue's ids are distinct (as in every world), no
/// entry with that id is left. No other queue changes.
pub proof fn lemma_cancel_command_removes_deadline<V>(w0: World<V>, k: TypeKey, id: DeadlineId, w1: World<V>, i: int)
    requires
        World::command_applied(w0, Command::CancelDeadline(k, id), w1),
        w0.spec_deadlines().contains_key(k),
        0 <= i < w0.spec_deadlines()[k].spec_entries().len(),
        w0.spec_deadlines()[k].spec_entries()[i].id == id,
    ensures
        w1.spec_deadlines().contains_key(k),
        exists|j: int|
            0 <= j < w0.spec_deadlines()[k].spec_entries().len()
                && w0.spec_deadlines()[k].spec_entries()[j].id == id
                && w1.spec_deadlines()[k].spec_entries() == w0.spec_deadlines()[k].spec_entries().remove(j),
        w1.spec_deadlines()[k].spec_entries().len() + 1 == w0.spec_deadlines()[k].spec_entries().len(),
        w0.spec_deadlines()[k].ids_distinct() ==> forall|j: int|
            0 <= j < w1.spec_deadlines()[k].spec_entries().len() ==> (#[trigger] w1.spec_deadlines()[k].spec_entries()[j]).id != id,
        forall|j: TypeKey| j != k && #[trigger] w0.spec_deadlines().contains_key(j) ==>
            w1.spec_deadlines().contains_key(j) && w1.spec_deadlines()[j] == w0.spec_deadlines()[j],
{
    reveal(World::command_applied);
    let q0 = w0.spec_deadlines()[k].spec_entries();
    assert(q0[i].id == id);
    let j = choose|j: int|
        0 <= j < q0.len() && q0[j].id == id
            && (forall|m: int| 0 <= m < j ==> (#[trigger] q0[m]).id != id)
            && w1.spec_deadlines()[k].spec_entries() == q0.remove(j);
    let q1 = w1.spec_deadlines()[k].spec_entries();
    if w0.spec_deadlines()[k].ids_distinct() {
        assert forall|m: int| 0 <= m < q1.len() implies (#[trigger] q1[m]).id != id by {
            if m < j {
                assert(q1[m] == q0[m]);
            } else {
                assert(q1[m] == q0[m + 1]);
                assert(q0[j].id != q0[m + 1].id);
            }
        }
    }
}

/// A despawned entity is dead, every other entity is untouched, and the next
/// spawn hands out a handle other than the despawned one.
pub proof fn lemma_despawn_then_dead<V>(w0: World<V>, e: Entity, w1: World<V>, other: Entity)
    requires
        World::despawned(w0, e, w1),
        w0.spec_alive(e),
        (e.index as int) < w0.spec_slots().len(),
    ensures
        !w1.spec_alive(e),
        other != e ==> w1.spec_alive(other) == w0.spec_alive(other),
        other != e && w0.spec_alive(other) ==> w1.spec_entities()[other] == w0.spec_entities()[other],
        w1.spec_next_entity() != e,
{
    let g = e.generation;
    assert(g.wrapping_add(1) != g) by (bit_vector);
    assert(w1.spec_free().last() == e.index);
    assert(w1.spec_slots()[e.index as int].generation == g.wrapping_add(1));
}

/// Inserting a component into a live entity makes reading it give the new
/// value; the entity's other components are untouched.
pub proof fn lemma_insert_then_read<V>(
    w0: World<V>,
    e: Entity,
    k: TypeKey,
    v: V,
    w1: World<V>,
    other: TypeKey,
)
    requires
        World::inserted(w0, e, k, v, w1),
        w0.spec_alive(e),
    ensures
        w1.spec_alive(e),
        w1.spec_entities()[e].contains_key(k),
        w1.spec_entities()[e][k].0 == v,
        other != k ==> w1.spec_entities()[e].contains_key(other) == w0.spec_entities()[e].contains_key(other),
        other != k && w0.spec_entities()[e].contains_key(other) ==> w1.spec_entities()[e][other]
            == w0.spec_entities()[e][other],
{
}

/// Removing a component from a live entity makes it absent; the entity stays
/// alive and its other components are untouched.
pub proof fn lemma_remove_then_absent<V>(
    w0: World<V>,
    e: Entity,
    k: TypeKey,
    w1: World<V>,
    other: TypeKey,
)
    requires
        World::removed(w0, e, k, w1),
        w0.spec_alive(e),
    ensures
        w1.spec_alive(e),
        !w1.spec_entities()[e].contains_key(k),
        other != k ==> w1.spec_entities()[e].contains_key(other) == w0.spec_entities()[e].contains_key(other),
        other != k && w0.spec_entities()[e].contains_key(other) ==> w1.spec_entities()[e][other]
            == w0.spec_entities()[e][other],
{
}

} // verus!
