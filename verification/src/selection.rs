use vstd::prelude::*;

use crate::entity::Entity;

verus! {

/// Modifier-key bitmask for selection input: shift, ctrl, alt and meta in
/// the low four bits.
#[derive(Clone, Copy, Debug, Default, PartialEq, Eq, Structural)]
pub struct PickModifiers(pub u32);

impl PickModifiers {
    pub const SHIFT: u32 = 1u32;
    pub const CTRL: u32 = 2u32;
    pub const ALT: u32 = 4u32;
    pub const META: u32 = 8u32;

    /// No modifier held.
    pub fn none() -> (r: PickModifiers)
        ensures
            r.0 == 0,
    {
        PickModifiers(0)
    }

    /// The bitmask of the given flags.
    pub open spec fn spec_from_bools(shift: bool, ctrl: bool, alt: bool, meta: bool) -> u32 {
        (if shift { 1u32 } else { 0u32 }) | (if ctrl { 2u32 } else { 0u32 }) | (if alt { 4u32 } else { 0u32 }) | (if meta {
            8u32
        } else {
            0u32
        })
    }

    /// Construct from boolean flags.
    pub fn from_bools(shift: bool, ctrl: bool, alt: bool, meta: bool) -> (r: PickModifiers)
        ensures
            r.0 == Self::spec_from_bools(shift, ctrl, alt, meta),
            r.spec_shift() == shift,
            r.spec_ctrl() == ctrl,
            r.spec_alt() == alt,
            r.spec_meta() == meta,
    {
        let bits: u32 = (if shift { Self::SHIFT } else { 0u32 }) | (if ctrl { Self::CTRL } else { 0u32 }) | (if alt {
            Self::ALT
        } else {
            0u32
        }) | (if meta { Self::META } else { 0u32 });
        proof {
            lemma_from_bools_round_trip(shift, ctrl, alt, meta);
        }
        PickModifiers(bits)
    }

    pub open spec fn spec_shift(self) -> bool {
        self.0 & 1u32 != 0
    }

    pub open spec fn spec_ctrl(self) -> bool {
        self.0 & 2u32 != 0
    }

    pub open spec fn spec_alt(self) -> bool {
        self.0 & 4u32 != 0
    }

    pub open spec fn spec_meta(self) -> bool {
        self.0 & 8u32 != 0
    }

    /// Whether shift is held.
    pub fn shift(self) -> (r: bool)
        ensures
            r == self.spec_shift(),
    {
        (self.0 & Self::SHIFT) != 0
    }

    /// Whether ctrl is held.
    pub fn ctrl(self) -> (r: bool)
        ensures
            r == self.spec_ctrl(),
    {
        (self.0 & Self::CTRL) != 0
    }

    /// Whether alt is held.
    pub fn alt(self) -> (r: bool)
        ensures
            r == self.spec_alt(),
    {
        (self.0 & Self::ALT) != 0
    }

    /// Whether meta is held.
    pub fn meta(self) -> (r: bool)
        ensures
            r == self.spec_meta(),
    {
        (self.0 & Self::META) != 0
    }
}

/// Each flag given to `from_bools` reads back unchanged.
pub proof fn lemma_from_bools_round_trip(shift: bool, ctrl: bool, alt: bool, meta: bool)
    ensures
        PickModifiers(PickModifiers::spec_from_bools(shift, ctrl, alt, meta)).spec_shift() == shift,
        PickModifiers(PickModifiers::spec_from_bools(shift, ctrl, alt, meta)).spec_ctrl() == ctrl,
        PickModifiers(PickModifiers::spec_from_bools(shift, ctrl, alt, meta)).spec_alt() == alt,
        PickModifiers(PickModifiers::spec_from_bools(shift, ctrl, alt, meta)).spec_meta() == meta,
{
    let b = PickModifiers::spec_from_bools(shift, ctrl, alt, meta);
    assert(b & 1u32 != 0 <==> shift) by (bit_vector)
        requires
            b == ((if shift { 1u32 } else { 0u32 }) | (if ctrl { 2u32 } else { 0u32 }) | (if alt { 4u32 } else { 0u32 })
                | (if meta { 8u32 } else { 0u32 })),
    ;
    assert(b & 2u32 != 0 <==> ctrl) by (bit_vector)
        requires
            b == ((if shift { 1u32 } else { 0u32 }) | (if ctrl { 2u32 } else { 0u32 }) | (if alt { 4u32 } else { 0u32 })
                | (if meta { 8u32 } else { 0u32 })),
    ;
    assert(b & 4u32 != 0 <==> alt) by (bit_vector)
        requires
            b == ((if shift { 1u32 } else { 0u32 }) | (if ctrl { 2u32 } else { 0u32 }) | (if alt { 4u32 } else { 0u32 })
                | (if meta { 8u32 } else { 0u32 })),
    ;
    assert(b & 8u32 != 0 <==> meta) by (bit_vector)
        requires
            b == ((if shift { 1u32 } else { 0u32 }) | (if ctrl { 2u32 } else { 0u32 }) | (if alt { 4u32 } else { 0u32 })
                | (if meta { 8u32 } else { 0u32 })),
    ;
}

/// The selection after a single-click pick of `entity` with modifiers `m`.
pub open spec fn picked(sel: Set<Entity>, entity: Option<Entity>, m: PickModifiers) -> Set<Entity> {
    match entity {
        None => if m.0 == 0 {
            Set::empty()
        } else {
            sel
        },
        Some(e) => if m.spec_shift() {
            if sel.contains(e) {
                sel.remove(e)
            } else {
                sel.insert(e)
            }
        } else if m.spec_ctrl() {
            sel.remove(e)
        } else {
            Set::empty().insert(e)
        },
    }
}

/// A click on empty space with any modifier held (shift, ctrl, alt or meta,
/// or any other bit set) leaves the selection as it was; only a click on
/// empty space with no modifier at all clears it.
pub proof fn lemma_miss_with_modifier_keeps_selection(sel: Set<Entity>, m: PickModifiers)
    ensures
        m.spec_shift() || m.spec_ctrl() || m.spec_alt() || m.spec_meta() ==> picked(sel, None, m) == sel,
        m.0 != 0 ==> picked(sel, None, m) == sel,
        m.0 == 0 ==> picked(sel, None, m) == Set::<Entity>::empty(),
{
    let b = m.0;
    assert(b & 1u32 != 0 || b & 2u32 != 0 || b & 4u32 != 0 || b & 8u32 != 0 ==> b != 0) by (bit_vector);
}

/// The selection after a marquee pick of `es` with modifiers `m`.
pub open spec fn rect_picked(sel: Set<Entity>, es: Set<Entity>, m: PickModifiers) -> Set<Entity> {
    if m.spec_shift() {
        sel.union(es)
    } else if m.spec_ctrl() {
        sel.difference(es)
    } else if m.spec_alt() {
        sel.intersect(es)
    } else {
        es
    }
}

/// World-global selection state: the selected entities and the point of
/// the most recent click pick (of any point type `P`).
pub struct Selection<P> {
    entities: Vec<Entity>,
    last_pick: Option<P>,
}

impl<P> View for Selection<P> {
    type V = Set<Entity>;

    closed spec fn view(&self) -> Set<Entity> {
        self.entities@.to_set()
    }
}

impl<P> Selection<P> {
    #[verifier::type_invariant]
    spec fn inv(self) -> bool {
        self.entities@.no_duplicates()
    }

    /// The point of the most recent click pick that had one.
    pub closed spec fn spec_last_pick(&self) -> Option<P> {
        self.last_pick
    }

    /// An empty selection.
    pub fn new() -> (r: Selection<P>)
        ensures
            r@ == Set::<Entity>::empty(),
            r.spec_last_pick() is None,
    {
        let r = Selection { entities: Vec::new(), last_pick: None };
        assert(r@ =~= Set::<Entity>::empty());
        r
    }

    fn position(v: &Vec<Entity>, e: Entity) -> (r: Option<usize>)
        ensures
            r is None <==> !v@.contains(e),
            r matches Some(i) ==> i < v@.len() && v@[i as int] == e,
    {
        let mut i: usize = 0;
        while i < v.len()
            invariant
                i <= v@.len(),
                forall|j: int| 0 <= j < i ==> v@[j] != e,
            decreases v@.len() - i,
        {
            if v[i] == e {
                return Some(i);
            }
            i = i + 1;
        }
        None
    }

    fn set_insert(v: &mut Vec<Entity>, e: Entity)
        requires
            old(v)@.no_duplicates(),
        ensures
            final(v)@.no_duplicates(),
            final(v)@.to_set() == old(v)@.to_set().insert(e),
    {
        if Self::position(v, e).is_none() {
            let ghost s0 = v@;
            v.push(e);
            proof {
                assert forall|a: int, b: int| 0 <= a < v@.len() && 0 <= b < v@.len() && a != b implies v@[a] != v@[b] by {
                    if a < s0.len() && b < s0.len() {
                        assert(v@[a] == s0[a] && v@[b] == s0[b]);
                    } else if a < s0.len() {
                        assert(v@[a] == s0[a]);
                    } else {
                        assert(v@[b] == s0[b]);
                    }
                }
                assert forall|x: Entity| v@.to_set().contains(x) == s0.to_set().insert(e).contains(x) by {
                    if v@.contains(x) && x != e {
                        let a = choose|a: int| 0 <= a < v@.len() && v@[a] == x;
                        assert(s0[a] == x);
                    }
                    if s0.contains(x) {
                        let a = choose|a: int| 0 <= a < s0.len() && s0[a] == x;
                        assert(v@[a] == x);
                    }
                    if x == e {
                        assert(v@[s0.len() as int] == e);
                    }
                }
                assert(v@.to_set() =~= s0.to_set().insert(e));
            }
        } else {
            proof {
                assert(v@.to_set() =~= v@.to_set().insert(e));
            }
        }
    }

    fn set_remove(v: &mut Vec<Entity>, e: Entity)
        requires
            old(v)@.no_duplicates(),
        ensures
            final(v)@.no_duplicates(),
            final(v)@.to_set() == old(v)@.to_set().remove(e),
    {
        match Self::position(v, e) {
            None => {
                assert(v@.to_set() =~= v@.to_set().remove(e));
            },
            Some(i) => {
                let ghost s0 = v@;
                let _ = v.remove(i);
                proof {
                    assert forall|a: int| 0 <= a < v@.len() implies #[trigger] v@[a] == (if a < i { s0[a] } else { s0[a + 1] }) by {}
                    assert forall|a: int, b: int| 0 <= a < v@.len() && 0 <= b < v@.len() && a != b implies v@[a] != v@[b] by {
                        let a0 = if a < i { a } else { a + 1 };
                        let b0 = if b < i { b } else { b + 1 };
                        assert(v@[a] == s0[a0] && v@[b] == s0[b0]);
                    }
                    assert forall|x: Entity| v@.to_set().contains(x) == s0.to_set().remove(e).contains(x) by {
                        if v@.contains(x) {
                            let a = choose|a: int| 0 <= a < v@.len() && v@[a] == x;
                            let a0 = if a < i { a } else { a + 1 };
                            assert(s0[a0] == x);
                            assert(a0 != i);
                        }
                        if s0.contains(x) && x != e {
                            let a = choose|a: int| 0 <= a < s0.len() && s0[a] == x;
                            assert(a != i);
                            let a1 = if a < i { a } else { a - 1 };
                            assert(v@[a1] == x);
                        }
                    }
                    assert(v@.to_set() =~= s0.to_set().remove(e));
                }
            },
        }
    }

    /// Apply a single-click pick: with no modifier, select just `entity`
    /// (or clear on a miss); shift toggles `entity`; ctrl deselects it; a
    /// miss with any modifier changes nothing. `point`, when given, becomes
    /// the last pick point.
    pub fn apply_pick(&mut self, entity: Option<Entity>, point: Option<P>, modifiers: PickModifiers)
        ensures
            final(self)@ == picked(old(self)@, entity, modifiers),
            final(self).spec_last_pick() == if point is Some {
                point
            } else {
                old(self).spec_last_pick()
            },
    {
        proof {
            use_type_invariant(&*self);
        }
        let mut v: Vec<Entity> = Vec::new();
        std::mem::swap(&mut v, &mut self.entities);
        match point {
            Some(p) => {
                self.last_pick = Some(p);
            },
            None => {},
        }
        match entity {
            None => {
                if modifiers.0 == 0 {
                    v = Vec::new();
                    assert(v@.to_set() =~= Set::<Entity>::empty());
                }
            },
            Some(e) => {
                if modifiers.shift() {
                    if Self::position(&v, e).is_some() {
                        Self::set_remove(&mut v, e);
                    } else {
                        Self::set_insert(&mut v, e);
                    }
                } else if modifiers.ctrl() {
                    Self::set_remove(&mut v, e);
                } else {
                    v = Vec::new();
                    proof {
                        assert(v@.to_set() =~= Set::<Entity>::empty());
                    }
                    Self::set_insert(&mut v, e);
                }
            },
        }
        self.entities = v;
    }

    /// Apply a marquee pick of `entities`: with no modifier the selection
    /// becomes `entities`; shift adds them; ctrl removes them; alt keeps
    /// only the selected entities among them.
    pub fn apply_pick_rect(&mut self, entities: Vec<Entity>, modifiers: PickModifiers)
        ensures
            final(self)@ == rect_picked(old(self)@, entities@.to_set(), modifiers),
            final(self).spec_last_pick() == old(self).spec_last_pick(),
    {
        proof {
            use_type_invariant(&*self);
        }
        let mut v: Vec<Entity> = Vec::new();
        std::mem::swap(&mut v, &mut self.entities);
        let ghost s0 = v@.to_set();
        let ghost es = entities@.to_set();
        if modifiers.shift() || modifiers.ctrl() || !modifiers.alt() {
            let shift = modifiers.shift();
            let ctrl = modifiers.ctrl();
            if !shift && !ctrl {
                v = Vec::new();
                proof {
                    assert(v@.to_set() =~= Set::<Entity>::empty());
                }
            }
            let ghost base = v@.to_set();
            let mut i: usize = 0;
            while i < entities.len()
                invariant
                    i <= entities@.len(),
                    v@.no_duplicates(),
                    shift || !ctrl ==> v@.to_set() == base.union(entities@.subrange(0, i as int).to_set()),
                    !shift && ctrl ==> v@.to_set() == base.difference(entities@.subrange(0, i as int).to_set()),
                decreases entities@.len() - i,
            {
                let e = entities[i];
                let ghost prev = entities@.subrange(0, i as int).to_set();
                proof {
                    assert(entities@.subrange(0, i + 1) =~= entities@.subrange(0, i as int).push(e));
                    assert forall|x: Entity| entities@.subrange(0, i + 1).to_set().contains(x) == prev.insert(e).contains(x) by {
                        let sub = entities@.subrange(0, i as int);
                        let sub1 = entities@.subrange(0, i + 1);
                        if sub1.contains(x) {
                            let a = choose|a: int| 0 <= a < sub1.len() && sub1[a] == x;
                            if a < i {
                                assert(sub[a] == x);
                            }
                        }
                        if sub.contains(x) {
                            let a = choose|a: int| 0 <= a < sub.len() && sub[a] == x;
                            assert(sub1[a] == x);
                        }
                        if x == e {
                            assert(sub1[i as int] == e);
                        }
                    }
                    assert(entities@.subrange(0, i + 1).to_set() =~= prev.insert(e));
                }
                if shift || !ctrl {
                    Self::set_insert(&mut v, e);
                    proof {
                        assert(base.union(prev.insert(e)) =~= base.union(prev).insert(e));
                    }
                } else {
                    Self::set_remove(&mut v, e);
                    proof {
                        assert(base.difference(prev.insert(e)) =~= base.difference(prev).remove(e));
                    }
                }
                i = i + 1;
            }
            proof {
                assert(entities@.subrange(0, entities@.len() as int) =~= entities@);
                if !shift && !ctrl {
                    assert(base.union(es) =~= es);
                }
            }
        } else {
            let mut kept: Vec<Entity> = Vec::new();
            let mut i: usize = 0;
            while i < v.len()
                invariant
                    i <= v@.len(),
                    v@.no_duplicates(),
                    s0 == v@.to_set(),
                    kept@.no_duplicates(),
                    es == entities@.to_set(),
                    kept@.to_set() == v@.subrange(0, i as int).to_set().intersect(es),
                decreases v@.len() - i,
            {
                let e = v[i];
                let ghost prev = v@.subrange(0, i as int).to_set();
                proof {
                    assert(v@.subrange(0, i + 1) =~= v@.subrange(0, i as int).push(e));
                    assert forall|x: Entity| v@.subrange(0, i + 1).to_set().contains(x) == prev.insert(e).contains(x) by {
                        let sub = v@.subrange(0, i as int);
                        let sub1 = v@.subrange(0, i + 1);
                        if sub1.contains(x) {
                            let a = choose|a: int| 0 <= a < sub1.len() && sub1[a] == x;
                            if a < i {
                                assert(sub[a] == x);
                            }
                        }
                        if sub.contains(x) {
                            let a = choose|a: int| 0 <= a < sub.len() && sub[a] == x;
                            assert(sub1[a] == x);
                        }
                        if x == e {
                            assert(sub1[i as int] == e);
                        }
                    }
                    assert(v@.subrange(0, i + 1).to_set() =~= prev.insert(e));
                }
                if Self::position(&entities, e).is_some() {
                    Self::set_insert(&mut kept, e);
                    proof {
                        assert(prev.insert(e).intersect(es) =~= prev.intersect(es).insert(e));
                    }
                } else {
                    proof {
                        assert(prev.insert(e).intersect(es) =~= prev.intersect(es));
                    }
                }
                i = i + 1;
            }
            proof {
                assert(v@.subrange(0, v@.len() as int) =~= v@);
            }
            v = kept;
        }
        self.entities = v;
    }

    /// Whether `entity` is selected.
    pub fn contains(&self, entity: Entity) -> (r: bool)
        ensures
            r == self@.contains(entity),
    {
        Self::position(&self.entities, entity).is_some()
    }

    /// Number of selected entities.
    pub fn len(&self) -> (r: usize)
        ensures
            r == self@.len(),
    {
        proof {
            use_type_invariant(self);
            self.entities@.unique_seq_to_set();
        }
        self.entities.len()
    }

    /// Whether nothing is selected.
    pub fn is_empty(&self) -> (r: bool)
        ensures
            r == (self@.len() == 0),
    {
        proof {
            use_type_invariant(self);
            self.entities@.unique_seq_to_set();
        }
        self.entities.len() == 0
    }

    /// The point of the most recent click pick that had one.
    pub fn last_pick(&self) -> (r: &Option<P>)
        ensures
            *r == self.spec_last_pick(),
    {
        &self.last_pick
    }
}

} // verus!
