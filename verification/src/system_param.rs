use vstd::prelude::*;

use crate::entity::Entity;
use crate::resource::TypeKey;
use crate::world::World;

verus! {

/// What a system parameter touches; used for conflict detection.
#[derive(Clone, Copy, Debug, PartialEq, Eq, Structural)]
pub enum Access {
    /// Shared read of a resource.
    ResRead(TypeKey),
    /// Exclusive write of a resource.
    ResWrite(TypeKey),
    /// Shared read of a component.
    CompRead(TypeKey),
    /// Exclusive write of a component.
    CompWrite(TypeKey),
}

/// The key an access touches.
pub open spec fn access_key(a: Access) -> TypeKey {
    match a {
        Access::ResRead(k) => k,
        Access::ResWrite(k) => k,
        Access::CompRead(k) => k,
        Access::CompWrite(k) => k,
    }
}

/// Whether an access is to a resource (rather than a component).
pub open spec fn is_resource_access(a: Access) -> bool {
    a is ResRead || a is ResWrite
}

/// Whether an access writes.
pub open spec fn is_write(a: Access) -> bool {
    a is ResWrite || a is CompWrite
}

/// Two accesses conflict when they touch the same key in the same namespace
/// (resources or components) and at least one of them writes.
pub open spec fn access_conflict(a: Access, b: Access) -> bool {
    &&& is_resource_access(a) == is_resource_access(b)
    &&& access_key(a) == access_key(b)
    &&& (is_write(a) || is_write(b))
}

/// Some access of `a` conflicts with some access of `b`.
pub open spec fn sets_conflict(a: Seq<Access>, b: Seq<Access>) -> bool {
    exists|i: int, j: int| 0 <= i < a.len() && 0 <= j < b.len() && access_conflict(#[trigger] a[i], #[trigger] b[j])
}

impl Access {
    /// Returns `true` if `self` and `other` cannot safely coexist in the same
    /// system run: same key, same namespace, at least one write.
    pub fn conflicts_with(&self, other: &Access) -> (r: bool)
        ensures
            r == access_conflict(*self, *other),
    {
        match (self, other) {
            (Access::ResRead(a), Access::ResWrite(b)) => *a == *b,
            (Access::ResWrite(a), Access::ResRead(b)) => *a == *b,
            (Access::ResWrite(a), Access::ResWrite(b)) => *a == *b,
            (Access::CompRead(a), Access::CompWrite(b)) => *a == *b,
            (Access::CompWrite(a), Access::CompRead(b)) => *a == *b,
            (Access::CompWrite(a), Access::CompWrite(b)) => *a == *b,
            _ => false,
        }
    }
}

/// Returns `true` if any access in `a` conflicts with any in `b`.
pub fn has_conflicts(a: &[Access], b: &[Access]) -> (r: bool)
    ensures
        r == sets_conflict(a@, b@),
{
    let mut i: usize = 0;
    while i < a.len()
        invariant
            i <= a@.len(),
            forall|x: int, y: int| 0 <= x < i && 0 <= y < b@.len() ==> !access_conflict(#[trigger] a@[x], #[trigger] b@[y]),
        decreases a@.len() - i,
    {
        let mut j: usize = 0;
        while j < b.len()
            invariant
                i < a@.len(),
                j <= b@.len(),
                forall|x: int, y: int| 0 <= x < i && 0 <= y < b@.len() ==> !access_conflict(#[trigger] a@[x], #[trigger] b@[y]),
                forall|y: int| 0 <= y < j ==> !access_conflict(a@[i as int], #[trigger] b@[y]),
            decreases b@.len() - j,
        {
            if a[i].conflicts_with(&b[j]) {
                return true;
            }
            j = j + 1;
        }
        i = i + 1;
    }
    false
}

/// Conflict is symmetric.
pub proof fn lemma_conflict_symmetric(a: Access, b: Access)
    ensures
        access_conflict(a, b) == access_conflict(b, a),
{
}

/// Two reads never conflict.
pub proof fn lemma_reads_never_conflict(a: Access, b: Access)
    requires
        !is_write(a),
        !is_write(b),
    ensures
        !access_conflict(a, b),
{
}

/// A resource access never conflicts with a component access.
pub proof fn lemma_namespaces_independent(a: Access, b: Access)
    requires
        is_resource_access(a) != is_resource_access(b),
    ensures
        !access_conflict(a, b),
{
}

/// Writing a key conflicts with every access to the same key in the same
/// namespace, itself included.
pub proof fn lemma_write_conflicts_with_same_key(a: Access, b: Access)
    requires
        is_write(a),
        is_resource_access(a) == is_resource_access(b),
        access_key(a) == access_key(b),
    ensures
        access_conflict(a, b),
        access_conflict(a, a),
{
}

/// Conflict between access sets is symmetric.
pub proof fn lemma_sets_conflict_symmetric(a: Seq<Access>, b: Seq<Access>)
    ensures
        sets_conflict(a, b) == sets_conflict(b, a),
{
    if sets_conflict(a, b) {
        let (i, j) = choose|i: int, j: int| 0 <= i < a.len() && 0 <= j < b.len() && access_conflict(#[trigger] a[i], #[trigger] b[j]);
        assert(access_conflict(b[j], a[i]));
    }
    if sets_conflict(b, a) {
        let (i, j) = choose|i: int, j: int| 0 <= i < b.len() && 0 <= j < a.len() && access_conflict(#[trigger] b[i], #[trigger] a[j]);
        assert(access_conflict(a[j], b[i]));
    }
}

/// The key the command buffer is accessed under. Resources must use other
/// keys.
pub const COMMAND_BUFFER_KEY: TypeKey = 0xffff_ffff_ffff_ffffu64;

/// A system parameter: what a system function receives from the world.
#[derive(Clone, Copy, Debug, PartialEq, Eq, Structural)]
pub enum Param {
    /// Shared access to the resource under a key.
    Res(TypeKey),
    /// Exclusive access to the resource under a key.
    ResMut(TypeKey),
    /// Shared access to every entity's component under a key.
    Query(TypeKey),
    /// Exclusive access to every entity's component under a key.
    QueryMut(TypeKey),
    /// Reads the event buffer under a key.
    EventReader(TypeKey),
    /// Writes the event buffer under a key.
    EventWriter(TypeKey),
    /// Queues deferred commands.
    Commands,
}

/// The accesses a parameter declares.
pub open spec fn param_access(p: Param) -> Seq<Access> {
    match p {
        Param::Res(k) => seq![Access::ResRead(k)],
        Param::ResMut(k) => seq![Access::ResWrite(k)],
        Param::Query(k) => seq![Access::CompRead(k)],
        Param::QueryMut(k) => seq![Access::CompWrite(k)],
        Param::EventReader(k) => seq![Access::ResRead(k)],
        Param::EventWriter(k) => seq![Access::ResWrite(k)],
        Param::Commands => seq![Access::ResWrite(COMMAND_BUFFER_KEY)],
    }
}

/// The accesses of a parameter list, in parameter order.
pub open spec fn params_access(ps: Seq<Param>) -> Seq<Access>
    decreases ps.len(),
{
    if ps.len() == 0 {
        Seq::empty()
    } else {
        params_access(ps.drop_last()) + param_access(ps.last())
    }
}

/// A value that declares the world data it accesses.
pub trait SystemParam {
    /// Declare what world data this parameter accesses.
    fn access(&self) -> Vec<Access>;
}

impl SystemParam for Param {
    fn access(&self) -> (r: Vec<Access>)
        ensures
            r@ == param_access(*self),
    {
        let a = match self {
            Param::Res(k) => Access::ResRead(*k),
            Param::ResMut(k) => Access::ResWrite(*k),
            Param::Query(k) => Access::CompRead(*k),
            Param::QueryMut(k) => Access::CompWrite(*k),
            Param::EventReader(k) => Access::ResRead(*k),
            Param::EventWriter(k) => Access::ResWrite(*k),
            Param::Commands => Access::ResWrite(COMMAND_BUFFER_KEY),
        };
        let r = vec![a];
        proof {
            assert(r@ =~= param_access(*self));
        }
        r
    }
}

impl SystemParam for Vec<Param> {
    fn access(&self) -> (r: Vec<Access>)
        ensures
            r@ == params_access(self@),
    {
        let mut out: Vec<Access> = Vec::new();
        let mut i: usize = 0;
        while i < self.len()
            invariant
                i <= self@.len(),
                out@ == params_access(self@.subrange(0, i as int)),
            decreases self@.len() - i,
        {
            let mut part = self[i].access();
            proof {
                assert(self@.subrange(0, i + 1).drop_last() =~= self@.subrange(0, i as int));
            }
            out.append(&mut part);
            i = i + 1;
        }
        proof {
            assert(self@.subrange(0, self@.len() as int) =~= self@);
        }
        out
    }
}

/// Shared read access to a world resource.
pub struct Res<'w, V> {
    value: &'w V,
}

impl<'w, V> Res<'w, V> {
    /// The resource value.
    pub closed spec fn spec_value(&self) -> V {
        *self.value
    }

    /// Fetch the resource under `k`, which must be present.
    pub fn fetch(world: &'w World<V>, k: TypeKey) -> (r: Res<'w, V>)
        requires
            world.spec_resources().contains_key(k),
        ensures
            r.spec_value() == world.spec_resources()[k],
    {
        Res { value: world.resource(k) }
    }

    /// The resource value.
    pub fn get(&self) -> (r: &V)
        ensures
            *r == self.spec_value(),
    {
        self.value
    }
}

/// Exclusive write access to a world resource.
pub struct ResMut<'w, V> {
    pub value: &'w mut V,
}

impl<'w, V> ResMut<'w, V> {
    /// Fetch the resource under `k` mutably; it must be present. What is
    /// written through `value` is the resource's new value.
    pub fn fetch(world: &'w mut World<V>, k: TypeKey) -> (r: ResMut<'w, V>)
        requires
            old(world).spec_resources().contains_key(k),
        ensures
            *r.value == old(world).spec_resources()[k],
            final(world).spec_resources() == old(world).spec_resources().insert(k, *final(r.value)),
            final(world).same_storage(old(world)),
            final(world).spec_commands() == old(world).spec_commands(),
            final(world).spec_events() == old(world).spec_events(),
            final(world).spec_deadlines() == old(world).spec_deadlines(),
    {
        ResMut { value: world.resource_mut(k) }
    }

    /// The resource value.
    pub fn get(&self) -> (r: &V)
        ensures
            *r == *old(self.value),
    {
        self.value
    }
}

/// Shared read access to every alive entity holding a component.
pub struct Query<'w, V> {
    results: Vec<(Entity, &'w V)>,
}

impl<'w, V> Query<'w, V> {
    /// The matching `(entity, value)` pairs, in query order.
    pub closed spec fn spec_results(&self) -> Seq<(Entity, &'w V)> {
        self.results@
    }

    /// Collect every alive entity with component `k`, with its value.
    pub fn fetch(world: &'w World<V>, k: TypeKey) -> (r: Query<'w, V>)
        ensures
            r.spec_results().map_values(|p: (Entity, &V)| p.0) == world.spec_matches(seq![k], seq![]),
            forall|j: int| 0 <= j < r.spec_results().len() ==>
                *(#[trigger] r.spec_results()[j]).1 == world.spec_entities()[r.spec_results()[j].0][k].0,
    {
        Query { results: world.query(k) }
    }

    /// The matching `(entity, value)` pairs.
    pub fn iter(&self) -> (r: &[(Entity, &'w V)])
        ensures
            r@ == self.spec_results(),
    {
        self.results.as_slice()
    }

    /// Returns `true` if no entity matched.
    pub fn is_empty(&self) -> (r: bool)
        ensures
            r == (self.spec_results().len() == 0),
    {
        self.results.len() == 0
    }

    /// Returns the number of matching entities.
    pub fn len(&self) -> (r: usize)
        ensures
            r == self.spec_results().len(),
    {
        self.results.len()
    }
}

/// Exclusive access to every alive entity holding a component.
pub struct QueryMut<'w, V> {
    world: &'w mut World<V>,
    key: TypeKey,
    entities: Vec<Entity>,
}

impl<'w, V> QueryMut<'w, V> {
    /// The matching entities, in query order.
    pub closed spec fn spec_entities(&self) -> Seq<Entity> {
        self.entities@
    }

    /// The component key.
    pub closed spec fn spec_key(&self) -> TypeKey {
        self.key
    }

    /// The world being queried.
    pub closed spec fn spec_world(&self) -> World<V> {
        *self.world
    }

    /// Collect every alive entity with component `k` for mutation. Nothing
    /// is stamped here: a component's changed tick moves only when it is
    /// written through [`QueryMut::get_mut`].
    pub fn fetch(world: &'w mut World<V>, k: TypeKey) -> (r: QueryMut<'w, V>)
        ensures
            r.spec_entities() == old(world).spec_matches(seq![k], seq![]),
            r.spec_key() == k,
            r.spec_world() == *old(world),
    {
        let entities = world.query_mut(k);
        QueryMut { world, key: k, entities }
    }

    /// The matching entities.
    pub fn entities(&self) -> (r: &[Entity])
        ensures
            r@ == self.spec_entities(),
    {
        self.entities.as_slice()
    }

    /// The component of `e` mutably, if `e` is alive and has it.
    pub fn get_mut(&mut self, e: Entity) -> (r: Option<&mut V>)
        ensures
            r is Some <==> (old(self).spec_world().spec_alive(e)
                && old(self).spec_world().spec_entities()[e].contains_key(old(self).spec_key())),
            r is Some ==> *r->0 == old(self).spec_world().spec_entities()[e][old(self).spec_key()].0,
            r is Some ==> final(self).spec_world().spec_entities() == old(self).spec_world().spec_entities().insert(
                e,
                old(self).spec_world().spec_entities()[e].insert(
                    old(self).spec_key(),
                    (*final(r->0), old(self).spec_world().spec_entities()[e][old(self).spec_key()].1, old(self).spec_world().spec_tick()),
                ),
            ),
            r is None ==> final(self).spec_world().spec_entities() == old(self).spec_world().spec_entities(),
            final(self).spec_world().spec_tick() == old(self).spec_world().spec_tick(),
            final(self).spec_entities() == old(self).spec_entities(),
            final(self).spec_key() == old(self).spec_key(),
    {
        self.world.get_mut(e, self.key)
    }

    /// Returns `true` if no entity matched.
    pub fn is_empty(&self) -> (r: bool)
        ensures
            r == (self.spec_entities().len() == 0),
    {
        self.entities.len() == 0
    }

    /// Returns the number of matching entities.
    pub fn len(&self) -> (r: usize)
        ensures
            r == self.spec_entities().len(),
    {
        self.entities.len()
    }
}

} // verus!
