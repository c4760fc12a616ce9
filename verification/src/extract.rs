use vstd::prelude::*;

use crate::entity::Entity;
use crate::resource::TypeKey;
use crate::world::World;

verus! {

/// Parent id of an entity whose parent is the scene root.
pub const SCENE_ROOT: u32 = 0xffff_ffff;

/// Hierarchy depth at which the walk up the parent chain stops (a guard
/// against cycles).
pub const MAX_DEPTH: u32 = 64;

/// The component keys that frame extraction reads.
#[derive(Clone, Copy, Debug, PartialEq, Eq, Structural)]
pub struct RenderKeys {
    /// The transform: an entity with one is renderable.
    pub transform: TypeKey,
    /// The visibility flag.
    pub visibility: TypeKey,
    /// The mesh handle.
    pub mesh: TypeKey,
    /// The material handle.
    pub material: TypeKey,
    /// The parent link.
    pub parent: TypeKey,
    /// The object type.
    pub object_type: TypeKey,
    /// The instance group.
    pub instance_of: TypeKey,
    /// The tint.
    pub tint: TypeKey,
}

/// Change flag: the transform changed.
pub const CHANGED_TRANSFORM: u8 = 1;
/// Change flag: the visibility changed.
pub const CHANGED_VISIBILITY: u8 = 2;
/// Change flag: the mesh changed.
pub const CHANGED_MESH: u8 = 4;
/// Change flag: the material changed.
pub const CHANGED_MATERIAL: u8 = 8;
/// Change flag: the parent changed (or must be re-sent).
pub const CHANGED_PARENT: u8 = 16;
/// Change flag: the object type changed.
pub const CHANGED_OBJECT_TYPE: u8 = 32;
/// Change flag: the instance group changed.
pub const CHANGED_INSTANCE_GROUP: u8 = 64;
/// Change flag: the tint changed.
pub const CHANGED_TINT: u8 = 128;

/// What extraction reads of a component value: the entity that a parent
/// component points at.
pub trait RenderValue {
    /// The entity this parent component points at.
    fn parent_target(&self) -> Option<Entity>;
}

/// One renderable entity of a frame, with its resolved parent and depth.
#[derive(Clone, Copy, Debug, PartialEq, Eq, Structural)]
pub struct RenderRow {
    /// The entity.
    pub entity: Entity,
    /// The index of its parent, or [`SCENE_ROOT`].
    pub parent_id: u32,
    /// Its depth in the hierarchy: 0 under the scene root, capped at
    /// [`MAX_DEPTH`].
    pub depth: u32,
}

/// The rows of one frame with the frame's version: the world's change tick.
pub struct RenderFrame<R> {
    /// The world's change tick when the frame was extracted.
    pub frame_version: u64,
    /// The rows, parents before children.
    pub rows: Vec<R>,
}

/// An alive entity holding a transform.
pub open spec fn renderable<V>(w: World<V>, keys: RenderKeys, e: Entity) -> bool {
    w.spec_alive(e) && w.spec_entities()[e].contains_key(keys.transform)
}

/// `t` holds, for each renderable entity, what its parent component points
/// at (as `parent_target` reports it), or `None` where it has none.
pub open spec fn parents_read<V: RenderValue>(w: World<V>, keys: RenderKeys, t: Map<Entity, Option<Entity>>) -> bool {
    forall|e: Entity| #[trigger] renderable(w, keys, e) ==> {
        &&& t.contains_key(e)
        &&& if w.spec_entities()[e].contains_key(keys.parent) {
            call_ensures(V::parent_target, (&w.spec_entities()[e][keys.parent].0,), t[e])
        } else {
            t[e] is None
        }
    }
}

/// The parent of `e` as rendering sees it: the entity its parent component
/// points at, where that one is alive and has a transform.
pub open spec fn resolved_parent<V>(w: World<V>, keys: RenderKeys, t: Map<Entity, Option<Entity>>, e: Entity) -> Option<Entity> {
    match t[e] {
        Some(p) => if renderable(w, keys, p) { Some(p) } else { None },
        None => None,
    }
}

/// The number of steps up the resolved parent chain from `e`, at most `n`.
pub open spec fn chain_depth<V>(w: World<V>, keys: RenderKeys, t: Map<Entity, Option<Entity>>, e: Entity, n: nat) -> nat
    decreases n,
{
    if n == 0 {
        0
    } else {
        match resolved_parent(w, keys, t, e) {
            None => 0,
            Some(p) => 1 + chain_depth(w, keys, t, p, (n - 1) as nat),
        }
    }
}

/// The parent id of `e`: its resolved parent's index, else [`SCENE_ROOT`].
pub open spec fn parent_index<V>(w: World<V>, keys: RenderKeys, t: Map<Entity, Option<Entity>>, e: Entity) -> u32 {
    match resolved_parent(w, keys, t, e) {
        Some(p) => p.index,
        None => SCENE_ROOT,
    }
}

/// `rows` list every renderable entity once, with its parent id and depth,
/// ordered by depth (parents before children).
pub open spec fn rows_exact<V>(w: World<V>, keys: RenderKeys, t: Map<Entity, Option<Entity>>, rows: Seq<RenderRow>) -> bool {
    &&& forall|i: int| 0 <= i < rows.len() ==> renderable(w, keys, #[trigger] rows[i].entity)
    &&& forall|e: Entity| #[trigger] renderable(w, keys, e) ==> exists|i: int| 0 <= i < rows.len() && #[trigger] rows[i].entity == e
    &&& forall|i: int, j: int| 0 <= i < j < rows.len() ==> (#[trigger] rows[i]).entity != (#[trigger] rows[j]).entity
    &&& forall|i: int| 0 <= i < rows.len() ==> (#[trigger] rows[i]).parent_id == parent_index(w, keys, t, rows[i].entity)
    &&& forall|i: int| 0 <= i < rows.len() ==> (#[trigger] rows[i]).depth == chain_depth(w, keys, t, rows[i].entity, MAX_DEPTH as nat)
    &&& forall|i: int, j: int| 0 <= i < j < rows.len() ==> (#[trigger] rows[i]).depth <= (#[trigger] rows[j]).depth
}

/// The position of `e` in `es`, if it occurs.
fn position_of(es: &Vec<Entity>, e: Entity) -> (r: Option<usize>)
    ensures
        r matches Some(j) ==> j < es@.len() && es@[j as int] == e,
        r is None ==> !es@.contains(e),
{
    let mut j: usize = 0;
    while j < es.len()
        invariant
            j <= es@.len(),
            forall|k: int| 0 <= k < j ==> es@[k] != e,
        decreases es@.len() - j,
    {
        if es[j] == e {
            return Some(j);
        }
        j = j + 1;
    }
    None
}

/// The renderable entities of `world` with what their parent components
/// point at.
struct Scan {
    es: Vec<Entity>,
    targets: Vec<Option<Entity>>,
    t: Ghost<Map<Entity, Option<Entity>>>,
}

impl Scan {
    /// The scan is complete and consistent for `world`.
    spec fn wf<V: RenderValue>(&self, w: World<V>, keys: RenderKeys) -> bool {
        &&& self.es@.no_duplicates()
        &&& forall|e: Entity| #[trigger] self.es@.contains(e) <==> renderable(w, keys, e)
        &&& self.targets@.len() == self.es@.len()
        &&& forall|i: int| 0 <= i < self.es@.len() ==> self.t@[#[trigger] self.es@[i]] == self.targets@[i]
        &&& parents_read(w, keys, self.t@)
    }

    fn new<V: RenderValue>(world: &World<V>, keys: &RenderKeys) -> (s: Scan)
        ensures
            s.wf(*world, *keys),
    {
        let base = world.query(keys.transform);
        let mut es: Vec<Entity> = Vec::new();
        let mut targets: Vec<Option<Entity>> = Vec::new();
        let ghost mut t: Map<Entity, Option<Entity>> = Map::empty();
        let ghost matches = world.spec_matches(seq![keys.transform], seq![]);
        proof {
            assert(base@.map_values(|p: (Entity, &V)| p.0) == matches);
            assert forall|e: Entity| #[trigger] matches.contains(e) <==> renderable(*world, *keys, e) by {
                if matches.contains(e) {
                    assert(crate::world::keys_match(world.spec_entities()[e].dom(), seq![keys.transform], seq![]));
                    assert(seq![keys.transform][0] == keys.transform);
                }
            }
        }
        let mut i: usize = 0;
        while i < base.len()
            invariant
                i <= base@.len(),
                base@.map_values(|p: (Entity, &V)| p.0) == matches,
                matches.no_duplicates(),
                forall|e: Entity| #[trigger] matches.contains(e) <==> renderable(*world, *keys, e),
                es@ == matches.subrange(0, i as int),
                targets@.len() == i,
                forall|k: int| 0 <= k < i ==> t[#[trigger] es@[k]] == targets@[k],
                forall|e: Entity| #[trigger] t.contains_key(e) <==> es@.contains(e),
                forall|e: Entity| #[trigger] es@.contains(e) ==> {
                    if world.spec_entities()[e].contains_key(keys.parent) {
                        call_ensures(V::parent_target, (&world.spec_entities()[e][keys.parent].0,), t[e])
                    } else {
                        t[e] is None
                    }
                },
            decreases base@.len() - i,
        {
            let e = base[i].0;
            let ghost es0 = es@;
            let ghost t0 = t;
            proof {
                assert(matches[i as int] == e);
                assert(matches.contains(e));
            }
            let target = match world.get(e, keys.parent) {
                Some(v) => v.parent_target(),
                None => None,
            };
            proof {
                assert(!es@.contains(e)) by {
                    if es@.contains(e) {
                        let k = choose|k: int| 0 <= k < es@.len() && es@[k] == e;
                        assert(matches[k] == matches[i as int]);
                    }
                }
                t = t.insert(e, target);
            }
            es.push(e);
            targets.push(target);
            proof {
                assert(es@ =~= matches.subrange(0, i + 1));
                assert(es@ =~= es0.push(e));
                assert forall|x: Entity| #[trigger] es@.contains(x) implies {
                    if world.spec_entities()[x].contains_key(keys.parent) {
                        call_ensures(V::parent_target, (&world.spec_entities()[x][keys.parent].0,), t[x])
                    } else {
                        t[x] is None
                    }
                } by {
                    if x != e {
                        let k = choose|k: int| 0 <= k < es@.len() && es@[k] == x;
                        assert(k < es0.len());
                        assert(es0[k] == x);
                        assert(es0.contains(x));
                        assert(t[x] == t0[x]);
                    }
                }
                assert forall|x: Entity| #[trigger] t.contains_key(x) <==> es@.contains(x) by {
                    if es@.contains(x) && x != e {
                        let k = choose|k: int| 0 <= k < es@.len() && es@[k] == x;
                        assert(es0[k] == x);
                        assert(es0.contains(x));
                    }
                    if t.contains_key(x) && x != e {
                        assert(t0.contains_key(x));
                        let k = choose|k: int| 0 <= k < es0.len() && es0[k] == x;
                        assert(es@[k] == x);
                    }
                    if x == e {
                        assert(es@[i as int] == e);
                    }
                }
                assert forall|k: int| 0 <= k < i + 1 implies t[#[trigger] es@[k]] == targets@[k] by {
                    if k < i {
                        assert(es@[k] != e);
                    }
                }
            }
            i = i + 1;
        }
        proof {
            assert(base@.map_values(|p: (Entity, &V)| p.0).len() == base@.len());
            assert(es@ =~= matches);
        }
        Scan { es, targets, t: Ghost(t) }
    }

    /// The position in the scan of the resolved parent of the entity at `i`.
    fn resolve<V: RenderValue>(&self, world: &World<V>, keys: &RenderKeys, i: usize) -> (r: Option<usize>)
        requires
            self.wf(*world, *keys),
            i < self.es@.len(),
        ensures
            match resolved_parent(*world, *keys, self.t@, self.es@[i as int]) {
                Some(p) => r matches Some(j) && j < self.es@.len() && self.es@[j as int] == p,
                None => r is None,
            },
    {
        match self.targets[i] {
            None => None,
            Some(p) => {
                if world.get(p, keys.transform).is_none() {
                    return None;
                }
                proof {
                    assert(renderable(*world, *keys, p));
                }
                position_of(&self.es, p)
            },
        }
    }

    /// The depth of the entity at `i`.
    fn depth<V: RenderValue>(&self, world: &World<V>, keys: &RenderKeys, i: usize) -> (d: u32)
        requires
            self.wf(*world, *keys),
            i < self.es@.len(),
        ensures
            d == chain_depth(*world, *keys, self.t@, self.es@[i as int], MAX_DEPTH as nat),
    {
        let mut d: u32 = 0;
        let mut cur: usize = i;
        while d < MAX_DEPTH
            invariant_except_break
                d <= MAX_DEPTH,
                cur < self.es@.len(),
                self.wf(*world, *keys),
                chain_depth(*world, *keys, self.t@, self.es@[i as int], MAX_DEPTH as nat)
                    == d + chain_depth(*world, *keys, self.t@, self.es@[cur as int], (MAX_DEPTH - d) as nat),
            ensures
                d == chain_depth(*world, *keys, self.t@, self.es@[i as int], MAX_DEPTH as nat),
            decreases MAX_DEPTH - d,
        {
            match self.resolve(world, keys, cur) {
                None => {
                    break;
                },
                Some(j) => {
                    d = d + 1;
                    cur = j;
                },
            }
        }
        d
    }
}

/// Every renderable entity of `world` (alive, with a transform), each
/// once, with its parent id (the index of the entity its parent component
/// points at where that one is renderable, else [`SCENE_ROOT`]) and its
/// depth up the parent chain (capped at [`MAX_DEPTH`]); ordered by depth,
/// so parents come before their children, and in query order within a
/// depth.
pub fn extract_rows<V: RenderValue>(world: &World<V>, keys: &RenderKeys) -> (r: RenderFrame<RenderRow>)
    ensures
        r.frame_version == world.spec_tick(),
        exists|t: Map<Entity, Option<Entity>>| parents_read(*world, *keys, t) && rows_exact(*world, *keys, t, r.rows@),
{
    let scan = Scan::new(world, keys);
    let n = scan.es.len();
    let mut depths: Vec<u32> = Vec::new();
    let mut parents: Vec<u32> = Vec::new();
    let mut i: usize = 0;
    while i < n
        invariant
            n == scan.es@.len(),
            scan.wf(*world, *keys),
            i <= n,
            depths@.len() == i,
            parents@.len() == i,
            forall|k: int| 0 <= k < i ==> #[trigger] depths@[k] == chain_depth(*world, *keys, scan.t@, scan.es@[k], MAX_DEPTH as nat),
            forall|k: int| 0 <= k < i ==> #[trigger] parents@[k] == parent_index(*world, *keys, scan.t@, scan.es@[k]),
        decreases n - i,
    {
        let d = scan.depth(world, keys, i);
        let p = match scan.resolve(world, keys, i) {
            Some(j) => scan.es[j].index,
            None => SCENE_ROOT,
        };
        depths.push(d);
        parents.push(p);
        i = i + 1;
    }
    let ghost t = scan.t@;
    let ghost es = scan.es@;
    proof {
        assert forall|k: int| 0 <= k < n implies #[trigger] depths@[k] <= MAX_DEPTH by {
            lemma_chain_depth_bound(*world, *keys, t, es[k], MAX_DEPTH as nat);
        }
    }
    // Stable bucket order by depth.
    let mut out: Vec<RenderRow> = Vec::new();
    let ghost mut src: Seq<int> = Seq::empty();
    let mut d: u32 = 0;
    while d <= MAX_DEPTH
        invariant
            n == es.len(),
            es == scan.es@,
            t == scan.t@,
            scan.wf(*world, *keys),
            depths@.len() == n,
            parents@.len() == n,
            d <= MAX_DEPTH + 1,
            forall|k: int| 0 <= k < n ==> #[trigger] depths@[k] <= MAX_DEPTH,
            forall|k: int| 0 <= k < n ==> #[trigger] depths@[k] == chain_depth(*world, *keys, t, es[k], MAX_DEPTH as nat),
            forall|k: int| 0 <= k < n ==> #[trigger] parents@[k] == parent_index(*world, *keys, t, es[k]),
            src.len() == out@.len(),
            forall|a: int| 0 <= a < src.len() ==> 0 <= #[trigger] src[a] < n && depths@[src[a]] < d,
            forall|a: int| 0 <= a < src.len() ==> (#[trigger] out@[a]) == (RenderRow { entity: es[src[a]], parent_id: parents@[src[a]], depth: depths@[src[a]] }),
            forall|a: int, b: int| 0 <= a < b < src.len() ==> depths@[#[trigger] src[a]] < depths@[#[trigger] src[b]]
                || (depths@[src[a]] == depths@[src[b]] && src[a] < src[b]),
            forall|k: int| 0 <= k < n && #[trigger] depths@[k] < d ==> exists|a: int| 0 <= a < src.len() && src[a] == k,
        decreases MAX_DEPTH + 1 - d,
    {
        let mut k: usize = 0;
        let ghost before = src.len();
        while k < n
            invariant
                n == es.len(),
                es == scan.es@,
                depths@.len() == n,
                parents@.len() == n,
                d <= MAX_DEPTH,
                k <= n,
                before <= src.len(),
                src.len() == out@.len(),
                forall|a: int| 0 <= a < before ==> 0 <= #[trigger] src[a] < n && depths@[src[a]] < d,
                forall|a: int| before <= a < src.len() ==> 0 <= #[trigger] src[a] < k && depths@[src[a]] == d,
                forall|a: int| 0 <= a < src.len() ==> (#[trigger] out@[a]) == (RenderRow { entity: es[src[a]], parent_id: parents@[src[a]], depth: depths@[src[a]] }),
                forall|a: int, b: int| 0 <= a < b < src.len() ==> depths@[#[trigger] src[a]] < depths@[#[trigger] src[b]]
                    || (depths@[src[a]] == depths@[src[b]] && src[a] < src[b]),
                forall|j: int| 0 <= j < n && #[trigger] depths@[j] < d ==> exists|a: int| 0 <= a < before && src[a] == j,
                forall|j: int| 0 <= j < k && #[trigger] depths@[j] == d ==> exists|a: int| before <= a < src.len() && src[a] == j,
            decreases n - k,
        {
            let ghost src0 = src;
            if depths[k] == d {
                out.push(RenderRow { entity: scan.es[k], parent_id: parents[k], depth: depths[k] });
                proof {
                    src = src.push(k as int);
                }
            }
            proof {
                assert forall|j: int| 0 <= j < n && #[trigger] depths@[j] < d implies exists|a: int| 0 <= a < before && src[a] == j by {
                    let a = choose|a: int| 0 <= a < before && src0[a] == j;
                    assert(src[a] == j);
                }
                assert forall|j: int| 0 <= j < k + 1 && #[trigger] depths@[j] == d implies exists|a: int| before <= a < src.len() && src[a] == j by {
                    if j < k {
                        let a = choose|a: int| before <= a < src0.len() && src0[a] == j;
                        assert(src[a] == j);
                    } else {
                        assert(src[src.len() - 1] == j);
                    }
                }
            }
            k = k + 1;
        }
        proof {
            assert forall|j: int| 0 <= j < n && #[trigger] depths@[j] < d + 1 implies exists|a: int| 0 <= a < src.len() && src[a] == j by {
                if depths@[j] < d {
                    let a = choose|a: int| 0 <= a < before && src[a] == j;
                } else {
                    let a = choose|a: int| before <= a < src.len() && src[a] == j;
                }
            }
        }
        d = d + 1;
    }
    proof {
        let rows = out@;
        assert forall|a: int, b: int| 0 <= a < b < rows.len() implies (#[trigger] rows[a]).entity != (#[trigger] rows[b]).entity by {
            assert(src[a] != src[b]);
            assert(es.no_duplicates());
        }
        assert forall|e: Entity| #[trigger] renderable(*world, *keys, e) implies exists|a: int| 0 <= a < rows.len() && #[trigger] rows[a].entity == e by {
            assert(es.contains(e));
            let k = choose|k: int| 0 <= k < es.len() && es[k] == e;
            assert(depths@[k] < d);
            let a = choose|a: int| 0 <= a < src.len() && src[a] == k;
            assert(rows[a].entity == e);
        }
        assert forall|a: int| 0 <= a < rows.len() implies renderable(*world, *keys, #[trigger] rows[a].entity) by {
            assert(es.contains(es[src[a]]));
        }
        assert(rows_exact(*world, *keys, t, rows));
    }
    RenderFrame { frame_version: world.change_tick(), rows: out }
}

/// A chain depth never exceeds the number of steps allowed.
proof fn lemma_chain_depth_bound<V>(w: World<V>, keys: RenderKeys, t: Map<Entity, Option<Entity>>, e: Entity, n: nat)
    ensures
        chain_depth(w, keys, t, e, n) <= n,
    decreases n,
{
    if n > 0 {
        if let Some(p) = resolved_parent(w, keys, t, e) {
            lemma_chain_depth_bound(w, keys, t, p, (n - 1) as nat);
        }
    }
}

/// Component `k` of `e` changed after tick `since`.
pub open spec fn changed_since<V>(w: World<V>, e: Entity, k: TypeKey, since: u64) -> bool {
    w.spec_entities()[e].contains_key(k) && w.spec_entities()[e][k].2 > since
}

/// Component `k` of `e` was added after tick `since`.
pub open spec fn added_since<V>(w: World<V>, e: Entity, k: TypeKey, since: u64) -> bool {
    w.spec_entities()[e].contains_key(k) && w.spec_entities()[e][k].1 > since
}

/// The parent component of `e` points at no renderable entity, or at one
/// whose transform was added after `since` (so the link must be re-sent).
pub open spec fn parent_needs_resend<V>(w: World<V>, keys: RenderKeys, t: Map<Entity, Option<Entity>>, since: u64, e: Entity) -> bool {
    w.spec_entities()[e].contains_key(keys.parent) && match t[e] {
        Some(p) => !renderable(w, keys, p) || added_since(w, p, keys.transform, since),
        None => true,
    }
}

/// When a parent becomes renderable, its renderable children are re-sent:
/// a renderable entity whose parent component points at a renderable entity
/// that got its transform after `since` is in the incremental frame since
/// `since`, whatever else changed or did not.
pub proof fn lemma_child_resent_when_parent_gets_transform<V: RenderValue>(
    w: World<V>,
    keys: RenderKeys,
    t: Map<Entity, Option<Entity>>,
    since: u64,
    e: Entity,
    p: Entity,
    rows: Seq<(RenderRow, u8)>,
)
    requires
        parents_read(w, keys, t),
        renderable(w, keys, e),
        w.spec_entities()[e].contains_key(keys.parent),
        t[e] == Some(p),
        renderable(w, keys, p),
        w.spec_entities()[p][keys.transform].1 > since,
    ensures
        incremental_member(w, keys, t, since, e),
        incremental_exact(w, keys, t, since, rows) ==> exists|i: int| 0 <= i < rows.len() && rows[i].0.entity == e,
{
}

/// Component `k` of `e` was removed after tick `since`.
pub open spec fn removed_since<V>(w: World<V>, e: Entity, k: TypeKey, since: u64) -> bool {
    crate::world::removed_after(w.spec_removals(), e, k, since)
}

/// Component `k` of `e` changed or was removed after tick `since`.
pub open spec fn touched_since<V>(w: World<V>, e: Entity, k: TypeKey, since: u64) -> bool {
    changed_since(w, e, k, since) || removed_since(w, e, k, since)
}

/// A renderable entity that an incremental frame since `since` carries:
/// its transform changed, its object type, parent, instance group or tint
/// changed or was removed, or its parent link must be re-sent.
pub open spec fn incremental_member<V>(w: World<V>, keys: RenderKeys, t: Map<Entity, Option<Entity>>, since: u64, e: Entity) -> bool {
    &&& renderable(w, keys, e)
    &&& {
        ||| changed_since(w, e, keys.transform, since)
        ||| touched_since(w, e, keys.object_type, since)
        ||| touched_since(w, e, keys.parent, since)
        ||| touched_since(w, e, keys.instance_of, since)
        ||| touched_since(w, e, keys.tint, since)
        ||| parent_needs_resend(w, keys, t, since, e)
    }
}

/// `bit` where `b` holds, else 0.
pub open spec fn bit_if(b: bool, bit: u8) -> int {
    if b { bit as int } else { 0 }
}

/// The change flags of `e` since `since`: one bit per component whose
/// changed tick is after `since`, the object type, parent, instance group
/// and tint bits also where that component was removed after `since`; the
/// parent bit also where the entity has a parent component and no
/// renderable parent (parent id [`SCENE_ROOT`]), or has no parent
/// component and its transform was added after `since`.
pub open spec fn change_flags<V>(w: World<V>, keys: RenderKeys, t: Map<Entity, Option<Entity>>, since: u64, e: Entity) -> int {
    let has_parent = w.spec_entities()[e].contains_key(keys.parent);
    bit_if(changed_since(w, e, keys.transform, since), CHANGED_TRANSFORM)
        + bit_if(changed_since(w, e, keys.visibility, since), CHANGED_VISIBILITY)
        + bit_if(changed_since(w, e, keys.mesh, since), CHANGED_MESH)
        + bit_if(changed_since(w, e, keys.material, since), CHANGED_MATERIAL)
        + bit_if(
            removed_since(w, e, keys.parent, since)
                || (has_parent && (changed_since(w, e, keys.parent, since) || parent_index(w, keys, t, e) == SCENE_ROOT))
                || (!has_parent && added_since(w, e, keys.transform, since)),
            CHANGED_PARENT,
        )
        + bit_if(touched_since(w, e, keys.object_type, since), CHANGED_OBJECT_TYPE)
        + bit_if(touched_since(w, e, keys.instance_of, since), CHANGED_INSTANCE_GROUP)
        + bit_if(touched_since(w, e, keys.tint, since), CHANGED_TINT)
}

/// `rows` list every entity an incremental frame since `since` carries,
/// once each, with parent id, depth and change flags, ordered by depth.
pub open spec fn incremental_exact<V>(w: World<V>, keys: RenderKeys, t: Map<Entity, Option<Entity>>, since: u64, rows: Seq<(RenderRow, u8)>) -> bool {
    &&& forall|i: int| 0 <= i < rows.len() ==> incremental_member(w, keys, t, since, #[trigger] rows[i].0.entity)
    &&& forall|e: Entity| #[trigger] incremental_member(w, keys, t, since, e) ==> exists|i: int| 0 <= i < rows.len() && #[trigger] rows[i].0.entity == e
    &&& forall|i: int, j: int| 0 <= i < j < rows.len() ==> (#[trigger] rows[i]).0.entity != (#[trigger] rows[j]).0.entity
    &&& forall|i: int| 0 <= i < rows.len() ==> (#[trigger] rows[i]).0.parent_id == parent_index(w, keys, t, rows[i].0.entity)
    &&& forall|i: int| 0 <= i < rows.len() ==> (#[trigger] rows[i]).0.depth == chain_depth(w, keys, t, rows[i].0.entity, MAX_DEPTH as nat)
    &&& forall|i: int| 0 <= i < rows.len() ==> (#[trigger] rows[i]).1 == change_flags(w, keys, t, since, rows[i].0.entity)
    &&& forall|i: int, j: int| 0 <= i < j < rows.len() ==> (#[trigger] rows[i]).0.depth <= (#[trigger] rows[j]).0.depth
}

/// Whether component `k` of `e` changed after `since`.
fn changed<V>(world: &World<V>, e: Entity, k: TypeKey, since: u64) -> (r: bool)
    requires
        world.spec_alive(e),
    ensures
        r == changed_since(*world, e, k, since),
{
    match world.get_with_ticks(e, k) {
        Some(c) => c.2 > since,
        None => false,
    }
}

/// Whether component `k` of `e` was added after `since`.
fn added<V>(world: &World<V>, e: Entity, k: TypeKey, since: u64) -> (r: bool)
    requires
        world.spec_alive(e),
    ensures
        r == added_since(*world, e, k, since),
{
    match world.get_with_ticks(e, k) {
        Some(c) => c.1 > since,
        None => false,
    }
}

impl Scan {
    /// Whether the entity at `i` belongs to an incremental frame since
    /// `since`, and its change flags.
    fn incremental_entry<V: RenderValue>(&self, world: &World<V>, keys: &RenderKeys, since: u64, i: usize) -> (r: (bool, u8))
        requires
            self.wf(*world, *keys),
            i < self.es@.len(),
        ensures
            r.0 == incremental_member(*world, *keys, self.t@, since, self.es@[i as int]),
            r.1 == change_flags(*world, *keys, self.t@, since, self.es@[i as int]),
    {
        let e = self.es[i];
        proof {
            assert(self.es@.contains(e));
            assert(renderable(*world, *keys, e));
        }
        let has_parent = world.get(e, keys.parent).is_some();
        let resend = if !has_parent {
            false
        } else {
            match self.targets[i] {
                None => true,
                Some(p) => match world.get_with_ticks(p, keys.transform) {
                    None => true,
                    Some(c) => c.1 > since,
                },
            }
        };
        let c_transform = changed(world, e, keys.transform, since);
        let c_object = changed(world, e, keys.object_type, since) || world.removed_since(e, keys.object_type, since);
        let c_parent = changed(world, e, keys.parent, since);
        let r_parent = world.removed_since(e, keys.parent, since);
        let c_instance = changed(world, e, keys.instance_of, since) || world.removed_since(e, keys.instance_of, since);
        let c_tint = changed(world, e, keys.tint, since) || world.removed_since(e, keys.tint, since);
        let member = c_transform || c_object || c_parent || r_parent || c_instance || c_tint || resend;
        let parent_id = match self.resolve(world, keys, i) {
            Some(j) => self.es[j].index,
            None => SCENE_ROOT,
        };
        let parent_bit = r_parent || (has_parent && (c_parent || parent_id == SCENE_ROOT))
            || (!has_parent && added(world, e, keys.transform, since));
        let mut flags: u8 = 0;
        if c_transform {
            flags = flags + CHANGED_TRANSFORM;
        }
        if changed(world, e, keys.visibility, since) {
            flags = flags + CHANGED_VISIBILITY;
        }
        if changed(world, e, keys.mesh, since) {
            flags = flags + CHANGED_MESH;
        }
        if changed(world, e, keys.material, since) {
            flags = flags + CHANGED_MATERIAL;
        }
        if parent_bit {
            flags = flags + CHANGED_PARENT;
        }
        if c_object {
            flags = flags + CHANGED_OBJECT_TYPE;
        }
        if c_instance {
            flags = flags + CHANGED_INSTANCE_GROUP;
        }
        if c_tint {
            flags = flags + CHANGED_TINT;
        }
        (member, flags)
    }
}

/// The entities an incremental frame since `since_tick` carries (see
/// [`incremental_member`]), each once, with parent id, depth and change
/// flags (see [`change_flags`]); ordered by depth, parents first, and in
/// query order within a depth.
pub fn extract_rows_incremental<V: RenderValue>(world: &World<V>, keys: &RenderKeys, since_tick: u64) -> (r: RenderFrame<(RenderRow, u8)>)
    ensures
        r.frame_version == world.spec_tick(),
        exists|t: Map<Entity, Option<Entity>>| parents_read(*world, *keys, t) && incremental_exact(*world, *keys, t, since_tick, r.rows@),
{
    let scan = Scan::new(world, keys);
    let n = scan.es.len();
    let mut depths: Vec<u32> = Vec::new();
    let mut parents: Vec<u32> = Vec::new();
    let mut keep: Vec<bool> = Vec::new();
    let mut flags: Vec<u8> = Vec::new();
    let mut i: usize = 0;
    while i < n
        invariant
            n == scan.es@.len(),
            scan.wf(*world, *keys),
            i <= n,
            depths@.len() == i,
            parents@.len() == i,
            keep@.len() == i,
            flags@.len() == i,
            forall|k: int| 0 <= k < i ==> #[trigger] depths@[k] == chain_depth(*world, *keys, scan.t@, scan.es@[k], MAX_DEPTH as nat),
            forall|k: int| 0 <= k < i ==> #[trigger] parents@[k] == parent_index(*world, *keys, scan.t@, scan.es@[k]),
            forall|k: int| 0 <= k < i ==> #[trigger] keep@[k] == incremental_member(*world, *keys, scan.t@, since_tick, scan.es@[k]),
            forall|k: int| 0 <= k < i ==> #[trigger] flags@[k] == change_flags(*world, *keys, scan.t@, since_tick, scan.es@[k]),
        decreases n - i,
    {
        let d = scan.depth(world, keys, i);
        let p = match scan.resolve(world, keys, i) {
            Some(j) => scan.es[j].index,
            None => SCENE_ROOT,
        };
        let (m, f) = scan.incremental_entry(world, keys, since_tick, i);
        depths.push(d);
        parents.push(p);
        keep.push(m);
        flags.push(f);
        i = i + 1;
    }
    let ghost t = scan.t@;
    let ghost es = scan.es@;
    proof {
        assert forall|k: int| 0 <= k < n implies #[trigger] depths@[k] <= MAX_DEPTH by {
            lemma_chain_depth_bound(*world, *keys, t, es[k], MAX_DEPTH as nat);
        }
    }
    let mut out: Vec<(RenderRow, u8)> = Vec::new();
    let ghost mut src: Seq<int> = Seq::empty();
    let mut d: u32 = 0;
    while d <= MAX_DEPTH
        invariant
            n == es.len(),
            es == scan.es@,
            t == scan.t@,
            scan.wf(*world, *keys),
            depths@.len() == n,
            parents@.len() == n,
            keep@.len() == n,
            flags@.len() == n,
            d <= MAX_DEPTH + 1,
            forall|k: int| 0 <= k < n ==> #[trigger] depths@[k] <= MAX_DEPTH,
            src.len() == out@.len(),
            forall|a: int| 0 <= a < src.len() ==> 0 <= #[trigger] src[a] < n && depths@[src[a]] < d && keep@[src[a]],
            forall|a: int| 0 <= a < src.len() ==> (#[trigger] out@[a]) == (RenderRow { entity: es[src[a]], parent_id: parents@[src[a]], depth: depths@[src[a]] }, flags@[src[a]]),
            forall|a: int, b: int| 0 <= a < b < src.len() ==> depths@[#[trigger] src[a]] < depths@[#[trigger] src[b]]
                || (depths@[src[a]] == depths@[src[b]] && src[a] < src[b]),
            forall|k: int| 0 <= k < n && #[trigger] depths@[k] < d && keep@[k] ==> exists|a: int| 0 <= a < src.len() && src[a] == k,
        decreases MAX_DEPTH + 1 - d,
    {
        let mut k: usize = 0;
        let ghost before = src.len();
        while k < n
            invariant
                n == es.len(),
                es == scan.es@,
                depths@.len() == n,
                parents@.len() == n,
                keep@.len() == n,
                flags@.len() == n,
                d <= MAX_DEPTH,
                k <= n,
                before <= src.len(),
                src.len() == out@.len(),
                forall|a: int| 0 <= a < before ==> 0 <= #[trigger] src[a] < n && depths@[src[a]] < d && keep@[src[a]],
                forall|a: int| before <= a < src.len() ==> 0 <= #[trigger] src[a] < k && depths@[src[a]] == d && keep@[src[a]],
                forall|a: int| 0 <= a < src.len() ==> (#[trigger] out@[a]) == (RenderRow { entity: es[src[a]], parent_id: parents@[src[a]], depth: depths@[src[a]] }, flags@[src[a]]),
                forall|a: int, b: int| 0 <= a < b < src.len() ==> depths@[#[trigger] src[a]] < depths@[#[trigger] src[b]]
                    || (depths@[src[a]] == depths@[src[b]] && src[a] < src[b]),
                forall|j: int| 0 <= j < n && #[trigger] depths@[j] < d && keep@[j] ==> exists|a: int| 0 <= a < before && src[a] == j,
                forall|j: int| 0 <= j < k && #[trigger] depths@[j] == d && keep@[j] ==> exists|a: int| before <= a < src.len() && src[a] == j,
            decreases n - k,
        {
            let ghost src0 = src;
            if keep[k] && depths[k] == d {
                out.push((RenderRow { entity: scan.es[k], parent_id: parents[k], depth: depths[k] }, flags[k]));
                proof {
                    src = src.push(k as int);
                }
            }
            proof {
                assert forall|j: int| 0 <= j < n && #[trigger] depths@[j] < d && keep@[j] implies exists|a: int| 0 <= a < before && src[a] == j by {
                    let a = choose|a: int| 0 <= a < before && src0[a] == j;
                    assert(src[a] == j);
                }
                assert forall|j: int| 0 <= j < k + 1 && #[trigger] depths@[j] == d && keep@[j] implies exists|a: int| before <= a < src.len() && src[a] == j by {
                    if j < k {
                        let a = choose|a: int| before <= a < src0.len() && src0[a] == j;
                        assert(src[a] == j);
                    } else {
                        assert(src[src.len() - 1] == j);
                    }
                }
            }
            k = k + 1;
        }
        proof {
            assert forall|j: int| 0 <= j < n && #[trigger] depths@[j] < d + 1 && keep@[j] implies exists|a: int| 0 <= a < src.len() && src[a] == j by {
                if depths@[j] < d {
                    let a = choose|a: int| 0 <= a < before && src[a] == j;
                } else {
                    let a = choose|a: int| before <= a < src.len() && src[a] == j;
                }
            }
        }
        d = d + 1;
    }
    proof {
        let rows = out@;
        assert forall|a: int, b: int| 0 <= a < b < rows.len() implies (#[trigger] rows[a]).0.entity != (#[trigger] rows[b]).0.entity by {
            assert(src[a] != src[b]);
            assert(es.no_duplicates());
        }
        assert forall|e: Entity| #[trigger] incremental_member(*world, *keys, t, since_tick, e) implies exists|a: int| 0 <= a < rows.len() && #[trigger] rows[a].0.entity == e by {
            assert(es.contains(e));
            let k = choose|k: int| 0 <= k < es.len() && es[k] == e;
            assert(depths@[k] < d);
            assert(keep@[k]);
            let a = choose|a: int| 0 <= a < src.len() && src[a] == k;
            assert(rows[a].0.entity == e);
        }
        assert(incremental_exact(*world, *keys, t, since_tick, rows));
    }
    RenderFrame { frame_version: world.change_tick(), rows: out }
}

} // verus!
