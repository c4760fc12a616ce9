use vstd::prelude::*;

use crate::function_system::{no_self_conflicts, validate_no_self_conflicts, System};
use crate::system_param::Access;
use crate::world::{drained_at, events_advanced, World};

verus! {

/// The positions among the first `n` entries whose stage is `stage`, in
/// order.
pub open spec fn stage_members(entries: Seq<Seq<char>>, stage: Seq<char>, n: int) -> Seq<int>
    decreases n,
{
    if n <= 0 {
        Seq::empty()
    } else if entries[n - 1] == stage {
        stage_members(entries, stage, n - 1).push(n - 1)
    } else {
        stage_members(entries, stage, n - 1)
    }
}

/// The order in which systems run: stage by stage in stage order, and
/// within a stage in registration order.
pub open spec fn run_order(stages: Seq<Seq<char>>, entries: Seq<Seq<char>>) -> Seq<int>
    decreases stages.len(),
{
    if stages.len() == 0 {
        Seq::empty()
    } else {
        run_order(stages.drop_last(), entries) + stage_members(entries, stages.last(), entries.len() as int)
    }
}

/// What one tick runs, in order: for each stage in stage order, its
/// systems (by registration position) in registration order, then the
/// application of the queued commands (`None`).
pub open spec fn run_steps(stages: Seq<Seq<char>>, entries: Seq<Seq<char>>) -> Seq<Option<int>>
    decreases stages.len(),
{
    if stages.len() == 0 {
        Seq::empty()
    } else {
        run_steps(stages.drop_last(), entries) + stage_members(entries, stages.last(), entries.len() as int).map_values(
            |x: int| Some(x),
        ) + seq![None::<int>]
    }
}

/// One step of a tick took `w0` to `w1`: system `i` (as it was when the
/// tick began) ran, or the queued commands were applied.
pub open spec fn step_done<V>(systems: Seq<Box<dyn System<V>>>, step: Option<int>, w0: World<V>, w1: World<V>) -> bool {
    match step {
        Some(i) => systems[i].ran(w0, w1),
        None => World::commands_flushed(w0, w1),
    }
}

/// `w1` is `w0` with its due deadlines fired (at the world clock's time,
/// where the world has a clock) and its event buffers then advanced;
/// nothing else changed.
pub open spec fn tick_prepared<V>(w0: World<V>, w1: World<V>) -> bool {
    &&& w1.same_storage(&w0)
    &&& w1.spec_resources() == w0.spec_resources()
    &&& w1.spec_commands() == w0.spec_commands()
    &&& w1.spec_registered_events() == w0.spec_registered_events()
    &&& exists|w: World<V>| {
        &&& (if w0.spec_has_clock() {
            exists|now: i64| drained_at(
                w0.spec_deadlines(),
                w0.spec_events(),
                w.spec_deadlines(),
                w.spec_events(),
                w0.spec_deadlines().dom(),
                now,
            )
        } else {
            w.spec_deadlines() == w0.spec_deadlines() && w.spec_events() == w0.spec_events()
        })
        &&& w1.spec_deadlines() == w.spec_deadlines()
        &&& events_advanced(w.spec_events(), w1.spec_events())
    }
}

impl<V> Schedule<V> {
    /// One tick of `sched` took `w0` to `w1`: the world was prepared (due
    /// deadlines fired, event buffers advanced), then each stage ran in
    /// stage order, its systems in registration order (each as it was
    /// before the tick), followed by the application of the queued
    /// commands.
    pub open spec fn tick_ran(sched: Schedule<V>, w0: World<V>, w1: World<V>) -> bool {
        exists|ws: Seq<World<V>>| {
            let steps = run_steps(sched.spec_stages(), sched.spec_system_stages());
            &&& ws.len() == steps.len() + 1
            &&& #[trigger] tick_prepared(w0, ws[0])
            &&& ws.last() == w1
            &&& forall|j: int| 0 <= j < steps.len() ==>
                step_done(sched.spec_systems(), #[trigger] steps[j], ws[j], ws[j + 1])
        }
    }
}

/// A registered system.
#[verifier::reject_recursive_types(V)]
struct SystemSlot<V> {
    system: Box<dyn System<V>>,
}

impl<V> SystemSlot<V> {
    /// A slot holding `system`.
    fn new<S: System<V> + 'static>(system: S) -> (r: SystemSlot<V>) {
        SystemSlot { system: Box::new(system) }
    }
}

/// The stage bookkeeping of a schedule.
struct StagePlan {
    /// Stage names in first-registration order.
    stage_order: Vec<String>,
    /// The stage of each registered system, in registration order.
    system_stages: Vec<String>,
}

impl StagePlan {
    spec fn stages(&self) -> Seq<Seq<char>> {
        self.stage_order@.map_values(|s: String| s@)
    }

    spec fn members(&self) -> Seq<Seq<char>> {
        self.system_stages@.map_values(|s: String| s@)
    }

    /// Stage names are distinct and are exactly the stages of the systems.
    spec fn wf(&self) -> bool {
        &&& self.stages().no_duplicates()
        &&& forall|s: Seq<char>| #[trigger] self.stages().contains(s) <==> self.members().contains(s)
    }

    fn new() -> (r: StagePlan)
        ensures
            r.wf(),
            r.stages() == Seq::<Seq<char>>::empty(),
            r.members() == Seq::<Seq<char>>::empty(),
    {
        let r = StagePlan { stage_order: Vec::new(), system_stages: Vec::new() };
        proof {
            assert(r.stages() =~= Seq::<Seq<char>>::empty());
            assert(r.members() =~= Seq::<Seq<char>>::empty());
        }
        r
    }

    /// Record one more system in `stage`.
    fn add(&mut self, stage: String)
        requires
            old(self).wf(),
        ensures
            final(self).wf(),
            final(self).members() == old(self).members().push(stage@),
            final(self).stages() == if old(self).stages().contains(stage@) {
                old(self).stages()
            } else {
                old(self).stages().push(stage@)
            },
    {
        let mut known = false;
        let mut i: usize = 0;
        while i < self.stage_order.len()
            invariant
                i <= self.stage_order@.len(),
                known == exists|j: int| 0 <= j < i && self.stage_order@[j]@ == stage@,
            decreases self.stage_order@.len() - i,
        {
            if self.stage_order[i] == stage {
                known = true;
            }
            i = i + 1;
        }
        let ghost st0 = self.stages();
        let ghost sy0 = self.members();
        proof {
            assert(known == st0.contains(stage@)) by {
                if known {
                    let j = choose|j: int| 0 <= j < i && self.stage_order@[j]@ == stage@;
                    assert(st0[j] == stage@);
                }
                if st0.contains(stage@) {
                    let j = choose|j: int| 0 <= j < st0.len() && st0[j] == stage@;
                    assert(self.stage_order@[j]@ == stage@);
                }
            }
        }
        if !known {
            self.stage_order.push(stage.clone());
            proof {
                assert(self.stages() =~= st0.push(stage@));
            }
        }
        let ghost sv = stage@;
        self.system_stages.push(stage);
        proof {
            assert(self.members() =~= sy0.push(sv));
            let st1 = self.stages();
            let sy1 = self.members();
            assert forall|a: int, b: int| 0 <= a < st1.len() && 0 <= b < st1.len() && a != b implies st1[a] != st1[b] by {
                if !known {
                    if a < st0.len() && b < st0.len() {
                        assert(st1[a] == st0[a] && st1[b] == st0[b]);
                    } else if a < st0.len() {
                        assert(st1[a] == st0[a]);
                    } else {
                        assert(st1[b] == st0[b]);
                    }
                }
            }
            assert forall|s: Seq<char>| #[trigger] st1.contains(s) <==> sy1.contains(s) by {
                if st0.contains(s) {
                    let j = choose|j: int| 0 <= j < st0.len() && st0[j] == s;
                    assert(st1[j] == s);
                }
                if sy0.contains(s) {
                    let j = choose|j: int| 0 <= j < sy0.len() && sy0[j] == s;
                    assert(sy1[j] == s);
                }
                if s == sv {
                    assert(sy1[sy0.len() as int] == s);
                    if !known {
                        assert(st1[st0.len() as int] == s);
                    }
                }
                if st1.contains(s) && s != sv {
                    let j = choose|j: int| 0 <= j < st1.len() && st1[j] == s;
                    if !known {
                        assert(j < st0.len());
                    }
                    assert(st0[j] == s);
                }
                if sy1.contains(s) && s != sv {
                    let j = choose|j: int| 0 <= j < sy1.len() && sy1[j] == s;
                    assert(j < sy0.len());
                    assert(sy0[j] == s);
                }
            }
        }
    }
}

/// Stage-based system scheduler.
///
/// Systems are grouped into stages. Stages run in the order they were first
/// registered; within a stage, systems run in registration order. Commands
/// queued by systems are applied after each stage.
#[verifier::reject_recursive_types(V)]
pub struct Schedule<V> {
    systems: Vec<SystemSlot<V>>,
    plan: StagePlan,
}

impl<V> Schedule<V> {
    #[verifier::type_invariant]
    spec fn inv(self) -> bool {
        &&& self.plan.wf()
        &&& self.systems@.len() == self.plan.members().len()
    }

    /// The registered systems, in registration order.
    pub closed spec fn spec_systems(&self) -> Seq<Box<dyn System<V>>> {
        self.systems@.map_values(|e: SystemSlot<V>| e.system)
    }

    /// The stage names in execution order.
    pub closed spec fn spec_stages(&self) -> Seq<Seq<char>> {
        self.plan.stages()
    }

    /// The stage of each registered system, in registration order.
    pub closed spec fn spec_system_stages(&self) -> Seq<Seq<char>> {
        self.plan.members()
    }

    /// Create an empty schedule.
    pub fn new() -> (r: Schedule<V>)
        ensures
            r.spec_stages() == Seq::<Seq<char>>::empty(),
            r.spec_system_stages() == Seq::<Seq<char>>::empty(),
    {
        Schedule { systems: Vec::new(), plan: StagePlan::new() }
    }

    /// Add a system to a named stage. The system's declared accesses must
    /// not conflict with each other (such a system cannot be registered);
    /// should its `access` report a conflict all the same, the system is
    /// refused, the schedule is left unchanged and `false` is returned. The
    /// result is the self-conflict check of the list that `access` hands
    /// back.
    pub fn add_system<S: System<V> + 'static>(&mut self, stage: String, system: S) -> (r: bool)
        requires
            forall|a: Vec<Access>| call_ensures(S::access, (&system,), a) ==> no_self_conflicts(a@),
        ensures
            exists|a: Vec<Access>| call_ensures(S::access, (&system,), a) && r == no_self_conflicts(a@),
            r ==> final(self).spec_system_stages() == old(self).spec_system_stages().push(stage@),
            r ==> final(self).spec_stages() == if old(self).spec_stages().contains(stage@) {
                old(self).spec_stages()
            } else {
                old(self).spec_stages().push(stage@)
            },
            !r ==> final(self).spec_system_stages() == old(self).spec_system_stages()
                && final(self).spec_stages() == old(self).spec_stages(),
    {
        proof {
            use_type_invariant(&*self);
        }
        let access = system.access();
        if !validate_no_self_conflicts(access.as_slice()) {
            return false;
        }
        let mut sched = Schedule::new();
        std::mem::swap(&mut sched, self);
        proof {
            use_type_invariant(&sched);
        }
        let Schedule { mut systems, mut plan } = sched;
        let ghost len0 = systems@.len();
        proof {
            assert(len0 == plan.members().len());
        }
        plan.add(stage);
        proof {
            assert(plan.members().len() == len0 + 1);
        }
        let slot = SystemSlot::new(system);
        let ghost before = systems@;
        systems.push(slot);
        proof {
            assert(systems@.len() == before.len() + 1);
        }
        *self = Schedule { systems, plan };
        true
    }

    /// The positions of the registered systems in the order `run` runs them.
    pub fn execution_order(&self) -> (r: Vec<usize>)
        ensures
            r@.map_values(|i: usize| i as int) == run_order(self.spec_stages(), self.spec_system_stages()),
    {
        let stage_order = &self.plan.stage_order;
        let system_stages = &self.plan.system_stages;
        let mut out: Vec<usize> = Vec::new();
        let mut s: usize = 0;
        while s < stage_order.len()
            invariant
                s <= stage_order@.len(),
                self.spec_stages() == stage_order@.map_values(|s: String| s@),
                self.spec_system_stages() == system_stages@.map_values(|s: String| s@),
                out@.map_values(|i: usize| i as int) == run_order(self.spec_stages().subrange(0, s as int), self.spec_system_stages()),
            decreases stage_order@.len() - s,
        {
            let ghost base = out@.map_values(|i: usize| i as int);
            let mut i: usize = 0;
            while i < system_stages.len()
                invariant
                    s < stage_order@.len(),
                    i <= system_stages@.len(),
                    self.spec_stages() == stage_order@.map_values(|s: String| s@),
                    self.spec_system_stages() == system_stages@.map_values(|s: String| s@),
                    out@.map_values(|i: usize| i as int) == base + stage_members(self.spec_system_stages(), self.spec_stages()[s as int], i as int),
                decreases system_stages@.len() - i,
            {
                let ghost before = out@;
                if system_stages[i] == stage_order[s] {
                    out.push(i);
                    proof {
                        assert(out@.map_values(|i: usize| i as int) =~= before.map_values(|i: usize| i as int).push(i as int));
                    }
                }
                i = i + 1;
            }
            proof {
                let sub = self.spec_stages().subrange(0, s + 1);
                assert(sub.drop_last() =~= self.spec_stages().subrange(0, s as int));
                assert(sub.last() == self.spec_stages()[s as int]);
            }
            s = s + 1;
        }
        proof {
            assert(self.spec_stages().subrange(0, stage_order@.len() as int) =~= self.spec_stages());
        }
        out
    }

    /// Run one tick: fire due deadlines (at the world clock's time), advance
    /// the event buffers, then run the systems stage by stage in stage
    /// order, and within a stage in registration order, applying queued
    /// commands after each stage. Every registered event buffer of the world
    /// must be present.
    pub fn run(&mut self, world: &mut World<V>)
        requires
            old(world).events_ready(),
        ensures
            final(self).spec_stages() == old(self).spec_stages(),
            final(self).spec_system_stages() == old(self).spec_system_stages(),
            final(self).spec_systems().len() == old(self).spec_systems().len(),
            Schedule::tick_ran(*old(self), *old(world), *final(world)),
    {
        proof {
            use_type_invariant(&*self);
        }
        world.drain_all_deadlines();
        let ghost w_mid = *world;
        proof {
            assert forall|k: crate::resource::TypeKey| #[trigger] world.spec_registered_events().contains(k) implies world.spec_events().contains_key(k) by {
                assert(old(world).spec_registered_events().contains(k));
                assert(old(world).spec_events().contains_key(k));
            }
        }
        world.update_events();
        let ghost w_upd = *world;
        proof {
            assert(tick_prepared(*old(world), w_upd)) by {
                assert(w_upd.spec_deadlines() == w_mid.spec_deadlines());
                assert(events_advanced(w_mid.spec_events(), w_upd.spec_events()));
            }
        }
        let mut sched = Schedule::new();
        std::mem::swap(&mut sched, self);
        proof {
            use_type_invariant(&sched);
        }
        let Schedule { mut systems, plan } = sched;
        let ghost old_sys = systems@.map_values(|e: SystemSlot<V>| e.system);
        let ghost stages = plan.stages();
        let ghost entries = plan.members();
        let n = plan.stage_order.len();
        let m = plan.system_stages.len();
        let ghost mut ws: Seq<World<V>> = seq![*world];
        let mut s: usize = 0;
        while s < n
            invariant
                s <= n,
                n == stages.len(),
                m == entries.len(),
                plan.wf(),
                stages == plan.stages(),
                entries == plan.members(),
                systems@.len() == m,
                old_sys.len() == m,
                ws.len() == run_steps(stages.take(s as int), entries).len() + 1,
                ws[0] == w_upd,
                ws.last() == *world,
                forall|j: int| 0 <= j < run_steps(stages.take(s as int), entries).len() ==>
                    step_done(old_sys, #[trigger] run_steps(stages.take(s as int), entries)[j], ws[j], ws[j + 1]),
                forall|i: int| 0 <= i < m && !stages.take(s as int).contains(entries[i]) ==> #[trigger] systems@[i].system == old_sys[i],
            decreases n - s,
        {
            let ghost base = run_steps(stages.take(s as int), entries);
            let ghost stage = stages[s as int];
            let mut i: usize = 0;
            while i < m
                invariant
                    s < n,
                    n == stages.len(),
                    m == entries.len(),
                    plan.wf(),
                    stages == plan.stages(),
                    entries == plan.members(),
                    stage == stages[s as int],
                    base == run_steps(stages.take(s as int), entries),
                    i <= m,
                    systems@.len() == m,
                    old_sys.len() == m,
                    ws.len() == base.len() + stage_members(entries, stage, i as int).len() + 1,
                    ws[0] == w_upd,
                    ws.last() == *world,
                    forall|j: int| 0 <= j < base.len() ==> step_done(old_sys, #[trigger] base[j], ws[j], ws[j + 1]),
                    forall|j: int| 0 <= j < stage_members(entries, stage, i as int).len() ==>
                        step_done(old_sys, Some(#[trigger] stage_members(entries, stage, i as int)[j]), ws[base.len() + j], ws[base.len() + j + 1]),
                    forall|x: int| 0 <= x < m && !stages.take(s as int).contains(entries[x]) && !(entries[x] == stage && x < i)
                        ==> #[trigger] systems@[x].system == old_sys[x],
                decreases m - i,
            {
                if plan.system_stages[i] == plan.stage_order[s] {
                    proof {
                        assert(entries[i as int] == stage);
                        assert(!stages.take(s as int).contains(stage)) by {
                            if stages.take(s as int).contains(stage) {
                                let q = choose|q: int| 0 <= q < s && stages.take(s as int)[q] == stage;
                                assert(stages[q] == stages[s as int]);
                            }
                        }
                        assert(systems@[i as int].system == old_sys[i as int]);
                    }
                    let ghost w_before = *world;
                    let ghost ws0 = ws;
                    let ghost sys0 = systems@;
                    systems[i].system.run(world);
                    proof {
                        ws = ws.push(*world);
                        let mem0 = stage_members(entries, stage, i as int);
                        let mem1 = stage_members(entries, stage, i + 1);
                        assert(mem1 == mem0.push(i as int));
                        assert(old_sys[i as int].ran(w_before, *world));
                        assert forall|j: int| 0 <= j < base.len() implies step_done(old_sys, #[trigger] base[j], ws[j], ws[j + 1]) by {
                            assert(ws[j] == ws0[j] && ws[j + 1] == ws0[j + 1]);
                        }
                        assert forall|j: int| 0 <= j < mem1.len() implies
                            step_done(old_sys, Some(#[trigger] mem1[j]), ws[base.len() + j], ws[base.len() + j + 1]) by {
                            if j < mem0.len() {
                                assert(mem1[j] == mem0[j]);
                                assert(ws[base.len() + j] == ws0[base.len() + j]);
                                assert(ws[base.len() + j + 1] == ws0[base.len() + j + 1]);
                            } else {
                                assert(mem1[j] == i as int);
                                assert(ws[base.len() + j] == ws0.last());
                            }
                        }
                        assert forall|x: int| 0 <= x < m && !stages.take(s as int).contains(entries[x]) && !(entries[x] == stage && x < i + 1)
                            implies #[trigger] systems@[x].system == old_sys[x] by {
                            assert(x != i);
                            assert(systems@[x] == sys0[x]);
                        }
                    }
                } else {
                    proof {
                        assert(stage_members(entries, stage, i + 1) == stage_members(entries, stage, i as int));
                    }
                }
                i = i + 1;
            }
            let ghost w_before = *world;
            let ghost ws0 = ws;
            world.apply_commands();
            proof {
                ws = ws.push(*world);
                let mem = stage_members(entries, stage, m as int);
                let t1 = stages.take(s + 1);
                assert(t1.drop_last() =~= stages.take(s as int));
                assert(t1.last() == stage);
                let next = run_steps(t1, entries);
                assert(next == base + mem.map_values(|x: int| Some(x)) + seq![None::<int>]);
                assert(ws.len() == next.len() + 1);
                assert forall|j: int| 0 <= j < next.len() implies step_done(old_sys, #[trigger] next[j], ws[j], ws[j + 1]) by {
                    if j < base.len() {
                        assert(next[j] == base[j]);
                        assert(ws[j] == ws0[j] && ws[j + 1] == ws0[j + 1]);
                    } else if j < base.len() + mem.len() {
                        let q = j - base.len();
                        assert(next[j] == Some(mem[q]));
                        assert(ws[j] == ws0[j] && ws[j + 1] == ws0[j + 1]);
                    } else {
                        assert(next[j] == None::<int>);
                        assert(ws[j] == w_before);
                    }
                }
                assert forall|x: int| 0 <= x < m && !t1.contains(entries[x]) implies #[trigger] systems@[x].system == old_sys[x] by {
                    assert(entries[x] != stage) by {
                        if entries[x] == stage {
                            assert(t1[s as int] == stage);
                        }
                    }
                    assert(!stages.take(s as int).contains(entries[x])) by {
                        if stages.take(s as int).contains(entries[x]) {
                            let q = choose|q: int| 0 <= q < s && stages.take(s as int)[q] == entries[x];
                            assert(t1[q] == entries[x]);
                        }
                    }
                }
            }
            s = s + 1;
        }
        proof {
            assert(stages.take(n as int) =~= stages);
            assert(stages == old(self).spec_stages());
            assert(entries == old(self).spec_system_stages());
            assert(old_sys == old(self).spec_systems());
            let steps = run_steps(old(self).spec_stages(), old(self).spec_system_stages());
            assert(ws.len() == steps.len() + 1);
            assert(tick_prepared(*old(world), ws[0]));
            assert(forall|j: int| 0 <= j < steps.len() ==> step_done(old(self).spec_systems(), #[trigger] steps[j], ws[j], ws[j + 1]));
            assert(Schedule::tick_ran(*old(self), *old(world), *world));
        }
        *self = Schedule { systems, plan };
    }

    /// The number of systems in stage `s`.
    fn members_of(&self, s: usize) -> (r: usize)
        requires
            s < self.spec_stages().len(),
        ensures
            r == stage_members(self.spec_system_stages(), self.spec_stages()[s as int], self.spec_system_stages().len() as int).len(),
    {
        let stage_order = &self.plan.stage_order;
        let system_stages = &self.plan.system_stages;
        let mut count: usize = 0;
        let mut i: usize = 0;
        while i < system_stages.len()
            invariant
                s < stage_order@.len(),
                i <= system_stages@.len(),
                self.spec_stages() == stage_order@.map_values(|s: String| s@),
                self.spec_system_stages() == system_stages@.map_values(|s: String| s@),
                count == stage_members(self.spec_system_stages(), self.spec_stages()[s as int], i as int).len(),
                count <= i,
            decreases system_stages@.len() - i,
        {
            if system_stages[i] == stage_order[s] {
                count = count + 1;
            }
            i = i + 1;
        }
        count
    }

    /// Returns the number of registered systems.
    pub fn system_count(&self) -> (r: usize)
        ensures
            r == self.spec_system_stages().len(),
    {
        self.plan.system_stages.len()
    }

    /// The stage names in execution order.
    pub fn stages(&self) -> (r: &[String])
        ensures
            r@.map_values(|s: String| s@) == self.spec_stages(),
    {
        self.plan.stage_order.as_slice()
    }
}

/// The run order of the first `s + 1` stages is that of the first `s`
/// stages followed by the members of stage `s`.
pub proof fn lemma_run_order_prefix(stages: Seq<Seq<char>>, entries: Seq<Seq<char>>, s: int)
    requires
        0 <= s < stages.len(),
    ensures
        run_order(stages.subrange(0, s + 1), entries) == run_order(stages.subrange(0, s), entries)
            + stage_members(entries, stages[s], entries.len() as int),
        run_order(stages.subrange(0, s + 1), entries).len() <= run_order(stages, entries).len(),
{
    let sub = stages.subrange(0, s + 1);
    assert(sub.drop_last() =~= stages.subrange(0, s));
    lemma_run_order_monotone(stages, entries, s + 1);
}

/// Run orders of stage prefixes grow with the prefix.
pub proof fn lemma_run_order_monotone(stages: Seq<Seq<char>>, entries: Seq<Seq<char>>, n: int)
    requires
        0 <= n <= stages.len(),
    ensures
        run_order(stages.subrange(0, n), entries).len() <= run_order(stages, entries).len(),
    decreases stages.len() - n,
{
    if n < stages.len() {
        lemma_run_order_monotone(stages, entries, n + 1);
        let sub = stages.subrange(0, n + 1);
        assert(sub.drop_last() =~= stages.subrange(0, n));
    } else {
        assert(stages.subrange(0, n) =~= stages);
    }
}

} // verus!
