//! Deadline scheduler for timed event firing.
//!
//! Register `(Timestamp, event)` pairs. Each tick the scheduler fires every
//! entry whose deadline has passed (`deadline <= now`), in deadline order.
use vstd::prelude::*;

verus! {

/// A point in time represented as microseconds since the UNIX epoch.
#[derive(Debug, Clone, Copy, PartialEq, Eq, PartialOrd, Ord, Hash, Structural)]
pub struct Timestamp(pub i64);

/// Microseconds in one second.
pub const MICROS_PER_SEC: i64 = 1_000_000;

/// Truncating division toward zero, as Rust's `/` on integers.
pub open spec fn div_trunc(a: int, b: int) -> int {
    if a >= 0 {
        a / b
    } else {
        -((-a) / b)
    }
}

#[verifier::external_type_specification]
#[verifier::external_body]
pub struct ExSystemTime(std::time::SystemTime);

#[verifier::external_type_specification]
#[verifier::external_body]
pub struct ExSystemTimeError(std::time::SystemTimeError);

/// The current time of the system clock: std's `SystemTime::now`. Nothing
/// is promised of it: it is what the machine's clock reads.
#[verifier::external_body]
fn system_now() -> (r: std::time::SystemTime) {
    std::time::SystemTime::now()
}

/// How long after the UNIX epoch `t` lies: std's
/// `SystemTime::duration_since(UNIX_EPOCH)`, an error where `t` lies before
/// the epoch. Nothing is promised of the values: `SystemTime` is opaque here.
#[verifier::external_body]
fn since_epoch(t: &std::time::SystemTime) -> (r: Result<std::time::Duration, std::time::SystemTimeError>) {
    t.duration_since(std::time::UNIX_EPOCH)
}

/// The whole microseconds of a duration: std's `Duration::as_micros`.
/// Nothing is promised of the value: `Duration` is opaque here.
#[verifier::external_body]
fn duration_micros(d: &std::time::Duration) -> (r: u128) {
    d.as_micros()
}

impl Timestamp {
    /// Create a timestamp from microseconds since the UNIX epoch.
    pub fn from_micros(us: i64) -> (r: Timestamp)
        ensures
            r.0 == us,
    {
        Timestamp(us)
    }

    /// Create a timestamp from whole seconds since the UNIX epoch.
    pub fn from_secs(secs: i64) -> (r: Timestamp)
        requires
            i64::MIN <= secs * MICROS_PER_SEC <= i64::MAX,
        ensures
            r.0 == secs * MICROS_PER_SEC,
    {
        Timestamp(secs * MICROS_PER_SEC)
    }

    /// Returns the value as microseconds since the UNIX epoch.
    pub fn as_micros(&self) -> (r: i64)
        ensures
            r == self.0,
    {
        self.0
    }

    /// Returns the value as whole seconds since the UNIX epoch, truncated
    /// toward zero.
    pub fn as_secs(&self) -> (r: i64)
        ensures
            r == div_trunc(self.0 as int, MICROS_PER_SEC as int),
    {
        if self.0 >= 0 {
            self.0 / MICROS_PER_SEC
        } else {
            let pos: i64 = if self.0 == i64::MIN {
                i64::MAX
            } else {
                -self.0
            };
            let q = pos / MICROS_PER_SEC;
            proof {
                if self.0 == i64::MIN {
                    assert((i64::MAX as int) / 1_000_000 == (-(i64::MIN as int)) / 1_000_000);
                }
            }
            -q
        }
    }

    /// Returns the current wall-clock time, or `None` where the clock reads
    /// before the UNIX epoch.
    pub fn now() -> (r: Option<Timestamp>) {
        let t = system_now();
        match since_epoch(&t) {
            Ok(d) => {
                let us = duration_micros(&d);
                Some(Timestamp(#[verifier::truncate] (us as i64)))
            },
            Err(_) => None,
        }
    }
}

/// Converting seconds to a timestamp and back gives the seconds again.
pub proof fn lemma_secs_roundtrip(secs: i64)
    requires
        i64::MIN <= secs * MICROS_PER_SEC <= i64::MAX,
    ensures
        div_trunc(secs * MICROS_PER_SEC, MICROS_PER_SEC as int) == secs,
{
    if secs >= 0 {
        assert((secs * 1_000_000) / 1_000_000 == secs) by (nonlinear_arith);
    } else {
        assert((-(secs * 1_000_000)) / 1_000_000 == -secs) by (nonlinear_arith)
            requires secs < 0;
    }
}

/// Injectable time source for the deadline scheduler.
pub trait Clock {
    /// Returns the current time.
    fn now(&self) -> Timestamp;
}

/// Wall-clock time source.
pub struct SystemClock;

impl Clock for SystemClock {
    /// The wall-clock time; a clock that reads before the UNIX epoch reads
    /// as the epoch itself.
    fn now(&self) -> Timestamp {
        match Timestamp::now() {
            Some(t) => t,
            None => Timestamp(0),
        }
    }
}

/// Manually controllable time source for deterministic tests.
pub struct TestClock {
    now: Timestamp,
}

impl TestClock {
    /// The time this clock reports.
    pub closed spec fn spec_now(&self) -> Timestamp {
        self.now
    }

    /// Create a test clock starting at the given time.
    pub fn new(now: Timestamp) -> (c: TestClock)
        ensures
            c.spec_now() == now,
    {
        TestClock { now }
    }

    /// Set the current time.
    pub fn set(&mut self, now: Timestamp)
        ensures
            final(self).spec_now() == now,
    {
        self.now = now;
    }

    /// Advance the clock by the given number of seconds.
    pub fn advance_secs(&mut self, secs: i64)
        requires
            i64::MIN <= old(self).spec_now().0 + secs * MICROS_PER_SEC <= i64::MAX,
            i64::MIN <= secs * MICROS_PER_SEC <= i64::MAX,
        ensures
            final(self).spec_now().0 == old(self).spec_now().0 + secs * MICROS_PER_SEC,
    {
        self.now = Timestamp::from_micros(self.now.as_micros() + secs * MICROS_PER_SEC);
    }

    /// Advance the clock by the given number of microseconds.
    pub fn advance_micros(&mut self, us: i64)
        requires
            i64::MIN <= old(self).spec_now().0 + us <= i64::MAX,
        ensures
            final(self).spec_now().0 == old(self).spec_now().0 + us,
    {
        self.now = Timestamp::from_micros(self.now.as_micros() + us);
    }
}

impl Clock for TestClock {
    fn now(&self) -> (r: Timestamp)
        ensures
            r == self.spec_now(),
    {
        self.now
    }
}

/// Handle returned by [`Deadlines::schedule`] for cancellation.
#[derive(Debug, Clone, Copy, PartialEq, Eq, Hash, Structural)]
pub struct DeadlineId(pub u64);

/// An entry in the deadline queue.
pub struct DeadlineEntry<T> {
    pub id: DeadlineId,
    pub deadline: Timestamp,
    pub event: T,
}

/// Entries are in non-decreasing deadline order.
pub open spec fn deadline_sorted<T>(s: Seq<DeadlineEntry<T>>) -> bool {
    forall|i: int, j: int| 0 <= i < j < s.len() ==> (#[trigger] s[i]).deadline.0 <= (#[trigger] s[j]).deadline.0
}

/// `p` splits `s` into the entries due at `now` (before `p`) and the rest.
pub open spec fn is_split<T>(s: Seq<DeadlineEntry<T>>, now: i64, p: int) -> bool {
    &&& 0 <= p <= s.len()
    &&& forall|i: int| 0 <= i < p ==> (#[trigger] s[i]).deadline.0 <= now
    &&& forall|i: int| p <= i < s.len() ==> (#[trigger] s[i]).deadline.0 > now
}

/// The number of entries of a sorted queue that are due at `now`.
pub open spec fn split_point<T>(s: Seq<DeadlineEntry<T>>, now: i64) -> int {
    choose|p: int| is_split(s, now, p)
}

/// A sorted queue has exactly one split point for each time.
pub proof fn lemma_split_point<T>(s: Seq<DeadlineEntry<T>>, now: i64, p: int)
    requires
        is_split(s, now, p),
    ensures
        split_point(s, now) == p,
{
    let q = split_point(s, now);
    assert(is_split(s, now, q));
    if q < p {
        assert(s[q].deadline.0 <= now);
    } else if q > p {
        assert(s[p].deadline.0 <= now);
    }
}

/// The events of a sequence of entries, in order.
pub open spec fn events_of<T>(s: Seq<DeadlineEntry<T>>) -> Seq<T> {
    s.map_values(|e: DeadlineEntry<T>| e.event)
}

/// The events of the entries of `q` that are due at `now`, in queue order.
pub open spec fn due_events<T>(q: Deadlines<T>, now: i64) -> Seq<T> {
    events_of(q.spec_entries().subrange(0, split_point(q.spec_entries(), now)))
}

/// The entries of `q` still pending after draining at `now`.
pub open spec fn kept_entries<T>(q: Deadlines<T>, now: i64) -> Seq<DeadlineEntry<T>> {
    q.spec_entries().subrange(split_point(q.spec_entries(), now), q.spec_entries().len() as int)
}

/// The source of deadline ids: every id it hands out is one more than the
/// last, so ids from one source never repeat. A world holds one source for
/// all its deadline queues.
pub struct DeadlineIds {
    next: u64,
}

impl DeadlineIds {
    /// The id the next `take` hands out.
    pub closed spec fn spec_next(&self) -> u64 {
        self.next
    }

    /// A source whose first id is 1.
    pub fn new() -> (r: DeadlineIds)
        ensures
            r.spec_next() == 1,
    {
        DeadlineIds { next: 1 }
    }

    /// Whether another id can be handed out (ids are `u64`).
    pub fn can_take(&self) -> (r: bool)
        ensures
            r == (self.spec_next() < u64::MAX),
    {
        self.next < u64::MAX
    }

    /// Hand out the next id.
    pub fn take(&mut self) -> (id: DeadlineId)
        requires
            old(self).spec_next() < u64::MAX,
        ensures
            id.0 == old(self).spec_next(),
            final(self).spec_next() == old(self).spec_next() + 1,
    {
        let id = DeadlineId(self.next);
        self.next = self.next + 1;
        id
    }
}

/// Sorted deadline storage for a single event type.
///
/// Entries are kept sorted by deadline (earliest first); entries with equal
/// deadlines keep their scheduling order.
pub struct Deadlines<T> {
    entries: Vec<DeadlineEntry<T>>,
}

impl<T> Deadlines<T> {
    /// The pending entries, earliest deadline first.
    pub closed spec fn spec_entries(&self) -> Seq<DeadlineEntry<T>> {
        self.entries@
    }

    /// Queue invariant: entries sorted by deadline.
    pub open spec fn wf(&self) -> bool {
        deadline_sorted(self.spec_entries())
    }

    /// Every pending id is below `n`.
    pub open spec fn ids_below(&self, n: u64) -> bool {
        forall|i: int| 0 <= i < self.spec_entries().len() ==> (#[trigger] self.spec_entries()[i]).id.0 < n
    }

    /// No two pending entries share an id.
    pub open spec fn ids_distinct(&self) -> bool {
        forall|i: int, j: int| 0 <= i < j < self.spec_entries().len() ==>
            (#[trigger] self.spec_entries()[i]).id != (#[trigger] self.spec_entries()[j]).id
    }

    /// No two pending entries share an id.
    #[verifier::type_invariant]
    spec fn ids_fresh(&self) -> bool {
        self.ids_distinct()
    }

    /// Create an empty deadline queue.
    pub fn new() -> (r: Deadlines<T>)
        ensures
            r.wf(),
            r.ids_distinct(),
            r.spec_entries() == Seq::<DeadlineEntry<T>>::empty(),
    {
        Deadlines { entries: Vec::new() }
    }

    /// Binary search for the first entry whose deadline is after `now`.
    fn split(&self, now: i64) -> (p: usize)
        requires
            self.wf(),
        ensures
            is_split(self.spec_entries(), now, p as int),
            p == split_point(self.spec_entries(), now),
    {
        let mut lo: usize = 0;
        let mut hi: usize = self.entries.len();
        while lo < hi
            invariant
                lo <= hi <= self.spec_entries().len(),
                self.wf(),
                forall|i: int| 0 <= i < lo ==> (#[trigger] self.spec_entries()[i]).deadline.0 <= now,
                forall|i: int| hi <= i < self.spec_entries().len() ==> (#[trigger] self.spec_entries()[i]).deadline.0 > now,
            decreases hi - lo,
        {
            let mid = lo + (hi - lo) / 2;
            if self.entries[mid].deadline.0 <= now {
                lo = mid + 1;
            } else {
                hi = mid;
            }
        }
        proof {
            lemma_split_point(self.spec_entries(), now, lo as int);
        }
        lo
    }

    /// Schedule an event to fire at `deadline`. Returns an id for
    /// cancellation. The entry goes after every entry due no later than
    /// `deadline`, keeping the queue sorted.
    pub fn schedule(&mut self, ids: &mut DeadlineIds, deadline: Timestamp, event: T) -> (id: DeadlineId)
        requires
            old(self).wf(),
            old(ids).spec_next() < u64::MAX,
            old(self).ids_below(old(ids).spec_next()),
        ensures
            final(self).wf(),
            final(self).ids_distinct(),
            final(self).ids_below(final(ids).spec_next()),
            id.0 == old(ids).spec_next(),
            final(ids).spec_next() == old(ids).spec_next() + 1,
            forall|i: int| 0 <= i < old(self).spec_entries().len() ==> (#[trigger] old(self).spec_entries()[i]).id != id,
            final(self).spec_entries() == old(self).spec_entries().insert(
                split_point(old(self).spec_entries(), deadline.0),
                DeadlineEntry { id, deadline, event },
            ),
    {
        proof {
            use_type_invariant(&*self);
        }
        let ghost bound = ids.spec_next();
        let id = ids.take();
        let pos = self.split(deadline.0);
        let ghost s0 = self.entries@;
        let mut entries = Vec::new();
        std::mem::swap(&mut entries, &mut self.entries);
        entries.insert(pos, DeadlineEntry { id, deadline, event });
        proof {
            let s1 = entries@;
            assert forall|i: int, j: int| 0 <= i < j < s1.len() implies (#[trigger] s1[i]).id != (#[trigger] s1[j]).id by {
                let i0 = if i < pos { i } else { i - 1 };
                let j0 = if j < pos { j } else { j - 1 };
                if i != pos as int && j != pos as int {
                    assert(s1[i] == s0[i0] && s1[j] == s0[j0]);
                } else if i == pos as int {
                    assert(s1[j] == s0[j0]);
                } else {
                    assert(s1[i] == s0[i0]);
                }
            }
            assert forall|i: int| 0 <= i < s1.len() implies (#[trigger] s1[i]).id.0 < bound + 1 by {
                if i < pos {
                    assert(s1[i] == s0[i]);
                } else if i > pos {
                    assert(s1[i] == s0[i - 1]);
                }
            }
            assert forall|i: int, j: int| 0 <= i < j < s1.len() implies (#[trigger] s1[i]).deadline.0 <= (#[trigger] s1[j]).deadline.0 by {
                if j < pos {
                    assert(s1[i] == s0[i] && s1[j] == s0[j]);
                } else if j == pos {
                    assert(s1[i] == s0[i]);
                } else if i < pos {
                    assert(s1[i] == s0[i] && s1[j] == s0[j - 1]);
                } else if i == pos {
                    assert(s1[j] == s0[j - 1]);
                } else {
                    assert(s1[i] == s0[i - 1] && s1[j] == s0[j - 1]);
                }
            }
        }
        self.entries = entries;
        id
    }

    /// Cancel a previously scheduled deadline. Returns `true` if an entry
    /// with that id was pending; that entry is removed, so no entry with
    /// the id is pending afterwards (a second cancel returns `false`).
    pub fn cancel(&mut self, id: DeadlineId) -> (r: bool)
        requires
            old(self).wf(),
        ensures
            final(self).wf(),
            final(self).ids_distinct(),
            forall|b: u64| old(self).ids_below(b) ==> final(self).ids_below(b),
            r == exists|i: int| 0 <= i < old(self).spec_entries().len() && (#[trigger] old(self).spec_entries()[i]).id == id,
            r ==> exists|i: int|
                0 <= i < old(self).spec_entries().len() && old(self).spec_entries()[i].id == id
                    && (forall|j: int| 0 <= j < i ==> (#[trigger] old(self).spec_entries()[j]).id != id)
                    && final(self).spec_entries() == old(self).spec_entries().remove(i),
            !r ==> final(self).spec_entries() == old(self).spec_entries(),
            forall|i: int| 0 <= i < final(self).spec_entries().len() ==> (#[trigger] final(self).spec_entries()[i]).id != id,
    {
        proof {
            use_type_invariant(&*self);
        }
        let mut i: usize = 0;
        while i < self.entries.len()
            invariant
                i <= self.spec_entries().len(),
                old(self).wf(),
                old(self).ids_distinct(),
                *self == *old(self),
                forall|j: int| 0 <= j < i ==> (#[trigger] self.spec_entries()[j]).id != id,
            decreases self.spec_entries().len() - i,
        {
            if self.entries[i].id == id {
                let ghost s0 = self.entries@;
                let mut entries = Vec::new();
                std::mem::swap(&mut entries, &mut self.entries);
                let _ = entries.remove(i);
                proof {
                    let s1 = entries@;
                    assert forall|a: int, b: int| 0 <= a < b < s1.len() implies (#[trigger] s1[a]).deadline.0 <= (#[trigger] s1[b]).deadline.0 by {
                        let a0 = if a < i { a } else { a + 1 };
                        let b0 = if b < i { b } else { b + 1 };
                        assert(s1[a] == s0[a0] && s1[b] == s0[b0]);
                    }
                    assert forall|a: int, b: int| 0 <= a < b < s1.len() implies (#[trigger] s1[a]).id != (#[trigger] s1[b]).id by {
                        let a0 = if a < i { a } else { a + 1 };
                        let b0 = if b < i { b } else { b + 1 };
                        assert(s1[a] == s0[a0] && s1[b] == s0[b0]);
                    }
                    assert forall|b: u64| old(self).ids_below(b) implies forall|a: int| 0 <= a < s1.len() ==> (#[trigger] s1[a]).id.0 < b by {
                        assert forall|a: int| 0 <= a < s1.len() implies (#[trigger] s1[a]).id.0 < b by {
                            let a0 = if a < i { a } else { a + 1 };
                            assert(s1[a] == s0[a0]);
                        }
                    }
                    assert forall|a: int| 0 <= a < s1.len() implies (#[trigger] s1[a]).id != id by {
                        let a0 = if a < i { a } else { a + 1 };
                        assert(s1[a] == s0[a0]);
                        assert(s0[i as int].id == id);
                    }
                    assert(s0[i as int].id == id);
                    assert(s1 =~= s0.remove(i as int));
                }
                self.entries = entries;
                return true;
            }
            i = i + 1;
        }
        false
    }

    /// Drain all entries due at `now` (`deadline <= now`), returning their
    /// events in deadline order.
    pub fn drain_overdue(&mut self, now: Timestamp) -> (r: Vec<T>)
        requires
            old(self).wf(),
        ensures
            final(self).wf(),
            r@ == events_of(old(self).spec_entries().subrange(0, split_point(old(self).spec_entries(), now.0))),
            final(self).spec_entries() == old(self).spec_entries().subrange(
                split_point(old(self).spec_entries(), now.0),
                old(self).spec_entries().len() as int,
            ),
            final(self).ids_distinct(),
            forall|b: u64| old(self).ids_below(b) ==> final(self).ids_below(b),
    {
        proof {
            use_type_invariant(&*self);
        }
        let split = self.split(now.0);
        let ghost s0 = self.entries@;
        let mut rest = Vec::new();
        std::mem::swap(&mut rest, &mut self.entries);
        let kept_part = rest.split_off(split);
        proof {
            let s1 = kept_part@;
            assert(s1 =~= s0.subrange(split as int, s0.len() as int));
            assert forall|a: int, b: int| 0 <= a < b < s1.len() implies (#[trigger] s1[a]).id != (#[trigger] s1[b]).id by {
                assert(s1[a] == s0[a + split] && s1[b] == s0[b + split]);
            }
        }
        self.entries = kept_part;
        // `rest` now holds the due prefix; move its events out in order.
        let mut out: Vec<T> = Vec::new();
        let ghost due = rest@;
        let ghost kept = self.entries@;
        let mut rev: Vec<DeadlineEntry<T>> = Vec::new();
        while rest.len() > 0
            invariant
                rev@.len() + rest@.len() == due.len(),
                self.entries@ == kept,
                forall|j: int| 0 <= j < rest@.len() ==> #[trigger] rest@[j] == due[j],
                forall|j: int| 0 <= j < rev@.len() ==> #[trigger] rev@[j] == due[due.len() - 1 - j],
            decreases rest@.len(),
        {
            let e = rest.pop().unwrap();
            rev.push(e);
        }
        while rev.len() > 0
            invariant
                rev@.len() + out@.len() == due.len(),
                self.entries@ == kept,
                forall|j: int| 0 <= j < rev@.len() ==> #[trigger] rev@[j] == due[due.len() - 1 - j],
                forall|j: int| 0 <= j < out@.len() ==> #[trigger] out@[j] == due[j].event,
            decreases rev@.len(),
        {
            let e = rev.pop().unwrap();
            out.push(e.event);
        }
        proof {
            assert(due =~= s0.subrange(0, split as int));
            assert(out@ =~= events_of(due));
            let s1 = self.entries@;
            assert(s1 =~= s0.subrange(split as int, s0.len() as int));
            assert forall|b: u64| old(self).ids_below(b) implies self.ids_below(b) by {
                assert forall|a: int| 0 <= a < s1.len() implies (#[trigger] s1[a]).id.0 < b by {
                    assert(s1[a] == s0[a + split]);
                }
            }
            assert forall|a: int, b: int| 0 <= a < b < s1.len() implies (#[trigger] s1[a]).deadline.0 <= (#[trigger] s1[b]).deadline.0 by {
                assert(s1[a] == s0[a + split] && s1[b] == s0[b + split]);
                assert(s0[a + split].deadline.0 <= s0[b + split].deadline.0);
            }
        }
        out
    }

    /// Returns the number of pending deadlines.
    pub fn len(&self) -> (r: usize)
        ensures
            r == self.spec_entries().len(),
    {
        self.entries.len()
    }

    /// Returns `true` if no deadlines are pending.
    pub fn is_empty(&self) -> (r: bool)
        ensures
            r == (self.spec_entries().len() == 0),
    {
        self.entries.len() == 0
    }

    /// Returns the earliest pending deadline, if any.
    pub fn next_deadline(&self) -> (r: Option<Timestamp>)
        ensures
            self.spec_entries().len() == 0 ==> r is None,
            self.spec_entries().len() > 0 ==> r == Some(self.spec_entries()[0].deadline),
    {
        if self.entries.len() > 0 {
            Some(self.entries[0].deadline)
        } else {
            None
        }
    }
}

/// Draining at a time no earlier than every pending deadline takes the
/// whole queue (so `drain_overdue` returns every event, in queue order, and
/// leaves the queue empty).
pub proof fn lemma_drain_all_when_all_due<T>(q: Deadlines<T>, now: i64)
    requires
        q.wf(),
        forall|i: int| 0 <= i < q.spec_entries().len() ==> (#[trigger] q.spec_entries()[i]).deadline.0 <= now,
    ensures
        split_point(q.spec_entries(), now) == q.spec_entries().len(),
{
    lemma_split_point(q.spec_entries(), now, q.spec_entries().len() as int);
}

} // verus!
