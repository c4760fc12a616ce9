use crate::system_param::{access_conflict, Access};
use crate::text::{decimal, push_decimal, push_str};
use crate::world::World;
use vstd::prelude::*;

verus! {

/// A request handler run against the world: the caller hands in a request
/// and receives a response or an error message.
pub trait Handler<V, Req, Resp> {
    /// Human-readable handler name (for diagnostics and conflict messages).
    fn name(&self) -> String;

    /// What answering means: from world `before`, `request` may be answered
    /// with `reply`, leaving world `after`. By default nothing is promised.
    open spec fn answers(&self, request: Req, before: World<V>, reply: Result<Resp, String>, after: World<V>) -> bool {
        true
    }

    /// Run the handler with the given request against the world.
    fn run(&mut self, request: Req, world: &mut World<V>) -> (r: Result<Resp, String>)
        ensures
            old(self).answers(request, *old(world), r, *final(world));

    /// Declare what world data this handler accesses.
    fn access(&self) -> Vec<Access>;
}

/// Runs a handler against the world with the given request: the entry point
/// that transport adapters share.
pub fn run_handler<V, Req, Resp>(
    handler: &mut dyn Handler<V, Req, Resp>,
    request: Req,
    world: &mut World<V>,
) -> (r: Result<Resp, String>)
    ensures
        old(handler).answers(request, *old(world), r, *final(world)),
{
    handler.run(request, world)
}

/// The first pair `(i, j)` with `i < j` of conflicting accesses of `a`,
/// going through `i` and then `j` in increasing order, from `(i, j)` on.
pub open spec fn first_conflict(a: Seq<Access>, i: int, j: int) -> Option<(int, int)>
    decreases a.len() - i, a.len() - j,
{
    if i < 0 || j < 0 || i >= a.len() {
        None
    } else if j >= a.len() {
        first_conflict(a, i + 1, i + 2)
    } else if access_conflict(a[i], a[j]) {
        Some((i, j))
    } else {
        first_conflict(a, i, j + 1)
    }
}

/// The text of an access as `{:?}` writes it (e.g. `ResWrite(3)`).
pub open spec fn access_text(a: Access) -> Seq<char> {
    match a {
        Access::ResRead(k) => "ResRead("@ + decimal(k as nat) + ")"@,
        Access::ResWrite(k) => "ResWrite("@ + decimal(k as nat) + ")"@,
        Access::CompRead(k) => "CompRead("@ + decimal(k as nat) + ")"@,
        Access::CompWrite(k) => "CompWrite("@ + decimal(k as nat) + ")"@,
    }
}

/// The message for a handler whose own accesses conflict.
pub open spec fn handler_conflict_message(name: Seq<char>, a: Access, b: Access) -> Seq<char> {
    "handler '"@ + name + "' has conflicting parameter access: "@ + access_text(a) + " vs "@
        + access_text(b)
}

proof fn lemma_first_conflict_none(a: Seq<Access>, i: int, j: int)
    requires
        0 <= i,
        i < j,
        first_conflict(a, i, j) is None,
    ensures
        forall|x: int, y: int|
            #![trigger a[x], a[y]]
            (x == i && j <= y < a.len()) || (i < x && x < y < a.len()) ==> !access_conflict(
                a[x],
                a[y],
            ),
    decreases a.len() - i, a.len() - j,
{
    if i >= a.len() {
    } else if j >= a.len() {
        lemma_first_conflict_none(a, i + 1, i + 2);
    } else {
        lemma_first_conflict_none(a, i, j + 1);
    }
}

fn push_access_text(out: &mut String, a: Access)
    ensures
        final(out)@ == old(out)@ + access_text(a),
{
    let ghost start = out@;
    match a {
        Access::ResRead(k) => {
            push_str(out, "ResRead(");
            push_decimal(out, k);
        },
        Access::ResWrite(k) => {
            push_str(out, "ResWrite(");
            push_decimal(out, k);
        },
        Access::CompRead(k) => {
            push_str(out, "CompRead(");
            push_decimal(out, k);
        },
        Access::CompWrite(k) => {
            push_str(out, "CompWrite(");
            push_decimal(out, k);
        },
    }
    push_str(out, ")");
    proof {
        assert(out@ =~= start + access_text(a));
    }
}

/// The first pair of conflicting accesses, if any.
pub fn find_self_conflict(access: &[Access]) -> (r: Option<(usize, usize)>)
    ensures
        match r {
            Some((i, j)) => first_conflict(access@, 0, 1) == Some((i as int, j as int)) && i < j
                < access@.len(),
            None => first_conflict(access@, 0, 1) is None,
        },
{
    let mut i: usize = 0;
    while i < access.len()
        invariant
            i <= access@.len(),
            first_conflict(access@, 0, 1) == first_conflict(access@, i as int, i + 1),
        decreases access@.len() - i,
    {
        let mut j: usize = i + 1;
        while j < access.len()
            invariant
                i < access@.len(),
                i + 1 <= j <= access@.len(),
                first_conflict(access@, 0, 1) == first_conflict(access@, i as int, j as int),
            decreases access@.len() - j,
        {
            if access[i].conflicts_with(&access[j]) {
                return Some((i, j));
            }
            j = j + 1;
        }
        i = i + 1;
    }
    None
}

/// The message that refuses a handler named `name` with the accesses
/// `access`: `None` where no two of them conflict, else the message naming
/// the first conflicting pair.
pub fn conflict_report(name: &str, access: &[Access]) -> (r: Option<String>)
    ensures
        match r {
            None => first_conflict(access@, 0, 1) is None,
            Some(m) => match first_conflict(access@, 0, 1) {
                Some((i, j)) => m@ == handler_conflict_message(name@, access@[i], access@[j]),
                None => false,
            },
        },
{
    match find_self_conflict(access) {
        None => None,
        Some((i, j)) => {
            let mut m = String::new();
            push_str(&mut m, "handler '");
            push_str(&mut m, name);
            push_str(&mut m, "' has conflicting parameter access: ");
            push_access_text(&mut m, access[i]);
            push_str(&mut m, " vs ");
            push_access_text(&mut m, access[j]);
            Some(m)
        },
    }
}

/// No two accesses conflict exactly when no first conflicting pair is found.
pub proof fn lemma_first_conflict_complete(a: Seq<Access>)
    ensures
        first_conflict(a, 0, 1) is None <==> forall|x: int, y: int|
            0 <= x < y < a.len() ==> !access_conflict(#[trigger] a[x], #[trigger] a[y]),
{
    if first_conflict(a, 0, 1) is None {
        lemma_first_conflict_none(a, 0, 1);
    } else {
        lemma_first_conflict_some(a, 0, 1);
    }
}

proof fn lemma_first_conflict_some(a: Seq<Access>, i: int, j: int)
    requires
        0 <= i < j,
        first_conflict(a, i, j) is Some,
    ensures
        ({
            let (x, y) = first_conflict(a, i, j)->0;
            0 <= x < y < a.len() && access_conflict(a[x], a[y])
        }),
    decreases a.len() - i, a.len() - j,
{
    if i < 0 || j < 0 || i >= a.len() {
    } else if j >= a.len() {
        lemma_first_conflict_some(a, i + 1, i + 2);
    } else if !access_conflict(a[i], a[j]) {
        lemma_first_conflict_some(a, i, j + 1);
    }
}

/// Whether `m` is the refusal message of a handler named `name` whose
/// declared accesses are `access`: the message naming their first
/// conflicting pair.
pub open spec fn refusal_of(m: Seq<char>, name: Seq<char>, access: Seq<Access>) -> bool {
    match first_conflict(access, 0, 1) {
        Some((i, j)) => m == handler_conflict_message(name, access[i], access[j]),
        None => false,
    }
}

/// A handler, accepted only when its own accesses do not conflict; else the
/// message naming its first conflicting pair. Which of the two comes back is
/// decided by the name and accesses that the handler itself declares.
pub fn checked_handler<V, Req, Resp>(handler: Box<dyn Handler<V, Req, Resp>>) -> (r: Result<
    Box<dyn Handler<V, Req, Resp>>,
    String,
>)
    ensures
        r is Err ==> exists|name: Seq<char>, access: Seq<Access>| #[trigger] refusal_of(r->Err_0@, name, access),
{
    let access = handler.access();
    let name = handler.name();
    let report = conflict_report(name.as_str(), access.as_slice());
    if report.is_none() {
        return Ok(handler);
    }
    let m = report.unwrap();
    let ghost mv = m@;
    let r: Result<Box<dyn Handler<V, Req, Resp>>, String> = Err(m);
    proof {
        assert(refusal_of(mv, name@, access@));
        assert(r->Err_0@ == mv);
        assert(refusal_of(r->Err_0@, name@, access@));
    }
    r
}

} // verus!
