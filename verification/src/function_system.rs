use vstd::prelude::*;

use crate::system_param::{access_conflict, Access};
use crate::world::World;

verus! {

/// A unit of game logic run by a schedule against a world.
pub trait System<V> {
    /// Human-readable system name (for diagnostics).
    fn name(&self) -> String;

    /// What running the system does: `after` is a world that running it
    /// from `before` may leave. By default nothing is promised.
    open spec fn ran(&self, before: World<V>, after: World<V>) -> bool {
        true
    }

    /// Run the system against the world.
    fn run(&mut self, world: &mut World<V>)
        ensures
            old(self).ran(*old(world), *final(world));

    /// Declare what world data this system accesses.
    fn access(&self) -> Vec<Access>;
}

/// No two distinct entries of an access list conflict with each other.
pub open spec fn no_self_conflicts(access: Seq<Access>) -> bool {
    forall|i: int, j: int| 0 <= i < j < access.len() ==> !access_conflict(#[trigger] access[i], #[trigger] access[j])
}

/// Whether the accesses of one system can all be granted at once: no two
/// distinct entries conflict. A system that fails this is refused at
/// registration.
pub fn validate_no_self_conflicts(access: &[Access]) -> (r: bool)
    ensures
        r == no_self_conflicts(access@),
{
    let mut i: usize = 0;
    while i < access.len()
        invariant
            i <= access@.len(),
            forall|x: int, y: int| 0 <= x < i && x < y < access@.len() ==> !access_conflict(#[trigger] access@[x], #[trigger] access@[y]),
        decreases access@.len() - i,
    {
        let mut j: usize = i + 1;
        while j < access.len()
            invariant
                i < access@.len(),
                i + 1 <= j <= access@.len(),
                forall|x: int, y: int| 0 <= x < i && x < y < access@.len() ==> !access_conflict(#[trigger] access@[x], #[trigger] access@[y]),
                forall|y: int| i < y < j ==> !access_conflict(access@[i as int], #[trigger] access@[y]),
            decreases access@.len() - j,
        {
            if access[i].conflicts_with(&access[j]) {
                return false;
            }
            j = j + 1;
        }
        i = i + 1;
    }
    true
}

} // verus!
