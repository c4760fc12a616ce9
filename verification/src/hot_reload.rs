use crate::route_scanner::file_name;
use crate::text::chars_of;
use vstd::prelude::*;

verus! {

/// A change to an asset file, by path.
#[derive(Clone, Debug)]
pub enum AssetEvent {
    /// A new file was added to the watched directory.
    Added(String),
    /// An existing file was modified.
    Modified(String),
    /// A file was removed from the watched directory.
    Removed(String),
}

/// Resource that accumulates asset events each tick.
pub struct AssetEvents {
    events: Vec<AssetEvent>,
}

impl AssetEvents {
    /// The buffered events, oldest first.
    pub closed spec fn spec_events(&self) -> Seq<AssetEvent> {
        self.events@
    }

    /// Create an empty event buffer.
    pub fn new() -> (r: AssetEvents)
        ensures
            r.spec_events() == Seq::<AssetEvent>::empty(),
    {
        AssetEvents { events: Vec::new() }
    }

    /// Push an event into the buffer.
    pub fn push(&mut self, event: AssetEvent)
        ensures
            final(self).spec_events() == old(self).spec_events().push(event),
    {
        self.events.push(event);
    }

    /// Drain all events, returning them in order and leaving the buffer empty.
    pub fn drain(&mut self) -> (r: Vec<AssetEvent>)
        ensures
            r@ == old(self).spec_events(),
            final(self).spec_events() == Seq::<AssetEvent>::empty(),
    {
        let mut out: Vec<AssetEvent> = Vec::new();
        std::mem::swap(&mut out, &mut self.events);
        out
    }

    /// Returns `true` if no events are buffered.
    pub fn is_empty(&self) -> (r: bool)
        ensures
            r == (self.spec_events().len() == 0),
    {
        self.events.len() == 0
    }
}

/// `path` names a `.ron` file: its last `/`-separated component is
/// `<stem>.ron` with a stem that is not empty.
pub open spec fn is_ron_file(path: Seq<char>) -> bool {
    let name = file_name(path);
    let n = name.len();
    &&& n > 4
    &&& name[n - 4] == '.'
    &&& name[n - 3] == 'r'
    &&& name[n - 2] == 'o'
    &&& name[n - 1] == 'n'
}

/// The asset event for a debounced change of `path`: none for a change that
/// is still going on or for a file that is not `.ron`; else `Modified` where
/// the file is still present and `Removed` where it does not.
pub fn classify_change(path: String, continuous: bool, present: bool) -> (r: Option<AssetEvent>)
    ensures
        r == (if continuous || !is_ron_file(path@) {
            None
        } else if present {
            Some(AssetEvent::Modified(path))
        } else {
            Some(AssetEvent::Removed(path))
        }),
{
    if continuous {
        return None;
    }
    let v = chars_of(path.as_str());
    let n = crate::route_scanner::file_name_start(&v);
    let len = v.len();
    let ghost name = file_name(v@);
    proof {
        assert(name =~= v@.skip(n as int));
    }
    let ron = len - n > 4 && v[len - 4] == '.' && v[len - 3] == 'r' && v[len - 2] == 'o'
        && v[len - 1] == 'n';
    proof {
        if len - n > 4 {
            assert(name[name.len() - 4] == v@[len - 4]);
            assert(name[name.len() - 3] == v@[len - 3]);
            assert(name[name.len() - 2] == v@[len - 2]);
            assert(name[name.len() - 1] == v@[len - 1]);
        }
    }
    if !ron {
        None
    } else if present {
        Some(AssetEvent::Modified(path))
    } else {
        Some(AssetEvent::Removed(path))
    }
}

} // verus!
